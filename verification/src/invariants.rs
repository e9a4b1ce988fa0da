//! Raft safety invariants, checked after every simulator step.
//!
//! **ElectionSafety** (at most one node ever leads a term), **TermMonotonicity**
//! (a node's term never decreases), **LogMatching**, **StateMachineSafety**, and
//! the **CommittedRegistry** with LeaderCompleteness and CommittedDurability.
//!
//! Every failure carries the run's seed, which replays it exactly.

use std::collections::BTreeMap;

use vstd::prelude::*;

use crate::types;
use crate::types::{Command, CommandView, Entry, LogIndex, NodeId, Term};

verus! {

/// What is broken.
#[derive(Clone, Copy, Debug, PartialEq, Eq)]
pub enum Violation {
    /// Something is put on disk after a message is sent in the same batch.
    PersistAfterSend { node: NodeId },
    /// Something became visible before the node's term was on disk.
    TermNotDurable { node: NodeId },
    /// Something became visible before the node's hard state was on disk.
    HardStateNotDurable { node: NodeId },
    /// Something became visible before the node's log was on disk.
    LogNotDurable { node: NodeId },
    /// An entry was applied out of order.
    AppliedOutOfOrder { node: NodeId, index: LogIndex, expected: LogIndex },
    /// The delay band of the network is empty.
    InvalidDelayBand { min: u64, max: u64 },
    /// More messages are to be dropped than there are values of a roll.
    InvalidDropThreshold { threshold: u64 },
    /// A log does not run 1, 2, 3 and so on with terms that never decrease.
    LogStructure { node: NodeId, durable: bool },
    /// A node's term went back.
    TermWentBack { node: NodeId, from: Term, to: Term },
    /// More is applied than committed, or more committed than held.
    ProgressBounds { node: NodeId },
    /// The applied history is not as long as the last applied index says.
    AppliedCount { node: NodeId },
    /// The applied history skips or repeats an index.
    AppliedIndex { node: NodeId, expected: LogIndex },
    /// An applied command is not the one in the log.
    AppliedCommand { node: NodeId, index: LogIndex },
    /// Two different entries were committed at one index.
    RegistryConflict { index: LogIndex },
    /// The hard state differs from the disk after a step.
    DiskHardStateDiverged { node: NodeId },
    /// The log differs from the disk after a step.
    DiskLogDiverged { node: NodeId },
    /// Two logs agree on a term at an index but not on what comes before.
    LogMatching { a: NodeId, b: NodeId },
    /// Two nodes applied different commands.
    StateMachineSafety { a: NodeId, b: NodeId },
    /// Two nodes led one term.
    ElectionSafety { term: Term, first: NodeId, second: NodeId },
    /// A leader was elected without a committed entry.
    LeaderCompleteness { leader: NodeId, term: Term, index: LogIndex },
    /// A committed entry is on fewer disks than a majority.
    CommittedDurability { index: LogIndex },
    /// What is on disk cannot be booted from.
    RestoreRefused { node: NodeId },
    /// The term cannot grow any more.
    TermExhausted { node: NodeId },
}

/// A broken invariant, and the seed that replays it.
#[derive(Clone, Copy, Debug, PartialEq, Eq)]
pub struct Failure {
    pub seed: u64,
    pub what: Violation,
}

/// Every leader ever observed, by term.
#[derive(Debug)]
pub struct Invariants {
    leaders_by_term: BTreeMap<Term, NodeId>,
}

impl Default for Invariants {
    fn default() -> (out: Self)
        ensures
            out@ == Map::<Term, NodeId>::empty(),
    {
        Invariants { leaders_by_term: BTreeMap::new() }
    }
}

impl View for Invariants {
    type V = Map<Term, NodeId>;

    closed spec fn view(&self) -> Map<Term, NodeId> {
        self.leaders_by_term@
    }
}

/// The leaders observed, with one more; a second one in a term is split brain.
pub open spec fn with_leader(
    leaders: Map<Term, NodeId>,
    seed: u64,
    term: Term,
    id: NodeId,
) -> Result<Map<Term, NodeId>, Failure> {
    if leaders.contains_key(term) && leaders[term] != id {
        Err(
            Failure {
                seed,
                what: Violation::ElectionSafety { term, first: leaders[term], second: id },
            },
        )
    } else {
        Ok(leaders.insert(term, id))
    }
}

/// The term is lower than it was.
pub open spec fn went_back(prev: Term, current: Term) -> bool {
    current < prev
}

impl Invariants {
    /// ElectionSafety: called the moment any node reaches leadership.
    pub fn on_leader_elected(&mut self, seed: u64, term: Term, id: NodeId) -> (out: Result<
        (),
        Failure,
    >)
        ensures
            match out {
                Ok(()) => with_leader(old(self)@, seed, term, id) == Ok::<_, Failure>(final(self)@),
                Err(e) => {
                    &&& with_leader(old(self)@, seed, term, id) == Err::<Map<Term, NodeId>, _>(e)
                    &&& final(self)@ == old(self)@
                },
            },
    {
        match self.leaders_by_term.get(&term) {
            Some(existing) => {
                if *existing != id {
                    return Err(
                        Failure {
                            seed,
                            what: Violation::ElectionSafety { term, first: *existing, second: id },
                        },
                    );
                }
                assert(self@.insert(term, id) =~= self@);
                Ok(())
            },
            None => {
                self.leaders_by_term.insert(term, id);
                Ok(())
            },
        }
    }

    /// TermMonotonicity: checked after every step of the node that stepped.
    pub fn check_term_monotonic(seed: u64, id: NodeId, prev: Term, current: Term) -> (out: Result<
        (),
        Failure,
    >)
        ensures
            out == if current >= prev {
                Ok::<(), Failure>(())
            } else {
                Err::<(), Failure>(
                    Failure {
                        seed,
                        what: Violation::TermWentBack { node: id, from: prev, to: current },
                    },
                )
            },
            out is Err <==> went_back(prev, current),
    {
        if current >= prev {
            Ok(())
        } else {
            Err(
                Failure {
                    seed,
                    what: Violation::TermWentBack { node: id, from: prev, to: current },
                },
            )
        }
    }

    /// Every (term → leader) pair ever observed.
    pub fn leaders_by_term(&self) -> (leaders: &BTreeMap<Term, NodeId>)
        ensures
            leaders@ == self@,
    {
        &self.leaders_by_term
    }
}

/// LogMatching: wherever both logs hold an entry with the same index and term,
/// they are identical up through that index.
pub open spec fn logs_match(a: Seq<Entry>, b: Seq<Entry>) -> bool {
    forall|i: int|
        0 <= i < a.len() && i < b.len() && (#[trigger] a[i]).term == b[i].term ==> types::log_view(
            a.take(i + 1),
        ) == types::log_view(b.take(i + 1))
}

/// Whether the first `n` entries are the same.
fn same_prefix(a: &[Entry], b: &[Entry], n: usize) -> (same: bool)
    requires
        n <= a@.len(),
        n <= b@.len(),
    ensures
        same == (types::log_view(a@.take(n as int)) == types::log_view(b@.take(n as int))),
{
    let mut i: usize = 0;
    while i < n
        invariant
            i <= n,
            n <= a@.len(),
            n <= b@.len(),
            forall|j: int| 0 <= j < i ==> (#[trigger] a@[j])@ == b@[j]@,
        decreases n - i,
    {
        if !a[i].same(&b[i]) {
            proof {
                let x = types::log_view(a@.take(n as int));
                let y = types::log_view(b@.take(n as int));
                assert(x[i as int] != y[i as int]);
            }
            return false;
        }
        i = i + 1;
    }
    assert(types::log_view(a@.take(n as int)) =~= types::log_view(b@.take(n as int)));
    true
}

/// LogMatching of two nodes' logs. It suffices to find the last common index
/// with equal terms and compare the prefixes there.
pub fn check_log_matching(
    seed: u64,
    a_id: NodeId,
    a: &[Entry],
    b_id: NodeId,
    b: &[Entry],
) -> (out: Result<(), Failure>)
    ensures
        out == if logs_match(a@, b@) {
            Ok::<(), Failure>(())
        } else {
            Err::<(), Failure>(Failure { seed, what: Violation::LogMatching { a: a_id, b: b_id } })
        },
{
    let mut i: usize = if a.len() < b.len() {
        a.len()
    } else {
        b.len()
    };
    while i > 0 && a[i - 1].term != b[i - 1].term
        invariant
            i <= a@.len(),
            i <= b@.len(),
            forall|j: int|
                i <= j < a@.len() && j < b@.len() ==> (#[trigger] a@[j]).term != b@[j].term,
        decreases i,
    {
        i = i - 1;
    }
    if i > 0 && !same_prefix(a, b, i) {
        assert(a@[i - 1].term == b@[i - 1].term);
        return Err(Failure { seed, what: Violation::LogMatching { a: a_id, b: b_id } });
    }
    proof {
        assert forall|k: int|
            0 <= k < a@.len() && k < b@.len() && (#[trigger] a@[k]).term == b@[k].term implies
            types::log_view(a@.take(k + 1)) == types::log_view(b@.take(k + 1)) by {
            let x = types::log_view(a@.take(i as int));
            let y = types::log_view(b@.take(i as int));
            assert(k < i);
            assert(types::log_view(a@.take(k + 1)) =~= x.take(k + 1));
            assert(types::log_view(b@.take(k + 1)) =~= y.take(k + 1));
        }
    }
    Ok(())
}

/// A log's indices run 1, 2, 3 and so on, and its terms never decrease.
pub open spec fn structured(log: Seq<Entry>) -> bool {
    types::contiguous(log) && types::nondecreasing_terms(log)
}

/// The structure of one log, in memory or on disk.
pub fn check_log_structure(seed: u64, id: NodeId, durable: bool, log: &[Entry]) -> (out: Result<
    (),
    Failure,
>)
    ensures
        out == if structured(log@) {
            Ok::<(), Failure>(())
        } else {
            Err::<(), Failure>(
                Failure { seed, what: Violation::LogStructure { node: id, durable } },
            )
        },
{
    let mut i: usize = 0;
    while i < log.len()
        invariant
            i <= log@.len(),
            forall|j: int| 0 <= j < i ==> (#[trigger] log@[j]).index == j + 1,
            forall|a: int, b: int| 0 <= a <= b < i ==> log@[a].term <= log@[b].term,
        decreases log@.len() - i,
    {
        if log[i].index != (i as u64) + 1 || (i > 0 && log[i].term < log[i - 1].term) {
            assert(log@[i as int].index == i + 1 ==> log@[i - 1].term > log@[i as int].term);
            return Err(Failure { seed, what: Violation::LogStructure { node: id, durable } });
        }
        i = i + 1;
    }
    Ok(())
}

/// An applied history with its commands' strings as sequences of characters.
pub open spec fn history_view(history: Seq<(LogIndex, Command)>) -> Seq<(LogIndex, CommandView)> {
    history.map_values(|a: (LogIndex, Command)| (a.0, a.1@))
}

/// StateMachineSafety: the two histories are the same as far as both go.
pub open spec fn histories_agree(
    a: Seq<(LogIndex, Command)>,
    b: Seq<(LogIndex, Command)>,
) -> bool {
    forall|i: int|
        0 <= i < a.len() && i < b.len() ==> (#[trigger] history_view(a)[i]) == history_view(b)[i]
}

/// StateMachineSafety of two nodes' applied histories.
pub fn check_applied_agreement(
    seed: u64,
    a_id: NodeId,
    a: &[(LogIndex, Command)],
    b_id: NodeId,
    b: &[(LogIndex, Command)],
) -> (out: Result<(), Failure>)
    ensures
        out == if histories_agree(a@, b@) {
            Ok::<(), Failure>(())
        } else {
            Err::<(), Failure>(
                Failure { seed, what: Violation::StateMachineSafety { a: a_id, b: b_id } },
            )
        },
{
    let mut i: usize = 0;
    while i < a.len() && i < b.len()
        invariant
            i <= a@.len(),
            i <= b@.len(),
            forall|j: int| 0 <= j < i ==> #[trigger] history_view(a@)[j] == history_view(b@)[j],
        decreases a@.len() - i,
    {
        if a[i].0 != b[i].0 || !a[i].1.same(&b[i].1) {
            assert(history_view(a@)[i as int] != history_view(b@)[i as int]);
            return Err(
                Failure { seed, what: Violation::StateMachineSafety { a: a_id, b: b_id } },
            );
        }
        i = i + 1;
    }
    Ok(())
}

/// The committed-entry registry: an entry is recorded the moment its index
/// becomes committed on a leader in its own term - the only place where
/// commitment is ever defined; followers merely learn of it.
#[derive(Debug)]
pub struct CommittedRegistry {
    entries: BTreeMap<LogIndex, Entry>,
}

impl Default for CommittedRegistry {
    fn default() -> (out: Self)
        ensures
            out@ == Map::<LogIndex, Entry>::empty(),
    {
        CommittedRegistry { entries: BTreeMap::new() }
    }
}

impl View for CommittedRegistry {
    type V = Map<LogIndex, Entry>;

    closed spec fn view(&self) -> Map<LogIndex, Entry> {
        self.entries@
    }
}

/// The registry with one more committed entry; a different one at the same index
/// is the exact disaster that consensus exists to prevent.
pub open spec fn with_committed(
    entries: Map<LogIndex, Entry>,
    seed: u64,
    entry: Entry,
) -> Result<Map<LogIndex, Entry>, Failure> {
    if !entries.contains_key(entry.index) {
        Ok(entries.insert(entry.index, entry))
    } else if entries[entry.index]@ == entry@ {
        Ok(entries)
    } else {
        Err(Failure { seed, what: Violation::RegistryConflict { index: entry.index } })
    }
}

/// Whether the log holds the entry at the index.
pub open spec fn holds_at(log: Seq<Entry>, index: LogIndex, entry: Entry) -> bool {
    1 <= index <= log.len() && log[index - 1]@ == entry@
}

/// Whether the log lacks the entry committed at the index.
pub open spec fn lacks(entries: Map<LogIndex, Entry>, log: Seq<Entry>, index: LogIndex) -> bool {
    entries.contains_key(index) && !holds_at(log, index, entries[index])
}

/// The least index at which the log lacks a committed entry.
pub open spec fn first_lacking(
    entries: Map<LogIndex, Entry>,
    log: Seq<Entry>,
    index: LogIndex,
) -> bool {
    lacks(entries, log, index) && forall|k: LogIndex| k < index ==> !#[trigger] lacks(
        entries,
        log,
        k,
    )
}

/// Whether the log holds the entry at the index.
pub fn log_holds(log: &[Entry], index: LogIndex, entry: &Entry) -> (held: bool)
    ensures
        held == holds_at(log@, index, *entry),
{
    if index == 0 || index > log.len() as u64 {
        return false;
    }
    log[(index - 1) as usize].same(entry)
}

impl CommittedRegistry {
    /// Record a committed entry.
    pub fn record(&mut self, seed: u64, entry: &Entry) -> (out: Result<(), Failure>)
        ensures
            match out {
                Ok(()) => with_committed(old(self)@, seed, *entry) == Ok::<_, Failure>(final(self)@),
                Err(e) => {
                    &&& with_committed(old(self)@, seed, *entry) == Err::<
                        Map<LogIndex, Entry>,
                        _,
                    >(e)
                    &&& final(self)@ == old(self)@
                },
            },
    {
        match self.entries.get(&entry.index) {
            Some(existing) => {
                if existing.same(entry) {
                    Ok(())
                } else {
                    Err(Failure { seed, what: Violation::RegistryConflict { index: entry.index } })
                }
            },
            None => {
                self.entries.insert(entry.index, entry.clone());
                Ok(())
            },
        }
    }

    /// LeaderCompleteness: checked the moment any node becomes leader - every
    /// entry ever committed must already be in its log. The least index at which
    /// one is missing is reported.
    pub fn assert_all_in_leader_log(
        &self,
        seed: u64,
        leader: NodeId,
        term: Term,
        log: &[Entry],
    ) -> (out: Result<(), Failure>)
        ensures
            match out {
                Ok(()) => forall|k: LogIndex| !#[trigger] lacks(self@, log@, k),
                Err(e) => exists|k: LogIndex| #[trigger]
                    first_lacking(self@, log@, k) && e == (Failure {
                        seed,
                        what: Violation::LeaderCompleteness { leader, term, index: k },
                    }),
            },
    {
        let ghost all = self@;
        for (index, entry) in pairs: self.entries.iter()
            invariant
                all == self.entries@,
                pairs_of(all, pairs.seq()),
                forall|j: int|
                    0 <= j < pairs.index() ==> !lacks(all, log@, *(#[trigger] pairs.seq()[j]).0),
                pairs.index() == pairs.seq().len() ==> forall|k: LogIndex|
                    !#[trigger] lacks(all, log@, k),
        {
            let ghost at = pairs.index() as int;
            assert(pairs.seq()[at] == (index, entry));
            if !log_holds(log, *index, entry) {
                proof {
                    assert(lacks(all, log@, *index));
                    lemma_first_pair(all, log@, pairs.seq(), at);
                    assert(first_lacking(self@, log@, *index));
                }
                return Err(
                    Failure {
                        seed,
                        what: Violation::LeaderCompleteness { leader, term, index: *index },
                    },
                );
            }
            proof {
                lemma_all_pairs(all, log@, pairs.seq(), at + 1);
            }
        }
        Ok(())
    }

    pub fn get(&self, index: LogIndex) -> (entry: Option<&Entry>)
        ensures
            match entry {
                Some(e) => self@.contains_key(index) && *e == self@[index],
                None => !self@.contains_key(index),
            },
    {
        self.entries.get(&index)
    }

    pub fn len(&self) -> (n: usize)
        ensures
            n == self@.dom().len(),
    {
        self.entries.len()
    }

    pub fn is_empty(&self) -> (empty: bool)
        ensures
            empty == (self@.dom().len() == 0),
    {
        self.entries.len() == 0
    }

    /// The committed entries by index.
    pub fn entries(&self) -> (entries: &BTreeMap<LogIndex, Entry>)
        ensures
            entries@ == self@,
    {
        &self.entries
    }
}

/// All the pairs of a map, the keys in ascending order.
pub open spec fn pairs_of(map: Map<LogIndex, Entry>, pairs: Seq<(&LogIndex, &Entry)>) -> bool {
    &&& vstd::std_specs::btree::increasing_seq(
        pairs.map_values(|kv: (&LogIndex, &Entry)| *kv.0),
    )
    &&& forall|j: int|
        0 <= j < pairs.len() ==> map.contains_key(*(#[trigger] pairs[j]).0) && map[*pairs[j].0]
            == *pairs[j].1
    &&& forall|k: LogIndex| #[trigger] map.contains_key(k) ==> pairs.contains((&k, &map[k]))
}

/// The keys of the pairs ascend, and every key is among them.
pub proof fn lemma_pairs(map: Map<LogIndex, Entry>, pairs: Seq<(&LogIndex, &Entry)>)
    requires
        pairs_of(map, pairs),
    ensures
        forall|i: int, j: int|
            #![trigger pairs[i], pairs[j]]
            0 <= i < j < pairs.len() ==> *pairs[i].0 < *pairs[j].0,
        forall|k: LogIndex| #[trigger]
            map.contains_key(k) ==> exists|j: int| 0 <= j < pairs.len() && *(#[trigger] pairs[j]).0 == k,
{
    let firsts = pairs.map_values(|kv: (&LogIndex, &Entry)| *kv.0);
    assert forall|i: int, j: int|
        #![trigger pairs[i], pairs[j]]
        0 <= i < j < pairs.len() implies *pairs[i].0 < *pairs[j].0 by {
        assert(firsts[i] == *pairs[i].0 && firsts[j] == *pairs[j].0);
        assert(vstd::std_specs::cmp::OrdSpec::cmp_spec(&firsts[i], &firsts[j]) is Less);
    }
    assert forall|k: LogIndex| #[trigger] map.contains_key(k) implies exists|j: int|
        0 <= j < pairs.len() && *(#[trigger] pairs[j]).0 == k by {
        let j = choose|j: int| 0 <= j < pairs.len() && pairs[j] == (&k, &map[k]);
        assert(*pairs[j].0 == k);
    }
}

proof fn lemma_first_pair(
    map: Map<LogIndex, Entry>,
    log: Seq<Entry>,
    pairs: Seq<(&LogIndex, &Entry)>,
    at: int,
)
    requires
        pairs_of(map, pairs),
        0 <= at < pairs.len(),
        forall|j: int| 0 <= j < at ==> !lacks(map, log, *(#[trigger] pairs[j]).0),
        lacks(map, log, *pairs[at].0),
    ensures
        first_lacking(map, log, *pairs[at].0),
{
    lemma_pairs(map, pairs);
    assert forall|k: LogIndex| k < *pairs[at].0 implies !#[trigger] lacks(map, log, k) by {
        if map.contains_key(k) {
            let j = choose|j: int| 0 <= j < pairs.len() && *(#[trigger] pairs[j]).0 == k;
            assert(j < at);
        }
    }
}

proof fn lemma_all_pairs(
    map: Map<LogIndex, Entry>,
    log: Seq<Entry>,
    pairs: Seq<(&LogIndex, &Entry)>,
    seen: int,
)
    requires
        pairs_of(map, pairs),
        0 <= seen <= pairs.len(),
        forall|j: int| 0 <= j < seen ==> !lacks(map, log, *(#[trigger] pairs[j]).0),
    ensures
        seen == pairs.len() ==> forall|k: LogIndex| !#[trigger] lacks(map, log, k),
{
    lemma_pairs(map, pairs);
    if seen == pairs.len() {
        assert forall|k: LogIndex| !#[trigger] lacks(map, log, k) by {
            if map.contains_key(k) {
                let j = choose|j: int| 0 <= j < pairs.len() && *(#[trigger] pairs[j]).0 == k;
            }
        }
    }
}

/// A term never has two leaders recorded: a second one is refused and both are
/// named; else the leader is recorded, and nothing else changes. A term that falls
/// is always told.
pub proof fn law_a_second_leader_is_split_brain(
    leaders: Map<Term, NodeId>,
    seed: u64,
    term: Term,
    id: NodeId,
    prev: Term,
)
    ensures
        match with_leader(leaders, seed, term, id) {
            Ok(after) => {
                &&& leaders.contains_key(term) ==> leaders[term] == id
                &&& after.contains_key(term) && after[term] == id
                &&& forall|u: Term|
                    u != term ==> (#[trigger] after.contains_key(u) <==> leaders.contains_key(u))
                        && (leaders.contains_key(u) ==> after[u] == leaders[u])
            },
            Err(e) => {
                &&& leaders.contains_key(term) && leaders[term] != id
                &&& e.seed == seed
                &&& e.what == (Violation::ElectionSafety {
                    term,
                    first: leaders[term],
                    second: id,
                })
            },
        },
        went_back(prev, term) <==> !(term >= prev),
{
}

/// Two logs match just where, wherever they have an entry of the same term at the
/// same place, every entry up to it is the same in both.
pub proof fn law_matching_logs_are_the_same_up_to_a_common_entry(a: Seq<Entry>, b: Seq<Entry>)
    ensures
        logs_match(a, b) <==> forall|i: int, j: int|
            #![trigger a[i], a[j]]
            0 <= j <= i && i < a.len() && i < b.len() && a[i].term == b[i].term ==> a[j]@ == b[j]@,
{
    if logs_match(a, b) {
        assert forall|i: int, j: int|
            #![trigger a[i], a[j]]
            0 <= j <= i && i < a.len() && i < b.len() && a[i].term == b[i].term implies a[j]@
            == b[j]@ by {
            let x = types::log_view(a.take(i + 1));
            let y = types::log_view(b.take(i + 1));
            assert(x == y);
            assert(x[j] == a[j]@ && y[j] == b[j]@);
        }
    } else {
        let i = choose|i: int|
            0 <= i < a.len() && i < b.len() && (#[trigger] a[i]).term == b[i].term
                && types::log_view(a.take(i + 1)) != types::log_view(b.take(i + 1));
        let x = types::log_view(a.take(i + 1));
        let y = types::log_view(b.take(i + 1));
        if forall|k: int, j: int|
            #![trigger a[k], a[j]]
            0 <= j <= k && k < a.len() && k < b.len() && a[k].term == b[k].term ==> a[j]@ == b[j]@ {
            assert forall|j: int| 0 <= j < x.len() implies x[j] == y[j] by {
                assert(a[i].term == b[i].term);
                assert(a[j]@ == b[j]@);
            }
            assert(x =~= y);
        }
    }
}

/// A log is well structured just where its indices run 1, 2, 3 and so on, and no
/// term is lower than the one before it.
pub proof fn law_a_structured_log(log: Seq<Entry>)
    ensures
        structured(log) <==> forall|i: int|
            0 <= i < log.len() ==> (#[trigger] log[i]).index == i + 1 && (i > 0 ==> log[i - 1].term
                <= log[i].term),
{
    if forall|i: int|
        0 <= i < log.len() ==> (#[trigger] log[i]).index == i + 1 && (i > 0 ==> log[i - 1].term
            <= log[i].term) {
        assert forall|a: int, b: int| 0 <= a <= b < log.len() implies log[a].term
            <= log[b].term by {
            lemma_rising(log, a, b);
        }
    }
}

proof fn lemma_rising(log: Seq<Entry>, a: int, b: int)
    requires
        0 <= a <= b < log.len(),
        forall|i: int|
            0 <= i < log.len() ==> (#[trigger] log[i]).index == i + 1 && (i > 0 ==> log[i - 1].term
                <= log[i].term),
    ensures
        log[a].term <= log[b].term,
    decreases b - a,
{
    if a < b {
        lemma_rising(log, a, b - 1);
        assert(log[b].index == b + 1);
    }
}

/// Two histories agree just where, as far as both go, the same command was applied
/// at the same index.
pub proof fn law_agreeing_histories(a: Seq<(LogIndex, Command)>, b: Seq<(LogIndex, Command)>)
    ensures
        histories_agree(a, b) <==> forall|i: int|
            0 <= i < a.len() && i < b.len() ==> (#[trigger] a[i]).0 == b[i].0 && a[i].1@ == b[i].1@,
{
    assert forall|i: int| 0 <= i < a.len() && i < b.len() implies history_view(a)[i] == (
        a[i].0,
        a[i].1@,
    ) && history_view(b)[i] == (b[i].0, b[i].1@) by {}
    if histories_agree(a, b) {
        assert forall|i: int| 0 <= i < a.len() && i < b.len() implies (#[trigger] a[i]).0 == b[i].0
            && a[i].1@ == b[i].1@ by {
            assert(history_view(a)[i] == history_view(b)[i]);
        }
    }
}

/// What is registered as committed at an index stays: the same entry again changes
/// nothing, and another one is refused.
pub proof fn law_a_committed_entry_stays(
    registry: Map<LogIndex, Entry>,
    seed: u64,
    entry: Entry,
)
    ensures
        match with_committed(registry, seed, entry) {
            Ok(after) => {
                &&& registry.contains_key(entry.index) ==> registry[entry.index]@ == entry@
                    && after == registry
                &&& after.contains_key(entry.index) && after[entry.index]@ == entry@
                &&& forall|k: LogIndex|
                    k != entry.index ==> (#[trigger] after.contains_key(k)
                        <==> registry.contains_key(k)) && (registry.contains_key(k) ==> after[k]
                        == registry[k])
            },
            Err(e) => {
                &&& registry.contains_key(entry.index) && registry[entry.index]@ != entry@
                &&& e.seed == seed
                &&& e.what == (Violation::RegistryConflict { index: entry.index })
            },
        },
{
}

/// A log lacks a registered entry just where it is too short for it, or holds
/// another in its place.
pub proof fn law_a_log_lacks_what_it_does_not_hold(
    registry: Map<LogIndex, Entry>,
    log: Seq<Entry>,
    index: LogIndex,
)
    requires
        1 <= index,
        registry.contains_key(index),
    ensures
        lacks(registry, log, index) <==> index > log.len() || log[index - 1]@ != registry[index]@,
        holds_at(log, index, registry[index]) <==> !lacks(registry, log, index),
{
}

/// The entry that is reported as missing is the one of the least index.
pub proof fn law_the_first_missing_entry_is_reported(
    registry: Map<LogIndex, Entry>,
    log: Seq<Entry>,
    index: LogIndex,
    other: LogIndex,
)
    requires
        first_lacking(registry, log, index),
        other >= 1,
        registry.contains_key(other),
        other > log.len() || log[other - 1]@ != registry[other]@,
    ensures
        registry.contains_key(index),
        index <= other,
        index >= 1 ==> index > log.len() || log[index - 1]@ != registry[index]@,
{
    assert(lacks(registry, log, other));
}

} // verus!
