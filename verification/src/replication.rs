//! Log replication and commitment: consistency checks, conflict repair,
//! follower commit updates, leader progress tracking, client proposals, and
//! the current-term rule for advancing the commit index.

use std::collections::BTreeMap;

use vstd::prelude::*;

use crate::message;
use crate::message::{emit, Effect, EffectView, MessageView, RaftMessage};
use crate::node::{NodeView, Outcome, RaftNode, MAX_APPEND_ENTRIES};
use crate::types;
use crate::types::{copy_entries, Command, Entry, LogIndex, NodeId, Role, RoleView, Term};

verus! {

/// Whether an AppendEntries payload is well framed: its indices follow the
/// anchor without a gap and without overflow, and its terms never decrease,
/// from the anchor's on, and never pass the message's term.
pub open spec fn well_framed(
    message_term: Term,
    prev_log_index: LogIndex,
    prev_log_term: Term,
    entries: Seq<Entry>,
) -> bool {
    &&& prev_log_term <= message_term
    &&& prev_log_index + entries.len() <= u64::MAX
    &&& forall|i: int|
        0 <= i < entries.len() ==> (#[trigger] entries[i]).index == prev_log_index + 1 + i
    &&& forall|i: int|
        0 <= i < entries.len() ==> prev_log_term <= (#[trigger] entries[i]).term <= message_term
    &&& types::nondecreasing_terms(entries)
}

/// Validate the framing of an AppendEntries payload and return the last index
/// that the message covers. An empty heartbeat covers its anchor.
pub fn validate_append_entries(
    message_term: Term,
    prev_log_index: LogIndex,
    prev_log_term: Term,
    entries: &[Entry],
) -> (last: Option<LogIndex>)
    ensures
        last is Some <==> well_framed(message_term, prev_log_index, prev_log_term, entries@),
        last matches Some(index) ==> index == prev_log_index + entries@.len(),
{
    if prev_log_term > message_term {
        return None;
    }
    let last_index: LogIndex = match prev_log_index.checked_add(entries.len() as u64) {
        Some(index) => index,
        None => {
            return None;
        },
    };
    let mut previous_term: Term = prev_log_term;
    let mut i: usize = 0;
    while i < entries.len()
        invariant
            i <= entries@.len(),
            prev_log_index + entries@.len() == last_index,
            prev_log_term <= previous_term <= message_term,
            i == 0 ==> previous_term == prev_log_term,
            i > 0 ==> previous_term == entries@[i - 1].term,
            forall|j: int|
                0 <= j < i ==> (#[trigger] entries@[j]).index == prev_log_index + 1 + j,
            forall|j: int|
                0 <= j < i ==> prev_log_term <= (#[trigger] entries@[j]).term <= previous_term,
            forall|j: int, k: int| 0 <= j <= k < i ==> entries@[j].term <= entries@[k].term,
        decreases entries@.len() - i,
    {
        let expected: LogIndex = prev_log_index + 1 + (i as u64);
        if entries[i].index != expected || entries[i].term < previous_term || entries[i].term
            > message_term {
            assert(entries@[i as int].term < previous_term ==> i == 0
                || entries@[i - 1].term > entries@[i as int].term);
            return None;
        }
        previous_term = entries[i].term;
        i = i + 1;
    }
    Some(last_index)
}

/// How many of the watermarks have reached `n`.
pub open spec fn reached(marks: Seq<LogIndex>, n: LogIndex) -> nat {
    marks.filter(|m: LogIndex| m >= n).len()
}

/// Whether index `n` may be committed in `current_term`: a strict majority of
/// the watermarks has reached it, and its entry is of the current term.
pub open spec fn committable(
    n: LogIndex,
    current_term: Term,
    log: Seq<Entry>,
    marks: Seq<LogIndex>,
) -> bool {
    &&& reached(marks, n) >= marks.len() / 2 + 1
    &&& log[n - 1].term == current_term
}

/// How many of the watermarks have reached `n`.
fn count_reached(marks: &[LogIndex], n: LogIndex) -> (count: usize)
    ensures
        count == reached(marks@, n),
{
    let mut count: usize = 0;
    let mut i: usize = 0;
    while i < marks.len()
        invariant
            i <= marks@.len(),
            count <= i,
            count == reached(marks@.take(i as int), n),
        decreases marks@.len() - i,
    {
        proof {
            lemma_reached_push(marks@.take(i as int), marks@[i as int], n);
            assert(marks@.take(i + 1) =~= marks@.take(i as int).push(marks@[i as int]));
        }
        if marks[i] >= n {
            count = count + 1;
        }
        i = i + 1;
    }
    assert(marks@.take(i as int) =~= marks@);
    count
}

proof fn lemma_reached_push(marks: Seq<LogIndex>, mark: LogIndex, n: LogIndex)
    ensures
        reached(marks.push(mark), n) == reached(marks, n) + if mark >= n {
            1nat
        } else {
            0
        },
{
    reveal(Seq::filter);
    assert(marks.push(mark).drop_last() =~= marks);
}

/// Whether this is where the commit index moves to, if anywhere.
pub open spec fn commits_next(
    current: LogIndex,
    term: Term,
    log: Seq<Entry>,
    marks: Seq<LogIndex>,
    advanced: Option<LogIndex>,
) -> bool {
    match advanced {
        Some(n) => {
            &&& current < n <= types::last_index(log)
            &&& committable(n, term, log, marks)
            &&& forall|m: LogIndex|
                n < m <= types::last_index(log) ==> !(#[trigger] committable(m, term, log, marks))
        },
        None => forall|m: LogIndex|
            current < m <= types::last_index(log) ==> !(#[trigger] committable(
                m,
                term,
                log,
                marks,
            )),
    }
}

/// The commitment rule as a pure function.
///
/// `match_indexes` carries one replication watermark per cluster member, the
/// leader's own log length included. Returns the largest index beyond
/// `current` that a strict majority has reached AND whose entry is of the
/// current term: replication of an entry of a prior term on a majority alone
/// must never advance the commit index.
pub fn commit_advance(
    current: LogIndex,
    current_term: Term,
    log: &[Entry],
    match_indexes: &[LogIndex],
) -> (advanced: Option<LogIndex>)
    requires
        types::last_index(log@) <= log@.len(),
    ensures
        match advanced {
            Some(n) => {
                &&& current < n <= types::last_index(log@)
                &&& committable(n, current_term, log@, match_indexes@)
                &&& forall|m: LogIndex|
                    n < m <= types::last_index(log@) ==> !(#[trigger] committable(
                        m,
                        current_term,
                        log@,
                        match_indexes@,
                    ))
            },
            None => forall|m: LogIndex|
                current < m <= types::last_index(log@) ==> !(#[trigger] committable(
                    m,
                    current_term,
                    log@,
                    match_indexes@,
                )),
        },
        commits_next(current, current_term, log@, match_indexes@, advanced),
{
    let majority: usize = match_indexes.len() / 2 + 1;
    let mut n: LogIndex = if log.len() == 0 {
        0
    } else {
        log[log.len() - 1].index
    };
    while n > current
        invariant
            n <= types::last_index(log@) <= log@.len(),
            majority == match_indexes@.len() / 2 + 1,
            forall|m: LogIndex|
                n < m <= types::last_index(log@) ==> !(#[trigger] committable(
                    m,
                    current_term,
                    log@,
                    match_indexes@,
                )),
        decreases n,
    {
        if count_reached(match_indexes, n) >= majority && log[(n - 1) as usize].term
            == current_term {
            return Some(n);
        }
        n = n - 1;
    }
    None
}

/// The peers known to hold the log up to index `n`.
pub open spec fn holders(match_index: Map<NodeId, LogIndex>, n: LogIndex) -> Set<NodeId> {
    match_index.dom().filter(|p: NodeId| match_index[p] >= n)
}

/// Whether a leader may commit index `n`: a strict majority of the cluster
/// holds it, counting the leader itself, and its entry is of the leader's term.
pub open spec fn may_commit(
    n: LogIndex,
    term: Term,
    log: Seq<Entry>,
    match_index: Map<NodeId, LogIndex>,
) -> bool {
    &&& holders(match_index, n).len() + 1 >= (match_index.dom().len() + 1) / 2 + 1
    &&& log[n - 1].term == term
}

/// The greatest index in `floor + 1 ..= n` that the leader may commit, if any.
pub open spec fn commit_target(
    n: LogIndex,
    floor: LogIndex,
    term: Term,
    log: Seq<Entry>,
    match_index: Map<NodeId, LogIndex>,
) -> Option<LogIndex>
    decreases n,
{
    if n <= floor {
        None
    } else if may_commit(n, term, log, match_index) {
        Some(n)
    } else {
        commit_target((n - 1) as u64, floor, term, log, match_index)
    }
}

/// The commit target may be committed, and nothing above it may.
pub proof fn lemma_commit_target(
    n: LogIndex,
    floor: LogIndex,
    term: Term,
    log: Seq<Entry>,
    match_index: Map<NodeId, LogIndex>,
)
    ensures
        match commit_target(n, floor, term, log, match_index) {
            Some(m) => floor < m <= n && may_commit(m, term, log, match_index) && forall|
                k: LogIndex,
            |
                m < k <= n ==> !#[trigger] may_commit(k, term, log, match_index),
            None => forall|k: LogIndex|
                floor < k <= n ==> !#[trigger] may_commit(k, term, log, match_index),
        },
    decreases n,
{
    if n > floor && !may_commit(n, term, log, match_index) {
        lemma_commit_target((n - 1) as u64, floor, term, log, match_index);
    }
}

/// A leader's commit target lies beyond what is committed, within the log, and
/// may be committed.
pub proof fn lemma_commit_target_floor(s: NodeView)
    requires
        s.wf(),
    ensures
        forall|marks: Map<NodeId, LogIndex>|
            #![trigger commit_target(
                types::last_index(s.log),
                s.commit_index,
                s.hard.current_term,
                s.log,
                marks,
            )]
            commit_target(
                types::last_index(s.log),
                s.commit_index,
                s.hard.current_term,
                s.log,
                marks,
            ) matches Some(n) ==> s.commit_index < n <= s.log.len() && may_commit(
                n,
                s.hard.current_term,
                s.log,
                marks,
            ),
{
    assert forall|marks: Map<NodeId, LogIndex>|
        #![trigger commit_target(
            types::last_index(s.log),
            s.commit_index,
            s.hard.current_term,
            s.log,
            marks,
        )]
        commit_target(
            types::last_index(s.log),
            s.commit_index,
            s.hard.current_term,
            s.log,
            marks,
        ) matches Some(n) ==> s.commit_index < n <= s.log.len() && may_commit(
            n,
            s.hard.current_term,
            s.log,
            marks,
        ) by {
        lemma_commit_target(
            types::last_index(s.log),
            s.commit_index,
            s.hard.current_term,
            s.log,
            marks,
        );
    }
}

/// How many of the leading entries of a payload the log holds already: those
/// of the same term at the same index. Counted from the `k`-th on.
pub open spec fn held(log: Seq<Entry>, prev: LogIndex, entries: Seq<Entry>, k: int) -> int
    decreases entries.len() - k,
{
    if 0 <= k < entries.len() && prev + k < log.len() && log[prev + k].term == entries[k].term {
        held(log, prev, entries, k + 1)
    } else {
        k
    }
}

/// The log after a payload has been taken: what it held already stays, and
/// the rest of the payload replaces whatever stood in its place. A payload
/// that brings nothing new changes nothing, so no repeated or reordered
/// message can shrink the log.
pub open spec fn merged(log: Seq<Entry>, prev: LogIndex, entries: Seq<Entry>) -> Seq<Entry> {
    let k = held(log, prev, entries, 0);
    if k == entries.len() {
        log
    } else {
        log.take(prev + k) + entries.skip(k)
    }
}

/// What [`held`] counts is held, and the count stops only at the end of the
/// payload, at the end of the log, or at an entry of another term.
pub proof fn lemma_held(log: Seq<Entry>, prev: LogIndex, entries: Seq<Entry>, k: int)
    requires
        0 <= k <= entries.len(),
    ensures
        ({
            let n = held(log, prev, entries, k);
            &&& k <= n <= entries.len()
            &&& forall|i: int|
                #![trigger entries[i]]
                k <= i < n ==> prev + i < log.len() && log[prev + i].term == entries[i].term
            &&& n < entries.len() && prev + n < log.len() ==> log[prev + n].term
                != entries[n].term
        }),
    decreases entries.len() - k,
{
    if k < entries.len() && prev + k < log.len() && log[prev + k].term == entries[k].term {
        lemma_held(log, prev, entries, k + 1);
    }
}

impl NodeView {
    /// The AppendEntries for one peer: a bounded batch that begins at the
    /// peer's next index, anchored at the entry before it.
    pub open spec fn append_entries_for(self, peer: NodeId) -> EffectView {
        let next_index = self.role->next_index;
        let prev: int = if next_index.contains_key(peer) {
            next_index[peer] - 1
        } else {
            types::last_index(self.log) as int
        };
        let end: int = if prev + MAX_APPEND_ENTRIES <= self.log.len() {
            prev + MAX_APPEND_ENTRIES
        } else {
            self.log.len() as int
        };
        EffectView::Send {
            to: peer,
            msg: MessageView::AppendEntries {
                term: self.hard.current_term,
                leader_id: self.id,
                prev_log_index: prev as u64,
                prev_log_term: types::term_at(self.log, prev),
                entries: if prev <= end {
                    self.log.subrange(prev, end)
                } else {
                    Seq::empty()
                },
                leader_commit: self.commit_index,
            },
        }
    }

    /// A leader's AppendEntries to each of its peers.
    pub open spec fn append_entries_sends(self) -> Seq<EffectView> {
        if self.role is Leader {
            Seq::new(self.peers.len(), |i: int| self.append_entries_for(self.peers[i]))
        } else {
            Seq::empty()
        }
    }

    /// A proposal: a leader appends it in its own term and makes it durable
    /// before accepting it; anyone else refuses, hinting at the leader.
    pub open spec fn on_client_propose(self, command: Command) -> Outcome {
        if self.role is Leader {
            let entry = Entry {
                index: (types::last_index(self.log) + 1) as u64,
                term: self.hard.current_term,
                command,
            };
            (
                NodeView { log: self.log.push(entry), ..self },
                seq![
                    EffectView::PersistLogEntries { truncate_from: None, entries: seq![entry] },
                    EffectView::ProposeAccepted { index: entry.index },
                ],
            )
        } else {
            (self, seq![EffectView::ProposeRejected { leader_hint: self.leader_hint }])
        }
    }

    /// Whether the log holds the anchor of an AppendEntries.
    pub open spec fn holds_anchor(self, prev_log_index: LogIndex, prev_log_term: Term) -> bool {
        prev_log_index == 0 || (prev_log_index <= types::last_index(self.log) && types::term_at(
            self.log,
            prev_log_index as int,
        ) == prev_log_term)
    }

    /// The change to the log that must be durable before a payload is
    /// acknowledged: none where it brings nothing new.
    pub open spec fn merge_persist(self, prev: LogIndex, entries: Seq<Entry>) -> Seq<EffectView> {
        let k = held(self.log, prev, entries, 0);
        if k == entries.len() {
            Seq::empty()
        } else {
            seq![
                EffectView::PersistLogEntries {
                    truncate_from: if prev + k < self.log.len() {
                        Some((prev + k + 1) as u64)
                    } else {
                        None
                    },
                    entries: entries.skip(k),
                },
            ]
        }
    }

    /// The commit index lifted to `commit`, never backwards, with everything
    /// newly committed applied in order.
    pub open spec fn commit_to(self, commit: LogIndex) -> Outcome {
        if commit > self.commit_index {
            NodeView { commit_index: commit, ..self }.apply_committed()
        } else {
            (self, Seq::empty())
        }
    }

    /// A well-framed AppendEntries of a term no newer than the node's.
    pub open spec fn on_append_entries(
        self,
        term: Term,
        leader_id: NodeId,
        prev_log_index: LogIndex,
        prev_log_term: Term,
        entries: Seq<Entry>,
        leader_commit: LogIndex,
    ) -> Outcome {
        if term < self.hard.current_term {
            (self, seq![self.append_refused(leader_id)])
        } else {
            let (follower, changed) = self.become_follower();
            let s = NodeView {
                leader_hint: Some(leader_id),
                ..follower.reset_election_deadline()
            };
            if !s.holds_anchor(prev_log_index, prev_log_term) {
                (s, changed.push(s.append_refused(leader_id)))
            } else {
                let covered = (prev_log_index + entries.len()) as u64;
                let reply = EffectView::Send {
                    to: leader_id,
                    msg: MessageView::AppendEntriesReply {
                        term: s.hard.current_term,
                        success: true,
                        match_index: covered,
                    },
                };
                let commit = if leader_commit < covered {
                    leader_commit
                } else {
                    covered
                };
                let (next, applied) = NodeView {
                    log: merged(s.log, prev_log_index, entries),
                    ..s
                }.commit_to(commit);
                (
                    next,
                    changed + s.merge_persist(prev_log_index, entries) + seq![reply] + applied,
                )
            }
        }
    }

    /// The answer to an AppendEntries: success raises the peer's watermark,
    /// never lowers it, and may commit; failure walks the next index back,
    /// by at least one and at least to the hint, down to 1.
    pub open spec fn on_append_entries_reply(
        self,
        from: NodeId,
        term: Term,
        success: bool,
        hint: LogIndex,
    ) -> Outcome {
        match self.role {
            RoleView::Leader { next_index, match_index } if term == self.hard.current_term
                && next_index.contains_key(from) && match_index.contains_key(from) => {
                if success {
                    let mark = if match_index[from] > hint {
                        match_index[from]
                    } else {
                        hint
                    };
                    let marks = match_index.insert(from, mark);
                    let s = NodeView {
                        role: RoleView::Leader {
                            next_index: next_index.insert(from, mark.saturating_add(1)),
                            match_index: marks,
                        },
                        ..self
                    };
                    match commit_target(
                        types::last_index(self.log),
                        self.commit_index,
                        self.hard.current_term,
                        self.log,
                        marks,
                    ) {
                        Some(n) => s.commit_to(n),
                        None => (s, Seq::empty()),
                    }
                } else {
                    let back = next_index[from] - 1;
                    let hinted = if back < hint.saturating_add(1) {
                        back
                    } else {
                        hint.saturating_add(1) as int
                    };
                    let next = if hinted < 1 {
                        1u64
                    } else {
                        hinted as u64
                    };
                    (
                        NodeView {
                            role: RoleView::Leader {
                                next_index: next_index.insert(from, next),
                                match_index,
                            },
                            ..self
                        },
                        Seq::empty(),
                    )
                }
            },
            _ => (self, Seq::empty()),
        }
    }
}

/// The watermarks of the peers, in the order of their ids.
fn watermarks(match_index: &BTreeMap<NodeId, LogIndex>) -> (marks: Vec<LogIndex>)
    ensures
        marks@.len() == match_index@.dom().len(),
        forall|n: LogIndex| #[trigger]
            reached(marks@, n) == holders(match_index@, n).len(),
{
    let mut marks: Vec<LogIndex> = Vec::new();
    let ghost mut seen: Set<NodeId> = Set::empty();
    proof {
        reveal(Seq::filter);
        assert forall|n: LogIndex| #[trigger]
            reached(marks@, n) == seen.filter(|p: NodeId| match_index@[p] >= n).len() by {
            assert(seen.filter(|p: NodeId| match_index@[p] >= n) =~= Set::empty());
        }
    }
    for id in keys: match_index.keys()
        invariant
            marks@.len() == keys.index(),
            keys.seq().unref().to_set() == match_index@.dom(),
            keys.seq().no_duplicates(),
            keys.seq().len() == match_index@.dom().len(),
            seen.finite(),
            forall|p: NodeId| #[trigger]
                seen.contains(p) <==> exists|j: int| 0 <= j < keys.index() && *keys.seq()[j] == p,
            keys.index() == keys.seq().len() ==> seen == match_index@.dom(),
            forall|n: LogIndex| #[trigger]
                reached(marks@, n) == seen.filter(|p: NodeId| match_index@[p] >= n).len(),
    {
        let ghost before = marks@;
        let ghost at = keys.index() as int;
        proof {
            assert(keys.seq().unref()[at] == *id);
            assert(match_index@.dom().contains(*id));
        }
        let mark: LogIndex = *match_index.get(id).unwrap();
        marks.push(mark);
        proof {
            assert(!seen.contains(*id));
            assert forall|n: LogIndex| #[trigger]
                reached(marks@, n) == seen.insert(*id).filter(
                    |p: NodeId| match_index@[p] >= n,
                ).len() by {
                let f = |p: NodeId| match_index@[p] >= n;
                lemma_reached_push(before, mark, n);
                assert(reached(before, n) == seen.filter(f).len());
                if mark >= n {
                    assert(seen.insert(*id).filter(f) =~= seen.filter(f).insert(*id));
                } else {
                    assert(seen.insert(*id).filter(f) =~= seen.filter(f));
                }
            }
            seen = seen.insert(*id);
            assert(*keys.seq()[at] == *id);
            assert forall|p: NodeId| at + 1 == keys.seq().len() implies (seen.contains(p)
                <==> match_index@.dom().contains(p)) by {
                if match_index@.dom().contains(p) {
                    let j = choose|j: int|
                        0 <= j < keys.seq().len() && keys.seq().unref()[j] == p;
                    assert(*keys.seq()[j] == p);
                }
                if seen.contains(p) {
                    let j = choose|j: int| 0 <= j < at + 1 && *keys.seq()[j] == p;
                    assert(keys.seq().unref()[j] == p);
                }
            }
            assert(at + 1 == keys.seq().len() ==> seen =~= match_index@.dom());
        }
    }
    marks
}

impl RaftNode {
    /// To every peer, a bounded batch beginning at its next index (empty = pure
    /// heartbeat). Entries ride the heartbeat cadence rather than being pushed
    /// on propose.
    pub fn send_append_entries(&mut self, effects: &mut Vec<Effect>)
        requires
            old(self)@.wf(),
        ensures
            final(self)@ == old(self)@,
            message::effects_view(final(effects)@) == message::effects_view(old(effects)@)
                + old(self)@.append_entries_sends(),
    {
        let ghost sends = self@.append_entries_sends();
        let ghost before = message::effects_view(effects@);
        if let Role::Leader { next_index, .. } = &self.role {
            let mut i: usize = 0;
            while i < self.peers.len()
                invariant
                    self@.wf(),
                    self@ == old(self)@,
                    self@.role is Leader,
                    next_index@ == self@.role->next_index,
                    i <= self.peers@.len(),
                    sends == self@.append_entries_sends(),
                    message::effects_view(effects@) == before + sends.take(i as int),
                decreases self.peers@.len() - i,
            {
                let peer: NodeId = self.peers[i];
                let prev_log_index: LogIndex = match next_index.get(&peer) {
                    Some(next) => *next - 1,
                    None => self.last_log_index(),
                };
                let len: usize = self.log.len();
                let entries: Vec<Entry> = if prev_log_index <= len as u64 {
                    let from: usize = prev_log_index as usize;
                    let to: usize = if len - from > MAX_APPEND_ENTRIES {
                        from + MAX_APPEND_ENTRIES
                    } else {
                        len
                    };
                    copy_entries(vstd::slice::slice_subrange(self.log.as_slice(), from, to))
                } else {
                    Vec::new()
                };
                let effect = Effect::Send {
                    to: peer,
                    msg: RaftMessage::AppendEntries {
                        term: self.hard.current_term,
                        leader_id: self.id,
                        prev_log_index,
                        prev_log_term: self.term_at(prev_log_index),
                        entries,
                        leader_commit: self.commit_index,
                    },
                };
                assert(effect@ =~= self@.append_entries_for(peer));
                emit(effects, effect);
                proof {
                    assert(sends.take(i + 1) =~= sends.take(i as int).push(sends[i as int]));
                }
                i = i + 1;
            }
            assert(sends.take(i as int) =~= sends);
        }
        assert(message::effects_view(effects@) =~= before + sends);
    }

    /// A leader appends the command at the next index in its own term, persists
    /// it, and acknowledges with the assigned index; replication then rides the
    /// next heartbeat. Anyone else refuses, hinting at the last known leader.
    pub(crate) fn on_client_propose(&mut self, command: Command, effects: &mut Vec<Effect>)
        requires
            old(self)@.wf(),
        ensures
            final(self)@ == old(self)@.on_client_propose(command).0,
            message::effects_view(final(effects)@) == message::effects_view(old(effects)@)
                + old(self)@.on_client_propose(command).1,
            final(self)@.wf(),
    {
        let ghost out = old(self)@.on_client_propose(command);
        if !self.is_leader() {
            emit(effects, Effect::ProposeRejected { leader_hint: self.leader_hint });
            assert(message::effects_view(effects@) =~= message::effects_view(old(effects)@)
                + out.1);
            return;
        }
        let index: LogIndex = self.last_log_index().wrapping_add(1);
        let entry = Entry { index, term: self.hard.current_term, command };
        self.log.push(entry.clone());
        proof {
            assert(self.log.len() <= usize::MAX);
            assert(index == types::last_index(old(self)@.log) + 1);
        }
        let entries: Vec<Entry> = vec![entry];
        assert(entries@ =~= seq![entry]);
        emit(effects, Effect::PersistLogEntries { truncate_from: None, entries });
        emit(effects, Effect::ProposeAccepted { index });
        assert(self@ =~= out.0);
        assert(message::effects_view(effects@) =~= message::effects_view(old(effects)@) + out.1);
    }

    /// The follower's accept path: consistency check, conflict repair and
    /// append, commit update, apply; after the term rules. `payload_last_index`
    /// is the last index that the message covers.
    pub(crate) fn on_append_entries(
        &mut self,
        term: Term,
        leader_id: NodeId,
        prev_log_index: LogIndex,
        prev_log_term: Term,
        entries: Vec<Entry>,
        payload_last_index: LogIndex,
        leader_commit: LogIndex,
        effects: &mut Vec<Effect>,
    )
        requires
            old(self)@.wf(),
            well_framed(term, prev_log_index, prev_log_term, entries@),
            payload_last_index == prev_log_index + entries@.len(),
        ensures
            final(self)@ == old(self)@.on_append_entries(
                term,
                leader_id,
                prev_log_index,
                prev_log_term,
                entries@,
                leader_commit,
            ).0,
            message::effects_view(final(effects)@) == message::effects_view(old(effects)@)
                + old(self)@.on_append_entries(
                term,
                leader_id,
                prev_log_index,
                prev_log_term,
                entries@,
                leader_commit,
            ).1,
            final(self)@.wf(),
    {
        let ghost out = old(self)@.on_append_entries(
            term,
            leader_id,
            prev_log_index,
            prev_log_term,
            entries@,
            leader_commit,
        );
        let ghost first = message::effects_view(old(effects)@);
        // A stale leader gets the current term and a rejection.
        if term < self.hard.current_term {
            let refusal = self.refuse_append(leader_id);
            emit(effects, refusal);
            assert(message::effects_view(effects@) =~= first + out.1);
            return;
        }
        // Someone legitimately leads this term: a candidate steps down, and the
        // election deadline is put off even if the anchor check fails below.
        self.become_follower(effects);
        self.reset_election_deadline();
        self.leader_hint = Some(leader_id);
        let ghost s = self@;
        let ghost changed = old(self)@.become_follower().1;
        if prev_log_index > 0 && (self.last_log_index() < prev_log_index || self.term_at(
            prev_log_index,
        ) != prev_log_term) {
            let refusal = self.refuse_append(leader_id);
            emit(effects, refusal);
            assert(message::effects_view(effects@) =~= first + out.1);
            return;
        }
        assert(s.holds_anchor(prev_log_index, prev_log_term));
        assert(prev_log_index <= self.log@.len());
        assert(self.log.len() <= usize::MAX);
        let prev: usize = prev_log_index as usize;
        // Skip what is held already: same index and same term, same entry.
        let mut k: usize = 0;
        while k < entries.len() && k < self.log.len() - prev && self.log[prev + k].term
            == entries[k].term
            invariant
                prev == prev_log_index,
                prev <= self.log@.len(),
                k <= entries@.len(),
                prev + k <= self.log@.len(),
                held(self.log@, prev_log_index, entries@, 0) == held(
                    self.log@,
                    prev_log_index,
                    entries@,
                    k as int,
                ),
            decreases entries@.len() - k,
        {
            k = k + 1;
        }
        assert(held(s.log, prev_log_index, entries@, 0) == k);
        if k < entries.len() {
            // The first entry that is missing, or of another term: whatever
            // stands from there on is a dead leader's.
            let at: usize = prev + k;
            let truncate_from: Option<LogIndex> = if at < self.log.len() {
                Some((at as u64) + 1)
            } else {
                None
            };
            self.log.truncate(at);
            let appended = copy_entries(
                vstd::slice::slice_subrange(entries.as_slice(), k, entries.len()),
            );
            let mut fresh = copy_entries(appended.as_slice());
            self.log.append(&mut fresh);
            emit(effects, Effect::PersistLogEntries { truncate_from, entries: appended });
            assert(appended@ =~= entries@.skip(k as int));
            assert(self.log@ =~= s.log.take(prev + k) + entries@.skip(k as int));
        }
        assert(self.log@ =~= merged(s.log, prev_log_index, entries@));
        assert(message::effects_view(effects@) =~= first + changed + s.merge_persist(
            prev_log_index,
            entries@,
        ));
        assert(self.log.len() <= usize::MAX);
        emit(
                effects,
            Effect::Send {
                to: leader_id,
                msg: RaftMessage::AppendEntriesReply {
                    term: self.hard.current_term,
                    success: true,
                    match_index: payload_last_index,
                },
            },
        );
        let ghost acked = message::effects_view(effects@);
        // Lift the commit index toward the leader's, bounded by what this
        // message covered, then apply in order.
        let new_commit: LogIndex = if leader_commit < payload_last_index {
            leader_commit
        } else {
            payload_last_index
        };
        if new_commit > self.commit_index {
            self.commit_index = new_commit;
            self.apply_committed(effects);
        }
        proof {
            let t = NodeView { log: merged(s.log, prev_log_index, entries@), ..s };
            assert(self@ =~= t.commit_to(new_commit).0);
            assert(message::effects_view(effects@) =~= acked + t.commit_to(new_commit).1);
            assert(message::effects_view(effects@) =~= first + out.1);
        }
    }

    /// Success raises the peer's watermark monotonically and probes commitment;
    /// failure walks its next index back. The retry rides the next heartbeat.
    pub fn on_append_entries_reply(
        &mut self,
        from: NodeId,
        term: Term,
        success: bool,
        match_index: LogIndex,
        effects: &mut Vec<Effect>,
    )
        requires
            old(self)@.wf(),
        ensures
            final(self)@ == old(self)@.on_append_entries_reply(
                from,
                term,
                success,
                match_index,
            ).0,
            message::effects_view(final(effects)@) == message::effects_view(old(effects)@)
                + old(self)@.on_append_entries_reply(from, term, success, match_index).1,
            final(self)@.wf(),
    {
        let ghost out = old(self)@.on_append_entries_reply(from, term, success, match_index);
        let ghost first = message::effects_view(effects@);
        // A stale reply must not touch current bookkeeping.
        if term != self.hard.current_term {
            assert(message::effects_view(effects@) =~= first + out.1);
            return;
        }
        let own_last: LogIndex = self.last_log_index();
        let advanced: Option<LogIndex> = match &mut self.role {
            Role::Leader { next_index, match_index: peer_match } => {
                let (next, matched): (LogIndex, LogIndex) = match (
                    next_index.get(&from),
                    peer_match.get(&from),
                ) {
                    (Some(next), Some(matched)) => (*next, *matched),
                    _ => {
                        assert(message::effects_view(effects@) =~= first + out.1);
                        return;
                    },
                };
                if success {
                    let mark: LogIndex = if matched > match_index {
                        matched
                    } else {
                        match_index
                    };
                    peer_match.insert(from, mark);
                    next_index.insert(from, mark.saturating_add(1));
                    let mut all = watermarks(peer_match);
                    let ghost peers_only = all@;
                    all.push(own_last);
                    let best: Option<LogIndex> = commit_advance(
                        self.commit_index,
                        self.hard.current_term,
                        self.log.as_slice(),
                        all.as_slice(),
                    );
                    proof {
                        let marks = peer_match@;
                        let s = old(self)@;
                        let term = s.hard.current_term;
                        assert forall|n: LogIndex|
                            #![trigger committable(n, term, s.log, all@)]
                            #![trigger may_commit(n, term, s.log, marks)]
                            n <= own_last implies committable(n, term, s.log, all@)
                            == may_commit(n, term, s.log, marks) by {
                            lemma_reached_push(peers_only, own_last, n);
                            assert(reached(peers_only, n) == holders(marks, n).len());
                        }
                        lemma_commit_target(
                            own_last,
                            s.commit_index,
                            term,
                            s.log,
                            marks,
                        );
                        assert(best == commit_target(
                            own_last,
                            s.commit_index,
                            term,
                            s.log,
                            marks,
                        ));
                    }
                    best
                } else {
                    let back: LogIndex = next.saturating_sub(1);
                    let hinted: LogIndex = if back < match_index.saturating_add(1) {
                        back
                    } else {
                        match_index.saturating_add(1)
                    };
                    let walked: LogIndex = if hinted < 1 {
                        1
                    } else {
                        hinted
                    };
                    next_index.insert(from, walked);
                    None
                }
            },
            _ => {
                assert(message::effects_view(effects@) =~= first + out.1);
                return;
            },
        };
        if let Some(n) = advanced {
            self.commit_index = n;
            self.apply_committed(effects);
        }
        assert(self@ =~= out.0);
        assert(message::effects_view(effects@) =~= first + out.1);
    }
}

/// The commit index moves to the last entry of the current term that more than half
/// of the marks have reached, beyond where it is, and just where there is one.
pub proof fn law_the_last_committable_entry_is_committed(
    current: LogIndex,
    term: Term,
    log: Seq<Entry>,
    marks: Seq<LogIndex>,
    advanced: Option<LogIndex>,
    n: LogIndex,
)
    requires
        types::contiguous(log),
        log.len() <= u64::MAX,
        commits_next(current, term, log, marks, advanced),
    ensures
        advanced matches Some(m) ==> current < m <= log.len() && log[m - 1].term == term && 2
            * reached(marks, m) > marks.len(),
        current < n <= log.len() && log[n - 1].term == term && 2 * reached(marks, n) > marks.len()
            ==> (advanced matches Some(m) && m >= n),
{
    assert(log.len() > 0 ==> log.last().index == log.len());
    if current < n <= log.len() && log[n - 1].term == term && 2 * reached(marks, n) > marks.len() {
        assert(committable(n, term, log, marks));
    }
}

} // verus!
