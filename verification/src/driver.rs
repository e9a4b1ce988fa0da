//! The decisions of the single-writer driver: what each effect asks of the disk,
//! the network, the state machine and the waiting clients.
//!
//! Effects are executed in the exact order emitted by the core, and a durable
//! one completes before the next is looked at, so a dependent network reply can
//! never leave before the corresponding state reaches disk.

use std::collections::{BTreeMap, VecDeque};

use vstd::prelude::*;
use vstd::string::StringExecFns;

use crate::message;
use crate::message::{Effect, EffectView, Input, MessageView, RaftMessage};
use crate::text::{decimal, push_decimal};
use crate::types::{Command, Entry, HardState, LogIndex, NodeId, Term};

verus! {

pub const PROPOSAL_CHANNEL_CAPACITY: usize = 256;

/// The kind of a message, for the logs.
pub fn message_kind(message: &RaftMessage) -> (kind: &'static str)
    ensures
        kind@ == match message@ {
            MessageView::RequestVote { .. } => "request_vote"@,
            MessageView::RequestVoteReply { .. } => "request_vote_reply"@,
            MessageView::AppendEntries { .. } => "append_entries"@,
            MessageView::AppendEntriesReply { .. } => "append_entries_reply"@,
        },
{
    match message {
        RaftMessage::RequestVote { .. } => "request_vote",
        RaftMessage::RequestVoteReply { .. } => "request_vote_reply",
        RaftMessage::AppendEntries { .. } => "append_entries",
        RaftMessage::AppendEntriesReply { .. } => "append_entries_reply",
    }
}

/// Completion observed by the request that submitted a proposal.
#[derive(Clone, Copy, Debug, PartialEq, Eq)]
pub enum ProposalResult {
    Applied { index: LogIndex },
    NotLeader { leader_hint: Option<NodeId> },
    /// The proposal was accepted, but the driver can no longer prove whether
    /// it committed and applied. Retrying the command may therefore repeat it.
    OutcomeUnknown { leader_hint: Option<NodeId> },
}

/// Whether a hard-state write comes before the `i`-th effect.
pub open spec fn hard_before(batch: Seq<EffectView>, i: int) -> bool {
    exists|j: int| 0 <= j < i && #[trigger] batch[j] is PersistHardState
}

/// Whether a log write comes before the `i`-th effect.
pub open spec fn log_before(batch: Seq<EffectView>, i: int) -> bool {
    exists|j: int| 0 <= j < i && #[trigger] batch[j] is PersistLogEntries
}

/// What is wrong with the `i`-th effect of a batch, if anything.
///
/// A vote solicitation always follows a hard-state change. Granted vote replies
/// and successful append replies may do without a persistence effect (a repeated
/// grant, an append that changes nothing); but if the batch contains one, it
/// must come first.
pub open spec fn misplaced(batch: Seq<EffectView>, i: int) -> Option<Seq<char>> {
    let all = batch.len() as int;
    match batch[i] {
        EffectView::Send { msg: MessageView::RequestVote { .. }, .. } => if hard_before(batch, i) {
            None
        } else {
            Some("RequestVote must follow PersistHardState"@)
        },
        EffectView::Send { msg: MessageView::RequestVoteReply { vote_granted, .. }, .. } => if vote_granted
            && hard_before(batch, all) && !hard_before(batch, i) {
            Some("granted RequestVoteReply precedes PersistHardState"@)
        } else {
            None
        },
        EffectView::Send { msg: MessageView::AppendEntriesReply { success, .. }, .. } => if success
            && log_before(batch, all) && !log_before(batch, i) {
            Some("successful AppendEntriesReply precedes PersistLogEntries"@)
        } else {
            None
        },
        _ => None,
    }
}

/// The first place, if any, at which the batch writes hard state.
fn first_hard(batch: &[Effect]) -> (at: Option<usize>)
    ensures
        match at {
            Some(k) => k < batch@.len() && message::effects_view(batch@)[k as int] is PersistHardState
                && !hard_before(message::effects_view(batch@), k as int),
            None => !hard_before(message::effects_view(batch@), batch@.len() as int),
        },
{
    let ghost view = message::effects_view(batch@);
    let mut i: usize = 0;
    while i < batch.len()
        invariant
            i <= batch@.len(),
            view == message::effects_view(batch@),
            forall|j: int| 0 <= j < i ==> !(#[trigger] view[j] is PersistHardState),
        decreases batch@.len() - i,
    {
        if let Effect::PersistHardState(_) = &batch[i] {
            return Some(i);
        }
        i = i + 1;
    }
    None
}

/// The first place, if any, at which the batch writes log entries.
fn first_log(batch: &[Effect]) -> (at: Option<usize>)
    ensures
        match at {
            Some(k) => k < batch@.len() && message::effects_view(batch@)[k as int] is PersistLogEntries
                && !log_before(message::effects_view(batch@), k as int),
            None => !log_before(message::effects_view(batch@), batch@.len() as int),
        },
{
    let ghost view = message::effects_view(batch@);
    let mut i: usize = 0;
    while i < batch.len()
        invariant
            i <= batch@.len(),
            view == message::effects_view(batch@),
            forall|j: int| 0 <= j < i ==> !(#[trigger] view[j] is PersistLogEntries),
        decreases batch@.len() - i,
    {
        if let Effect::PersistLogEntries { .. } = &batch[i] {
            return Some(i);
        }
        i = i + 1;
    }
    None
}

/// Nothing in the batch is out of its place.
pub open spec fn well_placed(batch: Seq<EffectView>) -> bool {
    forall|i: int| 0 <= i < batch.len() ==> #[trigger] misplaced(batch, i) is None
}

/// Checks the ordering constraints that can be established from one effect
/// batch without access to the core's previous state: see [`misplaced`]. The
/// first effect that is misplaced is reported.
pub fn audit_persist_before_send(batch: &[Effect]) -> (out: Result<(), String>)
    ensures
        match out {
            Ok(()) => forall|i: int|
                0 <= i < batch@.len() ==> #[trigger] misplaced(
                    message::effects_view(batch@),
                    i,
                ) is None,
            Err(why) => exists|i: int|
                {
                    &&& 0 <= i < batch@.len()
                    &&& #[trigger] misplaced(message::effects_view(batch@), i) == Some(why@)
                    &&& forall|j: int|
                        0 <= j < i ==> #[trigger] misplaced(
                            message::effects_view(batch@),
                            j,
                        ) is None
                },
        },
        out is Ok <==> well_placed(message::effects_view(batch@)),
{
    let ghost view = message::effects_view(batch@);
    let hard = first_hard(batch);
    let log = first_log(batch);
    let mut i: usize = 0;
    while i < batch.len()
        invariant
            i <= batch@.len(),
            view == message::effects_view(batch@),
            match hard {
                Some(k) => k < batch@.len() && view[k as int] is PersistHardState && !hard_before(
                    view,
                    k as int,
                ),
                None => !hard_before(view, batch@.len() as int),
            },
            match log {
                Some(k) => k < batch@.len() && view[k as int] is PersistLogEntries && !log_before(
                    view,
                    k as int,
                ),
                None => !log_before(view, batch@.len() as int),
            },
            forall|j: int| 0 <= j < i ==> #[trigger] misplaced(view, j) is None,
        decreases batch@.len() - i,
    {
        assert(view[i as int] == batch@[i as int]@);
        assert(misplaced(view, i as int) is None || misplaced(view, i as int) is Some);
        assert(precedes(hard, i) == hard_before(view, i as int));
        assert(precedes(log, i) == log_before(view, i as int));
        assert((hard is Some) == hard_before(view, view.len() as int));
        assert((log is Some) == log_before(view, view.len() as int));
        if let Effect::Send { msg, .. } = &batch[i] {
            match msg {
                RaftMessage::RequestVote { .. } => {
                    require_prior(hard, i, "RequestVote must follow PersistHardState")?;
                },
                RaftMessage::RequestVoteReply { vote_granted, .. } => {
                    if *vote_granted && hard.is_some() {
                        require_prior(
                            hard,
                            i,
                            "granted RequestVoteReply precedes PersistHardState",
                        )?;
                    }
                },
                RaftMessage::AppendEntriesReply { success, .. } => {
                    if *success && log.is_some() {
                        require_prior(
                            log,
                            i,
                            "successful AppendEntriesReply precedes PersistLogEntries",
                        )?;
                    }
                },
                _ => {},
            }
        }
        i = i + 1;
    }
    Ok(())
}

/// Whether there is a place, and it lies before `i`.
spec fn precedes(at: Option<usize>, i: usize) -> bool {
    at matches Some(k) && k < i
}

fn require_prior(persist_at: Option<usize>, send_at: usize, message: &'static str) -> (out: Result<
    (),
    String,
>)
    ensures
        out is Ok <==> precedes(persist_at, send_at),
        out matches Err(why) ==> why@ == message@,
{
    match persist_at {
        Some(at) if at < send_at => Ok(()),
        _ => Err(message.to_owned()),
    }
}

/// A client that waits for an answer, by the number under which the answer is
/// handed over. One that has gone away no longer takes it.
#[derive(Clone, Copy, Debug, PartialEq, Eq)]
pub struct Client {
    pub ticket: u64,
    pub gone: bool,
}

/// What to answer to whom.
#[derive(Clone, Copy, Debug, PartialEq, Eq)]
pub struct Answer {
    pub ticket: u64,
    pub result: ProposalResult,
}

/// What an effect asks of the world around the driver.
#[derive(Debug)]
pub enum Action {
    SaveHardState(HardState),
    AppendEntries { truncate_from: Option<LogIndex>, entries: Vec<Entry> },
    Send { to: NodeId, msg: RaftMessage },
    /// Apply the entry to the state machine, and then give the answer, if one
    /// is due.
    Apply { entry: Entry, answer: Option<Answer> },
    /// Give these answers, in order.
    Respond(Vec<Answer>),
}

/// An action with its contents as mathematical values.
#[verifier::ext_equal]
pub enum ActionView {
    SaveHardState(HardState),
    AppendEntries { truncate_from: Option<LogIndex>, entries: Seq<Entry> },
    Send { to: NodeId, msg: MessageView },
    Apply { entry: Entry, answer: Option<Answer> },
    Respond(Seq<Answer>),
}

impl View for Action {
    type V = ActionView;

    open spec fn view(&self) -> ActionView {
        match *self {
            Action::SaveHardState(hard) => ActionView::SaveHardState(hard),
            Action::AppendEntries { truncate_from, entries } => ActionView::AppendEntries {
                truncate_from,
                entries: entries@,
            },
            Action::Send { to, msg } => ActionView::Send { to, msg: msg@ },
            Action::Apply { entry, answer } => ActionView::Apply { entry, answer },
            Action::Respond(answers) => ActionView::Respond(answers@),
        }
    }
}

/// A batch of effects that does not fit what was asked of the core.
#[derive(Clone, Copy, Debug, PartialEq, Eq)]
pub enum DriverError {
    AcceptedWithoutClient,
    RejectedWithoutClient,
    DuplicatePending { index: LogIndex },
    Unanswered,
}

impl DriverError {
    /// The error in words.
    pub fn describe(&self) -> (text: String)
        ensures
            text@ == match *self {
                DriverError::AcceptedWithoutClient =>
                    "proposal accepted without an active client request"@,
                DriverError::RejectedWithoutClient =>
                    "proposal rejected without an active client request"@,
                DriverError::DuplicatePending { index } => "duplicate pending proposal index "@
                    + decimal(index as nat),
                DriverError::Unanswered =>
                    "client proposal produced no acceptance or rejection effect"@,
            },
    {
        match self {
            DriverError::AcceptedWithoutClient =>
                "proposal accepted without an active client request".to_owned(),
            DriverError::RejectedWithoutClient =>
                "proposal rejected without an active client request".to_owned(),
            DriverError::DuplicatePending { index } => {
                let mut text = "duplicate pending proposal index ".to_owned();
                push_decimal(&mut text, *index);
                text
            },
            DriverError::Unanswered =>
                "client proposal produced no acceptance or rejection effect".to_owned(),
        }
    }
}

/// The clients that wait for their entry to be applied, by its index, and the
/// leader last heard of.
#[derive(Debug)]
pub struct DriverState {
    pub pending: BTreeMap<LogIndex, u64>,
    pub last_known_leader: Option<NodeId>,
}

/// The driver's state as a mathematical value.
#[verifier::ext_equal]
pub struct DriverView {
    pub pending: Map<LogIndex, u64>,
    pub last_known_leader: Option<NodeId>,
}

impl View for DriverState {
    type V = DriverView;

    open spec fn view(&self) -> DriverView {
        DriverView { pending: self.pending@, last_known_leader: self.last_known_leader }
    }
}

/// The keys of the map, in ascending order.
pub open spec fn ascending_keys(map: Map<LogIndex, u64>, keys: Seq<LogIndex>) -> bool {
    &&& forall|i: int, j: int| 0 <= i < j < keys.len() ==> keys[i] < keys[j]
    &&& keys.to_set() == map.dom()
}

/// To everyone who waits, in the order of the indices: it is not known what
/// became of the proposal.
pub open spec fn unknown_outcomes(s: DriverView, answers: Seq<Answer>) -> bool {
    exists|keys: Seq<LogIndex>|
        {
            &&& #[trigger] ascending_keys(s.pending, keys)
            &&& answers == keys.map_values(
                |k: LogIndex|
                    Answer {
                        ticket: s.pending[k],
                        result: ProposalResult::OutcomeUnknown {
                            leader_hint: s.last_known_leader,
                        },
                    },
            )
        }
}

/// The driver has been told who leads, unless the hint is empty.
pub open spec fn hinted(s: DriverView, leader_hint: Option<NodeId>) -> DriverView {
    DriverView {
        last_known_leader: if leader_hint is Some {
            leader_hint
        } else {
            s.last_known_leader
        },
        ..s
    }
}

/// Whether executing the effect, for the client whose proposal the batch is
/// about, leads to this state, leaves this client waiting for an answer, and
/// asks for this action.
pub open spec fn executes(
    s: DriverView,
    client: Option<Client>,
    effect: EffectView,
    t: DriverView,
    left: Option<Client>,
    action: ActionView,
) -> bool {
    match effect {
        EffectView::PersistHardState(hard) => {
            &&& t == s
            &&& left == client
            &&& action == ActionView::SaveHardState(hard)
        },
        EffectView::PersistLogEntries { truncate_from, entries } => {
            &&& t == s
            &&& left == client
            &&& action == (ActionView::AppendEntries { truncate_from, entries })
        },
        EffectView::Send { to, msg } => {
            &&& t == s
            &&& left == client
            &&& action == (ActionView::Send { to, msg })
        },
        EffectView::RoleChanged { role_name, term } => {
            &&& left == client
            &&& if role_name == "Leader"@ {
                t == s && action == ActionView::Respond(Seq::empty())
            } else {
                &&& t == (DriverView { pending: Map::empty(), ..s })
                &&& action matches ActionView::Respond(answers) && unknown_outcomes(s, answers)
            }
        },
        EffectView::Apply(entry) => {
            &&& left == client
            &&& t == (DriverView { pending: s.pending.remove(entry.index), ..s })
            &&& action == (ActionView::Apply {
                entry,
                answer: if s.pending.contains_key(entry.index) {
                    Some(
                        Answer {
                            ticket: s.pending[entry.index],
                            result: ProposalResult::Applied { index: entry.index },
                        },
                    )
                } else {
                    None
                },
            })
        },
        EffectView::ProposeAccepted { index } => {
            &&& left is None
            &&& action == ActionView::Respond(Seq::empty())
            &&& client matches Some(c) && t == (if c.gone {
                s
            } else {
                DriverView { pending: s.pending.insert(index, c.ticket), ..s }
            })
        },
        EffectView::ProposeRejected { leader_hint } => {
            &&& left is None
            &&& t == hinted(s, leader_hint)
            &&& client matches Some(c) && action == ActionView::Respond(
                seq![
                    Answer {
                        ticket: c.ticket,
                        result: ProposalResult::NotLeader { leader_hint },
                    },
                ],
            )
        },
    }
}

/// Why an effect cannot be executed, if it cannot.
pub open spec fn refused(
    s: DriverView,
    client: Option<Client>,
    effect: EffectView,
) -> Option<DriverError> {
    match (effect, client) {
        (EffectView::ProposeAccepted { .. }, None) => Some(DriverError::AcceptedWithoutClient),
        (EffectView::ProposeAccepted { index }, Some(c)) => if !c.gone && s.pending.contains_key(
            index,
        ) {
            Some(DriverError::DuplicatePending { index })
        } else {
            None
        },
        (EffectView::ProposeRejected { .. }, None) => Some(DriverError::RejectedWithoutClient),
        _ => None,
    }
}

/// The driver's state once it has seen a message come in.
pub open spec fn observed(s: DriverView, current_term: Term, msg: MessageView) -> DriverView {
    match msg {
        MessageView::AppendEntries { term, leader_id, .. } => if term >= current_term {
            DriverView { last_known_leader: Some(leader_id), ..s }
        } else {
            s
        },
        _ => s,
    }
}

/// Those who waited at these indices are no longer waited for.
pub open spec fn pruned(s: DriverView, gone: Seq<LogIndex>, t: DriverView) -> bool {
    &&& t.last_known_leader == s.last_known_leader
    &&& t.pending == s.pending.remove_keys(gone.to_set())
}

/// What an effect that cannot be executed leaves behind: a hint is taken all the
/// same, and of two that wait at one index the later one stays.
pub open spec fn after_refusal(
    s: DriverView,
    client: Option<Client>,
    effect: EffectView,
) -> DriverView {
    match (effect, client) {
        (EffectView::ProposeAccepted { index }, Some(c)) => DriverView {
            pending: s.pending.insert(index, c.ticket),
            ..s
        },
        (EffectView::ProposeRejected { leader_hint }, _) => hinted(s, leader_hint),
        _ => s,
    }
}

/// The keys of all the pairs of a map, in ascending order, are its keys.
proof fn lemma_all_keys(
    map: Map<LogIndex, u64>,
    pairs: Seq<(&LogIndex, &u64)>,
    keys: Seq<LogIndex>,
)
    requires
        vstd::std_specs::btree::increasing_seq(
            pairs.map_values(|kv: (&LogIndex, &u64)| *kv.0),
        ),
        forall|j: int| 0 <= j < pairs.len() ==> map.contains_key(*(#[trigger] pairs[j]).0),
        forall|k: LogIndex| #[trigger]
            map.contains_key(k) ==> pairs.contains((&k, &map[k])),
        keys.len() <= pairs.len(),
        forall|j: int| 0 <= j < keys.len() ==> #[trigger] keys[j] == *pairs[j].0,
    ensures
        keys.len() == pairs.len() ==> ascending_keys(map, keys),
{
    if keys.len() == pairs.len() {
        let firsts = pairs.map_values(|kv: (&LogIndex, &u64)| *kv.0);
        assert forall|i: int, j: int| 0 <= i < j < keys.len() implies keys[i] < keys[j] by {
            assert(firsts[i] == keys[i] && firsts[j] == keys[j]);
            assert(vstd::std_specs::cmp::OrdSpec::cmp_spec(&firsts[i], &firsts[j]) is Less);
        }
        assert forall|k: LogIndex| keys.to_set().contains(k) <==> map.dom().contains(k) by {
            if map.contains_key(k) {
                let j = choose|j: int| 0 <= j < pairs.len() && pairs[j] == (&k, &map[k]);
                assert(keys[j] == k);
            }
            if keys.contains(k) {
                let j = choose|j: int| 0 <= j < keys.len() && keys[j] == k;
                assert(map.contains_key(*pairs[j].0));
            }
        }
        assert(keys.to_set() =~= map.dom());
    }
}

impl DriverState {
    /// Nobody waits, and no leader is known.
    pub fn new() -> (state: Self)
        ensures
            state@ == (DriverView { pending: Map::empty(), last_known_leader: None }),
    {
        DriverState { pending: BTreeMap::new(), last_known_leader: None }
    }

    /// Clients that have gone away are no longer waited for: these are the
    /// indices that they waited at.
    pub fn prune(&mut self, gone: &[LogIndex])
        ensures
            final(self).last_known_leader == old(self).last_known_leader,
            forall|k: LogIndex| #[trigger]
                final(self)@.pending.contains_key(k) <==> old(self)@.pending.contains_key(k)
                    && !gone@.contains(k),
            forall|k: LogIndex| #[trigger]
                final(self)@.pending.contains_key(k) ==> final(self)@.pending[k]
                    == old(self)@.pending[k],
            pruned(old(self)@, gone@, final(self)@),
    {
        let mut i: usize = 0;
        while i < gone.len()
            invariant
                i <= gone@.len(),
                self.last_known_leader == old(self).last_known_leader,
                forall|k: LogIndex| #[trigger]
                    self@.pending.contains_key(k) <==> old(self)@.pending.contains_key(k)
                        && !gone@.take(i as int).contains(k),
                forall|k: LogIndex| #[trigger]
                    self@.pending.contains_key(k) ==> self@.pending[k] == old(self)@.pending[k],
            decreases gone@.len() - i,
        {
            let ghost held = self@.pending;
            assert(forall|k: LogIndex| #[trigger]
                held.contains_key(k) <==> old(self)@.pending.contains_key(k) && !gone@.take(
                    i as int,
                ).contains(k));
            assert(forall|k: LogIndex| #[trigger]
                held.contains_key(k) ==> held[k] == old(self)@.pending[k]);
            self.pending.remove(&gone[i]);
            proof {
                assert(self@.pending =~= held.remove(gone@[i as int]));
                assert forall|k: LogIndex| #[trigger] self@.pending.contains_key(k)
                    <==> held.contains_key(k) && k != gone@[i as int] by {}
                let less = gone@.take(i as int);
                let more = gone@.take(i + 1);
                assert(more =~= less.push(gone@[i as int]));
                assert forall|k: LogIndex| #[trigger] more.contains(k) <==> less.contains(k) || k
                    == gone@[i as int] by {
                    if k == gone@[i as int] {
                        assert(more[i as int] == k);
                    }
                    if less.contains(k) {
                        let j = choose|j: int| 0 <= j < less.len() && less[j] == k;
                        assert(more[j] == k);
                    }
                }
            }
            i = i + 1;
        }
        assert(gone@.take(i as int) =~= gone@);
        assert(self@.pending =~= old(self)@.pending.remove_keys(gone@.to_set()));
    }

    /// An AppendEntries of a term that is not stale tells who leads.
    pub fn observe(&mut self, current_term: Term, msg: &RaftMessage)
        ensures
            final(self)@ == match msg@ {
                MessageView::AppendEntries { term, leader_id, .. } if term >= current_term =>
                    DriverView { last_known_leader: Some(leader_id), ..old(self)@ },
                _ => old(self)@,
            },
            final(self)@ == observed(old(self)@, current_term, msg@),
    {
        if let RaftMessage::AppendEntries { term, leader_id, .. } = msg {
            if *term >= current_term {
                self.last_known_leader = Some(*leader_id);
            }
        }
    }

    /// Everyone who waits is told that the outcome is unknown, and is no longer
    /// waited for.
    fn mark_pending_outcomes_unknown(&mut self) -> (answers: Vec<Answer>)
        ensures
            final(self)@ == (DriverView { pending: Map::empty(), ..old(self)@ }),
            unknown_outcomes(old(self)@, answers@),
    {
        let ghost before = self@;
        let ghost mut done: Seq<LogIndex> = Seq::empty();
        let leader_hint = self.last_known_leader;
        let mut answers: Vec<Answer> = Vec::new();
        let ghost tell = |k: LogIndex|
            Answer {
                ticket: before.pending[k],
                result: ProposalResult::OutcomeUnknown { leader_hint },
            };
        if self.pending.is_empty() {
            proof {
                let none: Seq<LogIndex> = Seq::empty();
                assert(self.pending@.dom() =~= Set::empty());
                assert(none.to_set() =~= before.pending.dom());
                assert(ascending_keys(before.pending, none));
                assert(answers@ =~= none.map_values(tell));
                assert(self@ =~= (DriverView { pending: Map::empty(), ..before }));
            }
            return answers;
        }
        for (index, ticket) in pairs: self.pending.iter()
            invariant
                self@ == before,
                leader_hint == before.last_known_leader,
                tell == (|k: LogIndex|
                    Answer {
                        ticket: before.pending[k],
                        result: ProposalResult::OutcomeUnknown { leader_hint },
                    }),
                vstd::std_specs::btree::increasing_seq(
                    pairs.seq().map_values(|kv: (&LogIndex, &u64)| *kv.0),
                ),
                forall|j: int|
                    0 <= j < pairs.seq().len() ==> before.pending.contains_key(
                        *(#[trigger] pairs.seq()[j]).0,
                    ) && before.pending[*pairs.seq()[j].0] == *pairs.seq()[j].1,
                forall|k: LogIndex| #[trigger]
                    before.pending.contains_key(k) ==> pairs.seq().contains(
                        (&k, &before.pending[k]),
                    ),
                done.len() == pairs.index(),
                forall|j: int| 0 <= j < done.len() ==> #[trigger] done[j] == *pairs.seq()[j].0,
                answers@ == done.map_values(tell),
                pairs.index() == pairs.seq().len() ==> ascending_keys(before.pending, done),
        {
            proof {
                assert(before.pending.contains_key(*pairs.seq()[pairs.index() as int].0));
            }
            answers.push(
                Answer { ticket: *ticket, result: ProposalResult::OutcomeUnknown { leader_hint } },
            );
            proof {
                done = done.push(*index);
                assert(answers@ =~= done.map_values(tell));
                lemma_all_keys(before.pending, pairs.seq(), done);
            }
        }
        self.pending.clear();
        answers
    }

    /// What the effect asks for. `client` is the one whose proposal the batch
    /// is about, until it is answered or set to wait. Where the effect cannot
    /// be executed no client is left: see [`after_refusal`].
    pub fn execute(&mut self, effect: Effect, client: &mut Option<Client>) -> (out: Result<
        Action,
        DriverError,
    >)
        ensures
            match out {
                Ok(action) => {
                    &&& refused(old(self)@, *old(client), effect@) is None
                    &&& executes(
                        old(self)@,
                        *old(client),
                        effect@,
                        final(self)@,
                        *final(client),
                        action@,
                    )
                },
                Err(e) => {
                    &&& refused(old(self)@, *old(client), effect@) == Some(e)
                    &&& final(self)@ == after_refusal(old(self)@, *old(client), effect@)
                    &&& *final(client) is None
                },
            },
    {
        match effect {
            Effect::PersistHardState(hard) => Ok(Action::SaveHardState(hard)),
            Effect::PersistLogEntries { truncate_from, entries } => Ok(
                Action::AppendEntries { truncate_from, entries },
            ),
            Effect::Send { to, msg } => Ok(Action::Send { to, msg }),
            Effect::RoleChanged { role_name, .. } => {
                let name: String = role_name.to_owned();
                let leader: String = "Leader".to_owned();
                if name == leader {
                    let none: Vec<Answer> = Vec::new();
                    assert(none@ =~= Seq::empty());
                    Ok(Action::Respond(none))
                } else {
                    Ok(Action::Respond(self.mark_pending_outcomes_unknown()))
                }
            },
            Effect::Apply(entry) => {
                let index: LogIndex = entry.index;
                let answer = match self.pending.remove(&index) {
                    Some(ticket) => Some(
                        Answer { ticket, result: ProposalResult::Applied { index } },
                    ),
                    None => {
                        assert(old(self)@.pending.remove(index) =~= old(self)@.pending);
                        None
                    },
                };
                assert(self@ =~= (DriverView {
                    pending: old(self)@.pending.remove(index),
                    ..old(self)@
                }));
                Ok(Action::Apply { entry, answer })
            },
            Effect::ProposeAccepted { index } => {
                match *client {
                    None => Err(DriverError::AcceptedWithoutClient),
                    Some(c) => {
                        *client = None;
                        if !c.gone && self.pending.insert(index, c.ticket).is_some() {
                            return Err(DriverError::DuplicatePending { index });
                        }
                        let none: Vec<Answer> = Vec::new();
                        assert(none@ =~= Seq::empty());
                        Ok(Action::Respond(none))
                    },
                }
            },
            Effect::ProposeRejected { leader_hint } => {
                if leader_hint.is_some() {
                    self.last_known_leader = leader_hint;
                }
                match *client {
                    None => Err(DriverError::RejectedWithoutClient),
                    Some(c) => {
                        *client = None;
                        let answers: Vec<Answer> = vec![
                            Answer {
                                ticket: c.ticket,
                                result: ProposalResult::NotLeader { leader_hint },
                            },
                        ];
                        assert(answers@ =~= seq![
                            Answer {
                                ticket: c.ticket,
                                result: ProposalResult::NotLeader { leader_hint },
                            },
                        ]);
                        Ok(Action::Respond(answers))
                    },
                }
            },
        }
    }
}

/// A batch may end where no client is left to be answered.
pub open spec fn may_end(client: Option<Client>) -> bool {
    client is None
}

/// After the last effect of a batch the client must have been answered, or set
/// to wait.
pub fn finish(client: Option<Client>) -> (out: Result<(), DriverError>)
    ensures
        out == if client is Some {
            Err::<(), _>(DriverError::Unanswered)
        } else {
            Ok(())
        },
        out is Ok <==> may_end(client),
{
    if client.is_some() {
        Err(DriverError::Unanswered)
    } else {
        Ok(())
    }
}

/// The effects of one batch that are still to be executed, the client that the
/// batch is about, and whether nothing more of it is to be executed.
#[derive(Debug)]
pub struct Batch {
    rest: VecDeque<Effect>,
    client: Option<Client>,
    stopped: bool,
}

/// A batch as a mathematical value.
#[verifier::ext_equal]
pub struct BatchView {
    pub rest: Seq<EffectView>,
    pub client: Option<Client>,
    pub stopped: bool,
}

impl View for Batch {
    type V = BatchView;

    closed spec fn view(&self) -> BatchView {
        BatchView {
            rest: message::effects_view(self.rest@),
            client: self.client,
            stopped: self.stopped,
        }
    }
}

/// Whether a batch, asked what comes next, gives this. `done` says that what it
/// asked for last was done: otherwise it stops, as it does after an error. With
/// no effect left, a client that is still unanswered is an error.
pub open spec fn advances(
    b: BatchView,
    s: DriverView,
    done: bool,
    out: Option<Result<ActionView, DriverError>>,
    left: BatchView,
    t: DriverView,
) -> bool {
    if b.stopped || !done {
        &&& out is None
        &&& left == (BatchView { stopped: true, ..b })
        &&& t == s
    } else if b.rest.len() == 0 {
        &&& out == if b.client is Some {
            Some(Err::<ActionView, _>(DriverError::Unanswered))
        } else {
            None
        }
        &&& left == (BatchView { stopped: true, ..b })
        &&& t == s
    } else {
        &&& left.rest == b.rest.drop_first()
        &&& match refused(s, b.client, b.rest[0]) {
            Some(e) => {
                &&& out == Some(Err::<ActionView, _>(e))
                &&& left.client is None
                &&& left.stopped
                &&& t == after_refusal(s, b.client, b.rest[0])
            },
            None => {
                &&& !left.stopped
                &&& out matches Some(Ok(action)) && executes(
                    s,
                    b.client,
                    b.rest[0],
                    t,
                    left.client,
                    action,
                )
            },
        }
    }
}

/// What a batch gives, with the action as a mathematical value.
pub open spec fn given(out: Option<Result<Action, DriverError>>) -> Option<
    Result<ActionView, DriverError>,
> {
    match out {
        Some(Ok(action)) => Some(Ok(action@)),
        Some(Err(e)) => Some(Err(e)),
        None => None,
    }
}

impl Batch {
    /// Starts on the effects that the core asked for, on behalf of the client,
    /// if any. Effects in a wrong order are refused: none of them is executed.
    pub fn start(effects: Vec<Effect>, client: Option<Client>) -> (out: Result<Self, String>)
        ensures
            match out {
                Ok(batch) => {
                    &&& forall|i: int|
                        0 <= i < effects@.len() ==> #[trigger] misplaced(
                            message::effects_view(effects@),
                            i,
                        ) is None
                    &&& batch@ == (BatchView {
                        rest: message::effects_view(effects@),
                        client,
                        stopped: false,
                    })
                },
                Err(why) => exists|i: int|
                    {
                        &&& 0 <= i < effects@.len()
                        &&& #[trigger] misplaced(message::effects_view(effects@), i) == Some(why@)
                        &&& forall|j: int|
                            0 <= j < i ==> #[trigger] misplaced(
                                message::effects_view(effects@),
                                j,
                            ) is None
                    },
            },
    {
        let ghost all = message::effects_view(effects@);
        audit_persist_before_send(&effects)?;
        let mut rest: VecDeque<Effect> = VecDeque::new();
        for effect in items: effects
            invariant
                rest@ == items.seq().take(items.index() as int),
        {
            rest.push_back(effect);
            assert(rest@ =~= items.seq().take(items.index() as int + 1));
        }
        let batch = Batch { rest, client, stopped: false };
        assert(batch@.rest =~= all);
        Ok(batch)
    }

    /// The client that is still to be answered or set to wait.
    pub fn client(&self) -> (client: Option<Client>)
        ensures
            client == self@.client,
    {
        self.client
    }

    /// The effect that would be executed next.
    pub fn peek(&self) -> (effect: Option<&Effect>)
        ensures
            match effect {
                Some(e) => !self@.stopped && self@.rest.len() > 0 && e@ == self@.rest[0],
                None => self@.stopped || self@.rest.len() == 0,
            },
    {
        if self.stopped || self.rest.len() == 0 {
            None
        } else {
            Some(&self.rest[0])
        }
    }

    /// Notes whether the client has gone away by now.
    pub fn note_gone(&mut self, gone: bool)
        ensures
            final(self)@ == (BatchView {
                client: match old(self)@.client {
                    Some(c) => Some(Client { gone, ..c }),
                    None => None,
                },
                ..old(self)@
            }),
    {
        if let Some(c) = self.client {
            self.client = Some(Client { ticket: c.ticket, gone });
        }
    }

    /// What is to be done next, if anything. `done` says whether the action
    /// given last was carried out: see [`advances`].
    pub fn next(&mut self, state: &mut DriverState, done: bool) -> (out: Option<
        Result<Action, DriverError>,
    >)
        ensures
            advances(old(self)@, old(state)@, done, given(out), final(self)@, final(state)@),
    {
        if self.stopped || !done {
            self.stopped = true;
            return None;
        }
        let ghost before = self@;
        match self.rest.pop_front() {
            None => {
                self.stopped = true;
                match finish(self.client) {
                    Ok(()) => None,
                    Err(e) => Some(Err(e)),
                }
            },
            Some(effect) => {
                assert(effect@ == before.rest[0]);
                assert(message::effects_view(self.rest@) =~= before.rest.drop_first());
                let out = state.execute(effect, &mut self.client);
                if out.is_err() {
                    self.stopped = true;
                }
                Some(out)
            },
        }
    }
}

/// A failed write stops all that follows, and so does an error: whatever a
/// batch is asked after that, it gives nothing more and changes nothing.
pub proof fn law_a_stopped_batch_gives_nothing(
    b: BatchView,
    s: DriverView,
    done: bool,
    out: Option<Result<ActionView, DriverError>>,
    left: BatchView,
    t: DriverView,
    later: DriverView,
    again: bool,
    more: Option<Result<ActionView, DriverError>>,
    last: BatchView,
    u: DriverView,
)
    requires
        advances(b, s, done, out, left, t),
        !done || out is None || (out matches Some(o) && o is Err),
        advances(left, later, again, more, last, u),
    ensures
        more is None,
        last == left,
        u == later,
{
}

/// A write comes before the message that depends on it. Of a batch that was
/// started, `i` effects have been executed. When it asks for a RequestVote to be
/// sent, it has asked for hard state to be written; when it asks for a granted
/// vote or a successful append to be sent, it has asked for the write of hard
/// state or of entries that the batch holds, if it holds one.
pub proof fn law_writes_come_before_sends(
    all: Seq<EffectView>,
    i: int,
    b: BatchView,
    s: DriverView,
    to: NodeId,
    msg: MessageView,
    left: BatchView,
    t: DriverView,
)
    requires
        forall|j: int| 0 <= j < all.len() ==> #[trigger] misplaced(all, j) is None,
        0 <= i <= all.len(),
        b.rest == all.skip(i),
        advances(b, s, true, Some(Ok(ActionView::Send { to, msg })), left, t),
    ensures
        i < all.len(),
        all[i] == (EffectView::Send { to, msg }),
        left.rest == all.skip(i + 1),
        msg is RequestVote ==> hard_before(all, i),
        (msg matches MessageView::RequestVoteReply { vote_granted, .. } && vote_granted)
            && hard_before(all, all.len() as int) ==> hard_before(all, i),
        (msg matches MessageView::AppendEntriesReply { success, .. } && success) && log_before(
            all,
            all.len() as int,
        ) ==> log_before(all, i),
{
    assert(i < all.len());
    assert(b.rest[0] == all[i]);
    assert(misplaced(all, i) is None);
    assert(b.rest.drop_first() =~= all.skip(i + 1));
}

/// What the core is handed for the client's command.
pub open spec fn proposed(command: Command, client: Client) -> Option<Input> {
    if client.gone {
        None
    } else {
        Some(Input::ClientPropose { command })
    }
}

/// A client that went away while its request was queued is not proposed for:
/// the core has not seen the command yet, so skipping it is still safe.
pub fn proposal_input(command: Command, client: Client) -> (input: Option<Input>)
    ensures
        match input {
            Some(i) => !client.gone && i == (Input::ClientPropose { command }),
            None => client.gone,
        },
        input == proposed(command, client),
{
    if client.gone {
        None
    } else {
        Some(Input::ClientPropose { command })
    }
}

/// A client is told that its command was applied only when an entry is applied
/// at the index that its proposal was given.
pub proof fn law_success_means_applied(
    s: DriverView,
    client: Option<Client>,
    effect: EffectView,
    t: DriverView,
    left: Option<Client>,
    action: ActionView,
    told: Answer,
)
    requires
        executes(s, client, effect, t, left, action),
        match action {
            ActionView::Apply { answer, .. } => answer == Some(told),
            ActionView::Respond(answers) => answers.contains(told),
            _ => false,
        },
        told.result is Applied,
    ensures
        ({
            let index = told.result->index;
            &&& effect matches EffectView::Apply(entry) && entry.index == index
            &&& s.pending.contains_key(index)
            &&& s.pending[index] == told.ticket
        }),
{
    match action {
        ActionView::Respond(answers) => {
            let i = choose|i: int| 0 <= i < answers.len() && answers[i] == told;
        },
        _ => {},
    }
}

/// Nobody is forgotten: as long as the node keeps its role, a client that waits
/// goes on waiting until the entry at its index is applied.
pub proof fn law_nobody_is_forgotten(
    s: DriverView,
    client: Option<Client>,
    effect: EffectView,
    t: DriverView,
    left: Option<Client>,
    action: ActionView,
    index: LogIndex,
)
    requires
        executes(s, client, effect, t, left, action),
        refused(s, client, effect) is None,
        s.pending.contains_key(index),
        !t.pending.contains_key(index),
    ensures
        effect is RoleChanged || (effect matches EffectView::Apply(entry) && entry.index == index),
{
}

/// Whoever waits at the index of an applied entry, whatever the command, is
/// answered that it is applied, and by that index; nobody else is answered, and
/// nobody else stops waiting.
pub proof fn law_an_applied_entry_answers_its_client(
    s: DriverView,
    client: Option<Client>,
    entry: Entry,
    t: DriverView,
    left: Option<Client>,
    action: ActionView,
)
    requires
        executes(s, client, EffectView::Apply(entry), t, left, action),
    ensures
        action matches ActionView::Apply { entry: e, answer } && e == entry && {
            &&& s.pending.contains_key(entry.index) ==> answer == Some(
                Answer {
                    ticket: s.pending[entry.index],
                    result: ProposalResult::Applied { index: entry.index },
                },
            )
            &&& !s.pending.contains_key(entry.index) ==> answer is None
        },
        !t.pending.contains_key(entry.index),
        forall|k: LogIndex|
            k != entry.index ==> (#[trigger] t.pending.contains_key(k)
                <==> s.pending.contains_key(k)) && (s.pending.contains_key(k) ==> t.pending[k]
                == s.pending[k]),
        t.last_known_leader == s.last_known_leader,
        left == client,
        refused(s, client, EffectView::Apply(entry)) is None,
{
}

/// Whether the action answers the ticket.
pub open spec fn answers(action: ActionView, ticket: u64) -> bool {
    match action {
        ActionView::Apply { answer, .. } => answer matches Some(a) && a.ticket == ticket,
        ActionView::Respond(answers) => exists|i: int|
            0 <= i < answers.len() && (#[trigger] answers[i]).ticket == ticket,
        _ => false,
    }
}

/// No client stops waiting without an answer: whoever waits before an effect and
/// not after it is answered by that effect's action.
pub proof fn law_nobody_stops_waiting_unanswered(
    s: DriverView,
    client: Option<Client>,
    effect: EffectView,
    t: DriverView,
    left: Option<Client>,
    action: ActionView,
    index: LogIndex,
)
    requires
        executes(s, client, effect, t, left, action),
        refused(s, client, effect) is None,
        s.pending.contains_key(index),
    ensures
        t.pending.contains_key(index) && t.pending[index] == s.pending[index] || answers(
            action,
            s.pending[index],
        ),
{
    if let EffectView::RoleChanged { role_name, .. } = effect {
        if role_name != "Leader"@ {
            let told = action->Respond_0;
            let keys = choose|keys: Seq<LogIndex>|
                {
                    &&& #[trigger] ascending_keys(s.pending, keys)
                    &&& told == keys.map_values(
                        |k: LogIndex|
                            Answer {
                                ticket: s.pending[k],
                                result: ProposalResult::OutcomeUnknown {
                                    leader_hint: s.last_known_leader,
                                },
                            },
                    )
                };
            assert(keys.to_set().contains(index));
            let i = choose|i: int| 0 <= i < keys.len() && keys[i] == index;
            assert(told[i].ticket == s.pending[index]);
        }
    }
}

/// A node that stops leading tells everyone who waits, once each and in the order
/// of their indices, that the outcome is not known, and whom it last took for the
/// leader; after that nobody waits. A node that comes to lead tells nobody.
pub proof fn law_stepping_down_tells_everyone(
    s: DriverView,
    client: Option<Client>,
    role_name: Seq<char>,
    term: Term,
    t: DriverView,
    left: Option<Client>,
    action: ActionView,
)
    requires
        executes(s, client, EffectView::RoleChanged { role_name, term }, t, left, action),
        s.pending.dom().finite(),
    ensures
        left == client,
        t.last_known_leader == s.last_known_leader,
        action matches ActionView::Respond(told) && if role_name == "Leader"@ {
            told.len() == 0 && t.pending == s.pending
        } else {
            &&& t.pending.dom() == Set::<LogIndex>::empty()
            &&& told.len() == s.pending.dom().len()
            &&& exists|keys: Seq<LogIndex>|
                {
                    &&& #[trigger] keys.len() == told.len()
                    &&& forall|i: int, j: int| 0 <= i < j < keys.len() ==> keys[i] < keys[j]
                    &&& forall|i: int|
                        0 <= i < keys.len() ==> s.pending.contains_key(#[trigger] keys[i])
                            && told[i] == (Answer {
                            ticket: s.pending[keys[i]],
                            result: ProposalResult::OutcomeUnknown {
                                leader_hint: s.last_known_leader,
                            },
                        })
                }
        },
        refused(s, client, EffectView::RoleChanged { role_name, term }) is None,
{
    if role_name != "Leader"@ {
        let told = action->Respond_0;
        let keys = choose|keys: Seq<LogIndex>|
            {
                &&& #[trigger] ascending_keys(s.pending, keys)
                &&& told == keys.map_values(
                    |k: LogIndex|
                        Answer {
                            ticket: s.pending[k],
                            result: ProposalResult::OutcomeUnknown {
                                leader_hint: s.last_known_leader,
                            },
                        },
                )
            };
        assert(keys.no_duplicates());
        keys.unique_seq_to_set();
        assert(keys.len() == told.len());
        assert forall|i: int| 0 <= i < keys.len() implies s.pending.contains_key(
            #[trigger] keys[i],
        ) by {
            assert(keys.to_set().contains(keys[i]));
        }
        assert(t.pending.dom() =~= Set::<LogIndex>::empty());
    }
}

/// An accepted proposal: its client waits at the index that it was given, unless
/// it has gone away, and is no longer to be answered in this batch. Everyone else
/// goes on waiting. A second client at one index is an error, and so is an
/// acceptance without a client.
pub proof fn law_an_accepted_client_waits_at_its_index(
    s: DriverView,
    client: Option<Client>,
    index: LogIndex,
    t: DriverView,
    left: Option<Client>,
    action: ActionView,
)
    ensures
        ({
            let effect = EffectView::ProposeAccepted { index };
            &&& client is None <==> refused(s, client, effect) == Some(
                DriverError::AcceptedWithoutClient,
            )
            &&& client matches Some(c) ==> {
                &&& refused(s, client, effect) is Some <==> !c.gone && s.pending.contains_key(index)
                &&& refused(s, client, effect) is Some ==> refused(s, client, effect) == Some(
                    DriverError::DuplicatePending { index },
                )
            }
            &&& executes(s, client, effect, t, left, action) ==> {
                &&& left is None
                &&& action matches ActionView::Respond(told) && told.len() == 0
                &&& t.last_known_leader == s.last_known_leader
                &&& client matches Some(c) && {
                    &&& c.gone ==> t.pending == s.pending
                    &&& !c.gone ==> t.pending.contains_key(index) && t.pending[index] == c.ticket
                    &&& forall|k: LogIndex|
                        k != index ==> (#[trigger] t.pending.contains_key(k)
                            <==> s.pending.contains_key(k)) && (s.pending.contains_key(k)
                            ==> t.pending[k] == s.pending[k])
                }
            }
        }),
{
}

/// A refused proposal: its client is told at once, with the hint that came, and
/// only that client; the hint is remembered if there is one. Without a client it
/// is an error, and the hint is remembered all the same.
pub proof fn law_a_rejected_client_is_told_the_hint(
    s: DriverView,
    client: Option<Client>,
    hint: Option<NodeId>,
    t: DriverView,
    left: Option<Client>,
    action: ActionView,
)
    ensures
        ({
            let effect = EffectView::ProposeRejected { leader_hint: hint };
            let known = if hint is Some {
                hint
            } else {
                s.last_known_leader
            };
            &&& client is None <==> refused(s, client, effect) is Some
            &&& client is None ==> refused(s, client, effect) == Some(
                DriverError::RejectedWithoutClient,
            )
            &&& after_refusal(s, client, effect).pending == s.pending
            &&& after_refusal(s, client, effect).last_known_leader == known
            &&& executes(s, client, effect, t, left, action) ==> {
                &&& left is None
                &&& t.pending == s.pending
                &&& t.last_known_leader == known
                &&& client matches Some(c) && action matches ActionView::Respond(told) && told.len()
                    == 1 && told[0].ticket == c.ticket && told[0].result == (
                ProposalResult::NotLeader { leader_hint: hint })
            }
        }),
{
}

/// A write or a send is asked for as it is, and changes nothing else; it is never
/// refused.
pub proof fn law_writes_and_sends_are_handed_on(
    s: DriverView,
    client: Option<Client>,
    effect: EffectView,
    t: DriverView,
    left: Option<Client>,
    action: ActionView,
)
    requires
        effect is PersistHardState || effect is PersistLogEntries || effect is Send,
    ensures
        refused(s, client, effect) is None,
        executes(s, client, effect, t, left, action) ==> {
            &&& t == s
            &&& left == client
            &&& effect matches EffectView::PersistHardState(hard) ==> action
                == ActionView::SaveHardState(hard)
            &&& effect matches EffectView::PersistLogEntries { truncate_from, entries } ==> action
                == (ActionView::AppendEntries { truncate_from, entries })
            &&& effect matches EffectView::Send { to, msg } ==> action == (ActionView::Send {
                to,
                msg,
            })
        },
{
}

/// Of two that wait at one index the later one stays, and nobody else is touched.
pub proof fn law_a_duplicate_replaces_the_client(s: DriverView, c: Client, index: LogIndex)
    ensures
        ({
            let t = after_refusal(s, Some(c), EffectView::ProposeAccepted { index });
            &&& t.pending.contains_key(index) && t.pending[index] == c.ticket
            &&& forall|k: LogIndex|
                k != index ==> (#[trigger] t.pending.contains_key(k) <==> s.pending.contains_key(k))
                    && (s.pending.contains_key(k) ==> t.pending[k] == s.pending[k])
            &&& t.last_known_leader == s.last_known_leader
        }),
{
}

/// A message is in its place just where what it depends on has been written: a
/// request for votes behind a write of hard state; a granted vote and a successful
/// append behind the batch's writes of hard state and of entries, if there are
/// any. Everything else may stand anywhere.
pub proof fn law_only_dependent_messages_can_be_misplaced(batch: Seq<EffectView>, i: int)
    requires
        0 <= i < batch.len(),
    ensures
        misplaced(batch, i) is Some <==> match batch[i] {
            EffectView::Send { msg: MessageView::RequestVote { .. }, .. } => forall|j: int|
                0 <= j < i ==> !(#[trigger] batch[j] is PersistHardState),
            EffectView::Send { msg: MessageView::RequestVoteReply { vote_granted, .. }, .. } =>
                vote_granted && (exists|j: int|
                    i < j < batch.len() && #[trigger] batch[j] is PersistHardState) && (forall|j:
                    int|
                    0 <= j < i ==> !(#[trigger] batch[j] is PersistHardState)),
            EffectView::Send { msg: MessageView::AppendEntriesReply { success, .. }, .. } => success
                && (exists|j: int| i < j < batch.len() && #[trigger] batch[j] is PersistLogEntries)
                && (forall|j: int| 0 <= j < i ==> !(#[trigger] batch[j] is PersistLogEntries)),
            _ => false,
        },
{
    let all = batch.len() as int;
    if hard_before(batch, all) && !hard_before(batch, i) {
        let j = choose|j: int| 0 <= j < all && #[trigger] batch[j] is PersistHardState;
        assert(j >= i);
    }
    if log_before(batch, all) && !log_before(batch, i) {
        let j = choose|j: int| 0 <= j < all && #[trigger] batch[j] is PersistLogEntries;
        assert(j >= i);
    }
}

/// A batch that has not stopped gives an action for the effect that comes next,
/// and goes on to the one behind it; only an effect that cannot be executed stops
/// it. When all are executed it ends, with an error if its client is still
/// unanswered.
pub proof fn law_a_batch_executes_effect_after_effect(
    b: BatchView,
    s: DriverView,
    out: Option<Result<ActionView, DriverError>>,
    left: BatchView,
    t: DriverView,
)
    requires
        advances(b, s, true, out, left, t),
        !b.stopped,
    ensures
        b.rest.len() > 0 ==> {
            &&& left.rest == b.rest.skip(1)
            &&& refused(s, b.client, b.rest[0]) is None ==> {
                &&& !left.stopped
                &&& out matches Some(Ok(action)) && executes(
                    s,
                    b.client,
                    b.rest[0],
                    t,
                    left.client,
                    action,
                )
            }
            &&& refused(s, b.client, b.rest[0]) matches Some(e) ==> left.stopped && out == Some(
                Err::<ActionView, _>(e),
            )
        },
        b.rest.len() == 0 ==> {
            &&& left.stopped
            &&& t == s
            &&& b.client is None ==> out is None
            &&& b.client is Some ==> out == Some(Err::<ActionView, _>(DriverError::Unanswered))
        },
{
    if b.rest.len() > 0 {
        assert(b.rest.drop_first() =~= b.rest.skip(1));
    }
}

/// An AppendEntries whose term is not behind tells who leads; nothing else does,
/// and nobody stops waiting for it.
pub proof fn law_a_current_append_tells_who_leads(s: DriverView, current_term: Term, msg: MessageView)
    ensures
        observed(s, current_term, msg).pending == s.pending,
        msg is AppendEntries && msg.term() >= current_term ==> observed(
            s,
            current_term,
            msg,
        ).last_known_leader == Some(msg->leader_id),
        !(msg is AppendEntries) || msg.term() < current_term ==> observed(s, current_term, msg)
            == s,
{
}

/// Just those who waited at the indices are dropped.
pub proof fn law_only_those_who_left_are_dropped(
    s: DriverView,
    gone: Seq<LogIndex>,
    t: DriverView,
    k: LogIndex,
)
    requires
        pruned(s, gone, t),
    ensures
        t.pending.contains_key(k) <==> s.pending.contains_key(k) && !gone.contains(k),
        t.pending.contains_key(k) ==> t.pending[k] == s.pending[k],
        t.last_known_leader == s.last_known_leader,
{
}

/// The command of a client that still waits is handed to the core as it is, and
/// that of one that has gone is not; a batch ends well just where nobody is left
/// unanswered.
pub proof fn law_waiting_clients_are_proposed_for(command: Command, client: Client)
    ensures
        client.gone <==> proposed(command, client) is None,
        proposed(command, client) matches Some(input) ==> input@ == (
        crate::message::InputView::ClientPropose { command }),
        may_end(None),
        !may_end(Some(client)),
{
}

/// A call for votes comes behind a write of the hard state; a vote that is granted,
/// behind one if there is any in the batch; an append that is acknowledged, behind
/// a write of the log if there is any.
pub open spec fn in_its_place(batch: Seq<EffectView>, i: int) -> bool {
    match batch[i] {
        EffectView::Send { msg: MessageView::RequestVote { .. }, .. } => exists|j: int|
            0 <= j < i && #[trigger] batch[j] is PersistHardState,
        EffectView::Send { msg: MessageView::RequestVoteReply { vote_granted, .. }, .. } =>
            vote_granted && (exists|j: int|
                i < j < batch.len() && #[trigger] batch[j] is PersistHardState) ==> exists|j: int|
                0 <= j < i && #[trigger] batch[j] is PersistHardState,
        EffectView::Send { msg: MessageView::AppendEntriesReply { success, .. }, .. } => success && (
        exists|j: int| i < j < batch.len() && #[trigger] batch[j] is PersistLogEntries)
            ==> exists|j: int| 0 <= j < i && #[trigger] batch[j] is PersistLogEntries,
        _ => true,
    }
}

/// A batch passes just where all of it is in its place.
pub proof fn law_a_batch_passes_if_all_is_in_its_place(batch: Seq<EffectView>)
    ensures
        well_placed(batch) <==> forall|i: int|
            0 <= i < batch.len() ==> #[trigger] in_its_place(batch, i),
{
    assert forall|i: int| 0 <= i < batch.len() implies (misplaced(batch, i) is None
        <==> #[trigger] in_its_place(batch, i)) by {
        law_only_dependent_messages_can_be_misplaced(batch, i);
    }
    if forall|i: int| 0 <= i < batch.len() ==> #[trigger] in_its_place(batch, i) {
        assert forall|i: int| 0 <= i < batch.len() implies #[trigger] misplaced(
            batch,
            i,
        ) is None by {
            assert(in_its_place(batch, i));
        }
    }
}

/// What is wrong with a misplaced message is told by its kind.
pub proof fn law_a_misplaced_message_is_told_by_its_kind(batch: Seq<EffectView>, i: int)
    requires
        0 <= i < batch.len(),
        misplaced(batch, i) is Some,
    ensures
        batch[i] matches EffectView::Send { msg, .. } && misplaced(batch, i) == Some(
            match msg {
                MessageView::RequestVote { .. } => "RequestVote must follow PersistHardState"@,
                MessageView::RequestVoteReply { .. } =>
                    "granted RequestVoteReply precedes PersistHardState"@,
                _ => "successful AppendEntriesReply precedes PersistLogEntries"@,
            },
        ),
{
}

} // verus!
