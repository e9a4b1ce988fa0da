//! Messages, inputs, and effects: the whole boundary of the state machine.
//!
//! Everything the node ever learns arrives as an [`Input`]; everything it ever
//! wants done comes back as an [`Effect`]. Drivers execute effects in emitted
//! order, and complete every `Persist*` effect durably before any later `Send`
//! of the same batch is transmitted.

use vstd::prelude::*;

use crate::types::{copy_entries, Command, Entry, HardState, LogIndex, NodeId, Term};

verus! {

/// The Raft wire protocol.
#[derive(Debug, PartialEq)]
pub enum RaftMessage {
    RequestVote {
        term: Term,
        candidate_id: NodeId,
        last_log_index: LogIndex,
        last_log_term: Term,
    },
    RequestVoteReply { term: Term, vote_granted: bool },
    AppendEntries {
        term: Term,
        leader_id: NodeId,
        prev_log_index: LogIndex,
        prev_log_term: Term,
        /// Empty = heartbeat.
        entries: Vec<Entry>,
        leader_commit: LogIndex,
    },
    AppendEntriesReply {
        term: Term,
        success: bool,
        /// On success: index of the last entry the follower now matches.
        /// On failure: the follower's last log index. The leader retries from
        /// the following index, while still backing off at least one position.
        match_index: LogIndex,
    },
}

/// A message with its entries as a sequence.
#[verifier::ext_equal]
pub enum MessageView {
    RequestVote {
        term: Term,
        candidate_id: NodeId,
        last_log_index: LogIndex,
        last_log_term: Term,
    },
    RequestVoteReply { term: Term, vote_granted: bool },
    AppendEntries {
        term: Term,
        leader_id: NodeId,
        prev_log_index: LogIndex,
        prev_log_term: Term,
        entries: Seq<Entry>,
        leader_commit: LogIndex,
    },
    AppendEntriesReply { term: Term, success: bool, match_index: LogIndex },
}

impl MessageView {
    /// The term that the message carries.
    pub open spec fn term(self) -> Term {
        match self {
            MessageView::RequestVote { term, .. } => term,
            MessageView::RequestVoteReply { term, .. } => term,
            MessageView::AppendEntries { term, .. } => term,
            MessageView::AppendEntriesReply { term, .. } => term,
        }
    }
}

impl View for RaftMessage {
    type V = MessageView;

    open spec fn view(&self) -> MessageView {
        match *self {
            RaftMessage::RequestVote { term, candidate_id, last_log_index, last_log_term } =>
                MessageView::RequestVote { term, candidate_id, last_log_index, last_log_term },
            RaftMessage::RequestVoteReply { term, vote_granted } => MessageView::RequestVoteReply {
                term,
                vote_granted,
            },
            RaftMessage::AppendEntries {
                term,
                leader_id,
                prev_log_index,
                prev_log_term,
                entries,
                leader_commit,
            } => MessageView::AppendEntries {
                term,
                leader_id,
                prev_log_index,
                prev_log_term,
                entries: entries@,
                leader_commit,
            },
            RaftMessage::AppendEntriesReply { term, success, match_index } =>
                MessageView::AppendEntriesReply { term, success, match_index },
        }
    }
}

impl Clone for RaftMessage {
    fn clone(&self) -> (out: Self)
        ensures
            out@ == self@,
    {
        match self {
            RaftMessage::RequestVote { term, candidate_id, last_log_index, last_log_term } => {
                RaftMessage::RequestVote {
                    term: *term,
                    candidate_id: *candidate_id,
                    last_log_index: *last_log_index,
                    last_log_term: *last_log_term,
                }
            },
            RaftMessage::RequestVoteReply { term, vote_granted } => RaftMessage::RequestVoteReply {
                term: *term,
                vote_granted: *vote_granted,
            },
            RaftMessage::AppendEntries {
                term,
                leader_id,
                prev_log_index,
                prev_log_term,
                entries,
                leader_commit,
            } => RaftMessage::AppendEntries {
                term: *term,
                leader_id: *leader_id,
                prev_log_index: *prev_log_index,
                prev_log_term: *prev_log_term,
                entries: copy_entries(entries.as_slice()),
                leader_commit: *leader_commit,
            },
            RaftMessage::AppendEntriesReply { term, success, match_index } => {
                RaftMessage::AppendEntriesReply {
                    term: *term,
                    success: *success,
                    match_index: *match_index,
                }
            },
        }
    }
}

/// Everything the node ever learns.
#[derive(Debug, PartialEq)]
pub enum Input {
    /// A message arrived from a peer.
    Message { from: NodeId, msg: RaftMessage },
    /// Logical time advanced. Deadlines are computed from `now_ms` inside the
    /// core: drivers only deliver ticks.
    Tick { now_ms: u64 },
    /// A client asked to execute a command.
    ClientPropose { command: Command },
}

/// An input with its message as a mathematical value.
pub enum InputView {
    Message { from: NodeId, msg: MessageView },
    Tick { now_ms: u64 },
    ClientPropose { command: Command },
}

impl View for Input {
    type V = InputView;

    open spec fn view(&self) -> InputView {
        match *self {
            Input::Message { from, msg } => InputView::Message { from, msg: msg@ },
            Input::Tick { now_ms } => InputView::Tick { now_ms },
            Input::ClientPropose { command } => InputView::ClientPropose { command },
        }
    }
}

impl Clone for Input {
    fn clone(&self) -> (out: Self)
        ensures
            out@ == self@,
    {
        match self {
            Input::Message { from, msg } => Input::Message { from: *from, msg: msg.clone() },
            Input::Tick { now_ms } => Input::Tick { now_ms: *now_ms },
            Input::ClientPropose { command } => Input::ClientPropose { command: command.clone() },
        }
    }
}

/// Everything the node ever wants done.
#[derive(Debug, PartialEq)]
pub enum Effect {
    /// Durably persist hard state BEFORE executing any later effect in this batch.
    PersistHardState(HardState),
    /// Durably append these entries BEFORE executing any later effect in this
    /// batch. `truncate_from`: if Some(i), first truncate the durable log from
    /// index i (inclusive), then append.
    PersistLogEntries { truncate_from: Option<LogIndex>, entries: Vec<Entry> },
    /// Hand this message to the transport (fire-and-forget; loss is tolerated).
    Send { to: NodeId, msg: RaftMessage },
    /// Apply this committed entry to the state machine, in index order.
    Apply(Entry),
    /// The node's role changed (Follower/Candidate/Leader).
    RoleChanged { role_name: &'static str, term: Term },
    /// The leader accepted a proposal and assigned it this log index.
    ProposeAccepted { index: LogIndex },
    /// Not-leader proposals yield this instead, with the last known leader if any.
    ProposeRejected { leader_hint: Option<NodeId> },
}

/// An effect with its contents as mathematical values.
#[verifier::ext_equal]
pub enum EffectView {
    PersistHardState(HardState),
    PersistLogEntries { truncate_from: Option<LogIndex>, entries: Seq<Entry> },
    Send { to: NodeId, msg: MessageView },
    Apply(Entry),
    RoleChanged { role_name: Seq<char>, term: Term },
    ProposeAccepted { index: LogIndex },
    ProposeRejected { leader_hint: Option<NodeId> },
}

impl View for Effect {
    type V = EffectView;

    open spec fn view(&self) -> EffectView {
        match *self {
            Effect::PersistHardState(hard) => EffectView::PersistHardState(hard),
            Effect::PersistLogEntries { truncate_from, entries } => EffectView::PersistLogEntries {
                truncate_from,
                entries: entries@,
            },
            Effect::Send { to, msg } => EffectView::Send { to, msg: msg@ },
            Effect::Apply(entry) => EffectView::Apply(entry),
            Effect::RoleChanged { role_name, term } => EffectView::RoleChanged {
                role_name: role_name@,
                term,
            },
            Effect::ProposeAccepted { index } => EffectView::ProposeAccepted { index },
            Effect::ProposeRejected { leader_hint } => EffectView::ProposeRejected { leader_hint },
        }
    }
}

impl Clone for Effect {
    fn clone(&self) -> (out: Self)
        ensures
            out@ == self@,
    {
        match self {
            Effect::PersistHardState(hard) => Effect::PersistHardState(hard.clone()),
            Effect::PersistLogEntries { truncate_from, entries } => Effect::PersistLogEntries {
                truncate_from: *truncate_from,
                entries: copy_entries(entries.as_slice()),
            },
            Effect::Send { to, msg } => Effect::Send { to: *to, msg: msg.clone() },
            Effect::Apply(entry) => Effect::Apply(entry.clone()),
            Effect::RoleChanged { role_name, term } => Effect::RoleChanged {
                role_name: *role_name,
                term: *term,
            },
            Effect::ProposeAccepted { index } => Effect::ProposeAccepted { index: *index },
            Effect::ProposeRejected { leader_hint } => Effect::ProposeRejected {
                leader_hint: *leader_hint,
            },
        }
    }
}

/// A batch of effects as a sequence of mathematical values.
pub open spec fn effects_view(effects: Seq<Effect>) -> Seq<EffectView> {
    effects.map_values(|e: Effect| e@)
}

/// Adds one effect to the end of a batch.
pub fn emit(effects: &mut Vec<Effect>, effect: Effect)
    ensures
        effects_view(final(effects)@) == effects_view(old(effects)@).push(effect@),
{
    effects.push(effect);
    assert(effects_view(effects@) =~= effects_view(old(effects)@).push(effect@));
}

/// A copy of a batch of effects.
pub fn copy_effects(effects: &[Effect]) -> (out: Vec<Effect>)
    ensures
        effects_view(out@) == effects_view(effects@),
{
    let mut out: Vec<Effect> = Vec::new();
    let mut i: usize = 0;
    while i < effects.len()
        invariant
            i <= effects@.len(),
            out@.len() == i,
            forall|j: int| 0 <= j < i ==> (#[trigger] out@[j])@ == effects@[j]@,
        decreases effects@.len() - i,
    {
        out.push(effects[i].clone());
        i = i + 1;
    }
    assert(effects_view(out@) =~= effects_view(effects@));
    out
}

/// Effects are seen one by one, in order and as they are.
pub proof fn law_effects_are_seen_as_they_are(effects: Seq<Effect>, i: int)
    requires
        0 <= i < effects.len(),
    ensures
        effects_view(effects).len() == effects.len(),
        match effects[i] {
            Effect::PersistHardState(hard) => effects_view(effects)[i]
                == EffectView::PersistHardState(hard),
            Effect::PersistLogEntries { truncate_from, entries } => effects_view(effects)[i] == (
            EffectView::PersistLogEntries { truncate_from, entries: entries@ }),
            Effect::Send { to, msg } => effects_view(effects)[i] == (EffectView::Send {
                to,
                msg: msg@,
            }),
            Effect::Apply(entry) => effects_view(effects)[i] == EffectView::Apply(entry),
            Effect::RoleChanged { role_name, term } => effects_view(effects)[i] == (
            EffectView::RoleChanged { role_name: role_name@, term }),
            Effect::ProposeAccepted { index } => effects_view(effects)[i] == (
            EffectView::ProposeAccepted { index }),
            Effect::ProposeRejected { leader_hint } => effects_view(effects)[i] == (
            EffectView::ProposeRejected { leader_hint }),
        },
{
}

/// A message's term is the one that it carries, whatever its kind.
pub proof fn law_a_message_carries_its_term(msg: RaftMessage)
    ensures
        match msg {
            RaftMessage::RequestVote { term, .. } => msg@.term() == term && msg@ is RequestVote,
            RaftMessage::RequestVoteReply { term, .. } => msg@.term() == term
                && msg@ is RequestVoteReply,
            RaftMessage::AppendEntries { term, .. } => msg@.term() == term && msg@ is AppendEntries,
            RaftMessage::AppendEntriesReply { term, .. } => msg@.term() == term
                && msg@ is AppendEntriesReply,
        },
        msg matches RaftMessage::AppendEntries { entries, .. } ==> msg@->entries == entries@,
{
}

/// An input is seen as it is.
pub proof fn law_inputs_are_seen_as_they_are(input: Input)
    ensures
        match input {
            Input::Tick { now_ms } => input@ == (InputView::Tick { now_ms }),
            Input::Message { from, msg } => input@ == (InputView::Message { from, msg: msg@ }),
            Input::ClientPropose { command } => input@ == (InputView::ClientPropose { command }),
        },
{
}

} // verus!
