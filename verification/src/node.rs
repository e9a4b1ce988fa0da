//! One Raft node as a pure, deterministic state machine.
//!
//! No networking, no disk access, no clocks, no threads. Election and heartbeat
//! deadlines are computed from the `now_ms` carried by [`Input::Tick`], and the
//! seeded generator is the only source of randomness, so a node's behaviour is a
//! function of its state and its inputs: [`NodeView::step`].

use vstd::prelude::*;

use crate::message;
use crate::message::{emit, Effect, EffectView, Input, InputView, MessageView, RaftMessage};
use crate::replication;
use crate::replication::validate_append_entries;
use crate::rng::Pcg32;
use crate::types;
use crate::types::{Entry, HardState, LogIndex, NodeId, Role, RoleView, Term};

verus! {

/// Drivers deliver `Input::Tick` every this-many logical milliseconds.
pub const TICK_MS: u64 = 10;

/// Leader heartbeat cadence. Must stay well below `ELECTION_MIN_MS`.
pub const HEARTBEAT_MS: u64 = 50;

/// Election timeout lower bound.
pub const ELECTION_MIN_MS: u64 = 150;

/// Election timeout upper bound.
pub const ELECTION_MAX_MS: u64 = 300;

/// The most entries one AppendEntries carries.
pub const MAX_APPEND_ENTRIES: usize = 16;

/// One Raft node; drivers execute the effects that its steps return.
#[derive(Debug)]
pub struct RaftNode {
    pub id: NodeId,
    /// The OTHER nodes (two in a cluster of three).
    pub peers: Vec<NodeId>,
    pub hard: HardState,
    /// In-core copy; durability happens via `Persist*` effects.
    pub log: Vec<Entry>,
    /// Volatile: 0 on every boot.
    pub commit_index: LogIndex,
    /// Volatile: 0 on every boot.
    pub last_applied: LogIndex,
    pub role: Role,
    /// The leader of the most recent valid-term AppendEntries. Best-effort:
    /// never cleared, only overwritten by a fresher sighting.
    pub leader_hint: Option<NodeId>,
    /// Logical time, as of the last tick.
    pub now_ms: u64,
    /// When to start or restart an election; 0 = not yet drawn (first tick).
    pub election_deadline_ms: u64,
    /// Leader only: when to send the next heartbeats.
    pub heartbeat_due_ms: u64,
    /// Seeded at construction; the only randomness in the core.
    pub rng: Pcg32,
}

/// The state of a node as a mathematical value.
#[verifier::ext_equal]
pub struct NodeView {
    pub id: NodeId,
    pub peers: Seq<NodeId>,
    pub hard: HardState,
    pub log: Seq<Entry>,
    pub commit_index: LogIndex,
    pub last_applied: LogIndex,
    pub role: RoleView,
    pub leader_hint: Option<NodeId>,
    pub now_ms: u64,
    pub election_deadline_ms: u64,
    pub heartbeat_due_ms: u64,
    pub rng: Pcg32,
}

impl View for RaftNode {
    type V = NodeView;

    open spec fn view(&self) -> NodeView {
        NodeView {
            id: self.id,
            peers: self.peers@,
            hard: self.hard,
            log: self.log@,
            commit_index: self.commit_index,
            last_applied: self.last_applied,
            role: self.role@,
            leader_hint: self.leader_hint,
            now_ms: self.now_ms,
            election_deadline_ms: self.election_deadline_ms,
            heartbeat_due_ms: self.heartbeat_due_ms,
            rng: self.rng,
        }
    }
}

/// What a handler does: the node's next state, and the effects to execute.
pub type Outcome = (NodeView, Seq<EffectView>);

impl NodeView {
    /// A node that has just booted with the given durable state: a follower
    /// that knows of no leader and has committed and applied nothing.
    pub open spec fn booted(
        id: NodeId,
        peers: Seq<NodeId>,
        seed: u64,
        hard: HardState,
        log: Seq<Entry>,
    ) -> NodeView {
        NodeView {
            id,
            peers,
            hard,
            log,
            commit_index: 0,
            last_applied: 0,
            role: RoleView::Follower,
            leader_hint: None,
            now_ms: 0,
            election_deadline_ms: 0,
            heartbeat_due_ms: 0,
            rng: Pcg32::seeded(seed),
        }
    }

    /// What every step keeps: the log's indices run 1, 2, 3 and so on, a
    /// leader's next index for a peer is never 0, and a deadline drawn now
    /// still fits the clock.
    pub open spec fn wf(self) -> bool {
        &&& types::contiguous(self.log)
        &&& self.log.len() <= u64::MAX
        &&& self.now_ms + ELECTION_MAX_MS <= u64::MAX
        &&& self.role matches RoleView::Leader { next_index, .. } ==> forall|p: NodeId|
            next_index.contains_key(p) ==> 1 <= #[trigger] next_index[p]
    }

    /// Whether a tick makes the node stand for election: it does not lead, and
    /// its deadline, once drawn, has passed.
    pub open spec fn campaigns(self, now_ms: u64) -> bool {
        !self.is_leader() && self.election_deadline_ms != 0 && now_ms >= self.election_deadline_ms
    }

    /// The inputs that the node can take: a tick must leave room on the clock
    /// for a deadline, and where it starts an election the term must be able to
    /// grow.
    pub open spec fn accepts(self, input: InputView) -> bool {
        input matches InputView::Tick { now_ms } ==> {
            &&& now_ms + ELECTION_MAX_MS <= u64::MAX
            &&& self.campaigns(now_ms) ==> self.hard.current_term < u64::MAX
        }
    }

    pub open spec fn is_leader(self) -> bool {
        self.role is Leader
    }

    /// A strict majority of the whole cluster.
    pub open spec fn majority(self) -> nat {
        (self.peers.len() + 1) / 2 + 1
    }

    /// Becoming a follower drops what belonged to the former role, and is
    /// announced only where the role really changes.
    pub open spec fn become_follower(self) -> Outcome {
        if self.role is Follower {
            (self, Seq::empty())
        } else {
            (
                NodeView { role: RoleView::Follower, ..self },
                seq![
                    EffectView::RoleChanged {
                        role_name: "Follower"@,
                        term: self.hard.current_term,
                    },
                ],
            )
        }
    }

    /// The deadline is drawn afresh: between 150 and 300 ms from now.
    pub open spec fn reset_election_deadline(self) -> NodeView {
        NodeView {
            election_deadline_ms: (self.now_ms + self.rng.draw(
                ELECTION_MIN_MS,
                ELECTION_MAX_MS,
            )) as u64,
            rng: self.rng.advanced(),
            ..self
        }
    }

    /// Every committed entry that is not applied yet is applied, in index order.
    pub open spec fn apply_committed(self) -> Outcome {
        if self.commit_index > self.last_applied {
            (
                NodeView { last_applied: self.commit_index, ..self },
                Seq::new(
                    (self.commit_index - self.last_applied) as nat,
                    |i: int| EffectView::Apply(self.log[self.last_applied + i]),
                ),
            )
        } else {
            (self, Seq::empty())
        }
    }

    /// A tick: the clock moves, and whichever deadline has passed is acted on.
    pub open spec fn on_tick(self, now_ms: u64) -> Outcome {
        let clocked = NodeView { now_ms, ..self };
        let timed = if self.election_deadline_ms == 0 {
            clocked.reset_election_deadline()
        } else {
            clocked
        };
        if timed.is_leader() {
            if timed.heartbeat_due_ms <= now_ms {
                (
                    NodeView { heartbeat_due_ms: (now_ms + HEARTBEAT_MS) as u64, ..timed },
                    timed.append_entries_sends(),
                )
            } else {
                (timed, Seq::empty())
            }
        } else if now_ms >= timed.election_deadline_ms {
            timed.start_election()
        } else {
            (timed, Seq::empty())
        }
    }

    /// The answer to an AppendEntries that is not taken: the current term, and
    /// the last log index as a hint for the retry.
    pub open spec fn append_refused(self, leader_id: NodeId) -> EffectView {
        EffectView::Send {
            to: leader_id,
            msg: MessageView::AppendEntriesReply {
                term: self.hard.current_term,
                success: false,
                match_index: types::last_index(self.log),
            },
        }
    }

    /// A newer term is adopted, with no vote cast in it yet, and made durable
    /// before anything else happens.
    pub open spec fn adopt_term(self, term: Term) -> Outcome {
        if term > self.hard.current_term {
            let hard = HardState { current_term: term, voted_for: None };
            let (s, changed) = NodeView { hard, ..self }.become_follower();
            (s, seq![EffectView::PersistHardState(hard)] + changed)
        } else {
            (self, Seq::empty())
        }
    }

    /// A message is interpreted by its kind, once its term is dealt with.
    pub open spec fn dispatch(self, from: NodeId, msg: MessageView) -> Outcome {
        match msg {
            MessageView::RequestVote { term, candidate_id, last_log_index, last_log_term } =>
                self.on_request_vote(term, candidate_id, last_log_index, last_log_term),
            MessageView::RequestVoteReply { term, vote_granted } => self.on_request_vote_reply(
                from,
                term,
                vote_granted,
            ),
            MessageView::AppendEntries {
                term,
                leader_id,
                prev_log_index,
                prev_log_term,
                entries,
                leader_commit,
            } => self.on_append_entries(
                term,
                leader_id,
                prev_log_index,
                prev_log_term,
                entries,
                leader_commit,
            ),
            MessageView::AppendEntriesReply { term, success, match_index } =>
                self.on_append_entries_reply(from, term, success, match_index),
        }
    }

    /// A malformed AppendEntries is refused before it can change anything.
    pub open spec fn malformed(msg: MessageView) -> bool {
        msg matches MessageView::AppendEntries {
            term,
            prev_log_index,
            prev_log_term,
            entries,
            ..
        } && !replication::well_framed(term, prev_log_index, prev_log_term, entries)
    }

    /// The whole handling of a message.
    pub open spec fn on_message(self, from: NodeId, msg: MessageView) -> Outcome {
        if Self::malformed(msg) {
            (self, seq![self.append_refused(msg->leader_id)])
        } else {
            let (adopted, first) = self.adopt_term(msg.term());
            let (next, rest) = adopted.dispatch(from, msg);
            (next, first + rest)
        }
    }

    /// The whole behaviour of a node: what it becomes on an input, and the
    /// effects that it asks for, in the order in which to execute them.
    pub open spec fn step(self, input: InputView) -> Outcome {
        match input {
            InputView::Tick { now_ms } => self.on_tick(now_ms),
            InputView::Message { from, msg } => self.on_message(from, msg),
            InputView::ClientPropose { command } => self.on_client_propose(command),
        }
    }
}

/// Why a durable state cannot be booted from.
#[derive(Clone, Copy, Debug, PartialEq, Eq)]
pub enum RestoreError {
    /// The entry at this 1-based position carries another index.
    BadIndex { position: u64 },
    /// The entry at this 1-based position is of an older term than the one before it.
    TermRegression { position: u64 },
    /// The entry at this 1-based position is of a term beyond the hard state's.
    TermAhead { position: u64 },
}

/// What is wrong with the entry at offset `i`, if anything.
pub open spec fn restore_fault(hard: HardState, log: Seq<Entry>, i: int) -> Option<RestoreError> {
    let position = (i + 1) as u64;
    if log[i].index != i + 1 {
        Some(RestoreError::BadIndex { position })
    } else if i > 0 && log[i].term < log[i - 1].term {
        Some(RestoreError::TermRegression { position })
    } else if log[i].term > hard.current_term {
        Some(RestoreError::TermAhead { position })
    } else {
        None
    }
}

impl RaftNode {
    /// A fresh, never-booted node: empty log, term 0, follower.
    pub fn new(id: NodeId, peers: Vec<NodeId>, seed: u64) -> (node: Self)
        ensures
            node@ == NodeView::booted(
                id,
                peers@,
                seed,
                (HardState { current_term: 0, voted_for: None }),
                Seq::empty(),
            ),
            node@.wf(),
    {
        RaftNode {
            id,
            peers,
            hard: HardState { current_term: 0, voted_for: None },
            log: Vec::new(),
            commit_index: 0,
            last_applied: 0,
            role: Role::Follower,
            leader_hint: None,
            now_ms: 0,
            election_deadline_ms: 0,
            heartbeat_due_ms: 0,
            rng: Pcg32::new(seed),
        }
    }

    /// A node rebooted from its durable state: a follower with fresh volatile
    /// state. The log must run 1, 2, 3 and so on, its terms must not decrease,
    /// and none may lie beyond the current term; the first entry that breaks
    /// this is reported.
    pub fn restore(
        id: NodeId,
        peers: Vec<NodeId>,
        seed: u64,
        hard: HardState,
        log: Vec<Entry>,
    ) -> (out: Result<Self, RestoreError>)
        ensures
            match out {
                Ok(node) => {
                    &&& node@ == NodeView::booted(id, peers@, seed, hard, log@)
                    &&& node@.wf()
                    &&& types::contiguous(log@)
                    &&& types::nondecreasing_terms(log@)
                    &&& types::last_term(log@) <= hard.current_term
                },
                Err(e) => exists|i: int|
                    {
                        &&& 0 <= i < log@.len()
                        &&& #[trigger] restore_fault(hard, log@, i) == Some(e)
                        &&& forall|j: int|
                            0 <= j < i ==> #[trigger] restore_fault(hard, log@, j) is None
                    },
            },
    {
        let mut i: usize = 0;
        while i < log.len()
            invariant
                i <= log@.len(),
                forall|j: int| 0 <= j < i ==> #[trigger] restore_fault(hard, log@, j) is None,
                forall|j: int| 0 <= j < i ==> (#[trigger] log@[j]).index == j + 1,
                forall|a: int, b: int| 0 <= a <= b < i ==> log@[a].term <= log@[b].term,
                i > 0 ==> log@[i - 1].term <= hard.current_term,
            decreases log@.len() - i,
        {
            let position: u64 = (i as u64) + 1;
            assert(restore_fault(hard, log@, i as int) is None || restore_fault(
                hard,
                log@,
                i as int,
            ) is Some);
            if log[i].index != position {
                return Err(RestoreError::BadIndex { position });
            }
            if i > 0 && log[i].term < log[i - 1].term {
                return Err(RestoreError::TermRegression { position });
            }
            if log[i].term > hard.current_term {
                return Err(RestoreError::TermAhead { position });
            }
            i = i + 1;
        }
        Ok(
            RaftNode {
                id,
                peers,
                hard,
                log,
                commit_index: 0,
                last_applied: 0,
                role: Role::Follower,
                leader_hint: None,
                now_ms: 0,
                election_deadline_ms: 0,
                heartbeat_due_ms: 0,
                rng: Pcg32::new(seed),
            },
        )
    }

    /// Whether the node can take the input: see [`NodeView::accepts`].
    pub fn accepts(&self, input: &Input) -> (ok: bool)
        ensures
            ok == self@.accepts(input@),
    {
        match input {
            Input::Tick { now_ms } => {
                let campaigns = !self.is_leader() && self.election_deadline_ms != 0 && *now_ms
                    >= self.election_deadline_ms;
                *now_ms <= u64::MAX - ELECTION_MAX_MS && (!campaigns || self.hard.current_term
                    < u64::MAX)
            },
            _ => true,
        }
    }

    /// Feed one input; get back an ordered list of effects that the driver must
    /// execute in the order emitted.
    pub fn step(&mut self, input: Input) -> (effects: Vec<Effect>)
        requires
            old(self)@.wf(),
            old(self)@.accepts(input@),
        ensures
            final(self)@ == old(self)@.step(input@).0,
            message::effects_view(effects@) == old(self)@.step(input@).1,
            final(self)@.wf(),
    {
        let mut effects: Vec<Effect> = Vec::new();
        match input {
            Input::Tick { now_ms } => self.on_tick(now_ms, &mut effects),
            Input::Message { from, msg } => self.on_message(from, msg, &mut effects),
            Input::ClientPropose { command } => self.on_client_propose(command, &mut effects),
        }
        assert(message::effects_view(effects@) =~= old(self)@.step(input@).1);
        effects
    }

    fn on_tick(&mut self, now_ms: u64, effects: &mut Vec<Effect>)
        requires
            old(self)@.wf(),
            old(self)@.accepts((InputView::Tick { now_ms })),
        ensures
            final(self)@ == old(self)@.on_tick(now_ms).0,
            message::effects_view(final(effects)@) == message::effects_view(old(effects)@)
                + old(self)@.on_tick(now_ms).1,
            final(self)@.wf(),
    {
        self.now_ms = now_ms;
        if self.election_deadline_ms == 0 {
            self.reset_election_deadline();
        }
        if self.is_leader() {
            if self.heartbeat_due_ms <= now_ms {
                self.send_append_entries(effects);
                self.heartbeat_due_ms = now_ms + HEARTBEAT_MS;
            }
        } else if now_ms >= self.election_deadline_ms {
            self.start_election(effects);
        }
        assert(message::effects_view(effects@) =~= message::effects_view(old(effects)@) + old(
            self,
        )@.on_tick(now_ms).1);
        assert(self@ =~= old(self)@.on_tick(now_ms).0);
    }

    fn on_message(&mut self, from: NodeId, msg: RaftMessage, effects: &mut Vec<Effect>)
        requires
            old(self)@.wf(),
        ensures
            final(self)@ == old(self)@.on_message(from, msg@).0,
            message::effects_view(final(effects)@) == message::effects_view(old(effects)@)
                + old(self)@.on_message(from, msg@).1,
            final(self)@.wf(),
    {
        let mut payload_last_index: LogIndex = 0;
        if let RaftMessage::AppendEntries {
            term,
            leader_id,
            prev_log_index,
            prev_log_term,
            entries,
            ..
        } = &msg {
            match validate_append_entries(
                *term,
                *prev_log_index,
                *prev_log_term,
                entries.as_slice(),
            ) {
                Some(last) => {
                    payload_last_index = last;
                },
                None => {
                    let refusal = self.refuse_append(*leader_id);
                    emit(effects, refusal);
                    assert(message::effects_view(effects@) =~= message::effects_view(
                        old(effects)@,
                    ) + old(self)@.on_message(from, msg@).1);
                    return;
                },
            }
        }
        let msg_term: Term = match &msg {
            RaftMessage::RequestVote { term, .. } => *term,
            RaftMessage::RequestVoteReply { term, .. } => *term,
            RaftMessage::AppendEntries { term, .. } => *term,
            RaftMessage::AppendEntriesReply { term, .. } => *term,
        };
        if msg_term > self.hard.current_term {
            self.hard.current_term = msg_term;
            self.hard.voted_for = None;
            emit(effects, Effect::PersistHardState(self.hard.clone()));
            self.become_follower(effects);
        }
        let ghost adopted = old(self)@.adopt_term(msg_term);
        assert(self@ =~= adopted.0);
        assert(message::effects_view(effects@) =~= message::effects_view(old(effects)@)
            + adopted.1);
        match msg {
            RaftMessage::RequestVote { term, candidate_id, last_log_index, last_log_term } => {
                self.on_request_vote(term, candidate_id, last_log_index, last_log_term, effects)
            },
            RaftMessage::RequestVoteReply { term, vote_granted } => {
                self.on_request_vote_reply(from, term, vote_granted, effects)
            },
            RaftMessage::AppendEntries {
                term,
                leader_id,
                prev_log_index,
                prev_log_term,
                entries,
                leader_commit,
            } => {
                self.on_append_entries(
                    term,
                    leader_id,
                    prev_log_index,
                    prev_log_term,
                    entries,
                    payload_last_index,
                    leader_commit,
                    effects,
                )
            },
            RaftMessage::AppendEntriesReply { term, success, match_index } => {
                self.on_append_entries_reply(from, term, success, match_index, effects)
            },
        }
        assert(message::effects_view(effects@) =~= message::effects_view(old(effects)@) + old(
            self,
        )@.on_message(from, msg@).1);
    }

    /// On becoming a follower for any reason, candidate-only and leader-only
    /// state is dropped with the role. Announced only on a real change.
    pub(crate) fn become_follower(&mut self, effects: &mut Vec<Effect>)
        ensures
            final(self)@ == old(self)@.become_follower().0,
            message::effects_view(final(effects)@) == message::effects_view(old(effects)@)
                + old(self)@.become_follower().1,
    {
        if !matches!(self.role, Role::Follower) {
            self.role = Role::Follower;
            emit(
                effects,
                Effect::RoleChanged { role_name: "Follower", term: self.hard.current_term },
            );
        }
        assert(self@ =~= old(self)@.become_follower().0);
        assert(message::effects_view(effects@) =~= message::effects_view(old(effects)@) + old(
            self,
        )@.become_follower().1);
    }

    /// The answer to an AppendEntries that is not taken.
    pub(crate) fn refuse_append(&self, leader_id: NodeId) -> (effect: Effect)
        ensures
            effect@ == self@.append_refused(leader_id),
    {
        Effect::Send {
            to: leader_id,
            msg: RaftMessage::AppendEntriesReply {
                term: self.hard.current_term,
                success: false,
                match_index: self.last_log_index(),
            },
        }
    }

    /// The deadline is reset in exactly three situations: granting a vote,
    /// hearing from the current leader, starting an election (and it is drawn
    /// on the first tick).
    pub(crate) fn reset_election_deadline(&mut self)
        requires
            old(self).now_ms + ELECTION_MAX_MS <= u64::MAX,
        ensures
            final(self)@ == old(self)@.reset_election_deadline(),
    {
        let timeout: u64 = self.rng.range_inclusive(ELECTION_MIN_MS, ELECTION_MAX_MS);
        self.election_deadline_ms = self.now_ms + timeout;
        assert(self@ =~= old(self)@.reset_election_deadline());
    }

    /// The index of the last log entry, 0 for an empty log.
    pub fn last_log_index(&self) -> (index: LogIndex)
        ensures
            index == types::last_index(self@.log),
    {
        if self.log.len() == 0 {
            0
        } else {
            self.log[self.log.len() - 1].index
        }
    }

    /// The term of the last log entry, 0 for an empty log.
    pub(crate) fn last_log_term(&self) -> (term: Term)
        ensures
            term == types::last_term(self@.log),
    {
        if self.log.len() == 0 {
            0
        } else {
            self.log[self.log.len() - 1].term
        }
    }

    /// Whenever the commit index is beyond the last applied one, apply the next
    /// entry and advance: strictly in index order, once per boot and index.
    pub(crate) fn apply_committed(&mut self, effects: &mut Vec<Effect>)
        requires
            old(self).commit_index <= old(self).log@.len(),
        ensures
            final(self)@ == old(self)@.apply_committed().0,
            message::effects_view(final(effects)@) == message::effects_view(old(effects)@)
                + old(self)@.apply_committed().1,
    {
        let ghost before = old(self)@;
        let ghost applies = before.apply_committed().1;
        while self.commit_index > self.last_applied
            invariant
                before == old(self)@,
                applies == before.apply_committed().1,
                self.commit_index == before.commit_index,
                before.last_applied <= self.last_applied,
                self.last_applied <= self.commit_index || self.last_applied
                    == before.last_applied,
                self.commit_index <= self.log@.len(),
                self@ == (NodeView { last_applied: self.last_applied, ..before }),
                message::effects_view(effects@) == message::effects_view(old(effects)@)
                    + applies.take(self.last_applied - before.last_applied),
            decreases self.commit_index - self.last_applied,
        {
            assert(self.log.len() <= usize::MAX);
            let entry = self.log[self.last_applied as usize].clone();
            self.last_applied = self.last_applied + 1;
            emit(effects, Effect::Apply(entry));
            proof {
                let done = self.last_applied - before.last_applied;
                assert(applies.take(done) =~= applies.take(done - 1).push(applies[done - 1]));
                assert(message::effects_view(effects@) =~= message::effects_view(old(effects)@)
                    + applies.take(done));
            }
        }
        assert(applies.take(self.last_applied - before.last_applied) =~= applies);
        assert(self@ =~= before.apply_committed().0);
    }

    /// The term of the entry at `index`; `term_at(0) == 0`, "before the log".
    pub(crate) fn term_at(&self, index: LogIndex) -> (term: Term)
        ensures
            term == types::term_at(self@.log, index as int),
    {
        if index == 0 || index > self.log.len() as u64 {
            return 0;
        }
        self.log[(index - 1) as usize].term
    }

    /// A strict majority of the whole cluster (2 of 3, 3 of 5).
    pub(crate) fn majority(&self) -> (n: usize)
        ensures
            n == self@.majority(),
    {
        let half: usize = self.peers.len() / 2;
        if self.peers.len() % 2 == 1 {
            half + 2
        } else {
            half + 1
        }
    }

    /// When the node will start its next election.
    pub fn election_deadline(&self) -> (ms: u64)
        ensures
            ms == self@.election_deadline_ms,
    {
        self.election_deadline_ms
    }

    pub fn is_leader(&self) -> (leading: bool)
        ensures
            leading == self@.is_leader(),
    {
        matches!(self.role, Role::Leader { .. })
    }
}

} // verus!
