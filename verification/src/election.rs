//! Leader election: starting an election, deciding a vote, counting replies,
//! and taking up leadership.

use std::collections::{BTreeMap, BTreeSet};

use vstd::prelude::*;

use crate::message;
use crate::message::{emit, Effect, EffectView, MessageView, RaftMessage};
use crate::node::{NodeView, Outcome, RaftNode, HEARTBEAT_MS};
use crate::types;
use crate::types::{Command, Entry, HardState, LogIndex, NodeId, Role, RoleView, Term};

verus! {

/// What a candidate asks for.
#[derive(Clone, Copy, Debug, PartialEq, Eq)]
pub struct RequestVoteRq {
    pub term: Term,
    pub candidate_id: NodeId,
    pub last_log_index: LogIndex,
    pub last_log_term: Term,
}

/// Whether a log that ends at `index` in `term` is at least as up to date as
/// one that ends at `own_index` in `own_term`: the last terms decide, and where
/// they are equal the last indices do.
pub open spec fn up_to_date(index: LogIndex, term: Term, own_index: LogIndex, own_term: Term) -> bool {
    term > own_term || (term == own_term && index >= own_index)
}

/// Whether the vote is granted: the request is not stale, no other candidate
/// has this term's vote, and the candidate's log is at least as up to date.
pub open spec fn grants(
    hard: HardState,
    last_log_index: LogIndex,
    last_log_term: Term,
    rq: RequestVoteRq,
) -> bool {
    &&& rq.term >= hard.current_term
    &&& hard.voted_for is None || hard.voted_for == Some(rq.candidate_id)
    &&& up_to_date(rq.last_log_index, rq.last_log_term, last_log_index, last_log_term)
}

/// The vote as a pure function: see [`grants`].
pub fn decide_vote(
    hard: &HardState,
    last_log_index: LogIndex,
    last_log_term: Term,
    rq: &RequestVoteRq,
) -> (granted: bool)
    ensures
        granted == grants(*hard, last_log_index, last_log_term, *rq),
{
    if rq.term < hard.current_term {
        return false;
    }
    let free = match hard.voted_for {
        None => true,
        Some(candidate) => candidate == rq.candidate_id,
    };
    free && (rq.last_log_term > last_log_term || (rq.last_log_term == last_log_term
        && rq.last_log_index >= last_log_index))
}

impl NodeView {
    /// The solicitation that a candidate sends to each of its peers.
    pub open spec fn vote_requests(self) -> Seq<EffectView> {
        Seq::new(
            self.peers.len(),
            |i: int|
                EffectView::Send {
                    to: self.peers[i],
                    msg: MessageView::RequestVote {
                        term: self.hard.current_term,
                        candidate_id: self.id,
                        last_log_index: types::last_index(self.log),
                        last_log_term: types::last_term(self.log),
                    },
                },
        )
    }

    /// Starting an election: the next term, a vote for oneself, a fresh
    /// deadline; the vote is durable before anyone is asked for theirs.
    pub open spec fn start_election(self) -> Outcome {
        let hard = HardState {
            current_term: (self.hard.current_term + 1) as u64,
            voted_for: Some(self.id),
        };
        let s = NodeView {
            hard,
            role: RoleView::Candidate { votes_received: set![self.id] },
            ..self
        }.reset_election_deadline();
        let changed = if self.role is Candidate {
            Seq::empty()
        } else {
            seq![
                EffectView::RoleChanged { role_name: "Candidate"@, term: hard.current_term },
            ]
        };
        (s, seq![EffectView::PersistHardState(hard)] + changed + s.vote_requests())
    }

    /// A request for a vote: a newly cast vote is durable before the reply, and
    /// only a granted one puts the election deadline off.
    pub open spec fn on_request_vote(
        self,
        term: Term,
        candidate_id: NodeId,
        last_log_index: LogIndex,
        last_log_term: Term,
    ) -> Outcome {
        let rq = RequestVoteRq { term, candidate_id, last_log_index, last_log_term };
        let granted = grants(
            self.hard,
            types::last_index(self.log),
            types::last_term(self.log),
            rq,
        );
        let reply = EffectView::Send {
            to: candidate_id,
            msg: MessageView::RequestVoteReply {
                term: self.hard.current_term,
                vote_granted: granted,
            },
        };
        if !granted {
            (self, seq![reply])
        } else {
            let hard = HardState { voted_for: Some(candidate_id), ..self.hard };
            let persist = if self.hard.voted_for is None {
                seq![EffectView::PersistHardState(hard)]
            } else {
                Seq::empty()
            };
            (NodeView { hard, ..self }.reset_election_deadline(), persist.push(reply))
        }
    }

    /// A vote reply counts only if it is a grant from a peer to a candidate in
    /// its current term; a strict majority of distinct voters makes a leader.
    pub open spec fn on_request_vote_reply(
        self,
        from: NodeId,
        term: Term,
        vote_granted: bool,
    ) -> Outcome {
        match self.role {
            RoleView::Candidate { votes_received } if term == self.hard.current_term && vote_granted
                && self.peers.contains(from) => {
                let votes = votes_received.insert(from);
                let s = NodeView { role: RoleView::Candidate { votes_received: votes }, ..self };
                if votes.len() >= self.majority() {
                    s.become_leader()
                } else {
                    (s, Seq::empty())
                }
            },
            _ => (self, Seq::empty()),
        }
    }

    /// The entry that a new leader appends first.
    pub open spec fn opening_entry(self) -> Entry {
        Entry {
            index: (types::last_index(self.log) + 1) as u64,
            term: self.hard.current_term,
            command: Command::NoOp,
        }
    }

    /// Taking up leadership: replication starts at the end of the log as it
    /// was, a no-op of the new term is appended and made durable, and the
    /// peers hear of it at once.
    pub open spec fn become_leader(self) -> Outcome {
        let noop = self.opening_entry();
        let s = NodeView {
            log: self.log.push(noop),
            role: RoleView::Leader {
                next_index: Map::new(|p: NodeId| self.peers.contains(p), |p: NodeId| noop.index),
                match_index: Map::new(|p: NodeId| self.peers.contains(p), |p: NodeId| 0),
            },
            heartbeat_due_ms: (self.now_ms + HEARTBEAT_MS) as u64,
            ..self
        };
        (
            s,
            seq![
                EffectView::PersistLogEntries { truncate_from: None, entries: seq![noop] },
                EffectView::RoleChanged { role_name: "Leader"@, term: self.hard.current_term },
            ] + s.append_entries_sends(),
        )
    }
}

impl RaftNode {
    /// Campaign: next term, vote for self, persist, then ask every peer.
    pub(crate) fn start_election(&mut self, effects: &mut Vec<Effect>)
        requires
            old(self)@.wf(),
            old(self)@.hard.current_term < u64::MAX,
        ensures
            final(self)@ == old(self)@.start_election().0,
            message::effects_view(final(effects)@) == message::effects_view(old(effects)@)
                + old(self)@.start_election().1,
            final(self)@.wf(),
    {
        let announced = matches!(self.role, Role::Candidate { .. });
        self.hard.current_term = self.hard.current_term + 1;
        self.hard.voted_for = Some(self.id);
        let mut votes: BTreeSet<NodeId> = BTreeSet::new();
        votes.insert(self.id);
        self.role = Role::Candidate { votes_received: votes };
        self.reset_election_deadline();
        assert(self@ =~= old(self)@.start_election().0);
        emit(effects, Effect::PersistHardState(self.hard.clone()));
        if !announced {
            emit(
                effects,
                Effect::RoleChanged { role_name: "Candidate", term: self.hard.current_term },
            );
        }
        let ghost before = message::effects_view(effects@);
        let ghost sends = self@.vote_requests();
        let last_log_index: LogIndex = self.last_log_index();
        let last_log_term: Term = self.last_log_term();
        let mut i: usize = 0;
        while i < self.peers.len()
            invariant
                i <= self.peers@.len(),
                last_log_index == types::last_index(self@.log),
                last_log_term == types::last_term(self@.log),
                sends == self@.vote_requests(),
                message::effects_view(effects@) == before + sends.take(i as int),
            decreases self.peers@.len() - i,
        {
            emit(
                effects,
                Effect::Send {
                    to: self.peers[i],
                    msg: RaftMessage::RequestVote {
                        term: self.hard.current_term,
                        candidate_id: self.id,
                        last_log_index,
                        last_log_term,
                    },
                },
            );
            i = i + 1;
            assert(message::effects_view(effects@) =~= before + sends.take(i as int));
        }
        assert(message::effects_view(effects@) =~= message::effects_view(old(effects)@) + old(
            self,
        )@.start_election().1);
    }

    /// Decide a vote, persist it if it is new, and reply.
    pub(crate) fn on_request_vote(
        &mut self,
        term: Term,
        candidate_id: NodeId,
        last_log_index: LogIndex,
        last_log_term: Term,
        effects: &mut Vec<Effect>,
    )
        requires
            old(self)@.wf(),
        ensures
            final(self)@ == old(self)@.on_request_vote(
                term,
                candidate_id,
                last_log_index,
                last_log_term,
            ).0,
            message::effects_view(final(effects)@) == message::effects_view(old(effects)@)
                + old(self)@.on_request_vote(
                term,
                candidate_id,
                last_log_index,
                last_log_term,
            ).1,
            final(self)@.wf(),
    {
        let rq = RequestVoteRq { term, candidate_id, last_log_index, last_log_term };
        let granted = decide_vote(&self.hard, self.last_log_index(), self.last_log_term(), &rq);
        if granted {
            if self.hard.voted_for.is_none() {
                self.hard.voted_for = Some(candidate_id);
                emit(effects, Effect::PersistHardState(self.hard.clone()));
            }
            self.reset_election_deadline();
        }
        emit(
                effects,
            Effect::Send {
                to: candidate_id,
                msg: RaftMessage::RequestVoteReply {
                    term: self.hard.current_term,
                    vote_granted: granted,
                },
            },
        );
        let ghost out = old(self)@.on_request_vote(
            term,
            candidate_id,
            last_log_index,
            last_log_term,
        );
        assert(self@ =~= out.0);
        assert(message::effects_view(effects@) =~= message::effects_view(old(effects)@) + out.1);
    }

    /// Count a vote; a strict majority of the cluster makes this node leader.
    pub(crate) fn on_request_vote_reply(
        &mut self,
        from: NodeId,
        term: Term,
        vote_granted: bool,
        effects: &mut Vec<Effect>,
    )
        requires
            old(self)@.wf(),
        ensures
            final(self)@ == old(self)@.on_request_vote_reply(from, term, vote_granted).0,
            message::effects_view(final(effects)@) == message::effects_view(old(effects)@)
                + old(self)@.on_request_vote_reply(from, term, vote_granted).1,
            final(self)@.wf(),
    {
        let ghost out = old(self)@.on_request_vote_reply(from, term, vote_granted);
        if term != self.hard.current_term || !vote_granted || !self.is_peer(from) {
            assert(message::effects_view(effects@) =~= message::effects_view(old(effects)@)
                + out.1);
            return;
        }
        let majority: usize = self.majority();
        let won = match &mut self.role {
            Role::Candidate { votes_received } => {
                votes_received.insert(from);
                votes_received.len() >= majority
            },
            _ => false,
        };
        if won {
            self.become_leader(effects);
        }
        assert(self@ =~= out.0);
        assert(message::effects_view(effects@) =~= message::effects_view(old(effects)@) + out.1);
    }

    /// Whether `id` is one of this node's peers.
    pub(crate) fn is_peer(&self, id: NodeId) -> (found: bool)
        ensures
            found == self@.peers.contains(id),
    {
        let mut i: usize = 0;
        while i < self.peers.len()
            invariant
                i <= self.peers@.len(),
                forall|j: int| 0 <= j < i ==> self.peers@[j] != id,
            decreases self.peers@.len() - i,
        {
            if self.peers[i] == id {
                return true;
            }
            i = i + 1;
        }
        false
    }

    /// Take up leadership of the current term.
    pub(crate) fn become_leader(&mut self, effects: &mut Vec<Effect>)
        requires
            old(self)@.wf(),
        ensures
            final(self)@ == old(self)@.become_leader().0,
            message::effects_view(final(effects)@) == message::effects_view(old(effects)@)
                + old(self)@.become_leader().1,
            final(self)@.wf(),
    {
        let ghost out = old(self)@.become_leader();
        let next: LogIndex = self.last_log_index().wrapping_add(1);
        let noop = Entry { index: next, term: self.hard.current_term, command: Command::NoOp };
        self.log.push(noop.clone());
        proof {
            assert(self.log.len() <= usize::MAX);
            assert(next == types::last_index(old(self)@.log) + 1);
        }
        let mut next_index: BTreeMap<NodeId, LogIndex> = BTreeMap::new();
        let mut match_index: BTreeMap<NodeId, LogIndex> = BTreeMap::new();
        let mut i: usize = 0;
        while i < self.peers.len()
            invariant
                i <= self.peers@.len(),
                forall|p: NodeId| #[trigger]
                    next_index@.contains_key(p) <==> self.peers@.take(i as int).contains(p),
                forall|p: NodeId| #[trigger]
                    match_index@.contains_key(p) <==> self.peers@.take(i as int).contains(p),
                forall|p: NodeId| next_index@.contains_key(p) ==> #[trigger] next_index@[p] == next,
                forall|p: NodeId| match_index@.contains_key(p) ==> #[trigger] match_index@[p] == 0,
            decreases self.peers@.len() - i,
        {
            next_index.insert(self.peers[i], next);
            match_index.insert(self.peers[i], 0);
            proof {
                let grown = self.peers@.take(i + 1);
                assert(grown =~= self.peers@.take(i as int).push(self.peers@[i as int]));
                assert forall|p: NodeId|
                    grown.contains(p) <==> (self.peers@.take(i as int).contains(p) || p
                        == self.peers@[i as int]) by {
                    if p == self.peers@[i as int] {
                        assert(grown[i as int] == p);
                    }
                    if self.peers@.take(i as int).contains(p) {
                        let j = choose|j: int|
                            0 <= j < i && self.peers@.take(i as int)[j] == p;
                        assert(grown[j] == p);
                    }
                }
            }
            i = i + 1;
        }
        proof {
            assert(self.peers@.take(i as int) =~= self.peers@);
            assert(next_index@ =~= out.0.role->next_index);
            assert(match_index@ =~= out.0.role->match_index);
        }
        self.role = Role::Leader { next_index, match_index };
        self.heartbeat_due_ms = self.now_ms + HEARTBEAT_MS;
        assert(self@ =~= out.0);
        let entries: Vec<Entry> = vec![noop];
        assert(entries@ =~= seq![noop]);
        emit(effects, Effect::PersistLogEntries { truncate_from: None, entries });
        emit(effects, Effect::RoleChanged { role_name: "Leader", term: self.hard.current_term });
        self.send_append_entries(effects);
        assert(message::effects_view(effects@) =~= message::effects_view(old(effects)@) + out.1);
    }
}

} // verus!
