//! What each step of a node is for: what a tick, a message or a proposal gives,
//! said of what the node holds and of what it is handed, for every state and every
//! input.

use vstd::prelude::*;

use crate::message::{EffectView, InputView, MessageView};
use crate::node::{NodeView, RestoreError};
use crate::replication;
use crate::rng;
use crate::types::{Command, Entry, HardState, LogIndex, NodeId, RoleView, Term};

verus! {

/// The effect sends the peer what it lacks: the entries from its next index on,
/// up to the end of the log but no more than 16, behind the entry before them.
/// One that lacks nothing is sent none.
pub open spec fn replicates(s: NodeView, peer: NodeId, effect: EffectView) -> bool {
    let len = s.log.len();
    let next = s.role->next_index;
    let n: int = if next.contains_key(peer) {
        next[peer] as int
    } else {
        (len + 1) as int
    };
    effect matches EffectView::Send {
        to,
        msg: MessageView::AppendEntries {
            term,
            leader_id,
            prev_log_index,
            prev_log_term,
            entries,
            leader_commit,
        },
    } && {
        &&& to == peer
        &&& term == s.hard.current_term
        &&& leader_id == s.id
        &&& leader_commit == s.commit_index
        &&& prev_log_index == n - 1
        &&& 2 <= n <= len + 1 ==> prev_log_term == s.log[n - 2].term
        &&& n == 1 || n > len + 1 ==> prev_log_term == 0
        &&& n > len ==> entries.len() == 0
        &&& n <= len ==> {
            &&& entries.len() >= 1
            &&& entries.len() <= 16
            &&& entries.len() <= len - n + 1
            &&& entries.len() == 16 || entries.len() == len - n + 1
        }
        &&& forall|k: int| 0 <= k < entries.len() ==> #[trigger] entries[k] == s.log[n - 1 + k]
    }
}

/// A leader's AppendEntries go to every peer, one each, in order, and each
/// carries what that peer lacks.
pub proof fn law_every_peer_is_sent_what_it_lacks(s: NodeView)
    requires
        s.wf(),
        s.role is Leader,
    ensures
        s.append_entries_sends().len() == s.peers.len(),
        forall|i: int|
            0 <= i < s.peers.len() ==> replicates(
                s,
                s.peers[i],
                #[trigger] s.append_entries_sends()[i],
            ),
{
    let len = s.log.len();
    assert(len > 0 ==> s.log.last().index == len);
}

/// Nobody but a leader sends AppendEntries.
pub proof fn law_only_leaders_replicate(s: NodeView)
    requires
        !(s.role is Leader),
    ensures
        s.append_entries_sends().len() == 0,
{
}

/// The deadline that is drawn at `now` with the generator as it is: 150 ms and
/// up to 150 more.
pub open spec fn drawn(state: u64, now_ms: u64) -> int {
    now_ms + 150 + rng::pcg_output(state) as int % 151
}

/// A tick of a leader: heartbeats go out when they are due, to every peer, with
/// what it lacks, and are next due 50 ms later. Nothing else happens.
pub proof fn law_a_leaders_tick(s: NodeView, now_ms: u64)
    requires
        s.wf(),
        now_ms + 300 <= u64::MAX,
        s.role is Leader,
    ensures
        ({
            let (t, effects) = s.step(InputView::Tick { now_ms });
            &&& s.accepts(InputView::Tick { now_ms })
            &&& t == (NodeView {
                now_ms,
                heartbeat_due_ms: t.heartbeat_due_ms,
                election_deadline_ms: t.election_deadline_ms,
                rng: t.rng,
                ..s
            })
            &&& s.election_deadline_ms != 0 ==> t.election_deadline_ms == s.election_deadline_ms
                && t.rng == s.rng
            &&& s.election_deadline_ms == 0 ==> t.election_deadline_ms == drawn(s.rng.state, now_ms)
            &&& if now_ms >= s.heartbeat_due_ms {
                &&& t.heartbeat_due_ms == now_ms + 50
                &&& effects.len() == s.peers.len()
                &&& forall|i: int|
                    0 <= i < s.peers.len() ==> replicates(s, s.peers[i], #[trigger] effects[i])
            } else {
                &&& t.heartbeat_due_ms == s.heartbeat_due_ms
                &&& effects.len() == 0
            }
        }),
{
    let clocked = NodeView { now_ms, ..s };
    let timed = if s.election_deadline_ms == 0 {
        clocked.reset_election_deadline()
    } else {
        clocked
    };
    law_every_peer_is_sent_what_it_lacks(timed);
    let effects = s.step(InputView::Tick { now_ms }).1;
    if now_ms >= s.heartbeat_due_ms {
        assert forall|i: int| 0 <= i < s.peers.len() implies replicates(
            s,
            s.peers[i],
            #[trigger] effects[i],
        ) by {
            assert(replicates(timed, timed.peers[i], timed.append_entries_sends()[i]));
        }
    }
}

/// A tick of a node that does not lead, before its deadline: only the clock
/// moves, and the first tick draws a deadline.
pub proof fn law_a_tick_before_the_deadline(s: NodeView, now_ms: u64)
    requires
        s.wf(),
        now_ms + 300 <= u64::MAX,
        !(s.role is Leader),
        s.election_deadline_ms == 0 || now_ms < s.election_deadline_ms,
    ensures
        ({
            let (t, effects) = s.step(InputView::Tick { now_ms });
            &&& s.accepts(InputView::Tick { now_ms })
            &&& effects.len() == 0
            &&& t == (NodeView {
                now_ms,
                election_deadline_ms: t.election_deadline_ms,
                rng: t.rng,
                ..s
            })
            &&& s.election_deadline_ms != 0 ==> t.election_deadline_ms == s.election_deadline_ms
                && t.rng == s.rng
            &&& s.election_deadline_ms == 0 ==> t.election_deadline_ms == drawn(s.rng.state, now_ms)
        }),
{
}

/// A tick at or past the deadline starts an election: the next term, a vote for
/// oneself, on disk first; the role is announced where it is new; and then every
/// peer is asked for its vote, once, in order, and told where the log ends.
pub proof fn law_a_tick_at_the_deadline(s: NodeView, now_ms: u64)
    requires
        s.wf(),
        now_ms + 300 <= u64::MAX,
        !(s.role is Leader),
        s.election_deadline_ms != 0,
        now_ms >= s.election_deadline_ms,
        s.hard.current_term < u64::MAX,
    ensures
        ({
            let (t, effects) = s.step(InputView::Tick { now_ms });
            let term = (s.hard.current_term + 1) as u64;
            let told = if s.role is Candidate {
                1int
            } else {
                2
            };
            &&& s.accepts(InputView::Tick { now_ms })
            &&& t == (NodeView {
                now_ms,
                hard: HardState { current_term: term, voted_for: Some(s.id) },
                role: RoleView::Candidate { votes_received: set![s.id] },
                election_deadline_ms: t.election_deadline_ms,
                rng: t.rng,
                ..s
            })
            &&& t.election_deadline_ms == drawn(s.rng.state, now_ms)
            &&& effects.len() == told + s.peers.len()
            &&& effects[0] == EffectView::PersistHardState(
                HardState { current_term: term, voted_for: Some(s.id) },
            )
            &&& told == 2 ==> effects[1] == (EffectView::RoleChanged {
                role_name: "Candidate"@,
                term,
            })
            &&& forall|i: int|
                0 <= i < s.peers.len() ==> #[trigger] effects[told + i] == (EffectView::Send {
                    to: s.peers[i],
                    msg: MessageView::RequestVote {
                        term,
                        candidate_id: s.id,
                        last_log_index: s.log.len() as u64,
                        last_log_term: end_term(s.log),
                    },
                })
        }),
{
    let len = s.log.len();
    assert(len > 0 ==> s.log.last().index == len);
}

/// The term of a log's last entry; an empty log counts as of term 0.
pub open spec fn end_term(log: Seq<Entry>) -> Term {
    if log.len() == 0 {
        0
    } else {
        log[log.len() - 1].term
    }
}

/// Whatever is heard or proposed can be taken, and so can every tick that leaves
/// room on the clock, as long as terms can grow.
pub proof fn law_everything_can_be_taken(s: NodeView, input: InputView)
    requires
        input matches InputView::Tick { now_ms } ==> now_ms + 300 <= u64::MAX
            && s.hard.current_term < u64::MAX,
    ensures
        s.accepts(input),
{
}

/// What a newer term brings first: it is put on disk with no vote in it, and a
/// node that led or campaigned says that it follows.
pub open spec fn newer_term_first(s: NodeView, term: Term) -> Seq<EffectView> {
    if term <= s.hard.current_term {
        Seq::empty()
    } else if s.role is Follower {
        seq![EffectView::PersistHardState(HardState { current_term: term, voted_for: None })]
    } else {
        seq![
            EffectView::PersistHardState(HardState { current_term: term, voted_for: None }),
            EffectView::RoleChanged { role_name: "Follower"@, term },
        ]
    }
}

/// A vote is granted just where the request's term is not old, the vote of that
/// term is free or has gone to the same candidate, and the candidate's log ends
/// in a newer term, or in the same and is no shorter. A vote newly cast is on
/// disk before the reply, which goes to the candidate and carries the node's
/// term; granting puts the election off, and nothing else changes.
#[verifier::spinoff_prover]
pub proof fn law_a_vote_request(
    s: NodeView,
    from: NodeId,
    term: Term,
    candidate: NodeId,
    index: LogIndex,
    log_term: Term,
)
    requires
        s.wf(),
    ensures
        ({
            let msg = MessageView::RequestVote {
                term,
                candidate_id: candidate,
                last_log_index: index,
                last_log_term: log_term,
            };
            let (t, effects) = s.step(InputView::Message { from, msg });
            let newer = term > s.hard.current_term;
            let now = if newer {
                term
            } else {
                s.hard.current_term
            };
            let vote = if newer {
                None
            } else {
                s.hard.voted_for
            };
            let granted = term >= s.hard.current_term && (vote is None || vote == Some(candidate))
                && (log_term > end_term(s.log) || (log_term == end_term(s.log) && index
                >= s.log.len()));
            let cast = HardState { current_term: now, voted_for: Some(candidate) };
            &&& t == (NodeView {
                hard: HardState {
                    current_term: now,
                    voted_for: if granted {
                        Some(candidate)
                    } else {
                        vote
                    },
                },
                role: if newer {
                    RoleView::Follower
                } else {
                    s.role
                },
                election_deadline_ms: t.election_deadline_ms,
                rng: t.rng,
                ..s
            })
            &&& granted ==> t.election_deadline_ms == drawn(s.rng.state, s.now_ms)
            &&& !granted ==> t.election_deadline_ms == s.election_deadline_ms && t.rng == s.rng
            &&& effects == newer_term_first(s, term) + (if granted && vote is None {
                seq![EffectView::PersistHardState(cast)]
            } else {
                Seq::empty()
            }) + seq![
                EffectView::Send {
                    to: candidate,
                    msg: MessageView::RequestVoteReply { term: now, vote_granted: granted },
                },
            ]
        }),
{
    let len = s.log.len();
    assert(len > 0 ==> s.log.last().index == len);
    let msg = MessageView::RequestVote {
        term,
        candidate_id: candidate,
        last_log_index: index,
        last_log_term: log_term,
    };
    let (t, effects) = s.step(InputView::Message { from, msg });
    let (adopted, first) = s.adopt_term(term);
    assert(first =~= newer_term_first(s, term));
    let rest = adopted.dispatch(from, msg).1;
    let newer = term > s.hard.current_term;
    let vote = if newer {
        None
    } else {
        s.hard.voted_for
    };
    let now = if newer {
        term
    } else {
        s.hard.current_term
    };
    let granted = term >= s.hard.current_term && (vote is None || vote == Some(candidate)) && (
    log_term > end_term(s.log) || (log_term == end_term(s.log) && index >= s.log.len()));
    let cast = HardState { current_term: now, voted_for: Some(candidate) };
    let reply = EffectView::Send {
        to: candidate,
        msg: MessageView::RequestVoteReply { term: now, vote_granted: granted },
    };
    if granted && vote is None {
        assert(rest =~= seq![EffectView::PersistHardState(cast)] + seq![reply]);
    } else {
        assert(rest =~= seq![reply]);
    }
    assert(effects =~= newer_term_first(s, term) + (if granted && vote is None {
        seq![EffectView::PersistHardState(cast)]
    } else {
        Seq::empty()
    }) + seq![reply]);
}

/// A granted vote counts for a candidate of that term, if a peer sends it, once
/// for each peer. As long as votes are missing the candidate only keeps count.
pub proof fn law_a_vote_is_counted(
    s: NodeView,
    from: NodeId,
    term: Term,
    votes: Set<NodeId>,
)
    requires
        s.wf(),
        s.role == (RoleView::Candidate { votes_received: votes }),
        term == s.hard.current_term,
        s.peers.contains(from),
        2 * votes.insert(from).len() <= s.peers.len() + 1,
    ensures
        ({
            let msg = MessageView::RequestVoteReply { term, vote_granted: true };
            let (t, effects) = s.step(InputView::Message { from, msg });
            &&& effects.len() == 0
            &&& t == (NodeView {
                role: RoleView::Candidate { votes_received: votes.insert(from) },
                ..s
            })
        }),
{
}

/// Votes of more than half of the cluster make a leader, at once. A no-op of its
/// term stands at the end of its log and is put on disk; it says that it leads;
/// and every peer is sent the no-op behind what the log held before. Of each
/// peer the leader knows nothing yet, and its heartbeats are due in 50 ms.
#[verifier::spinoff_prover]
pub proof fn law_more_than_half_the_votes_make_a_leader(
    s: NodeView,
    from: NodeId,
    term: Term,
    votes: Set<NodeId>,
)
    requires
        s.wf(),
        s.role == (RoleView::Candidate { votes_received: votes }),
        term == s.hard.current_term,
        s.peers.contains(from),
        2 * votes.insert(from).len() > s.peers.len() + 1,
        s.log.len() < u64::MAX,
    ensures
        ({
            let msg = MessageView::RequestVoteReply { term, vote_granted: true };
            let (t, effects) = s.step(InputView::Message { from, msg });
            let index = (s.log.len() + 1) as u64;
            let noop = Entry { index, term, command: Command::NoOp };
            &&& t.role matches RoleView::Leader { next_index, match_index } && {
                &&& forall|p: NodeId| #[trigger]
                    next_index.contains_key(p) <==> s.peers.contains(p)
                &&& forall|p: NodeId| #[trigger]
                    match_index.contains_key(p) <==> s.peers.contains(p)
                &&& forall|p: NodeId| s.peers.contains(p) ==> #[trigger] next_index[p] == index
                &&& forall|p: NodeId| s.peers.contains(p) ==> #[trigger] match_index[p] == 0
            }
            &&& t == (NodeView {
                log: s.log.push(noop),
                role: t.role,
                heartbeat_due_ms: (s.now_ms + 50) as u64,
                ..s
            })
            &&& effects.len() == 2 + s.peers.len()
            &&& effects[0] == (EffectView::PersistLogEntries {
                truncate_from: None,
                entries: seq![noop],
            })
            &&& effects[1] == (EffectView::RoleChanged { role_name: "Leader"@, term })
            &&& forall|i: int|
                0 <= i < s.peers.len() ==> #[trigger] effects[2 + i] == (EffectView::Send {
                    to: s.peers[i],
                    msg: MessageView::AppendEntries {
                        term,
                        leader_id: s.id,
                        prev_log_index: s.log.len() as u64,
                        prev_log_term: end_term(s.log),
                        entries: seq![noop],
                        leader_commit: s.commit_index,
                    },
                })
        }),
{
    let msg = MessageView::RequestVoteReply { term, vote_granted: true };
    let (t, effects) = s.step(InputView::Message { from, msg });
    let index = (s.log.len() + 1) as u64;
    let noop = Entry { index, term, command: Command::NoOp };
    assert(s.log.len() > 0 ==> s.log.last().index == s.log.len());
    assert(t.log =~= s.log.push(noop));
    let sends = t.append_entries_sends();
    assert forall|i: int| 0 <= i < s.peers.len() implies #[trigger] effects[2 + i] == (
    EffectView::Send {
        to: s.peers[i],
        msg: MessageView::AppendEntries {
            term,
            leader_id: s.id,
            prev_log_index: s.log.len() as u64,
            prev_log_term: end_term(s.log),
            entries: seq![noop],
            leader_commit: s.commit_index,
        },
    }) by {
        assert(s.peers.contains(s.peers[i]));
        assert(effects[2 + i] == sends[i]);
        assert(t.log.subrange(s.log.len() as int, t.log.len() as int) =~= seq![noop]);
    }
}

/// Every other reply to a vote request is ignored, but for a newer term, which is
/// adopted.
pub proof fn law_other_vote_replies_are_ignored(
    s: NodeView,
    from: NodeId,
    term: Term,
    granted: bool,
)
    requires
        s.wf(),
        !(s.role is Candidate) || term != s.hard.current_term || !granted || !s.peers.contains(
            from,
        ),
    ensures
        ({
            let msg = MessageView::RequestVoteReply { term, vote_granted: granted };
            let (t, effects) = s.step(InputView::Message { from, msg });
            &&& effects == newer_term_first(s, term)
            &&& t == if term > s.hard.current_term {
                NodeView {
                    hard: HardState { current_term: term, voted_for: None },
                    role: RoleView::Follower,
                    ..s
                }
            } else {
                s
            }
        }),
{
    let msg = MessageView::RequestVoteReply { term, vote_granted: granted };
    let effects = s.step(InputView::Message { from, msg }).1;
    assert(effects =~= newer_term_first(s, term));
}

/// A proposal: a leader puts it at the end of its log, at the next index and in
/// its own term, on disk before it is accepted; anyone else refuses it and names
/// the leader last heard of. Nothing else changes.
pub proof fn law_a_proposal(s: NodeView, command: Command)
    requires
        s.wf(),
        s.log.len() < u64::MAX,
    ensures
        ({
            let (t, effects) = s.step(InputView::ClientPropose { command });
            let index = (s.log.len() + 1) as u64;
            let entry = Entry { index, term: s.hard.current_term, command };
            if s.role is Leader {
                &&& t == (NodeView { log: s.log.push(entry), ..s })
                &&& effects == seq![
                    EffectView::PersistLogEntries { truncate_from: None, entries: seq![entry] },
                    EffectView::ProposeAccepted { index },
                ]
            } else {
                &&& t == s
                &&& effects == seq![EffectView::ProposeRejected { leader_hint: s.leader_hint }]
            }
        }),
{
    assert(s.log.len() > 0 ==> s.log.last().index == s.log.len());
}

/// A payload is well framed just where it could be the continuation of a log that
/// ends at the anchor: the indices go on by one, the terms never fall, and none
/// is beyond the message's. Anything else is malformed, and so is an anchor of a
/// term beyond the message's.
pub proof fn law_a_well_framed_payload(
    term: Term,
    leader: NodeId,
    prev: LogIndex,
    prev_term: Term,
    entries: Seq<Entry>,
    commit: LogIndex,
)
    ensures
        ({
            let msg = MessageView::AppendEntries {
                term,
                leader_id: leader,
                prev_log_index: prev,
                prev_log_term: prev_term,
                entries,
                leader_commit: commit,
            };
            !NodeView::malformed(msg) <==> {
                &&& prev_term <= term
                &&& prev + entries.len() <= u64::MAX
                &&& entries.len() > 0 ==> entries[0].term >= prev_term
                &&& entries.len() > 0 ==> entries[entries.len() - 1].term <= term
                &&& forall|i: int|
                    0 <= i < entries.len() ==> (#[trigger] entries[i]).index == prev + i + 1
                &&& forall|i: int, j: int|
                    0 <= i < j < entries.len() ==> entries[i].term <= entries[j].term
            }
        }),
{
    let flows = entries.len() > 0 ==> entries[0].term >= prev_term && entries[entries.len()
        - 1].term <= term;
    let rises = forall|i: int, j: int|
        0 <= i < j < entries.len() ==> entries[i].term <= entries[j].term;
    if flows && rises && prev_term <= term {
        assert forall|i: int| 0 <= i < entries.len() implies prev_term <= (
        #[trigger] entries[i]).term <= term by {
            assert(entries[0].term <= entries[i].term || i == 0);
            assert(entries[i].term <= entries[entries.len() - 1].term || i == entries.len() - 1);
        }
    }
}

/// An AppendEntries that is malformed, or of an older term, changes nothing. Its
/// sender is told so, with the node's term and where its log ends.
pub proof fn law_a_bad_append_is_refused(
    s: NodeView,
    from: NodeId,
    term: Term,
    leader: NodeId,
    prev: LogIndex,
    prev_term: Term,
    entries: Seq<Entry>,
    commit: LogIndex,
)
    requires
        s.wf(),
    ensures
        ({
            let msg = MessageView::AppendEntries {
                term,
                leader_id: leader,
                prev_log_index: prev,
                prev_log_term: prev_term,
                entries,
                leader_commit: commit,
            };
            NodeView::malformed(msg) || term < s.hard.current_term ==> s.step(
                InputView::Message { from, msg },
            ) == (
                s,
                seq![
                    EffectView::Send {
                        to: leader,
                        msg: MessageView::AppendEntriesReply {
                            term: s.hard.current_term,
                            success: false,
                            match_index: s.log.len() as u64,
                        },
                    },
                ],
            )
        }),
{
    let msg = MessageView::AppendEntries {
        term,
        leader_id: leader,
        prev_log_index: prev,
        prev_log_term: prev_term,
        entries,
        leader_commit: commit,
    };
    assert(s.log.len() > 0 ==> s.log.last().index == s.log.len());
    let effects = s.step(InputView::Message { from, msg }).1;
    if NodeView::malformed(msg) || term < s.hard.current_term {
        assert(effects =~= seq![
            EffectView::Send {
                to: leader,
                msg: MessageView::AppendEntriesReply {
                    term: s.hard.current_term,
                    success: false,
                    match_index: s.log.len() as u64,
                },
            },
        ]);
    }
}

/// What a node does first that hears a current leader: a newer term is put on
/// disk, and one that led or campaigned says that it follows.
pub open spec fn leader_heard_first(s: NodeView, term: Term) -> Seq<EffectView> {
    if term > s.hard.current_term {
        newer_term_first(s, term)
    } else if s.role is Follower {
        Seq::empty()
    } else {
        seq![EffectView::RoleChanged { role_name: "Follower"@, term }]
    }
}

/// The node as a follower of the leader that it has just heard, with its election
/// put off.
pub open spec fn following(s: NodeView, term: Term, leader: NodeId, t: NodeView) -> bool {
    &&& t.id == s.id
    &&& t.peers == s.peers
    &&& t.hard == if term > s.hard.current_term {
        HardState { current_term: term, voted_for: None }
    } else {
        s.hard
    }
    &&& t.role == RoleView::Follower
    &&& t.leader_hint == Some(leader)
    &&& t.now_ms == s.now_ms
    &&& t.election_deadline_ms == drawn(s.rng.state, s.now_ms)
    &&& t.heartbeat_due_ms == s.heartbeat_due_ms
}

/// An AppendEntries of a current leader whose anchor the log does not hold: the
/// node follows, its log and what it has committed stay, and the leader is told
/// where the log ends.
pub proof fn law_an_append_that_does_not_fit(
    s: NodeView,
    from: NodeId,
    term: Term,
    leader: NodeId,
    prev: LogIndex,
    prev_term: Term,
    entries: Seq<Entry>,
    commit: LogIndex,
)
    requires
        s.wf(),
        term >= s.hard.current_term,
        prev > s.log.len() || (prev > 0 && s.log[prev - 1].term != prev_term),
    ensures
        ({
            let msg = MessageView::AppendEntries {
                term,
                leader_id: leader,
                prev_log_index: prev,
                prev_log_term: prev_term,
                entries,
                leader_commit: commit,
            };
            let (t, effects) = s.step(InputView::Message { from, msg });
            !NodeView::malformed(msg) ==> {
                &&& following(s, term, leader, t)
                &&& t.log == s.log
                &&& t.commit_index == s.commit_index
                &&& t.last_applied == s.last_applied
                &&& effects == leader_heard_first(s, term) + seq![
                    EffectView::Send {
                        to: leader,
                        msg: MessageView::AppendEntriesReply {
                            term,
                            success: false,
                            match_index: s.log.len() as u64,
                        },
                    },
                ]
            }
        }),
{
    let msg = MessageView::AppendEntries {
        term,
        leader_id: leader,
        prev_log_index: prev,
        prev_log_term: prev_term,
        entries,
        leader_commit: commit,
    };
    assert(s.log.len() > 0 ==> s.log.last().index == s.log.len());
    let (t, effects) = s.step(InputView::Message { from, msg });
    if !NodeView::malformed(msg) {
        let (adopted, first) = s.adopt_term(term);
        let rest = adopted.dispatch(from, msg).1;
        let reply = EffectView::Send {
            to: leader,
            msg: MessageView::AppendEntriesReply {
                term,
                success: false,
                match_index: s.log.len() as u64,
            },
        };
        assert(first + rest =~= leader_heard_first(s, term) + seq![reply]);
    }
}

/// The entries behind the `from`-th are applied, in order, up to the `to`-th.
pub open spec fn applies(log: Seq<Entry>, from: int, to: int) -> Seq<EffectView> {
    Seq::new((to - from) as nat, |i: int| EffectView::Apply(log[from + i]))
}

/// The entries of the payload before the `k`-th are in the log already, by index
/// and term, and the `k`-th, if there is one, is not.
pub open spec fn new_from(log: Seq<Entry>, prev: LogIndex, entries: Seq<Entry>, k: int) -> bool {
    &&& 0 <= k <= entries.len()
    &&& prev + k <= log.len()
    &&& forall|i: int| 0 <= i < k ==> log[prev + i].term == (#[trigger] entries[i]).term
    &&& k < entries.len() && prev + k < log.len() ==> log[prev + k].term != entries[k].term
}

proof fn lemma_new_from(log: Seq<Entry>, prev: LogIndex, entries: Seq<Entry>, k: int)
    requires
        prev <= log.len(),
        new_from(log, prev, entries, k),
    ensures
        replication::held(log, prev, entries, 0) == k,
{
    let n = replication::held(log, prev, entries, 0);
    replication::lemma_held(log, prev, entries, 0);
    if n < k {
        assert(entries[n].term == log[prev + n].term);
    }
    if k < n {
        assert(entries[k].term == log[prev + k].term);
    }
}

/// An AppendEntries of a current leader whose anchor the log holds, and of which
/// the entries from the `k`-th on are new. The log keeps what it has up to there;
/// where there is anything new, it goes on with that and nothing else, and just
/// that is put on disk, together with where to cut. Then the leader is told how
/// far the log is now known to be its own. What the leader has committed is
/// committed as far as that, and all of it applied, in order.
#[verifier::spinoff_prover]
#[verifier::rlimit(40)]
pub proof fn law_an_append_that_fits(
    s: NodeView,
    from: NodeId,
    term: Term,
    leader: NodeId,
    prev: LogIndex,
    prev_term: Term,
    entries: Seq<Entry>,
    commit: LogIndex,
    k: int,
)
    requires
        s.wf(),
        s.last_applied <= s.commit_index,
        term >= s.hard.current_term,
        prev <= s.log.len(),
        prev == 0 || s.log[prev - 1].term == prev_term,
        new_from(s.log, prev, entries, k),
    ensures
        ({
            let msg = MessageView::AppendEntries {
                term,
                leader_id: leader,
                prev_log_index: prev,
                prev_log_term: prev_term,
                entries,
                leader_commit: commit,
            };
            let (t, effects) = s.step(InputView::Message { from, msg });
            let covered = prev + entries.len();
            let known = if commit < covered {
                commit as int
            } else {
                covered
            };
            let raised = known > s.commit_index;
            let writes = if k < entries.len() {
                seq![
                    EffectView::PersistLogEntries {
                        truncate_from: if prev + k < s.log.len() {
                            Some((prev + k + 1) as u64)
                        } else {
                            None
                        },
                        entries: entries.skip(k),
                    },
                ]
            } else {
                Seq::empty()
            };
            let reply = EffectView::Send {
                to: leader,
                msg: MessageView::AppendEntriesReply {
                    term,
                    success: true,
                    match_index: covered as u64,
                },
            };
            !NodeView::malformed(msg) ==> {
                &&& following(s, term, leader, t)
                &&& t.log == if k < entries.len() {
                    s.log.take(prev + k) + entries.skip(k)
                } else {
                    s.log
                }
                &&& t.commit_index == if raised {
                    known
                } else {
                    s.commit_index as int
                }
                &&& t.last_applied == if raised {
                    known
                } else {
                    s.last_applied as int
                }
                &&& effects == leader_heard_first(s, term) + writes + seq![reply] + applies(
                    t.log,
                    s.last_applied as int,
                    t.last_applied as int,
                )
            }
        }),
{
    let msg = MessageView::AppendEntries {
        term,
        leader_id: leader,
        prev_log_index: prev,
        prev_log_term: prev_term,
        entries,
        leader_commit: commit,
    };
    assert(s.log.len() > 0 ==> s.log.last().index == s.log.len());
    let (t, effects) = s.step(InputView::Message { from, msg });
    if !NodeView::malformed(msg) {
        lemma_new_from(s.log, prev, entries, k);
        let (adopted, first) = s.adopt_term(term);
        let rest = adopted.dispatch(from, msg).1;
        let covered = prev + entries.len();
        let writes = if k < entries.len() {
            seq![
                EffectView::PersistLogEntries {
                    truncate_from: if prev + k < s.log.len() {
                        Some((prev + k + 1) as u64)
                    } else {
                        None
                    },
                    entries: entries.skip(k),
                },
            ]
        } else {
            Seq::empty()
        };
        let reply = EffectView::Send {
            to: leader,
            msg: MessageView::AppendEntriesReply {
                term,
                success: true,
                match_index: covered as u64,
            },
        };
        let applied = applies(t.log, s.last_applied as int, t.last_applied as int);
        let (follower, changed) = adopted.become_follower();
        assert(first + changed =~= leader_heard_first(s, term));
        let f = NodeView { leader_hint: Some(leader), ..follower.reset_election_deadline() };
        assert(f.merge_persist(prev, entries) =~= writes);
        let merged = NodeView { log: replication::merged(f.log, prev, entries), ..f };
        let known = if commit < covered {
            commit
        } else {
            covered as u64
        };
        assert(merged.commit_to(known).1 =~= applied);
        assert(rest =~= changed + writes + seq![reply] + applied);
        assert(effects =~= leader_heard_first(s, term) + writes + seq![reply] + applied);
    }
}

/// Every payload has a place from which on it is new, and just one.
pub proof fn law_a_payload_is_new_from_one_place(
    log: Seq<Entry>,
    prev: LogIndex,
    entries: Seq<Entry>,
)
    requires
        prev <= log.len(),
    ensures
        exists|k: int| #[trigger] new_from(log, prev, entries, k),
        forall|j: int, k: int|
            #![trigger new_from(log, prev, entries, j), new_from(log, prev, entries, k)]
            new_from(log, prev, entries, j) && new_from(log, prev, entries, k) ==> j == k,
{
    let n = replication::held(log, prev, entries, 0);
    replication::lemma_held(log, prev, entries, 0);
    if n > 0 {
        assert(entries[n - 1].term == log[prev + n - 1].term);
    }
    assert(new_from(log, prev, entries, n));
    assert forall|j: int, k: int|
        #![trigger new_from(log, prev, entries, j), new_from(log, prev, entries, k)]
        new_from(log, prev, entries, j) && new_from(log, prev, entries, k) implies j == k by {
        lemma_new_from(log, prev, entries, j);
        lemma_new_from(log, prev, entries, k);
    }
}

/// These peers hold the log up to index `n`, and together with the leader they are
/// more than half of the cluster.
pub open spec fn quorum_holds(
    peers: Set<NodeId>,
    marks: Map<NodeId, LogIndex>,
    n: LogIndex,
) -> bool {
    &&& peers.finite()
    &&& peers.subset_of(marks.dom())
    &&& 2 * (peers.len() + 1) > marks.dom().len() + 1
    &&& forall|p: NodeId| #[trigger] peers.contains(p) ==> marks[p] >= n
}

/// A success raises what the leader knows of that peer, never lowers it, and the
/// next entry to send is the one behind that. Of the others nothing changes.
/// Whatever becomes committed is applied, in order, and nothing else is done.
#[verifier::spinoff_prover]
pub proof fn law_an_acknowledged_append(
    s: NodeView,
    from: NodeId,
    hint: LogIndex,
    next: Map<NodeId, LogIndex>,
    matched: Map<NodeId, LogIndex>,
)
    requires
        s.wf(),
        s.last_applied <= s.commit_index <= s.log.len(),
        s.role == (RoleView::Leader { next_index: next, match_index: matched }),
        next.contains_key(from),
        matched.contains_key(from),
    ensures
        ({
            let msg = MessageView::AppendEntriesReply {
                term: s.hard.current_term,
                success: true,
                match_index: hint,
            };
            let (t, effects) = s.step(InputView::Message { from, msg });
            let mark = if hint > matched[from] {
                hint
            } else {
                matched[from]
            };
            &&& t.role == (RoleView::Leader {
                next_index: next.insert(
                    from,
                    if mark < u64::MAX {
                        (mark + 1) as u64
                    } else {
                        mark
                    },
                ),
                match_index: matched.insert(from, mark),
            })
            &&& t == (NodeView {
                role: t.role,
                commit_index: t.commit_index,
                last_applied: t.last_applied,
                ..s
            })
            &&& s.commit_index <= t.commit_index <= s.log.len()
            &&& t.last_applied == if t.commit_index > s.commit_index {
                t.commit_index
            } else {
                s.last_applied
            }
            &&& effects == applies(s.log, s.last_applied as int, t.last_applied as int)
        }),
{
    let msg = MessageView::AppendEntriesReply {
        term: s.hard.current_term,
        success: true,
        match_index: hint,
    };
    let (t, effects) = s.step(InputView::Message { from, msg });
    assert(s.log.len() > 0 ==> s.log.last().index == s.log.len());
    replication::lemma_commit_target_floor(s);
    assert(effects =~= applies(s.log, s.last_applied as int, t.last_applied as int));
}

/// After a success a leader has committed up to the last entry of its own term
/// that it and enough peers hold to be more than half of the cluster, if that is
/// beyond what was committed: so far, and no further.
#[verifier::spinoff_prover]
pub proof fn law_a_leader_commits_what_a_quorum_holds(
    s: NodeView,
    from: NodeId,
    hint: LogIndex,
    next: Map<NodeId, LogIndex>,
    matched: Map<NodeId, LogIndex>,
)
    requires
        s.wf(),
        s.last_applied <= s.commit_index <= s.log.len(),
        s.role == (RoleView::Leader { next_index: next, match_index: matched }),
        next.contains_key(from),
        matched.contains_key(from),
        matched.dom().finite(),
    ensures
        ({
            let msg = MessageView::AppendEntriesReply {
                term: s.hard.current_term,
                success: true,
                match_index: hint,
            };
            let t = s.step(InputView::Message { from, msg }).0;
            let marks = t.role->match_index;
            &&& t.commit_index > s.commit_index ==> {
                &&& s.log[t.commit_index - 1].term == s.hard.current_term
                &&& exists|q: Set<NodeId>| #[trigger] quorum_holds(q, marks, t.commit_index)
            }
            &&& forall|n: LogIndex, q: Set<NodeId>|
                s.commit_index < n <= s.log.len() && s.log[n - 1].term == s.hard.current_term
                    && #[trigger] quorum_holds(q, marks, n) ==> t.commit_index >= n
        }),
{
    let msg = MessageView::AppendEntriesReply {
        term: s.hard.current_term,
        success: true,
        match_index: hint,
    };
    let t = s.step(InputView::Message { from, msg }).0;
    let mark = if hint > matched[from] {
        hint
    } else {
        matched[from]
    };
    let marks = matched.insert(from, mark);
    law_an_acknowledged_append(s, from, hint, next, matched);
    assert(t.role->match_index == marks);
    assert(s.log.len() > 0 ==> s.log.last().index == s.log.len());
    let term = s.hard.current_term;
    let len = s.log.len() as u64;
    replication::lemma_commit_target(len, s.commit_index, term, s.log, marks);
    assert(marks.dom() =~= matched.dom());
    if t.commit_index > s.commit_index {
        let q = replication::holders(marks, t.commit_index);
        assert(quorum_holds(q, marks, t.commit_index)) by {
            vstd::set_lib::lemma_len_subset(q, marks.dom());
        }
    }
    assert forall|n: LogIndex, q: Set<NodeId>|
        s.commit_index < n <= s.log.len() && s.log[n - 1].term == term && #[trigger] quorum_holds(
            q,
            marks,
            n,
        ) implies t.commit_index >= n by {
        let all = replication::holders(marks, n);
        assert(q.subset_of(all));
        vstd::set_lib::lemma_len_subset(q, all);
        assert(replication::may_commit(n, term, s.log, marks));
    }
}

/// A refusal takes the leader back for that peer: by one at least, and to behind
/// where the peer's log ends, but no further than to the first entry. Nothing
/// else changes.
pub proof fn law_a_refused_append(
    s: NodeView,
    from: NodeId,
    hint: LogIndex,
    next: Map<NodeId, LogIndex>,
    matched: Map<NodeId, LogIndex>,
)
    requires
        s.wf(),
        s.role == (RoleView::Leader { next_index: next, match_index: matched }),
        next.contains_key(from),
        matched.contains_key(from),
    ensures
        ({
            let msg = MessageView::AppendEntriesReply {
                term: s.hard.current_term,
                success: false,
                match_index: hint,
            };
            let (t, effects) = s.step(InputView::Message { from, msg });
            &&& effects.len() == 0
            &&& t.role matches RoleView::Leader { next_index, match_index } && {
                let n = next_index[from];
                &&& match_index == matched
                &&& next_index == next.insert(from, n)
                &&& n >= 1
                &&& next[from] > 1 ==> n < next[from]
                &&& n > 1 ==> n <= hint + 1
                &&& n == 1 || n == next[from] - 1 || n == hint + 1
            }
            &&& t == (NodeView { role: t.role, ..s })
        }),
{
    let msg = MessageView::AppendEntriesReply {
        term: s.hard.current_term,
        success: false,
        match_index: hint,
    };
    let (t, effects) = s.step(InputView::Message { from, msg });
    assert(effects =~= Seq::empty());
}

/// Every other reply to an AppendEntries is ignored, but for a newer term, which
/// is adopted.
pub proof fn law_other_append_replies_are_ignored(
    s: NodeView,
    from: NodeId,
    term: Term,
    success: bool,
    hint: LogIndex,
)
    requires
        s.wf(),
        term != s.hard.current_term || !(s.role matches RoleView::Leader {
            next_index,
            match_index,
        } && next_index.contains_key(from) && match_index.contains_key(from)),
    ensures
        ({
            let msg = MessageView::AppendEntriesReply { term, success, match_index: hint };
            let (t, effects) = s.step(InputView::Message { from, msg });
            &&& effects == newer_term_first(s, term)
            &&& t == if term > s.hard.current_term {
                NodeView {
                    hard: HardState { current_term: term, voted_for: None },
                    role: RoleView::Follower,
                    ..s
                }
            } else {
                s
            }
        }),
{
    let msg = MessageView::AppendEntriesReply { term, success, match_index: hint };
    let effects = s.step(InputView::Message { from, msg }).1;
    assert(effects =~= newer_term_first(s, term));
}

/// A lagging peer catches up. What a leader sends it, a follower of that leader
/// takes whose log holds the anchor; its acknowledgement takes the leader on by
/// as many entries as were sent, at least one as long as any is missing.
pub proof fn law_an_acknowledged_batch_brings_the_next(
    s: NodeView,
    peer: NodeId,
    effect: EffectView,
    next: Map<NodeId, LogIndex>,
    matched: Map<NodeId, LogIndex>,
)
    requires
        s.wf(),
        s.last_applied <= s.commit_index <= s.log.len(),
        s.role == (RoleView::Leader { next_index: next, match_index: matched }),
        next.contains_key(peer),
        matched.contains_key(peer),
        matched[peer] < next[peer] <= s.log.len(),
        s.log.len() < u64::MAX,
        replicates(s, peer, effect),
    ensures
        ({
            let sent = effect->msg;
            let reply = MessageView::AppendEntriesReply {
                term: s.hard.current_term,
                success: true,
                match_index: (sent->prev_log_index + sent->entries.len()) as u64,
            };
            let t = s.step(InputView::Message { from: peer, msg: reply }).0;
            &&& t.role matches RoleView::Leader { next_index, match_index } && {
                &&& next_index[peer] == next[peer] + sent->entries.len()
                &&& next_index[peer] > next[peer]
                &&& next_index[peer] <= s.log.len() + 1
                &&& match_index[peer] == next_index[peer] - 1
            }
            &&& t.log == s.log
        }),
{
    let sent = effect->msg;
    let hint = (sent->prev_log_index + sent->entries.len()) as u64;
    law_an_acknowledged_append(s, peer, hint, next, matched);
}

/// The role is announced just where it changes, once, under its name and with
/// the term.
#[verifier::spinoff_prover]
#[verifier::rlimit(40)]
pub proof fn law_a_change_of_role_is_announced(s: NodeView, input: InputView)
    requires
        s.wf(),
        s.accepts(input),
    ensures
        ({
            let (t, effects) = s.step(input);
            let changed = !((s.role is Follower && t.role is Follower) || (s.role is Candidate
                && t.role is Candidate) || (s.role is Leader && t.role is Leader));
            let name = match t.role {
                RoleView::Follower => "Follower"@,
                RoleView::Candidate { .. } => "Candidate"@,
                RoleView::Leader { .. } => "Leader"@,
            };
            &&& changed ==> exists|i: int|
                0 <= i < effects.len() && #[trigger] effects[i] == (EffectView::RoleChanged {
                    role_name: name,
                    term: t.hard.current_term,
                })
            &&& forall|i: int|
                0 <= i < effects.len() && #[trigger] effects[i] is RoleChanged ==> changed
                    && effects[i] == (EffectView::RoleChanged {
                    role_name: name,
                    term: t.hard.current_term,
                })
            &&& forall|i: int, j: int|
                0 <= i < j < effects.len() && #[trigger] effects[i] is RoleChanged ==> !(
                #[trigger] effects[j] is RoleChanged)
        }),
{
    let (t, effects) = s.step(input);
    let name = match t.role {
        RoleView::Follower => "Follower"@,
        RoleView::Candidate { .. } => "Candidate"@,
        RoleView::Leader { .. } => "Leader"@,
    };
    let said = EffectView::RoleChanged { role_name: name, term: t.hard.current_term };
    assert(effects.len() > 0 ==> effects[0] == effects[0]);
    assert(effects.len() > 1 ==> effects[1] == effects[1]);
}

/// Whatever becomes committed in a step is applied in it.
pub proof fn law_what_is_committed_is_applied(s: NodeView, input: InputView)
    requires
        s.wf(),
        s.accepts(input),
        s.last_applied == s.commit_index,
    ensures
        s.step(input).0.last_applied == s.step(input).0.commit_index,
{
    replication::lemma_commit_target_floor(s);
}

/// A node boots as a follower that knows what its disk held, and nothing else.
pub proof fn law_a_node_boots_with_its_disk(
    id: NodeId,
    peers: Seq<NodeId>,
    seed: u64,
    hard: HardState,
    log: Seq<Entry>,
)
    ensures
        ({
            let s = NodeView::booted(id, peers, seed, hard, log);
            &&& s.id == id && s.peers == peers && s.hard == hard && s.log == log
            &&& s.commit_index == 0 && s.last_applied == 0
            &&& s.role == RoleView::Follower && s.leader_hint is None
            &&& s.now_ms == 0 && s.election_deadline_ms == 0 && s.heartbeat_due_ms == 0
        }),
{
}

/// A durable state is refused just where its log does not run 1, 2, 3 and so on,
/// or a term falls, or one is beyond the current term.
pub proof fn law_only_broken_logs_are_refused(hard: HardState, log: Seq<Entry>)
    requires
        log.len() < u64::MAX,
    ensures
        (forall|i: int|
            0 <= i < log.len() ==> #[trigger] crate::node::restore_fault(hard, log, i) is None) <==> (
        forall|i: int|
            0 <= i < log.len() ==> {
                &&& (#[trigger] log[i]).index == i + 1
                &&& i > 0 ==> log[i - 1].term <= log[i].term
                &&& log[i].term <= hard.current_term
            }),
        forall|i: int|
            0 <= i < log.len() ==> match #[trigger] crate::node::restore_fault(hard, log, i) {
                Some(RestoreError::BadIndex { position }) => position == i + 1 && log[i].index != i
                    + 1,
                Some(RestoreError::TermRegression { position }) => position == i + 1 && i > 0
                    && log[i].index == i + 1 && log[i].term < log[i - 1].term,
                Some(RestoreError::TermAhead { position }) => position == i + 1 && log[i].index == i
                    + 1 && log[i].term > hard.current_term,
                None => true,
            },
{
    let fine = forall|i: int|
        0 <= i < log.len() ==> #[trigger] crate::node::restore_fault(hard, log, i) is None;
    if fine {
        assert forall|i: int| 0 <= i < log.len() implies {
            &&& (#[trigger] log[i]).index == i + 1
            &&& i > 0 ==> log[i - 1].term <= log[i].term
            &&& log[i].term <= hard.current_term
        } by {
            assert(crate::node::restore_fault(hard, log, i) is None);
        }
    }
}

/// How many marks have reached an index is counted mark by mark, and an index may
/// be committed where more than half of them have and its entry is of the term.
pub proof fn law_marks_are_counted(
    marks: Seq<LogIndex>,
    mark: LogIndex,
    n: LogIndex,
    term: Term,
    log: Seq<Entry>,
)
    requires
        1 <= n <= log.len(),
    ensures
        replication::reached(Seq::empty(), n) == 0,
        replication::reached(marks.push(mark), n) == replication::reached(marks, n) + (if mark >= n {
            1int
        } else {
            0
        }),
        replication::committable(n, term, log, marks) <==> 2 * replication::reached(marks, n)
            > marks.len() && log[n - 1].term == term,
{
    reveal(Seq::filter);
    assert(marks.push(mark).drop_last() =~= marks);
}

} // verus!
