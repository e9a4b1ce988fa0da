//! What the protocol promises: of a single node's steps, and of every state of
//! every run of a cluster.

use vstd::prelude::*;

use crate::cluster::{reacts, run, Cluster, Packet};
use crate::driver;
use crate::election;
use crate::message::{EffectView, InputView, MessageView};
use crate::node::NodeView;
use crate::replication;
use crate::runs;
use crate::runs::{persists, visible};
use crate::safety;
use crate::safety::agree;
use crate::types;
use crate::types::{Command, Entry, HardState, LogIndex, NodeId, RoleView, Term};

verus! {

/// Election Safety: in the whole run, at whatever times, a term has at most one
/// leader.
pub proof fn law_election_safety(states: Seq<Cluster>, i: int, j: int, a: NodeId, b: NodeId)
    requires
        run(states),
        0 <= i <= j < states.len(),
        states[i].nodes.contains_key(a),
        states[j].nodes.contains_key(b),
        states[i].nodes[a].is_leader(),
        states[j].nodes[b].is_leader(),
        states[i].nodes[a].hard.current_term == states[j].nodes[b].hard.current_term,
    ensures
        a == b,
{
    let h = runs::lemma_run_safe(states, i);
    let g = runs::lemma_run_on(states, i, h, j);
    safety::lemma_one_leader(states[i], states[j], h, g, a, b);
}

/// Log Matching: where two logs, at whatever times, have an entry of the same
/// term at the same index, they are the same up to and with that index.
pub proof fn law_log_matching(
    states: Seq<Cluster>,
    i: int,
    j: int,
    a: NodeId,
    b: NodeId,
    index: int,
)
    requires
        run(states),
        0 <= i <= j < states.len(),
        states[i].nodes.contains_key(a),
        states[j].nodes.contains_key(b),
        1 <= index <= states[i].nodes[a].log.len(),
        index <= states[j].nodes[b].log.len(),
        types::term_at(states[i].nodes[a].log, index) == types::term_at(
            states[j].nodes[b].log,
            index,
        ),
    ensures
        states[i].nodes[a].log.take(index) == states[j].nodes[b].log.take(index),
{
    let h = runs::lemma_run_safe(states, i);
    let g = runs::lemma_run_on(states, i, h, j);
    safety::lemma_logs_match(states[i], states[j], h, g, a, b, index - 1);
    assert(states[i].nodes[a].log.take(index) =~= states[j].nodes[b].log.take(index));
}

/// Leader Completeness: what a node has committed is, from then on, in the log
/// of every leader of a term at least as new as that node's was.
pub proof fn law_leader_completeness(
    states: Seq<Cluster>,
    i: int,
    j: int,
    node: NodeId,
    leader: NodeId,
)
    requires
        run(states),
        0 <= i <= j < states.len(),
        states[i].nodes.contains_key(node),
        states[j].nodes.contains_key(leader),
        states[j].nodes[leader].is_leader(),
        states[i].nodes[node].hard.current_term <= states[j].nodes[leader].hard.current_term,
    ensures
        ({
            let done = states[i].nodes[node].commit_index as int;
            &&& done <= states[i].nodes[node].log.len()
            &&& done <= states[j].nodes[leader].log.len()
            &&& states[i].nodes[node].log.take(done) == states[j].nodes[leader].log.take(done)
        }),
{
    let h = runs::lemma_run_safe(states, i);
    let g = runs::lemma_run_on(states, i, h, j);
    let done = states[i].nodes[node].commit_index as int;
    safety::lemma_leader_has_committed(states[i], states[j], h, g, node, leader);
    assert(states[i].nodes[node].log.take(done) =~= states[j].nodes[leader].log.take(done));
}

/// State Machine Safety: no two nodes ever apply different entries at the same
/// index, nor does one node before and after a restart.
pub proof fn law_state_machine_safety(states: Seq<Cluster>, i: int, a: Entry, b: Entry)
    requires
        run(states),
        0 <= i < states.len(),
        states[i].applied.contains(a),
        states[i].applied.contains(b),
        a.index == b.index,
    ensures
        a == b,
{
    let h = runs::lemma_run_safe(states, i);
    safety::lemma_applied_agree(states[i], h, a, b);
}

/// Committed prefixes agree: whatever two nodes have committed, at whatever
/// times, is the same as far as both go.
pub proof fn law_committed_prefixes_agree(
    states: Seq<Cluster>,
    i: int,
    j: int,
    a: NodeId,
    b: NodeId,
    index: int,
)
    requires
        run(states),
        0 <= i <= j < states.len(),
        states[i].nodes.contains_key(a),
        states[j].nodes.contains_key(b),
        0 <= index <= states[i].nodes[a].commit_index,
        index <= states[j].nodes[b].commit_index,
    ensures
        index <= states[i].nodes[a].log.len(),
        index <= states[j].nodes[b].log.len(),
        states[i].nodes[a].log.take(index) == states[j].nodes[b].log.take(index),
{
    let h = runs::lemma_run_safe(states, i);
    let g = runs::lemma_run_on(states, i, h, j);
    safety::lemma_committed_logs_agree(states[i], states[j], h, g, a, b);
    assert(states[i].nodes[a].log.take(index) =~= states[j].nodes[b].log.take(index));
}

/// One vote per term: whatever crashes and restarts lie in between, a node never
/// grants its vote to two candidates in one term.
pub proof fn law_one_vote_per_term(states: Seq<Cluster>, i: int, a: Packet, b: Packet, term: Term)
    requires
        run(states),
        0 <= i < states.len(),
        states[i].sent.contains(a),
        states[i].sent.contains(b),
        a.from == b.from,
        a.msg == (MessageView::RequestVoteReply { term, vote_granted: true }),
        b.msg == (MessageView::RequestVoteReply { term, vote_granted: true }),
    ensures
        a.to == b.to,
{
    let h = runs::lemma_run_safe(states, i);
    safety::lemma_one_vote(states[i], h, a, b);
}

/// A restart is never refused: what any node has on disk, even after a crash in
/// the middle of a write, is a log that [`RaftNode::restore`] accepts.
///
/// [`RaftNode::restore`]: crate::node::RaftNode::restore
pub proof fn law_disk_is_bootable(states: Seq<Cluster>, i: int, n: NodeId)
    requires
        run(states),
        0 <= i < states.len(),
        states[i].nodes.contains_key(n),
    ensures
        ({
            let disk = states[i].nodes[n].durable();
            &&& types::contiguous(disk.log)
            &&& types::nondecreasing_terms(disk.log)
            &&& types::last_term(disk.log) <= disk.hard.current_term
        }),
{
    let h = runs::lemma_run_safe(states, i);
    safety::lemma_bootable(states[i], h, n);
}

/// Nothing is committed beyond the log, and nothing applied beyond what is
/// committed.
pub proof fn law_applied_committed_held(states: Seq<Cluster>, i: int, n: NodeId)
    requires
        run(states),
        0 <= i < states.len(),
        states[i].nodes.contains_key(n),
    ensures
        states[i].nodes[n].wf(),
        states[i].nodes[n].last_applied <= states[i].nodes[n].commit_index
            <= states[i].nodes[n].log.len(),
{
    let h = runs::lemma_run_safe(states, i);
    safety::lemma_safe_parts(states[i], h, n);
    safety::lemma_indices(states[i], h, n);
}

/// Terms never fall, and a vote once cast stands as long as the term does.
pub proof fn law_terms_and_votes_stand(s: NodeView, input: InputView)
    requires
        s.wf(),
        s.accepts(input),
    ensures
        s.step(input).0.hard.current_term >= s.hard.current_term,
        s.step(input).0.hard.current_term == s.hard.current_term && s.hard.voted_for is Some
            ==> s.step(input).0.hard.voted_for == s.hard.voted_for,
{
}

/// Between restarts the commit index never falls, nor does the last applied one.
pub proof fn law_commit_never_falls(s: NodeView, input: InputView)
    requires
        s.wf(),
        s.accepts(input),
    ensures
        s.step(input).0.commit_index >= s.commit_index,
        s.step(input).0.last_applied >= s.last_applied,
{
    replication::lemma_commit_target_floor(s);
}

/// Leader Append-Only: as long as a node leads a term, its log only grows at the
/// end.
pub proof fn law_leader_append_only(s: NodeView, input: InputView)
    requires
        s.wf(),
        s.accepts(input),
        s.is_leader(),
        s.step(input).0.is_leader(),
    ensures
        s.step(input).0.hard.current_term == s.hard.current_term,
        s.log.len() <= s.step(input).0.log.len(),
        s.step(input).0.log.take(s.log.len() as int) == s.log,
{
    assert(s.step(input).0.log.take(s.log.len() as int) =~= s.log);
}

/// The entries that a batch applies, in order.
pub open spec fn applied_in(effects: Seq<EffectView>) -> Seq<Entry>
    decreases effects.len(),
{
    if effects.len() == 0 {
        Seq::empty()
    } else {
        match effects.last() {
            EffectView::Apply(e) => applied_in(effects.drop_last()).push(e),
            _ => applied_in(effects.drop_last()),
        }
    }
}

/// Two batches apply what each of them applies.
pub proof fn lemma_applied_in_both(a: Seq<EffectView>, b: Seq<EffectView>)
    ensures
        applied_in(a + b) == applied_in(a) + applied_in(b),
    decreases b.len(),
{
    if b.len() == 0 {
        assert(a + b =~= a);
        assert(applied_in(a) + applied_in(b) =~= applied_in(a));
    } else {
        lemma_applied_in_both(a, b.drop_last());
        assert((a + b).drop_last() =~= a + b.drop_last());
        assert(applied_in(a + b) =~= applied_in(a) + applied_in(b));
    }
}

proof fn lemma_applied_in_none(effects: Seq<EffectView>)
    requires
        forall|i: int| 0 <= i < effects.len() ==> !(#[trigger] effects[i] is Apply),
    ensures
        applied_in(effects) == Seq::<Entry>::empty(),
    decreases effects.len(),
{
    if effects.len() > 0 {
        lemma_applied_in_none(effects.drop_last());
    }
}

proof fn lemma_applied_in_all(effects: Seq<EffectView>, entries: Seq<Entry>)
    requires
        effects.len() == entries.len(),
        forall|i: int|
            0 <= i < effects.len() ==> #[trigger] effects[i] == EffectView::Apply(entries[i]),
    ensures
        applied_in(effects) == entries,
    decreases effects.len(),
{
    if effects.len() > 0 {
        lemma_applied_in_all(effects.drop_last(), entries.drop_last());
        assert(applied_in(effects) =~= entries);
    } else {
        assert(entries =~= Seq::empty());
    }
}

/// A commit applies what lies between the last applied and the new commit index.
proof fn lemma_commit_applies(s: NodeView, commit: LogIndex)
    requires
        s.last_applied <= s.commit_index,
        commit <= s.log.len(),
        s.last_applied <= s.log.len(),
    ensures
        ({
            let (t, effects) = s.commit_to(commit);
            &&& t.log == s.log
            &&& s.last_applied <= t.last_applied <= s.log.len()
            &&& applied_in(effects) == s.log.subrange(
                s.last_applied as int,
                t.last_applied as int,
            )
        }),
{
    let (t, effects) = s.commit_to(commit);
    let entries = s.log.subrange(s.last_applied as int, t.last_applied as int);
    lemma_applied_in_all(effects, entries);
}

/// Entries are applied in index order, each once, none left out: a step applies
/// just those from the last applied index up to the new one.
#[verifier::spinoff_prover]
pub proof fn law_applies_in_order(s: NodeView, input: InputView)
    requires
        s.wf(),
        s.accepts(input),
        s.last_applied <= s.commit_index <= s.log.len(),
        s.step(input).0.last_applied <= s.step(input).0.log.len(),
    ensures
        applied_in(s.step(input).1) == s.step(input).0.log.subrange(
            s.last_applied as int,
            s.step(input).0.last_applied as int,
        ),
{
    let (t, effects) = s.step(input);
    match input {
        InputView::Message { from, msg } if !NodeView::malformed(msg) => {
            let (s1, first) = s.adopt_term(msg.term());
            let rest = s1.dispatch(from, msg).1;
            lemma_applied_in_both(first, rest);
            lemma_applied_in_none(first);
            lemma_dispatch_applies(s1, from, msg);
            assert(applied_in(effects) =~= applied_in(rest));
        },
        _ => {
            lemma_applied_in_none(effects);
            assert(t.log.subrange(s.last_applied as int, t.last_applied as int)
                =~= Seq::<Entry>::empty());
        },
    }
}

#[verifier::spinoff_prover]
proof fn lemma_dispatch_applies(s: NodeView, from: NodeId, msg: MessageView)
    requires
        s.wf(),
        !NodeView::malformed(msg),
        s.last_applied <= s.commit_index <= s.log.len(),
        s.dispatch(from, msg).0.last_applied <= s.dispatch(from, msg).0.log.len(),
    ensures
        applied_in(s.dispatch(from, msg).1) == s.dispatch(from, msg).0.log.subrange(
            s.last_applied as int,
            s.dispatch(from, msg).0.last_applied as int,
        ),
{
    let (t, effects) = s.dispatch(from, msg);
    let none = Seq::<Entry>::empty();
    match msg {
        MessageView::AppendEntries {
            term,
            leader_id,
            prev_log_index,
            prev_log_term,
            entries,
            leader_commit,
        } => {
            let (follower, changed) = s.become_follower();
            let s1 = NodeView {
                leader_hint: Some(leader_id),
                ..follower.reset_election_deadline()
            };
            if term < s.hard.current_term || !s1.holds_anchor(prev_log_index, prev_log_term) {
                lemma_applied_in_none(effects);
                assert(t.log.subrange(s.last_applied as int, t.last_applied as int) =~= none);
            } else {
                let covered = (prev_log_index + entries.len()) as u64;
                let commit = if leader_commit < covered {
                    leader_commit
                } else {
                    covered
                };
                let s2 = NodeView {
                    log: replication::merged(s1.log, prev_log_index, entries),
                    ..s1
                };
                let applied = s2.commit_to(commit).1;
                let before = effects.take(effects.len() - applied.len());
                assert(effects =~= before + applied);
                lemma_applied_in_both(before, applied);
                lemma_applied_in_none(before);
                if commit > s2.commit_index {
                    lemma_commit_applies(s2, commit);
                } else {
                    lemma_applied_in_none(applied);
                    assert(t.log.subrange(s.last_applied as int, t.last_applied as int) =~= none);
                }
                assert(applied_in(effects) =~= applied_in(applied));
            }
        },
        MessageView::AppendEntriesReply { term, success, match_index } => {
            if t.commit_index != s.commit_index {
                let s1 = NodeView { role: t.role, ..s };
                replication::lemma_commit_target_floor(s);
                lemma_commit_applies(s1, t.commit_index);
            } else {
                lemma_applied_in_none(effects);
                assert(t.log.subrange(s.last_applied as int, t.last_applied as int) =~= none);
            }
        },
        _ => {
            lemma_applied_in_none(effects);
            assert(t.log.subrange(s.last_applied as int, t.last_applied as int) =~= none);
        },
    }
}

/// Persist before send: in a batch, nothing that others can see - a message, an
/// applied entry, an accepted proposal - comes before anything that is still to
/// be put on disk.
pub proof fn law_persist_before_visible(s: NodeView, input: InputView, i: int, j: int)
    requires
        s.wf(),
        s.accepts(input),
        0 <= i < j < s.step(input).1.len(),
        visible(s.step(input).1[i]),
    ensures
        !persists(s.step(input).1[j]),
{
    reveal(reacts);
    runs::lemma_disk_first(s, input, i, j);
}

/// The disk keeps up: once a batch is executed, what is on disk is the node's
/// term, vote and log.
pub proof fn law_disk_keeps_up(s: NodeView, input: InputView)
    requires
        s.wf(),
        s.accepts(input),
    ensures
        s.durable().after_all(s.step(input).1) == s.step(input).0.durable(),
{
    reveal(reacts);
    runs::lemma_disk_after(s, input);
}

/// A message of a newer term is obeyed before it is interpreted: the term is
/// adopted and on disk before anything else happens, and the node follows.
pub proof fn law_newer_term_is_adopted(s: NodeView, from: NodeId, msg: MessageView)
    requires
        s.wf(),
        !NodeView::malformed(msg),
        msg.term() > s.hard.current_term,
    ensures
        ({
            let (t, effects) = s.step(InputView::Message { from, msg });
            &&& t.hard.current_term == msg.term()
            &&& t.role is Follower
            &&& effects.len() > 0
            &&& effects[0] == EffectView::PersistHardState(
                HardState { current_term: msg.term(), voted_for: None },
            )
        }),
{
}

/// A malformed AppendEntries changes nothing, whatever its term; its sender is
/// told the current term and the last index.
pub proof fn law_malformed_append_changes_nothing(s: NodeView, from: NodeId, msg: MessageView)
    requires
        s.wf(),
        NodeView::malformed(msg),
    ensures
        s.step(InputView::Message { from, msg }) == (s, seq![s.append_refused(msg->leader_id)]),
{
}

/// A message of an older term changes nothing: a request is answered with a
/// refusal in the current term, a reply is ignored.
pub proof fn law_stale_message_changes_nothing(s: NodeView, from: NodeId, msg: MessageView)
    requires
        s.wf(),
        msg.term() < s.hard.current_term,
    ensures
        ({
            let (t, effects) = s.step(InputView::Message { from, msg });
            &&& t == s
            &&& effects == match msg {
                MessageView::RequestVote { candidate_id, .. } => seq![
                    EffectView::Send {
                        to: candidate_id,
                        msg: MessageView::RequestVoteReply {
                            term: s.hard.current_term,
                            vote_granted: false,
                        },
                    },
                ],
                MessageView::AppendEntries { leader_id, .. } => seq![s.append_refused(leader_id)],
                _ => Seq::empty(),
            }
        }),
{
    let effects = s.step(InputView::Message { from, msg }).1;
    match msg {
        MessageView::RequestVote { candidate_id, .. } => {
            assert(effects =~= seq![
                EffectView::Send {
                    to: candidate_id,
                    msg: MessageView::RequestVoteReply {
                        term: s.hard.current_term,
                        vote_granted: false,
                    },
                },
            ]);
        },
        MessageView::AppendEntries { leader_id, .. } => {
            assert(effects =~= seq![s.append_refused(leader_id)]);
        },
        _ => {
            assert(effects =~= Seq::empty());
        },
    }
}

/// A node stands for election on a tick at or past its deadline, unless it
/// leads, and at no other time: it goes to the next term, votes for itself, and
/// that is on disk before anyone is asked.
pub proof fn law_elections_start_at_the_deadline(s: NodeView, input: InputView)
    requires
        s.wf(),
        s.accepts(input),
    ensures
        ({
            let (t, effects) = s.step(input);
            let due = input matches InputView::Tick { now_ms } && s.campaigns(now_ms);
            &&& due ==> {
                &&& t.hard.current_term == s.hard.current_term + 1
                &&& t.hard.voted_for == Some(s.id)
                &&& t.role == (RoleView::Candidate { votes_received: set![s.id] })
                &&& effects[0] == EffectView::PersistHardState(t.hard)
                &&& forall|i: int|
                    0 <= i < s.peers.len() ==> effects.contains(
                        EffectView::Send {
                            to: #[trigger] s.peers[i],
                            msg: MessageView::RequestVote {
                                term: t.hard.current_term,
                                candidate_id: s.id,
                                last_log_index: types::last_index(s.log),
                                last_log_term: types::last_term(s.log),
                            },
                        },
                    )
            }
            &&& !due && t.role is Candidate ==> s.role is Candidate && t.hard.current_term
                == s.hard.current_term
        }),
{
    let (t, effects) = s.step(input);
    if input matches InputView::Tick { now_ms } && s.campaigns(now_ms) {
        let asked = t.vote_requests();
        let first = effects.len() - asked.len();
        assert forall|i: int| 0 <= i < s.peers.len() implies effects.contains(
            EffectView::Send {
                to: #[trigger] s.peers[i],
                msg: MessageView::RequestVote {
                    term: t.hard.current_term,
                    candidate_id: s.id,
                    last_log_index: types::last_index(s.log),
                    last_log_term: types::last_term(s.log),
                },
            },
        ) by {
            assert(effects[first + i] == asked[i]);
        }
    }
}

/// The election deadline is drawn afresh only by granting a vote, by an
/// AppendEntries that is well formed and not stale, by standing for election,
/// and by the first tick.
pub proof fn law_deadline_moves_for_a_reason(s: NodeView, input: InputView)
    requires
        s.wf(),
        s.accepts(input),
        s.step(input).0.election_deadline_ms != s.election_deadline_ms,
    ensures
        match input {
            InputView::Tick { now_ms } => s.campaigns(now_ms) || s.election_deadline_ms == 0,
            InputView::Message {
                msg: MessageView::RequestVote { candidate_id, .. },
                ..
            } => s.step(input).1.last() == (EffectView::Send {
                to: candidate_id,
                msg: MessageView::RequestVoteReply {
                    term: s.step(input).0.hard.current_term,
                    vote_granted: true,
                },
            }),
            InputView::Message { msg, .. } => {
                &&& msg is AppendEntries
                &&& !NodeView::malformed(msg)
                &&& msg.term() >= s.hard.current_term
            },
            InputView::ClientPropose { .. } => false,
        },
{
}

/// Only votes make a leader: a candidate that has those of a strict majority of
/// the cluster, each granted by a peer in the candidate's term. The new leader
/// has a no-op of its term at the end of its log, on disk before anything is
/// sent.
pub proof fn law_majority_makes_a_leader(s: NodeView, input: InputView)
    requires
        s.wf(),
        s.accepts(input),
        s.log.len() < u64::MAX,
        !s.is_leader(),
        s.step(input).0.is_leader(),
    ensures
        ({
            let (t, effects) = s.step(input);
            &&& t.hard == s.hard
            &&& s.role matches RoleView::Candidate { votes_received } && input
                matches InputView::Message {
                from,
                msg: MessageView::RequestVoteReply { term, vote_granted },
            } && {
                &&& vote_granted
                &&& term == s.hard.current_term
                &&& s.peers.contains(from)
                &&& votes_received.insert(from).len() >= (s.peers.len() + 1) / 2 + 1
            }
            &&& t.log == s.log.push(
                Entry {
                    index: (s.log.len() + 1) as u64,
                    term: s.hard.current_term,
                    command: Command::NoOp,
                },
            )
            &&& effects[0] == (EffectView::PersistLogEntries {
                truncate_from: None,
                entries: seq![t.log.last()],
            })
        }),
{
}

/// Whoever hears an AppendEntries that is well formed and not stale follows its
/// sender, even where the log does not fit.
pub proof fn law_current_append_is_followed(s: NodeView, from: NodeId, msg: MessageView)
    requires
        s.wf(),
        msg is AppendEntries,
        !NodeView::malformed(msg),
        msg.term() >= s.hard.current_term,
    ensures
        s.step(InputView::Message { from, msg }).0.role is Follower,
        s.step(InputView::Message { from, msg }).0.leader_hint == Some(msg->leader_id),
        s.step(InputView::Message { from, msg }).0.hard.current_term == msg.term(),
{
}

/// An AppendEntries whose anchor the log does not hold leaves the log, and what
/// is committed, as they are.
pub proof fn law_unanchored_append_leaves_the_log(s: NodeView, from: NodeId, msg: MessageView)
    requires
        s.wf(),
        msg is AppendEntries,
        !s.holds_anchor(msg->prev_log_index, msg->prev_log_term),
    ensures
        ({
            let (t, effects) = s.step(InputView::Message { from, msg });
            &&& t.log == s.log
            &&& t.commit_index == s.commit_index
            &&& effects.last() == t.append_refused(msg->leader_id)
        }),
{
}

/// A payload leaves everything before it alone, and every entry that the log has
/// in common with it up to the first of another term; behind that the log is the
/// payload's.
pub proof fn law_merge_cuts_only_at_a_conflict(
    log: Seq<Entry>,
    prev: LogIndex,
    entries: Seq<Entry>,
    at: int,
)
    requires
        prev <= log.len(),
        0 <= at < log.len(),
        replication::merged(log, prev, entries).len() <= at
            || replication::merged(log, prev, entries)[at] != log[at],
    ensures
        exists|k: int|
            {
                &&& 0 <= k < entries.len()
                &&& prev + k <= at
                &&& #[trigger] entries[k].term != log[prev + k].term
                &&& forall|i: int|
                    0 <= i < k ==> (#[trigger] entries[i]).term == log[prev + i].term
                &&& replication::merged(log, prev, entries) == log.take(prev + k) + entries.skip(k)
            },
{
    let k = replication::held(log, prev, entries, 0);
    replication::lemma_held(log, prev, entries, 0);
    if k > 0 {
        assert(entries[k - 1].term == log[prev + k - 1].term);
    }
    assert(prev + k <= at);
    assert(entries[k].term != log[prev + k].term);
}

/// A follower commits no further than its leader has, and no further than the
/// message proves that it holds the leader's entries.
pub proof fn law_follower_commits_what_is_covered(s: NodeView, from: NodeId, msg: MessageView)
    requires
        s.wf(),
        msg is AppendEntries,
        s.step(InputView::Message { from, msg }).0.commit_index > s.commit_index,
    ensures
        s.step(InputView::Message { from, msg }).0.commit_index <= msg->leader_commit,
        s.step(InputView::Message { from, msg }).0.commit_index <= msg->prev_log_index
            + msg->entries.len(),
{
}

/// As long as a node leads, what it knows of a peer's log never shrinks.
pub proof fn law_match_index_never_falls(s: NodeView, input: InputView, peer: NodeId)
    requires
        s.wf(),
        s.accepts(input),
        s.role matches RoleView::Leader { match_index, .. } && match_index.contains_key(peer),
        s.step(input).0.is_leader(),
    ensures
        s.step(input).0.role matches RoleView::Leader { match_index, .. }
            && match_index.contains_key(peer) && match_index[peer] >= s.role->match_index[peer],
{
}

/// A refused vote does not put the election off, nor change anything but,
/// possibly, the term.
pub proof fn law_refused_vote_keeps_deadline(
    s: NodeView,
    from: NodeId,
    term: Term,
    candidate_id: NodeId,
    last_log_index: LogIndex,
    last_log_term: Term,
)
    requires
        s.wf(),
    ensures
        ({
            let msg = MessageView::RequestVote {
                term,
                candidate_id,
                last_log_index,
                last_log_term,
            };
            let (t, effects) = s.step(InputView::Message { from, msg });
            effects.last() == (EffectView::Send {
                to: candidate_id,
                msg: MessageView::RequestVoteReply {
                    term: t.hard.current_term,
                    vote_granted: false,
                },
            }) ==> t.election_deadline_ms == s.election_deadline_ms && t.rng == s.rng && t.log
                == s.log
        }),
{
}

/// A candidate whose log is less up to date than the voter's gets no vote.
pub proof fn law_stale_log_gets_no_vote(
    s: NodeView,
    from: NodeId,
    term: Term,
    candidate_id: NodeId,
    last_log_index: LogIndex,
    last_log_term: Term,
)
    requires
        s.wf(),
        last_log_term < types::last_term(s.log) || (last_log_term == types::last_term(s.log)
            && last_log_index < types::last_index(s.log)),
    ensures
        ({
            let msg = MessageView::RequestVote {
                term,
                candidate_id,
                last_log_index,
                last_log_term,
            };
            let (t, effects) = s.step(InputView::Message { from, msg });
            effects.last() == (EffectView::Send {
                to: candidate_id,
                msg: MessageView::RequestVoteReply {
                    term: t.hard.current_term,
                    vote_granted: false,
                },
            })
        }),
{
}

/// A repeated request from the candidate that has the vote is granted again.
pub proof fn law_vote_is_idempotent(
    hard: HardState,
    index: LogIndex,
    term: Term,
    rq: election::RequestVoteRq,
)
    requires
        election::grants(hard, index, term, rq),
    ensures
        election::grants(
            HardState { voted_for: Some(rq.candidate_id), ..hard },
            index,
            term,
            rq,
        ),
{
}

/// A payload taken once is taken: taking it again changes nothing.
pub proof fn law_merge_is_idempotent(log: Seq<Entry>, prev: LogIndex, entries: Seq<Entry>)
    requires
        prev <= log.len(),
    ensures
        replication::merged(replication::merged(log, prev, entries), prev, entries)
            == replication::merged(log, prev, entries),
{
    let once = replication::merged(log, prev, entries);
    let k = replication::held(log, prev, entries, 0);
    replication::lemma_held(log, prev, entries, 0);
    replication::lemma_held(once, prev, entries, 0);
    let again = replication::held(once, prev, entries, 0);
    if k > 0 {
        assert(entries[k - 1].term == log[prev + k - 1].term);
    }
    if again < entries.len() {
        if again < k {
            assert(entries[again].term == log[prev + again].term);
        } else {
            assert(once[prev + again] == entries[again]);
        }
        assert(once[prev + again].term == entries[again].term);
    }
}

/// A payload that the log holds already, however old, never shortens it.
pub proof fn law_held_payload_changes_nothing(
    log: Seq<Entry>,
    prev: LogIndex,
    entries: Seq<Entry>,
)
    requires
        prev + entries.len() <= log.len(),
        forall|i: int|
            0 <= i < entries.len() ==> (#[trigger] entries[i]).term == log[prev + i].term,
    ensures
        replication::merged(log, prev, entries) == log,
{
    replication::lemma_held(log, prev, entries, 0);
}

/// A leader raises its commit index only to an entry of its own term that a
/// strict majority of the cluster, itself included, holds.
pub proof fn law_commit_needs_current_term(
    s: NodeView,
    from: NodeId,
    success: bool,
    match_index: LogIndex,
)
    requires
        s.wf(),
        s.is_leader(),
    ensures
        ({
            let msg = MessageView::AppendEntriesReply {
                term: s.hard.current_term,
                success,
                match_index,
            };
            let t = s.step(InputView::Message { from, msg }).0;
            t.commit_index > s.commit_index ==> {
                &&& t.commit_index <= t.log.len()
                &&& t.log[t.commit_index - 1].term == t.hard.current_term
                &&& t.role matches RoleView::Leader { match_index, .. }
                    && replication::holders(match_index, t.commit_index).len() + 1 >= (
                match_index.dom().len() + 1) / 2 + 1
            }
        }),
{
    replication::lemma_commit_target_floor(s);
}

/// An AppendEntries carries at most [`MAX_APPEND_ENTRIES`] entries.
///
/// [`MAX_APPEND_ENTRIES`]: crate::node::MAX_APPEND_ENTRIES
pub proof fn law_batches_are_bounded(s: NodeView, peer: NodeId)
    requires
        s.wf(),
        s.is_leader(),
    ensures
        s.append_entries_for(peer) matches EffectView::Send {
            msg: MessageView::AppendEntries { entries, .. },
            ..
        } && entries.len() <= crate::node::MAX_APPEND_ENTRIES,
{
}

/// An election deadline lies 150 to 300 ms from when it is drawn.
pub proof fn law_deadline_band(s: NodeView)
    requires
        s.wf(),
    ensures
        s.now_ms + crate::node::ELECTION_MIN_MS <= s.reset_election_deadline().election_deadline_ms
            <= s.now_ms + crate::node::ELECTION_MAX_MS,
{
}

/// A leader that takes a proposal assigns it the next index, in its own term,
/// at the end of its log; anyone else's log stays as it is.
pub proof fn law_proposal_is_appended_by_the_leader_only(s: NodeView, command: Command)
    requires
        s.wf(),
        s.log.len() < u64::MAX,
    ensures
        ({
            let (t, effects) = s.step(InputView::ClientPropose { command });
            if s.is_leader() {
                &&& t.log == s.log.push(
                    Entry {
                        index: (s.log.len() + 1) as u64,
                        term: s.hard.current_term,
                        command,
                    },
                )
                &&& effects.last() == (EffectView::ProposeAccepted {
                    index: (s.log.len() + 1) as u64,
                })
            } else {
                &&& t == s
                &&& effects == seq![EffectView::ProposeRejected { leader_hint: s.leader_hint }]
            }
        }),
{
}

/// Whatever a node asks for passes the driver's audit.
pub proof fn law_batches_pass_the_audit(s: NodeView, input: InputView, i: int)
    requires
        s.wf(),
        s.accepts(input),
        0 <= i < s.step(input).1.len(),
    ensures
        driver::misplaced(s.step(input).1, i) is None,
{
    let effects = s.step(input).1;
    if effects[i] is Send {
        assert forall|j: int| 0 <= j < effects.len() && persists(#[trigger] effects[j]) implies j
            < i by {
            if j > i {
                law_persist_before_visible(s, input, i, j);
            }
        }
        match effects[i] {
            EffectView::Send { msg: MessageView::RequestVote { .. }, .. } => {
                lemma_solicitation_follows_vote(s, input, i);
            },
            _ => {},
        }
    }
}

/// A vote is solicited only after the candidate's own is on disk.
proof fn lemma_solicitation_follows_vote(s: NodeView, input: InputView, i: int)
    requires
        s.wf(),
        s.accepts(input),
        0 <= i < s.step(input).1.len(),
        s.step(input).1[i] matches EffectView::Send { msg: MessageView::RequestVote { .. }, .. },
    ensures
        s.step(input).1[0] is PersistHardState,
        i > 0,
{
}

} // verus!
