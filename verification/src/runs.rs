//! Every state that a cluster can reach is safe: steps, restarts and crashes
//! keep the invariant.

use vstd::prelude::*;

use crate::cluster::{
    applies, disk_at, linked, reacts, run, sends, Cluster, Durable, Event, Packet,
};
use crate::message::{EffectView, InputView, MessageView};
use crate::node::{NodeView, Outcome};
use crate::replication;
use crate::safety;
use crate::safety::{continues, moves, partly_written, safe, History};
use crate::types::{Entry, NodeId, Term};

verus! {

/// The cluster with one node in another state.
pub open spec fn placed(c: Cluster, n: NodeId, s: NodeView) -> Cluster {
    Cluster { nodes: c.nodes.insert(n, s), ..c }
}

/// What a node does on a message whose term it has adopted.
#[verifier::opaque]
pub open spec fn hears(s: NodeView, from: NodeId, msg: MessageView) -> Outcome {
    s.dispatch(from, msg)
}

/// The term that a message makes a node adopt, and what is done for it.
#[verifier::opaque]
pub open spec fn adopts(s: NodeView, t: Term) -> Outcome {
    s.adopt_term(t)
}

/// A well-formed message is adopted first and heard then.
proof fn lemma_reacts_to_message(s: NodeView, from: NodeId, msg: MessageView)
    requires
        !NodeView::malformed(msg),
    ensures
        ({
            let (s1, first) = adopts(s, msg.term());
            let (t, rest) = hears(s1, from, msg);
            reacts(s, InputView::Message { from, msg }) == (t, first + rest)
        }),
{
    reveal(reacts);
    reveal(hears);
    reveal(adopts);
}

/// A malformed message is refused.
proof fn lemma_reacts_to_malformed(s: NodeView, from: NodeId, msg: MessageView)
    requires
        NodeView::malformed(msg),
    ensures
        reacts(s, InputView::Message { from, msg }) == (s, seq![s.append_refused(msg->leader_id)]),
{
    reveal(reacts);
}

/// Adopting a term puts the term on disk first and lets nobody see anything.
proof fn lemma_adopts_shape(s: NodeView, t: Term) -> (at: Option<int>)
    requires
        s.wf(),
    ensures
        shaped(s, adopts(s, t).0, adopts(s, t).1, at),
        adopts(s, t).0.wf(),
        adopts(s, t).0.peers == s.peers,
        at matches Some(k) ==> !(adopts(s, t).1[k] is PersistLogEntries),
        t <= adopts(s, t).0.hard.current_term,
        forall|i: int| 0 <= i < adopts(s, t).1.len() ==> !visible(#[trigger] adopts(s, t).1[i]),
{
    reveal(adopts);
    if t > s.hard.current_term {
        Some(0)
    } else {
        None
    }
}

/// Adopting a term is a safe move.
proof fn lemma_adopts(h: History, m: Set<NodeId>, n: NodeId, s: NodeView, t: Term)
    requires
        h.ok(m),
        h.node_ok(m, n, s),
    ensures
        moves(h, h, m, n, adopts(s, t).0, adopts(s, t).1),
{
    reveal(adopts);
    safety::lemma_adopt(h, m, n, s, t);
}

/// Hearing a message is a safe move.
proof fn lemma_hears(
    h: History,
    m: Set<NodeId>,
    n: NodeId,
    s: NodeView,
    from: NodeId,
    msg: MessageView,
) -> (g: History)
    requires
        h.ok(m),
        h.node_ok(m, n, s),
        m.contains(n),
        h.packet_ok(m, Packet { from, to: n, msg }),
        msg.term() <= s.hard.current_term,
        hears(s, from, msg).0.log.len() <= u64::MAX,
    ensures
        moves(h, g, m, n, hears(s, from, msg).0, hears(s, from, msg).1),
{
    reveal(hears);
    safety::lemma_dispatch(h, m, n, s, from, msg)
}

/// A tick or a proposal is a safe move.
proof fn lemma_reacts_by_itself(
    h: History,
    m: Set<NodeId>,
    n: NodeId,
    s: NodeView,
    input: InputView,
) -> (g: History)
    requires
        h.ok(m),
        h.node_ok(m, n, s),
        m.contains(n),
        s.accepts(input),
        !(input is Message),
        reacts(s, input).0.log.len() <= u64::MAX,
    ensures
        moves(h, g, m, n, reacts(s, input).0, reacts(s, input).1),
{
    reveal(reacts);
    match input {
        InputView::Tick { now_ms } => safety::lemma_tick(h, m, n, s, now_ms),
        InputView::ClientPropose { command } => safety::lemma_propose(h, m, n, s, command),
        InputView::Message { .. } => h,
    }
}

/// A step keeps a cluster safe.
proof fn lemma_step_safe(c: Cluster, h: History, n: NodeId, input: InputView, next: Cluster) -> (g:
    History)
    requires
        safe(c, h),
        c.happens((Event::Step { node: n, input }), next),
    ensures
        safe(next, g),
        continues(h, g),
        next.nodes.dom() == c.nodes.dom(),
{
    let m = c.nodes.dom();
    let s = c.nodes[n];
    let (t, effects) = reacts(s, input);
    safety::lemma_safe_parts(c, h, n);
    safety::lemma_continues_not(h);
    assert(next.nodes.dom() =~= m);
    match input {
        InputView::Message { from, msg } => {
            if NodeView::malformed(msg) {
                lemma_reacts_to_malformed(s, from, msg);
                safety::lemma_refuse(h, m, n, s, msg->leader_id);
                safety::lemma_moved(c, next, h, h, n, t, effects);
                h
            } else {
                lemma_reacts_to_message(s, from, msg);
                let (s1, first) = adopts(s, msg.term());
                let (t1, rest) = hears(s1, from, msg);
                lemma_adopts(h, m, n, s, msg.term());
                let at = lemma_adopts_shape(s, msg.term());
                let c1 = placed(c, n, s1);
                safety::lemma_moved(c, c1, h, h, n, s1, first);
                safety::lemma_moves_parts(h, h, m, n, s1, first);
                assert(c1.nodes.dom() =~= m);
                assert(c.sent.contains(Packet { from, to: n, msg }));
                let g = lemma_hears(h, m, n, s1, from, msg);
                assert(next.nodes =~= c1.nodes.insert(n, t1));
                lemma_rest_only(n, first, rest);
                assert(next.sent.subset_of(c1.sent.union(sends(n, rest))));
                assert(next.applied.subset_of(c1.applied.union(applies(rest))));
                safety::lemma_moved(c1, next, h, g, n, t1, rest);
                safety::lemma_moves_parts(h, g, m, n, t1, rest);
                g
            }
        },
        _ => {
            let g = lemma_reacts_by_itself(h, m, n, s, input);
            safety::lemma_moved(c, next, h, g, n, t, effects);
            safety::lemma_moves_parts(h, g, m, n, t, effects);
            g
        },
    }
}

/// Where the first effects send and apply nothing, the others do it all.
proof fn lemma_rest_only(n: NodeId, first: Seq<EffectView>, rest: Seq<EffectView>)
    requires
        forall|i: int| 0 <= i < first.len() ==> !visible(#[trigger] first[i]),
    ensures
        sends(n, first + rest).subset_of(sends(n, rest)),
        applies(first + rest).subset_of(applies(rest)),
{
    let all = first + rest;
    assert forall|x: EffectView| #[trigger] all.contains(x) && visible(x) implies rest.contains(
        x,
    ) by {
        let i = choose|i: int| 0 <= i < all.len() && all[i] == x;
        if i < first.len() {
            assert(first[i] == x);
        }
        assert(rest[i - first.len()] == x);
    }
}

/// An effect that puts something on disk.
pub open spec fn persists(effect: EffectView) -> bool {
    effect is PersistHardState || effect is PersistLogEntries
}

/// An effect that lets others see what the node did.
pub open spec fn visible(effect: EffectView) -> bool {
    effect is Send || effect is Apply || effect is ProposeAccepted
}

/// A batch with at most one effect, at `at`, that puts anything on disk: all
/// that changed from `s` to `t`; and nothing is visible before it.
pub open spec fn shaped(s: NodeView, t: NodeView, effects: Seq<EffectView>, at: Option<int>) -> bool {
    match at {
        None => t.durable() == s.durable() && forall|i: int|
            0 <= i < effects.len() ==> !persists(#[trigger] effects[i]),
        Some(k) => {
            &&& 0 <= k < effects.len()
            &&& persists(effects[k])
            &&& s.durable().after(effects[k]) == t.durable()
            &&& forall|i: int| 0 <= i < effects.len() && i != k ==> !persists(#[trigger] effects[i])
            &&& forall|i: int| 0 <= i < k ==> !visible(#[trigger] effects[i])
        },
    }
}

/// What is on disk after the first effects of such a batch.
pub proof fn lemma_shaped_disk(
    s: NodeView,
    t: NodeView,
    effects: Seq<EffectView>,
    at: Option<int>,
    cut: int,
)
    requires
        shaped(s, t, effects, at),
        0 <= cut <= effects.len(),
    ensures
        s.durable().after_all(effects.take(cut)) == match at {
            Some(k) if cut <= k => s.durable(),
            _ => t.durable(),
        },
    decreases cut,
{
    if cut > 0 {
        lemma_shaped_disk(s, t, effects, at, cut - 1);
        assert(effects.take(cut).drop_last() =~= effects.take(cut - 1));
        assert(effects.take(cut).last() == effects[cut - 1]);
    }
}

/// The shape of what hearing a message brings about; where it writes entries,
/// they are the opening one of a new leader, or those of an AppendEntries.
#[verifier::spinoff_prover]
proof fn lemma_hears_shape(s: NodeView, from: NodeId, msg: MessageView) -> (at: Option<int>)
    requires
        s.wf(),
        !NodeView::malformed(msg),
        msg.term() <= s.hard.current_term,
    ensures
        shaped(s, hears(s, from, msg).0, hears(s, from, msg).1, at),
        hears(s, from, msg).0.peers == s.peers,
        at matches Some(k) ==> hears(s, from, msg).1[k] is PersistLogEntries ==> {
            ||| msg is AppendEntries && forall|written: nat|
                #![trigger partly_written(s, msg, written)]
                {
                    let disk = s.durable().torn(hears(s, from, msg).1[k], written);
                    match partly_written(s, msg, written) {
                        Some(log) => disk == (Durable { hard: s.hard, log }),
                        None => disk == s.durable(),
                    }
                }
            ||| hears(s, from, msg).1[k] == (EffectView::PersistLogEntries {
                truncate_from: None,
                entries: seq![s.opening_entry()],
            })
        },
{
    reveal(hears);
    let (t, effects) = s.dispatch(from, msg);
    match msg {
        MessageView::RequestVote { .. } => {
            if t.hard == s.hard {
                None
            } else {
                Some(0)
            }
        },
        MessageView::RequestVoteReply { .. } => {
            if t.log == s.log {
                None
            } else {
                assert(t.durable() =~= s.durable().after(effects[0]));
                Some(0)
            }
        },
        MessageView::AppendEntries {
            term,
            leader_id,
            prev_log_index,
            prev_log_term,
            entries,
            leader_commit,
        } => {
            lemma_append_shape(
                s,
                term,
                leader_id,
                prev_log_index,
                prev_log_term,
                entries,
                leader_commit,
            )
        },
        MessageView::AppendEntriesReply { .. } => { None },
    }
}

/// The shape of what an AppendEntries brings about.
#[verifier::spinoff_prover]
proof fn lemma_append_shape(
    s: NodeView,
    term: Term,
    leader_id: NodeId,
    prev: u64,
    prev_log_term: Term,
    entries: Seq<Entry>,
    leader_commit: u64,
) -> (at: Option<int>)
    requires
        s.wf(),
        replication::well_framed(term, prev, prev_log_term, entries),
        term <= s.hard.current_term,
    ensures
        ({
            let (t, effects) = s.on_append_entries(
                term,
                leader_id,
                prev,
                prev_log_term,
                entries,
                leader_commit,
            );
            let msg = MessageView::AppendEntries {
                term,
                leader_id,
                prev_log_index: prev,
                prev_log_term,
                entries,
                leader_commit,
            };
            &&& shaped(s, t, effects, at)
            &&& t.peers == s.peers
            &&& at matches Some(k) ==> forall|written: nat|
                #![trigger partly_written(s, msg, written)]
                {
                    let disk = s.durable().torn(effects[k], written);
                    match partly_written(s, msg, written) {
                        Some(log) => disk == (Durable { hard: s.hard, log }),
                        None => disk == s.durable(),
                    }
                }
        }),
{
    let (t, effects) = s.on_append_entries(
        term,
        leader_id,
        prev,
        prev_log_term,
        entries,
        leader_commit,
    );
    let (follower, changed) = s.become_follower();
    let s1 = NodeView { leader_hint: Some(leader_id), ..follower.reset_election_deadline() };
    let k = replication::held(s.log, prev, entries, 0);
    replication::lemma_held(s.log, prev, entries, 0);
    if term < s.hard.current_term || !s1.holds_anchor(prev, prev_log_term) || k == entries.len() {
        None
    } else {
        let msg = MessageView::AppendEntries {
            term,
            leader_id,
            prev_log_index: prev,
            prev_log_term,
            entries,
            leader_commit,
        };
        assert(prev <= s.log.len());
        if k > 0 {
            assert(s.log[prev + k - 1].term == entries[k - 1].term);
        }
        assert(t.log =~= s.log.take(prev + k) + entries.skip(k));
        assert(s.log.take(s.log.len() as int) =~= s.log);
        let write = effects[changed.len() as int];
        assert(write == s1.merge_persist(prev, entries)[0]);
        assert(t.durable() =~= s.durable().after(write));
        assert forall|written: nat| #![trigger partly_written(s, msg, written)]
            s.durable().torn(write, written) == match partly_written(s, msg, written) {
                Some(log) => Durable { hard: s.hard, log },
                None => s.durable(),
            } by {
            if k + written <= entries.len() {
                assert(entries.skip(k).take(written as int) =~= entries.subrange(
                    k,
                    k + written,
                ));
            }
        }
        Some(changed.len() as int)
    }
}

/// The shape of what a tick or a proposal brings about.
proof fn lemma_own_shape(s: NodeView, input: InputView) -> (at: Option<int>)
    requires
        s.wf(),
        s.accepts(input),
        !(input is Message),
    ensures
        shaped(s, reacts(s, input).0, reacts(s, input).1, at),
        reacts(s, input).0.peers == s.peers,
        at matches Some(k) ==> reacts(s, input).1[k] matches EffectView::PersistLogEntries {
            truncate_from,
            entries,
        } ==> truncate_from is None && entries.len() == 1,
{
    reveal(reacts);
    let (t, effects) = s.step(input);
    match input {
        InputView::Tick { now_ms } => {
            if t.hard == s.hard {
                None
            } else {
                Some(0)
            }
        },
        InputView::ClientPropose { .. } => {
            if s.role is Leader {
                assert(t.durable() =~= s.durable().after(effects[0]));
                Some(0)
            } else {
                None
            }
        },
        InputView::Message { .. } => None,
    }
}

/// What a whole step puts on disk.
pub proof fn lemma_disk_after(s: NodeView, input: InputView)
    requires
        s.wf(),
        s.accepts(input),
    ensures
        s.durable().after_all(reacts(s, input).1) == reacts(s, input).0.durable(),
{
    let (t, effects) = reacts(s, input);
    assert(effects.take(effects.len() as int) =~= effects);
    match input {
        InputView::Message { from, msg } => {
            if NodeView::malformed(msg) {
                lemma_reacts_to_malformed(s, from, msg);
                lemma_shaped_disk(s, t, effects, None, effects.len() as int);
            } else {
                lemma_reacts_to_message(s, from, msg);
                let (s1, first) = adopts(s, msg.term());
                let (t1, rest) = hears(s1, from, msg);
                let at = lemma_adopts_shape(s, msg.term());
                let at1 = lemma_hears_shape(s1, from, msg);
                lemma_after_both(s.durable(), first, rest);
                lemma_shaped_disk(s, s1, first, at, first.len() as int);
                lemma_shaped_disk(s1, t1, rest, at1, rest.len() as int);
                assert(first.take(first.len() as int) =~= first);
                assert(rest.take(rest.len() as int) =~= rest);
            }
        },
        _ => {
            let at = lemma_own_shape(s, input);
            lemma_shaped_disk(s, t, effects, at, effects.len() as int);
        },
    }
}

/// In a whole step, nothing visible precedes anything that is put on disk.
pub proof fn lemma_disk_first(s: NodeView, input: InputView, i: int, j: int)
    requires
        s.wf(),
        s.accepts(input),
        0 <= i < j < reacts(s, input).1.len(),
        visible(reacts(s, input).1[i]),
    ensures
        !persists(reacts(s, input).1[j]),
{
    let (t, effects) = reacts(s, input);
    match input {
        InputView::Message { from, msg } => {
            if NodeView::malformed(msg) {
                lemma_reacts_to_malformed(s, from, msg);
            } else {
                lemma_reacts_to_message(s, from, msg);
                let (s1, first) = adopts(s, msg.term());
                let rest = hears(s1, from, msg).1;
                let at = lemma_adopts_shape(s, msg.term());
                let at1 = lemma_hears_shape(s1, from, msg);
                if i < first.len() {
                    assert(effects[i] == first[i]);
                }
                assert(effects[i] == rest[i - first.len()]);
                assert(effects[j] == rest[j - first.len()]);
            }
        },
        _ => {
            let at = lemma_own_shape(s, input);
        },
    }
}

/// Where hearing a message cuts the log, it is at an index.
#[verifier::spinoff_prover]
proof fn lemma_hears_cut(s: NodeView, from: NodeId, msg: MessageView, k: int)
    requires
        s.wf(),
        0 <= k < hears(s, from, msg).1.len(),
    ensures
        hears(s, from, msg).1[k] matches EffectView::PersistLogEntries {
            truncate_from: Some(index),
            ..
        } ==> 1 <= index,
{
    reveal(hears);
    if let MessageView::AppendEntries { prev_log_index, entries, .. } = msg {
        replication::lemma_held(s.log, prev_log_index, entries, 0);
    }
}

/// A step writes log entries at most once, and where it cuts the log it is at an
/// index.
pub proof fn lemma_log_write(s: NodeView, input: InputView, i: int)
    requires
        s.wf(),
        s.accepts(input),
        0 <= i < reacts(s, input).1.len(),
        reacts(s, input).1[i] is PersistLogEntries,
    ensures
        forall|j: int| 0 <= j < i ==> !(#[trigger] reacts(s, input).1[j] is PersistLogEntries),
        reacts(s, input).1[i]->truncate_from matches Some(index) ==> 1 <= index,
{
    let effects = reacts(s, input).1;
    match input {
        InputView::Message { from, msg } => {
            if NodeView::malformed(msg) {
                lemma_reacts_to_malformed(s, from, msg);
            } else {
                lemma_reacts_to_message(s, from, msg);
                let (s1, first) = adopts(s, msg.term());
                let rest = hears(s1, from, msg).1;
                let at = lemma_adopts_shape(s, msg.term());
                let at1 = lemma_hears_shape(s1, from, msg);
                assert forall|j: int| 0 <= j < first.len() implies !(
                #[trigger] effects[j] is PersistLogEntries) by {
                    assert(effects[j] == first[j]);
                    reveal(adopts);
                }
                assert(effects[i] == rest[i - first.len()]);
                lemma_hears_cut(s1, from, msg, i - first.len());
                assert forall|j: int| first.len() <= j < i implies !(
                #[trigger] effects[j] is PersistLogEntries) by {
                    assert(effects[j] == rest[j - first.len()]);
                }
            }
        },
        _ => {
            let at = lemma_own_shape(s, input);
        },
    }
}

/// A batch that writes no log entries leaves the log on disk as it is.
pub proof fn lemma_log_unwritten(d: Durable, effects: Seq<EffectView>)
    requires
        forall|i: int|
            0 <= i < effects.len() ==> !(#[trigger] effects[i] is PersistLogEntries),
    ensures
        d.after_all(effects).log == d.log,
    decreases effects.len(),
{
    if effects.len() > 0 {
        lemma_log_unwritten(d, effects.drop_last());
    }
}

/// Executing two batches one after the other is executing them as one.
pub proof fn lemma_after_both(d: Durable, a: Seq<EffectView>, b: Seq<EffectView>)
    ensures
        d.after_all(a + b) == d.after_all(a).after_all(b),
    decreases b.len(),
{
    if b.len() == 0 {
        assert(a + b =~= a);
    } else {
        lemma_after_both(d, a, b.drop_last());
        assert((a + b).drop_last() =~= a + b.drop_last());
        assert((a + b).last() == b.last());
    }
}

/// A crash in the middle of a batch that puts something on disk at most once.
/// Where the write itself is interrupted, `part` is a state of the node that
/// has just that on disk.
proof fn lemma_cut_short(
    c: Cluster,
    next: Cluster,
    h: History,
    g: History,
    n: NodeId,
    t: NodeView,
    effects: Seq<EffectView>,
    at: Option<int>,
    cut: nat,
    torn: Option<nat>,
    seed: u64,
    part: NodeView,
) -> (f: History)
    requires
        safe(c, h),
        c.nodes.contains_key(n),
        moves(h, g, c.nodes.dom(), n, t, effects),
        t.peers == c.nodes[n].peers,
        shaped(c.nodes[n], t, effects, at),
        cut <= effects.len(),
        ({
            let s = c.nodes[n];
            let disk = disk_at(s.durable(), effects, cut, torn);
            &&& next.nodes == c.nodes.insert(n, s.rebooted(disk, seed))
            &&& disk == s.durable() || disk == t.durable() || {
                &&& disk == part.durable()
                &&& part.id == n
                &&& part.peers == s.peers
                &&& h.node_ok(c.nodes.dom(), n, part)
                &&& at == Some(cut as int)
            }
        }),
        next.sent.subset_of(c.sent.union(sends(n, effects.take(cut as int)))),
        next.applied.subset_of(c.applied.union(applies(effects.take(cut as int)))),
    ensures
        safe(next, f),
        continues(h, f),
        next.nodes.dom() == c.nodes.dom(),
{
    let m = c.nodes.dom();
    let s = c.nodes[n];
    safety::lemma_safe_parts(c, h, n);
    safety::lemma_continues_not(h);
    assert(next.nodes.dom() =~= m);
    let done = effects.take(cut as int);
    let disk = disk_at(s.durable(), effects, cut, torn);
    lemma_shaped_disk(s, t, effects, at, cut as int);
    assert forall|x: EffectView| #[trigger] done.contains(x) implies effects.contains(x) by {
        let i = choose|i: int| 0 <= i < done.len() && done[i] == x;
        assert(effects[i] == x);
    }
    let none = Seq::<EffectView>::empty();
    if disk == t.durable() {
        let full = Cluster { nodes: c.nodes.insert(n, t), ..next };
        assert(full.sent.subset_of(c.sent.union(sends(n, effects))));
        assert(full.applied.subset_of(c.applied.union(applies(effects))));
        safety::lemma_moved(c, full, h, g, n, t, effects);
        assert(full.nodes.dom() =~= m);
        safety::lemma_moves_parts(h, g, m, n, t, effects);
        safety::lemma_reboot(g, m, n, t, seed);
        assert(next.nodes =~= full.nodes.insert(n, t.rebooted(t.durable(), seed)));
        safety::lemma_moved(full, next, g, g, n, t.rebooted(t.durable(), seed), none);
        g
    } else {
        assert(at matches Some(k) && cut <= k);
        assert forall|x: EffectView| #[trigger] done.contains(x) implies !visible(x) by {
            let i = choose|i: int| 0 <= i < done.len() && done[i] == x;
            assert(effects[i] == x);
        }
        assert(next.sent.subset_of(c.sent.union(sends(n, none))));
        assert(next.applied.subset_of(c.applied.union(applies(none))));
        if disk == s.durable() {
            safety::lemma_reboot(h, m, n, s, seed);
            safety::lemma_moved(c, next, h, h, n, s.rebooted(disk, seed), none);
        } else {
            safety::lemma_reboot(h, m, n, part, seed);
            safety::lemma_moved(c, next, h, h, n, part.rebooted(disk, seed), none);
        }
        h
    }
}

/// A write of one entry at the end of the log is done, or has not been begun.
proof fn lemma_single_write(d: Durable, e: Entry, written: nat)
    ensures
        ({
            let effect = EffectView::PersistLogEntries { truncate_from: None, entries: seq![e] };
            d.torn(effect, written) == d || d.torn(effect, written) == d.after(effect)
        }),
{
    let entries = seq![e];
    assert(d.log + entries.take(0) =~= d.log);
    assert(entries.take(1) =~= entries);
}

/// A crash keeps a cluster safe.
proof fn lemma_crash_safe(
    c: Cluster,
    h: History,
    n: NodeId,
    input: InputView,
    cut: nat,
    torn: Option<nat>,
    seed: u64,
    next: Cluster,
) -> (f: History)
    requires
        safe(c, h),
        c.happens((Event::Crash { node: n, input, cut, torn, seed }), next),
    ensures
        safe(next, f),
        continues(h, f),
        next.nodes.dom() == c.nodes.dom(),
{
    let m = c.nodes.dom();
    let s = c.nodes[n];
    let (t, effects) = reacts(s, input);
    safety::lemma_safe_parts(c, h, n);
    safety::lemma_continues_not(h);
    assert(next.nodes.dom() =~= m);
    match input {
        InputView::Message { from, msg } => {
            if NodeView::malformed(msg) {
                lemma_reacts_to_malformed(s, from, msg);
                safety::lemma_refuse(h, m, n, s, msg->leader_id);
                lemma_shaped_disk(s, t, effects, None, cut as int);
                lemma_cut_short(c, next, h, h, n, t, effects, None, cut, torn, seed, s)
            } else {
                lemma_reacts_to_message(s, from, msg);
                let (s1, first) = adopts(s, msg.term());
                let rest = hears(s1, from, msg).1;
                lemma_adopts(h, m, n, s, msg.term());
                let at = lemma_adopts_shape(s, msg.term());
                if cut < first.len() {
                    assert(effects.take(cut as int) =~= first.take(cut as int));
                    assert(effects[cut as int] == first[cut as int]);
                    lemma_shaped_disk(s, s1, first, at, cut as int);
                    lemma_cut_short(c, next, h, h, n, s1, first, at, cut, torn, seed, s)
                } else {
                    let c1 = placed(c, n, s1);
                    safety::lemma_moved(c, c1, h, h, n, s1, first);
                    assert(c1.nodes.dom() =~= m);
                    let cut1 = (cut - first.len()) as nat;
                    let done = rest.take(cut1 as int);
                    assert(effects.take(cut as int) =~= first + done);
                    lemma_after_both(s.durable(), first, done);
                    lemma_shaped_disk(s, s1, first, at, first.len() as int);
                    assert(first.take(first.len() as int) =~= first);
                    let disk = disk_at(s1.durable(), rest, cut1, torn);
                    assert(disk_at(s.durable(), effects, cut, torn) == disk);
                    lemma_rest_only(n, first, done);
                    assert(next.sent.subset_of(c1.sent.union(sends(n, done))));
                    assert(next.applied.subset_of(c1.applied.union(applies(done))));
                    safety::lemma_moves_parts(h, h, m, n, s1, first);
                    assert(next.nodes =~= c1.nodes.insert(n, s1.rebooted(disk, seed)));
                    lemma_heard_crash(c1, h, n, from, msg, cut1, torn, seed, next)
                }
            }
        },
        _ => {
            let g = lemma_reacts_by_itself(h, m, n, s, input);
            let at = lemma_own_shape(s, input);
            lemma_shaped_disk(s, t, effects, at, cut as int);
            if torn is Some && at == Some(cut as int) {
                match effects[cut as int] {
                    EffectView::PersistLogEntries { entries, .. } => {
                        lemma_single_write(s.durable(), entries[0], torn->0);
                        assert(entries =~= seq![entries[0]]);
                    },
                    _ => {},
                }
            }
            lemma_cut_short(c, next, h, g, n, t, effects, at, cut, torn, seed, s)
        },
    }
}

/// A crash while a message is being heard, its term adopted already.
proof fn lemma_heard_crash(
    c: Cluster,
    h: History,
    n: NodeId,
    from: NodeId,
    msg: MessageView,
    cut: nat,
    torn: Option<nat>,
    seed: u64,
    next: Cluster,
) -> (f: History)
    requires
        safe(c, h),
        c.nodes.contains_key(n),
        c.sent.contains((Packet { from, to: n, msg })),
        !NodeView::malformed(msg),
        msg.term() <= c.nodes[n].hard.current_term,
        hears(c.nodes[n], from, msg).0.log.len() <= u64::MAX,
        ({
            let s = c.nodes[n];
            let effects = hears(s, from, msg).1;
            &&& cut <= effects.len()
            &&& next.nodes == c.nodes.insert(
                n,
                s.rebooted(disk_at(s.durable(), effects, cut, torn), seed),
            )
            &&& next.sent.subset_of(c.sent.union(sends(n, effects.take(cut as int))))
            &&& next.applied.subset_of(c.applied.union(applies(effects.take(cut as int))))
        }),
    ensures
        safe(next, f),
        continues(h, f),
        next.nodes.dom() == c.nodes.dom(),
{
    let m = c.nodes.dom();
    let s = c.nodes[n];
    let (t, effects) = hears(s, from, msg);
    safety::lemma_safe_parts(c, h, n);
    let g = lemma_hears(h, m, n, s, from, msg);
    let at = lemma_hears_shape(s, from, msg);
    lemma_shaped_disk(s, t, effects, at, cut as int);
    let disk = disk_at(s.durable(), effects, cut, torn);
    let mut part = s;
    if at == Some(cut as int) && torn is Some && effects[cut as int] is PersistLogEntries {
        let written = torn->0;
        lemma_single_write(s.durable(), s.opening_entry(), written);
        if disk != s.durable() && disk != t.durable() {
            assert(partly_written(s, msg, written) is Some);
            part = safety::lemma_part(h, m, n, s, from, msg, written);
            assert(disk == part.durable());
        }
    }
    lemma_cut_short(c, next, h, g, n, t, effects, at, cut, torn, seed, part)
}

/// A restart keeps a cluster safe.
proof fn lemma_restart_safe(c: Cluster, h: History, n: NodeId, seed: u64, next: Cluster)
    requires
        safe(c, h),
        c.happens((Event::Restart { node: n, seed }), next),
    ensures
        safe(next, h),
        next.nodes.dom() == c.nodes.dom(),
{
    let s = c.nodes[n];
    assert(next.nodes.dom() =~= c.nodes.dom());
    safety::lemma_safe_parts(c, h, n);
    safety::lemma_reboot(h, c.nodes.dom(), n, s, seed);
    safety::lemma_moved(c, next, h, h, n, s.rebooted(s.durable(), seed), Seq::empty());
}

/// Whatever happens keeps a cluster safe.
pub proof fn lemma_next_safe(c: Cluster, h: History, event: Event, next: Cluster) -> (g: History)
    requires
        safe(c, h),
        c.happens(event, next),
    ensures
        safe(next, g),
        continues(h, g),
        next.nodes.dom() == c.nodes.dom(),
{
    match event {
        Event::Step { node, input } => lemma_step_safe(c, h, node, input, next),
        Event::Crash { node, input, cut, torn, seed } => lemma_crash_safe(
            c,
            h,
            node,
            input,
            cut,
            torn,
            seed,
            next,
        ),
        Event::Restart { node, seed } => {
            lemma_restart_safe(c, h, node, seed, next);
            safety::lemma_continues_not(h);
            h
        },
    }
}

/// Every state of every run is safe.
pub proof fn lemma_run_safe(states: Seq<Cluster>, i: int) -> (h: History)
    requires
        run(states),
        0 <= i < states.len(),
    ensures
        safe(states[i], h),
    decreases i,
{
    if i == 0 {
        safety::lemma_start_safe(states[0])
    } else {
        let h = lemma_run_safe(states, i - 1);
        assert(linked(states, i - 1));
        let event = choose|event: Event| #[trigger] states[i - 1].happens(event, states[i]);
        lemma_next_safe(states[i - 1], h, event, states[i])
    }
}

/// From a safe state of a run on, every state is safe, nothing is forgotten, and
/// the members stay the same.
pub proof fn lemma_run_on(states: Seq<Cluster>, i: int, h: History, j: int) -> (g: History)
    requires
        run(states),
        0 <= i <= j < states.len(),
        safe(states[i], h),
    ensures
        safe(states[j], g),
        continues(h, g),
        states[i].nodes.dom() == states[j].nodes.dom(),
    decreases j,
{
    if i == j {
        safety::lemma_continues_not(h);
        h
    } else {
        let g = lemma_run_on(states, i, h, j - 1);
        assert(linked(states, j - 1));
        let event = choose|event: Event| #[trigger] states[j - 1].happens(event, states[j]);
        let f = lemma_next_safe(states[j - 1], g, event, states[j]);
        safety::lemma_continues_on(h, g, f);
        f
    }
}

} // verus!
