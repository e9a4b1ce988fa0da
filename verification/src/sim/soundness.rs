//! What the simulator promises where disks are durable: whatever is lost, delayed
//! or cut off, and whoever crashes, no invariant ever breaks.

use vstd::prelude::*;

use crate::cluster::{applies, reacts, sends, Cluster, Event, Packet};
use crate::invariants::{Failure, Violation};
use crate::laws;
use crate::laws::applied_in;
use crate::message::{EffectView, InputView, MessageView};
use crate::node::NodeView;
use crate::replication;
use crate::runs;
use crate::safety;
use crate::safety::{continues, safe, History};
use crate::types;
use crate::types::{Command, Entry, LogIndex, NodeId, Term};

use super::batches;
use super::batches::{bad_knob, carried, history_of, midway, packet};
use super::checks;
use super::checks::{
    all_seen, late_election, leaders_stand, node_stands, nodes_stand, overtaken, registry_stands,
    same_bodies, stands,
};
use super::model::{
    bootable, due, late_persist, leads, new_node, peers_of, seed_of, EnvelopeView, FaultView,
    SimNodeView, SimView,
};

verus! {

/// The terms of a node never fall.
proof fn lemma_term_rises(x: NodeView, input: InputView)
    requires
        x.wf(),
        x.accepts(input),
    ensures
        reacts(x, input).0.hard.current_term >= x.hard.current_term,
{
    reveal(reacts);
    laws::law_terms_and_votes_stand(x, input);
}

/// A batch of a node's effects passes the audit.
proof fn lemma_audited(x: NodeView, input: InputView, j: int)
    requires
        x.wf(),
        x.accepts(input),
        0 <= j < reacts(x, input).1.len(),
    ensures
        !late_persist(reacts(x, input).1, j),
{
    let effects = reacts(x, input).1;
    if late_persist(effects, j) {
        let i = choose|i: int| 0 <= i < j && #[trigger] effects[i] is Send;
        runs::lemma_disk_first(x, input, i, j);
    }
}

/// The cluster after a step of one of its nodes.
pub open spec fn stepped(c: Cluster, id: NodeId, input: InputView) -> Cluster {
    let (t, effects) = reacts(c.nodes[id], input);
    Cluster {
        nodes: c.nodes.insert(id, t),
        sent: c.sent.union(sends(id, effects)),
        applied: c.applied.union(applies(effects)),
    }
}

/// A node that has executed all its effects stands for the node after the step.
proof fn lemma_node_after(
    n: SimNodeView,
    c: Cluster,
    d: Cluster,
    h: History,
    g: History,
    id: NodeId,
    input: InputView,
)
    requires
        safe(c, h),
        safe(d, g),
        continues(h, g),
        c.nodes.contains_key(id),
        d == stepped(c, id, input),
        d.nodes.dom() == c.nodes.dom(),
        c.nodes[id].accepts(input),
        node_stands(n, c.nodes[id]),
        n.alive,
    ensures
        ({
            let (t, effects) = reacts(c.nodes[id], input);
            node_stands(
                SimNodeView {
                    core: t,
                    disk_hard: t.hard,
                    disk_log: t.log,
                    applied: n.applied + history_of(applied_in(effects)),
                    ..n
                },
                t,
            )
        }),
{
    let x = c.nodes[id];
    let (t, effects) = reacts(x, input);
    assert(d.nodes[id] == t);
    safety::lemma_safe_parts(c, h, id);
    safety::lemma_safe_parts(d, g, id);
    safety::lemma_indices(c, h, id);
    safety::lemma_indices(d, g, id);
    safety::lemma_committed_logs_agree(c, d, h, g, id, id);
    batches::lemma_applies(x, input);
    lemma_term_rises(x, input);
    reveal(node_stands);
    let new = applied_in(effects);
    let history = n.applied + history_of(new);
    assert(history.len() == t.last_applied);
    assert(x.commit_index <= t.commit_index) by {
        reveal(reacts);
        laws::law_commit_never_falls(x, input);
    }
    assert forall|k: int| 0 <= k < history.len() implies #[trigger] history[k] == (
        (k + 1) as u64,
        t.log[k].command,
    ) by {
        if k < n.applied.len() {
            assert(n.applied[k] == ((k + 1) as u64, x.log[k].command));
            assert(x.log[k] == t.log[k]);
        } else {
            let i = k - n.applied.len();
            assert(new[i] == t.log[k]);
            assert(t.log[k].index == k + 1);
        }
    }
}

/// How far into a log a message reaches.
pub open spec fn span(msg: MessageView) -> int {
    match msg {
        MessageView::AppendEntries { prev_log_index, entries, .. } => prev_log_index
            + entries.len(),
        _ => 0,
    }
}

/// The messages that reach no further than this.
pub open spec fn within(b: int) -> Set<Packet> {
    Set::new(|p: Packet| span(p.msg) <= b)
}

/// No log is longer than this, and no message on its way reaches further.
#[verifier::opaque]
pub open spec fn room(s: SimView, b: int) -> bool {
    &&& carried(s.net, within(b))
    &&& forall|i: int|
        0 <= i < s.nodes.len() ==> (#[trigger] s.nodes[i]).core.log.len() <= b
            && s.nodes[i].disk_log.len() <= b
}

/// A step makes a log longer by one at most, or as long as a message reaches.
#[verifier::spinoff_prover]
proof fn lemma_log_growth(x: NodeView, input: InputView, b: int)
    requires
        x.wf(),
        x.log.len() <= b,
        input matches InputView::Message { msg, .. } ==> span(msg) <= b,
    ensures
        reacts(x, input).0.log.len() <= b + 1,
{
    reveal(reacts);
    if let InputView::Message { msg, .. } = input {
        if let MessageView::AppendEntries { prev_log_index, entries, .. } = msg {
            replication::lemma_held(x.log, prev_log_index, entries, 0);
            let k = replication::held(x.log, prev_log_index, entries, 0);
            if k > 0 {
                assert(entries[k - 1].term == x.log[prev_log_index + k - 1].term);
            }
        }
    }
}

/// Only a leader sends entries, in its term.
#[verifier::spinoff_prover]
proof fn lemma_sender_leads(x: NodeView, input: InputView, to: NodeId, msg: MessageView)
    requires
        x.wf(),
        x.accepts(input),
        reacts(x, input).1.contains(EffectView::Send { to, msg }),
        msg is AppendEntries,
    ensures
        reacts(x, input).0.role is Leader,
        msg.term() == reacts(x, input).0.hard.current_term,
{
    reveal(reacts);
    let effects = x.step(input).1;
    let i = choose|i: int| 0 <= i < effects.len() && effects[i] == EffectView::Send { to, msg };
}

/// What a step sends reaches no further than the log.
proof fn lemma_sends_within(
    c: Cluster,
    d: Cluster,
    g: History,
    id: NodeId,
    input: InputView,
    b: int,
)
    requires
        safe(d, g),
        c.nodes.contains_key(id),
        d == stepped(c, id, input),
        c.nodes[id].wf(),
        c.nodes[id].accepts(input),
        0 <= b,
        d.nodes[id].log.len() <= b,
    ensures
        sends(id, reacts(c.nodes[id], input).1).subset_of(within(b)),
{
    let (t, effects) = reacts(c.nodes[id], input);
    assert forall|p: Packet| #[trigger] sends(id, effects).contains(p) implies within(b).contains(
        p,
    ) by {
        if p.msg is AppendEntries {
            lemma_sender_leads(c.nodes[id], input, p.to, p.msg);
            assert(d.sent.contains(p));
            assert(d.nodes[id] == t);
            safety::lemma_sent_span(d, g, id, p);
        }
    }
}

/// Everything on its way is in a larger set too.
proof fn lemma_carried_wider(net: Seq<EnvelopeView>, a: Set<Packet>, b: Set<Packet>)
    requires
        carried(net, a),
        a.subset_of(b),
    ensures
        carried(net, b),
{
    reveal(carried);
}

/// The whole world after a batch of one node's effects.
proof fn lemma_world_after(
    s: SimView,
    w: SimView,
    c: Cluster,
    d: Cluster,
    h: History,
    g: History,
    id: NodeId,
    input: InputView,
)
    requires
        stands(s, c, h),
        s.known(id),
        s.at(id).alive,
        safe(d, g),
        continues(h, g),
        d == stepped(c, id, input),
        d.nodes.dom() == c.nodes.dom(),
        c.nodes[id].accepts(input),
        carried(w.net, d.sent),
        ({
            let (t, effects) = reacts(c.nodes[id], input);
            let n = s.at(id);
            w == (SimView {
                rng: w.rng,
                net: w.net,
                stats: w.stats,
                nodes: s.nodes.update(
                    id - 1,
                    SimNodeView {
                        core: t,
                        disk_hard: t.hard,
                        disk_log: t.log,
                        applied: n.applied + history_of(applied_in(effects)),
                        ..n
                    },
                ),
                ..s
            })
        }),
    ensures
        stands(w, d, g),
{
    checks::lemma_stands(s, c, h, id);
    lemma_node_after(s.at(id), c, d, h, g, id, input);
    let t = reacts(c.nodes[id], input).0;
    assert(nodes_stand(w.nodes, d)) by {
        reveal(nodes_stand);
        assert forall|o: NodeId| #[trigger] d.nodes.contains_key(o) <==> 1 <= o
            <= w.nodes.len() by {
            assert(c.nodes.contains_key(o) <==> 1 <= o <= s.nodes.len());
        }
        assert forall|i: int| 0 <= i < w.nodes.len() implies node_stands(
            #[trigger] w.nodes[i],
            d.nodes[(i + 1) as u8],
        ) by {
            if i != id - 1 {
                assert(w.nodes[i] == s.nodes[i]);
                assert(node_stands(s.nodes[i], c.nodes[(i + 1) as u8]));
            }
        }
    }
    assert(registry_stands(w.committed, d.nodes.dom(), g)) by {
        reveal(registry_stands);
        assert forall|k: LogIndex| #[trigger] w.committed.contains_key(k) implies
            w.committed[k].index == k && g.chosen(d.nodes.dom(), w.committed[k]) by {
            assert(s.committed.contains_key(k));
            safety::lemma_chosen_continues(h, g, c.nodes.dom(), s.committed[k]);
        }
    }
    assert(leaders_stand(w.leaders, g)) by {
        reveal(leaders_stand);
        assert forall|u: Term| #[trigger] w.leaders.contains_key(u) implies g.reigns.contains_key(u)
            && g.reigns[u].leader == w.leaders[u] by {
            assert(s.leaders.contains_key(u));
            safety::lemma_reign_continues(h, g, u);
        }
    }
}

/// What may be reported of a node's reaction: fault injection that makes no sense,
/// a term that cannot grow, or that the node became leader so late that another was
/// already in a newer term.
pub open spec fn excused(s: SimView, id: NodeId, e: Failure) -> bool {
    match e.what {
        Violation::InvalidDelayBand { .. } => true,
        Violation::InvalidDropThreshold { .. } => true,
        Violation::TermExhausted { .. } => true,
        Violation::LeaderCompleteness { leader, term, .. } => leader == id && overtaken(s, term),
        _ => false,
    }
}

/// The batch of a node's reaction is executed.
proof fn lemma_batch(
    s: SimView,
    c: Cluster,
    d: Cluster,
    h: History,
    g: History,
    id: NodeId,
    input: InputView,
    b: int,
)
    requires
        stands(s, c, h),
        s.known(id),
        s.at(id).alive,
        safe(d, g),
        continues(h, g),
        d == stepped(c, id, input),
        d.nodes.dom() == c.nodes.dom(),
        c.nodes[id].accepts(input),
        carried(s.net, within(b)),
        sends(id, reacts(c.nodes[id], input).1).subset_of(within(b)),
    ensures
        ({
            let (t, effects) = reacts(c.nodes[id], input);
            match s.with(id, SimNodeView { core: t, ..s.at(id) }).execute_batch(id, effects) {
                Ok(w) => {
                    &&& stands(w, d, g)
                    &&& w.nodes.len() == s.nodes.len()
                    &&& w == (SimView {
                        rng: w.rng,
                        net: w.net,
                        stats: w.stats,
                        nodes: s.nodes.update(id - 1, w.at(id)),
                        ..s
                    })
                    &&& w.at(id).core == t
                    &&& w.at(id).disk_hard == t.hard
                    &&& w.at(id).disk_log == t.log
                    &&& carried(w.net, within(b))
                },
                Err(e) => bad_knob(e),
            }
        }),
{
    reveal(SimView::execute_batch);
    checks::lemma_stands(s, c, h, id);
    let n = s.at(id);
    let x = c.nodes[id];
    let (t, effects) = reacts(x, input);
    assert(x == n.core && n.applied.len() == x.last_applied && n.disk_hard == x.hard && n.disk_log
        == x.log) by {
        reveal(node_stands);
    }
    assert(d.nodes[id] == t);
    safety::lemma_safe_parts(d, g, id);
    safety::lemma_indices(d, g, id);
    assert forall|j: int| 0 <= j < effects.len() implies !#[trigger] late_persist(effects, j) by {
        lemma_audited(x, input, j);
    }
    let begun = s.with(id, SimNodeView { core: t, ..n });
    let start = SimView {
        stats: super::FaultStats {
            effect_batches_audited: begun.stats.effect_batches_audited.saturating_add(1),
            ..begun.stats
        },
        ..begun
    };
    assert(midway(start, start, id, x, effects, 0)) by {
        assert(effects.take(0) =~= Seq::empty());
        assert(applied_in(effects.take(0)) =~= Seq::empty());
        assert(n.applied + history_of(Seq::empty()) =~= n.applied);
        assert(start.nodes.update(id - 1, start.at(id)) =~= start.nodes);
    }
    assert(carried(start.net, d.sent)) by {
        reveal(carried);
        assert forall|i: int| 0 <= i < start.net.len() implies d.sent.contains(
            packet(#[trigger] start.net[i]),
        ) by {
            assert(c.sent.contains(packet(s.net[i])));
        }
    }
    batches::lemma_execute_from(start, start, id, x, input, 0, d.sent);
    batches::lemma_execute_from(start, start, id, x, input, 0, within(b));
    if let Ok(w) = start.execute_from(id, effects, 0) {
        assert(effects.take(effects.len() as int) =~= effects);
        runs::lemma_disk_after(x, input);
        let there = SimNodeView {
            core: t,
            disk_hard: t.hard,
            disk_log: t.log,
            applied: n.applied + history_of(applied_in(effects)),
            ..n
        };
        assert(w.nodes =~= s.nodes.update(id - 1, there));
        lemma_world_after(s, w, c, d, h, g, id, input);
    }
}

/// A late election that shows after a reaction is the node's own, and it had been
/// overtaken before.
proof fn lemma_late(s: SimView, w: SimView, id: NodeId, e: Failure)
    requires
        all_seen(s.nodes),
        s.known(id),
        s.nodes.len() <= 255,
        w.nodes == s.nodes.update(id - 1, w.at(id)),
        w.at(id).disk_hard == w.at(id).core.hard,
        late_election(w, e),
        w.at(e.what->LeaderCompleteness_leader).observed_leader_term != leads(
            w.at(e.what->LeaderCompleteness_leader),
        ),
    ensures
        excused(s, id, e),
{
    let leader = e.what->LeaderCompleteness_leader;
    let term = e.what->LeaderCompleteness_term;
    if leader != id {
        reveal(all_seen);
        assert(w.at(leader) == s.nodes[leader - 1]);
        assert(false);
    }
    let v = choose|v: NodeId| #[trigger] w.known(v) && w.at(v).disk_hard.current_term > term;
    assert(v != id);
    assert(w.at(v) == s.at(v));
    assert(s.known(v));
}

/// A node reacts to an input.
proof fn lemma_react(
    s: SimView,
    c: Cluster,
    h: History,
    id: NodeId,
    input: InputView,
    b: int,
) -> (next: (Cluster, History))
    requires
        stands(s, c, h),
        all_seen(s.nodes),
        s.known(id),
        s.at(id).alive,
        room(s, b),
        0 <= b < u64::MAX,
        input matches InputView::Message { from, msg } ==> c.sent.contains(
            Packet { from, to: id, msg },
        ) && span(msg) <= b,
    ensures
        match s.react(id, input) {
            Ok(t) => {
                &&& stands(t, next.0, next.1)
                &&& all_seen(t.nodes)
                &&& room(t, b + 1)
                &&& t.nodes.len() == s.nodes.len()
                &&& c.sent.subset_of(next.0.sent)
            },
            Err(e) => excused(s, id, e),
        },
{
    reveal(SimView::react);
    checks::lemma_stands(s, c, h, id);
    let n = s.at(id);
    let x = c.nodes[id];
    assert(x == n.core) by {
        reveal(node_stands);
    }
    assert(x.log.len() <= b && carried(s.net, within(b))) by {
        reveal(room);
        assert(s.nodes[id - 1].core == x);
    }
    let (t, effects) = reacts(x, input);
    assert((t, effects) == x.step(input)) by {
        reveal(reacts);
    }
    let d = stepped(c, id, input);
    if x.accepts(input) {
        lemma_log_growth(x, input, b);
        let g = runs::lemma_next_safe(c, h, Event::Step { node: id, input }, d);
        lemma_sends_within(c, d, g, id, input, b + 1);
        lemma_carried_wider(s.net, within(b), within(b + 1));
        lemma_batch(s, c, d, h, g, id, input, b + 1);
        if let Ok(w) = s.with(id, SimNodeView { core: t, ..n }).execute_batch(id, effects) {
            checks::lemma_check(w, d, g);
            if let Err(e) = w.check() {
                lemma_late(s, w, id, e);
            }
            if let Ok(v) = w.check() {
                reveal(room);
                reveal(same_bodies);
                assert forall|i: int| 0 <= i < v.nodes.len() implies (
                #[trigger] v.nodes[i]).core.log.len() <= b + 1 && v.nodes[i].disk_log.len() <= b
                    + 1 by {
                    if i != id - 1 {
                        assert(w.nodes[i] == s.nodes[i]);
                    } else {
                        assert(w.nodes[i] == w.at(id));
                    }
                }
            }
        }
        (d, g)
    } else {
        (c, h)
    }
}

/// A world that stands for a safe cluster, and in which whoever leads has been
/// seen to.
pub open spec fn sound(s: SimView) -> bool {
    exists|c: Cluster, h: History| #[trigger] stands(s, c, h) && all_seen(s.nodes)
}

/// What may be reported at all: fault injection that makes no sense; a term that
/// cannot grow; and, of a leader that was elected late, that it lacks what others have
/// committed in a newer term.
pub open spec fn harmless(e: Failure) -> bool {
    match e.what {
        Violation::InvalidDelayBand { .. } => true,
        Violation::InvalidDropThreshold { .. } => true,
        Violation::TermExhausted { .. } => true,
        Violation::LeaderCompleteness { leader, term, .. } => exists|w: SimView, input: InputView|
            {
                &&& sound(w)
                &&& w.known(leader)
                &&& overtaken(w, term)
                &&& #[trigger] w.react(leader, input) == Err::<SimView, _>(e)
            },
        _ => false,
    }
}

/// What is excused is harmless.
proof fn lemma_harmless(
    s: SimView,
    c: Cluster,
    h: History,
    id: NodeId,
    input: InputView,
    e: Failure,
)
    requires
        stands(s, c, h),
        all_seen(s.nodes),
        s.known(id),
        s.react(id, input) == Err::<SimView, _>(e),
        excused(s, id, e),
    ensures
        harmless(e),
{
    assert(sound(s));
}

/// A world that differs only in its clock, faults and counters is as sound.
proof fn lemma_sound_same(s: SimView, t: SimView, c: Cluster, h: History, b: int)
    requires
        stands(s, c, h),
        room(s, b),
        t.nodes == s.nodes,
        t.net == s.net,
        t.committed == s.committed,
        t.leaders == s.leaders,
        t.mode == s.mode,
    ensures
        stands(t, c, h),
        room(t, b),
{
    reveal(room);
}

/// There is more room in a world with room.
proof fn lemma_room_more(s: SimView, a: int, b: int)
    requires
        room(s, a),
        a <= b,
    ensures
        room(s, b),
{
    reveal(room);
    lemma_carried_wider(s.net, within(a), within(b));
}

/// A message arrives.
proof fn lemma_deliver(s: SimView, c: Cluster, h: History, env: EnvelopeView, b: int) -> (next: (
    Cluster,
    History,
))
    requires
        stands(s, c, h),
        all_seen(s.nodes),
        room(s, b),
        0 <= b < u64::MAX,
        c.sent.contains(packet(env)),
        span(env.msg) <= b,
    ensures
        match s.deliver(env) {
            Ok(t) => {
                &&& stands(t, next.0, next.1)
                &&& all_seen(t.nodes)
                &&& room(t, b + 1)
                &&& t.nodes.len() == s.nodes.len()
                &&& c.sent.subset_of(next.0.sent)
            },
            Err(e) => harmless(e),
        },
{
    reveal(SimView::deliver);
    lemma_room_more(s, b, b + 1);
    lemma_sound_same(s, s.lost_to_crashed(), c, h, b + 1);
    lemma_sound_same(s, s.lost_to_partition(), c, h, b + 1);
    if s.known(env.to) && s.at(env.to).alive && !s.partitioned(env.from, env.to) {
        let arrived = SimView {
            stats: super::FaultStats {
                messages_delivered: s.stats.messages_delivered.saturating_add(1),
                ..s.stats
            },
            ..s
        };
        lemma_sound_same(s, arrived, c, h, b);
        let input = InputView::Message { from: env.from, msg: env.msg };
        let next = lemma_react(arrived, c, h, env.to, input, b);
        if let Err(e) = arrived.react(env.to, input) {
            lemma_harmless(arrived, c, h, env.to, input, e);
        }
        next
    } else {
        (c, h)
    }
}

/// The messages from the `i`-th on arrive.
proof fn lemma_deliver_from(
    s: SimView,
    c: Cluster,
    h: History,
    envs: Seq<EnvelopeView>,
    i: int,
    b: int,
) -> (next: (Cluster, History))
    requires
        stands(s, c, h),
        all_seen(s.nodes),
        room(s, b),
        0 <= b,
        0 <= i <= envs.len(),
        b + envs.len() - i <= u64::MAX,
        carried(envs, c.sent),
        carried(envs, within(b)),
    ensures
        match s.deliver_from(envs, i) {
            Ok(t) => {
                &&& stands(t, next.0, next.1)
                &&& all_seen(t.nodes)
                &&& room(t, b + envs.len() - i)
                &&& t.nodes.len() == s.nodes.len()
            },
            Err(e) => harmless(e),
        },
    decreases envs.len() - i,
{
    if i < envs.len() {
        assert(c.sent.contains(packet(envs[i])) && span(envs[i].msg) <= b) by {
            reveal(carried);
            assert(within(b).contains(packet(envs[i])));
        }
        let (d, g) = lemma_deliver(s, c, h, envs[i], b);
        if let Ok(t) = s.deliver(envs[i]) {
            lemma_carried_wider(envs, c.sent, d.sent);
            lemma_carried_wider(envs, within(b), within(b + 1));
            lemma_deliver_from(t, d, g, envs, i + 1, b + 1)
        } else {
            (c, h)
        }
    } else {
        (c, h)
    }
}

/// The nodes from the `i`-th on are ticked.
proof fn lemma_tick_from(
    s: SimView,
    c: Cluster,
    h: History,
    only: Option<Seq<NodeId>>,
    i: int,
    b: int,
) -> (next: (Cluster, History))
    requires
        stands(s, c, h),
        all_seen(s.nodes),
        room(s, b),
        0 <= b,
        0 <= i <= s.nodes.len() <= 255,
        b + s.nodes.len() - i <= u64::MAX,
    ensures
        match s.tick_from(only, i) {
            Ok(t) => {
                &&& stands(t, next.0, next.1)
                &&& all_seen(t.nodes)
                &&& room(t, b + s.nodes.len() - i)
            },
            Err(e) => harmless(e),
        },
    decreases 256 - i,
{
    if i < s.nodes.len() {
        let id = (i + 1) as u8;
        if !s.nodes[i].alive || (only is Some && !only->0.contains(id)) {
            lemma_room_more(s, b, b + 1);
            lemma_tick_from(s, c, h, only, i + 1, b + 1)
        } else {
            let input = InputView::Tick { now_ms: s.now_ms };
            assert(s.at(id) == s.nodes[i]);
            let (d, g) = lemma_react(s, c, h, id, input, b);
            match s.react(id, input) {
                Ok(t) => lemma_tick_from(t, d, g, only, i + 1, b + 1),
                Err(e) => {
                    lemma_harmless(s, c, h, id, input, e);
                    (c, h)
                },
            }
        }
    } else {
        (c, h)
    }
}

/// A part of what is on its way.
proof fn lemma_carried_part(net: Seq<EnvelopeView>, n: int, sent: Set<Packet>)
    requires
        carried(net, sent),
        0 <= n <= net.len(),
    ensures
        carried(net.take(n), sent),
        carried(net.skip(n), sent),
{
    reveal(carried);
    assert forall|i: int| 0 <= i < n implies sent.contains(packet(#[trigger] net.take(n)[i])) by {
        assert(net.take(n)[i] == net[i]);
    }
    assert forall|i: int| 0 <= i < net.len() - n implies sent.contains(
        packet(#[trigger] net.skip(n)[i]),
    ) by {
        assert(net.skip(n)[i] == net[n + i]);
    }
}

/// What is filtered is still on its way.
proof fn lemma_carried_filter(
    net: Seq<EnvelopeView>,
    keeps: spec_fn(EnvelopeView) -> bool,
    sent: Set<Packet>,
)
    requires
        carried(net, sent),
    ensures
        carried(net.filter(keeps), sent),
    decreases net.len(),
{
    reveal(Seq::filter);
    if net.len() > 0 {
        assert(net.drop_last() =~= net.take(net.len() - 1));
        lemma_carried_part(net, net.len() - 1, sent);
        lemma_carried_filter(net.drop_last(), keeps, sent);
        reveal(carried);
        assert(sent.contains(packet(net[net.len() - 1])));
        let rest = net.drop_last().filter(keeps);
        let all = net.filter(keeps);
        assert forall|i: int| 0 <= i < all.len() implies sent.contains(
            packet(#[trigger] all[i]),
        ) by {
            if i < rest.len() {
                assert(all[i] == rest[i]);
            }
        }
    } else {
        reveal(carried);
    }
}

/// One step of the clock.
proof fn lemma_step(s: SimView, c: Cluster, h: History, only: Option<Seq<NodeId>>, b: int)
    requires
        stands(s, c, h),
        all_seen(s.nodes),
        room(s, b),
        0 <= b,
        b + s.net.len() + s.nodes.len() <= u64::MAX,
    ensures
        match s.step(only) {
            Ok(t) => sound(t),
            Err(e) => harmless(e),
        },
{
    let n = due(s.net, s.now_ms);
    batches::lemma_due(s.net, s.now_ms);
    let envs = s.net.take(n);
    let taken = SimView { net: s.net.skip(n), ..s };
    lemma_carried_part(s.net, n, c.sent);
    assert(room(taken, b) && carried(envs, within(b))) by {
        reveal(room);
        lemma_carried_part(s.net, n, within(b));
    }
    assert(s.nodes.len() <= 255) by {
        reveal(nodes_stand);
    }
    assert(stands(taken, c, h));
    let (d, g) = lemma_deliver_from(taken, c, h, envs, 0, b);
    if let Ok(v) = taken.deliver_from(envs, 0) {
        let wide = b + envs.len();
        let (e, f) = lemma_tick_from(v, d, g, only, 0, wide);
        if let Ok(t) = v.tick_from(only, 0) {
            let last = SimView { now_ms: (t.now_ms + crate::node::TICK_MS) as u64, ..t };
            lemma_sound_same(t, last, e, f, wide + v.nodes.len());
            assert(sound(last));
        }
    }
}

/// A node crashes.
proof fn lemma_crash(s: SimView, c: Cluster, h: History, id: NodeId)
    requires
        stands(s, c, h),
        all_seen(s.nodes),
        s.known(id),
    ensures
        s.crash(id) matches Ok((t, _)) && sound(t),
{
    checks::lemma_stands(s, c, h, id);
    let n = s.at(id);
    if n.alive {
        let keeps = |e: EnvelopeView| e.to != id;
        let net = s.net.filter(keeps);
        lemma_carried_filter(s.net, keeps, c.sent);
        let down = SimNodeView {
            core: NodeView::booted(
                id,
                n.core.peers,
                seed_of(s.seed, id, n.boot_count),
                types::HardState { current_term: 0, voted_for: None },
                Seq::empty(),
            ),
            alive: false,
            applied: Seq::empty(),
            ..n
        };
        let crashed = SimView {
            net,
            stats: super::FaultStats {
                crashes: s.stats.crashes.saturating_add(1),
                messages_dropped_to_crashed_nodes:
                    s.stats.messages_dropped_to_crashed_nodes.saturating_add(
                    (s.net.len() - net.len()) as u64,
                ),
                ..s.stats
            },
            ..s
        }.with(id, down);
        assert(node_stands(down, c.nodes[id])) by {
            reveal(node_stands);
        }
        assert(nodes_stand(crashed.nodes, c)) by {
            reveal(nodes_stand);
            assert forall|i: int| 0 <= i < crashed.nodes.len() implies node_stands(
                #[trigger] crashed.nodes[i],
                c.nodes[(i + 1) as u8],
            ) by {
                if i != id - 1 {
                    assert(crashed.nodes[i] == s.nodes[i]);
                }
            }
        }
        checks::lemma_check(crashed, c, h);
        match crashed.check() {
            Ok(t) => {
                assert(sound(t));
            },
            Err(e) => {
                let leader = e.what->LeaderCompleteness_leader;
                reveal(all_seen);
                assert(leader != id);
                assert(crashed.at(leader) == s.nodes[leader - 1]);
            },
        }
    } else {
        assert(sound(s));
    }
}

/// A node restarts.
proof fn lemma_restart(s: SimView, c: Cluster, h: History, id: NodeId, b: int)
    requires
        stands(s, c, h),
        all_seen(s.nodes),
        s.known(id),
        room(s, b),
        0 <= b < u64::MAX,
    ensures
        match s.restart(id) {
            Ok((t, _)) => sound(t),
            Err(e) => harmless(e),
        },
{
    checks::lemma_stands(s, c, h, id);
    let n = s.at(id);
    if n.alive {
        assert(sound(s));
    } else {
        let x = c.nodes[id];
        assert(n.disk_hard == x.hard && n.disk_log == x.log && n.core.peers == x.peers
            && n.applied.len() == 0) by {
            reveal(node_stands);
        }
        assert(bootable(n.disk_hard, n.disk_log));
        let boot_count = n.boot_count.wrapping_add(1);
        let seed = seed_of(s.seed, id, boot_count);
        let core = NodeView::booted(id, n.core.peers, seed, n.disk_hard, n.disk_log);
        let up = SimNodeView { core, alive: true, applied: Seq::empty(), boot_count, ..n };
        let back = SimView {
            stats: super::FaultStats {
                restarts: s.stats.restarts.saturating_add(1),
                ..s.stats
            },
            ..s
        }.with(id, up);
        let d = Cluster { nodes: c.nodes.insert(id, core), ..c };
        assert(x.rebooted(x.durable(), seed) == core);
        let g = runs::lemma_next_safe(c, h, Event::Restart { node: id, seed }, d);
        assert(d.nodes.dom() =~= c.nodes.dom());
        assert(node_stands(up, core)) by {
            reveal(node_stands);
        }
        assert(nodes_stand(back.nodes, d)) by {
            reveal(nodes_stand);
            assert forall|o: NodeId| #[trigger] d.nodes.contains_key(o) <==> 1 <= o
                <= back.nodes.len() by {
                assert(c.nodes.contains_key(o) <==> 1 <= o <= s.nodes.len());
            }
            assert forall|i: int| 0 <= i < back.nodes.len() implies node_stands(
                #[trigger] back.nodes[i],
                d.nodes[(i + 1) as u8],
            ) by {
                if i != id - 1 {
                    assert(back.nodes[i] == s.nodes[i]);
                    assert(node_stands(s.nodes[i], c.nodes[(i + 1) as u8]));
                }
            }
        }
        lemma_continued(s.committed, s.leaders, c.nodes.dom(), h, g);
        assert(all_seen(back.nodes)) by {
            reveal(all_seen);
            assert(s.nodes[id - 1].observed_leader_term == leads(n));
        }
        assert(room(back, b)) by {
            reveal(room);
            assert(s.nodes[id - 1].disk_log.len() <= b);
        }
        let input = InputView::Tick { now_ms: s.now_ms };
        let (e, f) = lemma_react(back, d, g, id, input, b);
        match back.react(id, input) {
            Ok(t) => {
                assert(sound(t));
            },
            Err(e) => {
                lemma_harmless(back, d, g, id, input, e);
            },
        }
    }
}

/// A client hands a command to a node.
proof fn lemma_propose(
    s: SimView,
    c: Cluster,
    h: History,
    id: NodeId,
    command: Command,
    b: int,
)
    requires
        stands(s, c, h),
        all_seen(s.nodes),
        s.known(id),
        room(s, b),
        0 <= b < u64::MAX,
    ensures
        match s.propose(id, command) {
            Ok((t, _)) => sound(t),
            Err(e) => harmless(e),
        },
{
    if s.at(id).alive {
        let input = InputView::ClientPropose { command };
        let (d, g) = lemma_react(s, c, h, id, input, b);
        match s.react(id, input) {
            Ok(t) => {
                assert(stands(t, d, g) && all_seen(t.nodes));
            },
            Err(e) => {
                lemma_harmless(s, c, h, id, input, e);
            },
        }
    } else {
        assert(stands(s, c, h) && all_seen(s.nodes));
    }
}

/// Someone can do something with the world.
pub enum Deed {
    /// The clock goes one step on, for all nodes or for some only.
    Step { only: Option<Seq<NodeId>> },
    /// A client hands a command to a node.
    Propose { id: NodeId, command: Command },
    Crash { id: NodeId },
    Restart { id: NodeId },
    /// The fault injection is set otherwise, and the counters with it.
    Adjust { faults: FaultView, stats: super::FaultStats },
}

impl SimView {
    /// What the world becomes.
    pub open spec fn after(self, deed: Deed) -> Result<SimView, Failure> {
        match deed {
            Deed::Step { only } => self.step(only),
            Deed::Propose { id, command } => match self.propose(id, command) {
                Ok((s, _)) => Ok(s),
                Err(e) => Err(e),
            },
            Deed::Crash { id } => match self.crash(id) {
                Ok((s, _)) => Ok(s),
                Err(e) => Err(e),
            },
            Deed::Restart { id } => match self.restart(id) {
                Ok((s, _)) => Ok(s),
                Err(e) => Err(e),
            },
            Deed::Adjust { faults, stats } => Ok(SimView { faults, stats, ..self }),
        }
    }

    /// The node that is meant exists.
    pub open spec fn allows(self, deed: Deed) -> bool {
        match deed {
            Deed::Propose { id, .. } => self.known(id),
            Deed::Crash { id } => self.known(id),
            Deed::Restart { id } => self.known(id),
            _ => true,
        }
    }

    /// The logs can grow by as many entries as there are messages on their way
    /// and nodes, and still be indexed.
    pub open spec fn roomy(self) -> bool {
        room(self, u64::MAX - 1 - self.net.len() - self.nodes.len())
    }
}

/// A sound world of durable disks stays sound, whatever is done with it: nothing
/// is found broken, but for what is harmless.
pub proof fn law_sound_worlds_stay_sound(s: SimView, deed: Deed)
    requires
        sound(s),
        s.roomy(),
        s.allows(deed),
    ensures
        match s.after(deed) {
            Ok(t) => sound(t),
            Err(e) => harmless(e),
        },
{
    let (c, h) = choose|c: Cluster, h: History| #[trigger] stands(s, c, h) && all_seen(s.nodes);
    let b = u64::MAX - 1 - s.net.len() - s.nodes.len();
    lemma_nonnegative(s, b);
    match deed {
        Deed::Step { only } => lemma_step(s, c, h, only, b),
        Deed::Propose { id, command } => lemma_propose(s, c, h, id, command, b),
        Deed::Crash { id } => lemma_crash(s, c, h, id),
        Deed::Restart { id } => lemma_restart(s, c, h, id, b),
        Deed::Adjust { faults, stats } => {
            let t = SimView { faults, stats, ..s };
            lemma_sound_same(s, t, c, h, b);
            assert(stands(t, c, h) && all_seen(t.nodes));
        },
    }
}

/// A new world is sound.
pub proof fn law_new_world_is_sound(n_nodes: u8, seed: u64)
    ensures
        sound(SimView::new(n_nodes, seed)),
{
    let s = SimView::new(n_nodes, seed);
    let c = Cluster {
        nodes: Map::new(
            |id: NodeId| 1 <= id <= n_nodes,
            |id: NodeId| new_node(n_nodes, seed, id - 1).core,
        ),
        sent: Set::empty(),
        applied: Set::empty(),
    };
    lemma_members(n_nodes as int, c.nodes.dom());
    assert forall|id: NodeId| #[trigger] c.nodes.contains_key(id) implies {
        let x = c.nodes[id];
        &&& x.peers.no_duplicates()
        &&& forall|p: NodeId| #[trigger] x.peers.contains(p) <==> c.nodes.contains_key(p) && p != id
        &&& exists|seed: u64|
            x == #[trigger] NodeView::booted(
                id,
                x.peers,
                seed,
                types::HardState { current_term: 0, voted_for: None },
                Seq::empty(),
            )
    } by {
        lemma_peers(n_nodes, id);
        let x = c.nodes[id];
        assert(x == NodeView::booted(
            id,
            x.peers,
            seed_of(seed, id, 0),
            types::HardState { current_term: 0, voted_for: None },
            Seq::empty(),
        ));
    }
    let h = safety::lemma_start_safe(c);
    assert(nodes_stand(s.nodes, c)) by {
        reveal(nodes_stand);
        reveal(node_stands);
    }
    assert(carried(s.net, c.sent)) by {
        reveal(carried);
    }
    assert(registry_stands(s.committed, c.nodes.dom(), h)) by {
        reveal(registry_stands);
    }
    assert(leaders_stand(s.leaders, h)) by {
        reveal(leaders_stand);
    }
    assert(all_seen(s.nodes)) by {
        reveal(all_seen);
    }
    assert(stands(s, c, h));
}

/// No invariant ever breaks where disks are durable: whatever is done with a new
/// world, for however long, and whatever it loses, delays, cuts off or crashes,
/// the only things ever reported are harmless ones.
pub proof fn law_durable_worlds_hold(
    n_nodes: u8,
    seed: u64,
    worlds: Seq<SimView>,
    deeds: Seq<Deed>,
    e: Failure,
)
    requires
        worlds.len() == deeds.len(),
        worlds.len() > 0,
        worlds[0] == SimView::new(n_nodes, seed),
        forall|i: int|
            0 <= i < worlds.len() ==> (#[trigger] worlds[i]).roomy() && worlds[i].allows(deeds[i]),
        forall|i: int|
            #![trigger worlds[i]]
            0 < i < worlds.len() ==> worlds[i - 1].after(deeds[i - 1]) == Ok::<_, Failure>(
                worlds[i],
            ),
        worlds.last().after(deeds.last()) == Err::<SimView, _>(e),
    ensures
        harmless(e),
{
    lemma_sound_run(n_nodes, seed, worlds, deeds, worlds.len() - 1);
    law_sound_worlds_stay_sound(worlds.last(), deeds.last());
}

proof fn lemma_sound_run(
    n_nodes: u8,
    seed: u64,
    worlds: Seq<SimView>,
    deeds: Seq<Deed>,
    i: int,
)
    requires
        worlds.len() == deeds.len(),
        0 <= i < worlds.len(),
        worlds[0] == SimView::new(n_nodes, seed),
        forall|j: int|
            0 <= j < worlds.len() ==> (#[trigger] worlds[j]).roomy() && worlds[j].allows(deeds[j]),
        forall|j: int|
            #![trigger worlds[j]]
            0 < j < worlds.len() ==> worlds[j - 1].after(deeds[j - 1]) == Ok::<_, Failure>(
                worlds[j],
            ),
    ensures
        sound(worlds[i]),
    decreases i,
{
    if i == 0 {
        law_new_world_is_sound(n_nodes, seed);
    } else {
        lemma_sound_run(n_nodes, seed, worlds, deeds, i - 1);
        assert(worlds[i - 1].roomy());
        law_sound_worlds_stay_sound(worlds[i - 1], deeds[i - 1]);
        assert(worlds[i - 1].after(deeds[i - 1]) == Ok::<_, Failure>(worlds[i]));
    }
}

/// What was committed and who led, a later history knows too.
proof fn lemma_continued(
    committed: Map<LogIndex, Entry>,
    leaders: Map<Term, NodeId>,
    m: Set<NodeId>,
    h: History,
    g: History,
)
    requires
        registry_stands(committed, m, h),
        leaders_stand(leaders, h),
        continues(h, g),
    ensures
        registry_stands(committed, m, g),
        leaders_stand(leaders, g),
{
    reveal(registry_stands);
    reveal(leaders_stand);
    assert forall|k: LogIndex| #[trigger] committed.contains_key(k) implies committed[k].index == k
        && g.chosen(m, committed[k]) by {
        safety::lemma_chosen_continues(h, g, m, committed[k]);
    }
    assert forall|u: Term| #[trigger] leaders.contains_key(u) implies g.reigns.contains_key(u)
        && g.reigns[u].leader == leaders[u] by {
        safety::lemma_reign_continues(h, g, u);
    }
}

/// The room that a roomy world has is not negative.
proof fn lemma_nonnegative(s: SimView, b: int)
    requires
        room(s, b),
        b == u64::MAX - 1 - s.net.len() - s.nodes.len(),
    ensures
        0 <= b,
{
    reveal(room);
    reveal(carried);
    if s.nodes.len() > 0 {
        assert(s.nodes[0].core.log.len() <= b);
    } else if s.net.len() > 0 {
        assert(within(b).contains(packet(s.net[0])));
    }
}

/// So many nodes are finitely many.
proof fn lemma_members(n: int, m: Set<NodeId>)
    requires
        0 <= n <= 255,
        forall|id: NodeId| #[trigger] m.contains(id) <==> 1 <= id <= n,
    ensures
        m.finite(),
    decreases n,
{
    if n == 0 {
        assert(m =~= Set::empty());
    } else {
        let rest = m.remove(n as u8);
        assert forall|id: NodeId| #[trigger] rest.contains(id) <==> 1 <= id <= n - 1 by {
            assert(m.contains(id) <==> 1 <= id <= n);
        }
        lemma_members(n - 1, rest);
        assert(m =~= rest.insert(n as u8));
    }
}

/// A node's peers are all the others, each once.
proof fn lemma_peers(n_nodes: u8, id: NodeId)
    requires
        1 <= id <= n_nodes,
    ensures
        peers_of(n_nodes, id).no_duplicates(),
        forall|p: NodeId| #[trigger]
            peers_of(n_nodes, id).contains(p) <==> 1 <= p <= n_nodes && p != id,
{
    let peers = peers_of(n_nodes, id);
    assert forall|p: NodeId| #[trigger] peers.contains(p) <==> 1 <= p <= n_nodes && p != id by {
        if 1 <= p < id {
            assert(peers[p - 1] == p);
        } else if id < p <= n_nodes {
            assert(peers[p - 2] == p);
        }
    }
}

} // verus!
