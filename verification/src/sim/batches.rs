//! What executing a node's batch of effects comes to, where disks are durable:
//! nothing is visible too early, and everything ends up in its place.

use vstd::prelude::*;

use crate::cluster::{reacts, sends, Durable, Packet};
use crate::invariants::Failure;
use crate::laws;
use crate::laws::applied_in;
use crate::message::{EffectView, InputView, MessageView};
use crate::node::NodeView;
use crate::runs;
use crate::runs::{persists, visible};
use crate::storage;
use crate::types;
use crate::types::{Command, Entry, LogIndex, NodeId};

use super::model::{due, written, EnvelopeView, SimNodeView, SimView};
use super::PersistenceMode;

verus! {

/// Nothing is put on disk from the `i`-th effect on.
pub open spec fn settled_from(effects: Seq<EffectView>, i: int) -> bool {
    forall|j: int| i <= j < effects.len() ==> !persists(#[trigger] effects[j])
}

/// Effects that put nothing on disk leave it as it is.
proof fn lemma_unwritten(d: Durable, effects: Seq<EffectView>)
    requires
        settled_from(effects, 0),
    ensures
        d.after_all(effects) == d,
    decreases effects.len(),
{
    if effects.len() > 0 {
        assert(settled_from(effects.drop_last(), 0)) by {
            assert forall|j: int| 0 <= j < effects.drop_last().len() implies !persists(
                #[trigger] effects.drop_last()[j],
            ) by {
                assert(effects.drop_last()[j] == effects[j]);
            }
        }
        lemma_unwritten(d, effects.drop_last());
        assert(!persists(effects[effects.len() - 1]));
    }
}

/// Once nothing more is put on disk, the disk is the node's.
proof fn lemma_settled_disk(x: NodeView, input: InputView, i: int)
    requires
        x.wf(),
        x.accepts(input),
        0 <= i <= reacts(x, input).1.len(),
        settled_from(reacts(x, input).1, i),
    ensures
        x.durable().after_all(reacts(x, input).1.take(i)) == reacts(x, input).0.durable(),
{
    let effects = reacts(x, input).1;
    let rest = effects.skip(i);
    runs::lemma_disk_after(x, input);
    assert(effects =~= effects.take(i) + rest);
    runs::lemma_after_both(x.durable(), effects.take(i), rest);
    assert(settled_from(rest, 0)) by {
        assert forall|j: int| 0 <= j < rest.len() implies !persists(#[trigger] rest[j]) by {
            assert(rest[j] == effects[i + j]);
        }
    }
    lemma_unwritten(x.durable().after_all(effects.take(i)), rest);
}

/// Behind a visible effect nothing more is put on disk.
proof fn lemma_visible_settles(x: NodeView, input: InputView, i: int)
    requires
        x.wf(),
        x.accepts(input),
        0 <= i < reacts(x, input).1.len(),
        visible(reacts(x, input).1[i]),
    ensures
        settled_from(reacts(x, input).1, i),
{
    let effects = reacts(x, input).1;
    assert forall|j: int| i <= j < effects.len() implies !persists(#[trigger] effects[j]) by {
        if i < j {
            runs::lemma_disk_first(x, input, i, j);
        }
    }
}

/// Nor behind the announcement of a new role other than follower, or a refused
/// proposal.
#[verifier::spinoff_prover]
proof fn lemma_announcement_settles(x: NodeView, input: InputView, i: int)
    requires
        x.wf(),
        x.accepts(input),
        0 <= i < reacts(x, input).1.len(),
        match reacts(x, input).1[i] {
            EffectView::RoleChanged { role_name, .. } => role_name != "Follower"@,
            EffectView::ProposeRejected { .. } => true,
            _ => false,
        },
    ensures
        settled_from(reacts(x, input).1, i),
{
    reveal(reacts);
}

/// Where a role is announced, the term is on disk.
#[verifier::spinoff_prover]
proof fn lemma_announced_term(x: NodeView, input: InputView, i: int)
    requires
        x.wf(),
        x.accepts(input),
        0 <= i < reacts(x, input).1.len(),
        reacts(x, input).1[i] is RoleChanged,
    ensures
        x.durable().after_all(reacts(x, input).1.take(i)).hard.current_term == reacts(
            x,
            input,
        ).0.hard.current_term,
{
    reveal(reacts);
    reveal_with_fuel(Durable::after_all, 3);
    let effects = x.step(input).1;
    assert(i <= 1);
    if i == 1 {
        assert(effects.take(1).drop_last() =~= Seq::empty());
        assert(effects.take(1).last() == effects[0]);
    }
}

/// Where the log on disk is cut, it is the node's former log, and the cut is at
/// an index.
proof fn lemma_cut(x: NodeView, input: InputView, i: int)
    requires
        x.wf(),
        x.accepts(input),
        0 <= i < reacts(x, input).1.len(),
        reacts(x, input).1[i] is PersistLogEntries,
    ensures
        x.durable().after_all(reacts(x, input).1.take(i)).log == x.log,
        reacts(x, input).1[i]->truncate_from matches Some(from) ==> 1 <= from,
{
    let effects = reacts(x, input).1;
    let first = effects.take(i);
    runs::lemma_log_write(x, input, i);
    assert forall|j: int| 0 <= j < first.len() implies !(
    #[trigger] first[j] is PersistLogEntries) by {
        assert(first[j] == effects[j]);
    }
    runs::lemma_log_unwritten(x.durable(), first);
}

/// Cutting a log by its indices is cutting it at a place.
proof fn lemma_written(log: Seq<Entry>, truncate_from: Option<LogIndex>, entries: Seq<Entry>)
    requires
        types::contiguous(log),
        truncate_from matches Some(from) ==> 1 <= from,
    ensures
        written(log, truncate_from, entries) == crate::cluster::truncated(log, truncate_from)
            + entries,
{
    if let Some(from) = truncate_from {
        storage::law_survivors_are_the_prefix(log, from);
    }
}

/// An envelope as a message of the cluster.
pub open spec fn packet(env: EnvelopeView) -> Packet {
    Packet { from: env.from, to: env.to, msg: env.msg }
}

/// Everything on its way was sent.
#[verifier::opaque]
pub open spec fn carried(net: Seq<EnvelopeView>, sent: Set<Packet>) -> bool {
    forall|i: int| 0 <= i < net.len() ==> sent.contains(packet(#[trigger] net[i]))
}

/// The applications of these entries.
pub open spec fn history_of(entries: Seq<Entry>) -> Seq<(LogIndex, Command)> {
    entries.map_values(|e: Entry| (e.index, e.command))
}

/// The fault injection is set to something that makes no sense.
pub open spec fn bad_knob(e: Failure) -> bool {
    e.what is InvalidDelayBand || e.what is InvalidDropThreshold
}

/// So many messages are due, at most all.
pub proof fn lemma_due(net: Seq<EnvelopeView>, at: u64)
    ensures
        0 <= due(net, at) <= net.len(),
    decreases net.len(),
{
    if net.len() > 0 && net[0].at <= at {
        lemma_due(net.skip(1), at);
    }
}

/// One more message on its way.
proof fn lemma_carried_more(
    net: Seq<EnvelopeView>,
    at: int,
    env: EnvelopeView,
    sent: Set<Packet>,
)
    requires
        carried(net, sent),
        0 <= at <= net.len(),
        sent.contains(packet(env)),
    ensures
        carried(net.insert(at, env), sent),
{
    reveal(carried);
    let more = net.insert(at, env);
    assert forall|i: int| 0 <= i < more.len() implies sent.contains(packet(#[trigger] more[i])) by {
        if i < at {
            assert(more[i] == net[i]);
        } else if i > at {
            assert(more[i] == net[i - 1]);
        }
    }
}

/// A message handed to the network is lost or on its way, and nothing else
/// changes that matters.
proof fn lemma_enqueue(w: SimView, from: NodeId, to: NodeId, msg: MessageView, sent: Set<Packet>)
    requires
        carried(w.net, sent),
        sent.contains(Packet { from, to, msg }),
    ensures
        match w.enqueue(from, to, msg) {
            Ok(v) => v == (SimView { rng: v.rng, net: v.net, stats: v.stats, ..w }) && carried(
                v.net,
                sent,
            ),
            Err(e) => bad_knob(e),
        },
{
    reveal(SimView::enqueue);
    assert forall|at: u64| carried(
        #[trigger] w.net.insert(due(w.net, at), EnvelopeView { at, from, to, msg }),
        sent,
    ) by {
        lemma_due(w.net, at);
        lemma_carried_more(w.net, due(w.net, at), EnvelopeView { at, from, to, msg }, sent);
    }
}

/// The world in the middle of a batch of the node's effects: the node's disk and
/// applied history are as far as the first `i` effects bring them.
pub open spec fn midway(
    w: SimView,
    start: SimView,
    id: NodeId,
    x: NodeView,
    effects: Seq<EffectView>,
    i: int,
) -> bool {
    let n = start.at(id);
    let disk = x.durable().after_all(effects.take(i));
    &&& w == (SimView {
        rng: w.rng,
        net: w.net,
        stats: w.stats,
        nodes: start.nodes.update(
            id - 1,
            SimNodeView {
                disk_hard: disk.hard,
                disk_log: disk.log,
                applied: n.applied + history_of(applied_in(effects.take(i))),
                ..n
            },
        ),
        ..start
    })
}

/// A step applies its entries in order.
pub proof fn lemma_applies(x: NodeView, input: InputView)
    requires
        x.wf(),
        x.accepts(input),
        x.last_applied <= x.commit_index <= x.log.len(),
        reacts(x, input).0.last_applied <= reacts(x, input).0.log.len(),
    ensures
        applied_in(reacts(x, input).1) == reacts(x, input).0.log.subrange(
            x.last_applied as int,
            reacts(x, input).0.last_applied as int,
        ),
        x.last_applied <= reacts(x, input).0.last_applied,
{
    reveal(reacts);
    laws::law_applies_in_order(x, input);
    laws::law_commit_never_falls(x, input);
}

/// An application in a batch is of the next entry.
proof fn lemma_next_applied(x: NodeView, input: InputView, i: int)
    requires
        x.wf(),
        x.accepts(input),
        x.last_applied <= x.commit_index <= x.log.len(),
        reacts(x, input).0.last_applied <= reacts(x, input).0.log.len(),
        reacts(x, input).0.wf(),
        0 <= i < reacts(x, input).1.len(),
        reacts(x, input).1[i] is Apply,
    ensures
        ({
            let (t, effects) = reacts(x, input);
            let e = effects[i]->Apply_0;
            &&& applied_in(effects.take(i + 1)) == applied_in(effects.take(i)).push(e)
            &&& e.index == x.last_applied + applied_in(effects.take(i)).len() + 1
        }),
{
    let (t, effects) = reacts(x, input);
    let e = effects[i]->Apply_0;
    let before = applied_in(effects.take(i));
    assert(effects.take(i + 1).drop_last() =~= effects.take(i));
    assert(effects.take(i + 1).last() == effects[i]);
    let with = applied_in(effects.take(i + 1));
    assert(with == before.push(e));
    laws::lemma_applied_in_both(effects.take(i + 1), effects.skip(i + 1));
    assert(effects =~= effects.take(i + 1) + effects.skip(i + 1));
    lemma_applies(x, input);
    let all = applied_in(effects);
    assert(all == with + applied_in(effects.skip(i + 1)));
    let k = before.len() as int;
    assert(all[k] == e) by {
        assert(with[k] == e);
        assert(k < with.len() <= all.len());
    }
    let sub = t.log.subrange(x.last_applied as int, t.last_applied as int);
    assert(all == sub);
    assert(0 <= x.last_applied <= t.last_applied <= t.log.len());
    assert(k < sub.len());
    assert(sub[k] == t.log[x.last_applied + k]);
    assert(t.log[x.last_applied + before.len()] == e);
}

/// Executing one effect of a batch.
proof fn lemma_execute_one(
    w: SimView,
    start: SimView,
    id: NodeId,
    x: NodeView,
    input: InputView,
    i: int,
    sent: Set<Packet>,
)
    requires
        midway(w, start, id, x, reacts(x, input).1, i),
        start.mode == PersistenceMode::Durable,
        start.known(id),
        start.at(id).core == reacts(x, input).0,
        start.at(id).applied.len() == x.last_applied,
        carried(w.net, sent),
        sends(id, reacts(x, input).1).subset_of(sent),
        x.wf(),
        x.accepts(input),
        x.last_applied <= x.commit_index <= x.log.len(),
        reacts(x, input).0.last_applied <= reacts(x, input).0.log.len(),
        reacts(x, input).0.wf(),
        0 <= i < reacts(x, input).1.len(),
    ensures
        match w.execute(id, reacts(x, input).1[i]) {
            Ok(v) => midway(v, start, id, x, reacts(x, input).1, i + 1) && carried(v.net, sent),
            Err(e) => bad_knob(e),
        },
{
    reveal(SimView::execute);
    let effects = reacts(x, input).1;
    let n = start.at(id);
    let effect = effects[i];
    assert(effects.take(i + 1).drop_last() =~= effects.take(i));
    assert(effects.take(i + 1).last() == effect);
    let disk = x.durable().after_all(effects.take(i));
    let next = x.durable().after_all(effects.take(i + 1));
    assert(next == disk.after(effect));
    if !(effect is Apply) {
        assert(applied_in(effects.take(i + 1)) == applied_in(effects.take(i)));
    }
    if visible(effect) {
        lemma_visible_settles(x, input, i);
        lemma_settled_disk(x, input, i);
    }
    match effect {
        EffectView::PersistHardState(_) => {},
        EffectView::PersistLogEntries { truncate_from, entries } => {
            lemma_cut(x, input, i);
            lemma_written(x.log, truncate_from, entries);
        },
        EffectView::Send { to, msg } => {
            assert(sends(id, effects).contains(Packet { from: id, to, msg }));
            if let Ok(v) = w.fully_durable(id) {
                lemma_enqueue(v, id, to, msg, sent);
            }
        },
        EffectView::RoleChanged { role_name, .. } => {
            lemma_announced_term(x, input, i);
            if role_name != "Follower"@ {
                lemma_announcement_settles(x, input, i);
                lemma_settled_disk(x, input, i);
            }
        },
        EffectView::Apply(e) => {
            lemma_next_applied(x, input, i);
            let done = applied_in(effects.take(i));
            assert(history_of(done.push(e)) =~= history_of(done).push((e.index, e.command)));
            assert(n.applied + history_of(done.push(e)) =~= (n.applied + history_of(done)).push(
                (e.index, e.command),
            ));
        },
        EffectView::ProposeAccepted { .. } => {},
        EffectView::ProposeRejected { .. } => {
            lemma_announcement_settles(x, input, i);
            lemma_settled_disk(x, input, i);
        },
    }
    if let Ok(v) = w.execute(id, effect) {
        let there = SimNodeView {
            disk_hard: next.hard,
            disk_log: next.log,
            applied: n.applied + history_of(applied_in(effects.take(i + 1))),
            ..n
        };
        assert(v.nodes =~= start.nodes.update(id - 1, there));
    }
}

/// Executing a batch from the `i`-th effect on.
pub proof fn lemma_execute_from(
    w: SimView,
    start: SimView,
    id: NodeId,
    x: NodeView,
    input: InputView,
    i: int,
    sent: Set<Packet>,
)
    requires
        midway(w, start, id, x, reacts(x, input).1, i),
        start.mode == PersistenceMode::Durable,
        start.known(id),
        start.at(id).core == reacts(x, input).0,
        start.at(id).applied.len() == x.last_applied,
        carried(w.net, sent),
        sends(id, reacts(x, input).1).subset_of(sent),
        x.wf(),
        x.accepts(input),
        x.last_applied <= x.commit_index <= x.log.len(),
        reacts(x, input).0.last_applied <= reacts(x, input).0.log.len(),
        reacts(x, input).0.wf(),
        0 <= i <= reacts(x, input).1.len(),
    ensures
        match w.execute_from(id, reacts(x, input).1, i) {
            Ok(v) => midway(
                v,
                start,
                id,
                x,
                reacts(x, input).1,
                reacts(x, input).1.len() as int,
            ) && carried(v.net, sent),
            Err(e) => bad_knob(e),
        },
    decreases reacts(x, input).1.len() - i,
{
    let effects = reacts(x, input).1;
    if i < effects.len() {
        lemma_execute_one(w, start, id, x, input, i, sent);
        if let Ok(v) = w.execute(id, effects[i]) {
            lemma_execute_from(v, start, id, x, input, i + 1, sent);
        }
    } else {
        lemma_settled_disk(x, input, i);
    }
}

} // verus!
