//! What the simulated world does: what becomes of a message, of a tick, of a crash
//! and of a restart, said of the world as it is, for every world.

use vstd::prelude::*;

use crate::invariants::{Failure, Violation};
use crate::laws::applied_in;
use crate::message::{Effect, EffectView, InputView, MessageView};
use crate::node::NodeView;
use crate::rng;
use crate::types;
use crate::types::{Command, Entry, HardState, LogIndex, NodeId};

use super::model::{
    cell_fault, cell_of, due, history_fault, late_persist, looked_at, new_node, nothing, peers_of,
    seed_of, EnvelopeView, ScanView, SimNodeView, SimView,
};
use super::{FaultStats, PartitionError, PersistenceMode};

verus! {

/// Nodes are cut off from each other just where a partition is imposed and the
/// first cells that list them are not the same; those that no cell lists share
/// one.
pub proof fn law_a_partition_separates_cells(s: SimView, a: NodeId, b: NodeId)
    ensures
        s.faults.partitions.len() == 0 ==> !s.partitioned(a, b),
        s.partitioned(a, b) == s.partitioned(b, a),
        !s.partitioned(a, a),
        (forall|i: int|
            0 <= i < s.faults.partitions.len() ==> ((#[trigger] s.faults.partitions[i]).contains(a)
                <==> s.faults.partitions[i].contains(b))) ==> !s.partitioned(a, b),
        forall|i: int|
            0 <= i < s.faults.partitions.len() && (#[trigger] s.faults.partitions[i]).contains(a)
                && !s.faults.partitions[i].contains(b) && (forall|j: int|
                0 <= j < i ==> !(#[trigger] s.faults.partitions[j]).contains(a)) ==> s.partitioned(
                a,
                b,
            ),
{
    let cells = s.faults.partitions;
    lemma_cell(cells, a, 0);
    lemma_cell(cells, b, 0);
    assert forall|i: int|
        0 <= i < cells.len() && (#[trigger] cells[i]).contains(a) && !cells[i].contains(b) && (
        forall|j: int| 0 <= j < i ==> !(#[trigger] cells[j]).contains(a)) implies s.partitioned(
        a,
        b,
    ) by {
        let at = cell_of(cells, a, 0)->0;
        assert(cell_of(cells, a, 0) is Some);
        if at < i {
            assert(!cells[at].contains(a));
        }
        if i < at {
            assert(cells[i].contains(a));
        }
    }
    if forall|i: int|
        0 <= i < cells.len() ==> ((#[trigger] cells[i]).contains(a) <==> cells[i].contains(b)) {
        match (cell_of(cells, a, 0), cell_of(cells, b, 0)) {
            (Some(x), Some(y)) => {
                assert(cells[x].contains(b));
                assert(cells[y].contains(a));
            },
            (Some(x), None) => {
                assert(cells[x].contains(b));
            },
            (None, Some(y)) => {
                assert(cells[y].contains(a));
            },
            (None, None) => {},
        }
    }
}

proof fn lemma_cell(cells: Seq<Set<NodeId>>, n: NodeId, i: int)
    requires
        0 <= i,
    ensures
        match cell_of(cells, n, i) {
            Some(at) => i <= at < cells.len() && cells[at].contains(n) && forall|j: int|
                i <= j < at ==> !(#[trigger] cells[j]).contains(n),
            None => forall|j: int| i <= j < cells.len() ==> !(#[trigger] cells[j]).contains(n),
        },
    decreases cells.len() - i,
{
    if i < cells.len() && !cells[i].contains(n) {
        lemma_cell(cells, n, i + 1);
    }
}

/// A node of a partition is at fault just where it is not known, or an earlier
/// cell lists it too.
pub proof fn law_a_partition_lists_known_nodes_once(
    n_nodes: nat,
    cells: Seq<Set<NodeId>>,
    cell: int,
    id: NodeId,
)
    requires
        0 <= cell < cells.len(),
    ensures
        cell_fault(n_nodes, cells, cell, id) == Some(PartitionError::UnknownNode { id })
            <==> cells[cell].contains(id) && (id == 0 || id > n_nodes),
        cell_fault(n_nodes, cells, cell, id) == Some(PartitionError::ListedTwice { id })
            <==> cells[cell].contains(id) && 1 <= id <= n_nodes && exists|i: int|
            0 <= i < cell && (#[trigger] cells[i]).contains(id),
        cell_fault(n_nodes, cells, cell, id) matches Some(e) ==> e == (PartitionError::UnknownNode {
            id,
        }) || e == (PartitionError::ListedTwice { id }),
{
}

/// The messages that are due are the first ones, all that arrive by the time and
/// no others.
pub proof fn law_due_messages_come_first(net: Seq<EnvelopeView>, at: u64)
    requires
        forall|i: int, j: int| 0 <= i < j < net.len() ==> net[i].at <= net[j].at,
    ensures
        0 <= due(net, at) <= net.len(),
        forall|i: int| 0 <= i < net.len() ==> ((#[trigger] net[i]).at <= at <==> i < due(net, at)),
    decreases net.len(),
{
    if net.len() > 0 && net[0].at <= at {
        let rest = net.skip(1);
        law_due_messages_come_first(rest, at);
        assert forall|i: int| 0 <= i < net.len() implies ((#[trigger] net[i]).at <= at <==> i
            < due(net, at)) by {
            if i > 0 {
                assert(net[i] == rest[i - 1]);
            }
        }
    } else if net.len() > 0 {
        assert forall|i: int| 0 <= i < net.len() implies ((#[trigger] net[i]).at <= at <==> i
            < due(net, at)) by {
            assert(i > 0 ==> net[0].at <= net[i].at);
        }
    }
}

/// The next roll: 32 bits.
pub open spec fn roll(s: SimView) -> u32 {
    rng::pcg_output(s.rng.state)
}

/// The delay band in force: no message arrives at once.
pub open spec fn least_delay(s: SimView) -> int {
    if s.faults.delay_min_ms == 0 {
        1
    } else {
        s.faults.delay_min_ms as int
    }
}

pub open spec fn most_delay(s: SimView) -> int {
    if s.faults.delay_max_ms == 0 {
        1
    } else {
        s.faults.delay_max_ms as int
    }
}

/// One message is counted as tried, and the rest of the counters stay but for one
/// at most.
pub open spec fn lost_as(
    s: SimView,
    t: SimView,
    crashed: bool,
    randomly: bool,
    partition: bool,
) -> bool {
    t.stats == (FaultStats {
        messages_attempted: s.stats.messages_attempted.saturating_add(1),
        messages_dropped_to_crashed_nodes: if crashed {
            s.stats.messages_dropped_to_crashed_nodes.saturating_add(1)
        } else {
            s.stats.messages_dropped_to_crashed_nodes
        },
        messages_dropped_randomly: if randomly {
            s.stats.messages_dropped_randomly.saturating_add(1)
        } else {
            s.stats.messages_dropped_randomly
        },
        messages_dropped_by_partition: if partition {
            s.stats.messages_dropped_by_partition.saturating_add(1)
        } else {
            s.stats.messages_dropped_by_partition
        },
        ..s.stats
    })
}

/// A message to a crashed node is lost; else it is lost where the roll is below
/// the threshold; else where the two are cut off from each other. In each case
/// that, and nothing else, is counted, and nothing is put on its way.
pub proof fn law_a_message_can_be_lost(
    s: SimView,
    from: NodeId,
    to: NodeId,
    msg: MessageView,
)
    requires
        s.faults.drop_threshold <= 0x1_0000_0000,
    ensures
        ({
            let crashed = s.known(to) && !s.at(to).alive;
            let dropped = !crashed && roll(s) < s.faults.drop_threshold;
            let cut = !crashed && !dropped && s.partitioned(from, to);
            crashed || dropped || cut ==> (s.enqueue(from, to, msg) matches Ok(t) && {
                &&& t == (SimView { stats: t.stats, rng: t.rng, ..s })
                &&& lost_as(s, t, crashed, dropped, cut)
                &&& crashed || s.faults.drop_threshold == 0 ==> t.rng == s.rng
                &&& !crashed && s.faults.drop_threshold > 0 ==> t.rng == s.rng.advanced()
            })
        }),
{
    reveal(SimView::enqueue);
}

/// Every other message goes on its way: it arrives within the band of delays, as
/// one of those that were on their way before, ahead of those that arrive later
/// and behind all the others. Only the attempt is counted.
pub proof fn law_a_message_arrives_within_the_band(
    s: SimView,
    from: NodeId,
    to: NodeId,
    msg: MessageView,
)
    requires
        s.faults.drop_threshold <= 0x1_0000_0000,
        !(s.known(to) && !s.at(to).alive),
        s.faults.drop_threshold <= roll(s),
        !s.partitioned(from, to),
        least_delay(s) <= most_delay(s),
        s.now_ms + most_delay(s) <= u64::MAX,
        forall|i: int, j: int| 0 <= i < j < s.net.len() ==> s.net[i].at <= s.net[j].at,
    ensures
        s.enqueue(from, to, msg) matches Ok(t) && {
            &&& t == (SimView { stats: t.stats, rng: t.rng, net: t.net, ..s })
            &&& lost_as(s, t, false, false, false)
            &&& exists|k: int|
                joins(s, from, to, msg, #[trigger] t.net[k], k) && t.net == s.net.insert(
                    k,
                    t.net[k],
                )
        },
{
    let t = lemma_enqueued(s, from, to, msg);
    let rolled = if s.faults.drop_threshold > 0 {
        s.rng.advanced()
    } else {
        s.rng
    };
    let min = least_delay(s) as u64;
    let max = most_delay(s) as u64;
    let at = (s.now_ms + rolled.draw(min, max)) as u64;
    rng::law_a_draw_lies_in_its_band(rolled, min, max);
    law_due_messages_come_first(s.net, at);
    let k = due(s.net, at);
    let env = EnvelopeView { at, from, to, msg };
    assert(t.net[k] == env);
    assert(joins(s, from, to, msg, t.net[k], k));
}

/// The message stands at the `k`-th place among those on their way: it arrives
/// within the band, no earlier than those before it, and earlier than all those
/// behind it.
pub open spec fn joins(
    s: SimView,
    from: NodeId,
    to: NodeId,
    msg: MessageView,
    env: EnvelopeView,
    k: int,
) -> bool {
    &&& 0 <= k <= s.net.len()
    &&& env.from == from
    &&& env.to == to
    &&& env.msg == msg
    &&& s.now_ms + least_delay(s) <= env.at <= s.now_ms + most_delay(s)
    &&& forall|j: int| 0 <= j < k ==> (#[trigger] s.net[j]).at <= env.at
    &&& forall|j: int| k <= j < s.net.len() ==> (#[trigger] s.net[j]).at > env.at
}

proof fn lemma_enqueued(s: SimView, from: NodeId, to: NodeId, msg: MessageView) -> (t: SimView)
    requires
        s.faults.drop_threshold <= 0x1_0000_0000,
        !(s.known(to) && !s.at(to).alive),
        s.faults.drop_threshold <= roll(s),
        !s.partitioned(from, to),
        least_delay(s) <= most_delay(s),
        s.now_ms + most_delay(s) <= u64::MAX,
    ensures
        s.enqueue(from, to, msg) == Ok::<_, Failure>(t),
        ({
            let rolled = if s.faults.drop_threshold > 0 {
                s.rng.advanced()
            } else {
                s.rng
            };
            let at = (s.now_ms + rolled.draw(least_delay(s) as u64, most_delay(s) as u64)) as u64;
            &&& t == (SimView { stats: t.stats, rng: t.rng, net: t.net, ..s })
            &&& lost_as(s, t, false, false, false)
            &&& t.net == s.net.insert(due(s.net, at), EnvelopeView { at, from, to, msg })
        }),
{
    reveal(SimView::enqueue);
    let rolled = if s.faults.drop_threshold > 0 {
        s.rng.advanced()
    } else {
        s.rng
    };
    rng::law_a_draw_lies_in_its_band(rolled, least_delay(s) as u64, most_delay(s) as u64);
    s.enqueue(from, to, msg)->Ok_0
}

/// Fault injection that makes no sense is reported when a message is sent: more
/// drops than there are rolls, or an empty band of delays.
pub proof fn law_senseless_faults_are_reported(
    s: SimView,
    from: NodeId,
    to: NodeId,
    msg: MessageView,
)
    requires
        !(s.known(to) && !s.at(to).alive),
    ensures
        s.faults.drop_threshold > 0x1_0000_0000 ==> s.enqueue(from, to, msg) == Err::<SimView, _>(
            Failure {
                seed: s.seed,
                what: Violation::InvalidDropThreshold { threshold: s.faults.drop_threshold },
            },
        ),
        s.faults.drop_threshold <= 0x1_0000_0000 && roll(s) >= s.faults.drop_threshold
            && !s.partitioned(from, to) && least_delay(s) > most_delay(s) ==> s.enqueue(
            from,
            to,
            msg,
        ) == Err::<SimView, _>(
            Failure {
                seed: s.seed,
                what: Violation::InvalidDelayBand {
                    min: least_delay(s) as u64,
                    max: most_delay(s) as u64,
                },
            },
        ),
{
    reveal(SimView::enqueue);
}

/// A message that arrives is taken by its node if that is alive and not cut off
/// from the sender; else it is lost, and counted so; for an unknown node nothing
/// happens.
pub proof fn law_an_arriving_message(s: SimView, env: EnvelopeView)
    ensures
        ({
            let alive = s.known(env.to) && s.at(env.to).alive;
            let cut = s.partitioned(env.from, env.to);
            &&& !s.known(env.to) ==> s.deliver(env) == Ok::<_, Failure>(s)
            &&& s.known(env.to) && !alive ==> (s.deliver(env) matches Ok(t) && t == (SimView {
                stats: FaultStats {
                    messages_dropped_to_crashed_nodes:
                        s.stats.messages_dropped_to_crashed_nodes.saturating_add(1),
                    ..s.stats
                },
                ..s
            }))
            &&& alive && cut ==> (s.deliver(env) matches Ok(t) && t == (SimView {
                stats: FaultStats {
                    messages_dropped_by_partition:
                        s.stats.messages_dropped_by_partition.saturating_add(1),
                    ..s.stats
                },
                ..s
            }))
            &&& alive && !cut ==> s.deliver(env) == (SimView {
                stats: FaultStats {
                    messages_delivered: s.stats.messages_delivered.saturating_add(1),
                    ..s.stats
                },
                ..s
            }).react(env.to, InputView::Message { from: env.from, msg: env.msg })
        }),
{
    reveal(SimView::deliver);
}

/// Messages arrive one after the other, each in the world that the one before it
/// left, up to the first that is reported.
pub proof fn law_messages_arrive_one_by_one(s: SimView, envs: Seq<EnvelopeView>, i: int)
    requires
        0 <= i <= envs.len(),
    ensures
        i == envs.len() ==> s.deliver_from(envs, i) == Ok::<_, Failure>(s),
        i < envs.len() ==> match s.deliver(envs[i]) {
            Ok(t) => s.deliver_from(envs, i) == t.deliver_from(envs, i + 1),
            Err(e) => s.deliver_from(envs, i) == Err::<SimView, _>(e),
        },
{
}

/// The nodes are ticked in order, each that is alive and whose clock runs, and with
/// the world's time.
pub proof fn law_living_nodes_are_ticked(s: SimView, only: Option<Seq<NodeId>>, i: int)
    requires
        0 <= i <= s.nodes.len() <= 255,
    ensures
        ({
            let id = (i + 1) as u8;
            let runs = only is None || only->0.contains(id);
            &&& i == s.nodes.len() ==> s.tick_from(only, i) == Ok::<_, Failure>(s)
            &&& i < s.nodes.len() && s.nodes[i].alive && runs ==> match s.react(
                id,
                InputView::Tick { now_ms: s.now_ms },
            ) {
                Ok(t) => s.tick_from(only, i) == t.tick_from(only, i + 1),
                Err(e) => s.tick_from(only, i) == Err::<SimView, _>(e),
            }
            &&& i < s.nodes.len() && !(s.nodes[i].alive && runs) ==> s.tick_from(only, i)
                == s.tick_from(only, i + 1)
        }),
{
}

/// A step delivers what is due, in order, and leaves on its way what is not; then
/// it ticks the nodes; and then it is 10 ms later.
pub proof fn law_a_step_delivers_and_ticks(s: SimView, only: Option<Seq<NodeId>>, n: int)
    requires
        forall|i: int, j: int| 0 <= i < j < s.net.len() ==> s.net[i].at <= s.net[j].at,
        0 <= n <= s.net.len(),
        forall|i: int| 0 <= i < s.net.len() ==> ((#[trigger] s.net[i]).at <= s.now_ms <==> i < n),
    ensures
        match (SimView { net: s.net.skip(n), ..s }).deliver_from(s.net.take(n), 0) {
            Err(e) => s.step(only) == Err::<SimView, _>(e),
            Ok(m) => match m.tick_from(only, 0) {
                Err(e) => s.step(only) == Err::<SimView, _>(e),
                Ok(t) => s.step(only) == Ok::<_, Failure>(
                    SimView { now_ms: (t.now_ms + 10) as u64, ..t },
                ),
            },
        },
{
    law_due_messages_come_first(s.net, s.now_ms);
    let d = due(s.net, s.now_ms);
    if d < n {
        assert(s.net[d].at <= s.now_ms);
    }
    if n < d {
        assert(s.net[n].at <= s.now_ms);
    }
}

/// Steps are taken one after the other, up to the first that is reported; and so
/// many ticks are taken as it takes to move the clock on by that much, no more.
pub proof fn law_steps_are_taken_one_by_one(
    s: SimView,
    only: Option<Seq<NodeId>>,
    n: nat,
    ms: u64,
)
    ensures
        s.steps(only, 0) == Ok::<_, Failure>(s),
        s.steps(only, n + 1) == (match s.steps(only, n) {
            Ok(t) => t.step(only),
            Err(e) => Err(e),
        }),
        super::ticks(ms) * 10 >= ms,
        super::ticks(ms) * 10 < ms + 10,
{
}

/// What a node applies, as its history holds it.
pub open spec fn history(entries: Seq<Entry>) -> Seq<(LogIndex, Command)> {
    entries.map_values(|e: Entry| (e.index, e.command))
}

/// A reaction is the core's own step: the node becomes what its core makes of the
/// input, its history grows by what the step applies, and where disks are durable
/// its disk is left equal to its core. No other node changes.
#[verifier::spinoff_prover]
pub proof fn law_a_reaction_is_the_cores_step(s: SimView, id: NodeId, input: InputView)
    requires
        s.known(id),
        s.nodes.len() <= 255,
    ensures
        s.react(id, input) matches Ok(t) ==> {
            let (core, effects) = s.at(id).core.step(input);
            &&& t.nodes.len() == s.nodes.len()
            &&& t.at(id).core == core
            &&& t.at(id).alive == s.at(id).alive
            &&& t.at(id).applied == s.at(id).applied + history(applied_in(effects))
            &&& s.mode == PersistenceMode::Durable ==> t.at(id).disk_hard == core.hard
                && types::log_view(t.at(id).disk_log) == types::log_view(core.log)
            &&& s.mode == PersistenceMode::Negligent ==> t.at(id).disk_hard == s.at(id).disk_hard
                && t.at(id).disk_log == s.at(id).disk_log
            &&& forall|j: NodeId|
                j != id && #[trigger] s.known(j) ==> unmoved(s.at(j), t.at(j))
            &&& t.now_ms == s.now_ms
            &&& t.mode == s.mode
            &&& t.faults == s.faults
            &&& t.seed == s.seed
        },
        !s.at(id).core.accepts(input) ==> s.react(id, input) == Err::<SimView, _>(
            Failure { seed: s.seed, what: Violation::TermExhausted { node: id } },
        ),
{
    reveal(SimView::react);
    if let Ok(t) = s.react(id, input) {
        let n = s.at(id);
        let (core, effects) = n.core.step(input);
        let w = s.with(id, SimNodeView { core, ..n });
        let counted = SimView {
            stats: FaultStats {
                effect_batches_audited: w.stats.effect_batches_audited.saturating_add(1),
                ..w.stats
            },
            ..w
        };
        reveal(SimView::execute_batch);
        lemma_executes(counted, id, effects, 0);
        assert(effects.skip(0) =~= effects);
        let m = w.execute_batch(id, effects)->Ok_0;
        lemma_checked_bodies(m);
        assert(m.check() == Ok::<_, Failure>(t));
        assert(unmoved(m.nodes[id - 1], t.nodes[id - 1]));
        assert forall|j: NodeId| j != id && #[trigger] s.known(j) implies unmoved(
            s.at(j),
            t.at(j),
        ) by {
            assert(m.nodes[j - 1] == counted.nodes[j - 1]);
            assert(unmoved(m.nodes[j - 1], t.nodes[j - 1]));
        }
    }
}

/// The node is the same but for what the checks remember of it.
pub open spec fn unmoved(a: SimNodeView, b: SimNodeView) -> bool {
    &&& a.core == b.core
    &&& a.alive == b.alive
    &&& a.disk_hard == b.disk_hard
    &&& a.disk_log == b.disk_log
    &&& a.applied == b.applied
    &&& a.boot_count == b.boot_count
}

/// A check changes nothing but what it remembers.
proof fn lemma_checked_bodies(s: SimView)
    requires
        s.nodes.len() <= 255,
    ensures
        s.check() matches Ok(t) ==> {
            &&& t.nodes.len() == s.nodes.len()
            &&& forall|j: int|
                0 <= j < s.nodes.len() ==> unmoved(s.nodes[j], #[trigger] t.nodes[j])
            &&& t == (SimView {
                nodes: t.nodes,
                leaders: t.leaders,
                committed: t.committed,
                ..s
            })
        },
{
    lemma_scanned_bodies(s, nothing(), 0);
    if let Ok((m, acc)) = s.scan_from(0, nothing()) {
        reveal(SimView::check_found);
        reveal(SimView::check_registered);
        if let Ok(committed) = super::model::all_committed(m.committed, m.seed, acc.committed) {
            let r = SimView { committed, ..m };
            lemma_leaders_only(r, acc.leaders, 0);
        }
    }
}

proof fn lemma_leaders_only(s: SimView, new: Seq<(NodeId, crate::types::Term)>, i: int)
    requires
        0 <= i,
    ensures
        s.leaders_from(new, i) matches Ok(t) ==> t == (SimView { leaders: t.leaders, ..s }),
    decreases new.len() - i,
{
    if i < new.len() {
        let (id, term) = new[i];
        if let Ok(leaders) = crate::invariants::with_leader(s.leaders, s.seed, term, id) {
            lemma_leaders_only(SimView { leaders, ..s }, new, i + 1);
        }
    }
}

proof fn lemma_scanned_bodies(s: SimView, acc: ScanView, i: int)
    requires
        0 <= i,
    ensures
        s.scan_from(i, acc) matches Ok((t, f)) ==> {
            &&& t == (SimView { nodes: t.nodes, ..s })
            &&& t.nodes.len() == s.nodes.len()
            &&& forall|j: int|
                0 <= j < s.nodes.len() ==> unmoved(s.nodes[j], #[trigger] t.nodes[j])
        },
    decreases s.nodes.len() - i,
{
    if i < s.nodes.len() {
        let n = s.nodes[i];
        let next = SimView { nodes: s.nodes.update(i, looked_at(n)), ..s };
        let f = super::model::found(acc, (i + 1) as u8, n);
        lemma_scanned_bodies(next, f, i + 1);
        if let Ok((t, g)) = next.scan_from(i + 1, f) {
            assert forall|j: int| 0 <= j < s.nodes.len() implies unmoved(
                s.nodes[j],
                #[trigger] t.nodes[j],
            ) by {
                assert(unmoved(next.nodes[j], t.nodes[j]));
            }
        }
    }
}

/// The effects from the `i`-th on, executed for a node.
proof fn lemma_executes(w: SimView, id: NodeId, effects: Seq<EffectView>, i: int)
    requires
        w.known(id),
        0 <= i <= effects.len(),
    ensures
        w.execute_from(id, effects, i) matches Ok(t) ==> {
            &&& t.nodes.len() == w.nodes.len()
            &&& t.now_ms == w.now_ms && t.mode == w.mode && t.faults == w.faults && t.seed == w.seed
            &&& forall|j: int|
                0 <= j < w.nodes.len() && j != id - 1 ==> #[trigger] t.nodes[j] == w.nodes[j]
            &&& t.at(id).core == w.at(id).core
            &&& t.at(id).alive == w.at(id).alive
            &&& t.at(id).boot_count == w.at(id).boot_count
            &&& t.at(id).applied == w.at(id).applied + history(applied_in(effects.skip(i)))
            &&& w.mode == PersistenceMode::Durable ==> t.at(id).disk_hard == w.at(id).core.hard
                && types::log_view(t.at(id).disk_log) == types::log_view(w.at(id).core.log)
            &&& w.mode == PersistenceMode::Negligent ==> t.at(id).disk_hard == w.at(id).disk_hard
                && t.at(id).disk_log == w.at(id).disk_log
        },
    decreases effects.len() - i,
{
    let rest = effects.skip(i);
    if i < effects.len() {
        lemma_execute_one(w, id, effects[i]);
        if let Ok(m) = w.execute(id, effects[i]) {
            lemma_executes(m, id, effects, i + 1);
            let first = seq![effects[i]];
            assert(rest =~= first + effects.skip(i + 1));
            crate::laws::lemma_applied_in_both(first, effects.skip(i + 1));
            lemma_one_applied(effects[i]);
            if let Ok(t) = m.execute_from(id, effects, i + 1) {
                assert forall|j: int| 0 <= j < w.nodes.len() && j != id - 1 implies #[trigger]
                    t.nodes[j] == w.nodes[j] by {
                    assert(t.nodes[j] == m.nodes[j]);
                }
                let a = applied_in(first);
                let b = applied_in(effects.skip(i + 1));
                assert(w.at(id).applied + history(a + b) =~= (w.at(id).applied + history(a))
                    + history(b));
            }
        }
    } else {
        assert(rest =~= Seq::empty());
        assert(w.at(id).applied + history(applied_in(rest)) =~= w.at(id).applied);
    }
}

proof fn lemma_one_applied(effect: EffectView)
    ensures
        applied_in(seq![effect]) == (match effect {
            EffectView::Apply(e) => seq![e],
            _ => Seq::empty(),
        }),
{
    reveal_with_fuel(applied_in, 2);
    assert(seq![effect].drop_last() =~= Seq::empty());
    assert(applied_in(seq![effect]) =~= (match effect {
        EffectView::Apply(e) => seq![e],
        _ => Seq::empty(),
    }));
}

proof fn lemma_execute_one(w: SimView, id: NodeId, effect: EffectView)
    requires
        w.known(id),
    ensures
        w.execute(id, effect) matches Ok(t) ==> {
            &&& t.nodes.len() == w.nodes.len()
            &&& t.now_ms == w.now_ms && t.mode == w.mode && t.faults == w.faults && t.seed == w.seed
            &&& forall|j: int|
                0 <= j < w.nodes.len() && j != id - 1 ==> #[trigger] t.nodes[j] == w.nodes[j]
            &&& t.at(id).core == w.at(id).core
            &&& t.at(id).alive == w.at(id).alive
            &&& t.at(id).boot_count == w.at(id).boot_count
            &&& t.at(id).applied == w.at(id).applied + history(applied_in(seq![effect]))
            &&& w.mode == PersistenceMode::Negligent ==> t.at(id).disk_hard == w.at(id).disk_hard
                && t.at(id).disk_log == w.at(id).disk_log
        },
{
    reveal(SimView::execute);
    reveal(SimView::enqueue);
    lemma_one_applied(effect);
    if let Ok(t) = w.execute(id, effect) {
        match effect {
            EffectView::Apply(e) => {
                assert(t.at(id).applied =~= w.at(id).applied + history(seq![e]));
            },
            _ => {
                assert(t.at(id).applied =~= w.at(id).applied + history(Seq::empty()));
            },
        }
    }
}

/// A write goes to the node's disk as it is asked for: entries from the cut on are
/// gone, and the new ones stand at the end. A disk that is not written to, because
/// it is negligent, stays as it was.
pub proof fn law_a_write_goes_to_the_disk(
    s: SimView,
    id: NodeId,
    hard: HardState,
    from: Option<LogIndex>,
    entries: Seq<Entry>,
)
    requires
        s.known(id),
        types::contiguous(s.at(id).disk_log),
        from matches Some(k) ==> k >= 1,
    ensures
        ({
            let n = s.at(id);
            let len = n.disk_log.len();
            let stays = if from is Some && from->0 <= len {
                n.disk_log.take(from->0 - 1)
            } else {
                n.disk_log
            };
            let durable = s.mode == PersistenceMode::Durable;
            &&& s.execute(id, EffectView::PersistHardState(hard)) == Ok::<_, Failure>(
                if durable {
                    s.with(id, SimNodeView { disk_hard: hard, ..n })
                } else {
                    s
                },
            )
            &&& s.execute(
                id,
                EffectView::PersistLogEntries { truncate_from: from, entries },
            ) == Ok::<_, Failure>(
                if durable {
                    s.with(id, SimNodeView { disk_log: stays + entries, ..n })
                } else {
                    s
                },
            )
        }),
{
    reveal(SimView::execute);
    let log = s.at(id).disk_log;
    if let Some(k) = from {
        crate::storage::law_survivors_are_the_prefix(log, k);
    }
}

/// Whatever others can see waits for the disk: a send, an application, an answer
/// to a proposal and a role other than a follower's are reported where the disk is
/// not equal to the core, and a follower's role where its term is not on disk; a
/// negligent disk is not asked.
pub proof fn law_what_is_seen_waits_for_the_disk(s: SimView, id: NodeId)
    requires
        s.known(id),
        s.mode == PersistenceMode::Durable,
    ensures
        ({
            let n = s.at(id);
            &&& n.disk_hard != n.core.hard ==> s.fully_durable(id) == Err::<SimView, _>(
                Failure { seed: s.seed, what: Violation::HardStateNotDurable { node: id } },
            )
            &&& n.disk_hard == n.core.hard && types::log_view(n.disk_log) != types::log_view(
                n.core.log,
            ) ==> s.fully_durable(id) == Err::<SimView, _>(
                Failure { seed: s.seed, what: Violation::LogNotDurable { node: id } },
            )
            &&& n.disk_hard == n.core.hard && types::log_view(n.disk_log) == types::log_view(
                n.core.log,
            ) ==> s.fully_durable(id) is Ok
            &&& n.disk_hard.current_term != n.core.hard.current_term <==> s.term_durable(id) is Err
            &&& forall|effect: EffectView|
                s.fully_durable(id) is Err && (effect is Send || effect is Apply
                    || effect is ProposeAccepted || effect is ProposeRejected) ==> #[trigger]
                    s.execute(id, effect) is Err
            &&& forall|role_name: Seq<char>, term: u64|
                s.fully_durable(id) is Err && role_name != "Follower"@ ==> #[trigger] s.execute(
                    id,
                    EffectView::RoleChanged { role_name, term },
                ) is Err
            &&& forall|term: u64|
                s.term_durable(id) is Err ==> #[trigger] s.execute(
                    id,
                    EffectView::RoleChanged { role_name: "Follower"@, term },
                ) is Err
        }),
{
    reveal(SimView::execute);
}

/// A batch is late just where it writes after it has sent.
pub proof fn law_a_late_write(batch: Seq<EffectView>, j: int)
    requires
        0 <= j < batch.len(),
    ensures
        late_persist(batch, j) <==> (batch[j] is PersistHardState || batch[j] is PersistLogEntries)
            && exists|i: int| 0 <= i < j && #[trigger] batch[i] is Send,
        forall|s: SimView, id: NodeId|
            late_persist(batch, j) ==> #[trigger] s.execute_batch(id, batch) == Err::<SimView, _>(
                Failure { seed: s.seed, what: Violation::PersistAfterSend { node: id } },
            ),
{
    reveal(SimView::execute_batch);
}

/// A batch passes just where nothing is put on disk behind anything that is sent.
pub proof fn law_a_batch_writes_before_it_sends(batch: Seq<EffectView>)
    ensures
        super::writes_come_first(batch) <==> forall|i: int, j: int|
            0 <= i < j < batch.len() && #[trigger] batch[i] is Send ==> !(#[trigger] batch[j] is
                PersistHardState) && !(batch[j] is PersistLogEntries),
{
    assert forall|i: int, j: int|
        super::writes_come_first(batch) && 0 <= i < j < batch.len() && #[trigger] batch[i] is Send
        implies !(#[trigger] batch[j] is PersistHardState) && !(batch[j] is PersistLogEntries) by {
        assert(!late_persist(batch, j));
    }
}

/// A list of nodes and the cells of a partition are seen as they are given.
pub proof fn law_nodes_are_seen_as_they_are_listed(
    ids: &[NodeId],
    partitions: Seq<std::collections::BTreeSet<NodeId>>,
    i: int,
)
    requires
        0 <= i < partitions.len(),
    ensures
        super::listed(Some(ids)) == Some(ids@),
        super::listed(None) is None,
        super::cells(partitions).len() == partitions.len(),
        super::cells(partitions)[i] == partitions[i]@,
{
}

/// A history is at fault just where it does not run 1, 2, 3 and so on with the
/// log's commands.
pub proof fn law_a_sound_history(n: SimNodeView, id: NodeId)
    requires
        n.applied.len() < u64::MAX,
    ensures
        history_fault(n, id, 0) is None <==> forall|i: int|
            0 <= i < n.applied.len() ==> (#[trigger] n.applied[i]).0 == i + 1 && n.applied[i].1@
                == n.core.log[i].command@,
{
    lemma_history(n, id, 0);
}

proof fn lemma_history(n: SimNodeView, id: NodeId, k: int)
    requires
        0 <= k,
    ensures
        history_fault(n, id, k) is None <==> forall|i: int|
            k <= i < n.applied.len() ==> (#[trigger] n.applied[i]).0 == i + 1 && n.applied[i].1@
                == n.core.log[i].command@,
    decreases n.applied.len() - k,
{
    if k < n.applied.len() {
        lemma_history(n, id, k + 1);
        assert(n.applied[k] == n.applied[k]);
    }
}

/// A crash takes everything from a node but its disk, and from the network the
/// messages that were on their way to it and no others. A node that is down does
/// not crash.
pub proof fn law_a_crash_leaves_the_disk(s: SimView, id: NodeId)
    requires
        s.known(id),
        s.nodes.len() <= 255,
    ensures
        !s.at(id).alive ==> s.crash(id) == Ok::<_, Failure>((s, false)),
        s.at(id).alive ==> (s.crash(id) matches Ok((t, was_alive)) ==> {
            &&& was_alive
            &&& t.nodes.len() == s.nodes.len()
            &&& !t.at(id).alive
            &&& t.at(id).disk_hard == s.at(id).disk_hard
            &&& t.at(id).disk_log == s.at(id).disk_log
            &&& t.at(id).applied.len() == 0
            &&& t.at(id).core.log.len() == 0
            &&& t.at(id).core.commit_index == 0
            &&& t.at(id).core.last_applied == 0
            &&& t.at(id).core.role is Follower
            &&& t.at(id).core.id == id
            &&& t.at(id).core.peers == s.at(id).core.peers
            &&& t.net == s.net.filter(|e: EnvelopeView| e.to != id)
            &&& t.stats.crashes == s.stats.crashes.saturating_add(1)
            &&& forall|j: NodeId|
                j != id && #[trigger] s.known(j) ==> unmoved(s.at(j), t.at(j))
            &&& t.now_ms == s.now_ms
            &&& t.rng == s.rng
            &&& t.faults == s.faults
        }),
{
    let n = s.at(id);
    if n.alive {
        let net = s.net.filter(|e: EnvelopeView| e.to != id);
        let down = SimNodeView {
            core: NodeView::booted(
                id,
                n.core.peers,
                seed_of(s.seed, id, n.boot_count),
                HardState { current_term: 0, voted_for: None },
                Seq::empty(),
            ),
            alive: false,
            applied: Seq::empty(),
            ..n
        };
        let crashed = SimView {
            net,
            stats: FaultStats {
                crashes: s.stats.crashes.saturating_add(1),
                messages_dropped_to_crashed_nodes:
                    s.stats.messages_dropped_to_crashed_nodes.saturating_add(
                    (s.net.len() - net.len()) as u64,
                ),
                ..s.stats
            },
            ..s
        }.with(id, down);
        lemma_checked_bodies(crashed);
        if let Ok(t) = crashed.check() {
            assert(unmoved(crashed.nodes[id - 1], t.nodes[id - 1]));
            assert forall|j: NodeId| j != id && #[trigger] s.known(j) implies unmoved(
                s.at(j),
                t.at(j),
            ) by {
                assert(unmoved(crashed.nodes[j - 1], t.nodes[j - 1]));
            }
        }
    }
}

/// A node comes back with what its disk holds and nothing else, and is ticked at
/// once. One that is up does not, and one whose disk cannot be booted from is
/// reported.
pub proof fn law_a_restart_boots_from_the_disk(s: SimView, id: NodeId)
    requires
        s.known(id),
        s.nodes.len() <= 255,
    ensures
        s.at(id).alive ==> s.restart(id) == Ok::<_, Failure>((s, false)),
        !s.at(id).alive ==> (s.restart(id) matches Ok((t, came_back)) ==> {
            let disk = s.at(id);
            let boot = disk.boot_count.wrapping_add(1);
            &&& came_back
            &&& t.at(id).alive
            &&& t.at(id).boot_count == boot
            &&& t.at(id).core == NodeView::booted(
                id,
                disk.core.peers,
                seed_of(s.seed, id, boot),
                disk.disk_hard,
                disk.disk_log,
            ).step(InputView::Tick { now_ms: s.now_ms }).0
            &&& t.at(id).core.log == disk.disk_log
            &&& t.at(id).core.hard == disk.disk_hard
            &&& t.stats.restarts == s.stats.restarts.saturating_add(1)
            &&& forall|j: NodeId|
                j != id && #[trigger] s.known(j) ==> unmoved(s.at(j), t.at(j))
        }),
        !s.at(id).alive && (exists|i: int|
            0 <= i < s.at(id).disk_log.len() && {
                ||| (#[trigger] s.at(id).disk_log[i]).index != i + 1
                ||| s.at(id).disk_log[i].term > s.at(id).disk_hard.current_term
                ||| i > 0 && s.at(id).disk_log[i].term < s.at(id).disk_log[i - 1].term
            }) ==> s.restart(id) == Err::<(SimView, bool), _>(
            Failure { seed: s.seed, what: Violation::RestoreRefused { node: id } },
        ),
{
    let n = s.at(id);
    if !n.alive {
        let boot_count = n.boot_count.wrapping_add(1);
        let up = SimNodeView {
            core: NodeView::booted(
                id,
                n.core.peers,
                seed_of(s.seed, id, boot_count),
                n.disk_hard,
                n.disk_log,
            ),
            alive: true,
            applied: Seq::empty(),
            boot_count,
            ..n
        };
        let restarted = SimView {
            stats: FaultStats { restarts: s.stats.restarts.saturating_add(1), ..s.stats },
            ..s
        }.with(id, up);
        let input = InputView::Tick { now_ms: s.now_ms };
        law_a_reaction_is_the_cores_step(restarted, id, input);
        lemma_reaction_stats(restarted, id, input);
        assert(restarted.at(id) == up);
        if let Ok(t) = restarted.react(id, input) {
            assert forall|j: NodeId| j != id && #[trigger] s.known(j) implies unmoved(
                s.at(j),
                t.at(j),
            ) by {
                assert(restarted.known(j));
                assert(restarted.at(j) == s.at(j));
            }
        }
        if exists|i: int|
            0 <= i < n.disk_log.len() && {
                ||| (#[trigger] n.disk_log[i]).index != i + 1
                ||| n.disk_log[i].term > n.disk_hard.current_term
                ||| i > 0 && n.disk_log[i].term < n.disk_log[i - 1].term
            } {
            let i = choose|i: int|
                0 <= i < n.disk_log.len() && {
                    ||| (#[trigger] n.disk_log[i]).index != i + 1
                    ||| n.disk_log[i].term > n.disk_hard.current_term
                    ||| i > 0 && n.disk_log[i].term < n.disk_log[i - 1].term
                };
            assert(!super::model::bootable(n.disk_hard, n.disk_log));
        }
    }
}

/// A reaction neither counts restarts nor boots anyone.
proof fn lemma_reaction_stats(s: SimView, id: NodeId, input: InputView)
    requires
        s.known(id),
        s.nodes.len() <= 255,
    ensures
        s.react(id, input) matches Ok(t) ==> t.stats.restarts == s.stats.restarts && t.at(
            id,
        ).boot_count == s.at(id).boot_count,
{
    reveal(SimView::react);
    reveal(SimView::execute_batch);
    if let Ok(t) = s.react(id, input) {
        let n = s.at(id);
        let (core, effects) = n.core.step(input);
        let w = s.with(id, SimNodeView { core, ..n });
        let counted = SimView {
            stats: FaultStats {
                effect_batches_audited: w.stats.effect_batches_audited.saturating_add(1),
                ..w.stats
            },
            ..w
        };
        lemma_executes(counted, id, effects, 0);
        lemma_other_stats(counted, id, effects, 0);
        let m = w.execute_batch(id, effects)->Ok_0;
        lemma_checked_bodies(m);
        assert(unmoved(m.nodes[id - 1], t.nodes[id - 1]));
    }
}

/// A command or a message that is handed to a node is taken by it if it is alive,
/// and the effects of its step are what comes back; one that is down does nothing.
pub proof fn law_a_node_that_is_down_does_nothing(
    s: SimView,
    id: NodeId,
    command: Command,
    from: NodeId,
    msg: MessageView,
)
    requires
        s.known(id),
    ensures
        ({
            let proposal = InputView::ClientPropose { command };
            let heard = InputView::Message { from, msg };
            &&& !s.at(id).alive ==> s.propose(id, command) == Ok::<_, Failure>(
                (s, Seq::<EffectView>::empty()),
            )
            &&& s.at(id).alive ==> s.propose(id, command) == match s.react(id, proposal) {
                Ok(t) => Ok((t, s.at(id).core.step(proposal).1)),
                Err(e) => Err(e),
            }
            &&& !s.at(id).alive ==> s.deliver_now(from, id, msg) == Ok::<_, Failure>(
                (
                    (SimView {
                        stats: FaultStats {
                            messages_attempted: s.stats.messages_attempted.saturating_add(1),
                            messages_dropped_to_crashed_nodes:
                                s.stats.messages_dropped_to_crashed_nodes.saturating_add(1),
                            ..s.stats
                        },
                        ..s
                    }),
                    Seq::<EffectView>::empty(),
                ),
            )
            &&& s.at(id).alive ==> s.deliver_now(from, id, msg) == match (SimView {
                stats: FaultStats {
                    messages_attempted: s.stats.messages_attempted.saturating_add(1),
                    messages_delivered: s.stats.messages_delivered.saturating_add(1),
                    ..s.stats
                },
                ..s
            }).react(id, heard) {
                Ok(t) => Ok((t, s.at(id).core.step(heard).1)),
                Err(e) => Err(e),
            }
        }),
{
}

/// A new world: so many nodes, all alive with empty disks, each with all the others
/// as its peers, in order, and nothing on its way.
pub proof fn law_a_new_world(n_nodes: u8, seed: u64, i: int)
    requires
        0 <= i < n_nodes,
    ensures
        ({
            let s = SimView::new(n_nodes, seed);
            let n = s.nodes[i];
            &&& s.nodes.len() == n_nodes
            &&& s.seed == seed && s.now_ms == 0 && s.net.len() == 0
            &&& s.mode == PersistenceMode::Durable
            &&& s.faults.drop_threshold == 0 && s.faults.partitions.len() == 0
            &&& s.faults.delay_min_ms == 1 && s.faults.delay_max_ms == 20
            &&& n.alive && n.disk_log.len() == 0 && n.applied.len() == 0
            &&& n.disk_hard == (HardState { current_term: 0, voted_for: None })
            &&& n.core.id == i + 1 && n.core.hard == n.disk_hard && n.core.log.len() == 0
            &&& n.core.role is Follower
            &&& n.core.peers.len() == n_nodes - 1
            &&& forall|p: NodeId| #[trigger]
                n.core.peers.contains(p) <==> 1 <= p <= n_nodes && p != i + 1
            &&& forall|a: int, b: int|
                0 <= a < b < n.core.peers.len() ==> n.core.peers[a] < n.core.peers[b]
        }),
{
    let s = SimView::new(n_nodes, seed);
    let n = s.nodes[i];
    assert(n == new_node(n_nodes, seed, i));
    let id = (i + 1) as u8;
    let peers = peers_of(n_nodes, id);
    assert(n.core.peers == peers);
    assert forall|p: NodeId| #[trigger] peers.contains(p) <==> 1 <= p <= n_nodes && p != id by {
        if 1 <= p <= n_nodes && p != id {
            let at = if p < id {
                p - 1
            } else {
                p - 2
            };
            assert(peers[at] == p);
        }
    }
}

/// The leader is the one that leads the newest term among the living.
pub proof fn law_the_leader_leads_the_newest_term(s: SimView, id: NodeId, other: NodeId)
    requires
        s.is_the_leader(id),
        s.known(other),
        s.at(other).alive,
        s.at(other).core.role is Leader,
    ensures
        s.known(id),
        s.at(id).alive,
        s.at(id).core.role is Leader,
        s.at(other).core.hard.current_term <= s.at(id).core.hard.current_term,
{
    assert(super::model::leads(s.at(other)) is Some);
}

/// A send goes to the network, an application to the history, in order; nothing else
/// that is carried out moves either, and each is counted as checked.
pub proof fn law_effects_are_carried_out(
    s: SimView,
    id: NodeId,
    to: NodeId,
    msg: MessageView,
    entry: Entry,
)
    requires
        s.known(id),
        s.mode == PersistenceMode::Durable,
        s.fully_durable(id) is Ok,
    ensures
        ({
            let n = s.at(id);
            let counted = SimView {
                stats: FaultStats {
                    external_effects_checked: s.stats.external_effects_checked.saturating_add(1),
                    ..s.stats
                },
                ..s
            };
            &&& s.execute(id, EffectView::Send { to, msg }) == counted.enqueue(id, to, msg)
            &&& entry.index == n.applied.len() + 1 ==> s.execute(id, EffectView::Apply(entry))
                == Ok::<_, Failure>(
                counted.with(
                    id,
                    SimNodeView {
                        applied: n.applied.push((entry.index, entry.command)),
                        ..n
                    },
                ),
            )
            &&& entry.index != n.applied.len() + 1 ==> s.execute(id, EffectView::Apply(entry)) is Err
            &&& s.execute(id, EffectView::ProposeAccepted { index: entry.index }) == Ok::<
                _,
                Failure,
            >(counted)
            &&& s.execute(id, EffectView::ProposeRejected { leader_hint: Some(to) }) == Ok::<
                _,
                Failure,
            >(counted)
        }),
{
    reveal(SimView::execute);
}

/// After a check that passes, the checks remember each living node's term, and how
/// far a leader's commits are registered, which never shrinks. Who leads is whoever
/// is alive and in a leader's role, by its term.
pub proof fn law_a_passed_check_remembers(n: SimNodeView)
    ensures
        ({
            let t = looked_at(n);
            &&& n.alive ==> t.last_term_seen == n.core.hard.current_term
            &&& !n.alive ==> t.last_term_seen == n.last_term_seen
            &&& t.registered_commit >= n.registered_commit
            &&& n.alive && n.core.role is Leader ==> t.registered_commit >= n.core.commit_index
            &&& t.registered_commit == n.registered_commit || (n.alive && n.core.role is Leader
                && t.registered_commit == n.core.commit_index)
            &&& unmoved(n, t)
            &&& super::model::leads(n) is Some <==> n.alive && n.core.role is Leader
            &&& super::model::leads(n) matches Some(term) ==> term == n.core.hard.current_term
        }),
{
}

/// Copies of an entry are counted disk by disk, and it is on too few where they are
/// no more than half of all.
pub proof fn law_copies_are_counted(s: SimView, n: int, index: LogIndex, entry: Entry)
    requires
        0 <= n < s.nodes.len(),
        index >= 1,
    ensures
        super::model::copies(s.nodes, 0, index, entry) == 0,
        super::model::copies(s.nodes, n + 1, index, entry) == super::model::copies(
            s.nodes,
            n,
            index,
            entry,
        ) + (if index <= s.nodes[n].disk_log.len() && s.nodes[n].disk_log[index - 1]@ == entry@ {
            1int
        } else {
            0
        }),
        s.underheld(index) <==> s.committed.contains_key(index) && 2 * super::model::copies(
            s.nodes,
            s.nodes.len() as int,
            index,
            s.committed[index],
        ) <= s.nodes.len(),
{
}

/// Once a partition is imposed, nodes of different cells are cut off from each
/// other and nodes of one cell are not, whatever was imposed before; once it is
/// healed nobody is cut off. Nodes, disks, clock and messages on their way stay as
/// they are, and so do the other faults.
pub proof fn law_a_partition_holds_until_it_is_healed(
    s: SimView,
    cells: Seq<Set<NodeId>>,
    t: SimView,
    u: SimView,
    a: NodeId,
    b: NodeId,
    i: int,
)
    requires
        super::split(s, cells, t),
        super::healed(t, u),
        0 <= i < cells.len(),
        cells[i].contains(a),
        forall|c: int| 0 <= c < cells.len() && c != i ==> !(#[trigger] cells[c]).contains(a),
        cells[i].contains(b) ==> forall|c: int|
            0 <= c < cells.len() && c != i ==> !(#[trigger] cells[c]).contains(b),
    ensures
        t.partitioned(a, b) <==> !cells[i].contains(b),
        !u.partitioned(a, b),
        t.stats.partitions_imposed == s.stats.partitions_imposed.saturating_add(1),
        u.stats.partitions_healed == s.stats.partitions_healed.saturating_add(1),
        t.nodes == s.nodes && t.net == s.net && t.now_ms == s.now_ms && t.mode == s.mode,
        u.nodes == s.nodes && u.net == s.net && u.now_ms == s.now_ms && u.mode == s.mode,
        t.seed == s.seed && t.rng == s.rng && t.committed == s.committed,
        u.seed == s.seed && u.rng == s.rng && u.committed == s.committed,
        t.faults.drop_threshold == s.faults.drop_threshold,
        t.faults.delay_min_ms == s.faults.delay_min_ms,
        t.faults.delay_max_ms == s.faults.delay_max_ms,
        u.faults.drop_threshold == s.faults.drop_threshold,
        u.faults.delay_min_ms == s.faults.delay_min_ms,
        u.faults.delay_max_ms == s.faults.delay_max_ms,
{
    law_a_partition_separates_cells(t, a, b);
    law_a_partition_separates_cells(u, a, b);
}

/// What a client asks of a living leader is put at the end of that node's log, with
/// the key and the value that the client gave; anyone else refuses it, and a node
/// that is down does nothing.
pub proof fn law_a_clients_wish_is_written(
    s: SimView,
    id: NodeId,
    key: Seq<char>,
    value: Seq<char>,
    out: Result<Vec<Effect>, Failure>,
    t: SimView,
    put: bool,
)
    requires
        s.known(id),
        s.nodes.len() <= 255,
        s.at(id).core.wf(),
        s.at(id).core.log.len() < u64::MAX,
        out is Ok,
        if put {
            super::put_asked(s, id, key, value, out, t)
        } else {
            super::delete_asked(s, id, key, out, t)
        },
    ensures
        ({
            let before = s.at(id).core;
            let after = t.at(id).core;
            let effects = crate::message::effects_view(out->Ok_0@);
            if !s.at(id).alive {
                t == s && effects.len() == 0
            } else if before.role is Leader {
                &&& after.log.len() == before.log.len() + 1
                &&& after.log.take(before.log.len() as int) == before.log
                &&& after.log.last().index == after.log.len()
                &&& after.log.last().term == before.hard.current_term
                &&& after.log.last().command@ == if put {
                    types::CommandView::Put { key, value }
                } else {
                    types::CommandView::Delete { key }
                }
                &&& effects.len() == 2
                &&& effects[1] == (EffectView::ProposeAccepted { index: after.log.last().index })
            } else {
                &&& after == before
                &&& effects == seq![
                    EffectView::ProposeRejected { leader_hint: before.leader_hint },
                ]
            }
        }),
{
    let wish = if put {
        types::CommandView::Put { key, value }
    } else {
        types::CommandView::Delete { key }
    };
    let command = choose|command: Command|
        command@ == wish && #[trigger] super::proposed(s, id, command, out, t);
    assert(command@ == wish && super::proposed(s, id, command, out, t));
    crate::promises::law_a_proposal(s.at(id).core, command);
    if s.at(id).alive {
        law_a_reaction_is_the_cores_step(s, id, InputView::ClientPropose { command });
        let before = s.at(id).core;
        if before.role is Leader {
            let entry = Entry {
                index: (before.log.len() + 1) as u64,
                term: before.hard.current_term,
                command,
            };
            assert(before.log.push(entry).take(before.log.len() as int) =~= before.log);
        }
    }
}

/// Nothing is counted at first.
pub proof fn law_counters_start_at_zero()
    ensures
        ({
            let c = super::no_stats();
            &&& c.messages_attempted == 0 && c.messages_delivered == 0
            &&& c.messages_dropped_randomly == 0 && c.messages_dropped_by_partition == 0
            &&& c.messages_dropped_to_crashed_nodes == 0
            &&& c.partitions_imposed == 0 && c.partitions_healed == 0
            &&& c.crashes == 0 && c.restarts == 0
            &&& c.effect_batches_audited == 0 && c.external_effects_checked == 0
        }),
{
}

/// What is waited for is asked of the world before every step that is taken: a run
/// of so many steps leads through worlds of which it did not hold, to the last.
pub proof fn law_a_run_waits<F: Fn(&super::Sim) -> bool>(
    s: SimView,
    n: nat,
    t: SimView,
    pred: F,
    k: nat,
)
    requires
        super::ran(s, n, t, pred),
        k < n,
    ensures
        s.steps(None, n) == Ok::<_, Failure>(t),
        exists|here: super::Sim| #[trigger]
            here@ == (s.steps(None, k)->Ok_0) && pred.ensures((&here,), false),
{
    assert(super::missed(s, k, pred));
}

/// The entry at the place has the index of that place, and a term that is no lower
/// than the one before it and not beyond the hard state's.
pub open spec fn sound_at(hard: HardState, log: Seq<Entry>, i: int) -> bool {
    &&& log[i].index == i + 1
    &&& log[i].term <= hard.current_term
    &&& i > 0 ==> log[i - 1].term <= log[i].term
}

/// A disk can be booted from just where every entry of its log is sound in its
/// place.
pub proof fn law_a_sound_disk_can_be_booted_from(hard: HardState, log: Seq<Entry>)
    ensures
        super::model::bootable(hard, log) <==> forall|i: int|
            0 <= i < log.len() ==> #[trigger] sound_at(hard, log, i),
{
    if forall|i: int| 0 <= i < log.len() ==> #[trigger] sound_at(hard, log, i) {
        assert forall|i: int| 0 <= i < log.len() implies (#[trigger] log[i]).index == i + 1 by {
            assert(sound_at(hard, log, i));
        }
        assert forall|a: int, b: int| 0 <= a <= b < log.len() implies log[a].term
            <= log[b].term by {
            lemma_sound_terms(hard, log, a, b);
        }
        if log.len() > 0 {
            assert(sound_at(hard, log, log.len() - 1));
        }
    }
    if super::model::bootable(hard, log) {
        assert forall|i: int| 0 <= i < log.len() implies #[trigger] sound_at(hard, log, i) by {
            let last = log.len() - 1;
            assert(log[i].term <= log[last].term);
            if i > 0 {
                assert(log[i - 1].term <= log[i].term);
            }
        }
    }
}

proof fn lemma_sound_terms(hard: HardState, log: Seq<Entry>, a: int, b: int)
    requires
        0 <= a <= b < log.len(),
        forall|i: int| 0 <= i < log.len() ==> #[trigger] sound_at(hard, log, i),
    ensures
        log[a].term <= log[b].term,
    decreases b - a,
{
    if a < b {
        lemma_sound_terms(hard, log, a, b - 1);
        assert(sound_at(hard, log, b));
    }
}

/// Runs of different seeds give a node different seeds: the run's seed is mixed in
/// whole.
pub proof fn law_seeds_tell_runs_apart(a: u64, b: u64, id: NodeId, boot: u64)
    ensures
        seed_of(a, id, boot) == seed_of(b, id, boot) <==> a == b,
        seed_of(a, id, boot) ^ seed_of(0, id, boot) == a,
{
    let x = (id as u64).wrapping_mul(super::NODE_SEED_MULT);
    let y = boot.wrapping_mul(super::BOOT_SEED_MULT);
    assert((a ^ x ^ y) == (b ^ x ^ y) <==> a == b) by (bit_vector);
    assert((a ^ x ^ y) ^ (0u64 ^ x ^ y) == a) by (bit_vector);
}

/// Each reaction is one audited batch, and nothing that it does counts as a
/// delivery, a crash, a restart or a partition.
pub proof fn law_a_reaction_is_one_batch(s: SimView, id: NodeId, input: InputView)
    requires
        s.known(id),
        s.nodes.len() <= 255,
    ensures
        s.react(id, input) matches Ok(t) ==> {
            &&& t.stats.effect_batches_audited == s.stats.effect_batches_audited.saturating_add(1)
            &&& t.stats.messages_delivered == s.stats.messages_delivered
            &&& t.stats.crashes == s.stats.crashes
            &&& t.stats.restarts == s.stats.restarts
            &&& t.stats.partitions_imposed == s.stats.partitions_imposed
            &&& t.stats.partitions_healed == s.stats.partitions_healed
        },
{
    reveal(SimView::react);
    reveal(SimView::execute_batch);
    if let Ok(t) = s.react(id, input) {
        let n = s.at(id);
        let (core, effects) = n.core.step(input);
        let w = s.with(id, SimNodeView { core, ..n });
        let counted = SimView {
            stats: FaultStats {
                effect_batches_audited: w.stats.effect_batches_audited.saturating_add(1),
                ..w.stats
            },
            ..w
        };
        lemma_executes(counted, id, effects, 0);
        lemma_other_stats(counted, id, effects, 0);
        let m = w.execute_batch(id, effects)->Ok_0;
        lemma_checked_bodies(m);
    }
}

proof fn lemma_other_stats(w: SimView, id: NodeId, effects: Seq<EffectView>, i: int)
    requires
        w.known(id),
        0 <= i,
    ensures
        w.execute_from(id, effects, i) matches Ok(t) ==> {
            &&& t.nodes.len() == w.nodes.len()
            &&& t.stats.effect_batches_audited == w.stats.effect_batches_audited
            &&& t.stats.messages_delivered == w.stats.messages_delivered
            &&& t.stats.crashes == w.stats.crashes
            &&& t.stats.restarts == w.stats.restarts
            &&& t.stats.partitions_imposed == w.stats.partitions_imposed
            &&& t.stats.partitions_healed == w.stats.partitions_healed
        },
    decreases effects.len() - i,
{
    if i < effects.len() {
        reveal(SimView::execute);
        reveal(SimView::enqueue);
        if let Ok(m) = w.execute(id, effects[i]) {
            lemma_other_stats(m, id, effects, i + 1);
        }
    }
}

} // verus!
