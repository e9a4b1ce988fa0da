//! Deterministic fault-injection simulator for the Raft core.
//!
//! The second, fake driver: it feeds the same inputs from a virtual clock and an
//! in-memory message bus, executes effects against in-memory models of disk and
//! network, and checks safety invariants after every single step. Nothing here
//! sleeps, ever; given the same seed, every run is identical.
//!
//! It models virtual time, network delay, loss and partitions, durable storage,
//! crash and restart, applied histories, and the Raft safety invariants. A
//! broken invariant ends a run: the call in which it breaks returns it, and the
//! world is not to be used any further.

pub mod batches;
pub mod checks;
pub mod model;
pub mod promises;
pub mod soundness;
pub mod verdict;

use std::collections::{BTreeMap, BTreeSet};

use vstd::prelude::*;

use crate::invariants::{
    check_applied_agreement, check_log_matching, check_log_structure, log_holds, CommittedRegistry,
    Failure, Invariants, Violation,
};
use crate::message;
use crate::message::{copy_effects, Effect, EffectView, Input, InputView, RaftMessage};
use crate::node::{NodeView, RaftNode, TICK_MS};
use crate::rng::Pcg32;
use crate::storage::survivors;
use crate::types;
use crate::types::{copy_entries, same_log, Command, Entry, HardState, LogIndex, NodeId, Term};

use model::{EnvelopeView, FaultView, SimNodeView, SimView};

verus! {

/// Multiplier for deriving per-node seeds from the master seed.
pub const NODE_SEED_MULT: u64 = 0x9E37_79B9_7F4A_7C15;

/// A separate odd mixer keeps each reboot deterministic without replaying the
/// exact same timeout sequence after every crash.
pub const BOOT_SEED_MULT: u64 = 0xD1B5_4A32_D192_ED03;

/// The threshold at which every message is dropped.
pub const DROP_ALL: u64 = 0x1_0000_0000;

fn node_seed(master: u64, id: NodeId, boot: u64) -> (seed: u64)
    ensures
        seed == model::seed_of(master, id, boot),
{
    master ^ (id as u64).wrapping_mul(NODE_SEED_MULT) ^ boot.wrapping_mul(BOOT_SEED_MULT)
}

#[derive(Clone, Copy, Debug, PartialEq, Eq, Structural)]
pub enum PersistenceMode {
    Durable,
    /// Negative control: emitted persistence effects are discarded.
    Negligent,
}

impl Default for PersistenceMode {
    fn default() -> (mode: Self)
        ensures
            mode == PersistenceMode::Durable,
    {
        PersistenceMode::Durable
    }
}

/// What the fault injection did so far.
#[derive(Clone, Copy, Debug, PartialEq, Eq)]
pub struct FaultStats {
    pub messages_attempted: u64,
    pub messages_delivered: u64,
    pub messages_dropped_randomly: u64,
    pub messages_dropped_by_partition: u64,
    pub messages_dropped_to_crashed_nodes: u64,
    pub partitions_imposed: u64,
    pub partitions_healed: u64,
    pub crashes: u64,
    pub restarts: u64,
    pub effect_batches_audited: u64,
    pub external_effects_checked: u64,
}

/// Nothing counted yet.
pub open spec fn no_stats() -> FaultStats {
    FaultStats {
        messages_attempted: 0,
        messages_delivered: 0,
        messages_dropped_randomly: 0,
        messages_dropped_by_partition: 0,
        messages_dropped_to_crashed_nodes: 0,
        partitions_imposed: 0,
        partitions_healed: 0,
        crashes: 0,
        restarts: 0,
        effect_batches_audited: 0,
        external_effects_checked: 0,
    }
}

impl Default for FaultStats {
    fn default() -> (stats: Self)
        ensures
            stats == no_stats(),
    {
        FaultStats {
            messages_attempted: 0,
            messages_delivered: 0,
            messages_dropped_randomly: 0,
            messages_dropped_by_partition: 0,
            messages_dropped_to_crashed_nodes: 0,
            partitions_imposed: 0,
            partitions_healed: 0,
            crashes: 0,
            restarts: 0,
            effect_batches_audited: 0,
            external_effects_checked: 0,
        }
    }
}

/// Fault injection knobs. A message is dropped if the seeded generator says so
/// or if sender and receiver sit in different partition cells; otherwise it is
/// delivered after a seeded delay drawn from the band.
#[derive(Clone, Debug)]
pub struct FaultConfig {
    /// How many of the 2^32 values of a roll drop a message: 0 drops none,
    /// [`DROP_ALL`] drops all, and a probability `p` is `p * 2^32`, rounded up.
    /// Sending with a higher one is reported.
    pub drop_threshold: u64,
    /// Complete partition spec: nodes in different cells cannot talk. A node
    /// listed in no cell is implicitly in one shared "rest" cell.
    pub partitions: Vec<BTreeSet<NodeId>>,
    /// Per-message delay band in virtual ms (clamped to at least 1, so that a
    /// message can never be delivered inside the step that sent it).
    pub delay_min_ms: u64,
    pub delay_max_ms: u64,
}

/// Partition cells as mathematical sets.
pub open spec fn cells(partitions: Seq<BTreeSet<NodeId>>) -> Seq<Set<NodeId>> {
    partitions.map_values(|c: BTreeSet<NodeId>| c@)
}

impl View for FaultConfig {
    type V = FaultView;

    open spec fn view(&self) -> FaultView {
        FaultView {
            drop_threshold: self.drop_threshold,
            partitions: cells(self.partitions@),
            delay_min_ms: self.delay_min_ms,
            delay_max_ms: self.delay_max_ms,
        }
    }
}

impl Default for FaultConfig {
    fn default() -> (faults: Self)
        ensures
            faults@ == (FaultView {
                drop_threshold: 0,
                partitions: Seq::empty(),
                delay_min_ms: 1,
                delay_max_ms: 20,
            }),
    {
        let faults = FaultConfig {
            drop_threshold: 0,
            partitions: Vec::new(),
            delay_min_ms: 1,
            delay_max_ms: 20,
        };
        assert(faults@.partitions =~= Seq::empty());
        faults
    }
}

#[derive(Debug)]
struct SimNode {
    core: RaftNode,
    alive: bool,
    /// Virtual disk - updated ONLY when a `Persist*` effect executes.
    disk_hard: HardState,
    disk_log: Vec<Entry>,
    /// For TermMonotonicity.
    last_term_seen: Term,
    /// Applied-command history of this boot, in order.
    applied: Vec<(LogIndex, Command)>,
    /// High-water mark of what this node has recorded into the committed
    /// registry while leading.
    registered_commit: LogIndex,
    boot_count: u64,
    observed_core_log: Vec<Entry>,
    observed_disk_log: Vec<Entry>,
    observed_applied_len: usize,
    observed_leader_term: Option<Term>,
    /// Both logs are known to be as last observed.
    settled: bool,
    /// The disk's log is known to be the core's.
    synced: bool,
}

impl View for SimNode {
    type V = SimNodeView;

    closed spec fn view(&self) -> SimNodeView {
        SimNodeView {
            core: self.core@,
            alive: self.alive,
            disk_hard: self.disk_hard,
            disk_log: self.disk_log@,
            last_term_seen: self.last_term_seen,
            applied: self.applied@,
            registered_commit: self.registered_commit,
            boot_count: self.boot_count,
            observed_core_log: types::log_view(self.observed_core_log@),
            observed_disk_log: types::log_view(self.observed_disk_log@),
            observed_applied_len: self.observed_applied_len as nat,
            observed_leader_term: self.observed_leader_term,
        }
    }
}

impl SimNode {
    /// What is noted of the logs is so.
    spec fn notes(&self) -> bool {
        &&& self.settled ==> types::log_view(self.core.log@) == types::log_view(
            self.observed_core_log@,
        ) && types::log_view(self.disk_log@) == types::log_view(self.observed_disk_log@)
        &&& self.synced ==> types::log_view(self.core.log@) == types::log_view(self.disk_log@)
    }
}

/// What is noted of all the nodes' logs is so.
#[verifier::opaque]
spec fn all_noted(nodes: Seq<SimNode>) -> bool {
    forall|i: int| 0 <= i < nodes.len() ==> (#[trigger] nodes[i]).notes()
}

#[derive(Debug)]
struct Envelope {
    at: u64,
    from: NodeId,
    to: NodeId,
    msg: RaftMessage,
}

impl View for Envelope {
    type V = EnvelopeView;

    closed spec fn view(&self) -> EnvelopeView {
        EnvelopeView { at: self.at, from: self.from, to: self.to, msg: self.msg@ }
    }
}

/// The simulated cluster and its world.
#[derive(Debug)]
pub struct Sim {
    pub seed: u64,
    now_ms: u64,
    /// Node `i` at position `i - 1`.
    nodes: Vec<SimNode>,
    /// Virtual network, in the order of arrival.
    net: Vec<Envelope>,
    /// The simulator's own generator (drops, delays) - separate from the cores'.
    rng: Pcg32,
    pub faults: FaultConfig,
    invariants: Invariants,
    /// Every entry ever committed by a leader in its own term.
    committed: CommittedRegistry,
    persistence_mode: PersistenceMode,
    stats: FaultStats,
}

impl View for Sim {
    type V = SimView;

    closed spec fn view(&self) -> SimView {
        SimView {
            seed: self.seed,
            now_ms: self.now_ms,
            nodes: self.nodes@.map_values(|n: SimNode| n@),
            net: self.net@.map_values(|e: Envelope| e@),
            rng: self.rng,
            faults: self.faults@,
            leaders: self.invariants@,
            committed: self.committed@,
            mode: self.persistence_mode,
            stats: self.stats,
        }
    }
}

impl Sim {
    /// The world is well formed, and what is noted of the logs is so.
    pub closed spec fn wf(&self) -> bool {
        self@.wf() && all_noted(self.nodes@)
    }

    /// The world that a well-formed simulator holds is well formed.
    pub proof fn law_the_world_is_well_formed(&self)
        requires
            self.wf(),
        ensures
            self@.wf(),
    {
    }
}

/// Nothing in the batch is put on disk late.
pub open spec fn writes_come_first(batch: Seq<EffectView>) -> bool {
    forall|j: int| 0 <= j < batch.len() ==> !#[trigger] model::late_persist(batch, j)
}

/// Syntactic half of the persist-before-observe contract: nothing is put on disk
/// after a message is sent in the same batch. The first write that comes too
/// late is reported.
///
/// A batch may legitimately acknowledge an idempotent vote or heartbeat without
/// writing anything. The simulator separately compares the complete durable and
/// core state at every externally visible effect.
pub fn audit_persist_before_send(batch: &[Effect]) -> (out: Result<(), String>)
    ensures
        match out {
            Ok(()) => forall|j: int|
                0 <= j < batch@.len() ==> !#[trigger] model::late_persist(
                    message::effects_view(batch@),
                    j,
                ),
            Err(why) => exists|j: int|
                {
                    &&& 0 <= j < batch@.len()
                    &&& #[trigger] model::late_persist(message::effects_view(batch@), j)
                    &&& forall|k: int|
                        0 <= k < j ==> !#[trigger] model::late_persist(
                            message::effects_view(batch@),
                            k,
                        )
                    &&& why@ == if message::effects_view(batch@)[j] is PersistHardState {
                        "PersistHardState appears after a Send in one effect batch"@
                    } else {
                        "PersistLogEntries appears after a Send in one effect batch"@
                    }
                },
        },
        out is Ok <==> writes_come_first(message::effects_view(batch@)),
{
    let ghost view = message::effects_view(batch@);
    let mut saw_send = false;
    let mut i: usize = 0;
    while i < batch.len()
        invariant
            i <= batch@.len(),
            view == message::effects_view(batch@),
            saw_send == exists|k: int| 0 <= k < i && #[trigger] view[k] is Send,
            forall|k: int| 0 <= k < i ==> !#[trigger] model::late_persist(view, k),
        decreases batch@.len() - i,
    {
        assert(view[i as int] == batch@[i as int]@);
        assert(model::late_persist(view, i as int) == ((view[i as int] is PersistHardState
            || view[i as int] is PersistLogEntries) && saw_send));
        match &batch[i] {
            Effect::PersistHardState(_) => {
                if saw_send {
                    return Err(
                        "PersistHardState appears after a Send in one effect batch".to_owned(),
                    );
                }
            },
            Effect::PersistLogEntries { .. } => {
                if saw_send {
                    return Err(
                        "PersistLogEntries appears after a Send in one effect batch".to_owned(),
                    );
                }
            },
            Effect::Send { .. } => {
                saw_send = true;
                assert(view[i as int] is Send);
            },
            _ => {},
        }
        i = i + 1;
    }
    Ok(())
}

/// The place of the first cell that lists the node.
fn cell_of(partitions: &Vec<BTreeSet<NodeId>>, n: NodeId) -> (cell: Option<usize>)
    ensures
        match cell {
            Some(k) => model::cell_of(cells(partitions@), n, 0) == Some(k as int),
            None => model::cell_of(cells(partitions@), n, 0) is None,
        },
{
    let ghost view = cells(partitions@);
    let mut i: usize = 0;
    while i < partitions.len()
        invariant
            i <= partitions@.len(),
            view == cells(partitions@),
            model::cell_of(view, n, 0) == model::cell_of(view, n, i as int),
        decreases partitions@.len() - i,
    {
        assert(view[i as int] == partitions@[i as int]@);
        if partitions[i].contains(&n) {
            return Some(i);
        }
        i = i + 1;
    }
    None
}

/// How many messages arrive by the given time.
fn count_due(net: &Vec<Envelope>, at: u64) -> (n: usize)
    requires
        model::in_order(net@.map_values(|e: Envelope| e@)),
    ensures
        n <= net@.len(),
        n == model::due(net@.map_values(|e: Envelope| e@), at),
        forall|i: int| 0 <= i < n ==> (#[trigger] net@[i]).at <= at,
        forall|i: int| n <= i < net@.len() ==> (#[trigger] net@[i]).at > at,
{
    let ghost view = net@.map_values(|e: Envelope| e@);
    let mut i: usize = 0;
    assert(view.skip(0) =~= view);
    while i < net.len() && net[i].at <= at
        invariant
            i <= net@.len(),
            view == net@.map_values(|e: Envelope| e@),
            model::due(view, at) == i + model::due(view.skip(i as int), at),
            forall|k: int| 0 <= k < i ==> (#[trigger] net@[k]).at <= at,
        decreases net@.len() - i,
    {
        assert(view.skip(i as int)[0] == view[i as int]);
        assert(view.skip(i as int).skip(1) =~= view.skip(i + 1));
        i = i + 1;
    }
    proof {
        if i < net@.len() {
            assert(view.skip(i as int)[0] == view[i as int]);
            assert forall|k: int| i <= k < net@.len() implies (#[trigger] net@[k]).at > at by {
                assert(view[i as int].at <= view[k].at);
            }
        }
    }
    i
}

/// A write to a node's disk leaves the world well formed.
proof fn lemma_disk_only(s: SimView, id: NodeId, n: SimNodeView, t: SimView)
    requires
        s.wf(),
        s.known(id),
        t.nodes == s.nodes.update(id - 1, n),
        t.net == s.net,
        t.now_ms == s.now_ms,
        n.core == s.at(id).core,
        n.applied == s.at(id).applied,
    ensures
        t.wf(),
{
    reveal(SimView::wf);
}

impl Sim {
    fn partitioned(&self, a: NodeId, b: NodeId) -> (apart: bool)
        ensures
            apart == self@.partitioned(a, b),
    {
        if self.faults.partitions.len() == 0 {
            return false;
        }
        let x = cell_of(&self.faults.partitions, a);
        let y = cell_of(&self.faults.partitions, b);
        match (x, y) {
            (Some(i), Some(j)) => i != j,
            (None, None) => false,
            _ => true,
        }
    }

    fn fail(&self, what: Violation) -> (failure: Failure)
        ensures
            failure == (Failure { seed: self@.seed, what }),
    {
        Failure { seed: self.seed, what }
    }

    fn assert_term_durable(&mut self, origin: NodeId) -> (out: Result<(), Failure>)
        requires
            old(self).wf(),
            old(self)@.known(origin),
        ensures
            match out {
                Ok(()) => old(self)@.term_durable(origin) == Ok::<_, Failure>(final(self)@),
                Err(e) => old(self)@.term_durable(origin) == Err::<SimView, _>(e),
            },
            final(self).wf(),
            final(self)@.nodes == old(self)@.nodes,
            final(self)@.now_ms == old(self)@.now_ms,
    {
        if self.persistence_mode == PersistenceMode::Negligent {
            return Ok(());
        }
        let i: usize = (origin - 1) as usize;
        assert(self@.nodes[i as int] == self.nodes@[i as int]@);
        if self.nodes[i].disk_hard.current_term != self.nodes[i].core.hard.current_term {
            return Err(self.fail(Violation::TermNotDurable { node: origin }));
        }
        self.stats.external_effects_checked =
        self.stats.external_effects_checked.saturating_add(1);
        proof {
            old(self)@.lemma_wf_same(self@);
        }
        Ok(())
    }

    fn assert_fully_durable(&mut self, origin: NodeId) -> (out: Result<(), Failure>)
        requires
            old(self).wf(),
            old(self)@.known(origin),
        ensures
            match out {
                Ok(()) => old(self)@.fully_durable(origin) == Ok::<_, Failure>(final(self)@),
                Err(e) => old(self)@.fully_durable(origin) == Err::<SimView, _>(e),
            },
            final(self).wf(),
            final(self)@.nodes == old(self)@.nodes,
            final(self)@.now_ms == old(self)@.now_ms,
    {
        if self.persistence_mode == PersistenceMode::Negligent {
            return Ok(());
        }
        let i: usize = (origin - 1) as usize;
        assert(self@.nodes[i as int] == self.nodes@[i as int]@);
        if !self.nodes[i].disk_hard.same(&self.nodes[i].core.hard) {
            return Err(self.fail(Violation::HardStateNotDurable { node: origin }));
        }
        proof {
            reveal(all_noted);
        }
        if !self.nodes[i].synced {
            if !same_log(self.nodes[i].disk_log.as_slice(), self.nodes[i].core.log.as_slice()) {
                return Err(self.fail(Violation::LogNotDurable { node: origin }));
            }
            self.nodes[i].synced = true;
        }
        self.stats.external_effects_checked =
        self.stats.external_effects_checked.saturating_add(1);
        proof {
            assert(self@.nodes =~= old(self)@.nodes);
            old(self)@.lemma_wf_same(self@);
        }
        Ok(())
    }

    /// Records one application in the node's history, in strict order.
    fn on_apply(&mut self, origin: NodeId, entry: Entry) -> (out: Result<(), Failure>)
        requires
            old(self).wf(),
            old(self)@.known(origin),
        ensures
            match out {
                Ok(()) => {
                    let n = old(self)@.at(origin);
                    &&& entry.index == n.applied.len() + 1
                    &&& final(self)@ == old(self)@.with(
                        origin,
                        (SimNodeView {
                            applied: n.applied.push((entry.index, entry.command)),
                            ..n
                        }),
                    )
                },
                Err(e) => {
                    let n = old(self)@.at(origin);
                    &&& entry.index != n.applied.len() + 1
                    &&& e == (Failure {
                        seed: old(self)@.seed,
                        what: Violation::AppliedOutOfOrder {
                            node: origin,
                            index: entry.index,
                            expected: (n.applied.len() as u64).saturating_add(1),
                        },
                    })
                },
            },
            final(self).wf(),
            final(self)@.nodes.len() == old(self)@.nodes.len(),
            final(self)@.now_ms == old(self)@.now_ms,
    {
        let i: usize = (origin - 1) as usize;
        assert(self@.nodes[i as int] == self.nodes@[i as int]@);
        let done: u64 = self.nodes[i].applied.len() as u64;
        if done == u64::MAX || entry.index != done + 1 {
            return Err(
                self.fail(
                    Violation::AppliedOutOfOrder {
                        node: origin,
                        index: entry.index,
                        expected: done.saturating_add(1),
                    },
                ),
            );
        }
        self.nodes[i].applied.push((entry.index, entry.command));
        proof {
            let n = old(self)@.at(origin);
            let m = SimNodeView { applied: n.applied.push((entry.index, entry.command)), ..n };
            assert(self.nodes@[i as int]@ =~= m);
            assert(self@.nodes =~= old(self)@.nodes.update(i as int, m));
            reveal(SimView::wf);
            old(self)@.lemma_wf_with(origin, m, self@);
            reveal(all_noted);
        }
        Ok(())
    }

    /// Hands a message to the network.
    pub fn enqueue(&mut self, from: NodeId, to: NodeId, msg: RaftMessage) -> (out: Result<
        (),
        Failure,
    >)
        requires
            old(self).wf(),
        ensures
            match out {
                Ok(()) => old(self)@.enqueue(from, to, msg@) == Ok::<_, Failure>(final(self)@),
                Err(e) => old(self)@.enqueue(from, to, msg@) == Err::<SimView, _>(e),
            },
            final(self).wf(),
            final(self)@.nodes == old(self)@.nodes,
            final(self)@.now_ms == old(self)@.now_ms,
    {
        proof {
            reveal(SimView::enqueue);
            reveal(SimView::wf);
        }
        self.stats.messages_attempted = self.stats.messages_attempted.saturating_add(1);
        if 1 <= to && (to as usize) <= self.nodes.len() {
            let i: usize = (to - 1) as usize;
            assert(self@.nodes[i as int] == self.nodes@[i as int]@);
            if !self.nodes[i].alive {
                self.stats.messages_dropped_to_crashed_nodes =
                self.stats.messages_dropped_to_crashed_nodes.saturating_add(1);
                return Ok(());
            }
        }
        if self.faults.drop_threshold > DROP_ALL {
            let threshold: u64 = self.faults.drop_threshold;
            return Err(self.fail(Violation::InvalidDropThreshold { threshold }));
        }
        if self.faults.drop_threshold > 0 {
            let roll: u32 = self.rng.next_u32();
            if (roll as u64) < self.faults.drop_threshold {
                self.stats.messages_dropped_randomly =
                self.stats.messages_dropped_randomly.saturating_add(1);
                return Ok(());
            }
        }
        if self.partitioned(from, to) {
            self.stats.messages_dropped_by_partition =
            self.stats.messages_dropped_by_partition.saturating_add(1);
            return Ok(());
        }
        let min: u64 = if self.faults.delay_min_ms < 1 {
            1
        } else {
            self.faults.delay_min_ms
        };
        let max: u64 = if self.faults.delay_max_ms < 1 {
            1
        } else {
            self.faults.delay_max_ms
        };
        if min > max {
            return Err(self.fail(Violation::InvalidDelayBand { min, max }));
        }
        let ghost before = self@.net;
        let delay: u64 = self.rng.range_inclusive(min, max);
        let at: u64 = self.now_ms.saturating_add(delay);
        let place: usize = count_due(&self.net, at);
        let ghost old_net = self.net@;
        let envelope = Envelope { at, from, to, msg };
        self.net.insert(place, envelope);
        proof {
            assert(self@.net =~= before.insert(place as int, envelope@));
            let net = self.net@;
            assert forall|i: int, j: int| 0 <= i < j < self@.net.len() implies self@.net[i].at
                <= self@.net[j].at by {
                let p = place as int;
                assert(self@.net[i] == net[i]@ && self@.net[j] == net[j]@);
                if i < p && j > p {
                    assert(net[i] == old_net[i] && net[j] == old_net[j - 1]);
                    assert(before[i].at <= before[j - 1].at);
                } else if i < p && j < p {
                    assert(before[i].at <= before[j].at);
                } else if i > p {
                    assert(before[i - 1].at <= before[j - 1].at);
                } else if i == p {
                    assert(net[j] == old_net[j - 1]);
                } else {
                    assert(net[i] == old_net[i]);
                }
            }
        }
        Ok(())
    }

    /// Executes one effect into the virtual world.
    fn execute(&mut self, origin: NodeId, effect: Effect) -> (out: Result<(), Failure>)
        requires
            old(self).wf(),
            old(self)@.known(origin),
        ensures
            match out {
                Ok(()) => {
                    &&& old(self)@.execute(origin, effect@) == Ok::<_, Failure>(final(self)@)
                    &&& final(self).wf()
                },
                Err(e) => old(self)@.execute(origin, effect@) == Err::<SimView, _>(e),
            },
            final(self)@.nodes.len() == old(self)@.nodes.len(),
            final(self)@.now_ms == old(self)@.now_ms,
    {
        let i: usize = (origin - 1) as usize;
        assert(self@.nodes[i as int] == self.nodes@[i as int]@);
        proof {
            reveal(SimView::execute);
            old(self)@.lemma_wf(origin);
        }
        match effect {
            Effect::PersistHardState(hard) => {
                if self.persistence_mode == PersistenceMode::Durable {
                    self.nodes[i].disk_hard = hard;
                    proof {
                        let n = old(self)@.at(origin);
                        let m = SimNodeView { disk_hard: hard, ..n };
                        assert(self.nodes@[i as int]@ =~= m);
                        assert(self@.nodes =~= old(self)@.nodes.update(i as int, m));
                        lemma_disk_only(old(self)@, origin, m, self@);
                        reveal(all_noted);
                    }
                }
                Ok(())
            },
            Effect::PersistLogEntries { truncate_from, entries } => {
                if self.persistence_mode == PersistenceMode::Durable {
                    let mut log: Vec<Entry> = Vec::new();
                    std::mem::swap(&mut log, &mut self.nodes[i].disk_log);
                    if let Some(from) = truncate_from {
                        log = survivors(log, from);
                    }
                    let mut fresh = entries;
                    log.append(&mut fresh);
                    self.nodes[i].disk_log = log;
                    self.nodes[i].settled = false;
                    self.nodes[i].synced = false;
                    proof {
                        let n = old(self)@.at(origin);
                        let m = SimNodeView {
                            disk_log: model::written(n.disk_log, truncate_from, entries@),
                            ..n
                        };
                        assert(self.nodes@[i as int]@.disk_log =~= m.disk_log);
                        assert(self.nodes@[i as int]@ =~= m);
                        assert(self@.nodes =~= old(self)@.nodes.update(i as int, m));
                        lemma_disk_only(old(self)@, origin, m, self@);
                        reveal(all_noted);
                    }
                }
                Ok(())
            },
            Effect::Send { to, msg } => {
                self.assert_fully_durable(origin)?;
                self.enqueue(origin, to, msg)
            },
            Effect::RoleChanged { role_name, .. } => {
                let name: String = role_name.to_owned();
                let follower: String = "Follower".to_owned();
                if name == follower {
                    // A step-down can precede unrelated log persistence in the
                    // same batch, but its adopted term must already be durable.
                    self.assert_term_durable(origin)
                } else {
                    self.assert_fully_durable(origin)
                }
            },
            Effect::Apply(entry) => {
                self.assert_fully_durable(origin)?;
                self.on_apply(origin, entry)
            },
            Effect::ProposeAccepted { .. } => self.assert_fully_durable(origin),
            Effect::ProposeRejected { .. } => self.assert_fully_durable(origin),
        }
    }

    /// Audits and executes a batch.
    fn execute_effects(&mut self, origin: NodeId, effects: Vec<Effect>) -> (out: Result<
        (),
        Failure,
    >)
        requires
            old(self).wf(),
            old(self)@.known(origin),
        ensures
            match out {
                Ok(()) => {
                    &&& old(self)@.execute_batch(origin, message::effects_view(effects@)) == Ok::<
                        _,
                        Failure,
                    >(final(self)@)
                    &&& final(self).wf()
                },
                Err(e) => old(self)@.execute_batch(
                    origin,
                    message::effects_view(effects@),
                ) == Err::<SimView, _>(e),
            },
            final(self)@.nodes.len() == old(self)@.nodes.len(),
            final(self)@.now_ms == old(self)@.now_ms,
    {
        let ghost view = message::effects_view(effects@);
        if audit_persist_before_send(effects.as_slice()).is_err() {
            proof {
                reveal(SimView::execute_batch);
            }
            return Err(self.fail(Violation::PersistAfterSend { node: origin }));
        }
        self.stats.effect_batches_audited = self.stats.effect_batches_audited.saturating_add(1);
        let ghost whole = old(self)@.execute_batch(origin, view);
        proof {
            reveal(SimView::execute_batch);
            assert(self@.nodes == old(self)@.nodes);
            old(self)@.lemma_wf_same(self@);
        }
        assert(whole == self@.execute_from(origin, view, 0));
        let ghost mut done: int = 0;
        for effect in items: effects
            invariant
                items.seq() == effects@,
                view == message::effects_view(effects@),
                done == items.index(),
                self.wf(),
                self@.known(origin),
                self@.nodes.len() == old(self)@.nodes.len(),
                self@.now_ms == old(self)@.now_ms,
                whole == old(self)@.execute_batch(origin, view),
                whole == self@.execute_from(origin, view, done),
        {
            assert(view[done] == effect@);
            self.execute(origin, effect)?;
            proof {
                done = done + 1;
            }
        }
        self.assert_fully_durable(origin)
    }

    /// Looks at one node: what is wrong with it, what changed, what is newly
    /// committed; and brings what the checks remember of it up to date.
    #[verifier::spinoff_prover]
    fn scan_node(&mut self, i: usize, scan: &mut Scan) -> (out: Result<(), Failure>)
        requires
            old(self).wf(),
            i < old(self)@.nodes.len(),
        ensures
            match out {
                Ok(()) => {
                    let n = old(self)@.nodes[i as int];
                    let id = (i + 1) as u8;
                    &&& model::node_fault(old(self)@.mode, id, n, old(scan)@.applied) is None
                    &&& final(scan)@ == model::found(old(scan)@, id, n)
                    &&& final(self)@ == (SimView {
                        nodes: old(self)@.nodes.update(i as int, model::looked_at(n)),
                        ..old(self)@
                    })
                    &&& final(self).wf()
                },
                Err(e) => model::node_fault(
                    old(self)@.mode,
                    (i + 1) as u8,
                    old(self)@.nodes[i as int],
                    old(scan)@.applied,
                ) == Some(e.what) && e.seed == old(self)@.seed,
            },
            final(self)@.nodes.len() == old(self)@.nodes.len(),
            final(self)@.now_ms == old(self)@.now_ms,
    {
        let ghost n = self@.nodes[i as int];
        proof {
            reveal(SimView::wf);
            reveal(all_noted);
            assert(n == self.nodes@[i as int]@);
            assert(self.nodes@[i as int].notes());
        }
        let id: NodeId = (i as u8) + 1;
        let seed: u64 = self.seed;
        let durable = self.persistence_mode == PersistenceMode::Durable;
        let alive = self.nodes[i].alive;
        let core_changed = !self.nodes[i].settled && !same_log(
            self.nodes[i].core.log.as_slice(),
            self.nodes[i].observed_core_log.as_slice(),
        );
        let disk_changed = !self.nodes[i].settled && !same_log(
            self.nodes[i].disk_log.as_slice(),
            self.nodes[i].observed_disk_log.as_slice(),
        );
        if core_changed {
            if alive {
                check_log_structure(seed, id, false, self.nodes[i].core.log.as_slice())?;
            }
            scan.core = true;
        }
        if disk_changed {
            if durable {
                check_log_structure(seed, id, true, self.nodes[i].disk_log.as_slice())?;
            }
            scan.disk = true;
        }
        let applied_len: usize = self.nodes[i].applied.len();
        if applied_len != self.nodes[i].observed_applied_len {
            scan.applied = true;
        }
        let leading = alive && self.nodes[i].core.is_leader();
        let term: Term = self.nodes[i].core.hard.current_term;
        let leader_term: Option<Term> = if leading {
            Some(term)
        } else {
            None
        };
        let known_leader = match (leader_term, self.nodes[i].observed_leader_term) {
            (Some(a), Some(b)) => a == b,
            (None, None) => true,
            _ => false,
        };
        if !known_leader && leading {
            scan.leaders.push((id, term));
        }
        let commit: LogIndex = self.nodes[i].core.commit_index;
        let registered: LogIndex = self.nodes[i].registered_commit;
        if alive {
            Invariants::check_term_monotonic(seed, id, self.nodes[i].last_term_seen, term)?;
            let last_index: LogIndex = self.nodes[i].core.last_log_index();
            if !(self.nodes[i].core.last_applied <= commit && commit <= last_index) {
                return Err(self.fail(Violation::ProgressBounds { node: id }));
            }
            if applied_len as u64 != self.nodes[i].core.last_applied {
                return Err(self.fail(Violation::AppliedCount { node: id }));
            }
            if scan.applied {
                check_history(seed, id, &self.nodes[i])?;
            }
            if leading && commit > registered {
                let held: usize = self.nodes[i].core.log.len();
                assert(commit <= held);
                let fresh = copy_entries(
                    vstd::slice::slice_subrange(
                        self.nodes[i].core.log.as_slice(),
                        registered as usize,
                        commit as usize,
                    ),
                );
                let mut more = fresh;
                scan.committed.append(&mut more);
                self.nodes[i].registered_commit = commit;
            }
            self.nodes[i].last_term_seen = term;
        }
        self.nodes[i].observed_leader_term = leader_term;
        self.nodes[i].observed_applied_len = applied_len;
        if core_changed {
            let log = copy_entries(self.nodes[i].core.log.as_slice());
            self.nodes[i].observed_core_log = log;
        }
        if disk_changed {
            let log = copy_entries(self.nodes[i].disk_log.as_slice());
            self.nodes[i].observed_disk_log = log;
        }
        self.nodes[i].settled = true;
        proof {
            let m = model::looked_at(n);
            assert(self.nodes@[i as int]@ =~= m);
            assert(self@.nodes =~= old(self)@.nodes.update(i as int, m));
            old(self)@.lemma_wf_with(id, m, self@);
            let f = model::found(old(scan)@, id, n);
            assert(scan@.leaders =~= f.leaders);
            assert(scan@.committed =~= f.committed);
            assert(scan@ =~= f);
        }
        Ok(())
    }
}

/// What a look at the nodes has found.
struct Scan {
    core: bool,
    disk: bool,
    applied: bool,
    committed: Vec<Entry>,
    leaders: Vec<(NodeId, Term)>,
}

impl View for Scan {
    type V = model::ScanView;

    closed spec fn view(&self) -> model::ScanView {
        model::ScanView {
            core: self.core,
            disk: self.disk,
            applied: self.applied,
            committed: self.committed@,
            leaders: self.leaders@,
        }
    }
}

/// An applied history runs 1, 2, 3 and so on, each with the log's command.
fn check_history(seed: u64, id: NodeId, node: &SimNode) -> (out: Result<(), Failure>)
    requires
        node.applied@.len() <= node.core.log@.len(),
    ensures
        match out {
            Ok(()) => model::history_fault(node@, id, 0) is None,
            Err(e) => model::history_fault(node@, id, 0) == Some(e.what) && e.seed == seed,
        },
{
    let mut i: usize = 0;
    while i < node.applied.len()
        invariant
            i <= node.applied@.len() <= node.core.log@.len(),
            model::history_fault(node@, id, 0) == model::history_fault(node@, id, i as int),
        decreases node.applied@.len() - i,
    {
        let expected: LogIndex = (i as u64) + 1;
        if node.applied[i].0 != expected {
            return Err(Failure { seed, what: Violation::AppliedIndex { node: id, expected } });
        }
        if !node.core.log[i].command.same(&node.applied[i].1) {
            return Err(
                Failure { seed, what: Violation::AppliedCommand { node: id, index: expected } },
            );
        }
        i = i + 1;
    }
    Ok(())
}

/// The least index of a kind is the only least one.
proof fn lemma_least_lacking(committed: Map<LogIndex, Entry>, log: Seq<Entry>, k: LogIndex)
    requires
        crate::invariants::first_lacking(committed, log, k),
    ensures
        exists|j: LogIndex| #[trigger] crate::invariants::lacks(committed, log, j),
        model::least_lacking(committed, log) == k,
{
    let j = model::least_lacking(committed, log);
    assert(crate::invariants::first_lacking(committed, log, j));
    if j < k {
        assert(crate::invariants::lacks(committed, log, j));
    } else if k < j {
        assert(crate::invariants::lacks(committed, log, k));
    }
}

proof fn lemma_least_underheld(s: SimView, k: LogIndex)
    requires
        model::first_underheld(s, k),
    ensures
        exists|j: LogIndex| #[trigger] s.underheld(j),
        model::least_underheld(s) == k,
{
    let j = model::least_underheld(s);
    assert(model::first_underheld(s, j));
    if j < k {
        assert(s.underheld(j));
    } else if k < j {
        assert(s.underheld(k));
    }
}

/// The first pair that is on too few disks has the least such index.
proof fn lemma_first_underheld(s: SimView, pairs: Seq<(&LogIndex, &Entry)>, at: int)
    requires
        crate::invariants::pairs_of(s.committed, pairs),
        0 <= at < pairs.len(),
        forall|j: int| 0 <= j < at ==> !s.underheld(*(#[trigger] pairs[j]).0),
        s.underheld(*pairs[at].0),
    ensures
        model::first_underheld(s, *pairs[at].0),
{
    crate::invariants::lemma_pairs(s.committed, pairs);
    assert forall|k: LogIndex| k < *pairs[at].0 implies !#[trigger] s.underheld(k) by {
        if s.committed.contains_key(k) {
            let j = choose|j: int| 0 <= j < pairs.len() && *(#[trigger] pairs[j]).0 == k;
            assert(j < at);
        }
    }
}

/// Where none of the pairs is on too few disks, nothing is.
proof fn lemma_none_underheld(s: SimView, pairs: Seq<(&LogIndex, &Entry)>, seen: int)
    requires
        crate::invariants::pairs_of(s.committed, pairs),
        0 <= seen <= pairs.len(),
        forall|j: int| 0 <= j < seen ==> !s.underheld(*(#[trigger] pairs[j]).0),
    ensures
        seen == pairs.len() ==> forall|k: LogIndex| !#[trigger] s.underheld(k),
{
    crate::invariants::lemma_pairs(s.committed, pairs);
    if seen == pairs.len() {
        assert forall|k: LogIndex| !#[trigger] s.underheld(k) by {
            if s.committed.contains_key(k) {
                let j = choose|j: int| 0 <= j < pairs.len() && *(#[trigger] pairs[j]).0 == k;
            }
        }
    }
}

impl Sim {
    /// Looks at all the nodes.
    fn scan_all(&mut self) -> (out: Result<Scan, Failure>)
        requires
            old(self).wf(),
        ensures
            match out {
                Ok(scan) => {
                    &&& old(self)@.scan_from(0, model::nothing()) == Ok::<_, Failure>(
                        (final(self)@, scan@),
                    )
                    &&& final(self).wf()
                },
                Err(e) => old(self)@.scan_from(0, model::nothing()) == Err::<
                    (SimView, model::ScanView),
                    _,
                >(e),
            },
            final(self)@.nodes.len() == old(self)@.nodes.len(),
            final(self)@.now_ms == old(self)@.now_ms,
    {
        let mut scan = Scan {
            core: false,
            disk: false,
            applied: false,
            committed: Vec::new(),
            leaders: Vec::new(),
        };
        let ghost whole = self@.scan_from(0, model::nothing());
        assert(scan@ =~= model::nothing());
        proof {
            reveal(SimView::wf);
        }
        let mut i: usize = 0;
        while i < self.nodes.len()
            invariant
                self.wf(),
                i <= self@.nodes.len() <= 255,
                self.nodes@.len() == self@.nodes.len(),
                self@.nodes.len() == old(self)@.nodes.len(),
                self@.now_ms == old(self)@.now_ms,
                whole == old(self)@.scan_from(0, model::nothing()),
                whole == self@.scan_from(i as int, scan@),
            decreases self@.nodes.len() - i,
        {
            self.scan_node(i, &mut scan)?;
            i = i + 1;
        }
        Ok(scan)
    }

    /// Records what is newly committed.
    fn record_all(&mut self, entries: &Vec<Entry>) -> (out: Result<(), Failure>)
        requires
            old(self).wf(),
        ensures
            match out {
                Ok(()) => {
                    &&& model::all_committed(old(self)@.committed, old(self)@.seed, entries@)
                        == Ok::<_, Failure>(final(self)@.committed)
                    &&& final(self)@ == (SimView {
                        committed: final(self)@.committed,
                        ..old(self)@
                    })
                    &&& final(self).wf()
                },
                Err(e) => model::all_committed(
                    old(self)@.committed,
                    old(self)@.seed,
                    entries@,
                ) == Err::<Map<LogIndex, Entry>, _>(e),
            },
            final(self)@.nodes.len() == old(self)@.nodes.len(),
            final(self)@.now_ms == old(self)@.now_ms,
    {
        let ghost before = self@;
        let mut i: usize = 0;
        while i < entries.len()
            invariant
                i <= entries@.len(),
                self@ == (SimView { committed: self@.committed, ..before }),
                before == old(self)@,
                old(self).wf(),
                self.nodes == old(self).nodes,
                model::all_committed(before.committed, before.seed, entries@.take(i as int))
                    == Ok::<_, Failure>(self@.committed),
            decreases entries@.len() - i,
        {
            let ghost upto = entries@.take(i + 1);
            proof {
                assert(upto.drop_last() =~= entries@.take(i as int));
                assert(upto.last() == entries@[i as int]);
            }
            if let Err(e) = self.committed.record(self.seed, &entries[i]) {
                proof {
                    lemma_commit_fails(before.committed, before.seed, entries@, i + 1);
                }
                return Err(e);
            }
            i = i + 1;
        }
        proof {
            assert(entries@.take(i as int) =~= entries@);
            old(self)@.lemma_wf_same(self@);
        }
        Ok(())
    }

    /// Whether the disks are as the cores.
    fn check_disks(&self, logs: bool) -> (out: Result<(), Failure>)
        requires
            self.wf(),
        ensures
            match out {
                Ok(()) => self@.disk_fault(0, logs) is None,
                Err(e) => self@.disk_fault(0, logs) == Some(e.what) && e.seed == self@.seed,
            },
    {
        proof {
            reveal(SimView::wf);
            reveal(all_noted);
        }
        let mut i: usize = 0;
        while i < self.nodes.len()
            invariant
                self.nodes@.len() <= 255,
                self.nodes@.len() == self@.nodes.len(),
                i <= self.nodes@.len(),
                all_noted(self.nodes@),
                self@.disk_fault(0, logs) == self@.disk_fault(i as int, logs),
            decreases self.nodes@.len() - i,
        {
            proof {
                reveal(all_noted);
                assert(self@.nodes[i as int] == self.nodes@[i as int]@);
                assert(self.nodes@[i as int].notes());
            }
            let node = &self.nodes[i];
            let id: NodeId = (i as u8) + 1;
            if node.alive {
                if !node.disk_hard.same(&node.core.hard) {
                    return Err(self.fail(Violation::DiskHardStateDiverged { node: id }));
                }
                if logs && !node.synced && !same_log(
                    node.disk_log.as_slice(),
                    node.core.log.as_slice(),
                ) {
                    return Err(self.fail(Violation::DiskLogDiverged { node: id }));
                }
            }
            i = i + 1;
        }
        Ok(())
    }

    /// Whether two nodes agree.
    fn check_pair(&self, a: usize, b: usize, scan: &Scan) -> (out: Result<(), Failure>)
        requires
            self.wf(),
            a < b < self@.nodes.len(),
        ensures
            match out {
                Ok(()) => self@.pair_fault(a as int, b as int, scan@) is None,
                Err(e) => self@.pair_fault(a as int, b as int, scan@) == Some(e.what) && e.seed
                    == self@.seed,
            },
    {
        proof {
            reveal(SimView::wf);
            assert(self@.nodes[a as int] == self.nodes@[a as int]@);
            assert(self@.nodes[b as int] == self.nodes@[b as int]@);
        }
        let x = &self.nodes[a];
        let y = &self.nodes[b];
        let p: NodeId = (a as u8) + 1;
        let q: NodeId = (b as u8) + 1;
        if scan.core && x.alive && y.alive {
            check_log_matching(
                self.seed,
                p,
                x.core.log.as_slice(),
                q,
                y.core.log.as_slice(),
            )?;
        }
        if scan.applied {
            check_applied_agreement(self.seed, p, x.applied.as_slice(), q, y.applied.as_slice())?;
        }
        if scan.disk && self.persistence_mode == PersistenceMode::Durable {
            check_log_matching(self.seed, p, x.disk_log.as_slice(), q, y.disk_log.as_slice())?;
        }
        Ok(())
    }

    /// Whether all nodes agree, two by two.
    fn check_pairs(&self, scan: &Scan) -> (out: Result<(), Failure>)
        requires
            self.wf(),
        ensures
            match out {
                Ok(()) => self@.pairs_fault(0, 1, scan@) is None,
                Err(e) => self@.pairs_fault(0, 1, scan@) == Some(e.what) && e.seed == self@.seed,
            },
    {
        proof {
            reveal(SimView::wf);
        }
        let n: usize = self.nodes.len();
        assert(n <= 255);
        let mut a: usize = 0;
        while a < n
            invariant
                self.wf(),
                n == self@.nodes.len(),
                n <= 255,
                a <= n,
                self@.pairs_fault(0, 1, scan@) == self@.pairs_fault(a as int, a + 1, scan@),
            decreases n - a,
        {
            let mut b: usize = a + 1;
            while b < n
                invariant
                    self.wf(),
                    n == self@.nodes.len(),
                    n <= 255,
                    a < b <= n,
                    self@.pairs_fault(0, 1, scan@) == self@.pairs_fault(a as int, b as int, scan@),
                decreases n - b,
            {
                self.check_pair(a, b, scan)?;
                b = b + 1;
            }
            a = a + 1;
        }
        Ok(())
    }

    /// Records the new leaders, each with all that is committed in its log.
    fn check_leaders(&mut self, new: &Vec<(NodeId, Term)>) -> (out: Result<(), Failure>)
        requires
            old(self).wf(),
            forall|i: int|
                0 <= i < new@.len() ==> old(self)@.known((#[trigger] new@[i]).0),
        ensures
            match out {
                Ok(()) => {
                    &&& old(self)@.leaders_from(new@, 0) == Ok::<_, Failure>(final(self)@)
                    &&& final(self).wf()
                },
                Err(e) => old(self)@.leaders_from(new@, 0) == Err::<SimView, _>(e),
            },
            final(self)@.nodes == old(self)@.nodes,
            final(self)@.now_ms == old(self)@.now_ms,
    {
        let ghost whole = self@.leaders_from(new@, 0);
        let mut i: usize = 0;
        while i < new.len()
            invariant
                self.wf(),
                self@.nodes == old(self)@.nodes,
                self@.now_ms == old(self)@.now_ms,
                forall|k: int|
                    0 <= k < new@.len() ==> old(self)@.known((#[trigger] new@[k]).0),
                i <= new@.len(),
                whole == old(self)@.leaders_from(new@, 0),
                whole == self@.leaders_from(new@, i as int),
            decreases new@.len() - i,
        {
            let (id, term): (NodeId, Term) = new[i];
            let ghost before = self@;
            assert(before.known(id));
            let at: usize = (id - 1) as usize;
            assert(self@.nodes[at as int] == self.nodes@[at as int]@);
            self.invariants.on_leader_elected(self.seed, term, id)?;
            let checked = self.committed.assert_all_in_leader_log(
                self.seed,
                id,
                term,
                self.nodes[at].core.log.as_slice(),
            );
            proof {
                before.lemma_wf_same(self@);
                let log = before.at(id).core.log;
                if let Err(e) = checked {
                    let k = choose|k: LogIndex| #[trigger]
                        crate::invariants::first_lacking(before.committed, log, k) && e
                            == (Failure {
                            seed: before.seed,
                            what: Violation::LeaderCompleteness { leader: id, term, index: k },
                        });
                    lemma_least_lacking(before.committed, log, k);
                }
            }
            checked?;
            i = i + 1;
        }
        Ok(())
    }

    /// On how many disks the entry is.
    fn count_copies(&self, index: LogIndex, entry: &Entry) -> (n: usize)
        ensures
            n == model::copies(self@.nodes, self@.nodes.len() as int, index, *entry),
    {
        let mut n: usize = 0;
        let mut i: usize = 0;
        while i < self.nodes.len()
            invariant
                self.nodes@.len() == self@.nodes.len(),
                i <= self.nodes@.len(),
                n <= i,
                n == model::copies(self@.nodes, i as int, index, *entry),
            decreases self.nodes@.len() - i,
        {
            assert(self@.nodes[i as int] == self.nodes@[i as int]@);
            if log_holds(self.nodes[i].disk_log.as_slice(), index, entry) {
                n = n + 1;
            }
            i = i + 1;
        }
        n
    }

    /// CommittedDurability: every committed entry is on a majority of the disks.
    fn check_durability(&self) -> (out: Result<(), Failure>)
        ensures
            match out {
                Ok(()) => forall|k: LogIndex| !#[trigger] self@.underheld(k),
                Err(e) => {
                    &&& exists|k: LogIndex| #[trigger] self@.underheld(k)
                    &&& e == (Failure {
                        seed: self@.seed,
                        what: Violation::CommittedDurability {
                            index: model::least_underheld(self@),
                        },
                    })
                },
            },
    {
        let majority: usize = self.nodes.len() / 2 + 1;
        let ghost s = self@;
        let entries = self.committed.entries();
        for (index, entry) in pairs: entries.iter()
            invariant
                s == self@,
                self.nodes@.len() == s.nodes.len(),
                majority == s.nodes.len() / 2 + 1,
                entries@ == s.committed,
                crate::invariants::pairs_of(s.committed, pairs.seq()),
                forall|j: int|
                    0 <= j < pairs.index() ==> !s.underheld(*(#[trigger] pairs.seq()[j]).0),
                pairs.index() == pairs.seq().len() ==> forall|k: LogIndex| !#[trigger] s.underheld(
                    k,
                ),
        {
            let ghost at = pairs.index() as int;
            assert(pairs.seq()[at] == (index, entry));
            if self.count_copies(*index, entry) < majority {
                proof {
                    assert(s.underheld(*index));
                    lemma_first_underheld(s, pairs.seq(), at);
                    lemma_least_underheld(s, *index);
                }
                return Err(self.fail(Violation::CommittedDurability { index: *index }));
            }
            proof {
                lemma_none_underheld(s, pairs.seq(), at + 1);
            }
        }
        Ok(())
    }

    /// Checks all invariants.
    fn check_all_invariants(&mut self) -> (out: Result<(), Failure>)
        requires
            old(self).wf(),
        ensures
            match out {
                Ok(()) => {
                    &&& old(self)@.check() == Ok::<_, Failure>(final(self)@)
                    &&& final(self).wf()
                },
                Err(e) => old(self)@.check() == Err::<SimView, _>(e),
            },
            final(self)@.nodes.len() == old(self)@.nodes.len(),
            final(self)@.now_ms == old(self)@.now_ms,
    {
        let scan = self.scan_all()?;
        proof {
            reveal(SimView::check_found);
            reveal(SimView::check_registered);
            assert(old(self)@.nodes.len() <= 255) by {
                reveal(SimView::wf);
            }
            old(self)@.lemma_leaders_known(0, model::nothing());
        }
        self.record_all(&scan.committed)?;
        let durable = self.persistence_mode == PersistenceMode::Durable;
        if durable {
            self.check_disks(scan.core || scan.disk)?;
        }
        if scan.core || scan.disk || scan.applied {
            self.check_pairs(&scan)?;
        }
        self.check_leaders(&scan.leaders)?;
        if durable && (scan.disk || scan.committed.len() > 0) {
            self.check_durability()?;
        }
        Ok(())
    }
}

/// One entry that cannot be recorded makes the whole recording fail.
proof fn lemma_commit_fails(
    registry: Map<LogIndex, Entry>,
    seed: u64,
    entries: Seq<Entry>,
    k: int,
)
    requires
        0 <= k <= entries.len(),
        model::all_committed(registry, seed, entries.take(k)) is Err,
    ensures
        model::all_committed(registry, seed, entries) == model::all_committed(
            registry,
            seed,
            entries.take(k),
        ),
    decreases entries.len() - k,
{
    if k == entries.len() {
        assert(entries.take(k) =~= entries);
    } else {
        assert(entries.take(k + 1).drop_last() =~= entries.take(k));
        lemma_commit_fails(registry, seed, entries, k + 1);
    }
}

/// Whether the batch writes log entries.
fn writes_log(effects: &Vec<Effect>) -> (writes: bool)
    ensures
        writes == exists|i: int|
            0 <= i < effects@.len() && #[trigger] message::effects_view(
                effects@,
            )[i] is PersistLogEntries,
{
    let ghost view = message::effects_view(effects@);
    let mut i: usize = 0;
    while i < effects.len()
        invariant
            i <= effects@.len(),
            view == message::effects_view(effects@),
            forall|k: int| 0 <= k < i ==> !(#[trigger] view[k] is PersistLogEntries),
        decreases effects@.len() - i,
    {
        if let Effect::PersistLogEntries { .. } = &effects[i] {
            assert(view[i as int] is PersistLogEntries);
            return true;
        }
        i = i + 1;
    }
    false
}

/// Whether the id is in the list.
fn lists(ids: &[NodeId], id: NodeId) -> (found: bool)
    ensures
        found == ids@.contains(id),
{
    let mut i: usize = 0;
    while i < ids.len()
        invariant
            i <= ids@.len(),
            forall|k: int| 0 <= k < i ==> #[trigger] ids@[k] != id,
        decreases ids@.len() - i,
    {
        if ids[i] == id {
            assert(ids@[i as int] == id);
            return true;
        }
        i = i + 1;
    }
    false
}

/// The ids in the list, where there is a list.
pub open spec fn listed(only: Option<&[NodeId]>) -> Option<Seq<NodeId>> {
    match only {
        Some(ids) => Some(ids@),
        None => None,
    }
}

impl Sim {
    /// A node takes an input; the effects are executed and everything checked.
    /// Where they are asked for, a copy of the effects comes back.
    #[verifier::spinoff_prover]
    fn react(&mut self, id: NodeId, input: Input, keep: bool) -> (out: Result<Vec<Effect>, Failure>)
        requires
            old(self).wf(),
            old(self)@.known(id),
        ensures
            match out {
                Ok(effects) => {
                    &&& old(self)@.react(id, input@) == Ok::<_, Failure>(final(self)@)
                    &&& final(self).wf()
                    &&& keep ==> message::effects_view(effects@) == old(self)@.at(id).core.step(
                        input@,
                    ).1
                },
                Err(e) => old(self)@.react(id, input@) == Err::<SimView, _>(e),
            },
            final(self)@.nodes.len() == old(self)@.nodes.len(),
            final(self)@.now_ms == old(self)@.now_ms,
    {
        let i: usize = (id - 1) as usize;
        let ghost before = self@;
        let ghost n = before.at(id);
        proof {
            reveal(SimView::react);
            before.lemma_wf(id);
            assert(n == self.nodes@[i as int]@);
        }
        if !self.nodes[i].core.accepts(&input) {
            return Err(self.fail(Violation::TermExhausted { node: id }));
        }
        let effects = self.nodes[i].core.step(input);
        if writes_log(&effects) {
            self.nodes[i].settled = false;
            self.nodes[i].synced = false;
        }
        proof {
            let (core, asked) = n.core.step(input@);
            let m = SimNodeView { core, ..n };
            assert(self.nodes@[i as int]@ =~= m);
            assert(self@.nodes =~= before.nodes.update(i as int, m));
            assert(self@ =~= before.with(id, m));
            lemma_core_only(before, id, m, self@);
            reveal(all_noted);
            assert forall|k: int| 0 <= k < self.nodes@.len() implies (
            #[trigger] self.nodes@[k]).notes() by {
                assert(old(self).nodes@[k].notes());
                if k == i {
                    if !(exists|j: int|
                        0 <= j < asked.len() && #[trigger] asked[j] is PersistLogEntries) {
                        lemma_log_stays(n.core, input@);
                    }
                }
            }
        }
        let copy: Vec<Effect> = if keep {
            copy_effects(effects.as_slice())
        } else {
            Vec::new()
        };
        self.execute_effects(id, effects)?;
        self.check_all_invariants()?;
        Ok(copy)
    }

    /// A message arrives.
    fn deliver(&mut self, env: Envelope) -> (out: Result<(), Failure>)
        requires
            old(self).wf(),
        ensures
            match out {
                Ok(()) => {
                    &&& old(self)@.deliver(env@) == Ok::<_, Failure>(final(self)@)
                    &&& final(self).wf()
                },
                Err(e) => old(self)@.deliver(env@) == Err::<SimView, _>(e),
            },
            final(self)@.nodes.len() == old(self)@.nodes.len(),
            final(self)@.now_ms == old(self)@.now_ms,
    {
        proof {
            reveal(SimView::deliver);
        }
        if env.to < 1 || env.to as usize > self.nodes.len() {
            return Ok(());
        }
        let i: usize = (env.to - 1) as usize;
        assert(self@.nodes[i as int] == self.nodes@[i as int]@);
        if !self.nodes[i].alive {
            self.stats.messages_dropped_to_crashed_nodes =
            self.stats.messages_dropped_to_crashed_nodes.saturating_add(1);
            proof {
                old(self)@.lemma_wf_same(self@);
            }
            return Ok(());
        }
        // A partition imposed since the message was sent still blocks it.
        if self.partitioned(env.from, env.to) {
            self.stats.messages_dropped_by_partition =
            self.stats.messages_dropped_by_partition.saturating_add(1);
            proof {
                old(self)@.lemma_wf_same(self@);
            }
            return Ok(());
        }
        self.stats.messages_delivered = self.stats.messages_delivered.saturating_add(1);
        proof {
            old(self)@.lemma_wf_same(self@);
        }
        let to: NodeId = env.to;
        self.react(to, Input::Message { from: env.from, msg: env.msg }, false)?;
        Ok(())
    }

    /// One step of the clock: deliver every due message (each delivery is one
    /// step of its target), then tick every alive node, executing effects into
    /// the virtual world and checking invariants throughout.
    pub fn step_once(&mut self) -> (out: Result<(), Failure>)
        requires
            old(self).wf(),
            old(self)@.now_ms + TICK_MS + crate::node::ELECTION_MAX_MS <= u64::MAX,
        ensures
            match out {
                Ok(()) => {
                    &&& old(self)@.step(None) == Ok::<_, Failure>(final(self)@)
                    &&& final(self).wf()
                    &&& final(self)@.now_ms == old(self)@.now_ms + TICK_MS
                },
                Err(e) => old(self)@.step(None) == Err::<SimView, _>(e),
            },
            final(self)@.nodes.len() == old(self)@.nodes.len(),
    {
        self.step_once_ticking(None)
    }

    fn step_once_ticking(&mut self, only: Option<&[NodeId]>) -> (out: Result<(), Failure>)
        requires
            old(self).wf(),
            old(self)@.now_ms + TICK_MS + crate::node::ELECTION_MAX_MS <= u64::MAX,
        ensures
            match out {
                Ok(()) => {
                    &&& old(self)@.step(listed(only)) == Ok::<_, Failure>(final(self)@)
                    &&& final(self).wf()
                    &&& final(self)@.now_ms == old(self)@.now_ms + TICK_MS
                },
                Err(e) => old(self)@.step(listed(only)) == Err::<SimView, _>(e),
            },
            final(self)@.nodes.len() == old(self)@.nodes.len(),
    {
        let ghost before = self@;
        self.deliver_due()?;
        let ghost delivered = self@;
        assert(self@.nodes.len() <= 255) by {
            reveal(SimView::wf);
        }
        let mut i: usize = 0;
        while i < self.nodes.len()
            invariant
                self.wf(),
                i <= self@.nodes.len() <= 255,
                self.nodes@.len() == self@.nodes.len(),
                self@.nodes.len() == before.nodes.len(),
                before == old(self)@,
                self@.now_ms == before.now_ms,
                before.step(listed(only)) == match delivered.tick_from(listed(only), 0) {
                    Err(e) => Err::<SimView, Failure>(e),
                    Ok(t) => Ok(SimView { now_ms: (t.now_ms + TICK_MS) as u64, ..t }),
                },
                delivered.tick_from(listed(only), 0) == self@.tick_from(listed(only), i as int),
            decreases self@.nodes.len() - i,
        {
            let id: NodeId = (i as u8) + 1;
            assert(self@.nodes[i as int] == self.nodes@[i as int]@);
            let runs = match only {
                Some(ids) => lists(ids, id),
                None => true,
            };
            if runs && self.nodes[i].alive {
                self.react(id, Input::Tick { now_ms: self.now_ms }, false)?;
            }
            i = i + 1;
        }
        let ghost ticked = self@;
        self.now_ms = self.now_ms + TICK_MS;
        proof {
            assert(self@ =~= (SimView { now_ms: (ticked.now_ms + TICK_MS) as u64, ..ticked }));
            lemma_clock_only(ticked, self@);
        }
        Ok(())
    }

    /// Everything due arrives.
    fn deliver_due(&mut self) -> (out: Result<(), Failure>)
        requires
            old(self).wf(),
        ensures
            ({
                let s = old(self)@;
                let n = model::due(s.net, s.now_ms);
                let rest = SimView { net: s.net.skip(n), ..s };
                match out {
                    Ok(()) => {
                        &&& rest.deliver_from(s.net.take(n), 0) == Ok::<_, Failure>(final(self)@)
                        &&& final(self).wf()
                    },
                    Err(e) => rest.deliver_from(s.net.take(n), 0) == Err::<SimView, _>(e),
                }
            }),
            final(self)@.nodes.len() == old(self)@.nodes.len(),
            final(self)@.now_ms == old(self)@.now_ms,
    {
        let ghost before = self@;
        assert(model::in_order(self@.net)) by {
            reveal(SimView::wf);
        }
        let n: usize = count_due(&self.net, self.now_ms);
        let ghost envs = before.net.take(n as int);
        let ghost whole = SimView { net: before.net.skip(n as int), ..before }.deliver_from(
            envs,
            0,
        );
        let ghost old_net = self.net@;
        let mut arriving = self.net.split_off(n);
        std::mem::swap(&mut arriving, &mut self.net);
        proof {
            assert(self@.net =~= before.net.skip(n as int));
            assert(self@ =~= (SimView { net: before.net.skip(n as int), ..before }));
            lemma_fewer_messages(before, n as int, self@);
            assert(arriving@ =~= old_net.take(n as int));
        }
        let ghost all = arriving@;
        let ghost mut done: int = 0;
        for env in items: arriving
            invariant
                items.seq() == all,
                done == items.index(),
                all.len() == envs.len(),
                forall|k: int| 0 <= k < all.len() ==> (#[trigger] all[k])@ == envs[k],
                self.wf(),
                self@.nodes.len() == before.nodes.len(),
                self@.now_ms == before.now_ms,
                before == old(self)@,
                n == model::due(before.net, before.now_ms),
                envs == before.net.take(n as int),
                whole == (SimView { net: before.net.skip(n as int), ..before }).deliver_from(
                    envs,
                    0,
                ),
                whole == self@.deliver_from(envs, done),
        {
            assert(all[done] == env);
            self.deliver(env)?;
            proof {
                done = done + 1;
            }
        }
        Ok(())
    }
}

/// A step of a core leaves the world well formed.
proof fn lemma_core_only(s: SimView, id: NodeId, n: SimNodeView, t: SimView)
    requires
        s.wf(),
        s.known(id),
        t.nodes == s.nodes.update(id - 1, n),
        t.net == s.net,
        t.now_ms == s.now_ms,
        n.core.wf(),
        n.core.id == id,
        n.applied == s.at(id).applied,
    ensures
        t.wf(),
{
    reveal(SimView::wf);
}

/// The clock may move on.
proof fn lemma_clock_only(s: SimView, t: SimView)
    requires
        s.wf(),
        t.nodes == s.nodes,
        t.net == s.net,
        t.now_ms + crate::node::ELECTION_MAX_MS <= u64::MAX,
    ensures
        t.wf(),
{
    reveal(SimView::wf);
}

/// Messages may be taken off the front of the network.
proof fn lemma_fewer_messages(s: SimView, n: int, t: SimView)
    requires
        s.wf(),
        0 <= n <= s.net.len(),
        t == (SimView { net: s.net.skip(n), ..s }),
    ensures
        t.wf(),
{
    reveal(SimView::wf);
}

/// A step that writes no log entries leaves the log as it is.
proof fn lemma_log_stays(s: NodeView, input: InputView)
    requires
        s.wf(),
        s.accepts(input),
        forall|i: int|
            0 <= i < s.step(input).1.len() ==> !(#[trigger] s.step(input).1[i] is PersistLogEntries),
    ensures
        s.step(input).0.log == s.log,
{
    crate::laws::law_disk_keeps_up(s, input);
    crate::runs::lemma_log_unwritten(s.durable(), s.step(input).1);
}

/// Why a partition is not imposed.
#[derive(Clone, Copy, Debug, PartialEq, Eq)]
pub enum PartitionError {
    UnknownNode { id: NodeId },
    ListedTwice { id: NodeId },
}

/// All the other nodes.
fn other_nodes(n_nodes: u8, id: NodeId) -> (peers: Vec<NodeId>)
    requires
        1 <= id <= n_nodes,
    ensures
        peers@ == model::peers_of(n_nodes, id),
{
    let mut peers: Vec<NodeId> = Vec::new();
    let mut p: u8 = 0;
    while p < n_nodes
        invariant
            p <= n_nodes,
            1 <= id <= n_nodes,
            peers@.len() == if p >= id {
                p - 1
            } else {
                p as int
            },
            forall|k: int|
                0 <= k < peers@.len() ==> #[trigger] peers@[k] == if k + 1 < id {
                    k + 1
                } else {
                    k + 2
                },
        decreases n_nodes - p,
    {
        p = p + 1;
        if p != id {
            peers.push(p);
        }
    }
    assert(peers@ =~= model::peers_of(n_nodes, id));
    peers
}

/// How many ticks it takes for the clock to move on by `ms`.
pub open spec fn ticks(ms: u64) -> nat {
    ((ms + TICK_MS - 1) / (TICK_MS as int)) as nat
}

impl Sim {
    /// A world of `n_nodes` nodes, numbered from 1, in which nothing has
    /// happened yet.
    pub fn new(n_nodes: u8, seed: u64) -> (sim: Sim)
        ensures
            sim@ == SimView::new(n_nodes, seed),
            sim.wf(),
    {
        let mut nodes: Vec<SimNode> = Vec::new();
        let mut i: u8 = 0;
        while i < n_nodes
            invariant
                i <= n_nodes,
                nodes@.len() == i,
                forall|k: int|
                    0 <= k < i ==> (#[trigger] nodes@[k])@ == model::new_node(n_nodes, seed, k)
                        && nodes@[k].notes(),
            decreases n_nodes - i,
        {
            let id: NodeId = i + 1;
            let peers = other_nodes(n_nodes, id);
            let node = SimNode {
                core: RaftNode::new(id, peers, node_seed(seed, id, 0)),
                alive: true,
                disk_hard: HardState { current_term: 0, voted_for: None },
                disk_log: Vec::new(),
                last_term_seen: 0,
                applied: Vec::new(),
                registered_commit: 0,
                boot_count: 0,
                observed_core_log: Vec::new(),
                observed_disk_log: Vec::new(),
                observed_applied_len: 0,
                observed_leader_term: None,
                settled: false,
                synced: false,
            };
            proof {
                assert(types::log_view(node.observed_core_log@) =~= Seq::empty());
                assert(types::log_view(node.observed_disk_log@) =~= Seq::empty());
                assert(node.disk_log@ =~= Seq::empty());
                assert(node.applied@ =~= Seq::empty());
                assert(node@ =~= model::new_node(n_nodes, seed, i as int));
            }
            nodes.push(node);
            i = i + 1;
        }
        let sim = Sim {
            seed,
            now_ms: 0,
            nodes,
            net: Vec::new(),
            rng: Pcg32::new(seed),
            faults: FaultConfig::default(),
            invariants: Invariants::default(),
            committed: CommittedRegistry::default(),
            persistence_mode: PersistenceMode::Durable,
            stats: FaultStats::default(),
        };
        proof {
            let whole = SimView::new(n_nodes, seed);
            assert(sim@.nodes =~= whole.nodes);
            assert(sim@.net =~= whole.net);
            assert(sim@ =~= whole);
            reveal(SimView::wf);
            reveal(all_noted);
            assert forall|k: int| 0 <= k < sim@.nodes.len() implies (
            #[trigger] sim@.nodes[k]).core.wf() by {
                assert(sim@.nodes[k] == model::new_node(n_nodes, seed, k));
            }
        }
        sim
    }

    pub fn now(&self) -> (ms: u64)
        ensures
            ms == self@.now_ms,
    {
        self.now_ms
    }

    /// Advance the virtual clock by `ms`.
    pub fn run_ms(&mut self, ms: u64) -> (out: Result<(), Failure>)
        requires
            old(self).wf(),
            old(self)@.now_ms + ms + TICK_MS + crate::node::ELECTION_MAX_MS <= u64::MAX,
        ensures
            match out {
                Ok(()) => {
                    &&& old(self)@.steps(None, ticks(ms)) == Ok::<_, Failure>(final(self)@)
                    &&& final(self).wf()
                    &&& final(self)@.now_ms == old(self)@.now_ms + TICK_MS * ticks(ms)
                },
                Err(e) => old(self)@.steps(None, ticks(ms)) == Err::<SimView, _>(e),
            },
            final(self)@.nodes.len() == old(self)@.nodes.len(),
    {
        self.run_ticking(None, ms)
    }

    /// Freeze every clock except those of `ids` (frozen nodes still receive
    /// mail) - the deterministic way to force a specific node to campaign first.
    pub fn run_ms_ticking_only(&mut self, ids: &[NodeId], ms: u64) -> (out: Result<(), Failure>)
        requires
            old(self).wf(),
            old(self)@.now_ms + ms + TICK_MS + crate::node::ELECTION_MAX_MS <= u64::MAX,
        ensures
            match out {
                Ok(()) => {
                    &&& old(self)@.steps(Some(ids@), ticks(ms)) == Ok::<_, Failure>(final(self)@)
                    &&& final(self).wf()
                    &&& final(self)@.now_ms == old(self)@.now_ms + TICK_MS * ticks(ms)
                },
                Err(e) => old(self)@.steps(Some(ids@), ticks(ms)) == Err::<SimView, _>(e),
            },
            final(self)@.nodes.len() == old(self)@.nodes.len(),
    {
        self.run_ticking(Some(ids), ms)
    }

    fn run_ticking(&mut self, only: Option<&[NodeId]>, ms: u64) -> (out: Result<(), Failure>)
        requires
            old(self).wf(),
            old(self)@.now_ms + ms + TICK_MS + crate::node::ELECTION_MAX_MS <= u64::MAX,
        ensures
            match out {
                Ok(()) => {
                    &&& old(self)@.steps(listed(only), ticks(ms)) == Ok::<_, Failure>(final(self)@)
                    &&& final(self).wf()
                    &&& final(self)@.now_ms == old(self)@.now_ms + TICK_MS * ticks(ms)
                },
                Err(e) => old(self)@.steps(listed(only), ticks(ms)) == Err::<SimView, _>(e),
            },
            final(self)@.nodes.len() == old(self)@.nodes.len(),
    {
        let ghost before = self@;
        let n: u64 = if ms % TICK_MS == 0 {
            ms / TICK_MS
        } else {
            ms / TICK_MS + 1
        };
        assert(n == ticks(ms));
        let mut i: u64 = 0;
        while i < n
            invariant
                before == old(self)@,
                n == ticks(ms),
                i <= n,
                TICK_MS * n < ms + TICK_MS,
                before.now_ms + ms + TICK_MS + crate::node::ELECTION_MAX_MS <= u64::MAX,
                self.wf(),
                self@.nodes.len() == before.nodes.len(),
                self@.now_ms == before.now_ms + TICK_MS * i,
                before.steps(listed(only), i as nat) == Ok::<_, Failure>(self@),
            decreases n - i,
        {
            if let Err(e) = self.step_once_ticking(only) {
                proof {
                    lemma_stuck(before, listed(only), (i + 1) as nat, n as nat);
                }
                return Err(e);
            }
            i = i + 1;
        }
        Ok(())
    }

    /// Advance until `pred` holds or `max_ms` elapses; returns whether it held.
    /// It is asked before every step and, when the time is up, once more.
    pub fn run_until<F: Fn(&Sim) -> bool>(&mut self, pred: F, max_ms: u64) -> (out: Result<
        bool,
        Failure,
    >)
        requires
            old(self).wf(),
            old(self)@.now_ms + max_ms + TICK_MS + crate::node::ELECTION_MAX_MS <= u64::MAX,
            forall|s: &Sim| s.wf() ==> #[trigger] pred.requires((s,)),
        ensures
            match out {
                Ok(held) => {
                    &&& final(self).wf()
                    &&& pred.ensures((&*final(self),), held)
                    &&& exists|n: nat|
                        {
                            &&& #[trigger] ran(old(self)@, n, final(self)@, pred)
                            &&& n <= ticks(max_ms)
                            &&& held || n == ticks(max_ms)
                        }
                },
                Err(e) => exists|n: nat|
                    {
                        &&& #[trigger] old(self)@.steps(None, n) == Err::<SimView, _>(e)
                        &&& n <= ticks(max_ms)
                        &&& forall|k: nat| k < n ==> #[trigger] missed(old(self)@, k, pred)
                    },
            },
            final(self)@.nodes.len() == old(self)@.nodes.len(),
    {
        let ghost before = self@;
        let deadline: u64 = self.now_ms + max_ms;
        let ghost mut n: nat = 0;
        while self.now_ms < deadline
            invariant
                before == old(self)@,
                deadline == before.now_ms + max_ms,
                deadline + TICK_MS + crate::node::ELECTION_MAX_MS <= u64::MAX,
                forall|s: &Sim| s.wf() ==> #[trigger] pred.requires((s,)),
                self.wf(),
                self.now_ms == self@.now_ms,
                self@.now_ms < deadline + TICK_MS,
                self@.now_ms == before.now_ms + TICK_MS * n,
                n <= ticks(max_ms),
                self@.nodes.len() == before.nodes.len(),
                ran(before, n, self@, pred),
            decreases deadline + TICK_MS - self.now_ms,
        {
            if pred(&*self) {
                return Ok(true);
            }
            let ghost here = *self;
            proof {
                assert(missed(before, n, pred)) by {
                    assert(here@ == before.steps(None, n)->Ok_0);
                    assert(pred.ensures((&here,), false));
                }
            }
            if let Err(e) = self.step_once() {
                assert(before.steps(None, n + 1) == Err::<SimView, _>(e));
                return Err(e);
            }
            proof {
                n = n + 1;
            }
        }
        Ok(pred(&*self))
    }

    /// The current leader: the alive leader of the highest term.
    pub fn leader(&self) -> (leader: Option<NodeId>)
        requires
            self.wf(),
        ensures
            match leader {
                Some(id) => self@.is_the_leader(id),
                None => forall|id: NodeId| #[trigger]
                    self@.known(id) ==> model::leads(self@.at(id)) is None,
            },
    {
        assert(self@.nodes.len() <= 255) by {
            reveal(SimView::wf);
        }
        let mut best: Option<NodeId> = None;
        let mut best_term: Term = 0;
        let mut i: usize = 0;
        while i < self.nodes.len()
            invariant
                self.nodes@.len() == self@.nodes.len(),
                i <= self.nodes@.len() <= 255,
                match best {
                    Some(id) => {
                        &&& 1 <= id <= i
                        &&& model::leads(self@.at(id)) == Some(best_term)
                        &&& forall|j: NodeId|
                            1 <= j <= i && model::leads(#[trigger] self@.at(j)) is Some
                                ==> model::leads(self@.at(j))->0 < best_term || (model::leads(
                                self@.at(j),
                            )->0 == best_term && j <= id)
                    },
                    None => forall|j: NodeId|
                        1 <= j <= i ==> model::leads(#[trigger] self@.at(j)) is None,
                },
            decreases self.nodes@.len() - i,
        {
            let id: NodeId = (i as u8) + 1;
            assert(self@.at(id) == self.nodes@[i as int]@);
            if self.nodes[i].alive && self.nodes[i].core.is_leader() {
                let term: Term = self.nodes[i].core.hard.current_term;
                if best.is_none() || term >= best_term {
                    best = Some(id);
                    best_term = term;
                }
            }
            i = i + 1;
        }
        best
    }

    /// Every (term → leader) pair ever observed.
    pub fn leaders_by_term(&self) -> (leaders: &BTreeMap<Term, NodeId>)
        ensures
            leaders@ == self@.leaders,
    {
        self.invariants.leaders_by_term()
    }

    pub fn node(&self, id: NodeId) -> (node: &RaftNode)
        requires
            self@.known(id),
        ensures
            node@ == self@.at(id).core,
    {
        assert(self@.at(id) == self.nodes@[id - 1]@);
        &self.nodes[(id - 1) as usize].core
    }

    pub fn is_alive(&self, id: NodeId) -> (alive: bool)
        requires
            self@.known(id),
        ensures
            alive == self@.at(id).alive,
    {
        assert(self@.at(id) == self.nodes@[id - 1]@);
        self.nodes[(id - 1) as usize].alive
    }

    pub fn durable_hard_state(&self, id: NodeId) -> (hard: &HardState)
        requires
            self@.known(id),
        ensures
            *hard == self@.at(id).disk_hard,
    {
        assert(self@.at(id) == self.nodes@[id - 1]@);
        &self.nodes[(id - 1) as usize].disk_hard
    }

    pub fn durable_log(&self, id: NodeId) -> (log: &[Entry])
        requires
            self@.known(id),
        ensures
            log@ == self@.at(id).disk_log,
    {
        assert(self@.at(id) == self.nodes@[id - 1]@);
        self.nodes[(id - 1) as usize].disk_log.as_slice()
    }

    /// This node's applied-command history, in application order.
    pub fn applied(&self, id: NodeId) -> (applied: &[(LogIndex, Command)])
        requires
            self@.known(id),
        ensures
            applied@ == self@.at(id).applied,
    {
        assert(self@.at(id) == self.nodes@[id - 1]@);
        self.nodes[(id - 1) as usize].applied.as_slice()
    }

    /// Every entry that a leader ever committed in its own term.
    pub fn registry(&self) -> (registry: &CommittedRegistry)
        ensures
            registry@ == self@.committed,
    {
        &self.committed
    }

    pub fn persistence_mode(&self) -> (mode: PersistenceMode)
        ensures
            mode == self@.mode,
    {
        self.persistence_mode
    }

    pub fn set_persistence_mode(&mut self, mode: PersistenceMode)
        ensures
            final(self)@ == (SimView { mode, ..old(self)@ }),
            old(self).wf() ==> final(self).wf(),
    {
        self.persistence_mode = mode;
        proof {
            if old(self).wf() {
                old(self)@.lemma_wf_same(self@);
            }
        }
    }

    pub fn stats(&self) -> (stats: &FaultStats)
        ensures
            *stats == self@.stats,
    {
        &self.stats
    }

    pub fn reset_stats(&mut self)
        ensures
            final(self)@ == (SimView { stats: no_stats(), ..old(self)@ }),
            old(self).wf() ==> final(self).wf(),
    {
        self.stats = FaultStats::default();
        proof {
            if old(self).wf() {
                old(self)@.lemma_wf_same(self@);
            }
        }
    }

    /// Turns the fault injection knobs. Nothing is checked until a message is
    /// sent.
    pub fn set_faults(&mut self, faults: FaultConfig)
        ensures
            final(self)@ == (SimView { faults: faults@, ..old(self)@ }),
            old(self).wf() ==> final(self).wf(),
    {
        self.faults = faults;
        proof {
            if old(self).wf() {
                old(self)@.lemma_wf_same(self@);
            }
        }
    }

    /// Imposes a partition, in place of any before. A cell may list only known
    /// nodes, and no node may be in two; the first that breaks this, cell by
    /// cell and by id in a cell, is reported, and nothing changes.
    pub fn set_partitions(&mut self, partitions: Vec<BTreeSet<NodeId>>) -> (out: Result<
        (),
        PartitionError,
    >)
        requires
            old(self).wf(),
        ensures
            match out {
                Ok(()) => {
                    let s = old(self)@;
                    &&& forall|cell: int, id: NodeId|
                        0 <= cell < partitions@.len() ==> #[trigger] model::cell_fault(
                            s.nodes.len(),
                            cells(partitions@),
                            cell,
                            id,
                        ) is None
                    &&& final(self)@ == (SimView {
                        faults: FaultView { partitions: cells(partitions@), ..s.faults },
                        stats: FaultStats {
                            partitions_imposed: if partitions@.len() > 0 {
                                s.stats.partitions_imposed.saturating_add(1)
                            } else {
                                s.stats.partitions_imposed
                            },
                            ..s.stats
                        },
                        ..s
                    })
                },
                Err(e) => {
                    &&& exists|cell: int, id: NodeId|
                        {
                            &&& 0 <= cell < partitions@.len()
                            &&& #[trigger] model::cell_fault(
                                old(self)@.nodes.len(),
                                cells(partitions@),
                                cell,
                                id,
                            ) == Some(e)
                            &&& forall|c: int, k: NodeId|
                                0 <= c < cell || (c == cell && k < id) ==> #[trigger]
                                    model::cell_fault(
                                    old(self)@.nodes.len(),
                                    cells(partitions@),
                                    c,
                                    k,
                                ) is None
                        }
                    &&& final(self)@ == old(self)@
                },
            },
            out is Ok ==> split(old(self)@, cells(partitions@), final(self)@),
            final(self).wf(),
    {
        let ghost view = cells(partitions@);
        let count: usize = self.nodes.len();
        let ghost n_nodes = self@.nodes.len();
        let mut cell: usize = 0;
        while cell < partitions.len()
            invariant
                cell <= partitions@.len(),
                self@ == old(self)@,
                self.wf(),
                count == n_nodes,
                n_nodes == old(self)@.nodes.len(),
                view == cells(partitions@),
                forall|c: int, k: NodeId|
                    0 <= c < cell ==> #[trigger] model::cell_fault(n_nodes, view, c, k) is None,
            decreases partitions@.len() - cell,
        {
            let mut id: u16 = 0;
            while id < 256
                invariant
                    id <= 256,
                    cell < partitions@.len(),
                    self@ == old(self)@,
                    self.wf(),
                    count == n_nodes,
                    n_nodes == old(self)@.nodes.len(),
                    view == cells(partitions@),
                    forall|c: int, k: NodeId|
                        0 <= c < cell || (c == cell && k < id) ==> #[trigger] model::cell_fault(
                            n_nodes,
                            view,
                            c,
                            k,
                        ) is None,
                decreases 256 - id,
            {
                let node: NodeId = id as u8;
                if let Some(e) = check_cell(count, &partitions, cell, node) {
                    assert(model::cell_fault(n_nodes, view, cell as int, node) == Some(e));
                    return Err(e);
                }
                id = id + 1;
            }
            cell = cell + 1;
        }
        if partitions.len() > 0 {
            self.stats.partitions_imposed = self.stats.partitions_imposed.saturating_add(1);
        }
        self.faults.partitions = partitions;
        proof {
            old(self)@.lemma_wf_same(self@);
        }
        Ok(())
    }

    /// Everyone can talk again.
    pub fn heal_partitions(&mut self)
        requires
            old(self).wf(),
        ensures
            final(self)@ == (SimView {
                faults: FaultView { partitions: Seq::empty(), ..old(self)@.faults },
                stats: FaultStats {
                    partitions_healed: if old(self)@.faults.partitions.len() > 0 {
                        old(self)@.stats.partitions_healed.saturating_add(1)
                    } else {
                        old(self)@.stats.partitions_healed
                    },
                    ..old(self)@.stats
                },
                ..old(self)@
            }),
            healed(old(self)@, final(self)@),
            final(self).wf(),
    {
        if self.faults.partitions.len() > 0 {
            self.stats.partitions_healed = self.stats.partitions_healed.saturating_add(1);
            self.faults.partitions = Vec::new();
        }
        proof {
            assert(self@.faults.partitions =~= Seq::empty());
            old(self)@.lemma_wf_same(self@);
        }
    }

    /// Crash a node: volatile consensus and application state disappears, while
    /// its virtual disk and historical evidence remain intact. Tells whether it
    /// was alive.
    pub fn crash(&mut self, id: NodeId) -> (out: Result<bool, Failure>)
        requires
            old(self).wf(),
            old(self)@.known(id),
        ensures
            match out {
                Ok(crashed) => {
                    &&& old(self)@.crash(id) == Ok::<_, Failure>((final(self)@, crashed))
                    &&& final(self).wf()
                },
                Err(e) => old(self)@.crash(id) == Err::<(SimView, bool), _>(e),
            },
            final(self)@.nodes.len() == old(self)@.nodes.len(),
    {
        let i: usize = (id - 1) as usize;
        let ghost before = self@;
        let ghost n = before.at(id);
        assert(n == self.nodes@[i as int]@);
        if !self.nodes[i].alive {
            return Ok(false);
        }
        let peers = copy_ids(&self.nodes[i].core.peers);
        let boot: u64 = self.nodes[i].boot_count;
        let core = RaftNode::new(id, peers, node_seed(self.seed, id, boot));
        self.nodes[i].core = core;
        self.nodes[i].alive = false;
        self.nodes[i].applied = Vec::new();
        self.nodes[i].settled = false;
        self.nodes[i].synced = false;
        self.stats.crashes = self.stats.crashes.saturating_add(1);
        let held: usize = self.net.len();
        let mut net: Vec<Envelope> = Vec::new();
        std::mem::swap(&mut net, &mut self.net);
        assert(model::in_order(before.net)) by {
            reveal(SimView::wf);
        }
        self.net = without(net, id);
        let lost: u64 = (held - self.net.len()) as u64;
        self.stats.messages_dropped_to_crashed_nodes =
        self.stats.messages_dropped_to_crashed_nodes.saturating_add(lost);
        proof {
            let down = SimNodeView {
                core: NodeView::booted(
                    id,
                    n.core.peers,
                    model::seed_of(before.seed, id, n.boot_count),
                    HardState { current_term: 0, voted_for: None },
                    Seq::empty(),
                ),
                alive: false,
                applied: Seq::empty(),
                ..n
            };
            assert(self.nodes@[i as int]@ =~= down);
            assert(self@.nodes =~= before.nodes.update(i as int, down));
            reveal(SimView::wf);
            reveal(all_noted);
            assert(self@.wf());
        }
        self.check_all_invariants()?;
        Ok(true)
    }

    /// Restart from only the state represented by the virtual disk. Tells
    /// whether the node was down.
    pub fn restart(&mut self, id: NodeId) -> (out: Result<bool, Failure>)
        requires
            old(self).wf(),
            old(self)@.known(id),
        ensures
            match out {
                Ok(restarted) => {
                    &&& old(self)@.restart(id) == Ok::<_, Failure>((final(self)@, restarted))
                    &&& final(self).wf()
                },
                Err(e) => old(self)@.restart(id) == Err::<(SimView, bool), _>(e),
            },
            final(self)@.nodes.len() == old(self)@.nodes.len(),
    {
        let i: usize = (id - 1) as usize;
        let ghost before = self@;
        let ghost n = before.at(id);
        assert(n == self.nodes@[i as int]@);
        if self.nodes[i].alive {
            return Ok(false);
        }
        let boot: u64 = self.nodes[i].boot_count.wrapping_add(1);
        let peers = copy_ids(&self.nodes[i].core.peers);
        let hard = self.nodes[i].disk_hard.clone();
        let log = copy_entries(self.nodes[i].disk_log.as_slice());
        let core = match RaftNode::restore(id, peers, node_seed(self.seed, id, boot), hard, log) {
            Ok(core) => core,
            Err(_) => {
                proof {
                    lemma_not_bootable(n.disk_hard, n.disk_log);
                }
                return Err(self.fail(Violation::RestoreRefused { node: id }));
            },
        };
        self.nodes[i].core = core;
        self.nodes[i].alive = true;
        self.nodes[i].applied = Vec::new();
        self.nodes[i].boot_count = boot;
        self.nodes[i].settled = false;
        self.nodes[i].synced = false;
        self.stats.restarts = self.stats.restarts.saturating_add(1);
        proof {
            let up = SimNodeView {
                core: NodeView::booted(
                    id,
                    n.core.peers,
                    model::seed_of(before.seed, id, boot),
                    n.disk_hard,
                    n.disk_log,
                ),
                alive: true,
                applied: Seq::empty(),
                boot_count: boot,
                ..n
            };
            assert(self.nodes@[i as int]@ =~= up);
            assert(self@.nodes =~= before.nodes.update(i as int, up));
            before.lemma_wf_with(id, up, self@);
            reveal(all_noted);
        }
        let now_ms: u64 = self.now_ms;
        self.react(id, Input::Tick { now_ms }, false)?;
        Ok(true)
    }

    /// Test seam: hand-construct a node's log (core and virtual disk together,
    /// as if it had been legitimately persisted before the scenario starts).
    pub fn seed_log(&mut self, id: NodeId, entries: Vec<Entry>)
        requires
            old(self).wf(),
            old(self)@.known(id),
            types::contiguous(entries@),
        ensures
            ({
                let n = old(self)@.at(id);
                final(self)@ == old(self)@.with(
                    id,
                    (SimNodeView {
                        core: (NodeView { log: entries@, ..n.core }),
                        disk_log: entries@,
                        ..n
                    }),
                )
            }),
            final(self).wf(),
    {
        let i: usize = (id - 1) as usize;
        let ghost before = self@;
        let ghost n = before.at(id);
        assert(n == self.nodes@[i as int]@);
        assert(entries.len() <= u64::MAX);
        let log = copy_entries(entries.as_slice());
        self.nodes[i].core.log = log;
        self.nodes[i].disk_log = entries;
        self.nodes[i].settled = false;
        self.nodes[i].synced = false;
        proof {
            let m = SimNodeView {
                core: NodeView { log: entries@, ..n.core },
                disk_log: entries@,
                ..n
            };
            assert(self.nodes@[i as int]@ =~= m);
            assert(self@.nodes =~= before.nodes.update(i as int, m));
            reveal(SimView::wf);
            reveal(all_noted);
            before.lemma_wf_with(id, m, self@);
        }
    }

    /// Test seam: hand-construct a node's hard state (core and virtual disk).
    pub fn seed_hard_state(&mut self, id: NodeId, hs: HardState)
        requires
            old(self).wf(),
            old(self)@.known(id),
        ensures
            ({
                let n = old(self)@.at(id);
                final(self)@ == old(self)@.with(
                    id,
                    (SimNodeView {
                        core: (NodeView { hard: hs, ..n.core }),
                        disk_hard: hs,
                        last_term_seen: hs.current_term,
                        ..n
                    }),
                )
            }),
            final(self).wf(),
    {
        let i: usize = (id - 1) as usize;
        let ghost before = self@;
        let ghost n = before.at(id);
        assert(n == self.nodes@[i as int]@);
        self.nodes[i].last_term_seen = hs.current_term;
        self.nodes[i].core.hard = hs.clone();
        self.nodes[i].disk_hard = hs;
        proof {
            let m = SimNodeView {
                core: NodeView { hard: hs, ..n.core },
                disk_hard: hs,
                last_term_seen: hs.current_term,
                ..n
            };
            assert(self.nodes@[i as int]@ =~= m);
            assert(self@.nodes =~= before.nodes.update(i as int, m));
            reveal(SimView::wf);
            reveal(all_noted);
            before.lemma_wf_with(id, m, self@);
        }
    }

    /// A client PUT delivered to a node. Returns a copy of the emitted effects,
    /// so that the outcome can be inspected.
    pub fn client_put(&mut self, node: NodeId, key: &str, value: &str) -> (out: Result<
        Vec<Effect>,
        Failure,
    >)
        requires
            old(self).wf(),
            old(self)@.known(node),
        ensures
            exists|command: Command|
                command@ == (types::CommandView::Put { key: key@, value: value@ })
                    && #[trigger] proposed(old(self)@, node, command, out, final(self)@),
            put_asked(old(self)@, node, key@, value@, out, final(self)@),
            out is Ok ==> final(self).wf(),
            final(self)@.nodes.len() == old(self)@.nodes.len(),
    {
        let command = Command::Put { key: key.to_owned(), value: value.to_owned() };
        self.propose(node, command)
    }

    /// A client DELETE delivered to a node.
    pub fn client_delete(&mut self, node: NodeId, key: &str) -> (out: Result<
        Vec<Effect>,
        Failure,
    >)
        requires
            old(self).wf(),
            old(self)@.known(node),
        ensures
            exists|command: Command|
                command@ == (types::CommandView::Delete { key: key@ }) && #[trigger] proposed(
                    old(self)@,
                    node,
                    command,
                    out,
                    final(self)@,
                ),
            delete_asked(old(self)@, node, key@, out, final(self)@),
            out is Ok ==> final(self).wf(),
            final(self)@.nodes.len() == old(self)@.nodes.len(),
    {
        let command = Command::Delete { key: key.to_owned() };
        self.propose(node, command)
    }

    fn propose(&mut self, id: NodeId, command: Command) -> (out: Result<Vec<Effect>, Failure>)
        requires
            old(self).wf(),
            old(self)@.known(id),
        ensures
            proposed(old(self)@, id, command, out, final(self)@),
            out is Ok ==> final(self).wf(),
            final(self)@.nodes.len() == old(self)@.nodes.len(),
    {
        let i: usize = (id - 1) as usize;
        assert(self@.at(id) == self.nodes@[i as int]@);
        if !self.nodes[i].alive {
            let none: Vec<Effect> = Vec::new();
            assert(message::effects_view(none@) =~= Seq::empty());
            return Ok(none);
        }
        self.react(id, Input::ClientPropose { command }, true)
    }

    /// Test seam: deliver a message immediately, bypassing the virtual network;
    /// returns a copy of the emitted effects for inspection.
    pub fn deliver_now(&mut self, from: NodeId, to: NodeId, msg: RaftMessage) -> (out: Result<
        Vec<Effect>,
        Failure,
    >)
        requires
            old(self).wf(),
            old(self)@.known(to),
        ensures
            match out {
                Ok(effects) => {
                    &&& old(self)@.deliver_now(from, to, msg@) == Ok::<_, Failure>(
                        (final(self)@, message::effects_view(effects@)),
                    )
                    &&& final(self).wf()
                },
                Err(e) => old(self)@.deliver_now(from, to, msg@) == Err::<
                    (SimView, Seq<EffectView>),
                    _,
                >(e),
            },
            final(self)@.nodes.len() == old(self)@.nodes.len(),
    {
        let i: usize = (to - 1) as usize;
        assert(self@.at(to) == self.nodes@[i as int]@);
        self.stats.messages_attempted = self.stats.messages_attempted.saturating_add(1);
        if !self.nodes[i].alive {
            self.stats.messages_dropped_to_crashed_nodes =
            self.stats.messages_dropped_to_crashed_nodes.saturating_add(1);
            let none: Vec<Effect> = Vec::new();
            proof {
                assert(message::effects_view(none@) =~= Seq::empty());
                old(self)@.lemma_wf_same(self@);
            }
            return Ok(none);
        }
        self.stats.messages_delivered = self.stats.messages_delivered.saturating_add(1);
        proof {
            old(self)@.lemma_wf_same(self@);
        }
        self.react(to, Input::Message { from, msg }, true)
    }
}

/// What came of a proposal.
pub open spec fn proposed(
    s: SimView,
    id: NodeId,
    command: Command,
    out: Result<Vec<Effect>, Failure>,
    t: SimView,
) -> bool {
    match out {
        Ok(effects) => s.propose(id, command) == Ok::<_, Failure>(
            (t, message::effects_view(effects@)),
        ),
        Err(e) => s.propose(id, command) == Err::<(SimView, Seq<EffectView>), _>(e),
    }
}

/// What came of a client's wish to store a value.
pub open spec fn put_asked(
    s: SimView,
    id: NodeId,
    key: Seq<char>,
    value: Seq<char>,
    out: Result<Vec<Effect>, Failure>,
    t: SimView,
) -> bool {
    exists|command: Command|
        command@ == (types::CommandView::Put { key, value }) && #[trigger] proposed(
            s,
            id,
            command,
            out,
            t,
        )
}

/// What came of a client's wish to remove a value.
pub open spec fn delete_asked(
    s: SimView,
    id: NodeId,
    key: Seq<char>,
    out: Result<Vec<Effect>, Failure>,
    t: SimView,
) -> bool {
    exists|command: Command|
        command@ == (types::CommandView::Delete { key }) && #[trigger] proposed(
            s,
            id,
            command,
            out,
            t,
        )
}

/// The partition is imposed in place of any before.
pub open spec fn split(s: SimView, partitions: Seq<Set<NodeId>>, t: SimView) -> bool {
    t == (SimView {
        faults: FaultView { partitions, ..s.faults },
        stats: FaultStats {
            partitions_imposed: if partitions.len() > 0 {
                s.stats.partitions_imposed.saturating_add(1)
            } else {
                s.stats.partitions_imposed
            },
            ..s.stats
        },
        ..s
    })
}

/// No partition is imposed any more.
pub open spec fn healed(s: SimView, t: SimView) -> bool {
    t == (SimView {
        faults: FaultView { partitions: Seq::empty(), ..s.faults },
        stats: FaultStats {
            partitions_healed: if s.faults.partitions.len() > 0 {
                s.stats.partitions_healed.saturating_add(1)
            } else {
                s.stats.partitions_healed
            },
            ..s.stats
        },
        ..s
    })
}

/// The predicate did not hold of the world after so many steps.
pub open spec fn missed<F: Fn(&Sim) -> bool>(s: SimView, n: nat, pred: F) -> bool {
    exists|here: Sim| #[trigger]
        here@ == (s.steps(None, n)->Ok_0) && pred.ensures((&here,), false)
}

/// So many steps lead from one world to the other, and before none of them the
/// predicate held.
pub open spec fn ran<F: Fn(&Sim) -> bool>(s: SimView, n: nat, t: SimView, pred: F) -> bool {
    &&& s.steps(None, n) == Ok::<_, Failure>(t)
    &&& forall|k: nat| k < n ==> #[trigger] missed(s, k, pred)
}

/// What is wrong with the node in the cell, if anything.
fn check_cell(
    count: usize,
    partitions: &Vec<BTreeSet<NodeId>>,
    cell: usize,
    id: NodeId,
) -> (fault: Option<PartitionError>)
    requires
        cell < partitions@.len(),
    ensures
        fault == model::cell_fault(count as nat, cells(partitions@), cell as int, id),
{
    let ghost view = cells(partitions@);
    assert(view[cell as int] == partitions@[cell as int]@);
    if !partitions[cell].contains(&id) {
        return None;
    }
    if id < 1 || id as usize > count {
        return Some(PartitionError::UnknownNode { id });
    }
    let mut i: usize = 0;
    while i < cell
        invariant
            i <= cell < partitions@.len(),
            view == cells(partitions@),
            view[cell as int].contains(id),
            1 <= id <= count,
            forall|k: int| 0 <= k < i ==> !(#[trigger] view[k]).contains(id),
        decreases cell - i,
    {
        assert(view[i as int] == partitions@[i as int]@);
        if partitions[i].contains(&id) {
            assert(view[i as int].contains(id));
            return Some(PartitionError::ListedTwice { id });
        }
        i = i + 1;
    }
    None
}

/// The messages that are not for the node, in order.
fn without(net: Vec<Envelope>, id: NodeId) -> (out: Vec<Envelope>)
    requires
        model::in_order(net@.map_values(|e: Envelope| e@)),
    ensures
        out@.len() <= net@.len(),
        out@.map_values(|e: Envelope| e@) == net@.map_values(|e: Envelope| e@).filter(
            |e: EnvelopeView| e.to != id,
        ),
        model::in_order(out@.map_values(|e: Envelope| e@)),
{
    let ghost all = net@;
    let ghost view = net@.map_values(|e: Envelope| e@);
    let ghost keeps = |e: EnvelopeView| e.to != id;
    let mut out: Vec<Envelope> = Vec::new();
    let ghost mut seen: int = 0;
    proof {
        reveal(Seq::filter);
        assert(out@.map_values(|e: Envelope| e@) =~= view.take(0).filter(keeps));
    }
    for env in items: net
        invariant
            items.seq() == all,
            seen == items.index(),
            view == all.map_values(|e: Envelope| e@),
            keeps == (|e: EnvelopeView| e.to != id),
            model::in_order(view),
            out@.len() <= seen,
            out@.map_values(|e: Envelope| e@) == view.take(seen).filter(keeps),
            forall|i: int, j: int|
                #![trigger out@[i], out@[j]]
                0 <= i < j < out@.len() ==> out@[i].at <= out@[j].at,
            forall|i: int, j: int|
                #![trigger out@[i], view[j]]
                0 <= i < out@.len() && seen <= j < view.len() ==> out@[i].at <= view[j].at,
    {
        let ghost before = out@;
        proof {
            reveal(Seq::filter);
            assert(view.take(seen + 1).drop_last() =~= view.take(seen));
            assert(view.take(seen + 1).last() == view[seen]);
            assert(view[seen] == env@);
        }
        if env.to != id {
            out.push(env);
            assert(out@.map_values(|e: Envelope| e@) =~= before.map_values(
                |e: Envelope| e@,
            ).push(env@));
        }
        proof {
            seen = seen + 1;
        }
    }
    proof {
        assert(view.take(seen) =~= view);
        let kept = out@.map_values(|e: Envelope| e@);
        assert forall|i: int, j: int| 0 <= i < j < kept.len() implies kept[i].at
            <= kept[j].at by {
            assert(kept[i] == out@[i]@ && kept[j] == out@[j]@);
        }
    }
    out
}

/// A copy of the ids.
fn copy_ids(ids: &Vec<NodeId>) -> (out: Vec<NodeId>)
    ensures
        out@ == ids@,
{
    let mut out: Vec<NodeId> = Vec::new();
    let mut i: usize = 0;
    while i < ids.len()
        invariant
            i <= ids@.len(),
            out@ == ids@.take(i as int),
        decreases ids@.len() - i,
    {
        out.push(ids[i]);
        assert(ids@.take(i + 1) =~= ids@.take(i as int).push(ids@[i as int]));
        i = i + 1;
    }
    assert(ids@.take(i as int) =~= ids@);
    out
}

/// A disk with a fault cannot be booted from.
proof fn lemma_not_bootable(hard: HardState, log: Seq<Entry>)
    requires
        exists|i: int|
            0 <= i < log.len() && #[trigger] crate::node::restore_fault(hard, log, i) is Some,
    ensures
        !model::bootable(hard, log),
{
    let i = choose|i: int|
        0 <= i < log.len() && #[trigger] crate::node::restore_fault(hard, log, i) is Some;
    if model::bootable(hard, log) {
        assert(log[i].index == i + 1);
        assert(log[i].term <= log[log.len() - 1].term);
        if i > 0 {
            assert(log[i - 1].term <= log[i].term);
        }
        assert(false);
    }
}

/// A run that has failed goes nowhere.
proof fn lemma_stuck(s: SimView, only: Option<Seq<NodeId>>, k: nat, n: nat)
    requires
        k <= n,
        s.steps(only, k) is Err,
    ensures
        s.steps(only, n) == s.steps(only, k),
    decreases n,
{
    if k < n {
        lemma_stuck(s, only, k, (n - 1) as nat);
    }
}

} // verus!
