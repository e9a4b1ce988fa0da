//! The simulated world as a mathematical value, and what happens in it.

use vstd::prelude::*;

use crate::invariants::{
    histories_agree, holds_at, lacks, logs_match, structured, with_committed,
    with_leader, Failure, Violation,
};
use crate::message::{EffectView, InputView, MessageView};
use crate::node::{NodeView, TICK_MS};
use crate::rng::Pcg32;
use crate::types;
use crate::types::{Command, Entry, EntryView, HardState, LogIndex, NodeId, Term};

use super::{FaultStats, PersistenceMode, BOOT_SEED_MULT, DROP_ALL, NODE_SEED_MULT};

verus! {

/// A simulated node: the core, its disk, and what the checks remember of it.
#[verifier::ext_equal]
pub struct SimNodeView {
    pub core: NodeView,
    pub alive: bool,
    pub disk_hard: HardState,
    pub disk_log: Seq<Entry>,
    pub last_term_seen: Term,
    pub applied: Seq<(LogIndex, Command)>,
    pub registered_commit: LogIndex,
    pub boot_count: u64,
    pub observed_core_log: Seq<EntryView>,
    pub observed_disk_log: Seq<EntryView>,
    pub observed_applied_len: nat,
    pub observed_leader_term: Option<Term>,
}

/// A message on its way, with the time at which it arrives.
pub struct EnvelopeView {
    pub at: u64,
    pub from: NodeId,
    pub to: NodeId,
    pub msg: MessageView,
}

/// The fault injection knobs.
#[verifier::ext_equal]
pub struct FaultView {
    pub drop_threshold: u64,
    pub partitions: Seq<Set<NodeId>>,
    pub delay_min_ms: u64,
    pub delay_max_ms: u64,
}

/// The whole world. Node `i` stands at position `i - 1`.
#[verifier::ext_equal]
pub struct SimView {
    pub seed: u64,
    pub now_ms: u64,
    pub nodes: Seq<SimNodeView>,
    pub net: Seq<EnvelopeView>,
    pub rng: Pcg32,
    pub faults: FaultView,
    pub leaders: Map<Term, NodeId>,
    pub committed: Map<LogIndex, Entry>,
    pub mode: PersistenceMode,
    pub stats: FaultStats,
}

/// The seed of a node's boot, from the run's seed.
pub open spec fn seed_of(master: u64, id: NodeId, boot: u64) -> u64 {
    master ^ (id as u64).wrapping_mul(NODE_SEED_MULT) ^ boot.wrapping_mul(BOOT_SEED_MULT)
}

/// The cell that a node is in: the first that lists it, or none.
pub open spec fn cell_of(partitions: Seq<Set<NodeId>>, n: NodeId, i: int) -> Option<int>
    decreases partitions.len() - i,
{
    if i < 0 || i >= partitions.len() {
        None
    } else if partitions[i].contains(n) {
        Some(i)
    } else {
        cell_of(partitions, n, i + 1)
    }
}

/// How many of the first messages arrive by the given time.
pub open spec fn due(net: Seq<EnvelopeView>, at: u64) -> int
    decreases net.len(),
{
    if net.len() == 0 || net[0].at > at {
        0
    } else {
        1 + due(net.skip(1), at)
    }
}

/// The messages on their way are kept in the order in which they arrive; of
/// those that arrive at the same time, the one sent first comes first.
pub open spec fn in_order(net: Seq<EnvelopeView>) -> bool {
    forall|i: int, j: int| 0 <= i < j < net.len() ==> net[i].at <= net[j].at
}

/// A batch puts something on disk after it has sent a message.
pub open spec fn late_persist(batch: Seq<EffectView>, j: int) -> bool {
    (batch[j] is PersistHardState || batch[j] is PersistLogEntries) && exists|i: int|
        0 <= i < j && #[trigger] batch[i] is Send
}

/// The disk's log after a write.
pub open spec fn written(
    log: Seq<Entry>,
    truncate_from: Option<LogIndex>,
    entries: Seq<Entry>,
) -> Seq<Entry> {
    match truncate_from {
        Some(from) => log.filter(|e: Entry| e.index < from) + entries,
        None => log + entries,
    }
}

/// The first fault of an applied history from its `i`-th application on: it must
/// run 1, 2, 3 and so on, each with the log's command.
pub open spec fn history_fault(n: SimNodeView, id: NodeId, i: int) -> Option<Violation>
    decreases n.applied.len() - i,
{
    if i < 0 || i >= n.applied.len() {
        None
    } else if n.applied[i].0 != i + 1 {
        Some(Violation::AppliedIndex { node: id, expected: (i + 1) as u64 })
    } else if n.core.log[i].command@ != n.applied[i].1@ {
        Some(Violation::AppliedCommand { node: id, index: (i + 1) as u64 })
    } else {
        history_fault(n, id, i + 1)
    }
}

/// What a look at all the nodes has found: what changed, what was newly
/// committed, and who newly leads.
#[verifier::ext_equal]
pub struct ScanView {
    pub core: bool,
    pub disk: bool,
    pub applied: bool,
    pub committed: Seq<Entry>,
    pub leaders: Seq<(NodeId, Term)>,
}

/// Nothing found yet.
pub open spec fn nothing() -> ScanView {
    ScanView {
        core: false,
        disk: false,
        applied: false,
        committed: Seq::empty(),
        leaders: Seq::empty(),
    }
}

/// The term that the node leads, if it does.
pub open spec fn leads(n: SimNodeView) -> Option<Term> {
    if n.alive && n.core.is_leader() {
        Some(n.core.hard.current_term)
    } else {
        None
    }
}

/// What is wrong with a node, if anything, given what was found before.
pub open spec fn node_fault(
    mode: PersistenceMode,
    id: NodeId,
    n: SimNodeView,
    applied_before: bool,
) -> Option<Violation> {
    let core = types::log_view(n.core.log) != n.observed_core_log;
    let disk = types::log_view(n.disk_log) != n.observed_disk_log;
    let applied = n.applied.len() != n.observed_applied_len;
    if core && n.alive && !structured(n.core.log) {
        Some(Violation::LogStructure { node: id, durable: false })
    } else if disk && mode == PersistenceMode::Durable && !structured(n.disk_log) {
        Some(Violation::LogStructure { node: id, durable: true })
    } else if !n.alive {
        None
    } else if n.core.hard.current_term < n.last_term_seen {
        Some(
            Violation::TermWentBack {
                node: id,
                from: n.last_term_seen,
                to: n.core.hard.current_term,
            },
        )
    } else if !(n.core.last_applied <= n.core.commit_index && n.core.commit_index
        <= types::last_index(n.core.log)) {
        Some(Violation::ProgressBounds { node: id })
    } else if n.applied.len() != n.core.last_applied {
        Some(Violation::AppliedCount { node: id })
    } else if applied_before || applied {
        history_fault(n, id, 0)
    } else {
        None
    }
}

/// The node, with what the checks remember brought up to date.
pub open spec fn looked_at(n: SimNodeView) -> SimNodeView {
    let seen = SimNodeView {
        observed_core_log: types::log_view(n.core.log),
        observed_disk_log: types::log_view(n.disk_log),
        observed_applied_len: n.applied.len(),
        observed_leader_term: leads(n),
        ..n
    };
    if !n.alive {
        seen
    } else {
        SimNodeView {
            last_term_seen: n.core.hard.current_term,
            registered_commit: if n.core.is_leader() && n.core.commit_index
                > n.registered_commit {
                n.core.commit_index
            } else {
                n.registered_commit
            },
            ..seen
        }
    }
}

/// What was found, with what a look at one more node adds.
pub open spec fn found(acc: ScanView, id: NodeId, n: SimNodeView) -> ScanView {
    ScanView {
        core: acc.core || types::log_view(n.core.log) != n.observed_core_log,
        disk: acc.disk || types::log_view(n.disk_log) != n.observed_disk_log,
        applied: acc.applied || n.applied.len() != n.observed_applied_len,
        committed: if n.alive && n.core.is_leader() && n.core.commit_index
            > n.registered_commit {
            acc.committed + n.core.log.subrange(
                n.registered_commit as int,
                n.core.commit_index as int,
            )
        } else {
            acc.committed
        },
        leaders: if leads(n) is Some && leads(n) != n.observed_leader_term {
            acc.leaders.push((id, leads(n)->0))
        } else {
            acc.leaders
        },
    }
}

/// The registry with all these entries recorded.
pub open spec fn all_committed(
    registry: Map<LogIndex, Entry>,
    seed: u64,
    entries: Seq<Entry>,
) -> Result<Map<LogIndex, Entry>, Failure>
    decreases entries.len(),
{
    if entries.len() == 0 {
        Ok(registry)
    } else {
        match all_committed(registry, seed, entries.drop_last()) {
            Err(e) => Err(e),
            Ok(r) => with_committed(r, seed, entries.last()),
        }
    }
}

/// How many of the first `n` disks hold the entry at the index.
pub open spec fn copies(
    nodes: Seq<SimNodeView>,
    n: int,
    index: LogIndex,
    entry: Entry,
) -> nat
    decreases n,
{
    if n <= 0 {
        0
    } else {
        copies(nodes, n - 1, index, entry) + if holds_at(nodes[n - 1].disk_log, index, entry) {
            1nat
        } else {
            0
        }
    }
}

impl SimView {
    pub open spec fn known(self, id: NodeId) -> bool {
        1 <= id <= self.nodes.len()
    }

    pub open spec fn at(self, id: NodeId) -> SimNodeView {
        self.nodes[id - 1]
    }

    pub open spec fn with(self, id: NodeId, n: SimNodeView) -> SimView {
        SimView { nodes: self.nodes.update(id - 1, n), ..self }
    }

    pub open spec fn fails<T>(self, what: Violation) -> Result<T, Failure> {
        Err(Failure { seed: self.seed, what })
    }

    /// What every step keeps: the nodes are numbered from 1 and well formed, the
    /// applied histories run 1, 2, 3 and so on, and the messages are in order.
    #[verifier::opaque]
    pub open spec fn wf(self) -> bool {
        &&& self.nodes.len() <= 255
        &&& self.now_ms + crate::node::ELECTION_MAX_MS <= u64::MAX
        &&& in_order(self.net)
        &&& forall|i: int|
            0 <= i < self.nodes.len() ==> {
                let n = #[trigger] self.nodes[i];
                &&& n.core.wf()
                &&& n.core.id == i + 1
                &&& n.applied.len() <= u64::MAX
                &&& forall|j: int| 0 <= j < n.applied.len() ==> (#[trigger] n.applied[j]).0 == j + 1
            }
    }

    /// What follows of a well-formed world for one of its nodes.
    pub proof fn lemma_wf(self, id: NodeId)
        requires
            self.wf(),
            self.known(id),
        ensures
            self.nodes.len() <= 255,
            self.now_ms + crate::node::ELECTION_MAX_MS <= u64::MAX,
            self.at(id).core.wf(),
            self.at(id).core.id == id,
            self.at(id).applied.len() <= u64::MAX,
    {
        reveal(SimView::wf);
    }

    /// A world that differs in one node only, which is as it should be, and in
    /// things that do not matter, is well formed.
    pub proof fn lemma_wf_with(self, id: NodeId, n: SimNodeView, t: SimView)
        requires
            self.wf(),
            self.known(id),
            t.nodes == self.nodes.update(id - 1, n),
            t.net == self.net,
            t.now_ms == self.now_ms,
            n.core.wf(),
            n.core.id == id,
            n.applied.len() <= u64::MAX,
            forall|j: int| 0 <= j < n.applied.len() ==> (#[trigger] n.applied[j]).0 == j + 1,
        ensures
            t.wf(),
    {
        reveal(SimView::wf);
    }

    /// A world that differs only in things that do not matter is well formed.
    pub proof fn lemma_wf_same(self, t: SimView)
        requires
            self.wf(),
            t.nodes == self.nodes,
            t.net == self.net,
            t.now_ms == self.now_ms,
        ensures
            t.wf(),
    {
        reveal(SimView::wf);
    }

    /// Nodes in different cells cannot talk; those listed in none share one.
    pub open spec fn partitioned(self, a: NodeId, b: NodeId) -> bool {
        self.faults.partitions.len() > 0 && cell_of(self.faults.partitions, a, 0) != cell_of(
            self.faults.partitions,
            b,
            0,
        )
    }

    /// A boundary at which the node's term must be on disk.
    pub open spec fn term_durable(self, id: NodeId) -> Result<SimView, Failure> {
        let n = self.at(id);
        if self.mode == PersistenceMode::Negligent {
            Ok(self)
        } else if n.disk_hard.current_term != n.core.hard.current_term {
            self.fails(Violation::TermNotDurable { node: id })
        } else {
            Ok(
                SimView {
                    stats: FaultStats {
                        external_effects_checked: self.stats.external_effects_checked.saturating_add(
                            1,
                        ),
                        ..self.stats
                    },
                    ..self
                },
            )
        }
    }

    /// A boundary at which all of the node's durable state must be on disk.
    pub open spec fn fully_durable(self, id: NodeId) -> Result<SimView, Failure> {
        let n = self.at(id);
        if self.mode == PersistenceMode::Negligent {
            Ok(self)
        } else if n.disk_hard != n.core.hard {
            self.fails(Violation::HardStateNotDurable { node: id })
        } else if types::log_view(n.disk_log) != types::log_view(n.core.log) {
            self.fails(Violation::LogNotDurable { node: id })
        } else {
            Ok(
                SimView {
                    stats: FaultStats {
                        external_effects_checked: self.stats.external_effects_checked.saturating_add(
                            1,
                        ),
                        ..self.stats
                    },
                    ..self
                },
            )
        }
    }

    /// A message is handed to the network: it may be lost by chance or by a
    /// partition, or arrives after a drawn delay.
    #[verifier::opaque]
    pub open spec fn enqueue(self, from: NodeId, to: NodeId, msg: MessageView) -> Result<
        SimView,
        Failure,
    > {
        let tried = SimView {
            stats: FaultStats {
                messages_attempted: self.stats.messages_attempted.saturating_add(1),
                ..self.stats
            },
            ..self
        };
        if self.known(to) && !self.at(to).alive {
            Ok(tried.lost_to_crashed())
        } else if self.faults.drop_threshold > DROP_ALL {
            self.fails(
                Violation::InvalidDropThreshold { threshold: self.faults.drop_threshold },
            )
        } else {
            let rolled = if self.faults.drop_threshold > 0 {
                SimView { rng: self.rng.advanced(), ..tried }
            } else {
                tried
            };
            if self.faults.drop_threshold > 0 && (self.rng.output() as u64)
                < self.faults.drop_threshold {
                Ok(
                    SimView {
                        stats: FaultStats {
                            messages_dropped_randomly: rolled.stats.messages_dropped_randomly.saturating_add(
                                1,
                            ),
                            ..rolled.stats
                        },
                        ..rolled
                    },
                )
            } else if rolled.partitioned(from, to) {
                Ok(rolled.lost_to_partition())
            } else {
                let min = if self.faults.delay_min_ms < 1 {
                    1
                } else {
                    self.faults.delay_min_ms
                };
                let max = if self.faults.delay_max_ms < 1 {
                    1
                } else {
                    self.faults.delay_max_ms
                };
                if min > max {
                    self.fails(Violation::InvalidDelayBand { min, max })
                } else {
                    let at = self.now_ms.saturating_add(rolled.rng.draw(min, max));
                    Ok(
                        SimView {
                            rng: rolled.rng.advanced(),
                            net: rolled.net.insert(
                                due(rolled.net, at),
                                EnvelopeView { at, from, to, msg },
                            ),
                            ..rolled
                        },
                    )
                }
            }
        }
    }

    pub open spec fn lost_to_crashed(self) -> SimView {
        SimView {
            stats: FaultStats {
                messages_dropped_to_crashed_nodes:
                    self.stats.messages_dropped_to_crashed_nodes.saturating_add(1),
                ..self.stats
            },
            ..self
        }
    }

    pub open spec fn lost_to_partition(self) -> SimView {
        SimView {
            stats: FaultStats {
                messages_dropped_by_partition:
                    self.stats.messages_dropped_by_partition.saturating_add(1),
                ..self.stats
            },
            ..self
        }
    }

    /// One effect is executed into the virtual world.
    #[verifier::opaque]
    pub open spec fn execute(self, id: NodeId, effect: EffectView) -> Result<SimView, Failure> {
        let n = self.at(id);
        match effect {
            EffectView::PersistHardState(hard) => if self.mode == PersistenceMode::Durable {
                Ok(self.with(id, SimNodeView { disk_hard: hard, ..n }))
            } else {
                Ok(self)
            },
            EffectView::PersistLogEntries { truncate_from, entries } => if self.mode
                == PersistenceMode::Durable {
                Ok(
                    self.with(
                        id,
                        SimNodeView { disk_log: written(n.disk_log, truncate_from, entries), ..n },
                    ),
                )
            } else {
                Ok(self)
            },
            EffectView::Send { to, msg } => match self.fully_durable(id) {
                Ok(s) => s.enqueue(id, to, msg),
                Err(e) => Err(e),
            },
            EffectView::RoleChanged { role_name, .. } => if role_name == "Follower"@ {
                self.term_durable(id)
            } else {
                self.fully_durable(id)
            },
            EffectView::Apply(entry) => match self.fully_durable(id) {
                Ok(s) => if entry.index != n.applied.len() + 1 {
                    self.fails(
                        Violation::AppliedOutOfOrder {
                            node: id,
                            index: entry.index,
                            expected: (n.applied.len() as u64).saturating_add(1),
                        },
                    )
                } else {
                    Ok(
                        s.with(
                            id,
                            SimNodeView {
                                applied: n.applied.push((entry.index, entry.command)),
                                ..n
                            },
                        ),
                    )
                },
                Err(e) => Err(e),
            },
            EffectView::ProposeAccepted { .. } => self.fully_durable(id),
            EffectView::ProposeRejected { .. } => self.fully_durable(id),
        }
    }

    /// The effects from the `i`-th on are executed in order; at the end all of
    /// the node's durable state must be on disk.
    pub open spec fn execute_from(self, id: NodeId, effects: Seq<EffectView>, i: int) -> Result<
        SimView,
        Failure,
    >
        decreases effects.len() - i,
    {
        if i < 0 || i >= effects.len() {
            self.fully_durable(id)
        } else {
            match self.execute(id, effects[i]) {
                Ok(s) => s.execute_from(id, effects, i + 1),
                Err(e) => Err(e),
            }
        }
    }

    /// A whole batch is audited, counted and executed.
    #[verifier::opaque]
    pub open spec fn execute_batch(self, id: NodeId, effects: Seq<EffectView>) -> Result<
        SimView,
        Failure,
    > {
        if exists|j: int| 0 <= j < effects.len() && #[trigger] late_persist(effects, j) {
            self.fails(Violation::PersistAfterSend { node: id })
        } else {
            SimView {
                stats: FaultStats {
                    effect_batches_audited: self.stats.effect_batches_audited.saturating_add(1),
                    ..self.stats
                },
                ..self
            }.execute_from(id, effects, 0)
        }
    }

    /// All the nodes from the `i`-th on are looked at.
    pub open spec fn scan_from(self, i: int, acc: ScanView) -> Result<(SimView, ScanView), Failure>
        decreases self.nodes.len() - i,
    {
        if i < 0 || i >= self.nodes.len() {
            Ok((self, acc))
        } else {
            let id = (i + 1) as u8;
            let n = self.nodes[i];
            match node_fault(self.mode, id, n, acc.applied) {
                Some(what) => self.fails(what),
                None => SimView {
                    nodes: self.nodes.update(i, looked_at(n)),
                    ..self
                }.scan_from(i + 1, found(acc, id, n)),
            }
        }
    }

    /// A look at the nodes leaves them as many, and finds leaders among them.
    pub proof fn lemma_leaders_known(self, i: int, acc: ScanView)
        requires
            self.nodes.len() <= 255,
            0 <= i,
            forall|k: int| 0 <= k < acc.leaders.len() ==> self.known((#[trigger] acc.leaders[k]).0),
        ensures
            self.scan_from(i, acc) matches Ok((s, f)) ==> s.nodes.len() == self.nodes.len()
                && forall|k: int|
                0 <= k < f.leaders.len() ==> s.known((#[trigger] f.leaders[k]).0),
        decreases self.nodes.len() - i,
    {
        if i < self.nodes.len() {
            let n = self.nodes[i];
            let next = SimView { nodes: self.nodes.update(i, looked_at(n)), ..self };
            next.lemma_leaders_known(i + 1, found(acc, (i + 1) as u8, n));
        }
    }

    /// The first node from the `i`-th on whose disk differs from its core.
    pub open spec fn disk_fault(self, i: int, logs: bool) -> Option<Violation>
        decreases self.nodes.len() - i,
    {
        if i < 0 || i >= self.nodes.len() {
            None
        } else {
            let n = self.nodes[i];
            let id = (i + 1) as u8;
            if n.alive && n.disk_hard != n.core.hard {
                Some(Violation::DiskHardStateDiverged { node: id })
            } else if n.alive && logs && types::log_view(n.disk_log) != types::log_view(
                n.core.log,
            ) {
                Some(Violation::DiskLogDiverged { node: id })
            } else {
                self.disk_fault(i + 1, logs)
            }
        }
    }

    /// What is wrong between two nodes, if anything.
    pub open spec fn pair_fault(self, a: int, b: int, acc: ScanView) -> Option<Violation> {
        let x = self.nodes[a];
        let y = self.nodes[b];
        let (p, q) = ((a + 1) as u8, (b + 1) as u8);
        if acc.core && x.alive && y.alive && !logs_match(x.core.log, y.core.log) {
            Some(Violation::LogMatching { a: p, b: q })
        } else if acc.applied && !histories_agree(x.applied, y.applied) {
            Some(Violation::StateMachineSafety { a: p, b: q })
        } else if acc.disk && self.mode == PersistenceMode::Durable && !logs_match(
            x.disk_log,
            y.disk_log,
        ) {
            Some(Violation::LogMatching { a: p, b: q })
        } else {
            None
        }
    }

    /// The first fault between two nodes, from the pair `a`, `b` on.
    pub open spec fn pairs_fault(self, a: int, b: int, acc: ScanView) -> Option<Violation>
        decreases self.nodes.len() - a, self.nodes.len() - b,
    {
        if a < 0 || a >= self.nodes.len() {
            None
        } else if b <= a || b >= self.nodes.len() {
            self.pairs_fault(a + 1, a + 2, acc)
        } else {
            match self.pair_fault(a, b, acc) {
                Some(what) => Some(what),
                None => self.pairs_fault(a, b + 1, acc),
            }
        }
    }

    /// The new leaders from the `i`-th on are recorded and checked.
    pub open spec fn leaders_from(self, new: Seq<(NodeId, Term)>, i: int) -> Result<
        SimView,
        Failure,
    >
        decreases new.len() - i,
    {
        if i < 0 || i >= new.len() {
            Ok(self)
        } else {
            let (id, term) = new[i];
            match with_leader(self.leaders, self.seed, term, id) {
                Err(e) => Err(e),
                Ok(leaders) => {
                    let log = self.at(id).core.log;
                    if exists|k: LogIndex| #[trigger] lacks(self.committed, log, k) {
                        let k = least_lacking(self.committed, log);
                        self.fails(Violation::LeaderCompleteness { leader: id, term, index: k })
                    } else {
                        SimView { leaders, ..self }.leaders_from(new, i + 1)
                    }
                },
            }
        }
    }

    /// Whether the entry committed at the index is on fewer disks than a
    /// majority.
    pub open spec fn underheld(self, index: LogIndex) -> bool {
        self.committed.contains_key(index) && copies(
            self.nodes,
            self.nodes.len() as int,
            index,
            self.committed[index],
        ) < self.nodes.len() / 2 + 1
    }

    /// All invariants are checked, and what the checks remember is brought up to
    /// date.
    pub open spec fn check(self) -> Result<SimView, Failure> {
        match self.scan_from(0, nothing()) {
            Err(e) => Err(e),
            Ok((s, acc)) => s.check_found(acc),
        }
    }

    /// The checks that follow a look at all the nodes.
    #[verifier::opaque]
    pub open spec fn check_found(self, acc: ScanView) -> Result<SimView, Failure> {
        match all_committed(self.committed, self.seed, acc.committed) {
            Err(e) => Err(e),
            Ok(committed) => SimView { committed, ..self }.check_registered(acc),
        }
    }

    /// The checks that follow the recording of what was newly committed.
    #[verifier::opaque]
    pub open spec fn check_registered(self, acc: ScanView) -> Result<SimView, Failure> {
        let durable = self.mode == PersistenceMode::Durable;
        let disk = if durable {
            self.disk_fault(0, acc.core || acc.disk)
        } else {
            None
        };
        let pairs = if acc.core || acc.disk || acc.applied {
            self.pairs_fault(0, 1, acc)
        } else {
            None
        };
        if disk is Some {
            self.fails(disk->0)
        } else if pairs is Some {
            self.fails(pairs->0)
        } else {
            match self.leaders_from(acc.leaders, 0) {
                Err(e) => Err(e),
                Ok(s) => if durable && (acc.disk || acc.committed.len() > 0) && (exists|
                    k: LogIndex,
                | #[trigger]
                    s.underheld(k)) {
                    s.fails(Violation::CommittedDurability { index: least_underheld(s) })
                } else {
                    Ok(s)
                },
            }
        }
    }

    /// A node takes an input, the effects are executed, and everything checked.
    #[verifier::opaque]
    pub open spec fn react(self, id: NodeId, input: InputView) -> Result<SimView, Failure> {
        let n = self.at(id);
        if !n.core.accepts(input) {
            self.fails(Violation::TermExhausted { node: id })
        } else {
            let (core, effects) = n.core.step(input);
            match self.with(id, SimNodeView { core, ..n }).execute_batch(id, effects) {
                Err(e) => Err(e),
                Ok(s) => s.check(),
            }
        }
    }

    /// A message arrives: unknown and crashed nodes do not take it, and a
    /// partition imposed since it was sent still blocks it.
    #[verifier::opaque]
    pub open spec fn deliver(self, env: EnvelopeView) -> Result<SimView, Failure> {
        if !self.known(env.to) {
            Ok(self)
        } else if !self.at(env.to).alive {
            Ok(self.lost_to_crashed())
        } else if self.partitioned(env.from, env.to) {
            Ok(self.lost_to_partition())
        } else {
            SimView {
                stats: FaultStats {
                    messages_delivered: self.stats.messages_delivered.saturating_add(1),
                    ..self.stats
                },
                ..self
            }.react(env.to, InputView::Message { from: env.from, msg: env.msg })
        }
    }

    /// The messages from the `i`-th on arrive, in order.
    pub open spec fn deliver_from(self, envs: Seq<EnvelopeView>, i: int) -> Result<SimView, Failure>
        decreases envs.len() - i,
    {
        if i < 0 || i >= envs.len() {
            Ok(self)
        } else {
            match self.deliver(envs[i]) {
                Err(e) => Err(e),
                Ok(s) => s.deliver_from(envs, i + 1),
            }
        }
    }

    /// The nodes from the `i`-th on are ticked, those that are alive and whose
    /// clock runs.
    pub open spec fn tick_from(self, only: Option<Seq<NodeId>>, i: int) -> Result<SimView, Failure>
        decreases 256 - i,
    {
        let id = (i + 1) as u8;
        if i < 0 || i >= 255 || i >= self.nodes.len() {
            Ok(self)
        } else if !self.nodes[i].alive || (only is Some && !only->0.contains(id)) {
            self.tick_from(only, i + 1)
        } else {
            match self.react(id, InputView::Tick { now_ms: self.now_ms }) {
                Err(e) => Err(e),
                Ok(s) => s.tick_from(only, i + 1),
            }
        }
    }

    /// One step of the clock: everything due arrives, then the nodes tick.
    pub open spec fn step(self, only: Option<Seq<NodeId>>) -> Result<SimView, Failure> {
        let n = due(self.net, self.now_ms);
        match (SimView { net: self.net.skip(n), ..self }).deliver_from(self.net.take(n), 0) {
            Err(e) => Err(e),
            Ok(s) => match s.tick_from(only, 0) {
                Err(e) => Err(e),
                Ok(t) => Ok(SimView { now_ms: (t.now_ms + TICK_MS) as u64, ..t }),
            },
        }
    }

    /// So many steps of the clock.
    pub open spec fn steps(self, only: Option<Seq<NodeId>>, n: nat) -> Result<SimView, Failure>
        decreases n,
    {
        if n == 0 {
            Ok(self)
        } else {
            match self.steps(only, (n - 1) as nat) {
                Err(e) => Err(e),
                Ok(s) => s.step(only),
            }
        }
    }
}

/// A node of a new world.
pub open spec fn new_node(n_nodes: u8, seed: u64, i: int) -> SimNodeView {
    let hard = HardState { current_term: 0, voted_for: None };
    let id = (i + 1) as u8;
    SimNodeView {
        core: NodeView::booted(
            id,
            peers_of(n_nodes, id),
            seed_of(seed, id, 0),
            hard,
            Seq::empty(),
        ),
        alive: true,
        disk_hard: hard,
        disk_log: Seq::empty(),
        last_term_seen: 0,
        applied: Seq::empty(),
        registered_commit: 0,
        boot_count: 0,
        observed_core_log: Seq::empty(),
        observed_disk_log: Seq::empty(),
        observed_applied_len: 0,
        observed_leader_term: None,
    }
}

/// All the other nodes, in order.
pub open spec fn peers_of(n_nodes: u8, id: NodeId) -> Seq<NodeId> {
    Seq::new(
        (n_nodes - 1) as nat,
        |i: int|
            if i + 1 < id {
                (i + 1) as u8
            } else {
                (i + 2) as u8
            },
    )
}

impl SimView {
    /// A world in which nothing has happened yet.
    pub open spec fn new(n_nodes: u8, seed: u64) -> SimView {
        SimView {
            seed,
            now_ms: 0,
            nodes: Seq::new(n_nodes as nat, |i: int| new_node(n_nodes, seed, i)),
            net: Seq::empty(),
            rng: Pcg32::seeded(seed),
            faults: FaultView {
                drop_threshold: 0,
                partitions: Seq::empty(),
                delay_min_ms: 1,
                delay_max_ms: 20,
            },
            leaders: Map::empty(),
            committed: Map::empty(),
            mode: PersistenceMode::Durable,
            stats: super::no_stats(),
        }
    }

    /// A node crashes: volatile consensus and application state disappears, and
    /// so do the messages on their way to it; the disk remains.
    pub open spec fn crash(self, id: NodeId) -> Result<(SimView, bool), Failure> {
        let n = self.at(id);
        if !n.alive {
            Ok((self, false))
        } else {
            let net = self.net.filter(|e: EnvelopeView| e.to != id);
            let down = SimNodeView {
                core: NodeView::booted(
                    id,
                    n.core.peers,
                    seed_of(self.seed, id, n.boot_count),
                    HardState { current_term: 0, voted_for: None },
                    Seq::empty(),
                ),
                alive: false,
                applied: Seq::empty(),
                ..n
            };
            let crashed = SimView {
                net,
                stats: FaultStats {
                    crashes: self.stats.crashes.saturating_add(1),
                    messages_dropped_to_crashed_nodes:
                        self.stats.messages_dropped_to_crashed_nodes.saturating_add(
                        (self.net.len() - net.len()) as u64,
                    ),
                    ..self.stats
                },
                ..self
            }.with(id, down);
            match crashed.check() {
                Err(e) => Err(e),
                Ok(s) => Ok((s, true)),
            }
        }
    }

    /// A node comes back from what is on its disk alone, and is ticked at once,
    /// so that it has a deadline before any message can arrive.
    pub open spec fn restart(self, id: NodeId) -> Result<(SimView, bool), Failure> {
        let n = self.at(id);
        if n.alive {
            Ok((self, false))
        } else if !bootable(n.disk_hard, n.disk_log) {
            self.fails(Violation::RestoreRefused { node: id })
        } else {
            let boot_count = n.boot_count.wrapping_add(1);
            let up = SimNodeView {
                core: NodeView::booted(
                    id,
                    n.core.peers,
                    seed_of(self.seed, id, boot_count),
                    n.disk_hard,
                    n.disk_log,
                ),
                alive: true,
                applied: Seq::empty(),
                boot_count,
                ..n
            };
            let restarted = SimView {
                stats: FaultStats {
                    restarts: self.stats.restarts.saturating_add(1),
                    ..self.stats
                },
                ..self
            }.with(id, up);
            match restarted.react(id, InputView::Tick { now_ms: self.now_ms }) {
                Err(e) => Err(e),
                Ok(s) => Ok((s, true)),
            }
        }
    }

    /// A client's command reaches a node; a crashed one does not take it. The
    /// effects are what the node asked for.
    pub open spec fn propose(self, id: NodeId, command: Command) -> Result<
        (SimView, Seq<EffectView>),
        Failure,
    > {
        let n = self.at(id);
        let input = InputView::ClientPropose { command };
        if !n.alive {
            Ok((self, Seq::empty()))
        } else {
            match self.react(id, input) {
                Err(e) => Err(e),
                Ok(s) => Ok((s, n.core.step(input).1)),
            }
        }
    }

    /// A message reaches a node at once, past the network.
    pub open spec fn deliver_now(self, from: NodeId, to: NodeId, msg: MessageView) -> Result<
        (SimView, Seq<EffectView>),
        Failure,
    > {
        let n = self.at(to);
        let input = InputView::Message { from, msg };
        let tried = SimView {
            stats: FaultStats {
                messages_attempted: self.stats.messages_attempted.saturating_add(1),
                ..self.stats
            },
            ..self
        };
        if !n.alive {
            Ok((tried.lost_to_crashed(), Seq::empty()))
        } else {
            let arrived = SimView {
                stats: FaultStats {
                    messages_delivered: tried.stats.messages_delivered.saturating_add(1),
                    ..tried.stats
                },
                ..tried
            };
            match arrived.react(to, input) {
                Err(e) => Err(e),
                Ok(s) => Ok((s, n.core.step(input).1)),
            }
        }
    }

    /// Whether the node leads, is alive, and leads the newest term that any
    /// alive node leads; of several in one term, the last.
    pub open spec fn is_the_leader(self, id: NodeId) -> bool {
        &&& self.known(id)
        &&& leads(self.at(id)) is Some
        &&& forall|j: NodeId| #[trigger]
            self.known(j) && leads(self.at(j)) is Some ==> leads(self.at(j))->0 < leads(
                self.at(id),
            )->0 || (leads(self.at(j))->0 == leads(self.at(id))->0 && j <= id)
    }
}

/// Whether a node can boot from this disk.
pub open spec fn bootable(hard: HardState, log: Seq<Entry>) -> bool {
    &&& types::contiguous(log)
    &&& types::nondecreasing_terms(log)
    &&& types::last_term(log) <= hard.current_term
}

/// What is wrong with the node in the cell, if anything: that it is not known, or
/// else that an earlier cell lists it too.
pub open spec fn cell_fault(
    n_nodes: nat,
    partitions: Seq<Set<NodeId>>,
    cell: int,
    id: NodeId,
) -> Option<super::PartitionError> {
    if !partitions[cell].contains(id) {
        None
    } else if !(1 <= id <= n_nodes) {
        Some(super::PartitionError::UnknownNode { id })
    } else if exists|i: int| 0 <= i < cell && (#[trigger] partitions[i]).contains(id) {
        Some(super::PartitionError::ListedTwice { id })
    } else {
        None
    }
}

/// The least index at which the log lacks a committed entry.
pub open spec fn least_lacking(committed: Map<LogIndex, Entry>, log: Seq<Entry>) -> LogIndex {
    choose|k: LogIndex| crate::invariants::first_lacking(committed, log, k)
}

/// The least index whose committed entry is on too few disks.
pub open spec fn least_underheld(s: SimView) -> LogIndex {
    choose|k: LogIndex| #[trigger] first_underheld(s, k)
}

pub open spec fn first_underheld(s: SimView, k: LogIndex) -> bool {
    s.underheld(k) && forall|j: LogIndex| j < k ==> !#[trigger] s.underheld(j)
}

} // verus!
