//! A whole cluster of nodes over an unreliable network, and what holds of it.
//!
//! The network may lose, delay, duplicate and reorder messages; nodes may be
//! restarted, and may crash between any two effects of a batch or in the middle
//! of writing log entries. A [`Cluster`] moves by [`Cluster::happens`]; what the
//! laws state holds in every state of every [`run`].

use vstd::prelude::*;

use crate::message::{EffectView, InputView, MessageView};
use crate::node::{NodeView, Outcome};
use crate::types::{Entry, HardState, LogIndex, NodeId};

verus! {

/// A message on its way. Once sent, it may arrive any number of times, or never.
pub struct Packet {
    pub from: NodeId,
    pub to: NodeId,
    pub msg: MessageView,
}

/// What a node has on disk.
#[verifier::ext_equal]
pub struct Durable {
    pub hard: HardState,
    pub log: Seq<Entry>,
}

/// The log cut off before index `from`, where there is a cut.
pub open spec fn truncated(log: Seq<Entry>, from: Option<LogIndex>) -> Seq<Entry> {
    match from {
        Some(index) if 1 <= index <= log.len() => log.take(index - 1),
        _ => log,
    }
}

impl Durable {
    /// What is on disk once the effect is executed.
    pub open spec fn after(self, effect: EffectView) -> Durable {
        match effect {
            EffectView::PersistHardState(hard) => Durable { hard, ..self },
            EffectView::PersistLogEntries { truncate_from, entries } => Durable {
                log: truncated(self.log, truncate_from) + entries,
                ..self
            },
            _ => self,
        }
    }

    /// What is on disk once the effects are executed in order.
    pub open spec fn after_all(self, effects: Seq<EffectView>) -> Durable
        decreases effects.len(),
    {
        if effects.len() == 0 {
            self
        } else {
            self.after_all(effects.drop_last()).after(effects.last())
        }
    }

    /// What is on disk where the effect is interrupted after `written` of the
    /// entries that it writes. Hard state is replaced as a whole or not at all.
    pub open spec fn torn(self, effect: EffectView, written: nat) -> Durable {
        match effect {
            EffectView::PersistLogEntries { truncate_from, entries } if written
                <= entries.len() => Durable {
                log: truncated(self.log, truncate_from) + entries.take(written as int),
                ..self
            },
            _ => self,
        }
    }
}

/// The messages that a batch of effects sends.
pub open spec fn sends(from: NodeId, effects: Seq<EffectView>) -> Set<Packet> {
    Set::new(
        |p: Packet|
            p.from == from && effects.contains(EffectView::Send { to: p.to, msg: p.msg }),
    )
}

/// The entries that a batch of effects applies.
pub open spec fn applies(effects: Seq<EffectView>) -> Set<Entry> {
    Set::new(|e: Entry| effects.contains(EffectView::Apply(e)))
}

/// The nodes, every message ever sent, and every entry ever applied by any node.
pub struct Cluster {
    pub nodes: Map<NodeId, NodeView>,
    pub sent: Set<Packet>,
    pub applied: Set<Entry>,
}

/// What can happen to a cluster.
pub enum Event {
    /// A node takes an input, and all the effects are executed.
    Step { node: NodeId, input: InputView },
    /// A node takes an input and crashes after executing `cut` of the effects,
    /// where `torn` says how far it came with the next one if it had begun; it
    /// comes back with what is on disk.
    Crash { node: NodeId, input: InputView, cut: nat, torn: Option<nat>, seed: u64 },
    /// A node is stopped between two inputs, and comes back.
    Restart { node: NodeId, seed: u64 },
}

impl NodeView {
    /// What the node has on disk between two inputs.
    pub open spec fn durable(self) -> Durable {
        Durable { hard: self.hard, log: self.log }
    }

    /// The node after a restart from what is on disk.
    pub open spec fn rebooted(self, disk: Durable, seed: u64) -> NodeView {
        NodeView::booted(self.id, self.peers, seed, disk.hard, disk.log)
    }
}

/// What a node does on an input.
#[verifier::opaque]
pub open spec fn reacts(s: NodeView, input: InputView) -> Outcome {
    s.step(input)
}

/// What is on disk where a batch is cut short.
pub open spec fn disk_at(
    disk: Durable,
    effects: Seq<EffectView>,
    cut: nat,
    torn: Option<nat>,
) -> Durable {
    let whole = disk.after_all(effects.take(cut as int));
    match torn {
        Some(written) if cut < effects.len() => whole.torn(effects[cut as int], written),
        _ => whole,
    }
}

impl Cluster {
    /// Every node is new, knows all the others as its peers, and nothing has
    /// happened yet.
    pub open spec fn starts(self) -> bool {
        &&& self.nodes.dom().finite()
        &&& self.sent == Set::<Packet>::empty()
        &&& self.applied == Set::<Entry>::empty()
        &&& forall|n: NodeId| #[trigger]
            self.nodes.contains_key(n) ==> {
                let s = self.nodes[n];
                &&& s.peers.no_duplicates()
                &&& forall|p: NodeId| #[trigger]
                    s.peers.contains(p) <==> self.nodes.contains_key(p) && p != n
                &&& exists|seed: u64|
                    s == #[trigger] NodeView::booted(
                        n,
                        s.peers,
                        seed,
                        HardState { current_term: 0, voted_for: None },
                        Seq::empty(),
                    )
            }
    }

    /// A node can take an input that its state accepts, a message only if it
    /// was sent to it; and its log must still fit the machine afterwards.
    pub open spec fn can_take(self, node: NodeId, input: InputView) -> bool {
        &&& self.nodes.contains_key(node)
        &&& self.nodes[node].accepts(input)
        &&& reacts(self.nodes[node], input).0.log.len() <= u64::MAX
        &&& input matches InputView::Message { from, msg } ==> self.sent.contains(
            Packet { from, to: node, msg },
        )
    }

    /// Whether `self` may become `next` by the event.
    pub open spec fn happens(self, event: Event, next: Cluster) -> bool {
        match event {
            Event::Step { node, input } => {
                let (s, effects) = reacts(self.nodes[node], input);
                &&& self.can_take(node, input)
                &&& next.nodes == self.nodes.insert(node, s)
                &&& next.sent == self.sent.union(sends(node, effects))
                &&& next.applied == self.applied.union(applies(effects))
            },
            Event::Crash { node, input, cut, torn, seed } => {
                let before = self.nodes[node];
                let effects = reacts(before, input).1;
                let done = effects.take(cut as int);
                let disk = disk_at(before.durable(), effects, cut, torn);
                &&& self.can_take(node, input)
                &&& cut <= effects.len()
                &&& next.nodes == self.nodes.insert(node, before.rebooted(disk, seed))
                &&& next.sent == self.sent.union(sends(node, done))
                &&& next.applied == self.applied.union(applies(done))
            },
            Event::Restart { node, seed } => {
                let before = self.nodes[node];
                &&& self.nodes.contains_key(node)
                &&& next.nodes == self.nodes.insert(
                    node,
                    before.rebooted(before.durable(), seed),
                )
                &&& next.sent == self.sent
                &&& next.applied == self.applied
            },
        }
    }
}

/// Whether something that can happen leads from the `i`-th state to the next.
pub open spec fn linked(states: Seq<Cluster>, i: int) -> bool {
    exists|event: Event| #[trigger] states[i].happens(event, states[i + 1])
}

/// A sequence of states, each of which follows from the one before.
pub open spec fn run(states: Seq<Cluster>) -> bool {
    &&& states.len() > 0
    &&& states[0].starts()
    &&& forall|i: int| 0 <= i < states.len() - 1 ==> #[trigger] linked(states, i)
}

} // verus!
