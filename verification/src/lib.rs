//! A Raft consensus core as a verified state machine, with the service logic
//! around it and a deterministic simulator to try it in.
//!
//! - [`node`], [`election`], [`replication`]: one node, as a function from its
//!   state and an input to its next state and an ordered list of effects;
//! - [`laws`]: what holds of a node's steps, and of every run of a [`cluster`]
//!   over an unreliable network with crashes ([`safety`] and [`runs`] hold the
//!   proofs);
//! - [`driver`], [`kv`], [`http`], [`config`]: what a running node decides
//!   between the core, its disk, its peers and its clients;
//! - [`transport`], [`storage`], [`store`], [`crc`], [`text`]: the links to the
//!   peers, the files of the data directory, and the formats of both;
//! - [`sim`], [`invariants`]: virtual time, network and disks, and the checks
//!   that run after every step.

pub mod cluster;
pub mod config;
pub mod crc;
pub mod driver;
pub mod election;
pub mod http;
pub mod invariants;
pub mod kv;
pub mod laws;
pub mod message;
pub mod node;
pub mod promises;
pub mod replication;
pub mod rng;
pub mod runs;
pub mod safety;
pub mod sim;
pub mod storage;
pub mod store;
pub mod text;
pub mod transport;
pub mod types;

pub use election::{decide_vote, RequestVoteRq};
pub use message::{Effect, Input, RaftMessage};
pub use node::{
    RaftNode, RestoreError, ELECTION_MAX_MS, ELECTION_MIN_MS, HEARTBEAT_MS, MAX_APPEND_ENTRIES,
    TICK_MS,
};
pub use replication::commit_advance;
pub use types::{Command, Entry, HardState, LogIndex, NodeId, Role, Term};
