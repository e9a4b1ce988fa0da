# micro-raft

A Raft consensus core, a replicated key-value service around it, and a
deterministic fault-injection simulator, in Rust and verified with Verus.

| Part | What is in it |
|---|---|
| `src/` | The verified library. Every function has a contract, and no part of it is trusted. |
| `tests/` | Acceptance tests: elections, replication, persistence, chaos schedules, formats, decisions. |
| `app/` | The node as a program: command line, files, sockets, HTTP, JSON. |

## The library

- One node is a pure state machine: `NodeView::step` says, for every state and
  input, what the node becomes and which effects it asks for, in order.
  `RaftNode::step` does just that.
- `laws` states what Raft promises: Election Safety, Log Matching, Leader
  Completeness, State Machine Safety and what goes with them, for every run of a
  cluster in which messages are lost, delayed, repeated and reordered, and nodes
  crash between any two effects or in the middle of a write.
- `sim` runs whole clusters in virtual time. `sim::soundness` states that where
  disks are durable the checks never find an invariant broken. One of the checks
  is stricter than Raft: a leader of an older term that learns of its election
  late need not hold what a newer term has committed, and is reported all the
  same. `sim::verdict` states the converse: whatever goes unreported holds, not only
  of what has just changed but of the whole world.
- `driver`, `http`, `kv` and `config` hold the decisions of a running node:
  among them, a client is told of success only when its entry is applied, and
  after a failed write nothing more of a batch is done.
- `storage` and `transport` hold the formats: CRC-framed log lines with recovery
  of a torn tail, and length-prefixed frames. `transport` also decides what
  becomes of a link to a peer: when it is dialed again, and what is dropped.
- `store` says in which steps the files are written, and states what is recovered
  from them after any sequence of writes, wherever one of them breaks off.

## Running a cluster

Each node in a terminal of its own:

```sh
kv-node --id 1 --peers 2@127.0.0.1:7102,3@127.0.0.1:7103 --data-dir data/n1 --http-port 8101 --raft-port 7101
kv-node --id 2 --peers 1@127.0.0.1:7101,3@127.0.0.1:7103 --data-dir data/n2 --http-port 8102 --raft-port 7102
kv-node --id 3 --peers 1@127.0.0.1:7101,2@127.0.0.1:7102 --data-dir data/n3 --http-port 8103 --raft-port 7103
```

`PUT`, `GET` and `DELETE` on `/kv/<key>`; `GET /status`.

Membership is fixed and faults are not Byzantine. There are no snapshots, no
pre-vote and no leases; reads are local, and say how fresh they are.
