//! Why the checks find nothing: a world of durable disks stands for a cluster,
//! and in a safe cluster there is nothing to find.

use vstd::prelude::*;

use crate::cluster::Cluster;
use crate::invariants::{
    histories_agree, holds_at, lacks, logs_match, with_leader, Failure, Violation,
};
use crate::node::NodeView;
use crate::safety;
use crate::safety::{safe, History};
use crate::types;
use crate::types::{Entry, LogIndex, NodeId, Term};

use super::batches::carried;
use super::model::{
    all_committed, copies, found, history_fault, leads, looked_at, node_fault, nothing, ScanView,
    SimNodeView, SimView,
};
use super::PersistenceMode;

verus! {

/// A simulated node stands for a node of a cluster: its disk is that node's, and
/// while it is alive so is its core, of which it has applied all that it should.
#[verifier::opaque]
pub open spec fn node_stands(n: SimNodeView, x: NodeView) -> bool {
    &&& n.disk_hard == x.hard
    &&& n.disk_log == x.log
    &&& n.core.id == x.id
    &&& n.core.peers == x.peers
    &&& n.last_term_seen <= x.hard.current_term
    &&& if n.alive {
        &&& n.core == x
        &&& n.applied.len() == x.last_applied
        &&& forall|k: int|
            0 <= k < n.applied.len() ==> #[trigger] n.applied[k] == ((k + 1) as u64, x.log[k].command)
    } else {
        n.applied.len() == 0
    }
}

/// All the simulated nodes stand for the nodes of a cluster.
#[verifier::opaque]
pub open spec fn nodes_stand(nodes: Seq<SimNodeView>, c: Cluster) -> bool {
    &&& nodes.len() <= 255
    &&& forall|id: NodeId| #[trigger] c.nodes.contains_key(id) <==> 1 <= id <= nodes.len()
    &&& forall|i: int|
        0 <= i < nodes.len() ==> node_stands(#[trigger] nodes[i], c.nodes[(i + 1) as u8])
}

/// What is registered is committed.
#[verifier::opaque]
pub open spec fn registry_stands(registry: Map<LogIndex, Entry>, m: Set<NodeId>, h: History) -> bool {
    forall|k: LogIndex| #[trigger]
        registry.contains_key(k) ==> registry[k].index == k && h.chosen(m, registry[k])
}

/// Who was seen to lead led.
#[verifier::opaque]
pub open spec fn leaders_stand(leaders: Map<Term, NodeId>, h: History) -> bool {
    forall|t: Term| #[trigger]
        leaders.contains_key(t) ==> h.reigns.contains_key(t) && h.reigns[t].leader == leaders[t]
}

/// A world of durable disks stands for a safe cluster.
pub open spec fn stands(s: SimView, c: Cluster, h: History) -> bool {
    &&& s.mode == PersistenceMode::Durable
    &&& safe(c, h)
    &&& nodes_stand(s.nodes, c)
    &&& carried(s.net, c.sent)
    &&& registry_stands(s.committed, c.nodes.dom(), h)
    &&& leaders_stand(s.leaders, h)
}

/// What a node stands for.
pub proof fn lemma_stands(s: SimView, c: Cluster, h: History, id: NodeId)
    requires
        stands(s, c, h),
        s.known(id),
    ensures
        s.nodes.len() <= 255,
        c.nodes.contains_key(id),
        node_stands(s.at(id), c.nodes[id]),
        c.nodes[id].id == id,
        c.nodes[id].wf(),
        c.nodes[id].last_applied <= c.nodes[id].commit_index <= c.nodes[id].log.len(),
        types::contiguous(c.nodes[id].log),
        types::nondecreasing_terms(c.nodes[id].log),
        types::last_term(c.nodes[id].log) <= c.nodes[id].hard.current_term,
{
    reveal(nodes_stand);
    assert(node_stands(s.nodes[id - 1], c.nodes[id]));
    safety::lemma_safe_parts(c, h, id);
    safety::lemma_indices(c, h, id);
    safety::lemma_bootable(c, h, id);
}

/// The history of a node that stands has no fault.
proof fn lemma_no_history_fault(n: SimNodeView, x: NodeView, id: NodeId, i: int)
    requires
        node_stands(n, x),
        x.last_applied <= x.log.len(),
        x.log.len() <= u64::MAX,
        0 <= i,
    ensures
        n.alive ==> history_fault(n, id, i) is None,
    decreases n.applied.len() - i,
{
    reveal(node_stands);
    if n.alive && i < n.applied.len() {
        assert(n.applied[i] == ((i + 1) as u64, x.log[i].command));
        lemma_no_history_fault(n, x, id, i + 1);
    }
}

/// A look at one node finds nothing wrong.
proof fn lemma_no_node_fault(s: SimView, c: Cluster, h: History, id: NodeId, applied: bool)
    requires
        stands(s, c, h),
        s.known(id),
    ensures
        node_fault(s.mode, id, s.at(id), applied) is None,
        node_stands(looked_at(s.at(id)), c.nodes[id]),
{
    lemma_stands(s, c, h, id);
    lemma_no_history_fault(s.at(id), c.nodes[id], id, 0);
    reveal(node_stands);
}

/// What a look at the nodes has found is so.
#[verifier::opaque]
pub open spec fn found_rightly(s: SimView, c: Cluster, h: History, acc: ScanView) -> bool {
    &&& forall|i: int|
        0 <= i < acc.committed.len() ==> h.chosen(c.nodes.dom(), #[trigger] acc.committed[i])
    &&& forall|i: int|
        0 <= i < acc.leaders.len() ==> {
            let (id, term) = #[trigger] acc.leaders[i];
            s.known(id) && leads(s.at(id)) == Some(term)
        }
}

/// The leaders found are new: they were not seen to lead before.
#[verifier::opaque]
pub open spec fn found_newly(nodes: Seq<SimNodeView>, acc: ScanView) -> bool {
    forall|i: int|
        0 <= i < acc.leaders.len() ==> {
            let (id, term) = #[trigger] acc.leaders[i];
            1 <= id <= nodes.len() && nodes[id - 1].observed_leader_term != leads(nodes[id - 1])
        }
}

/// Whoever leads has been seen to.
#[verifier::opaque]
pub open spec fn all_seen(nodes: Seq<SimNodeView>) -> bool {
    forall|i: int|
        0 <= i < nodes.len() ==> (#[trigger] nodes[i]).observed_leader_term == leads(nodes[i])
}

/// A look at all the nodes from the `i`-th on sees every leader there is.
proof fn lemma_seen(s: SimView, start: Seq<SimNodeView>, acc: ScanView, i: int)
    requires
        0 <= i,
        s.nodes.len() == start.len() <= 255,
        forall|j: int| i <= j < start.len() ==> #[trigger] s.nodes[j] == start[j],
        forall|j: int|
            0 <= j < i && j < start.len() ==> (#[trigger] s.nodes[j]).observed_leader_term == leads(
                s.nodes[j],
            ),
        found_newly(start, acc),
    ensures
        s.scan_from(i, acc) matches Ok((t, f)) ==> all_seen(t.nodes) && found_newly(start, f),
    decreases s.nodes.len() - i,
{
    if i < s.nodes.len() {
        let n = s.nodes[i];
        let next = SimView { nodes: s.nodes.update(i, looked_at(n)), ..s };
        let f = found(acc, (i + 1) as u8, n);
        assert(found_newly(start, f)) by {
            reveal(found_newly);
            assert(n == start[i]);
            assert forall|j: int| 0 <= j < f.leaders.len() implies {
                let (id, term) = #[trigger] f.leaders[j];
                1 <= id <= start.len() && start[id - 1].observed_leader_term != leads(start[id - 1])
            } by {
                if j < acc.leaders.len() {
                    assert(f.leaders[j] == acc.leaders[j]);
                }
            }
        }
        lemma_seen(next, start, f, i + 1);
    } else {
        reveal(all_seen);
    }
}

/// One more node found rightly.
proof fn lemma_found(s: SimView, c: Cluster, h: History, acc: ScanView, id: NodeId)
    requires
        stands(s, c, h),
        s.known(id),
        found_rightly(s, c, h, acc),
    ensures
        found_rightly(s, c, h, found(acc, id, s.at(id))),
{
    reveal(found_rightly);
    lemma_stands(s, c, h, id);
    reveal(node_stands);
    let n = s.at(id);
    let next = found(acc, id, n);
    assert forall|i: int| 0 <= i < next.committed.len() implies h.chosen(
        c.nodes.dom(),
        #[trigger] next.committed[i],
    ) by {
        if i < acc.committed.len() {
            assert(next.committed[i] == acc.committed[i]);
        } else {
            let at = n.registered_commit + i - acc.committed.len();
            assert(next.committed[i] == n.core.log[at]);
            safety::lemma_prefix_chosen(c, h, id, at);
        }
    }
    assert forall|i: int| 0 <= i < next.leaders.len() implies {
        let (j, term) = #[trigger] next.leaders[i];
        s.known(j) && leads(s.at(j)) == Some(term)
    } by {
        if i < acc.leaders.len() {
            assert(next.leaders[i] == acc.leaders[i]);
        }
    }
}

/// What stands still stands, and what was found still is so, where what the
/// checks remember of a node is brought up to date.
proof fn lemma_looked_at(s: SimView, c: Cluster, h: History, acc: ScanView, id: NodeId)
    requires
        stands(s, c, h),
        s.known(id),
        found_rightly(s, c, h, acc),
    ensures
        ({
            let t = SimView { nodes: s.nodes.update(id - 1, looked_at(s.at(id))), ..s };
            stands(t, c, h) && found_rightly(t, c, h, acc)
        }),
{
    let t = SimView { nodes: s.nodes.update(id - 1, looked_at(s.at(id))), ..s };
    lemma_no_node_fault(s, c, h, id, false);
    reveal(nodes_stand);
    reveal(found_rightly);
    assert forall|i: int| 0 <= i < t.nodes.len() implies node_stands(
        #[trigger] t.nodes[i],
        c.nodes[(i + 1) as u8],
    ) by {
        if i != id - 1 {
            assert(t.nodes[i] == s.nodes[i]);
        }
    }
    assert forall|i: int| 0 <= i < acc.leaders.len() implies {
        let (j, term) = #[trigger] acc.leaders[i];
        t.known(j) && leads(t.at(j)) == Some(term)
    } by {
        let (j, term) = acc.leaders[i];
        assert(s.known(j) && leads(s.at(j)) == Some(term));
    }
}

/// A look at all the nodes from the `i`-th on finds nothing wrong.
proof fn lemma_scan(s: SimView, c: Cluster, h: History, acc: ScanView, i: int)
    requires
        stands(s, c, h),
        found_rightly(s, c, h, acc),
        0 <= i,
    ensures
        s.scan_from(i, acc) matches Ok((t, f)) && stands(t, c, h) && found_rightly(t, c, h, f),
    decreases s.nodes.len() - i,
{
    if i < s.nodes.len() {
        reveal(nodes_stand);
        let id = (i + 1) as u8;
        assert(s.known(id));
        lemma_no_node_fault(s, c, h, id, acc.applied);
        lemma_found(s, c, h, acc, id);
        lemma_looked_at(s, c, h, found(acc, id, s.at(id)), id);
        let t = SimView { nodes: s.nodes.update(i, looked_at(s.nodes[i])), ..s };
        lemma_scan(t, c, h, found(acc, id, s.at(id)), i + 1);
    }
}

/// Recording what is committed finds no conflict.
proof fn lemma_recorded(
    c: Cluster,
    h: History,
    registry: Map<LogIndex, Entry>,
    seed: u64,
    entries: Seq<Entry>,
)
    requires
        safe(c, h),
        registry_stands(registry, c.nodes.dom(), h),
        forall|i: int|
            0 <= i < entries.len() ==> h.chosen(c.nodes.dom(), #[trigger] entries[i]),
    ensures
        all_committed(registry, seed, entries) matches Ok(r) && registry_stands(
            r,
            c.nodes.dom(),
            h,
        ),
    decreases entries.len(),
{
    if entries.len() > 0 {
        let front = entries.drop_last();
        assert forall|i: int| 0 <= i < front.len() implies h.chosen(
            c.nodes.dom(),
            #[trigger] front[i],
        ) by {
            assert(front[i] == entries[i]);
        }
        lemma_recorded(c, h, registry, seed, front);
        let e = entries.last();
        assert(h.chosen(c.nodes.dom(), entries[entries.len() - 1]));
        let r = all_committed(registry, seed, front)->Ok_0;
        reveal(registry_stands);
        if r.contains_key(e.index) {
            safety::lemma_chosen_agree(c, h, r[e.index], e);
        }
    }
}

/// Disks are as they should be.
proof fn lemma_no_disk_fault(s: SimView, c: Cluster, h: History, i: int, logs: bool)
    requires
        stands(s, c, h),
        0 <= i,
    ensures
        s.disk_fault(i, logs) is None,
    decreases s.nodes.len() - i,
{
    if i < s.nodes.len() {
        reveal(nodes_stand);
        lemma_stands(s, c, h, (i + 1) as u8);
        reveal(node_stands);
        lemma_no_disk_fault(s, c, h, i + 1, logs);
    }
}

/// Logs of a safe cluster match.
proof fn lemma_matching_logs(c: Cluster, h: History, a: NodeId, b: NodeId)
    requires
        safe(c, h),
        c.nodes.contains_key(a),
        c.nodes.contains_key(b),
    ensures
        logs_match(c.nodes[a].log, c.nodes[b].log),
{
    let x = c.nodes[a].log;
    let y = c.nodes[b].log;
    assert forall|i: int|
        0 <= i < x.len() && i < y.len() && (#[trigger] x[i]).term == y[i].term implies
        types::log_view(x.take(i + 1)) == types::log_view(y.take(i + 1)) by {
        safety::lemma_continues_not(h);
        safety::lemma_logs_match(c, c, h, h, a, b, i);
        assert(x.take(i + 1) =~= y.take(i + 1));
    }
}

/// Between two nodes nothing is wrong.
proof fn lemma_no_pair_fault(s: SimView, c: Cluster, h: History, a: int, b: int, acc: ScanView)
    requires
        stands(s, c, h),
        0 <= a < s.nodes.len(),
        0 <= b < s.nodes.len(),
    ensures
        s.pair_fault(a, b, acc) is None,
{
    reveal(nodes_stand);
    let (p, q) = ((a + 1) as u8, (b + 1) as u8);
    lemma_stands(s, c, h, p);
    lemma_stands(s, c, h, q);
    lemma_matching_logs(c, h, p, q);
    let x = s.nodes[a];
    let y = s.nodes[b];
    safety::lemma_continues_not(h);
    safety::lemma_committed_logs_agree(c, c, h, h, p, q);
    reveal(node_stands);
    assert(histories_agree(x.applied, y.applied)) by {
        let hx = crate::invariants::history_view(x.applied);
        let hy = crate::invariants::history_view(y.applied);
        assert forall|i: int| 0 <= i < x.applied.len() && i < y.applied.len() implies (
        #[trigger] hx[i]) == hy[i] by {
            assert(x.applied[i] == ((i + 1) as u64, c.nodes[p].log[i].command));
            assert(y.applied[i] == ((i + 1) as u64, c.nodes[q].log[i].command));
            assert(c.nodes[p].log[i] == c.nodes[q].log[i]);
        }
    }
}

/// Between no two nodes, from a pair on, is anything wrong.
proof fn lemma_no_pairs_fault(s: SimView, c: Cluster, h: History, a: int, b: int, acc: ScanView)
    requires
        stands(s, c, h),
        0 <= a,
    ensures
        s.pairs_fault(a, b, acc) is None,
    decreases s.nodes.len() - a, s.nodes.len() - b,
{
    if a < s.nodes.len() {
        if b <= a || b >= s.nodes.len() {
            lemma_no_pairs_fault(s, c, h, a + 1, a + 2, acc);
        } else {
            lemma_no_pair_fault(s, c, h, a, b, acc);
            lemma_no_pairs_fault(s, c, h, a, b + 1, acc);
        }
    }
}

/// Some node is in a term newer than this.
pub open spec fn overtaken(s: SimView, term: Term) -> bool {
    exists|id: NodeId| #[trigger] s.known(id) && s.at(id).disk_hard.current_term > term
}

/// The only fault that can be found: of a leader that was elected late, when
/// others had already gone on to a newer term.
pub open spec fn late_election(s: SimView, e: Failure) -> bool {
    e.what matches Violation::LeaderCompleteness { leader, term, .. } && {
        &&& s.known(leader)
        &&& leads(s.at(leader)) == Some(term)
        &&& overtaken(s, term)
    }
}

/// A leader that lacks a committed entry has been overtaken.
proof fn lemma_overtaken(s: SimView, c: Cluster, h: History, id: NodeId, k: LogIndex)
    requires
        stands(s, c, h),
        s.known(id),
        leads(s.at(id)) is Some,
        lacks(s.committed, s.at(id).core.log, k),
    ensures
        overtaken(s, leads(s.at(id))->0),
{
    lemma_stands(s, c, h, id);
    reveal(registry_stands);
    let e = s.committed[k];
    assert(h.chosen(c.nodes.dom(), e));
    assert(c.nodes[id] == s.at(id).core) by {
        reveal(node_stands);
    }
    let v = safety::lemma_lacking_leader(c, h, id, e);
    assert(s.known(v)) by {
        reveal(nodes_stand);
    }
    lemma_stands(s, c, h, v);
    assert(s.at(v).disk_hard == c.nodes[v].hard) by {
        reveal(node_stands);
    }
}

/// The new leaders from the `i`-th on are recorded.
proof fn lemma_leaders(
    s: SimView,
    c: Cluster,
    h: History,
    acc: ScanView,
    i: int,
)
    requires
        stands(s, c, h),
        found_rightly(s, c, h, acc),
        0 <= i,
    ensures
        match s.leaders_from(acc.leaders, i) {
            Ok(t) => stands(t, c, h) && t == (SimView { leaders: t.leaders, ..s }),
            Err(e) => late_election(s, e) && exists|j: int|
                0 <= j < acc.leaders.len() && (#[trigger] acc.leaders[j]).0
                    == e.what->LeaderCompleteness_leader,
        },
    decreases acc.leaders.len() - i,
{
    if i < acc.leaders.len() {
        let (id, term) = acc.leaders[i];
        assert(s.known(id) && leads(s.at(id)) == Some(term)) by {
            reveal(found_rightly);
            assert(acc.leaders[i] == (id, term));
        }
        lemma_stands(s, c, h, id);
        assert(c.nodes[id] == s.at(id).core) by {
            reveal(node_stands);
        }
        safety::lemma_leader_reigns(c, h, id);
        reveal(leaders_stand);
        assert(with_leader(s.leaders, s.seed, term, id) == Ok::<_, Failure>(
            s.leaders.insert(term, id),
        ));
        let log = s.at(id).core.log;
        if exists|k: LogIndex| #[trigger] lacks(s.committed, log, k) {
            let k = choose|k: LogIndex| #[trigger] lacks(s.committed, log, k);
            lemma_overtaken(s, c, h, id, k);
            assert(acc.leaders[i].0 == id);
        } else {
            let t = SimView { leaders: s.leaders.insert(term, id), ..s };
            assert(leaders_stand(t.leaders, h));
            assert(found_rightly(t, c, h, acc)) by {
                reveal(found_rightly);
                assert forall|j: int| 0 <= j < acc.leaders.len() implies {
                    let (o, u) = #[trigger] acc.leaders[j];
                    t.known(o) && leads(t.at(o)) == Some(u)
                } by {
                    let (o, u) = acc.leaders[j];
                    assert(s.known(o) && leads(s.at(o)) == Some(u));
                }
            }
            lemma_leaders(t, c, h, acc, i + 1);
            assert forall|e: Failure| late_election(t, e) implies late_election(s, e) by {
                if let Violation::LeaderCompleteness { term, .. } = e.what {
                    let o = choose|o: NodeId| #[trigger]
                        t.known(o) && t.at(o).disk_hard.current_term > term;
                    assert(s.known(o));
                }
            }
        }
    }
}

/// As many disks hold the entry as there are members of the set that do.
proof fn lemma_copies(nodes: Seq<SimNodeView>, n: int, index: LogIndex, e: Entry, q: Set<NodeId>)
    requires
        0 <= n <= nodes.len() <= 255,
        q.finite(),
        forall|v: NodeId| #[trigger]
            q.contains(v) ==> 1 <= v <= n && holds_at(nodes[v - 1].disk_log, index, e),
    ensures
        copies(nodes, n, index, e) >= q.len(),
    decreases n,
{
    if n == 0 {
        assert(q =~= Set::empty());
    } else {
        let v = n as u8;
        let rest = q.remove(v);
        assert forall|u: NodeId| #[trigger] rest.contains(u) implies 1 <= u <= n - 1 && holds_at(
            nodes[u - 1].disk_log,
            index,
            e,
        ) by {
            assert(q.contains(u));
        }
        lemma_copies(nodes, n - 1, index, e, rest);
    }
}

/// The members are as many as the simulated nodes.
proof fn lemma_member_count(n: int, m: Set<NodeId>)
    requires
        0 <= n <= 255,
        m.finite(),
        forall|id: NodeId| #[trigger] m.contains(id) <==> 1 <= id <= n,
    ensures
        m.len() == n,
    decreases n,
{
    if n == 0 {
        assert(m =~= Set::empty());
    } else {
        let rest = m.remove(n as u8);
        assert forall|id: NodeId| #[trigger] rest.contains(id) <==> 1 <= id <= n - 1 by {
            assert(m.contains(id) <==> 1 <= id <= n);
        }
        lemma_member_count(n - 1, rest);
        assert(m.contains(n as u8));
    }
}

/// What is committed is on a majority of the disks.
proof fn lemma_not_underheld(s: SimView, c: Cluster, h: History, k: LogIndex)
    requires
        stands(s, c, h),
    ensures
        !s.underheld(k),
{
    if s.committed.contains_key(k) {
        let e = s.committed[k];
        let m = c.nodes.dom();
        assert(e.index == k && h.chosen(m, e)) by {
            reveal(registry_stands);
        }
        let q = safety::lemma_chosen_held(c, h, e);
        vstd::set_lib::lemma_set_subset_finite(m, q);
        assert forall|v: NodeId| #[trigger] q.contains(v) implies 1 <= v <= s.nodes.len()
            && holds_at(s.nodes[v - 1].disk_log, k, e) by {
            assert(m.contains(v));
            assert(c.nodes.contains_key(v));
            reveal(nodes_stand);
            assert(s.known(v));
            lemma_stands(s, c, h, v);
            assert(s.at(v).disk_log == c.nodes[v].log) by {
                reveal(node_stands);
            }
        }
        reveal(nodes_stand);
        lemma_copies(s.nodes, s.nodes.len() as int, k, e, q);
        assert forall|id: NodeId| #[trigger] m.contains(id) <==> 1 <= id <= s.nodes.len() by {
            assert(c.nodes.contains_key(id) <==> 1 <= id <= s.nodes.len());
        }
        lemma_member_count(s.nodes.len() as int, m);
    }
}

/// Overtaken in one world is overtaken in another that stands for the same
/// cluster.
proof fn lemma_overtaken_too(s: SimView, t: SimView, c: Cluster, h: History, term: Term)
    requires
        stands(s, c, h),
        stands(t, c, h),
        overtaken(t, term),
    ensures
        overtaken(s, term),
{
    let id = choose|id: NodeId| #[trigger]
        t.known(id) && t.at(id).disk_hard.current_term > term;
    lemma_stands(t, c, h, id);
    assert(s.known(id)) by {
        reveal(nodes_stand);
    }
    lemma_stands(s, c, h, id);
    reveal(node_stands);
}

/// The checks that follow the recording find nothing but a late election.
proof fn lemma_check_registered(s: SimView, c: Cluster, h: History, acc: ScanView)
    requires
        stands(s, c, h),
        found_rightly(s, c, h, acc),
    ensures
        match s.check_registered(acc) {
            Ok(t) => stands(t, c, h) && t == (SimView { leaders: t.leaders, ..s }),
            Err(e) => late_election(s, e) && exists|j: int|
                0 <= j < acc.leaders.len() && (#[trigger] acc.leaders[j]).0
                    == e.what->LeaderCompleteness_leader,
        },
{
    reveal(SimView::check_registered);
    lemma_no_disk_fault(s, c, h, 0, acc.core || acc.disk);
    lemma_no_pairs_fault(s, c, h, 0, 1, acc);
    lemma_leaders(s, c, h, acc, 0);
    if let Ok(t) = s.leaders_from(acc.leaders, 0) {
        assert forall|k: LogIndex| !#[trigger] t.underheld(k) by {
            lemma_not_underheld(t, c, h, k);
        }
    }
}

/// The checks find nothing but a late election, and of that only where the
/// leader was not seen to lead before.
pub proof fn lemma_check(s: SimView, c: Cluster, h: History)
    requires
        stands(s, c, h),
    ensures
        match s.check() {
            Ok(t) => {
                &&& stands(t, c, h)
                &&& all_seen(t.nodes)
                &&& same_bodies(t.nodes, s.nodes)
                &&& t == (SimView {
                    nodes: t.nodes,
                    committed: t.committed,
                    leaders: t.leaders,
                    ..s
                })
            },
            Err(e) => {
                &&& late_election(s, e)
                &&& s.at(e.what->LeaderCompleteness_leader).observed_leader_term != leads(
                    s.at(e.what->LeaderCompleteness_leader),
                )
            },
        },
{
    assert(found_rightly(s, c, h, nothing())) by {
        reveal(found_rightly);
    }
    assert(found_newly(s.nodes, nothing())) by {
        reveal(found_newly);
    }
    assert(s.nodes.len() <= 255) by {
        reveal(nodes_stand);
    }
    lemma_scan(s, c, h, nothing(), 0);
    lemma_seen(s, s.nodes, nothing(), 0);
    lemma_scanned(s, nothing(), 0);
    let (t, acc) = s.scan_from(0, nothing())->Ok_0;
    reveal(SimView::check_found);
    assert forall|i: int| 0 <= i < acc.committed.len() implies h.chosen(
        c.nodes.dom(),
        #[trigger] acc.committed[i],
    ) by {
        reveal(found_rightly);
    }
    lemma_recorded(c, h, t.committed, t.seed, acc.committed);
    let committed = all_committed(t.committed, t.seed, acc.committed)->Ok_0;
    let r = SimView { committed, ..t };
    assert(stands(r, c, h));
    assert(found_rightly(r, c, h, acc)) by {
        reveal(found_rightly);
        assert forall|j: int| 0 <= j < acc.leaders.len() implies {
            let (o, u) = #[trigger] acc.leaders[j];
            r.known(o) && leads(r.at(o)) == Some(u)
        } by {
            let (o, u) = acc.leaders[j];
            assert(t.known(o) && leads(t.at(o)) == Some(u));
        }
    }
    lemma_check_registered(r, c, h, acc);
    if let Err(e) = r.check_registered(acc) {
        let leader = e.what->LeaderCompleteness_leader;
        let j = choose|j: int|
            0 <= j < acc.leaders.len() && (#[trigger] acc.leaders[j]).0 == leader;
        reveal(found_newly);
        assert(acc.leaders[j] == (acc.leaders[j].0, acc.leaders[j].1));
        assert(leads(t.nodes[leader - 1]) == leads(s.nodes[leader - 1])) by {
            reveal(same_bodies);
        }
        lemma_overtaken_too(s, r, c, h, e.what->LeaderCompleteness_term);
    }
}

/// The nodes differ only in what the checks remember of them.
#[verifier::opaque]
pub open spec fn same_bodies(a: Seq<SimNodeView>, b: Seq<SimNodeView>) -> bool {
    &&& a.len() == b.len()
    &&& forall|j: int|
        0 <= j < a.len() ==> {
            let (x, y) = (#[trigger] a[j], b[j]);
            x.core == y.core && x.alive == y.alive && x.disk_hard == y.disk_hard && x.disk_log
                == y.disk_log
        }
}

/// A look at the nodes changes nothing but what the checks remember of them.
proof fn lemma_scanned(s: SimView, acc: ScanView, i: int)
    requires
        0 <= i,
    ensures
        s.scan_from(i, acc) matches Ok((t, f)) ==> {
            &&& t == (SimView { nodes: t.nodes, ..s })
            &&& same_bodies(t.nodes, s.nodes)
        },
    decreases s.nodes.len() - i,
{
    reveal(same_bodies);
    if i < s.nodes.len() {
        let n = s.nodes[i];
        let next = SimView { nodes: s.nodes.update(i, looked_at(n)), ..s };
        lemma_scanned(next, found(acc, (i + 1) as u8, n), i + 1);
        if let Ok((t, f)) = next.scan_from(i + 1, found(acc, (i + 1) as u8, n)) {
            assert forall|j: int| 0 <= j < t.nodes.len() implies {
                let (x, y) = (#[trigger] t.nodes[j], s.nodes[j]);
                x.core == y.core && x.alive == y.alive && x.disk_hard == y.disk_hard && x.disk_log
                    == y.disk_log
            } by {
                assert(t.nodes[j].core == next.nodes[j].core);
            }
        }
    }
}

} // verus!
