//! What it shows that the checks pass. They look only at what has changed since
//! they last passed; together with what held then, that is the whole world.

use vstd::prelude::*;

use crate::invariants::{
    histories_agree, holds_at, lacks, logs_match, structured, with_committed, with_leader, Failure,
};
use crate::message::{EffectView, InputView, MessageView};
use crate::node::{NodeView, TICK_MS};
use crate::types;
use crate::types::{Entry, HardState, LogIndex, NodeId, Term};

use super::model::{
    all_committed, copies, due, found, leads, looked_at, new_node, node_fault, nothing, seed_of,
    EnvelopeView, ScanView, SimNodeView, SimView,
};
use super::soundness::Deed;
use super::PersistenceMode;

verus! {

/// A node is as it should be. Its disk's log is well structured. While it is
/// alive, so is its core's; its disk is equal to its core; it has applied as much
/// as it says, no more than is committed; and no more is committed than its log
/// holds.
pub open spec fn node_holds(n: SimNodeView) -> bool {
    &&& structured(n.disk_log)
    &&& n.alive ==> {
        &&& structured(n.core.log)
        &&& n.disk_hard == n.core.hard
        &&& types::log_view(n.disk_log) == types::log_view(n.core.log)
        &&& n.applied.len() == n.core.last_applied
        &&& n.core.last_applied <= n.core.commit_index
        &&& n.core.commit_index <= types::last_index(n.core.log)
    }
}

/// Two nodes are as they should be to each other: their logs match, on disk and,
/// while both are alive, in memory, and their applied histories agree.
pub open spec fn pair_holds(x: SimNodeView, y: SimNodeView) -> bool {
    &&& x.alive && y.alive ==> logs_match(x.core.log, y.core.log)
    &&& logs_match(x.disk_log, y.disk_log)
    &&& histories_agree(x.applied, y.applied)
}

/// Whoever leads a term is the one leader recorded of it.
pub open spec fn leads_rightly(s: SimView, i: int) -> bool {
    leads(s.nodes[i]) matches Some(term) ==> s.leaders.contains_key(term) && s.leaders[term] == i
        + 1
}

/// Everything that is checked holds of the whole world: of every node, of every
/// pair, of whoever leads, and every entry in the registry is on a majority of
/// the disks.
pub open spec fn world_holds(s: SimView) -> bool {
    &&& s.mode == PersistenceMode::Durable
    &&& s.nodes.len() <= 255
    &&& forall|i: int| 0 <= i < s.nodes.len() ==> node_holds(#[trigger] s.nodes[i])
    &&& forall|a: int, b: int|
        0 <= a < b < s.nodes.len() ==> #[trigger] pair_holds(s.nodes[a], s.nodes[b])
    &&& forall|i: int| 0 <= i < s.nodes.len() ==> #[trigger] leads_rightly(s, i)
    &&& forall|k: LogIndex| !#[trigger] s.underheld(k)
}

/// What the checks remember of a node is how it was in `p`. An applied history
/// that is as long as it was then is the same, and a node that has come back
/// since has its log from its disk.
pub open spec fn node_remembers(n: SimNodeView, p: SimNodeView) -> bool {
    &&& n.observed_core_log == types::log_view(p.core.log)
    &&& n.observed_disk_log == types::log_view(p.disk_log)
    &&& n.observed_applied_len == p.applied.len()
    &&& n.observed_leader_term == leads(p)
    &&& n.applied.len() == p.applied.len() ==> n.applied == p.applied
    &&& n.alive && !p.alive ==> types::log_view(n.core.log) == types::log_view(n.disk_log)
}

/// What the checks remember is how the world was in `p`.
pub open spec fn remembers(s: SimView, p: SimView) -> bool {
    &&& s.nodes.len() == p.nodes.len()
    &&& s.mode == p.mode
    &&& s.leaders == p.leaders
    &&& s.committed == p.committed
    &&& forall|i: int|
        0 <= i < s.nodes.len() ==> #[trigger] node_remembers(s.nodes[i], p.nodes[i])
}

/// Whether a log is well structured depends on what it holds.
proof fn lemma_structured_by_view(a: Seq<Entry>, b: Seq<Entry>)
    requires
        types::log_view(a) == types::log_view(b),
        structured(a),
    ensures
        structured(b),
{
    assert(a.len() == types::log_view(a).len() && b.len() == types::log_view(b).len());
    assert forall|i: int| 0 <= i < b.len() implies (#[trigger] b[i]).index == a[i].index
        && b[i].term == a[i].term by {
        assert(types::log_view(a)[i] == a[i]@ && types::log_view(b)[i] == b[i]@);
    }
}

/// Whether two logs match depends on what they hold.
proof fn lemma_match_by_view(a: Seq<Entry>, b: Seq<Entry>, c: Seq<Entry>, d: Seq<Entry>)
    requires
        types::log_view(a) == types::log_view(c),
        types::log_view(b) == types::log_view(d),
        logs_match(a, b),
    ensures
        logs_match(c, d),
{
    assert(a.len() == types::log_view(a).len() && c.len() == types::log_view(c).len());
    assert(b.len() == types::log_view(b).len() && d.len() == types::log_view(d).len());
    assert forall|i: int|
        0 <= i < c.len() && i < d.len() && (#[trigger] c[i]).term == d[i].term implies types::log_view(
        c.take(i + 1),
    ) == types::log_view(d.take(i + 1)) by {
        assert(types::log_view(a)[i] == a[i]@ && types::log_view(c)[i] == c[i]@);
        assert(types::log_view(b)[i] == b[i]@ && types::log_view(d)[i] == d[i]@);
        assert(a[i].term == b[i].term);
        assert(types::log_view(a.take(i + 1)) =~= types::log_view(a).take(i + 1));
        assert(types::log_view(b.take(i + 1)) =~= types::log_view(b).take(i + 1));
        assert(types::log_view(c.take(i + 1)) =~= types::log_view(c).take(i + 1));
        assert(types::log_view(d.take(i + 1)) =~= types::log_view(d).take(i + 1));
    }
}

/// What the node, leading, has committed since its commits were last registered
/// is in the registry.
pub open spec fn commits_registered(n: SimNodeView, registry: Map<LogIndex, Entry>) -> bool {
    leads(n) is Some ==> forall|k: LogIndex|
        n.registered_commit < k <= n.core.commit_index ==> #[trigger] registry.contains_key(k)
            && holds_at(n.core.log, k, registry[k])
}

/// How many disks hold an entry depends on what they hold.
proof fn lemma_copies_by_view(
    a: Seq<SimNodeView>,
    b: Seq<SimNodeView>,
    n: int,
    index: LogIndex,
    e: Entry,
)
    requires
        n <= a.len() == b.len(),
        forall|i: int|
            0 <= i < a.len() ==> types::log_view((#[trigger] a[i]).disk_log) == types::log_view(
                b[i].disk_log,
            ),
    ensures
        copies(a, n, index, e) == copies(b, n, index, e),
    decreases n,
{
    if n > 0 {
        lemma_copies_by_view(a, b, n - 1, index, e);
        let (x, y) = (a[n - 1].disk_log, b[n - 1].disk_log);
        assert(types::log_view(x) == types::log_view(y));
        assert(x.len() == types::log_view(x).len() && y.len() == types::log_view(y).len());
        if 1 <= index <= x.len() {
            assert(types::log_view(x)[index - 1] == x[index - 1]@);
            assert(types::log_view(y)[index - 1] == y[index - 1]@);
        }
        assert(holds_at(x, index, e) == holds_at(y, index, e));
    }
}

/// What a look at a node has shown, and what has been found by then.
#[verifier::opaque]
spec fn seen(n: SimNodeView, id: NodeId, acc: ScanView) -> bool {
    &&& types::log_view(n.core.log) == n.observed_core_log || (acc.core && (n.alive ==> structured(
        n.core.log,
    )))
    &&& types::log_view(n.disk_log) == n.observed_disk_log || (acc.disk && structured(n.disk_log))
    &&& n.applied.len() == n.observed_applied_len || acc.applied
    &&& leads(n) is None || leads(n) == n.observed_leader_term || acc.leaders.contains(
        (id, leads(n)->0),
    )
    &&& n.alive ==> {
        &&& n.last_term_seen <= n.core.hard.current_term
        &&& n.core.last_applied <= n.core.commit_index
        &&& n.core.commit_index <= types::last_index(n.core.log)
        &&& n.applied.len() == n.core.last_applied
    }
    &&& n.alive && n.core.is_leader() && n.core.commit_index <= n.core.log.len() ==> forall|k: int|
        n.registered_commit <= k < n.core.commit_index ==> acc.committed.contains(
            #[trigger] n.core.log[k],
        )
}

/// What has been found stays found.
proof fn lemma_still_seen(n: SimNodeView, id: NodeId, acc: ScanView, m: SimNodeView, other: NodeId)
    requires
        seen(n, id, acc),
    ensures
        seen(n, id, found(acc, other, m)),
{
    reveal(seen);
    let f = found(acc, other, m);
    assert forall|l: (NodeId, Term)| #[trigger]
        acc.leaders.contains(l) implies f.leaders.contains(l) by {
        let j = choose|j: int| 0 <= j < acc.leaders.len() && acc.leaders[j] == l;
        assert(f.leaders[j] == l);
    }
    assert forall|e: Entry| #[trigger] acc.committed.contains(e) implies f.committed.contains(e) by {
        let j = choose|j: int| 0 <= j < acc.committed.len() && acc.committed[j] == e;
        assert(f.committed[j] == e);
    }
}

/// A look at a node that finds no fault.
proof fn lemma_now_seen(n: SimNodeView, id: NodeId, acc: ScanView)
    requires
        node_fault(PersistenceMode::Durable, id, n, acc.applied) is None,
    ensures
        seen(n, id, found(acc, id, n)),
{
    reveal(seen);
    let f = found(acc, id, n);
    if leads(n) is Some && leads(n) != n.observed_leader_term {
        assert(f.leaders.last() == (id, leads(n)->0));
    }
    if n.alive && n.core.is_leader() && n.core.commit_index <= n.core.log.len() {
        assert forall|k: int|
            n.registered_commit <= k < n.core.commit_index implies f.committed.contains(
            #[trigger] n.core.log[k],
        ) by {
            let at = acc.committed.len() + k - n.registered_commit;
            assert(f.committed[at] == n.core.log[k]);
        }
    }
}

/// A look at all the nodes from the `i`-th on. `start` is how they were before
/// the first was looked at.
proof fn lemma_all_seen(s: SimView, start: Seq<SimNodeView>, acc: ScanView, i: int)
    requires
        0 <= i,
        s.mode == PersistenceMode::Durable,
        s.nodes.len() == start.len() <= 255,
        forall|j: int| i <= j < start.len() ==> #[trigger] s.nodes[j] == start[j],
        forall|j: int| 0 <= j < i && j < start.len() ==> #[trigger] s.nodes[j] == looked_at(start[j]),
        forall|j: int|
            0 <= j < i && j < start.len() ==> seen(#[trigger] start[j], (j + 1) as u8, acc),
    ensures
        s.scan_from(i, acc) matches Ok((t, f)) ==> {
            &&& t == (SimView { nodes: t.nodes, ..s })
            &&& t.nodes.len() == start.len()
            &&& forall|j: int|
                0 <= j < start.len() ==> #[trigger] t.nodes[j] == looked_at(start[j])
            &&& forall|j: int|
                0 <= j < start.len() ==> seen(#[trigger] start[j], (j + 1) as u8, f)
        },
    decreases s.nodes.len() - i,
{
    if i < s.nodes.len() {
        let n = s.nodes[i];
        let id = (i + 1) as u8;
        assert(n == start[i]);
        if node_fault(s.mode, id, n, acc.applied) is None {
            let next = SimView { nodes: s.nodes.update(i, looked_at(n)), ..s };
            let f = found(acc, id, n);
            lemma_now_seen(n, id, acc);
            assert forall|j: int| 0 <= j < i + 1 && j < start.len() implies seen(
                #[trigger] start[j],
                (j + 1) as u8,
                f,
            ) by {
                if j < i {
                    lemma_still_seen(start[j], (j + 1) as u8, acc, n, id);
                }
            }
            lemma_all_seen(next, start, f, i + 1);
        }
    }
}

/// What has been recorded of entries: nothing is lost, and each of them is there.
proof fn lemma_all_recorded(registry: Map<LogIndex, Entry>, seed: u64, entries: Seq<Entry>)
    ensures
        all_committed(registry, seed, entries) matches Ok(r) ==> {
            &&& forall|k: LogIndex| #[trigger]
                registry.contains_key(k) ==> r.contains_key(k) && r[k] == registry[k]
            &&& forall|j: int|
                0 <= j < entries.len() ==> {
                    let e = #[trigger] entries[j];
                    r.contains_key(e.index) && r[e.index]@ == e@
                }
        },
    decreases entries.len(),
{
    if entries.len() > 0 {
        let less = entries.drop_last();
        lemma_all_recorded(registry, seed, less);
        if let Ok(r) = all_committed(registry, seed, less) {
            if let Ok(last) = with_committed(r, seed, entries.last()) {
                assert forall|j: int| 0 <= j < entries.len() implies {
                    let e = #[trigger] entries[j];
                    last.contains_key(e.index) && last[e.index]@ == e@
                } by {
                    if j < less.len() {
                        assert(less[j] == entries[j]);
                    }
                }
            }
        }
    }
}

/// Where no disk is at fault, every living node's disk is equal to its core.
proof fn lemma_disks_clear(s: SimView, i: int, logs: bool)
    requires
        0 <= i,
        s.disk_fault(i, logs) is None,
    ensures
        forall|j: int|
            i <= j < s.nodes.len() && (#[trigger] s.nodes[j]).alive ==> {
                &&& s.nodes[j].disk_hard == s.nodes[j].core.hard
                &&& logs ==> types::log_view(s.nodes[j].disk_log) == types::log_view(
                    s.nodes[j].core.log,
                )
            },
    decreases s.nodes.len() - i,
{
    if i < s.nodes.len() {
        lemma_disks_clear(s, i + 1, logs);
    }
}

/// Where no pair is at fault, none is.
proof fn lemma_pairs_clear(s: SimView, a: int, b: int, acc: ScanView)
    requires
        0 <= a < b,
        s.pairs_fault(a, b, acc) is None,
    ensures
        forall|x: int, y: int|
            0 <= x < y < s.nodes.len() && (a < x || (a == x && b <= y)) ==> #[trigger] s.pair_fault(
                x,
                y,
                acc,
            ) is None,
    decreases s.nodes.len() - a, s.nodes.len() - b,
{
    if a >= s.nodes.len() {
    } else if b >= s.nodes.len() {
        lemma_pairs_clear(s, a + 1, a + 2, acc);
    } else {
        lemma_pairs_clear(s, a, b + 1, acc);
    }
}

/// What has been recorded of new leaders: nothing is lost, each of them is there,
/// and none of them lacks anything that is committed.
proof fn lemma_leaders_recorded(s: SimView, new: Seq<(NodeId, Term)>, i: int)
    requires
        0 <= i,
    ensures
        s.leaders_from(new, i) matches Ok(t) ==> {
            &&& t == (SimView { leaders: t.leaders, ..s })
            &&& forall|term: Term| #[trigger]
                s.leaders.contains_key(term) ==> t.leaders.contains_key(term) && t.leaders[term]
                    == s.leaders[term]
            &&& forall|j: int|
                i <= j < new.len() ==> {
                    let (id, term) = #[trigger] new[j];
                    t.leaders.contains_key(term) && t.leaders[term] == id
                }
            &&& forall|j: int, k: LogIndex|
                i <= j < new.len() ==> !#[trigger] lacks(s.committed, s.at(new[j].0).core.log, k)
        },
    decreases new.len() - i,
{
    if i < new.len() {
        let (id, term) = new[i];
        if let Ok(leaders) = with_leader(s.leaders, s.seed, term, id) {
            let next = SimView { leaders, ..s };
            lemma_leaders_recorded(next, new, i + 1);
            if let Ok(t) = s.leaders_from(new, i) {
                assert(leaders.contains_key(term));
                assert forall|u: Term| #[trigger]
                    s.leaders.contains_key(u) implies t.leaders.contains_key(u) && t.leaders[u]
                    == s.leaders[u] by {
                    assert(leaders.contains_key(u));
                }
                assert forall|j: int| i <= j < new.len() implies {
                    let (o, u) = #[trigger] new[j];
                    t.leaders.contains_key(u) && t.leaders[u] == o
                } by {
                    if j == i {
                        assert(t.leaders[term] == leaders[term]);
                    }
                }
                assert forall|j: int, k: LogIndex| i <= j < new.len() implies !#[trigger] lacks(
                    s.committed,
                    s.at(new[j].0).core.log,
                    k,
                ) by {
                    assert(s.at(new[j].0) == next.at(new[j].0));
                    assert(j > i ==> !lacks(next.committed, next.at(new[j].0).core.log, k));
                }
            }
        }
    }
}

/// Who was recorded as the leader of a term, and what was registered, stays.
pub open spec fn grown(s: SimView, t: SimView) -> bool {
    &&& forall|term: Term| #[trigger]
        s.leaders.contains_key(term) ==> t.leaders.contains_key(term) && t.leaders[term]
            == s.leaders[term]
    &&& forall|k: LogIndex| #[trigger]
        s.committed.contains_key(k) ==> t.committed.contains_key(k) && t.committed[k]
            == s.committed[k]
}

/// What the checks have gone through when they pass: `acc` is what was found.
#[verifier::opaque]
spec fn passed(s: SimView, acc: ScanView, t: SimView) -> bool {
    &&& t == (SimView { nodes: t.nodes, leaders: t.leaders, committed: t.committed, ..s })
    &&& t.nodes.len() == s.nodes.len()
    &&& forall|j: int| 0 <= j < s.nodes.len() ==> #[trigger] t.nodes[j] == looked_at(s.nodes[j])
    &&& forall|j: int| 0 <= j < s.nodes.len() ==> seen(#[trigger] s.nodes[j], (j + 1) as u8, acc)
    &&& forall|k: LogIndex| #[trigger]
        s.committed.contains_key(k) ==> t.committed.contains_key(k) && t.committed[k]
            == s.committed[k]
    &&& forall|j: int|
        0 <= j < acc.committed.len() ==> {
            let e = #[trigger] acc.committed[j];
            t.committed.contains_key(e.index) && t.committed[e.index]@ == e@
        }
    &&& acc.committed.len() == 0 ==> t.committed == s.committed
    &&& forall|j: int|
        0 <= j < t.nodes.len() && (#[trigger] t.nodes[j]).alive ==> {
            &&& t.nodes[j].disk_hard == t.nodes[j].core.hard
            &&& acc.core || acc.disk ==> types::log_view(t.nodes[j].disk_log) == types::log_view(
                t.nodes[j].core.log,
            )
        }
    &&& acc.core || acc.disk || acc.applied ==> forall|a: int, b: int|
        0 <= a < b < t.nodes.len() ==> #[trigger] t.pair_fault(a, b, acc) is None
    &&& forall|term: Term| #[trigger]
        s.leaders.contains_key(term) ==> t.leaders.contains_key(term) && t.leaders[term]
            == s.leaders[term]
    &&& forall|j: int|
        0 <= j < acc.leaders.len() ==> {
            let (id, term) = #[trigger] acc.leaders[j];
            t.leaders.contains_key(term) && t.leaders[term] == id
        }
    &&& forall|j: int, k: LogIndex|
        0 <= j < acc.leaders.len() ==> !#[trigger] lacks(
            t.committed,
            t.at(acc.leaders[j].0).core.log,
            k,
        )
    &&& acc.disk || acc.committed.len() > 0 ==> forall|k: LogIndex| !#[trigger] t.underheld(k)
}

/// Checks that pass have gone through all of it.
proof fn lemma_passed(s: SimView, t: SimView) -> (acc: ScanView)
    requires
        s.mode == PersistenceMode::Durable,
        s.nodes.len() <= 255,
        s.check() == Ok::<SimView, Failure>(t),
    ensures
        passed(s, acc, t),
{
    reveal(passed);
    reveal(SimView::check_found);
    reveal(SimView::check_registered);
    lemma_all_seen(s, s.nodes, nothing(), 0);
    let (m, acc) = s.scan_from(0, nothing())->Ok_0;
    lemma_all_recorded(m.committed, m.seed, acc.committed);
    let committed = all_committed(m.committed, m.seed, acc.committed)->Ok_0;
    let r = SimView { committed, ..m };
    assert(r.check_registered(acc) == Ok::<SimView, Failure>(t));
    lemma_disks_clear(r, 0, acc.core || acc.disk);
    if acc.core || acc.disk || acc.applied {
        lemma_pairs_clear(r, 0, 1, acc);
    }
    lemma_leaders_recorded(r, acc.leaders, 0);
    assert(t == (SimView { leaders: t.leaders, ..r }));
    assert forall|a: int, b: int|
        0 <= a < b < t.nodes.len() && (acc.core || acc.disk || acc.applied) implies #[trigger] t.pair_fault(
        a,
        b,
        acc,
    ) is None by {
        assert(r.pair_fault(a, b, acc) is None);
    }
    assert forall|j: int, k: LogIndex| 0 <= j < acc.leaders.len() implies !#[trigger] lacks(
        t.committed,
        t.at(acc.leaders[j].0).core.log,
        k,
    ) by {
        assert(!lacks(r.committed, r.at(acc.leaders[j].0).core.log, k));
    }
    acc
}

/// Checks that pass show of each node that it is as it should be.
proof fn lemma_node_holds(s: SimView, p: SimView, acc: ScanView, t: SimView, j: int)
    requires
        world_holds(p),
        remembers(s, p),
        passed(s, acc, t),
        0 <= j < s.nodes.len(),
    ensures
        node_holds(t.nodes[j]),
        node_remembers(t.nodes[j], t.nodes[j]),
        s.nodes[j].alive ==> s.nodes[j].last_term_seen <= s.nodes[j].core.hard.current_term,
{
    reveal(passed);
    reveal(seen);
    let (n, q) = (s.nodes[j], p.nodes[j]);
    assert(seen(n, (j + 1) as u8, acc));
    assert(node_remembers(n, q));
    assert(node_holds(q));
    assert(t.nodes[j] == looked_at(n));
    if types::log_view(n.disk_log) == n.observed_disk_log {
        lemma_structured_by_view(q.disk_log, n.disk_log);
    }
    if n.alive {
        assert(t.nodes[j].alive);
        assert(types::log_view(n.disk_log) == types::log_view(n.core.log));
        lemma_structured_by_view(n.disk_log, n.core.log);
    }
}

/// Checks that pass show of each pair that it is as it should be.
proof fn lemma_pair_holds(s: SimView, p: SimView, acc: ScanView, t: SimView, a: int, b: int)
    requires
        world_holds(p),
        remembers(s, p),
        passed(s, acc, t),
        0 <= a < b < s.nodes.len(),
    ensures
        pair_holds(t.nodes[a], t.nodes[b]),
{
    reveal(passed);
    reveal(seen);
    let (x, y, u, v) = (s.nodes[a], s.nodes[b], p.nodes[a], p.nodes[b]);
    assert(seen(x, (a + 1) as u8, acc) && seen(y, (b + 1) as u8, acc));
    assert(node_remembers(x, u) && node_remembers(y, v));
    assert(pair_holds(u, v));
    assert(t.nodes[a] == looked_at(x) && t.nodes[b] == looked_at(y));
    if acc.core || acc.disk || acc.applied {
        assert(t.pair_fault(a, b, acc) is None);
    }
    if !acc.disk {
        lemma_match_by_view(u.disk_log, v.disk_log, x.disk_log, y.disk_log);
    }
    if x.alive && y.alive {
        lemma_node_holds(s, p, acc, t, a);
        lemma_node_holds(s, p, acc, t, b);
        lemma_match_by_view(x.disk_log, y.disk_log, x.core.log, y.core.log);
    }
}

/// Checks that pass show that whoever leads is the one recorded.
proof fn lemma_leads_rightly(s: SimView, p: SimView, acc: ScanView, t: SimView, j: int)
    requires
        world_holds(p),
        remembers(s, p),
        passed(s, acc, t),
        0 <= j < s.nodes.len(),
    ensures
        leads_rightly(t, j),
{
    reveal(passed);
    reveal(seen);
    let (n, q) = (s.nodes[j], p.nodes[j]);
    assert(seen(n, (j + 1) as u8, acc));
    assert(node_remembers(n, q));
    assert(leads_rightly(p, j));
    assert(t.nodes[j] == looked_at(n));
    if leads(n) is Some && leads(n) != n.observed_leader_term {
        let l = ((j + 1) as u8, leads(n)->0);
        let k = choose|k: int| 0 <= k < acc.leaders.len() && acc.leaders[k] == l;
        assert(acc.leaders[k] == l);
    }
}

/// Checks that pass show that what is in the registry is on a majority of disks.
proof fn lemma_held(s: SimView, p: SimView, acc: ScanView, t: SimView, k: LogIndex)
    requires
        world_holds(p),
        remembers(s, p),
        passed(s, acc, t),
    ensures
        !t.underheld(k),
{
    reveal(passed);
    if !(acc.disk || acc.committed.len() > 0) {
        assert forall|j: int| 0 <= j < t.nodes.len() implies types::log_view(
            (#[trigger] t.nodes[j]).disk_log,
        ) == types::log_view(p.nodes[j].disk_log) by {
            reveal(seen);
            assert(seen(s.nodes[j], (j + 1) as u8, acc));
            assert(node_remembers(s.nodes[j], p.nodes[j]));
        }
        assert(!p.underheld(k));
        if t.committed.contains_key(k) {
            lemma_copies_by_view(
                t.nodes,
                p.nodes,
                t.nodes.len() as int,
                k,
                t.committed[k],
            );
        }
    }
}

/// A check that passes shows that the whole world is as it should be. `p` is the
/// world as it was when the checks last passed, and whatever has happened since,
/// the checks remember it rightly. After a check that passes, it is the world
/// just checked that they remember.
///
/// Besides, no living node's term has gone back; whoever has newly come to lead
/// lacks nothing that is committed; and what a leader has newly committed is in
/// the registry. Neither who was recorded as a leader nor what was registered
/// changes.
pub proof fn law_a_passed_check_shows_the_world(s: SimView, p: SimView, t: SimView)
    requires
        world_holds(p),
        remembers(s, p),
        s.check() == Ok::<SimView, Failure>(t),
    ensures
        world_holds(t),
        remembers(t, t),
        t.nodes.len() == s.nodes.len(),
        t == (SimView { nodes: t.nodes, leaders: t.leaders, committed: t.committed, ..s }),
        forall|i: int|
            0 <= i < s.nodes.len() ==> {
                let n = #[trigger] s.nodes[i];
                &&& t.nodes[i] == looked_at(n)
                &&& n.alive ==> n.last_term_seen <= n.core.hard.current_term
            },
        forall|i: int, k: LogIndex|
            0 <= i < s.nodes.len() && leads(s.nodes[i]) is Some && leads(s.nodes[i])
                != s.nodes[i].observed_leader_term ==> !#[trigger] lacks(
                t.committed,
                s.nodes[i].core.log,
                k,
            ),
        forall|i: int|
            0 <= i < s.nodes.len() ==> commits_registered(#[trigger] s.nodes[i], t.committed),
        grown(s, t),
{
    let acc = lemma_passed(s, t);
    assert forall|i: int| 0 <= i < s.nodes.len() implies {
        let n = #[trigger] s.nodes[i];
        &&& t.nodes[i] == looked_at(n)
        &&& n.alive ==> n.last_term_seen <= n.core.hard.current_term
    } by {
        lemma_node_holds(s, p, acc, t, i);
        reveal(passed);
    }
    assert(t == (SimView { nodes: t.nodes, leaders: t.leaders, committed: t.committed, ..s })
        && t.nodes.len() == s.nodes.len()) by {
        reveal(passed);
    }
    assert forall|i: int| 0 <= i < t.nodes.len() implies node_holds(#[trigger] t.nodes[i]) by {
        lemma_node_holds(s, p, acc, t, i);
    }
    assert forall|i: int| 0 <= i < t.nodes.len() implies #[trigger] node_remembers(
        t.nodes[i],
        t.nodes[i],
    ) by {
        lemma_node_holds(s, p, acc, t, i);
    }
    assert forall|a: int, b: int| 0 <= a < b < t.nodes.len() implies #[trigger] pair_holds(
        t.nodes[a],
        t.nodes[b],
    ) by {
        lemma_pair_holds(s, p, acc, t, a, b);
    }
    assert forall|i: int| 0 <= i < t.nodes.len() implies #[trigger] leads_rightly(t, i) by {
        lemma_leads_rightly(s, p, acc, t, i);
    }
    assert forall|k: LogIndex| !#[trigger] t.underheld(k) by {
        lemma_held(s, p, acc, t, k);
    }
    assert forall|i: int, k: LogIndex|
        0 <= i < s.nodes.len() && leads(s.nodes[i]) is Some && leads(s.nodes[i])
            != s.nodes[i].observed_leader_term implies !#[trigger] lacks(
        t.committed,
        s.nodes[i].core.log,
        k,
    ) by {
        lemma_complete(s, acc, t, i, k);
    }
    assert forall|i: int| 0 <= i < s.nodes.len() implies commits_registered(
        #[trigger] s.nodes[i],
        t.committed,
    ) by {
        lemma_node_holds(s, p, acc, t, i);
        lemma_registered(s, acc, t, i);
    }
    assert(grown(s, t)) by {
        reveal(passed);
    }
}

/// Checks that pass show that a new leader lacks nothing.
proof fn lemma_complete(s: SimView, acc: ScanView, t: SimView, i: int, k: LogIndex)
    requires
        passed(s, acc, t),
        s.nodes.len() <= 255,
        0 <= i < s.nodes.len(),
        leads(s.nodes[i]) is Some,
        leads(s.nodes[i]) != s.nodes[i].observed_leader_term,
    ensures
        !lacks(t.committed, s.nodes[i].core.log, k),
{
    reveal(passed);
    reveal(seen);
    let n = s.nodes[i];
    let l = ((i + 1) as u8, leads(n)->0);
    assert(seen(n, (i + 1) as u8, acc));
    let j = choose|j: int| 0 <= j < acc.leaders.len() && acc.leaders[j] == l;
    assert(acc.leaders[j].0 == i + 1);
    assert(t.nodes[i] == looked_at(n));
    assert(t.at(acc.leaders[j].0) == t.nodes[i]);
    assert(!lacks(t.committed, t.at(acc.leaders[j].0).core.log, k));
}

/// Checks that pass have registered what a leader has newly committed.
proof fn lemma_registered(s: SimView, acc: ScanView, t: SimView, i: int)
    requires
        passed(s, acc, t),
        0 <= i < s.nodes.len(),
        node_holds(s.nodes[i]),
    ensures
        commits_registered(s.nodes[i], t.committed),
{
    reveal(passed);
    reveal(seen);
    let n = s.nodes[i];
    assert(seen(n, (i + 1) as u8, acc));
    if leads(n) is Some {
        assert forall|k: LogIndex|
            n.registered_commit < k <= n.core.commit_index implies #[trigger] t.committed.contains_key(
            k,
        ) && holds_at(n.core.log, k, t.committed[k]) by {
            assert(n.core.log.len() > 0);
            assert(n.core.log.last().index == n.core.log.len());
            let e = n.core.log[k - 1];
            assert(e.index == k);
            assert(acc.committed.contains(e));
            let j = choose|j: int| 0 <= j < acc.committed.len() && acc.committed[j] == e;
            assert(acc.committed[j] == e);
        }
    }
}

/// In a world that is as it should be no term has two leaders.
pub proof fn law_one_leader_per_term(s: SimView, a: int, b: int)
    requires
        world_holds(s),
        0 <= a < s.nodes.len(),
        0 <= b < s.nodes.len(),
        leads(s.nodes[a]) is Some,
        leads(s.nodes[a]) == leads(s.nodes[b]),
    ensures
        a == b,
{
    assert(leads_rightly(s, a) && leads_rightly(s, b));
}

/// Since the checks last passed, in `p`, nobody has crashed or come back, and
/// nothing has been applied. Whoever is down has applied nothing.
pub open spec fn rests(s: SimView, p: SimView) -> bool {
    &&& remembers(s, p)
    &&& forall|i: int|
        0 <= i < s.nodes.len() ==> {
            &&& (#[trigger] s.nodes[i]).alive == p.nodes[i].alive
            &&& s.nodes[i].applied == p.nodes[i].applied
            &&& s.nodes[i].alive || s.nodes[i].applied.len() == 0
        }
}

/// The world is as it should be, and what the checks remember is how it is.
pub open spec fn settled(s: SimView) -> bool {
    world_holds(s) && rests(s, s)
}

/// The world was as it should be when the checks last passed, and they will see
/// whatever has changed since.
pub open spec fn watched(s: SimView) -> bool {
    exists|p: SimView| world_holds(p) && #[trigger] rests(s, p)
}

/// What happened leaves a watched world watched, and a settled one settled.
spec fn stays(s: SimView, t: SimView) -> bool {
    &&& t.nodes.len() == s.nodes.len()
    &&& watched(s) ==> watched(t) && grown(s, t)
    &&& settled(s) ==> settled(t)
}

/// A settled world is watched.
pub proof fn law_settled_worlds_are_watched(s: SimView)
    requires
        settled(s),
    ensures
        watched(s),
{
}

/// What nodes and checks do not read can change.
proof fn lemma_stays_same(s: SimView, t: SimView)
    requires
        t.nodes == s.nodes,
        t.mode == s.mode,
        t.leaders == s.leaders,
        t.committed == s.committed,
    ensures
        stays(s, t),
{
    if watched(s) {
        let p = choose|p: SimView| world_holds(p) && #[trigger] rests(s, p);
        assert(rests(t, p));
    }
    if settled(s) {
        assert forall|i: int| 0 <= i < t.nodes.len() implies #[trigger] leads_rightly(t, i) by {
            assert(leads_rightly(s, i));
        }
        assert forall|k: LogIndex| !#[trigger] t.underheld(k) by {
            assert(!s.underheld(k));
        }
    }
}

/// What executing the effects of a node can change: its disk, and what it has
/// applied, which only grows.
spec fn executed(w: SimView, id: NodeId, t: SimView) -> bool {
    &&& t.nodes.len() == w.nodes.len()
    &&& t.mode == w.mode
    &&& t.leaders == w.leaders
    &&& t.committed == w.committed
    &&& forall|j: int|
        0 <= j < w.nodes.len() && j != id - 1 ==> #[trigger] t.nodes[j] == w.nodes[j]
    &&& t.at(id) == (SimNodeView {
        disk_hard: t.at(id).disk_hard,
        disk_log: t.at(id).disk_log,
        applied: t.at(id).applied,
        ..w.at(id)
    })
    &&& w.at(id).applied.is_prefix_of(t.at(id).applied)
}

proof fn lemma_executed_one(w: SimView, id: NodeId, effect: EffectView)
    requires
        w.known(id),
    ensures
        w.execute(id, effect) matches Ok(t) ==> executed(w, id, t),
{
    reveal(SimView::execute);
    reveal(SimView::enqueue);
}

/// Effects that are executed leave everything on disk.
proof fn lemma_executed(w: SimView, id: NodeId, effects: Seq<EffectView>, i: int)
    requires
        w.known(id),
        w.mode == PersistenceMode::Durable,
        0 <= i,
    ensures
        w.execute_from(id, effects, i) matches Ok(t) ==> executed(w, id, t) && types::log_view(
            t.at(id).core.log,
        ) == types::log_view(t.at(id).disk_log),
    decreases effects.len() - i,
{
    if i < effects.len() {
        lemma_executed_one(w, id, effects[i]);
        if let Ok(m) = w.execute(id, effects[i]) {
            lemma_executed(m, id, effects, i + 1);
        }
    }
}

/// Whoever is down has applied nothing.
spec fn down_is_blank(s: SimView) -> bool {
    forall|i: int|
        0 <= i < s.nodes.len() ==> (#[trigger] s.nodes[i]).alive || s.nodes[i].applied.len() == 0
}

/// After a check that passes the world is settled.
proof fn lemma_checked(s: SimView, p: SimView)
    requires
        world_holds(p),
        remembers(s, p),
        down_is_blank(s),
    ensures
        s.check() matches Ok(t) ==> settled(t) && grown(s, t) && t.nodes.len() == s.nodes.len(),
{
    if let Ok(t) = s.check() {
        law_a_passed_check_shows_the_world(s, p, t);
        assert forall|i: int| 0 <= i < t.nodes.len() implies (#[trigger] t.nodes[i]).alive
            || t.nodes[i].applied.len() == 0 by {
            assert(s.nodes[i].alive || s.nodes[i].applied.len() == 0);
        }
    }
}

/// After a living node's reaction the world has been checked.
proof fn lemma_reacted(s: SimView, p: SimView, id: NodeId, input: InputView, t: SimView)
    requires
        world_holds(p),
        remembers(s, p),
        s.known(id),
        s.at(id).alive,
        s.at(id).applied == p.at(id).applied,
        down_is_blank(s),
        s.react(id, input) == Ok::<SimView, Failure>(t),
    ensures
        settled(t),
        grown(s, t),
        t.nodes.len() == s.nodes.len(),
{
    reveal(SimView::react);
    reveal(SimView::execute_batch);
    let n = s.at(id);
    let (core, effects) = n.core.step(input);
    let w = s.with(id, SimNodeView { core, ..n });
    let counted = SimView {
        stats: super::FaultStats {
            effect_batches_audited: w.stats.effect_batches_audited.saturating_add(1),
            ..w.stats
        },
        ..w
    };
    lemma_executed(counted, id, effects, 0);
    let m = w.execute_batch(id, effects)->Ok_0;
    assert forall|i: int| 0 <= i < m.nodes.len() implies #[trigger] node_remembers(
        m.nodes[i],
        p.nodes[i],
    ) by {
        assert(node_remembers(s.nodes[i], p.nodes[i]));
        if i == id - 1 {
            assert(m.at(id) == m.nodes[i]);
            if m.nodes[i].applied.len() == p.nodes[i].applied.len() {
                assert(m.nodes[i].applied =~= n.applied);
            }
        } else {
            assert(m.nodes[i] == counted.nodes[i]);
        }
    }
    assert(down_is_blank(m)) by {
        assert forall|i: int| 0 <= i < m.nodes.len() implies (#[trigger] m.nodes[i]).alive
            || m.nodes[i].applied.len() == 0 by {
            assert(s.nodes[i].alive || s.nodes[i].applied.len() == 0);
            assert(i == id - 1 ==> m.at(id) == m.nodes[i]);
            assert(i != id - 1 ==> m.nodes[i] == counted.nodes[i]);
        }
    }
    lemma_checked(m, p);
}

/// A living node of a watched world reacts.
proof fn lemma_react_stays(s: SimView, id: NodeId, input: InputView)
    requires
        s.known(id),
        s.at(id).alive,
    ensures
        s.react(id, input) matches Ok(t) ==> watched(s) ==> settled(t) && stays(s, t),
{
    if let Ok(t) = s.react(id, input) {
        if watched(s) {
            let p = choose|p: SimView| world_holds(p) && #[trigger] rests(s, p);
            assert(s.at(id) == s.nodes[id - 1]);
            assert(down_is_blank(s));
            lemma_reacted(s, p, id, input, t);
            law_settled_worlds_are_watched(t);
        }
    }
}

proof fn lemma_deliver_stays(s: SimView, env: EnvelopeView)
    requires
        watched(s),
    ensures
        s.deliver(env) matches Ok(t) ==> watched(t) && stays(s, t),
{
    reveal(SimView::deliver);
    if s.known(env.to) {
        let counted = SimView {
            stats: super::FaultStats {
                messages_delivered: s.stats.messages_delivered.saturating_add(1),
                ..s.stats
            },
            ..s
        };
        lemma_stays_same(s, counted);
        if s.at(env.to).alive {
            lemma_react_stays(
                counted,
                env.to,
                InputView::Message { from: env.from, msg: env.msg },
            );
        }
        lemma_stays_same(s, s.lost_to_crashed());
        lemma_stays_same(s, s.lost_to_partition());
    } else {
        lemma_stays_same(s, s);
    }
}

proof fn lemma_deliver_from_stays(s: SimView, envs: Seq<EnvelopeView>, i: int)
    requires
        watched(s),
        0 <= i,
    ensures
        s.deliver_from(envs, i) matches Ok(t) ==> watched(t) && stays(s, t),
    decreases envs.len() - i,
{
    if i < envs.len() {
        lemma_deliver_stays(s, envs[i]);
        if let Ok(m) = s.deliver(envs[i]) {
            lemma_deliver_from_stays(m, envs, i + 1);
        }
    }
}

proof fn lemma_tick_from_stays(s: SimView, only: Option<Seq<NodeId>>, i: int)
    requires
        watched(s),
        0 <= i,
    ensures
        s.tick_from(only, i) matches Ok(t) ==> watched(t) && stays(s, t),
    decreases 256 - i,
{
    let id = (i + 1) as u8;
    if i < 255 && i < s.nodes.len() {
        if !s.nodes[i].alive || (only is Some && !only->0.contains(id)) {
            lemma_tick_from_stays(s, only, i + 1);
        } else {
            let input = InputView::Tick { now_ms: s.now_ms };
            assert(s.at(id) == s.nodes[i]);
            lemma_react_stays(s, id, input);
            if let Ok(m) = s.react(id, input) {
                lemma_tick_from_stays(m, only, i + 1);
            }
        }
    }
}

proof fn lemma_step_stays(s: SimView, only: Option<Seq<NodeId>>)
    requires
        watched(s),
    ensures
        s.step(only) matches Ok(t) ==> watched(t) && stays(s, t),
{
    let n = due(s.net, s.now_ms);
    let cut = SimView { net: s.net.skip(n), ..s };
    lemma_stays_same(s, cut);
    lemma_deliver_from_stays(cut, s.net.take(n), 0);
    if let Ok(m) = cut.deliver_from(s.net.take(n), 0) {
        lemma_tick_from_stays(m, only, 0);
        if let Ok(t) = m.tick_from(only, 0) {
            lemma_stays_same(t, SimView { now_ms: (t.now_ms + TICK_MS) as u64, ..t });
        }
    }
}

/// One node is put in place of what it was.
proof fn lemma_replaced(s: SimView, p: SimView, id: NodeId, m: SimNodeView, t: SimView)
    requires
        rests(s, p),
        s.known(id),
        node_remembers(m, p.at(id)),
        m.alive || m.applied.len() == 0,
        t.nodes == s.nodes.update(id - 1, m),
        t.mode == s.mode,
        t.leaders == s.leaders,
        t.committed == s.committed,
    ensures
        remembers(t, p),
        down_is_blank(t),
        grown(s, t),
{
    assert forall|i: int| 0 <= i < t.nodes.len() implies #[trigger] node_remembers(
        t.nodes[i],
        p.nodes[i],
    ) by {
        assert(node_remembers(s.nodes[i], p.nodes[i]));
    }
    assert forall|i: int| 0 <= i < t.nodes.len() implies (#[trigger] t.nodes[i]).alive
        || t.nodes[i].applied.len() == 0 by {
        assert(s.nodes[i].alive || s.nodes[i].applied.len() == 0);
    }
}

#[verifier::spinoff_prover]
proof fn lemma_crash_stays(s: SimView, id: NodeId)
    requires
        watched(s),
        s.known(id),
    ensures
        s.crash(id) matches Ok((t, _)) ==> watched(t) && stays(s, t),
{
    let n = s.at(id);
    if n.alive {
        let p = choose|p: SimView| world_holds(p) && #[trigger] rests(s, p);
        let net = s.net.filter(|e: EnvelopeView| e.to != id);
        let down = SimNodeView {
            core: NodeView::booted(
                id,
                n.core.peers,
                seed_of(s.seed, id, n.boot_count),
                HardState { current_term: 0, voted_for: None },
                Seq::empty(),
            ),
            alive: false,
            applied: Seq::empty(),
            ..n
        };
        let crashed = SimView {
            net,
            stats: super::FaultStats {
                crashes: s.stats.crashes.saturating_add(1),
                messages_dropped_to_crashed_nodes:
                    s.stats.messages_dropped_to_crashed_nodes.saturating_add(
                    (s.net.len() - net.len()) as u64,
                ),
                ..s.stats
            },
            ..s
        }.with(id, down);
        assert(node_remembers(down, p.at(id))) by {
            assert(node_remembers(s.nodes[id - 1], p.nodes[id - 1]));
            if p.at(id).applied.len() == 0 {
                assert(down.applied =~= p.at(id).applied);
            }
        }
        lemma_replaced(s, p, id, down, crashed);
        lemma_checked(crashed, p);
    } else {
        lemma_stays_same(s, s);
    }
}

#[verifier::spinoff_prover]
proof fn lemma_restart_stays(s: SimView, id: NodeId)
    requires
        watched(s),
        s.known(id),
    ensures
        s.restart(id) matches Ok((t, _)) ==> watched(t) && stays(s, t),
{
    let n = s.at(id);
    if !n.alive {
        let p = choose|p: SimView| world_holds(p) && #[trigger] rests(s, p);
        let boot_count = n.boot_count.wrapping_add(1);
        let up = SimNodeView {
            core: NodeView::booted(
                id,
                n.core.peers,
                seed_of(s.seed, id, boot_count),
                n.disk_hard,
                n.disk_log,
            ),
            alive: true,
            applied: Seq::empty(),
            boot_count,
            ..n
        };
        let restarted = SimView {
            stats: super::FaultStats { restarts: s.stats.restarts.saturating_add(1), ..s.stats },
            ..s
        }.with(id, up);
        assert(s.nodes[id - 1] == n);
        assert(p.at(id).applied =~= Seq::empty());
        assert(node_remembers(up, p.at(id))) by {
            assert(node_remembers(s.nodes[id - 1], p.nodes[id - 1]));
        }
        lemma_replaced(s, p, id, up, restarted);
        let input = InputView::Tick { now_ms: s.now_ms };
        if let Ok(t) = restarted.react(id, input) {
            assert(restarted.at(id) == up);
            lemma_reacted(restarted, p, id, input, t);
            law_settled_worlds_are_watched(t);
        }
    } else {
        lemma_stays_same(s, s);
    }
}

/// A new world is settled.
pub proof fn law_a_new_world_is_settled(n_nodes: u8, seed: u64)
    ensures
        settled(SimView::new(n_nodes, seed)),
{
    let s = SimView::new(n_nodes, seed);
    assert forall|i: int| 0 <= i < s.nodes.len() implies node_holds(#[trigger] s.nodes[i])
        && node_remembers(s.nodes[i], s.nodes[i]) && leads_rightly(s, i) by {
        assert(s.nodes[i] == new_node(n_nodes, seed, i));
        assert(types::log_view(s.nodes[i].core.log) =~= Seq::empty());
    }
}

/// Whatever is done with a settled world that is not reported leaves it settled:
/// everything that is checked holds of all of it. A watched world stays watched.
pub proof fn law_unreported_deeds_leave_the_world_settled(s: SimView, deed: Deed, t: SimView)
    requires
        s.allows(deed),
        s.after(deed) == Ok::<SimView, Failure>(t),
    ensures
        settled(s) ==> settled(t),
        watched(s) ==> watched(t) && grown(s, t),
{
    if settled(s) {
        law_settled_worlds_are_watched(s);
    }
    if watched(s) {
        match deed {
            Deed::Step { only } => lemma_step_stays(s, only),
            Deed::Propose { id, command } => {
                if s.at(id).alive {
                    lemma_react_stays(s, id, InputView::ClientPropose { command });
                } else {
                    lemma_stays_same(s, s);
                }
            },
            Deed::Crash { id } => lemma_crash_stays(s, id),
            Deed::Restart { id } => lemma_restart_stays(s, id),
            Deed::Adjust { faults, stats } => {
                lemma_stays_same(s, SimView { faults, stats, ..s });
            },
        }
    }
}

/// So does a message that is handed to a node past the network.
pub proof fn law_direct_delivery_leaves_the_world_settled(
    s: SimView,
    from: NodeId,
    to: NodeId,
    msg: MessageView,
    t: SimView,
    effects: Seq<EffectView>,
)
    requires
        s.known(to),
        s.deliver_now(from, to, msg) == Ok::<_, Failure>((t, effects)),
    ensures
        settled(s) ==> settled(t),
        watched(s) ==> watched(t) && grown(s, t),
{
    if settled(s) {
        law_settled_worlds_are_watched(s);
    }
    let tried = SimView {
        stats: super::FaultStats {
            messages_attempted: s.stats.messages_attempted.saturating_add(1),
            ..s.stats
        },
        ..s
    };
    lemma_stays_same(s, tried);
    lemma_stays_same(s, tried.lost_to_crashed());
    let arrived = SimView {
        stats: super::FaultStats {
            messages_delivered: tried.stats.messages_delivered.saturating_add(1),
            ..tried.stats
        },
        ..tried
    };
    lemma_stays_same(s, arrived);
    if s.at(to).alive {
        lemma_react_stays(arrived, to, InputView::Message { from, msg });
    }
}

/// A node's log and hard state, made up by hand in a watched world, are seen: the
/// world stays watched, and so the next check that passes shows all of it.
pub proof fn law_seeded_state_is_seen(s: SimView, id: NodeId, m: SimNodeView)
    requires
        watched(s),
        s.known(id),
        m == (SimNodeView {
            core: m.core,
            disk_hard: m.disk_hard,
            disk_log: m.disk_log,
            last_term_seen: m.last_term_seen,
            ..s.at(id)
        }),
    ensures
        watched(s.with(id, m)),
{
    let t = s.with(id, m);
    let p = choose|p: SimView| world_holds(p) && #[trigger] rests(s, p);
    assert forall|i: int| 0 <= i < t.nodes.len() implies #[trigger] node_remembers(
        t.nodes[i],
        p.nodes[i],
    ) && t.nodes[i].alive == p.nodes[i].alive && t.nodes[i].applied == p.nodes[i].applied && (
    t.nodes[i].alive || t.nodes[i].applied.len() == 0) by {
        assert(node_remembers(s.nodes[i], p.nodes[i]));
        assert(s.nodes[i].alive == p.nodes[i].alive);
    }
    assert(rests(t, p));
}

/// A living node of a watched world reacts: if nothing is reported, everything
/// that is checked holds of the whole world.
pub proof fn law_unreported_reactions_settle_the_world(
    s: SimView,
    id: NodeId,
    input: InputView,
    t: SimView,
)
    requires
        watched(s),
        s.known(id),
        s.at(id).alive,
        s.react(id, input) == Ok::<SimView, Failure>(t),
    ensures
        settled(t),
{
    lemma_react_stays(s, id, input);
}

/// Everything that is checked holds throughout: of every world that is reached
/// from a new one, by whatever is done with it, without a report.
pub proof fn law_unreported_worlds_hold_throughout(
    n_nodes: u8,
    seed: u64,
    worlds: Seq<SimView>,
    deeds: Seq<Deed>,
    i: int,
)
    requires
        worlds.len() == deeds.len() + 1,
        0 <= i < worlds.len(),
        worlds[0] == SimView::new(n_nodes, seed),
        forall|j: int|
            0 <= j < deeds.len() ==> worlds[j].allows(#[trigger] deeds[j]) && worlds[j].after(
                deeds[j],
            ) == Ok::<_, Failure>(worlds[j + 1]),
    ensures
        settled(worlds[i]),
    decreases i,
{
    if i == 0 {
        law_a_new_world_is_settled(n_nodes, seed);
    } else {
        law_unreported_worlds_hold_throughout(n_nodes, seed, worlds, deeds, i - 1);
        assert(worlds[i - 1].allows(deeds[i - 1]));
        law_unreported_deeds_leave_the_world_settled(worlds[i - 1], deeds[i - 1], worlds[i]);
    }
}

/// What is recorded along such a run stays recorded.
proof fn lemma_grown_throughout(
    n_nodes: u8,
    seed: u64,
    worlds: Seq<SimView>,
    deeds: Seq<Deed>,
    i: int,
    j: int,
)
    requires
        worlds.len() == deeds.len() + 1,
        0 <= i <= j < worlds.len(),
        worlds[0] == SimView::new(n_nodes, seed),
        forall|k: int|
            0 <= k < deeds.len() ==> worlds[k].allows(#[trigger] deeds[k]) && worlds[k].after(
                deeds[k],
            ) == Ok::<_, Failure>(worlds[k + 1]),
    ensures
        grown(worlds[i], worlds[j]),
    decreases j - i,
{
    if i < j {
        lemma_grown_throughout(n_nodes, seed, worlds, deeds, i, j - 1);
        law_unreported_worlds_hold_throughout(n_nodes, seed, worlds, deeds, j - 1);
        law_settled_worlds_are_watched(worlds[j - 1]);
        assert(worlds[j - 1].allows(deeds[j - 1]));
        law_unreported_deeds_leave_the_world_settled(worlds[j - 1], deeds[j - 1], worlds[j]);
    }
}

/// No term ever has two leaders: whoever leads a term, at whatever two times, in
/// worlds that are reached from a new one without a report, is the same node.
pub proof fn law_unreported_terms_have_one_leader(
    n_nodes: u8,
    seed: u64,
    worlds: Seq<SimView>,
    deeds: Seq<Deed>,
    i: int,
    j: int,
    a: int,
    b: int,
)
    requires
        worlds.len() == deeds.len() + 1,
        0 <= i <= j < worlds.len(),
        worlds[0] == SimView::new(n_nodes, seed),
        forall|k: int|
            0 <= k < deeds.len() ==> worlds[k].allows(#[trigger] deeds[k]) && worlds[k].after(
                deeds[k],
            ) == Ok::<_, Failure>(worlds[k + 1]),
        0 <= a < worlds[i].nodes.len(),
        0 <= b < worlds[j].nodes.len(),
        leads(worlds[i].nodes[a]) is Some,
        leads(worlds[i].nodes[a]) == leads(worlds[j].nodes[b]),
    ensures
        a == b,
{
    law_unreported_worlds_hold_throughout(n_nodes, seed, worlds, deeds, i);
    law_unreported_worlds_hold_throughout(n_nodes, seed, worlds, deeds, j);
    lemma_grown_throughout(n_nodes, seed, worlds, deeds, i, j);
    assert(leads_rightly(worlds[i], a) && leads_rightly(worlds[j], b));
    assert(worlds[i].leaders.contains_key(leads(worlds[i].nodes[a])->0));
}

} // verus!
