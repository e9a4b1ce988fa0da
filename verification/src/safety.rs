//! Why a cluster is safe: an invariant over its states and what happened so
//! far, kept by everything that can happen.

use vstd::prelude::*;

use crate::cluster::{applies, sends, Cluster, Packet};
use crate::election::up_to_date;
use crate::message::{EffectView, InputView, MessageView};
use crate::node::NodeView;
use crate::replication;
use crate::types;
use crate::types::{Entry, NodeId, RoleView, Term};

verus! {

/// A leadership: who led, and the log as far as it grew in that term.
pub struct Reign {
    pub leader: NodeId,
    pub log: Seq<Entry>,
}

/// A vote: for whom, and the voter's log when it was cast. An early one was
/// cast before the term had a leader.
pub struct Ballot {
    pub cand: NodeId,
    pub log: Seq<Entry>,
    pub early: bool,
}

/// What happened so far: the leaders by term, the votes by voter and term, and
/// how much of the leader's log each node has acknowledged in each term.
pub struct History {
    pub reigns: Map<Term, Reign>,
    pub votes: Map<(NodeId, Term), Ballot>,
    pub acked: Map<(NodeId, Term), nat>,
}

/// The first `k` entries of both logs exist and are the same.
pub open spec fn agree(a: Seq<Entry>, b: Seq<Entry>, k: int) -> bool {
    &&& k <= a.len()
    &&& k <= b.len()
    &&& forall|i: int|
        #![trigger a[i]]
        #![trigger b[i]]
        0 <= i < k ==> a[i] == b[i]
}

/// The logs differ somewhere in their first `k` entries.
pub open spec fn differ(a: Seq<Entry>, b: Seq<Entry>, k: int) -> bool {
    exists|i: int| 0 <= i < k && i < a.len() && i < b.len() && #[trigger] a[i] != b[i]
}

/// A strict majority of the members.
pub open spec fn quorum(q: Set<NodeId>, members: Set<NodeId>) -> bool {
    q.subset_of(members) && 2 * q.len() > members.len()
}

impl History {
    pub open spec fn log(self, t: Term) -> Seq<Entry> {
        self.reigns[t].log
    }

    /// Every entry of the log stands at its place in the log of the leader of
    /// its term, and so does everything before it.
    pub open spec fn fits(self, log: Seq<Entry>) -> bool {
        &&& types::contiguous(log)
        &&& forall|i: int|
            0 <= i < log.len() ==> self.reigns.contains_key((#[trigger] log[i]).term) && agree(
                log,
                self.log(log[i].term),
                i + 1,
            )
    }

    /// The node acknowledged the first `k` entries of the leader's log in term `t`.
    pub open spec fn holds(self, v: NodeId, t: Term, k: int) -> bool {
        self.acked.contains_key((v, t)) && k <= self.acked[(v, t)]
    }

    /// The first `k` entries of term `t`'s leader are still in the log, unless
    /// a later leader, of a term up to `bound`, had others there.
    pub open spec fn kept(self, log: Seq<Entry>, t: Term, k: int, bound: int) -> bool {
        agree(log, self.log(t), k) || exists|w: Term|
            t < w <= bound && #[trigger] self.reigns.contains_key(w) && differ(
                self.log(w),
                self.log(t),
                k,
            )
    }

    /// Index `k` is committed by term `t`: its entry is of that term, and a
    /// quorum has acknowledged it in that term.
    pub open spec fn certified(self, m: Set<NodeId>, t: Term, k: int) -> bool {
        &&& self.reigns.contains_key(t)
        &&& 0 < k <= self.log(t).len()
        &&& self.log(t)[k - 1].term == t
        &&& exists|q: Set<NodeId>| #[trigger]
            quorum(q, m) && forall|v: NodeId| #[trigger] q.contains(v) ==> self.holds(v, t, k)
    }

    /// The first `c` entries of the log are committed by a term up to `bound`.
    pub open spec fn committed(self, m: Set<NodeId>, log: Seq<Entry>, c: int, bound: Term) -> bool {
        c == 0 || exists|t: Term, k: int|
            t <= bound && c <= k && #[trigger] self.certified(m, t, k) && agree(
                log,
                self.log(t),
                c,
            )
    }

    /// The entry is committed.
    pub open spec fn chosen(self, m: Set<NodeId>, e: Entry) -> bool {
        exists|t: Term, k: int|
            1 <= e.index <= k && #[trigger] self.certified(m, t, k) && self.log(t)[e.index - 1] == e
    }

    pub open spec fn elected(self, m: Set<NodeId>, t: Term, q: Set<NodeId>) -> bool {
        &&& quorum(q, m)
        &&& forall|v: NodeId| #[trigger]
            q.contains(v) ==> self.votes.contains_key((v, t)) && self.votes[(v, t)].cand
                == self.reigns[t].leader && self.votes[(v, t)].early
    }

    /// A leader was elected by a quorum of early votes; its log is the one that
    /// it campaigned with, followed by entries of its own term.
    pub open spec fn reign_ok(self, m: Set<NodeId>, t: Term) -> bool {
        let r = self.reigns[t];
        let base = self.votes[(r.leader, t)].log;
        &&& self.votes.contains_key((r.leader, t))
        &&& self.votes[(r.leader, t)].cand == r.leader
        &&& base.len() < r.log.len()
        &&& agree(base, r.log, base.len() as int)
        &&& forall|i: int| 0 <= i < base.len() ==> (#[trigger] r.log[i]).term < t
        &&& forall|i: int| base.len() <= i < r.log.len() ==> (#[trigger] r.log[i]).term == t
        &&& self.fits(r.log)
        &&& exists|q: Set<NodeId>| #[trigger] self.elected(m, t, q)
    }

    /// A vote goes to a candidate that votes for itself with a log at least as
    /// up to date as the voter's; and an early vote was cast with everything
    /// that the voter had acknowledged, unless a leader in between overruled it.
    pub open spec fn ballot_ok(self, m: Set<NodeId>, v: NodeId, u: Term) -> bool {
        let b = self.votes[(v, u)];
        let own = self.votes[(b.cand, u)];
        &&& m.contains(v)
        &&& self.votes.contains_key((b.cand, u))
        &&& own.cand == b.cand
        &&& up_to_date(
            types::last_index(own.log),
            types::last_term(own.log),
            types::last_index(b.log),
            types::last_term(b.log),
        )
        &&& self.fits(b.log)
        &&& v == b.cand ==> forall|i: int|
            0 <= i < b.log.len() ==> (#[trigger] b.log[i]).term < u
        &&& !b.early ==> self.reigns.contains_key(u)
        &&& b.early ==> forall|t: Term, k: int|
            t < u && 0 <= k && #[trigger] self.holds(v, t, k) ==> self.kept(b.log, t, k, u - 1)
    }

    pub open spec fn ack_ok(self, v: NodeId, t: Term) -> bool {
        self.reigns.contains_key(t) && self.acked[(v, t)] <= self.log(t).len()
    }

    /// The history is consistent.
    pub closed spec fn ok(self, m: Set<NodeId>) -> bool {
        &&& m.finite()
        &&& forall|t: Term| #[trigger] self.reigns.contains_key(t) ==> self.reign_ok(m, t)
        &&& forall|v: NodeId, u: Term| #[trigger]
            self.votes.contains_key((v, u)) ==> self.ballot_ok(m, v, u)
        &&& forall|v: NodeId, t: Term| #[trigger]
            self.acked.contains_key((v, t)) ==> self.ack_ok(v, t)
    }

    /// What a role means.
    pub open spec fn role_ok(self, m: Set<NodeId>, n: NodeId, s: NodeView) -> bool {
        let term = s.hard.current_term;
        match s.role {
            RoleView::Follower => true,
            RoleView::Candidate { votes_received } => {
                &&& s.hard.voted_for == Some(n)
                &&& self.votes.contains_key((n, term))
                &&& self.votes[(n, term)].log == s.log
                &&& votes_received.subset_of(m)
                &&& forall|v: NodeId| #[trigger]
                    votes_received.contains(v) ==> self.votes.contains_key((v, term))
                        && self.votes[(v, term)].cand == n
            },
            RoleView::Leader { next_index, match_index } => {
                &&& self.reigns.contains_key(term)
                &&& self.reigns[term].leader == n
                &&& s.log == self.log(term)
                &&& self.holds(n, term, s.log.len() as int)
                &&& next_index.dom() == m.remove(n)
                &&& match_index.dom() == m.remove(n)
                &&& forall|p: NodeId| #[trigger]
                    next_index.contains_key(p) ==> 1 <= next_index[p] <= s.log.len() + 1
                &&& forall|p: NodeId| #[trigger]
                    match_index.contains_key(p) ==> match_index[p] == 0 || self.holds(
                        p,
                        term,
                        match_index[p] as int,
                    )
            },
        }
    }

    /// What the node has voted for, acknowledged and led, it remembers.
    pub open spec fn memory_ok(self, n: NodeId, s: NodeView) -> bool {
        let term = s.hard.current_term;
        &&& s.hard.voted_for matches Some(c) ==> self.votes.contains_key((n, term))
            && self.votes[(n, term)].cand == c
        &&& forall|u: Term| #[trigger]
            self.votes.contains_key((n, u)) ==> u <= term && (u == term ==> s.hard.voted_for
                == Some(self.votes[(n, u)].cand))
        &&& forall|t: Term| #[trigger] self.acked.contains_key((n, t)) ==> t <= term
        &&& forall|t: Term, k: int|
            0 <= k && #[trigger] self.holds(n, t, k) ==> self.kept(s.log, t, k, term as int)
        &&& forall|t: Term| #[trigger]
            self.reigns.contains_key(t) && self.reigns[t].leader == n ==> t <= term && (t == term
                ==> !(s.role is Candidate))
    }

    pub closed spec fn node_ok(self, m: Set<NodeId>, n: NodeId, s: NodeView) -> bool {
        let term = s.hard.current_term;
        &&& s.id == n
        &&& s.wf()
        &&& s.peers.no_duplicates()
        &&& forall|p: NodeId| #[trigger] s.peers.contains(p) <==> m.contains(p) && p != n
        &&& s.last_applied <= s.commit_index <= s.log.len()
        &&& self.fits(s.log)
        &&& forall|i: int| 0 <= i < s.log.len() ==> (#[trigger] s.log[i]).term <= term
        &&& self.memory_ok(n, s)
        &&& self.role_ok(m, n, s)
        &&& self.committed(m, s.log, s.commit_index as int, term)
    }

    /// What a message means.
    pub closed spec fn packet_ok(self, m: Set<NodeId>, p: Packet) -> bool {
        match p.msg {
            MessageView::RequestVote { term, candidate_id, last_log_index, last_log_term } => {
                let b = self.votes[(candidate_id, term)];
                &&& self.votes.contains_key((candidate_id, term))
                &&& b.cand == candidate_id
                &&& types::last_index(b.log) == last_log_index
                &&& types::last_term(b.log) == last_log_term
            },
            MessageView::RequestVoteReply { term, vote_granted } => {
                vote_granted ==> {
                    &&& self.votes.contains_key((p.from, term))
                    &&& self.votes[(p.from, term)].cand == p.to
                }
            },
            MessageView::AppendEntries {
                term,
                leader_id,
                prev_log_index,
                prev_log_term,
                entries,
                leader_commit,
            } => {
                let log = self.log(term);
                &&& self.reigns.contains_key(term)
                &&& prev_log_index + entries.len() <= log.len()
                &&& prev_log_term == types::term_at(log, prev_log_index as int)
                &&& forall|i: int|
                    0 <= i < entries.len() ==> #[trigger] entries[i] == log[prev_log_index + i]
                &&& leader_commit <= log.len()
                &&& self.committed(m, log, leader_commit as int, term)
            },
            MessageView::AppendEntriesReply { term, success, match_index } => {
                success ==> self.holds(p.from, term, match_index as int)
            },
        }
    }
}

/// The invariant, for a given history.
pub closed spec fn safe(c: Cluster, h: History) -> bool {
    let m = c.nodes.dom();
    &&& h.ok(m)
    &&& forall|n: NodeId| #[trigger] c.nodes.contains_key(n) ==> h.node_ok(m, n, c.nodes[n])
    &&& forall|p: Packet| #[trigger] c.sent.contains(p) ==> h.packet_ok(m, p)
    &&& forall|e: Entry| #[trigger] c.applied.contains(e) ==> h.chosen(m, e)
}

/// Two quorums have a member in common.
proof fn lemma_quorums_meet(a: Set<NodeId>, b: Set<NodeId>, m: Set<NodeId>) -> (v: NodeId)
    requires
        m.finite(),
        quorum(a, m),
        quorum(b, m),
    ensures
        a.contains(v),
        b.contains(v),
{
    vstd::set_lib::lemma_len_subset(a, m);
    vstd::set_lib::lemma_len_subset(b, m);
    vstd::set_lib::lemma_set_intersect_union_lens(a, b);
    vstd::set_lib::lemma_len_subset(a.union(b), m);
    let both = a.intersect(b);
    assert(both.len() > 0);
    let v = both.choose();
    assert(both.contains(v));
    v
}

/// Terms never decrease along a log that fits.
proof fn lemma_terms_rise(h: History, m: Set<NodeId>, log: Seq<Entry>, i: int, j: int)
    requires
        h.ok(m),
        h.fits(log),
        0 <= i <= j < log.len(),
    ensures
        log[i].term <= log[j].term,
{
    let t = log[j].term;
    assert(h.reign_ok(m, t));
    assert(log[i] == h.log(t)[i]);
}

/// Logs that fit and have an entry of the same term at the same place agree up
/// to there.
proof fn lemma_matching(h: History, a: Seq<Entry>, b: Seq<Entry>, i: int)
    requires
        h.fits(a),
        h.fits(b),
        0 <= i < a.len(),
        i < b.len(),
        a[i].term == b[i].term,
    ensures
        agree(a, b, i + 1),
{
    assert(agree(a, h.log(a[i].term), i + 1));
    assert(agree(b, h.log(b[i].term), i + 1));
}

/// What a term has committed is in the log of every later leader.
proof fn lemma_completeness(h: History, m: Set<NodeId>, t: Term, k: int, u: Term)
    requires
        h.ok(m),
        h.certified(m, t, k),
        h.reigns.contains_key(u),
        t < u,
    ensures
        agree(h.log(u), h.log(t), k),
    decreases u,
{
    let log = h.log(t);
    assert forall|w: Term| t < w < u && #[trigger] h.reigns.contains_key(w) implies agree(
        h.log(w),
        log,
        k,
    ) by {
        lemma_completeness(h, m, t, k, w);
    }
    assert(h.reign_ok(m, u));
    assert(h.reign_ok(m, t));
    let qa = choose|q: Set<NodeId>| #[trigger]
        quorum(q, m) && forall|v: NodeId| #[trigger] q.contains(v) ==> h.holds(v, t, k);
    let qv = choose|q: Set<NodeId>| #[trigger] h.elected(m, u, q);
    let v = lemma_quorums_meet(qa, qv, m);
    assert(h.holds(v, t, k));
    let b = h.votes[(v, u)];
    assert(h.votes.contains_key((v, u)));
    assert(h.ballot_ok(m, v, u));
    assert(h.kept(b.log, t, k, u - 1));
    assert(agree(b.log, log, k));
    let leader = h.reigns[u].leader;
    let base = h.votes[(leader, u)].log;
    assert(h.ballot_ok(m, leader, u));
    lemma_terms_rise(h, m, b.log, k - 1, b.log.len() - 1);
    let last = types::last_term(base);
    assert(last >= t);
    if base.len() == 0 {
        assert(false);
    }
    let end = base.len() - 1;
    assert(agree(base, h.log(last), base.len() as int));
    if last == types::last_term(b.log) {
        assert(base.len() >= b.log.len());
        assert(agree(b.log, h.log(last), b.log.len() as int));
        assert(agree(base, log, k));
    } else {
        assert(base[end].term == last);
        assert(last < u);
        assert(agree(h.log(last), log, k));
        if base.len() < k {
            assert(h.log(last)[end] == log[end]);
            assert(log[end].term <= t);
            assert(false);
        }
        assert(agree(base, log, k));
    }
    assert(agree(h.log(u), log, k));
}

/// The history went on by what node `n` did in term `t`, and nothing else.
pub open spec fn grows(h: History, g: History, n: NodeId, t: Term) -> bool {
    &&& forall|u: Term|
        u != t ==> #[trigger] g.reigns.contains_key(u) == h.reigns.contains_key(u)
    &&& forall|u: Term| u != t && #[trigger] h.reigns.contains_key(u) ==> g.reigns[u] == h.reigns[u]
    &&& h.reigns.contains_key(t) ==> {
        &&& g.reigns.contains_key(t)
        &&& g.reigns[t].leader == h.reigns[t].leader
        &&& agree(g.log(t), h.log(t), h.log(t).len() as int)
        &&& h.reigns[t].leader != n ==> g.reigns[t] == h.reigns[t]
    }
    &&& g.reigns.contains_key(t) && !h.reigns.contains_key(t) ==> g.reigns[t].leader == n
    &&& forall|k: (NodeId, Term)|
        k != (n, t) ==> #[trigger] g.votes.contains_key(k) == h.votes.contains_key(k)
    &&& forall|k: (NodeId, Term)| #[trigger]
        h.votes.contains_key(k) ==> g.votes.contains_key(k) && g.votes[k] == h.votes[k]
    &&& forall|k: (NodeId, Term)|
        k != (n, t) ==> #[trigger] g.acked.contains_key(k) == h.acked.contains_key(k)
    &&& forall|k: (NodeId, Term)| #[trigger]
        h.acked.contains_key(k) ==> g.acked.contains_key(k) && h.acked[k] <= g.acked[k]
    &&& forall|k: (NodeId, Term)|
        k != (n, t) && #[trigger] h.acked.contains_key(k) ==> g.acked[k] == h.acked[k]
}

proof fn lemma_log_grows(h: History, g: History, n: NodeId, t: Term, u: Term)
    requires
        grows(h, g, n, t),
        h.reigns.contains_key(u),
    ensures
        g.reigns.contains_key(u),
        g.reigns[u].leader == h.reigns[u].leader,
        agree(g.log(u), h.log(u), h.log(u).len() as int),
{
}

proof fn lemma_fits_grows(h: History, g: History, n: NodeId, t: Term, log: Seq<Entry>)
    requires
        grows(h, g, n, t),
        h.fits(log),
    ensures
        g.fits(log),
{
    assert forall|i: int| 0 <= i < log.len() implies g.reigns.contains_key(
        (#[trigger] log[i]).term,
    ) && agree(log, g.log(log[i].term), i + 1) by {
        lemma_log_grows(h, g, n, t, log[i].term);
    }
}

proof fn lemma_kept_grows(
    h: History,
    g: History,
    n: NodeId,
    t: Term,
    log: Seq<Entry>,
    u: Term,
    k: int,
    bound: int,
    wider: int,
)
    requires
        grows(h, g, n, t),
        h.reigns.contains_key(u),
        k <= h.log(u).len(),
        h.kept(log, u, k, bound),
        bound <= wider,
    ensures
        g.kept(log, u, k, wider),
{
    lemma_log_grows(h, g, n, t, u);
    if !agree(log, h.log(u), k) {
        let w = choose|w: Term|
            u < w <= bound && #[trigger] h.reigns.contains_key(w) && differ(
                h.log(w),
                h.log(u),
                k,
            );
        lemma_log_grows(h, g, n, t, w);
        let i = choose|i: int|
            0 <= i < k && i < h.log(w).len() && i < h.log(u).len() && #[trigger] h.log(w)[i]
                != h.log(u)[i];
        assert(g.log(w)[i] != g.log(u)[i]);
        assert(g.reigns.contains_key(w));
    }
}

proof fn lemma_certified_grows(h: History, g: History, m: Set<NodeId>, n: NodeId, t: Term, u: Term, k: int)
    requires
        grows(h, g, n, t),
        h.certified(m, u, k),
    ensures
        g.certified(m, u, k),
        agree(g.log(u), h.log(u), h.log(u).len() as int),
{
    lemma_log_grows(h, g, n, t, u);
    let q = choose|q: Set<NodeId>| #[trigger]
        quorum(q, m) && forall|v: NodeId| #[trigger] q.contains(v) ==> h.holds(v, u, k);
    assert forall|v: NodeId| #[trigger] q.contains(v) implies g.holds(v, u, k) by {
        assert(h.holds(v, u, k));
    }
}

proof fn lemma_committed_grows(
    h: History,
    g: History,
    m: Set<NodeId>,
    n: NodeId,
    t: Term,
    log: Seq<Entry>,
    c: int,
    bound: Term,
    wider: Term,
)
    requires
        grows(h, g, n, t),
        h.committed(m, log, c, bound),
        bound <= wider,
    ensures
        g.committed(m, log, c, wider),
{
    if c != 0 {
        let (u, k) = choose|u: Term, k: int|
            u <= bound && c <= k && #[trigger] h.certified(m, u, k) && agree(log, h.log(u), c);
        lemma_certified_grows(h, g, m, n, t, u, k);
        assert(agree(log, g.log(u), c));
    }
}

proof fn lemma_chosen_grows(h: History, g: History, m: Set<NodeId>, n: NodeId, t: Term, e: Entry)
    requires
        grows(h, g, n, t),
        h.chosen(m, e),
    ensures
        g.chosen(m, e),
{
    let (u, k) = choose|u: Term, k: int|
        1 <= e.index <= k && #[trigger] h.certified(m, u, k) && h.log(u)[e.index - 1] == e;
    lemma_certified_grows(h, g, m, n, t, u, k);
    assert(g.log(u)[e.index - 1] == e);
}

proof fn lemma_committed_log_grows(
    h: History,
    m: Set<NodeId>,
    log: Seq<Entry>,
    longer: Seq<Entry>,
    c: int,
    bound: Term,
)
    requires
        h.committed(m, log, c, bound),
        agree(log, longer, c),
    ensures
        h.committed(m, longer, c, bound),
{
    if c != 0 {
        let (u, k) = choose|u: Term, k: int|
            u <= bound && c <= k && #[trigger] h.certified(m, u, k) && agree(log, h.log(u), c);
        assert(agree(longer, h.log(u), c));
    }
}

proof fn lemma_packet_grows(h: History, g: History, m: Set<NodeId>, n: NodeId, t: Term, p: Packet)
    requires
        grows(h, g, n, t),
        h.packet_ok(m, p),
    ensures
        g.packet_ok(m, p),
{
    match p.msg {
        MessageView::AppendEntries { term, entries, prev_log_index, leader_commit, .. } => {
            lemma_log_grows(h, g, n, t, term);
            lemma_committed_grows(h, g, m, n, t, h.log(term), leader_commit as int, term, term);
            lemma_committed_log_grows(
                g,
                m,
                h.log(term),
                g.log(term),
                leader_commit as int,
                term,
            );
            assert forall|i: int| 0 <= i < entries.len() implies #[trigger] entries[i] == g.log(
                term,
            )[prev_log_index + i] by {
                assert(entries[i] == h.log(term)[prev_log_index + i]);
            }
        },
        _ => {},
    }
}

/// Another node's standing does not change by what node `n` does.
proof fn lemma_other_grows(
    h: History,
    g: History,
    m: Set<NodeId>,
    n: NodeId,
    t: Term,
    o: NodeId,
    s: NodeView,
)
    requires
        h.ok(m),
        grows(h, g, n, t),
        h.node_ok(m, o, s),
        o != n,
    ensures
        g.node_ok(m, o, s),
{
    let term = s.hard.current_term;
    lemma_fits_grows(h, g, n, t, s.log);
    lemma_committed_grows(h, g, m, n, t, s.log, s.commit_index as int, term, term);
    assert forall|u: Term, k: int| 0 <= k && #[trigger] g.holds(o, u, k) implies g.kept(
        s.log,
        u,
        k,
        term as int,
    ) by {
        assert(h.acked.contains_key((o, u)));
        assert(h.ack_ok(o, u));
        assert(h.holds(o, u, k));
        lemma_kept_grows(h, g, n, t, s.log, u, k, term as int, term as int);
    }
    assert forall|u: Term| #[trigger] g.votes.contains_key((o, u)) implies u <= term && (u == term
        ==> s.hard.voted_for == Some(g.votes[(o, u)].cand)) by {
        assert(h.votes.contains_key((o, u)));
    }
    assert forall|u: Term| #[trigger] g.acked.contains_key((o, u)) implies u <= term by {
        assert(h.acked.contains_key((o, u)));
    }
    assert forall|u: Term| #[trigger]
        g.reigns.contains_key(u) && g.reigns[u].leader == o implies u <= term && (u == term ==> !(
    s.role is Candidate)) by {
        assert(h.reigns.contains_key(u));
    }
    match s.role {
        RoleView::Candidate { votes_received } => {
            assert forall|v: NodeId| #[trigger] votes_received.contains(v) implies
                g.votes.contains_key((v, term)) && g.votes[(v, term)].cand == o by {
                assert(h.votes.contains_key((v, term)));
            }
        },
        RoleView::Leader { match_index, .. } => {
            lemma_log_grows(h, g, n, t, term);
            assert forall|p: NodeId| #[trigger]
                match_index.contains_key(p) implies match_index[p] == 0 || g.holds(
                p,
                term,
                match_index[p] as int,
            ) by {
                assert(match_index[p] == 0 || h.holds(p, term, match_index[p] as int));
            }
        },
        RoleView::Follower => {},
    }
}

/// The history stays consistent, if what was added to it is.
proof fn lemma_history_grows(h: History, g: History, m: Set<NodeId>, n: NodeId, t: Term)
    requires
        h.ok(m),
        grows(h, g, n, t),
        forall|u: Term| #[trigger] h.votes.contains_key((n, u)) ==> u <= t,
        g.reigns.contains_key(t) && g.reigns[t] != h.reigns[t] || !h.reigns.contains_key(t)
            && g.reigns.contains_key(t) ==> g.reign_ok(m, t),
        g.votes.contains_key((n, t)) && !h.votes.contains_key((n, t)) ==> g.ballot_ok(m, n, t),
        g.acked.contains_key((n, t)) ==> g.ack_ok(n, t),
    ensures
        g.ok(m),
{
    assert forall|u: Term| #[trigger] g.reigns.contains_key(u) implies g.reign_ok(m, u) by {
        if h.reigns.contains_key(u) && g.reigns[u] == h.reigns[u] {
            let r = h.reigns[u];
            assert(h.reign_ok(m, u));
            lemma_fits_grows(h, g, n, t, r.log);
            let q = choose|q: Set<NodeId>| #[trigger] h.elected(m, u, q);
            assert(h.votes.contains_key((r.leader, u)));
            assert forall|v: NodeId| #[trigger] q.contains(v) implies g.votes.contains_key((v, u))
                && g.votes[(v, u)].cand == g.reigns[u].leader && g.votes[(v, u)].early by {
                assert(h.votes.contains_key((v, u)));
            }
            assert(g.elected(m, u, q));
        }
    }
    assert forall|v: NodeId, u: Term| #[trigger]
        g.votes.contains_key((v, u)) implies g.ballot_ok(m, v, u) by {
        if h.votes.contains_key((v, u)) {
            let b = h.votes[(v, u)];
            assert(h.ballot_ok(m, v, u));
            assert(h.votes.contains_key((b.cand, u)));
            lemma_fits_grows(h, g, n, t, b.log);
            if b.early {
                assert forall|w: Term, k: int|
                    w < u && 0 <= k && #[trigger] g.holds(v, w, k) implies g.kept(
                    b.log,
                    w,
                    k,
                    u - 1,
                ) by {
                    assert((v, w) != (n, t));
                    assert(h.acked.contains_key((v, w)));
                    assert(h.ack_ok(v, w));
                    assert(h.holds(v, w, k));
                    lemma_kept_grows(h, g, n, t, b.log, w, k, u - 1, u - 1);
                }
            }
        }
    }
    assert forall|v: NodeId, u: Term| #[trigger]
        g.acked.contains_key((v, u)) implies g.ack_ok(v, u) by {
        if (v, u) != (n, t) {
            assert(h.acked.contains_key((v, u)));
            assert(h.ack_ok(v, u));
            lemma_log_grows(h, g, n, t, u);
        }
    }
}

/// A node may move to `s`, asking for the effects, and the history then is `g`.
pub closed spec fn moves(
    h: History,
    g: History,
    m: Set<NodeId>,
    n: NodeId,
    s: NodeView,
    effects: Seq<EffectView>,
) -> bool {
    &&& g.ok(m)
    &&& grows(h, g, n, s.hard.current_term)
    &&& g.node_ok(m, n, s)
    &&& forall|to: NodeId, msg: MessageView| #[trigger]
        effects.contains(EffectView::Send { to, msg }) ==> g.packet_ok(
            m,
            Packet { from: n, to, msg },
        )
    &&& forall|e: Entry| #[trigger] effects.contains(EffectView::Apply(e)) ==> g.chosen(m, e)
}

/// A cluster in which one node has moved is safe; it may have sent and applied
/// less than it meant to.
pub proof fn lemma_moved(
    c: Cluster,
    next: Cluster,
    h: History,
    g: History,
    n: NodeId,
    s: NodeView,
    effects: Seq<EffectView>,
)
    requires
        safe(c, h),
        c.nodes.contains_key(n),
        moves(h, g, c.nodes.dom(), n, s, effects),
        next.nodes == c.nodes.insert(n, s),
        next.sent.subset_of(c.sent.union(sends(n, effects))),
        next.applied.subset_of(c.applied.union(applies(effects))),
    ensures
        safe(next, g),
{
    let m = c.nodes.dom();
    let t = s.hard.current_term;
    assert(next.nodes.dom() =~= m);
    assert forall|o: NodeId| #[trigger] next.nodes.contains_key(o) implies g.node_ok(
        m,
        o,
        next.nodes[o],
    ) by {
        if o != n {
            assert(c.nodes.contains_key(o));
            lemma_other_grows(h, g, m, n, t, o, c.nodes[o]);
        }
    }
    assert forall|p: Packet| #[trigger] next.sent.contains(p) implies g.packet_ok(m, p) by {
        if c.sent.contains(p) {
            lemma_packet_grows(h, g, m, n, t, p);
        } else {
            assert(sends(n, effects).contains(p));
        }
    }
    assert forall|e: Entry| #[trigger] next.applied.contains(e) implies g.chosen(m, e) by {
        if c.applied.contains(e) {
            lemma_chosen_grows(h, g, m, n, t, e);
        } else {
            assert(applies(effects).contains(e));
        }
    }
}

/// Nothing new in the history.
proof fn lemma_grows_not(h: History, n: NodeId, t: Term)
    ensures
        grows(h, h, n, t),
{
}

proof fn lemma_node_bounds(h: History, m: Set<NodeId>, n: NodeId, s: NodeView, t: Term, s2: NodeView)
    requires
        h.ok(m),
        h.node_ok(m, n, s),
        t >= s.hard.current_term,
        s2.log == s.log,
        s2.hard.current_term == t,
    ensures
        forall|u: Term, k: int|
            0 <= k && #[trigger] h.holds(n, u, k) ==> h.kept(s2.log, u, k, t as int),
        h.committed(m, s2.log, s.commit_index as int, t),
{
    lemma_grows_not(h, n, t);
    lemma_committed_grows(
        h,
        h,
        m,
        n,
        t,
        s.log,
        s.commit_index as int,
        s.hard.current_term,
        t,
    );
    assert forall|u: Term, k: int| 0 <= k && #[trigger] h.holds(n, u, k) implies h.kept(
        s2.log,
        u,
        k,
        t as int,
    ) by {
        assert(h.acked.contains_key((n, u)));
        assert(h.ack_ok(n, u));
        lemma_kept_grows(h, h, n, t, s.log, u, k, s.hard.current_term as int, t as int);
    }
}

/// A node adopts a newer term.
pub proof fn lemma_adopt(h: History, m: Set<NodeId>, n: NodeId, s: NodeView, t: Term)
    requires
        h.ok(m),
        h.node_ok(m, n, s),
    ensures
        moves(h, h, m, n, s.adopt_term(t).0, s.adopt_term(t).1),
{
    let (s2, effects) = s.adopt_term(t);
    lemma_grows_not(h, n, s2.hard.current_term);
    lemma_node_bounds(h, m, n, s, s2.hard.current_term, s2);
    assert(s2.log == s.log);
}

/// A node restarts with the log and hard state that it has.
pub proof fn lemma_reboot(h: History, m: Set<NodeId>, n: NodeId, s: NodeView, seed: u64)
    requires
        h.ok(m),
        h.node_ok(m, n, s),
    ensures
        moves(h, h, m, n, s.rebooted(s.durable(), seed), Seq::empty()),
{
    lemma_grows_not(h, n, s.hard.current_term);
}

/// A node stands for election.
proof fn lemma_campaign(h: History, m: Set<NodeId>, n: NodeId, s: NodeView) -> (g: History)
    requires
        h.ok(m),
        h.node_ok(m, n, s),
        m.contains(n),
        s.hard.current_term < u64::MAX,
        !(s.role is Leader),
        s.start_election().0.wf(),
    ensures
        moves(h, g, m, n, s.start_election().0, s.start_election().1),
{
    let (s2, effects) = s.start_election();
    let t = s2.hard.current_term;
    let b = Ballot { cand: n, log: s.log, early: !h.reigns.contains_key(t) };
    let g = History { votes: h.votes.insert((n, t), b), ..h };
    assert(!h.votes.contains_key((n, t)));
    assert(grows(h, g, n, t));
    lemma_fits_grows(h, g, n, t, s.log);
    lemma_node_bounds(h, m, n, s, t, s2);
    assert(g.ballot_ok(m, n, t)) by {
        assert forall|u: Term, k: int|
            u < t && 0 <= k && #[trigger] g.holds(n, u, k) && b.early implies g.kept(
            b.log,
            u,
            k,
            t - 1,
        ) by {
            assert(h.holds(n, u, k));
            assert(h.kept(s.log, u, k, s.hard.current_term as int));
            assert(h.acked.contains_key((n, u)));
            assert(h.ack_ok(n, u));
            lemma_kept_grows(h, g, n, t, s.log, u, k, t - 1, t - 1);
        }
    }
    lemma_history_grows(h, g, m, n, t);
    assert forall|u: Term, k: int| 0 <= k && #[trigger] g.holds(n, u, k) implies g.kept(
        s2.log,
        u,
        k,
        t as int,
    ) by {
        assert(h.holds(n, u, k));
        assert(h.acked.contains_key((n, u)));
        assert(h.ack_ok(n, u));
        lemma_kept_grows(h, g, n, t, s.log, u, k, t as int, t as int);
    }
    lemma_committed_grows(h, g, m, n, t, s.log, s.commit_index as int, t, t);
    assert(g.memory_ok(n, s2));
    assert(g.role_ok(m, n, s2));
    assert(s2.vote_requests().len() == s.peers.len());
    assert forall|to: NodeId, msg: MessageView| #[trigger]
        effects.contains(EffectView::Send { to, msg }) implies g.packet_ok(
        m,
        Packet { from: n, to, msg },
    ) by {
        let i = choose|i: int| 0 <= i < effects.len() && effects[i] == EffectView::Send { to, msg };
        let d = effects.len() - s2.vote_requests().len();
        assert(effects[i] == s2.vote_requests()[i - d]);
    }
    g
}

/// A node casts its vote, or repeats it, or refuses.
proof fn lemma_vote(
    h: History,
    m: Set<NodeId>,
    n: NodeId,
    s: NodeView,
    term: Term,
    candidate_id: NodeId,
    last_log_index: u64,
    last_log_term: Term,
) -> (g: History)
    requires
        h.ok(m),
        h.node_ok(m, n, s),
        m.contains(n),
        term <= s.hard.current_term,
        h.packet_ok(
            m,
            Packet {
                from: candidate_id,
                to: n,
                msg: MessageView::RequestVote {
                    term,
                    candidate_id,
                    last_log_index,
                    last_log_term,
                },
            },
        ),
        s.on_request_vote(term, candidate_id, last_log_index, last_log_term).0.wf(),
    ensures
        moves(
            h,
            g,
            m,
            n,
            s.on_request_vote(term, candidate_id, last_log_index, last_log_term).0,
            s.on_request_vote(term, candidate_id, last_log_index, last_log_term).1,
        ),
{
    let (s2, effects) = s.on_request_vote(term, candidate_id, last_log_index, last_log_term);
    let t = s.hard.current_term;
    assert(s2.hard.current_term == t);
    let reply = effects.last();
    assert forall|to: NodeId, msg: MessageView| #[trigger]
        effects.contains(EffectView::Send { to, msg }) implies EffectView::Send { to, msg }
        == reply by {
        let i = choose|i: int| 0 <= i < effects.len() && effects[i] == EffectView::Send { to, msg };
    }
    if s2.hard == s.hard {
        lemma_grows_not(h, n, t);
        assert(h.memory_ok(n, s2));
        assert(h.role_ok(m, n, s2));
        h
    } else {
        let b = Ballot { cand: candidate_id, log: s.log, early: !h.reigns.contains_key(t) };
        let g = History { votes: h.votes.insert((n, t), b), ..h };
        assert(!h.votes.contains_key((n, t)));
        assert(h.votes.contains_key((candidate_id, t)));
        assert(n != candidate_id);
        assert(grows(h, g, n, t));
        lemma_fits_grows(h, g, n, t, s.log);
        assert forall|u: Term, k: int| 0 <= k && #[trigger] g.holds(n, u, k) implies g.kept(
            s2.log,
            u,
            k,
            t as int,
        ) by {
            assert(h.holds(n, u, k));
            assert(h.acked.contains_key((n, u)));
            assert(h.ack_ok(n, u));
            lemma_kept_grows(h, g, n, t, s.log, u, k, t as int, t as int);
        }
        assert(g.ballot_ok(m, n, t)) by {
            assert forall|u: Term, k: int|
                u < t && 0 <= k && #[trigger] g.holds(n, u, k) && b.early implies g.kept(
                b.log,
                u,
                k,
                t - 1,
            ) by {
                assert(g.kept(s2.log, u, k, t as int));
            }
        }
        lemma_history_grows(h, g, m, n, t);
        lemma_committed_grows(h, g, m, n, t, s.log, s.commit_index as int, t, t);
        assert(g.memory_ok(n, s2));
        assert(!(s.role is Candidate));
        match s.role {
            RoleView::Leader { match_index, .. } => {
                assert(h.reign_ok(m, t));
                assert(false);
            },
            _ => {},
        }
        assert(g.role_ok(m, n, s2));
        g
    }
}

/// What a leader sends its peers is right.
proof fn lemma_leader_sends(h: History, m: Set<NodeId>, n: NodeId, s: NodeView)
    requires
        h.ok(m),
        h.node_ok(m, n, s),
    ensures
        forall|to: NodeId, msg: MessageView| #[trigger]
            s.append_entries_sends().contains(EffectView::Send { to, msg }) ==> h.packet_ok(
                m,
                Packet { from: n, to, msg },
            ),
        forall|e: Entry| !#[trigger] s.append_entries_sends().contains(EffectView::Apply(e)),
{
    let effects = s.append_entries_sends();
    assert forall|to: NodeId, msg: MessageView| #[trigger]
        effects.contains(EffectView::Send { to, msg }) implies h.packet_ok(
        m,
        Packet { from: n, to, msg },
    ) by {
        let i = choose|i: int| 0 <= i < effects.len() && effects[i] == EffectView::Send { to, msg };
        let peer = s.peers[i];
        assert(s.peers.contains(peer));
        assert(m.remove(n).contains(peer));
        let next_index = s.role->next_index;
        assert(next_index.contains_key(peer));
        assert(effects[i] == s.append_entries_for(peer));
    }
}

/// A longer log keeps what a shorter one did.
proof fn lemma_kept_longer(
    h: History,
    log: Seq<Entry>,
    longer: Seq<Entry>,
    t: Term,
    k: int,
    bound: int,
)
    requires
        h.kept(log, t, k, bound),
        agree(log, longer, log.len() as int),
    ensures
        h.kept(longer, t, k, bound),
{
    if agree(log, h.log(t), k) {
        assert(agree(longer, h.log(t), k));
    }
}

proof fn lemma_peer_count(m: Set<NodeId>, n: NodeId, peers: Seq<NodeId>)
    requires
        m.finite(),
        m.contains(n),
        peers.no_duplicates(),
        forall|p: NodeId| #[trigger] peers.contains(p) <==> m.contains(p) && p != n,
    ensures
        m.len() == peers.len() + 1,
{
    peers.unique_seq_to_set();
    assert(peers.to_set() =~= m.remove(n));
}

/// A leader's log grows by an entry of its term: the first one, which makes it
/// leader, or another.
proof fn lemma_lead(h: History, m: Set<NodeId>, n: NodeId, s: NodeView, e: Entry) -> (g: History)
    requires
        h.ok(m),
        h.node_ok(m, n, s),
        m.contains(n),
        s.log.len() < u64::MAX,
        e.index == s.log.len() + 1,
        e.term == s.hard.current_term,
        s.role is Leader || {
            &&& s.role matches RoleView::Candidate { votes_received } && votes_received.len()
                >= s.majority()
        },
    ensures
        g.ok(m),
        grows(h, g, n, s.hard.current_term),
        g.reigns.contains_key(s.hard.current_term),
        g.reigns[s.hard.current_term] == (Reign { leader: n, log: s.log.push(e) }),
        g.holds(n, s.hard.current_term, s.log.len() as int + 1),
        g.fits(s.log.push(e)),
        forall|u: Term, k: int|
            0 <= k && #[trigger] g.holds(n, u, k) ==> g.kept(
                s.log.push(e),
                u,
                k,
                s.hard.current_term as int,
            ),
        g.committed(m, s.log.push(e), s.commit_index as int, s.hard.current_term),
        g.votes == h.votes,
        forall|u: Term| #[trigger] g.acked.contains_key((n, u)) ==> u <= s.hard.current_term,
{
    let t = s.hard.current_term;
    let log = s.log.push(e);
    let g = History {
        reigns: h.reigns.insert(t, Reign { leader: n, log }),
        acked: h.acked.insert((n, t), log.len()),
        ..h
    };
    if s.role is Candidate {
        let got = s.role->votes_received;
        lemma_peer_count(m, n, s.peers);
        assert(quorum(got, m));
        if h.reigns.contains_key(t) {
            assert(h.reign_ok(m, t));
            let q = choose|q: Set<NodeId>| #[trigger] h.elected(m, t, q);
            let v = lemma_quorums_meet(got, q, m);
            assert(h.reigns[t].leader == n);
            assert(false);
        }
        if h.acked.contains_key((n, t)) {
            assert(h.ack_ok(n, t));
            assert(false);
        }
    } else {
        assert(h.ack_ok(n, t));
    }
    assert(grows(h, g, n, t));
    lemma_fits_grows(h, g, n, t, s.log);
    assert(g.fits(log)) by {
        assert forall|i: int| 0 <= i < log.len() implies g.reigns.contains_key(
            (#[trigger] log[i]).term,
        ) && agree(log, g.log(log[i].term), i + 1) by {
            if i < s.log.len() {
                assert(log[i] == s.log[i]);
                assert(agree(s.log, g.log(s.log[i].term), i + 1));
            }
        }
    }
    assert(h.votes.contains_key((n, t)) && h.votes[(n, t)].cand == n) by {
        if s.role is Leader {
            assert(h.reign_ok(m, t));
        }
    }
    assert(h.ballot_ok(m, n, t));
    assert(g.reign_ok(m, t)) by {
        if s.role is Candidate {
            let got = s.role->votes_received;
            assert forall|v: NodeId| #[trigger] got.contains(v) implies g.votes.contains_key((v, t))
                && g.votes[(v, t)].cand == n && g.votes[(v, t)].early by {
                assert(h.ballot_ok(m, v, t));
            }
            assert(g.elected(m, t, got));
        } else {
            assert(h.reign_ok(m, t));
            let q = choose|q: Set<NodeId>| #[trigger] h.elected(m, t, q);
            assert(g.elected(m, t, q)) by {
                assert forall|v: NodeId| #[trigger] q.contains(v) implies g.votes.contains_key(
                    (v, t),
                ) && g.votes[(v, t)].cand == n && g.votes[(v, t)].early by {
                    assert(h.votes.contains_key((v, t)));
                }
            }
        }
    }
    assert(g.ack_ok(n, t));
    lemma_history_grows(h, g, m, n, t);
    assert forall|u: Term, k: int| 0 <= k && #[trigger] g.holds(n, u, k) implies g.kept(
        log,
        u,
        k,
        t as int,
    ) by {
        if u == t {
            assert(agree(log, g.log(t), k));
        } else {
            assert(h.holds(n, u, k));
            assert(h.acked.contains_key((n, u)));
            assert(h.ack_ok(n, u));
            lemma_kept_grows(h, g, n, t, s.log, u, k, t as int, t as int);
            lemma_kept_longer(g, s.log, log, u, k, t as int);
        }
    }
    lemma_committed_grows(h, g, m, n, t, s.log, s.commit_index as int, t, t);
    lemma_committed_log_grows(g, m, s.log, log, s.commit_index as int, t);
    g
}

/// A leader whose log grows by an entry of its term still leads rightly.
#[verifier::spinoff_prover]
proof fn lemma_leads_on(h: History, m: Set<NodeId>, n: NodeId, s: NodeView, e: Entry) -> (g: History)
    requires
        h.ok(m),
        h.node_ok(m, n, s),
        m.contains(n),
        s.role is Leader,
        s.log.len() < u64::MAX,
        e.index == s.log.len() + 1,
        e.term == s.hard.current_term,
    ensures
        g.ok(m),
        grows(h, g, n, s.hard.current_term),
        g.node_ok(m, n, (NodeView { log: s.log.push(e), ..s })),
{
    let s2 = NodeView { log: s.log.push(e), ..s };
    let t = s.hard.current_term;
    let g = lemma_lead(h, m, n, s, e);
    let match_index = s.role->match_index;
    assert(g.role_ok(m, n, s2)) by {
        assert forall|p: NodeId| #[trigger]
            match_index.contains_key(p) implies match_index[p] == 0 || g.holds(
            p,
            t,
            match_index[p] as int,
        ) by {
            assert(match_index[p] == 0 || h.holds(p, t, match_index[p] as int));
        }
    }
    assert(g.memory_ok(n, s2)) by {
        assert forall|u: Term| #[trigger]
            g.reigns.contains_key(u) && g.reigns[u].leader == n implies u <= t && (u == t ==> !(
        s2.role is Candidate)) by {
            assert(h.reigns.contains_key(u));
        }
    }
    assert(s2.wf());
    assert forall|i: int| 0 <= i < s2.log.len() implies (#[trigger] s2.log[i]).term <= t by {
        if i < s.log.len() {
            assert(s2.log[i] == s.log[i]);
        }
    }
    g
}

/// A leader that takes a proposal has it in its log, and neither sends nor
/// applies anything.
proof fn lemma_proposed(s: NodeView, command: types::Command)
    requires
        s.wf(),
        s.role is Leader,
        s.on_client_propose(command).0.log.len() <= u64::MAX,
    ensures
        ({
            let (s2, effects) = s.on_client_propose(command);
            let e = s2.log.last();
            &&& s2 == (NodeView { log: s.log.push(e), ..s })
            &&& e.index == s.log.len() + 1
            &&& e.term == s.hard.current_term
            &&& forall|x: EffectView| #[trigger] effects.contains(x) ==> !(x is Send) && !(
            x is Apply)
        }),
{
    let (s2, effects) = s.on_client_propose(command);
    assert forall|x: EffectView| #[trigger] effects.contains(x) implies !(x is Send) && !(
    x is Apply) by {
        let i = choose|i: int| 0 <= i < effects.len() && effects[i] == x;
    }
}

/// A node that sends and applies nothing has moved rightly if its state is in
/// order.
#[verifier::spinoff_prover]
proof fn lemma_quiet(
    h: History,
    g: History,
    m: Set<NodeId>,
    n: NodeId,
    s: NodeView,
    effects: Seq<EffectView>,
)
    requires
        g.ok(m),
        grows(h, g, n, s.hard.current_term),
        g.node_ok(m, n, s),
        forall|x: EffectView| #[trigger] effects.contains(x) ==> !(x is Send) && !(x is Apply),
    ensures
        moves(h, g, m, n, s, effects),
{
}

/// A node that is in order is well formed.
#[verifier::spinoff_prover]
proof fn lemma_in_order(h: History, m: Set<NodeId>, n: NodeId, s: NodeView)
    requires
        h.node_ok(m, n, s),
    ensures
        s.wf(),
{
}

/// A leader takes a proposal.
#[verifier::spinoff_prover]
pub proof fn lemma_propose(
    h: History,
    m: Set<NodeId>,
    n: NodeId,
    s: NodeView,
    command: types::Command,
) -> (g: History)
    requires
        h.ok(m),
        h.node_ok(m, n, s),
        m.contains(n),
        s.on_client_propose(command).0.log.len() <= u64::MAX,
    ensures
        moves(h, g, m, n, s.on_client_propose(command).0, s.on_client_propose(command).1),
{
    let (s2, effects) = s.on_client_propose(command);
    lemma_in_order(h, m, n, s);
    if s.role is Leader {
        lemma_proposed(s, command);
        let g = lemma_leads_on(h, m, n, s, s2.log.last());
        lemma_quiet(h, g, m, n, s2, effects);
        g
    } else {
        lemma_grows_not(h, n, s.hard.current_term);
        lemma_quiet(h, h, m, n, s2, effects);
        h
    }
}

/// A candidate that has counted a vote is still in order.
#[verifier::spinoff_prover]
proof fn lemma_counted(h: History, m: Set<NodeId>, n: NodeId, s: NodeView, from: NodeId)
    requires
        h.node_ok(m, n, s),
        s.role is Candidate,
        s.peers.contains(from),
        h.votes.contains_key((from, s.hard.current_term)),
        h.votes[(from, s.hard.current_term)].cand == n,
    ensures
        h.node_ok(
            m,
            n,
            (NodeView {
                role: RoleView::Candidate { votes_received: s.role->votes_received.insert(from) },
                ..s
            }),
        ),
{
    let votes = s.role->votes_received.insert(from);
    let s1 = NodeView { role: RoleView::Candidate { votes_received: votes }, ..s };
    assert(m.contains(from));
    assert(h.role_ok(m, n, s1));
    assert(h.memory_ok(n, s1));
    assert(s1.wf());
}

/// A candidate with a majority of the votes leads rightly.
#[verifier::spinoff_prover]
proof fn lemma_crown(h: History, m: Set<NodeId>, n: NodeId, s: NodeView) -> (g: History)
    requires
        h.ok(m),
        h.node_ok(m, n, s),
        m.contains(n),
        s.role is Candidate,
        s.role->votes_received.len() >= s.majority(),
        s.log.len() < u64::MAX,
    ensures
        g.ok(m),
        grows(h, g, n, s.hard.current_term),
        g.node_ok(m, n, s.become_leader().0),
{
    let t = s.hard.current_term;
    let s2 = s.become_leader().0;
    let e = s.opening_entry();
    assert(e.index == s.log.len() + 1);
    let g = lemma_lead(h, m, n, s, e);
    let next_index = s2.role->next_index;
    let match_index = s2.role->match_index;
    assert(next_index.dom() =~= m.remove(n));
    assert(match_index.dom() =~= m.remove(n));
    assert(g.role_ok(m, n, s2));
    assert(g.memory_ok(n, s2)) by {
        assert forall|u: Term| #[trigger]
            g.reigns.contains_key(u) && g.reigns[u].leader == n implies u <= t && (u == t ==> !(
        s2.role is Candidate)) by {
            if u != t {
                assert(h.reigns.contains_key(u));
            }
        }
    }
    assert(s2.wf());
    assert forall|i: int| 0 <= i < s2.log.len() implies (#[trigger] s2.log[i]).term <= t by {
        if i < s.log.len() {
            assert(s2.log[i] == s.log[i]);
        }
    }
    g
}

/// What a new leader sends is in order, and it applies nothing.
#[verifier::spinoff_prover]
proof fn lemma_crown_sends(g: History, m: Set<NodeId>, n: NodeId, s: NodeView)
    requires
        g.ok(m),
        g.node_ok(m, n, s.become_leader().0),
    ensures
        forall|to: NodeId, msg: MessageView| #[trigger]
            s.become_leader().1.contains(EffectView::Send { to, msg }) ==> g.packet_ok(
                m,
                Packet { from: n, to, msg },
            ),
        forall|e: Entry| !#[trigger] s.become_leader().1.contains(EffectView::Apply(e)),
{
    let (s2, effects) = s.become_leader();
    let out = s2.append_entries_sends();
    lemma_leader_sends(g, m, n, s2);
    assert forall|x: EffectView| #[trigger] effects.contains(x) && (x is Send
        || x is Apply) implies out.contains(x) by {
        let i = choose|i: int| 0 <= i < effects.len() && effects[i] == x;
        assert(i >= 2);
        assert(out[i - 2] == x);
    }
}

/// A candidate counts a vote, and may become leader by it.
#[verifier::spinoff_prover]
proof fn lemma_count(
    h: History,
    m: Set<NodeId>,
    n: NodeId,
    s: NodeView,
    from: NodeId,
    term: Term,
    vote_granted: bool,
) -> (g: History)
    requires
        h.ok(m),
        h.node_ok(m, n, s),
        m.contains(n),
        h.packet_ok(
            m,
            Packet { from, to: n, msg: MessageView::RequestVoteReply { term, vote_granted } },
        ),
        s.on_request_vote_reply(from, term, vote_granted).0.log.len() <= u64::MAX,
    ensures
        moves(
            h,
            g,
            m,
            n,
            s.on_request_vote_reply(from, term, vote_granted).0,
            s.on_request_vote_reply(from, term, vote_granted).1,
        ),
{
    let t = s.hard.current_term;
    lemma_grows_not(h, n, t);
    match s.role {
        RoleView::Candidate { votes_received } if term == t && vote_granted && s.peers.contains(
            from,
        ) => {
            let votes = votes_received.insert(from);
            let s1 = NodeView { role: RoleView::Candidate { votes_received: votes }, ..s };
            lemma_counted(h, m, n, s, from);
            if votes.len() >= s.majority() {
                let g = lemma_crown(h, m, n, s1);
                lemma_crown_sends(g, m, n, s1);
                g
            } else {
                h
            }
        },
        _ => h,
    }
}

/// A payload of the leader of term `t`: entries `prev + 1 ..` of its log.
pub open spec fn slice_of(h: History, t: Term, prev: u64, entries: Seq<Entry>) -> bool {
    &&& h.reigns.contains_key(t)
    &&& prev + entries.len() <= h.log(t).len()
    &&& forall|i: int|
        0 <= i < entries.len() ==> #[trigger] entries[i] == h.log(t)[prev + i]
}

/// A log that holds the anchor agrees with the leader's up to there.
proof fn lemma_anchor(h: History, m: Set<NodeId>, n: NodeId, s: NodeView, t: Term, prev: u64)
    requires
        h.ok(m),
        h.node_ok(m, n, s),
        h.reigns.contains_key(t),
        prev <= h.log(t).len(),
        s.holds_anchor(prev, types::term_at(h.log(t), prev as int)),
    ensures
        agree(s.log, h.log(t), prev as int),
{
    if prev > 0 {
        assert(h.reign_ok(m, t));
        lemma_matching(h, s.log, h.log(t), prev - 1);
    }
}

/// A log that takes a leader's payload, or the beginning of it, still fits, and
/// keeps whatever it acknowledged and knows to be committed.
#[verifier::spinoff_prover]
#[verifier::rlimit(50)]
proof fn lemma_merge(
    h: History,
    m: Set<NodeId>,
    n: NodeId,
    s: NodeView,
    prev: u64,
    entries: Seq<Entry>,
    written: int,
    log: Seq<Entry>,
)
    requires
        h.ok(m),
        h.node_ok(m, n, s),
        slice_of(h, s.hard.current_term, prev, entries),
        agree(s.log, h.log(s.hard.current_term), prev as int),
        ({
            let k = replication::held(s.log, prev, entries, 0);
            ||| k == entries.len() && written == k && log == s.log
            ||| k < entries.len() && k <= written <= entries.len() && log == s.log.take(prev + k)
                + entries.subrange(k, written)
        }),
    ensures
        agree(log, h.log(s.hard.current_term), prev + written),
        h.fits(log),
        forall|i: int| 0 <= i < log.len() ==> (#[trigger] log[i]).term <= s.hard.current_term,
        forall|u: Term, k: int|
            0 <= k && #[trigger] h.holds(n, u, k) ==> h.kept(
                log,
                u,
                k,
                s.hard.current_term as int,
            ),
        h.committed(m, log, s.commit_index as int, s.hard.current_term),
        s.commit_index <= log.len(),
        log.len() <= u64::MAX,
{
    let t = s.hard.current_term;
    let whole = h.log(t);
    let k = replication::held(s.log, prev, entries, 0);
    replication::lemma_held(s.log, prev, entries, 0);
    assert(h.reign_ok(m, t));
    if k > 0 {
        assert(entries[k - 1] == whole[prev + k - 1]);
        lemma_matching(h, s.log, whole, prev + k - 1);
    }
    assert(agree(s.log, whole, prev + k));
    if k < entries.len() {
        assert(entries[k] == whole[prev + k]);
        assert(log.len() == prev + written);
        assert forall|i: int| 0 <= i < log.len() implies #[trigger] log[i] == whole[i] by {
            if i >= prev + k {
                assert(log[i] == entries[i - prev]);
            } else {
                assert(log[i] == s.log[i]);
            }
        }
        assert(agree(log, whole, log.len() as int));
        assert(whole.last().index == whole.len());
        assert(h.fits(log)) by {
            assert forall|i: int| 0 <= i < log.len() implies h.reigns.contains_key(
                (#[trigger] log[i]).term,
            ) && agree(log, h.log(log[i].term), i + 1) by {
                assert(log[i] == whole[i]);
                assert(agree(whole, h.log(whole[i].term), i + 1));
            }
        }
        assert forall|u: Term, j: int| 0 <= j && #[trigger] h.holds(n, u, j) implies h.kept(
            log,
            u,
            j,
            t as int,
        ) by {
            assert(h.kept(s.log, u, j, t as int));
            if agree(s.log, h.log(u), j) {
                if j <= prev + k {
                    assert(agree(log, h.log(u), j));
                } else {
                    assert(s.log[prev + k] == h.log(u)[prev + k]);
                    assert(whole[prev + k] != h.log(u)[prev + k]);
                    assert(h.acked.contains_key((n, u)));
                    assert(differ(whole, h.log(u), j));
                }
            }
        }
        if s.commit_index > 0 {
            let c = s.commit_index as int;
            let (u, j) = choose|u: Term, j: int|
                u <= t && c <= j && #[trigger] h.certified(m, u, j) && agree(s.log, h.log(u), c);
            if u < t {
                lemma_completeness(h, m, u, j, t);
            }
            assert(agree(whole, h.log(u), c));
            if c > prev + k {
                assert(s.log[prev + k] == whole[prev + k]);
                assert(false);
            }
            assert(agree(log, h.log(u), c));
        }
    }
}

/// The lesser of what a leader has committed and what its message covers.
pub open spec fn told_commit(leader_commit: u64, prev: u64, entries: Seq<Entry>) -> u64 {
    if leader_commit < prev + entries.len() {
        leader_commit
    } else {
        (prev + entries.len()) as u64
    }
}

/// What becomes of a node that takes a payload in, as far as safety goes.
pub open spec fn takes_in(
    s: NodeView,
    prev: u64,
    entries: Seq<Entry>,
    commit: u64,
    s2: NodeView,
    effects: Seq<EffectView>,
) -> bool {
    &&& s2.id == s.id
    &&& s2.peers == s.peers
    &&& s2.hard == s.hard
    &&& s2.now_ms == s.now_ms
    &&& s2.role is Follower
    &&& s2.log == replication::merged(s.log, prev, entries)
    &&& s2.commit_index == if commit > s.commit_index {
        commit
    } else {
        s.commit_index
    }
    &&& s.last_applied <= s.commit_index ==> s2.last_applied <= s2.commit_index
    &&& forall|to: NodeId, msg: MessageView| #[trigger]
        effects.contains(EffectView::Send { to, msg }) ==> msg
            == (MessageView::AppendEntriesReply {
            term: s.hard.current_term,
            success: true,
            match_index: (prev + entries.len()) as u64,
        })
    &&& forall|e: Entry| #[trigger]
        effects.contains(EffectView::Apply(e)) ==> exists|i: int|
            0 <= i < s2.commit_index && e == #[trigger] s2.log[i]
}

/// A node whose log holds the anchor takes the payload in.
proof fn lemma_takes_in(
    s: NodeView,
    term: Term,
    leader_id: NodeId,
    prev: u64,
    prev_log_term: Term,
    entries: Seq<Entry>,
    leader_commit: u64,
)
    requires
        term == s.hard.current_term,
        s.holds_anchor(prev, prev_log_term),
        prev + entries.len() <= u64::MAX,
    ensures
        ({
            let (s2, effects) = s.on_append_entries(
                term,
                leader_id,
                prev,
                prev_log_term,
                entries,
                leader_commit,
            );
            takes_in(s, prev, entries, told_commit(leader_commit, prev, entries), s2, effects)
        }),
{
    let (s2, effects) = s.on_append_entries(
        term,
        leader_id,
        prev,
        prev_log_term,
        entries,
        leader_commit,
    );
    let (follower, changed) = s.become_follower();
    let s1 = NodeView { leader_hint: Some(leader_id), ..follower.reset_election_deadline() };
    let commit = told_commit(leader_commit, prev, entries);
    let persist = s1.merge_persist(prev, entries);
    let t = NodeView { log: replication::merged(s1.log, prev, entries), ..s1 };
    let applied = t.commit_to(commit).1;
    let before = changed.len() + persist.len();
    assert forall|to: NodeId, msg: MessageView| #[trigger]
        effects.contains(EffectView::Send { to, msg }) implies msg
        == (MessageView::AppendEntriesReply {
        term: s.hard.current_term,
        success: true,
        match_index: (prev + entries.len()) as u64,
    }) by {
        let i = choose|i: int| 0 <= i < effects.len() && effects[i] == EffectView::Send { to, msg };
        if i > before {
            assert(effects[i] == applied[i - before - 1]);
        }
    }
    assert forall|e: Entry| #[trigger] effects.contains(EffectView::Apply(e)) implies exists|i: int|
        0 <= i < s2.commit_index && e == #[trigger] s2.log[i] by {
        let i = choose|i: int| 0 <= i < effects.len() && effects[i] == EffectView::Apply(e);
        assert(i > before);
        assert(effects[i] == applied[i - before - 1]);
        assert(e == s2.log[s.last_applied + i - before - 1]);
    }
}

/// A node that does not take an AppendEntries in changes nothing that counts.
proof fn lemma_refused_append(
    h: History,
    m: Set<NodeId>,
    n: NodeId,
    s: NodeView,
    term: Term,
    leader_id: NodeId,
    prev: u64,
    prev_log_term: Term,
    entries: Seq<Entry>,
    leader_commit: u64,
)
    requires
        h.ok(m),
        h.node_ok(m, n, s),
        term < s.hard.current_term || !s.holds_anchor(prev, prev_log_term),
    ensures
        moves(
            h,
            h,
            m,
            n,
            s.on_append_entries(term, leader_id, prev, prev_log_term, entries, leader_commit).0,
            s.on_append_entries(term, leader_id, prev, prev_log_term, entries, leader_commit).1,
        ),
{
    let (s2, effects) = s.on_append_entries(
        term,
        leader_id,
        prev,
        prev_log_term,
        entries,
        leader_commit,
    );
    lemma_grows_not(h, n, s.hard.current_term);
    assert(h.memory_ok(n, s2));
    assert(h.node_ok(m, n, s2));
    assert forall|x: EffectView| #[trigger] effects.contains(x) implies !(x is Apply) && (x is Send
        ==> x == effects.last()) by {
        let i = choose|i: int| 0 <= i < effects.len() && effects[i] == x;
    }
}

/// A node takes in an AppendEntries of its current term.
proof fn lemma_append(
    h: History,
    m: Set<NodeId>,
    n: NodeId,
    s: NodeView,
    from: NodeId,
    term: Term,
    leader_id: NodeId,
    prev: u64,
    prev_log_term: Term,
    entries: Seq<Entry>,
    leader_commit: u64,
) -> (g: History)
    requires
        h.ok(m),
        h.node_ok(m, n, s),
        m.contains(n),
        term <= s.hard.current_term,
        h.packet_ok(
            m,
            Packet {
                from,
                to: n,
                msg: MessageView::AppendEntries {
                    term,
                    leader_id,
                    prev_log_index: prev,
                    prev_log_term,
                    entries,
                    leader_commit,
                },
            },
        ),
    ensures
        moves(
            h,
            g,
            m,
            n,
            s.on_append_entries(term, leader_id, prev, prev_log_term, entries, leader_commit).0,
            s.on_append_entries(term, leader_id, prev, prev_log_term, entries, leader_commit).1,
        ),
{
    let (s2, effects) = s.on_append_entries(
        term,
        leader_id,
        prev,
        prev_log_term,
        entries,
        leader_commit,
    );
    if term < s.hard.current_term || !s.holds_anchor(prev, prev_log_term) {
        lemma_refused_append(
            h,
            m,
            n,
            s,
            term,
            leader_id,
            prev,
            prev_log_term,
            entries,
            leader_commit,
        );
        h
    } else {
        lemma_log_fits_machine(h, m, term);
        lemma_takes_in(s, term, leader_id, prev, prev_log_term, entries, leader_commit);
        lemma_anchor(h, m, n, s, term, prev);
        lemma_taken_in(h, m, n, s, prev, entries, leader_commit, s2, effects)
    }
}

/// A leader's log is no longer than its last index says.
proof fn lemma_log_fits_machine(h: History, m: Set<NodeId>, t: Term)
    requires
        h.ok(m),
        h.reigns.contains_key(t),
    ensures
        h.log(t).len() <= u64::MAX,
{
    assert(h.reign_ok(m, t));
    assert(h.log(t).last().index == h.log(t).len());
}

/// A node that takes in a payload of its term's leader moves safely.
#[verifier::spinoff_prover]
proof fn lemma_taken_in(
    h: History,
    m: Set<NodeId>,
    n: NodeId,
    s: NodeView,
    prev: u64,
    entries: Seq<Entry>,
    leader_commit: u64,
    s2: NodeView,
    effects: Seq<EffectView>,
) -> (g: History)
    requires
        h.ok(m),
        h.node_ok(m, n, s),
        slice_of(h, s.hard.current_term, prev, entries),
        agree(s.log, h.log(s.hard.current_term), prev as int),
        leader_commit <= h.log(s.hard.current_term).len(),
        h.committed(
            m,
            h.log(s.hard.current_term),
            leader_commit as int,
            s.hard.current_term,
        ),
        takes_in(s, prev, entries, told_commit(leader_commit, prev, entries), s2, effects),
        prev + entries.len() <= u64::MAX,
    ensures
        moves(h, g, m, n, s2, effects),
{
    let t = s.hard.current_term;
    let log = s2.log;
    let covered = (prev + entries.len()) as nat;
    let k = replication::held(s.log, prev, entries, 0);
    replication::lemma_held(s.log, prev, entries, 0);
    assert(entries.skip(k) =~= entries.subrange(k, entries.len() as int));
    lemma_merge(h, m, n, s, prev, entries, entries.len() as int, log);
    let g = lemma_acked(h, m, n, s, log, covered);
    let commit = told_commit(leader_commit, prev, entries);
    if commit > s.commit_index {
        lemma_committed_grows(h, g, m, n, t, h.log(t), leader_commit as int, t, t);
        assert(g.log(t) == h.log(t));
        let (u, j) = choose|u: Term, j: int|
            u <= t && leader_commit <= j && #[trigger] g.certified(m, u, j) && agree(
                h.log(t),
                g.log(u),
                leader_commit as int,
            );
        assert(agree(log, g.log(u), commit as int));
        assert(g.committed(m, log, commit as int, t));
    }
    lemma_follower_memory(h, g, n, s, s2);
    assert(g.node_ok(m, n, s2));
    assert forall|e: Entry| #[trigger] effects.contains(EffectView::Apply(e)) implies g.chosen(
        m,
        e,
    ) by {
        let i = choose|i: int| 0 <= i < s2.commit_index && e == #[trigger] s2.log[i];
        lemma_chosen(g, m, log, s2.commit_index as int, t, i);
    }
    g
}

/// The history in which a node has acknowledged the first `covered` entries of
/// its leader's log.
proof fn lemma_acked(
    h: History,
    m: Set<NodeId>,
    n: NodeId,
    s: NodeView,
    log: Seq<Entry>,
    covered: nat,
) -> (g: History)
    requires
        h.ok(m),
        h.node_ok(m, n, s),
        h.reigns.contains_key(s.hard.current_term),
        covered <= h.log(s.hard.current_term).len(),
        agree(log, h.log(s.hard.current_term), covered as int),
        h.fits(log),
        forall|u: Term, k: int|
            0 <= k && #[trigger] h.holds(n, u, k) ==> h.kept(
                log,
                u,
                k,
                s.hard.current_term as int,
            ),
        h.committed(m, log, s.commit_index as int, s.hard.current_term),
    ensures
        g.ok(m),
        grows(h, g, n, s.hard.current_term),
        g.reigns == h.reigns,
        g.votes == h.votes,
        g.holds(n, s.hard.current_term, covered as int),
        g.fits(log),
        forall|u: Term| #[trigger] g.acked.contains_key((n, u)) ==> u <= s.hard.current_term,
        forall|u: Term, k: int|
            0 <= k && #[trigger] g.holds(n, u, k) ==> g.kept(
                log,
                u,
                k,
                s.hard.current_term as int,
            ),
        g.committed(m, log, s.commit_index as int, s.hard.current_term),
{
    let t = s.hard.current_term;
    let level = if h.holds(n, t, covered as int) {
        h.acked[(n, t)]
    } else {
        covered
    };
    let g = History { acked: h.acked.insert((n, t), level), ..h };
    if h.acked.contains_key((n, t)) {
        assert(h.ack_ok(n, t));
    }
    assert(grows(h, g, n, t));
    assert(g.ack_ok(n, t));
    lemma_history_grows(h, g, m, n, t);
    lemma_fits_grows(h, g, n, t, log);
    assert forall|u: Term, j: int| 0 <= j && #[trigger] g.holds(n, u, j) implies g.kept(
        log,
        u,
        j,
        t as int,
    ) by {
        if h.holds(n, u, j) {
            assert(h.ack_ok(n, u));
            lemma_kept_grows(h, g, n, t, log, u, j, t as int, t as int);
        } else {
            assert(u == t);
            assert(agree(log, g.log(t), j));
        }
    }
    lemma_committed_grows(h, g, m, n, t, log, s.commit_index as int, t, t);
    g
}

/// A node that follows remembers what it did before.
proof fn lemma_follower_memory(h: History, g: History, n: NodeId, s: NodeView, s2: NodeView)
    requires
        h.memory_ok(n, s),
        s2.hard == s.hard,
        s2.role is Follower,
        g.votes == h.votes,
        g.reigns == h.reigns,
        forall|u: Term| #[trigger] g.acked.contains_key((n, u)) ==> u <= s.hard.current_term,
        forall|u: Term, k: int|
            0 <= k && #[trigger] g.holds(n, u, k) ==> g.kept(
                s2.log,
                u,
                k,
                s.hard.current_term as int,
            ),
    ensures
        g.memory_ok(n, s2),
{
}

/// An entry of a committed prefix is chosen.
proof fn lemma_chosen(h: History, m: Set<NodeId>, log: Seq<Entry>, c: int, bound: Term, i: int)
    requires
        types::contiguous(log),
        0 <= i < c <= log.len(),
        h.committed(m, log, c, bound),
    ensures
        h.chosen(m, log[i]),
{
    let (u, j) = choose|u: Term, j: int|
        u <= bound && c <= j && #[trigger] h.certified(m, u, j) && agree(log, h.log(u), c);
    let e = log[i];
    assert(h.log(u)[e.index - 1] == e);
}

/// What is applied on a commit is committed.
proof fn lemma_applied(
    h: History,
    m: Set<NodeId>,
    log: Seq<Entry>,
    s: NodeView,
    commit: u64,
    bound: Term,
)
    requires
        s.log == log,
        types::contiguous(log),
        s.last_applied <= s.commit_index,
        commit > s.commit_index ==> commit <= log.len() && h.committed(
            m,
            log,
            commit as int,
            bound,
        ),
    ensures
        forall|e: Entry| #[trigger]
            s.commit_to(commit).1.contains(EffectView::Apply(e)) ==> h.chosen(m, e),
        forall|x: EffectView| #[trigger] s.commit_to(commit).1.contains(x) ==> x is Apply,
{
    let out = s.commit_to(commit).1;
    assert forall|x: EffectView| #[trigger] out.contains(x) implies x is Apply by {
        let i = choose|i: int| 0 <= i < out.len() && out[i] == x;
    }
    assert forall|e: Entry| #[trigger] out.contains(EffectView::Apply(e)) implies h.chosen(
        m,
        e,
    ) by {
        let i = choose|i: int| 0 <= i < out.len() && out[i] == EffectView::Apply(e);
        let at = s.last_applied + i;
        assert(e == log[at]);
        let (u, j) = choose|u: Term, j: int|
            u <= bound && commit <= j && #[trigger] h.certified(m, u, j) && agree(
                log,
                h.log(u),
                commit as int,
            );
        assert(h.log(u)[e.index - 1] == e);
    }
}

/// A leader takes the answer to an AppendEntries.
#[verifier::spinoff_prover]
#[verifier::rlimit(50)]
proof fn lemma_answer(
    h: History,
    m: Set<NodeId>,
    n: NodeId,
    s: NodeView,
    from: NodeId,
    term: Term,
    success: bool,
    hint: u64,
)
    requires
        h.ok(m),
        h.node_ok(m, n, s),
        m.contains(n),
        h.packet_ok(
            m,
            Packet {
                from,
                to: n,
                msg: MessageView::AppendEntriesReply { term, success, match_index: hint },
            },
        ),
    ensures
        moves(
            h,
            h,
            m,
            n,
            s.on_append_entries_reply(from, term, success, hint).0,
            s.on_append_entries_reply(from, term, success, hint).1,
        ),
{
    let (s2, effects) = s.on_append_entries_reply(from, term, success, hint);
    let t = s.hard.current_term;
    lemma_grows_not(h, n, t);
    match s.role {
        RoleView::Leader { next_index, match_index } if term == t && next_index.contains_key(from)
            && match_index.contains_key(from) => {
            if success {
                let mark = if match_index[from] > hint {
                    match_index[from]
                } else {
                    hint
                };
                let marks = match_index.insert(from, mark);
                let next = next_index.insert(from, mark.saturating_add(1));
                let s1 = NodeView {
                    role: RoleView::Leader { next_index: next, match_index: marks },
                    ..s
                };
                assert(h.ack_ok(from, t));
                assert(mark <= s.log.len());
                assert(next.dom() =~= m.remove(n));
                assert(marks.dom() =~= m.remove(n));
                assert(h.role_ok(m, n, s1));
                assert(h.memory_ok(n, s1));
                assert(s1.wf());
                assert(h.node_ok(m, n, s1));
                let target = replication::commit_target(
                    types::last_index(s.log),
                    s.commit_index,
                    t,
                    s.log,
                    marks,
                );
                replication::lemma_commit_target(
                    types::last_index(s.log),
                    s.commit_index,
                    t,
                    s.log,
                    marks,
                );
                match target {
                    Some(c) => {
                        lemma_certificate(h, m, n, s1, marks, c);
                        assert(h.committed(m, s.log, c as int, t)) by {
                            assert(h.certified(m, t, c as int));
                            assert(agree(s.log, h.log(t), c as int));
                        }
                        lemma_applied(h, m, s.log, s1, c, t);
                        assert(h.memory_ok(n, s2));
                        assert(h.role_ok(m, n, s2));
                        assert(h.node_ok(m, n, s2));
                    },
                    None => {},
                }
            } else {
                let next = s2.role->next_index;
                assert(next.dom() =~= m.remove(n));
                assert(h.role_ok(m, n, s2));
                assert(h.memory_ok(n, s2));
                assert(s2.wf());
                assert(h.node_ok(m, n, s2));
            }
        },
        _ => {},
    }
}

/// What a leader may commit is acknowledged by a quorum.
proof fn lemma_certificate(
    h: History,
    m: Set<NodeId>,
    n: NodeId,
    s: NodeView,
    marks: Map<NodeId, u64>,
    c: u64,
)
    requires
        h.ok(m),
        m.contains(n),
        h.node_ok(m, n, s),
        s.role matches RoleView::Leader { match_index, .. } && match_index == marks,
        0 < c <= s.log.len(),
        replication::may_commit(c, s.hard.current_term, s.log, marks),
    ensures
        h.certified(m, s.hard.current_term, c as int),
{
    let t = s.hard.current_term;
    let holders = replication::holders(marks, c);
    let q = holders.insert(n);
    assert(marks.dom().len() + 1 == m.len());
    assert(!holders.contains(n));
    assert(holders.subset_of(m));
    vstd::set_lib::lemma_len_subset(holders, m);
    assert(q.len() == holders.len() + 1);
    assert(quorum(q, m));
    assert forall|v: NodeId| #[trigger] q.contains(v) implies h.holds(v, t, c as int) by {
        if v != n {
            assert(marks.contains_key(v));
            assert(h.holds(v, t, marks[v] as int));
        }
    }
}

/// A node interprets a message of a term that it has adopted.
pub proof fn lemma_dispatch(
    h: History,
    m: Set<NodeId>,
    n: NodeId,
    s: NodeView,
    from: NodeId,
    msg: MessageView,
) -> (g: History)
    requires
        h.ok(m),
        h.node_ok(m, n, s),
        m.contains(n),
        h.packet_ok(m, Packet { from, to: n, msg }),
        msg.term() <= s.hard.current_term,
        s.dispatch(from, msg).0.log.len() <= u64::MAX,
    ensures
        moves(h, g, m, n, s.dispatch(from, msg).0, s.dispatch(from, msg).1),
{
    match msg {
        MessageView::RequestVote { term, candidate_id, last_log_index, last_log_term } =>
            lemma_vote(h, m, n, s, term, candidate_id, last_log_index, last_log_term),
        MessageView::RequestVoteReply { term, vote_granted } => lemma_count(
            h,
            m,
            n,
            s,
            from,
            term,
            vote_granted,
        ),
        MessageView::AppendEntries {
            term,
            leader_id,
            prev_log_index,
            prev_log_term,
            entries,
            leader_commit,
        } => lemma_append(
            h,
            m,
            n,
            s,
            from,
            term,
            leader_id,
            prev_log_index,
            prev_log_term,
            entries,
            leader_commit,
        ),
        MessageView::AppendEntriesReply { term, success, match_index } => {
            lemma_answer(h, m, n, s, from, term, success, match_index);
            h
        },
    }
}

/// A node takes a tick.
pub proof fn lemma_tick(h: History, m: Set<NodeId>, n: NodeId, s: NodeView, now_ms: u64) -> (g: History)
    requires
        h.ok(m),
        h.node_ok(m, n, s),
        m.contains(n),
        s.accepts((InputView::Tick { now_ms })),
    ensures
        moves(h, g, m, n, s.on_tick(now_ms).0, s.on_tick(now_ms).1),
{
    let t = s.hard.current_term;
    let (s2, effects) = s.on_tick(now_ms);
    let clocked = NodeView { now_ms, ..s };
    let timed = if s.election_deadline_ms == 0 {
        clocked.reset_election_deadline()
    } else {
        clocked
    };
    assert(h.memory_ok(n, timed));
    assert(h.role_ok(m, n, timed));
    assert(h.node_ok(m, n, timed));
    lemma_grows_not(h, n, t);
    if !timed.is_leader() && now_ms >= timed.election_deadline_ms {
        lemma_campaign(h, m, n, timed)
    } else {
        assert(h.memory_ok(n, s2));
        assert(h.role_ok(m, n, s2));
        assert(h.node_ok(m, n, s2));
        lemma_leader_sends(h, m, n, timed);
        h
    }
}

/// A node refuses a malformed message.
pub proof fn lemma_refuse(h: History, m: Set<NodeId>, n: NodeId, s: NodeView, to: NodeId)
    requires
        h.ok(m),
        h.node_ok(m, n, s),
    ensures
        moves(h, h, m, n, s, seq![s.append_refused(to)]),
{
    lemma_grows_not(h, n, s.hard.current_term);
    let effects = seq![s.append_refused(to)];
    assert forall|x: EffectView| #[trigger] effects.contains(x) implies x == s.append_refused(
        to,
    ) by {}
}

/// A follower that has written only the first of the entries that it lacks.
#[verifier::spinoff_prover]
pub proof fn lemma_part(
    h: History,
    m: Set<NodeId>,
    n: NodeId,
    s: NodeView,
    from: NodeId,
    msg: MessageView,
    written: nat,
) -> (part: NodeView)
    requires
        h.ok(m),
        h.node_ok(m, n, s),
        h.packet_ok(m, Packet { from, to: n, msg }),
        msg is AppendEntries,
        partly_written(s, msg, written) is Some,
    ensures
        part.id == n,
        part.peers == s.peers,
        h.node_ok(m, n, part),
        part.hard == s.hard,
        partly_written(s, msg, written) == Some(part.log),
{
    let prev = msg->prev_log_index;
    let entries = msg->AppendEntries_entries;
    let s1 = NodeView { role: RoleView::Follower, ..s };
    assert(h.memory_ok(n, s1));
    assert(h.node_ok(m, n, s1));
    lemma_anchor(h, m, n, s1, s.hard.current_term, prev);
    let k = replication::held(s.log, prev, entries, 0);
    let log = partly_written(s, msg, written)->0;
    lemma_merge(h, m, n, s1, prev, entries, k + written, log);
    let part = NodeView { log, ..s1 };
    assert(h.memory_ok(n, part));
    assert(h.node_ok(m, n, part));
    part
}

/// The log of a follower that has written the first `written` of the entries of
/// an AppendEntries that it lacks; none where it writes nothing or fewer.
pub open spec fn partly_written(s: NodeView, msg: MessageView, written: nat) -> Option<Seq<Entry>> {
    let prev = msg->prev_log_index;
    let entries = msg->AppendEntries_entries;
    let k = replication::held(s.log, prev, entries, 0);
    if msg.term() == s.hard.current_term && s.holds_anchor(prev, msg->prev_log_term) && k
        < entries.len() && k + written <= entries.len() {
        Some(s.log.take(prev + k) + entries.subrange(k, k + written))
    } else {
        None
    }
}

/// A cluster that starts is safe.
pub proof fn lemma_start_safe(c: Cluster) -> (h: History)
    requires
        c.starts(),
    ensures
        safe(c, h),
{
    let h = History { reigns: Map::empty(), votes: Map::empty(), acked: Map::empty() };
    let m = c.nodes.dom();
    assert forall|n: NodeId| #[trigger] c.nodes.contains_key(n) implies h.node_ok(
        m,
        n,
        c.nodes[n],
    ) by {}
    h
}

/// What a move gives of the node that moved.
pub proof fn lemma_moves_parts(
    h: History,
    g: History,
    m: Set<NodeId>,
    n: NodeId,
    s: NodeView,
    effects: Seq<EffectView>,
)
    requires
        moves(h, g, m, n, s, effects),
    ensures
        g.ok(m),
        g.node_ok(m, n, s),
        s.id == n,
        s.wf(),
        continues(h, g),
{
}

/// What a safe cluster gives of its parts.
pub proof fn lemma_safe_parts(c: Cluster, h: History, n: NodeId)
    requires
        safe(c, h),
        c.nodes.contains_key(n),
    ensures
        h.ok(c.nodes.dom()),
        h.node_ok(c.nodes.dom(), n, c.nodes[n]),
        c.nodes[n].id == n,
        c.nodes[n].wf(),
        forall|p: Packet| #[trigger] c.sent.contains(p) ==> h.packet_ok(c.nodes.dom(), p),
{
}

/// Nothing in the history is forgotten.
pub closed spec fn continues(h: History, g: History) -> bool {
    &&& forall|t: Term| #[trigger]
        h.reigns.contains_key(t) ==> {
            &&& g.reigns.contains_key(t)
            &&& g.reigns[t].leader == h.reigns[t].leader
            &&& agree(g.log(t), h.log(t), h.log(t).len() as int)
        }
    &&& forall|k: (NodeId, Term)| #[trigger]
        h.votes.contains_key(k) ==> g.votes.contains_key(k) && g.votes[k] == h.votes[k]
    &&& forall|k: (NodeId, Term)| #[trigger]
        h.acked.contains_key(k) ==> g.acked.contains_key(k) && h.acked[k] <= g.acked[k]
}

pub proof fn lemma_continues_not(h: History)
    ensures
        continues(h, h),
{
}

pub proof fn lemma_continues_on(a: History, b: History, c: History)
    requires
        continues(a, b),
        continues(b, c),
    ensures
        continues(a, c),
{
    assert forall|t: Term| #[trigger] a.reigns.contains_key(t) implies {
        &&& c.reigns.contains_key(t)
        &&& c.reigns[t].leader == a.reigns[t].leader
        &&& agree(c.log(t), a.log(t), a.log(t).len() as int)
    } by {
        assert(b.reigns.contains_key(t));
    }
    assert forall|k: (NodeId, Term)| #[trigger] a.votes.contains_key(k) implies c.votes.contains_key(
        k,
    ) && c.votes[k] == a.votes[k] by {
        assert(b.votes.contains_key(k));
    }
    assert forall|k: (NodeId, Term)| #[trigger] a.acked.contains_key(k) implies c.acked.contains_key(
        k,
    ) && a.acked[k] <= c.acked[k] by {
        assert(b.acked.contains_key(k));
    }
}

/// What a node stood for at one time still stands later on.
proof fn lemma_later(c: Cluster, h: History, g: History, n: NodeId)
    requires
        safe(c, h),
        continues(h, g),
        c.nodes.contains_key(n),
    ensures
        g.fits(c.nodes[n].log),
        g.committed(
            c.nodes.dom(),
            c.nodes[n].log,
            c.nodes[n].commit_index as int,
            c.nodes[n].hard.current_term,
        ),
        c.nodes[n].role is Leader ==> {
            &&& g.reigns.contains_key(c.nodes[n].hard.current_term)
            &&& g.reigns[c.nodes[n].hard.current_term].leader == n
        },
{
    let s = c.nodes[n];
    let m = c.nodes.dom();
    let log = s.log;
    assert(h.node_ok(m, n, s));
    assert forall|i: int| 0 <= i < log.len() implies g.reigns.contains_key(
        (#[trigger] log[i]).term,
    ) && agree(log, g.log(log[i].term), i + 1) by {
        assert(h.reigns.contains_key(log[i].term));
    }
    let done = s.commit_index as int;
    if done > 0 {
        let (t, k) = choose|t: Term, k: int|
            t <= s.hard.current_term && done <= k && #[trigger] h.certified(m, t, k) && agree(
                log,
                h.log(t),
                done,
            );
        assert(g.reigns.contains_key(t));
        let q = choose|q: Set<NodeId>| #[trigger]
            quorum(q, m) && forall|v: NodeId| #[trigger] q.contains(v) ==> h.holds(v, t, k);
        assert forall|v: NodeId| #[trigger] q.contains(v) implies g.holds(v, t, k) by {
            assert(h.holds(v, t, k));
        }
        assert(g.certified(m, t, k));
        assert(agree(log, g.log(t), done));
    }
}

/// Leaders of one term are one node, at whatever times they lead.
pub proof fn lemma_one_leader(c: Cluster, d: Cluster, h: History, g: History, n: NodeId, o: NodeId)
    requires
        safe(c, h),
        safe(d, g),
        continues(h, g),
        c.nodes.contains_key(n),
        d.nodes.contains_key(o),
        c.nodes[n].role is Leader,
        d.nodes[o].role is Leader,
        c.nodes[n].hard.current_term == d.nodes[o].hard.current_term,
    ensures
        n == o,
{
    lemma_later(c, h, g, n);
    assert(g.node_ok(d.nodes.dom(), o, d.nodes[o]));
}

/// Logs with the same term at the same index agree up to there.
pub proof fn lemma_logs_match(
    c: Cluster,
    d: Cluster,
    h: History,
    g: History,
    n: NodeId,
    o: NodeId,
    i: int,
)
    requires
        safe(c, h),
        safe(d, g),
        continues(h, g),
        c.nodes.contains_key(n),
        d.nodes.contains_key(o),
        0 <= i < c.nodes[n].log.len(),
        i < d.nodes[o].log.len(),
        c.nodes[n].log[i].term == d.nodes[o].log[i].term,
    ensures
        agree(c.nodes[n].log, d.nodes[o].log, i + 1),
{
    lemma_later(c, h, g, n);
    assert(g.node_ok(d.nodes.dom(), o, d.nodes[o]));
    lemma_matching(g, c.nodes[n].log, d.nodes[o].log, i);
}

/// Of two committed prefixes, each agrees with the other as far as both go.
proof fn lemma_commits_agree(
    h: History,
    m: Set<NodeId>,
    a: Seq<Entry>,
    ca: int,
    ta: Term,
    b: Seq<Entry>,
    cb: int,
    tb: Term,
)
    requires
        h.ok(m),
        0 <= ca <= a.len(),
        0 <= cb <= b.len(),
        h.committed(m, a, ca, ta),
        h.committed(m, b, cb, tb),
    ensures
        agree(
            a,
            b,
            if ca < cb {
                ca
            } else {
                cb
            },
        ),
{
    if ca > 0 && cb > 0 {
        let (t, k) = choose|t: Term, k: int|
            t <= ta && ca <= k && #[trigger] h.certified(m, t, k) && agree(a, h.log(t), ca);
        let (u, j) = choose|u: Term, j: int|
            u <= tb && cb <= j && #[trigger] h.certified(m, u, j) && agree(b, h.log(u), cb);
        if t < u {
            lemma_completeness(h, m, t, k, u);
        } else if u < t {
            lemma_completeness(h, m, u, j, t);
        }
    }
}

/// What two nodes have committed agrees as far as both go.
pub proof fn lemma_committed_logs_agree(
    c: Cluster,
    d: Cluster,
    h: History,
    g: History,
    n: NodeId,
    o: NodeId,
)
    requires
        safe(c, h),
        safe(d, g),
        continues(h, g),
        c.nodes.dom() == d.nodes.dom(),
        c.nodes.contains_key(n),
        d.nodes.contains_key(o),
    ensures
        c.nodes[n].commit_index <= c.nodes[n].log.len(),
        d.nodes[o].commit_index <= d.nodes[o].log.len(),
        agree(
            c.nodes[n].log,
            d.nodes[o].log,
            if c.nodes[n].commit_index < d.nodes[o].commit_index {
                c.nodes[n].commit_index as int
            } else {
                d.nodes[o].commit_index as int
            },
        ),
{
    let m = d.nodes.dom();
    let a = c.nodes[n];
    let b = d.nodes[o];
    lemma_later(c, h, g, n);
    assert(h.node_ok(m, n, a));
    assert(g.node_ok(m, o, b));
    lemma_commits_agree(
        g,
        m,
        a.log,
        a.commit_index as int,
        a.hard.current_term,
        b.log,
        b.commit_index as int,
        b.hard.current_term,
    );
}

/// What a node has committed is in the log of every leader from then on whose
/// term is at least as new.
pub proof fn lemma_leader_has_committed(
    c: Cluster,
    d: Cluster,
    h: History,
    g: History,
    n: NodeId,
    o: NodeId,
)
    requires
        safe(c, h),
        safe(d, g),
        continues(h, g),
        c.nodes.dom() == d.nodes.dom(),
        c.nodes.contains_key(n),
        d.nodes.contains_key(o),
        d.nodes[o].role is Leader,
        c.nodes[n].hard.current_term <= d.nodes[o].hard.current_term,
    ensures
        c.nodes[n].commit_index <= c.nodes[n].log.len(),
        agree(c.nodes[n].log, d.nodes[o].log, c.nodes[n].commit_index as int),
{
    let m = d.nodes.dom();
    let a = c.nodes[n];
    let b = d.nodes[o];
    let done = a.commit_index as int;
    lemma_later(c, h, g, n);
    assert(h.node_ok(m, n, a));
    assert(g.node_ok(m, o, b));
    if done > 0 {
        let (t, k) = choose|t: Term, k: int|
            t <= a.hard.current_term && done <= k && #[trigger] g.certified(m, t, k) && agree(
                a.log,
                g.log(t),
                done,
            );
        if t < b.hard.current_term {
            lemma_completeness(g, m, t, k, b.hard.current_term);
        }
    }
}

/// Entries applied at the same index are the same.
pub proof fn lemma_applied_agree(c: Cluster, h: History, a: Entry, b: Entry)
    requires
        safe(c, h),
        c.applied.contains(a),
        c.applied.contains(b),
        a.index == b.index,
    ensures
        a == b,
{
    let m = c.nodes.dom();
    let i = a.index - 1;
    assert(h.chosen(m, a));
    assert(h.chosen(m, b));
    let (t, k) = choose|t: Term, k: int|
        1 <= a.index <= k && #[trigger] h.certified(m, t, k) && h.log(t)[a.index - 1] == a;
    let (u, j) = choose|u: Term, j: int|
        1 <= b.index <= j && #[trigger] h.certified(m, u, j) && h.log(u)[b.index - 1] == b;
    if t < u {
        lemma_completeness(h, m, t, k, u);
    } else if u < t {
        lemma_completeness(h, m, u, j, t);
    }
    assert(h.log(t)[i] == h.log(u)[i]);
}

/// A node votes for one candidate in a term.
pub proof fn lemma_one_vote(c: Cluster, h: History, a: Packet, b: Packet)
    requires
        safe(c, h),
        c.sent.contains(a),
        c.sent.contains(b),
        a.from == b.from,
        a.msg matches MessageView::RequestVoteReply { term, vote_granted } && vote_granted && b.msg
            == (MessageView::RequestVoteReply { term, vote_granted }),
    ensures
        a.to == b.to,
{
    assert(h.packet_ok(c.nodes.dom(), a));
    assert(h.packet_ok(c.nodes.dom(), b));
}

/// What a node has on disk can be booted from.
pub proof fn lemma_bootable(c: Cluster, h: History, n: NodeId)
    requires
        safe(c, h),
        c.nodes.contains_key(n),
    ensures
        types::contiguous(c.nodes[n].log),
        types::nondecreasing_terms(c.nodes[n].log),
        types::last_term(c.nodes[n].log) <= c.nodes[n].hard.current_term,
{
    let m = c.nodes.dom();
    let log = c.nodes[n].log;
    assert(h.node_ok(m, n, c.nodes[n]));
    assert forall|i: int, j: int| 0 <= i <= j < log.len() implies log[i].term <= log[j].term by {
        lemma_terms_rise(h, m, log, i, j);
    }
}

/// A node has applied no more than it has committed, and committed no more than
/// it holds.
pub proof fn lemma_indices(c: Cluster, h: History, n: NodeId)
    requires
        safe(c, h),
        c.nodes.contains_key(n),
    ensures
        c.nodes[n].last_applied <= c.nodes[n].commit_index <= c.nodes[n].log.len(),
{
    assert(h.node_ok(c.nodes.dom(), n, c.nodes[n]));
}

/// Entries committed at the same index are the same.
pub proof fn lemma_chosen_agree(c: Cluster, h: History, a: Entry, b: Entry)
    requires
        safe(c, h),
        h.chosen(c.nodes.dom(), a),
        h.chosen(c.nodes.dom(), b),
        a.index == b.index,
    ensures
        a == b,
{
    let m = c.nodes.dom();
    let i = a.index - 1;
    let (t, k) = choose|t: Term, k: int|
        1 <= a.index <= k && #[trigger] h.certified(m, t, k) && h.log(t)[a.index - 1] == a;
    let (u, j) = choose|u: Term, j: int|
        1 <= b.index <= j && #[trigger] h.certified(m, u, j) && h.log(u)[b.index - 1] == b;
    if t < u {
        lemma_completeness(h, m, t, k, u);
    } else if u < t {
        lemma_completeness(h, m, u, j, t);
    }
    assert(h.log(t)[i] == h.log(u)[i]);
}

/// What a node has committed is committed.
pub proof fn lemma_prefix_chosen(c: Cluster, h: History, n: NodeId, i: int)
    requires
        safe(c, h),
        c.nodes.contains_key(n),
        0 <= i < c.nodes[n].commit_index,
    ensures
        h.chosen(c.nodes.dom(), c.nodes[n].log[i]),
{
    let s = c.nodes[n];
    assert(h.node_ok(c.nodes.dom(), n, s));
    lemma_chosen(h, c.nodes.dom(), s.log, s.commit_index as int, s.hard.current_term, i);
}

/// What is committed stays committed.
pub proof fn lemma_chosen_continues(h: History, g: History, m: Set<NodeId>, e: Entry)
    requires
        continues(h, g),
        h.chosen(m, e),
    ensures
        g.chosen(m, e),
{
    let (t, k) = choose|t: Term, k: int|
        1 <= e.index <= k && #[trigger] h.certified(m, t, k) && h.log(t)[e.index - 1] == e;
    assert(g.reigns.contains_key(t));
    let q = choose|q: Set<NodeId>| #[trigger]
        quorum(q, m) && forall|v: NodeId| #[trigger] q.contains(v) ==> h.holds(v, t, k);
    assert forall|v: NodeId| #[trigger] q.contains(v) implies g.holds(v, t, k) by {
        assert(h.holds(v, t, k));
    }
    assert(g.certified(m, t, k));
    assert(g.log(t)[e.index - 1] == e);
}

/// Who led a term led it.
pub proof fn lemma_reign_continues(h: History, g: History, t: Term)
    requires
        continues(h, g),
        h.reigns.contains_key(t),
    ensures
        g.reigns.contains_key(t),
        g.reigns[t].leader == h.reigns[t].leader,
{
}

/// A leader leads its term.
pub proof fn lemma_leader_reigns(c: Cluster, h: History, n: NodeId)
    requires
        safe(c, h),
        c.nodes.contains_key(n),
        c.nodes[n].role is Leader,
    ensures
        h.reigns.contains_key(c.nodes[n].hard.current_term),
        h.reigns[c.nodes[n].hard.current_term].leader == n,
{
    assert(h.node_ok(c.nodes.dom(), n, c.nodes[n]));
}

/// What is committed is in the logs of a majority.
pub proof fn lemma_chosen_held(c: Cluster, h: History, e: Entry) -> (q: Set<NodeId>)
    requires
        safe(c, h),
        h.chosen(c.nodes.dom(), e),
    ensures
        quorum(q, c.nodes.dom()),
        c.nodes.dom().finite(),
        forall|v: NodeId| #[trigger]
            q.contains(v) ==> 1 <= e.index <= c.nodes[v].log.len() && c.nodes[v].log[e.index - 1]
                == e,
{
    let m = c.nodes.dom();
    let (t, k) = choose|t: Term, k: int|
        1 <= e.index <= k && #[trigger] h.certified(m, t, k) && h.log(t)[e.index - 1] == e;
    let q = choose|q: Set<NodeId>| #[trigger]
        quorum(q, m) && forall|v: NodeId| #[trigger] q.contains(v) ==> h.holds(v, t, k);
    assert forall|v: NodeId| #[trigger] q.contains(v) implies 1 <= e.index
        <= c.nodes[v].log.len() && c.nodes[v].log[e.index - 1] == e by {
        assert(m.contains(v));
        assert(c.nodes.contains_key(v));
        let s = c.nodes[v];
        assert(h.node_ok(m, v, s));
        assert(h.holds(v, t, k));
        assert(h.kept(s.log, t, k, s.hard.current_term as int));
        if !agree(s.log, h.log(t), k) {
            let w = choose|w: Term|
                t < w <= s.hard.current_term && #[trigger] h.reigns.contains_key(w) && differ(
                    h.log(w),
                    h.log(t),
                    k,
                );
            lemma_completeness(h, m, t, k, w);
            assert(false);
        }
    }
    q
}

/// A leader that lacks a committed entry has been overtaken: some node is in a
/// newer term.
pub proof fn lemma_lacking_leader(c: Cluster, h: History, n: NodeId, e: Entry) -> (v: NodeId)
    requires
        safe(c, h),
        c.nodes.contains_key(n),
        c.nodes[n].role is Leader,
        h.chosen(c.nodes.dom(), e),
        !(1 <= e.index <= c.nodes[n].log.len() && c.nodes[n].log[e.index - 1] == e),
    ensures
        c.nodes.contains_key(v),
        c.nodes[v].hard.current_term > c.nodes[n].hard.current_term,
{
    let m = c.nodes.dom();
    let s = c.nodes[n];
    let own = s.hard.current_term;
    assert(h.node_ok(m, n, s));
    let (t, k) = choose|t: Term, k: int|
        1 <= e.index <= k && #[trigger] h.certified(m, t, k) && h.log(t)[e.index - 1] == e;
    if t < own {
        lemma_completeness(h, m, t, k, own);
        assert(false);
    }
    assert(t > own);
    let q = choose|q: Set<NodeId>| #[trigger]
        quorum(q, m) && forall|v: NodeId| #[trigger] q.contains(v) ==> h.holds(v, t, k);
    let v = q.choose();
    assert(q.len() > 0);
    assert(q.contains(v));
    assert(m.contains(v));
    assert(c.nodes.contains_key(v));
    assert(h.node_ok(m, v, c.nodes[v]));
    assert(h.holds(v, t, k));
    v
}

/// What a leader has sent in its term lies within its log.
pub proof fn lemma_sent_span(c: Cluster, h: History, n: NodeId, p: Packet)
    requires
        safe(c, h),
        c.nodes.contains_key(n),
        c.nodes[n].role is Leader,
        c.sent.contains(p),
        p.msg matches MessageView::AppendEntries { term, .. } && term
            == c.nodes[n].hard.current_term,
    ensures
        p.msg->prev_log_index + p.msg->entries.len() <= c.nodes[n].log.len(),
{
    assert(h.node_ok(c.nodes.dom(), n, c.nodes[n]));
    assert(h.packet_ok(c.nodes.dom(), p));
}

} // verus!
