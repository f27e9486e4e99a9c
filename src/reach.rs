//! Reachability over an adjacency view: a graph on `0..adj.len()` where
//! `adj[u]` lists the out-neighbours of `u` (duplicates allowed).
use vstd::prelude::*;

verus! {

/// The adjacency view of adjacency lists.
pub open spec fn adj_view(lists: Seq<Vec<usize>>) -> Seq<Seq<usize>> {
    lists.map_values(|l: Vec<usize>| l@)
}

/// Every listed neighbour is a node of the graph.
pub open spec fn adj_wf(adj: Seq<Seq<usize>>) -> bool {
    forall|u: int, k: int|
        0 <= u < adj.len() && 0 <= k < adj[u].len() ==> (#[trigger] adj[u][k] as int) < adj.len()
}

/// There is an edge from `u` to `v`.
pub open spec fn edge(adj: Seq<Seq<usize>>, u: int, v: int) -> bool {
    0 <= u < adj.len() && 0 <= v < adj.len() && adj[u].contains(v as usize)
}

/// The nodes of `p` together with their out-neighbours.
pub open spec fn expand(adj: Seq<Seq<usize>>, p: Set<int>) -> Set<int> {
    p.union(Set::new(|v: int| exists|w: int| #[trigger] p.contains(w) && edge(adj, w, v)))
}

/// The nodes that can be reached from `s` along at most `k` edges.
pub open spec fn ball(adj: Seq<Seq<usize>>, s: int, k: nat) -> Set<int>
    decreases k,
{
    if k == 0 {
        set![s]
    } else {
        expand(adj, ball(adj, s, (k - 1) as nat))
    }
}

/// `v` can be reached from `s` along at most `k` edges.
pub open spec fn within(adj: Seq<Seq<usize>>, s: int, v: int, k: nat) -> bool {
    ball(adj, s, k).contains(v)
}

/// `v` can be reached from `s` along a directed path (possibly empty).
pub open spec fn reaches(adj: Seq<Seq<usize>>, s: int, v: int) -> bool {
    exists|k: nat| #[trigger] within(adj, s, v, k)
}

/// `u` and `v` reach each other.
pub open spec fn mutual(adj: Seq<Seq<usize>>, u: int, v: int) -> bool {
    reaches(adj, u, v) && reaches(adj, v, u)
}

/// `k` is the least number of edges on a path from `s` to `v`.
pub open spec fn is_dist(adj: Seq<Seq<usize>>, s: int, v: int, k: nat) -> bool {
    within(adj, s, v, k) && (k == 0 || !within(adj, s, v, (k - 1) as nat))
}

/// `rev` holds exactly the edges of `adj`, turned around.
pub open spec fn is_reverse(adj: Seq<Seq<usize>>, rev: Seq<Seq<usize>>) -> bool {
    adj.len() == rev.len() && forall|u: int, v: int| #[trigger]
        edge(adj, u, v) <==> #[trigger] edge(rev, v, u)
}

pub proof fn lemma_within_range(adj: Seq<Seq<usize>>, s: int, v: int, k: nat)
    requires
        0 <= s < adj.len(),
        within(adj, s, v, k),
    ensures
        0 <= v < adj.len(),
    decreases k,
{
    if k > 0 && !within(adj, s, v, (k - 1) as nat) {
    } else if k > 0 {
        lemma_within_range(adj, s, v, (k - 1) as nat);
    }
}

pub proof fn lemma_within_mono(adj: Seq<Seq<usize>>, s: int, v: int, j: nat, k: nat)
    requires
        j <= k,
        within(adj, s, v, j),
    ensures
        within(adj, s, v, k),
    decreases k - j,
{
    if j < k {
        lemma_within_mono(adj, s, v, j, (k - 1) as nat);
        assert(within(adj, s, v, k));
    }
}

/// One unfolding of `within`.
pub proof fn lemma_within_unfold(adj: Seq<Seq<usize>>, s: int, v: int, k: nat)
    ensures
        within(adj, s, v, k + 1) == (within(adj, s, v, k) || exists|w: int|
            #[trigger] within(adj, s, w, k) && edge(adj, w, v)),
{
    let p = ball(adj, s, k);
    assert(ball(adj, s, k + 1) == expand(adj, p));
    if exists|w: int| #[trigger] within(adj, s, w, k) && edge(adj, w, v) {
        let w = choose|w: int| #[trigger] within(adj, s, w, k) && edge(adj, w, v);
        assert(p.contains(w) && edge(adj, w, v));
        assert(expand(adj, p).contains(v));
    }
    if within(adj, s, v, k + 1) && !within(adj, s, v, k) {
        assert(exists|w: int| #[trigger] p.contains(w) && edge(adj, w, v));
        let w = choose|w: int| #[trigger] p.contains(w) && edge(adj, w, v);
        assert(within(adj, s, w, k));
    }
}

/// A path extended by one edge.
pub proof fn lemma_within_extend(adj: Seq<Seq<usize>>, s: int, w: int, v: int, k: nat)
    requires
        within(adj, s, w, k),
        edge(adj, w, v),
    ensures
        within(adj, s, v, k + 1),
{
    lemma_within_unfold(adj, s, v, k);
}

/// The last edge of a path that is longer than `k`.
pub proof fn lemma_within_last(adj: Seq<Seq<usize>>, s: int, v: int, k: nat) -> (w: int)
    requires
        within(adj, s, v, k + 1),
        !within(adj, s, v, k),
    ensures
        within(adj, s, w, k),
        edge(adj, w, v),
{
    lemma_within_unfold(adj, s, v, k);
    choose|w: int| #[trigger] within(adj, s, w, k) && edge(adj, w, v)
}

pub proof fn lemma_edge_within(adj: Seq<Seq<usize>>, u: int, v: int)
    requires
        edge(adj, u, v),
    ensures
        within(adj, u, v, 1),
{
    assert(within(adj, u, u, 0));
    lemma_within_extend(adj, u, u, v, 0);
}

/// Paths compose.
pub proof fn lemma_within_trans(adj: Seq<Seq<usize>>, s: int, m: int, v: int, a: nat, b: nat)
    requires
        within(adj, s, m, a),
        within(adj, m, v, b),
    ensures
        within(adj, s, v, a + b),
    decreases b,
{
    if b > 0 {
        let b1 = (b - 1) as nat;
        if within(adj, m, v, b1) {
            lemma_within_trans(adj, s, m, v, a, b1);
            lemma_within_mono(adj, s, v, a + b1, a + b);
        } else {
            let w = lemma_within_last(adj, m, v, b1);
            lemma_within_trans(adj, s, m, w, a, b1);
            lemma_within_extend(adj, s, w, v, a + b1);
        }
    }
}

pub proof fn lemma_reaches_trans(adj: Seq<Seq<usize>>, s: int, m: int, v: int)
    requires
        reaches(adj, s, m),
        reaches(adj, m, v),
    ensures
        reaches(adj, s, v),
{
    let a = choose|a: nat| within(adj, s, m, a);
    let b = choose|b: nat| within(adj, m, v, b);
    lemma_within_trans(adj, s, m, v, a, b);
}

pub proof fn lemma_reaches_self(adj: Seq<Seq<usize>>, s: int)
    ensures
        reaches(adj, s, s),
{
    assert(within(adj, s, s, 0));
}

/// A path of `adj` read backwards is a path of its reverse.
pub proof fn lemma_within_reverse(adj: Seq<Seq<usize>>, rev: Seq<Seq<usize>>, s: int, v: int, k: nat)
    requires
        is_reverse(adj, rev),
        within(adj, s, v, k),
    ensures
        within(rev, v, s, k),
    decreases k,
{
    if k > 0 {
        let k1 = (k - 1) as nat;
        if within(adj, s, v, k1) {
            lemma_within_reverse(adj, rev, s, v, k1);
            lemma_within_mono(rev, v, s, k1, k);
        } else {
            let w = lemma_within_last(adj, s, v, k1);
            lemma_within_reverse(adj, rev, s, w, k1);
            assert(edge(rev, v, w));
            lemma_edge_within(rev, v, w);
            lemma_within_trans(rev, v, w, s, 1, k1);
        }
    }
}

pub proof fn lemma_reaches_reverse(adj: Seq<Seq<usize>>, rev: Seq<Seq<usize>>, s: int, v: int)
    requires
        is_reverse(adj, rev),
    ensures
        reaches(adj, s, v) <==> reaches(rev, v, s),
{
    assert(is_reverse(rev, adj));
    if reaches(adj, s, v) {
        let k = choose|k: nat| within(adj, s, v, k);
        lemma_within_reverse(adj, rev, s, v, k);
    }
    if reaches(rev, v, s) {
        let k = choose|k: nat| within(rev, v, s, k);
        lemma_within_reverse(rev, adj, v, s, k);
    }
}

/// A set of nodes that holds `s` and is closed under edges holds all that `s` reaches.
pub proof fn lemma_closed_within(adj: Seq<Seq<usize>>, p: spec_fn(int) -> bool, s: int, v: int, k: nat)
    requires
        p(s),
        forall|u: int, w: int| p(u) && #[trigger] edge(adj, u, w) ==> p(w),
        within(adj, s, v, k),
    ensures
        p(v),
    decreases k,
{
    if k > 0 {
        let k1 = (k - 1) as nat;
        if within(adj, s, v, k1) {
            lemma_closed_within(adj, p, s, v, k1);
        } else {
            let w = lemma_within_last(adj, s, v, k1);
            lemma_closed_within(adj, p, s, w, k1);
        }
    }
}

/// A shortest distance is at most the length of any path.
pub proof fn lemma_dist_le(adj: Seq<Seq<usize>>, s: int, v: int, d: nat, j: nat)
    requires
        is_dist(adj, s, v, d),
        within(adj, s, v, j),
    ensures
        d <= j,
{
    if d > j {
        lemma_within_mono(adj, s, v, j, (d - 1) as nat);
    }
}

/// Shortest distances are unique.
pub proof fn lemma_dist_unique(adj: Seq<Seq<usize>>, s: int, v: int, j: nat, k: nat)
    requires
        is_dist(adj, s, v, j),
        is_dist(adj, s, v, k),
    ensures
        j == k,
{
    if j < k {
        lemma_within_mono(adj, s, v, j, (k - 1) as nat);
    } else if k < j {
        lemma_within_mono(adj, s, v, k, (j - 1) as nat);
    }
}

} // verus!
