//! Groups: the classes of mutually reachable crossings. A group is named by
//! the discovery order of its first-discovered crossing in a depth-first
//! search over the whole network; its least crossing serves as a second name.
use vstd::prelude::*;
use crate::graph::Network;
use crate::reach::{lemma_reaches_reverse, lemma_reaches_self, lemma_reaches_trans, mutual, reaches};
use crate::search::{depth_first, depth_first_all, is_numbering, is_search_result, NodeID};

verus! {

/// `k` is the least discovery order among the crossings that share a group with `v`.
pub open spec fn is_group_order(adj: Seq<Seq<usize>>, ids: Seq<NodeID>, v: int, k: usize) -> bool {
    &&& exists|u: int| 0 <= u < adj.len() && #[trigger] mutual(adj, u, v) && ids[u] == NodeID::Visited(k)
    &&& forall|u: int| 0 <= u < adj.len() && #[trigger] mutual(adj, u, v) ==> k <= ids[u]->Visited_0
}

/// How many of the crossings `0..k` are the first-discovered crossing of
/// their group.
pub open spec fn count_first(ids: Seq<NodeID>, group: Seq<usize>, k: int) -> nat
    decreases k,
{
    if k <= 0 {
        0
    } else {
        count_first(ids, group, k - 1) + if ids[k - 1] == NodeID::Visited(group[k - 1]) {
            1nat
        } else {
            0nat
        }
    }
}

/// `r` is the least crossing that `v` shares a group with.
pub open spec fn is_group_root(adj: Seq<Seq<usize>>, r: int, v: int) -> bool {
    &&& 0 <= r
    &&& mutual(adj, r, v)
    &&& forall|w: int| 0 <= w < r ==> !#[trigger] mutual(adj, w, v)
}

/// The group of `v`: the least crossing that it shares a group with.
pub open spec fn group_of(adj: Seq<Seq<usize>>, v: int) -> int {
    choose|r: int| is_group_root(adj, r, v)
}

/// The group of every crossing.
pub open spec fn group_ids(adj: Seq<Seq<usize>>) -> Seq<usize> {
    Seq::new(adj.len(), |v: int| group_of(adj, v) as usize)
}

proof fn lemma_group_root_unique(adj: Seq<Seq<usize>>, r: int, v: int)
    requires
        is_group_root(adj, r, v),
    ensures
        group_of(adj, v) == r,
{
    let q = group_of(adj, v);
    assert(is_group_root(adj, q, v));
    if q < r {
        assert(!mutual(adj, q, v));
    }
    if r < q {
        assert(!mutual(adj, r, v));
    }
}

impl Network {

    /// Depth-first search from crossing `at`: the crossings that it reaches are
    /// the visited ones, in the order of their discovery.
    pub fn dfs(&self, at: usize) -> (ids: Vec<NodeID>)
        requires
            self.wf(),
            at < self.n(),
        ensures
            is_search_result(self.outs(), at as int, ids@),
    {
        depth_first(&self.adj_list, at)
    }

    /// The least crossing of the group of each crossing: two crossings share
    /// a group exactly when each reaches the other.
    pub fn group_roots(&self) -> (group: Vec<usize>)
        requires
            self.wf(),
        ensures
            group@ == group_ids(self.outs()),
            forall|v: int| 0 <= v < self.n() ==> is_group_root(self.outs(), #[trigger] group[v] as int, v) && group[v] <= v,
            forall|u: int, v: int|
                0 <= u < self.n() && 0 <= v < self.n() ==> (#[trigger] group[u] == #[trigger] group[v]
                    <==> mutual(self.outs(), u, v)),
    {
        let ghost adj = self.outs();
        let n = self.adj_list.len();
        let mut group: Vec<usize> = Vec::new();
        let mut done: Vec<bool> = Vec::new();
        while group.len() < n
            invariant
                group.len() <= n,
                done.len() == group.len(),
                forall|v: int| 0 <= v < done.len() ==> !#[trigger] done[v],
            decreases n - group.len(),
        {
            group.push(0);
            done.push(false);
        }
        let mut u: usize = 0;
        while u < n
            invariant
                self.wf(),
                adj == self.outs(),
                n == self.n(),
                u <= n,
                group.len() == n,
                done.len() == n,
                forall|v: int|
                    0 <= v < n ==> (#[trigger] done[v] <==> exists|w: int| 0 <= w < u && #[trigger] mutual(adj, w, v)),
                forall|v: int| 0 <= v < n && #[trigger] done[v] ==> group[v] < u && is_group_root(adj, group[v] as int, v),
            decreases n - u,
        {
            if !done[u] {
                let fwd = depth_first(&self.adj_list, u);
                let bwd = depth_first(&self.target_list, u);
                let mut v: usize = 0;
                while v < n
                    invariant
                        self.wf(),
                        adj == self.outs(),
                        n == self.n(),
                        u < n,
                        v <= n,
                        group.len() == n,
                        done.len() == n,
                        !exists|w: int| 0 <= w < u && #[trigger] mutual(adj, w, u as int),
                        is_search_result(adj, u as int, fwd@),
                        is_search_result(self.ins(), u as int, bwd@),
                        forall|x: int|
                            0 <= x < n ==> (#[trigger] done[x] <==> (exists|w: int| 0 <= w < u && #[trigger] mutual(adj, w, x))
                                || (x < v && mutual(adj, u as int, x))),
                        forall|x: int|
                            0 <= x < n && #[trigger] done[x] ==> group[x] <= u && is_group_root(adj, group[x] as int, x),
                    decreases n - v,
                {
                    proof {
                        lemma_reaches_reverse(adj, self.ins(), v as int, u as int);
                    }
                    if fwd[v].is_visited() && bwd[v].is_visited() {
                        assert(mutual(adj, u as int, v as int));
                        assert forall|w: int| 0 <= w < u implies !#[trigger] mutual(adj, w, v as int) by {
                            if mutual(adj, w, v as int) {
                                lemma_reaches_trans(adj, w, v as int, u as int);
                                lemma_reaches_trans(adj, u as int, v as int, w);
                            }
                        }
                        group.set(v, u);
                        done.set(v, true);
                    }
                    v += 1;
                }
            }
            proof {
                assert forall|x: int|
                    0 <= x < n implies (#[trigger] done[x] <==> exists|w: int| 0 <= w < u + 1 && #[trigger] mutual(adj, w, x)) by {
                    if mutual(adj, u as int, x) && !done[x] {
                        assert(done[u as int]);
                        let w = choose|w: int| 0 <= w < u && #[trigger] mutual(adj, w, u as int);
                        lemma_reaches_trans(adj, w, u as int, x);
                        lemma_reaches_trans(adj, x, u as int, w);
                        assert(mutual(adj, w, x));
                    }
                }
            }
            u += 1;
        }
        proof {
            assert forall|v: int| 0 <= v < n implies #[trigger] done[v] && is_group_root(adj, group[v] as int, v) by {
                lemma_reaches_self(adj, v);
                assert(mutual(adj, v, v));
            }
            assert forall|v: int| 0 <= v < n implies is_group_root(adj, #[trigger] group[v] as int, v) && group[v] <= v by {
                assert(done[v]);
                lemma_reaches_self(adj, v);
                assert(mutual(adj, v, v));
            }
            assert forall|a: int, b: int|
                0 <= a < n && 0 <= b < n implies (#[trigger] group[a] == #[trigger] group[b] <==> mutual(adj, a, b)) by {
                assert(done[a] && done[b]);
                let ra = group[a] as int;
                let rb = group[b] as int;
                if ra == rb {
                    lemma_reaches_trans(adj, a, ra, b);
                    lemma_reaches_trans(adj, b, ra, a);
                }
                if mutual(adj, a, b) {
                    if ra < rb {
                        lemma_reaches_trans(adj, ra, a, b);
                        lemma_reaches_trans(adj, b, a, ra);
                        assert(mutual(adj, ra, b));
                    }
                    if rb < ra {
                        lemma_reaches_trans(adj, rb, b, a);
                        lemma_reaches_trans(adj, a, b, rb);
                        assert(mutual(adj, rb, a));
                    }
                }
            }
            assert forall|v: int| 0 <= v < n implies #[trigger] group@[v] == group_ids(adj)[v] by {
                assert(done[v]);
                lemma_group_root_unique(adj, group[v] as int, v);
            }
            assert(group@ =~= group_ids(adj));
        }
        group
    }


    /// The groups named by discovery order: `ids` holds the discovery order of
    /// a depth-first search over the whole network, and `group[v]` is the
    /// least order in the group of `v`, that is, the order of its
    /// first-discovered crossing.
    pub fn find_sccs(&self) -> (r: (Vec<NodeID>, Vec<usize>))
        requires
            self.wf(),
        ensures
            r.0.len() == self.n(),
            is_numbering(r.0@, self.n()),
            forall|v: int| 0 <= v < self.n() ==> #[trigger] r.0[v] is Visited,
            r.1.len() == self.n(),
            forall|v: int| 0 <= v < self.n() ==> is_group_order(self.outs(), r.0@, v, #[trigger] r.1[v]),
            forall|u: int, v: int|
                0 <= u < self.n() && 0 <= v < self.n() ==> (#[trigger] r.1[u] == #[trigger] r.1[v]
                    <==> mutual(self.outs(), u, v)),
    {
        let ids = depth_first_all(&self.adj_list);
        let group = self.groups_by_order(&ids);
        (ids, group)
    }

    /// The groups named by the given discovery orders: `group[v]` is the least
    /// order in the group of `v`.
    pub fn groups_by_order(&self, ids: &Vec<NodeID>) -> (group: Vec<usize>)
        requires
            self.wf(),
            ids.len() == self.n(),
            is_numbering(ids@, self.n()),
            forall|v: int| 0 <= v < self.n() ==> #[trigger] ids[v] is Visited,
        ensures
            group.len() == self.n(),
            forall|v: int| 0 <= v < self.n() ==> is_group_order(self.outs(), ids@, v, #[trigger] group[v]),
            forall|u: int, v: int|
                0 <= u < self.n() && 0 <= v < self.n() ==> (#[trigger] group[u] == #[trigger] group[v]
                    <==> mutual(self.outs(), u, v)),
    {
        let ghost adj = self.outs();
        let n = self.adj_list.len();
        let root = self.group_roots();
        let mut least: Vec<Option<usize>> = Vec::new();
        while least.len() < n
            invariant
                least.len() <= n,
                forall|r: int| 0 <= r < least.len() ==> #[trigger] least[r] is None,
            decreases n - least.len(),
        {
            least.push(None);
        }
        let mut v: usize = 0;
        while v < n
            invariant
                n == self.n(),
                adj == self.outs(),
                ids.len() == n,
                root.len() == n,
                least.len() == n,
                v <= n,
                forall|x: int| 0 <= x < n ==> #[trigger] ids[x] is Visited,
                forall|x: int| 0 <= x < n ==> #[trigger] root[x] <= x,
                forall|r: int|
                    0 <= r < n && #[trigger] least[r] is Some ==> exists|u: int|
                        0 <= u < v && root[u] == r && #[trigger] ids[u] == NodeID::Visited(least[r]->0),
                forall|u: int|
                    0 <= u < v ==> least[#[trigger] root[u] as int] is Some && least[root[u] as int]->0
                        <= ids[u]->Visited_0,
            decreases n - v,
        {
            let r = root[v];
            let o = ids[v].must_get();
            let replace = match least[r] {
                Some(k) => o < k,
                None => true,
            };
            if replace {
                least.set(r, Some(o));
            }
            v += 1;
        }
        let mut group: Vec<usize> = Vec::new();
        while group.len() < n
            invariant
                n == self.n(),
                root.len() == n,
                least.len() == n,
                group.len() <= n,
                forall|x: int| 0 <= x < n ==> #[trigger] root[x] <= x,
                forall|u: int| 0 <= u < n ==> least[#[trigger] root[u] as int] is Some,
                forall|x: int| 0 <= x < group.len() ==> Some(#[trigger] group[x]) == least[root[x] as int],
            decreases n - group.len(),
        {
            let x = group.len();
            let k = match least[root[x]] {
                Some(k) => k,
                None => 0,
            };
            group.push(k);
        }
        proof {
            assert forall|x: int| 0 <= x < n implies is_group_order(adj, ids@, x, #[trigger] group[x]) by {
                let r = root[x] as int;
                let u = choose|u: int| 0 <= u < n && root[u] == r && #[trigger] ids[u] == NodeID::Visited(least[r]->0);
                assert(root[u] == root[x]);
                assert(mutual(adj, u, x));
                assert forall|w: int| 0 <= w < n && #[trigger] mutual(adj, w, x) implies group[x] <= ids[w]->Visited_0 by {
                    assert(root[w] == root[x]);
                    assert(least[root[w] as int]->0 <= ids[w]->Visited_0);
                }
            }
            assert forall|a: int, b: int|
                0 <= a < n && 0 <= b < n implies (#[trigger] group[a] == #[trigger] group[b] <==> mutual(adj, a, b)) by {
                if mutual(adj, a, b) {
                    assert(root[a] == root[b]);
                }
                if group[a] == group[b] {
                    let ua = choose|u: int| 0 <= u < n && #[trigger] mutual(adj, u, a) && ids[u] == NodeID::Visited(group[a]);
                    let ub = choose|u: int| 0 <= u < n && #[trigger] mutual(adj, u, b) && ids[u] == NodeID::Visited(group[b]);
                    assert(ua == ub);
                    lemma_reaches_trans(adj, a, ua, b);
                    lemma_reaches_trans(adj, b, ua, a);
                }
            }
        }
        group
    }


    /// The number of groups: the crossings that come first in their group,
    /// given the discovery orders and groups of `find_sccs`.
    pub fn component_count(&self, ids: &Vec<NodeID>, group: &Vec<usize>) -> (count: usize)
        requires
            ids.len() == group.len(),
        ensures
            count == count_first(ids@, group@, group.len() as int),
    {
        let mut count: usize = 0;
        let mut v: usize = 0;
        while v < group.len()
            invariant
                ids.len() == group.len(),
                v <= group.len(),
                count == count_first(ids@, group@, v as int),
                count <= v,
            decreases group.len() - v,
        {
            let first = match ids[v] {
                NodeID::Visited(k) => k == group[v],
                NodeID::Unvisited => false,
            };
            if first {
                count += 1;
            }
            v += 1;
        }
        count
    }

}

} // verus!
