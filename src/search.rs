//! Searches from one node: depth-first for what it reaches, breadth-first
//! for shortest hop distances.
use vstd::prelude::*;
use crate::reach::{
    adj_view, adj_wf, edge, is_dist, lemma_closed_within, lemma_within_extend, lemma_within_mono, lemma_within_range,
    lemma_within_unfold, lemma_reaches_self, reaches, within,
};

verus! {

/// How many entries are still unknown.
pub open spec fn unknown_count(d: Seq<Option<usize>>) -> nat
    decreases d.len(),
{
    if d.len() == 0 {
        0
    } else {
        unknown_count(d.drop_last()) + if d.last() is None { 1nat } else { 0nat }
    }
}

proof fn lemma_unknown_count_push_none(d: Seq<Option<usize>>)
    ensures
        unknown_count(d.push(None)) == unknown_count(d) + 1,
{
    assert(d.push(None).drop_last() =~= d);
}

proof fn lemma_unknown_count_set(d: Seq<Option<usize>>, i: int, k: usize)
    requires
        0 <= i < d.len(),
        d[i] is None,
    ensures
        unknown_count(d.update(i, Some(k))) + 1 == unknown_count(d),
    decreases d.len(),
{
    let e = d.update(i, Some(k));
    if i == d.len() - 1 {
        assert(e.drop_last() =~= d.drop_last());
    } else {
        assert(e.drop_last() =~= d.drop_last().update(i, Some(k)));
        lemma_unknown_count_set(d.drop_last(), i, k);
    }
}

/// Every out-neighbour of `u` has a known distance.
pub open spec fn settled(g: Seq<Seq<usize>>, d: Seq<Option<usize>>, u: int) -> bool {
    forall|w: int| #[trigger] edge(g, u, w) ==> d[w] is Some
}

/// What a distance table from `s` holds: the least number of edges from `s`
/// to each node, or nothing where `s` does not reach it.
pub open spec fn is_dist_table(g: Seq<Seq<usize>>, s: int, d: Seq<Option<usize>>) -> bool {
    &&& d.len() == g.len()
    &&& forall|v: int| 0 <= v < d.len() && #[trigger] d[v] is Some ==> d[v]->0 < d.len()
    &&& forall|v: int|
        0 <= v < d.len() ==> match #[trigger] d[v] {
            Some(k) => is_dist(g, s, v, k as nat),
            None => !reaches(g, s, v),
        }
}

/// Shortest hop distances from `s` to every node.
pub fn distances(adj: &Vec<Vec<usize>>, s: usize) -> (d: Vec<Option<usize>>)
    requires
        adj_wf(adj_view(adj@)),
        s < adj.len(),
    ensures
        is_dist_table(adj_view(adj@), s as int, d@),
{
    let ghost g = adj_view(adj@);
    let n = adj.len();
    let mut d: Vec<Option<usize>> = Vec::new();
    while d.len() < n
        invariant
            d.len() <= n,
            unknown_count(d@) == d.len(),
            forall|v: int| 0 <= v < d.len() ==> d[v] is None,
        decreases n - d.len(),
    {
        proof {
            lemma_unknown_count_push_none(d@);
        }
        d.push(None);
    }
    proof {
        lemma_unknown_count_set(d@, s as int, 0);
    }
    d.set(s, Some(0));
    assert(within(g, s as int, s as int, 0));
    let mut frontier: Vec<usize> = Vec::new();
    frontier.push(s);
    let mut level: usize = 0;
    assert(frontier@.contains(s)) by {
        assert(frontier@[0] == s);
    }
    while frontier.len() > 0
        invariant
            g == adj_view(adj@),
            adj_wf(g),
            n == adj.len(),
            d.len() == n,
            s < n,
            forall|v: int|
                0 <= v < n && #[trigger] d[v] is Some ==> d[v]->0 <= level && is_dist(
                    g,
                    s as int,
                    v,
                    d[v]->0 as nat,
                ),
            forall|v: int| 0 <= v < n && #[trigger] within(g, s as int, v, level as nat) ==> d[v] is Some,
            forall|v: int|
                0 <= v < n && #[trigger] d[v] is Some && d[v]->0 < level ==> settled(g, d@, v),
            forall|i: int|
                0 <= i < frontier.len() ==> #[trigger] frontier[i] < n && d[frontier[i] as int] == Some(
                    level,
                ),
            forall|v: int| 0 <= v < n && #[trigger] d[v] == Some(level) ==> frontier@.contains(v as usize),
            frontier.len() > 0 ==> level + unknown_count(d@) < n,
            level <= n,
        decreases unknown_count(d@) + if frontier.len() > 0 { 1nat } else { 0nat },
    {
        let ghost d0 = d@;
        let mut next: Vec<usize> = Vec::new();
        let mut i: usize = 0;
        while i < frontier.len()
            invariant
                g == adj_view(adj@),
                adj_wf(g),
                n == adj.len(),
                d.len() == n,
                d0.len() == n,
                s < n,
                level + unknown_count(d0) < n,
                0 <= i <= frontier.len(),
                forall|v: int|
                    0 <= v < n && #[trigger] d0[v] is Some ==> d0[v]->0 <= level && is_dist(
                        g,
                        s as int,
                        v,
                        d0[v]->0 as nat,
                    ),
                forall|v: int| 0 <= v < n && #[trigger] within(g, s as int, v, level as nat) ==> d0[v] is Some,
                forall|v: int|
                    0 <= v < n && #[trigger] d0[v] is Some && d0[v]->0 < level ==> settled(g, d0, v),
                forall|j: int|
                    0 <= j < frontier.len() ==> #[trigger] frontier[j] < n && d0[frontier[j] as int]
                        == Some(level),
                forall|v: int| 0 <= v < n && #[trigger] d0[v] == Some(level) ==> frontier@.contains(v as usize),
                forall|v: int| 0 <= v < n && #[trigger] d0[v] is Some ==> d[v] == d0[v],
                forall|v: int|
                    0 <= v < n && d0[v] is None && #[trigger] d[v] is Some ==> d[v] == Some(
                        (level + 1) as usize,
                    ) && within(g, s as int, v, (level + 1) as nat) && next@.contains(v as usize),
                forall|j: int|
                    0 <= j < next.len() ==> #[trigger] next[j] < n && d[next[j] as int] == Some(
                        (level + 1) as usize,
                    ),
                forall|j: int| 0 <= j < i ==> settled(g, d@, #[trigger] frontier[j] as int),
                unknown_count(d@) + next.len() == unknown_count(d0),
            decreases frontier.len() - i,
        {
            let x = frontier[i];
            let nb = &adj[x];
            assert(nb@ == g[x as int]);
            let mut j: usize = 0;
            while j < nb.len()
                invariant
                    g == adj_view(adj@),
                    adj_wf(g),
                    n == adj.len(),
                    d.len() == n,
                    d0.len() == n,
                    x < n,
                    nb@ == g[x as int],
                    d0[x as int] == Some(level),
                    within(g, s as int, x as int, level as nat),
                    level + unknown_count(d0) < n,
                    0 <= j <= nb.len(),
                    forall|v: int| 0 <= v < n && #[trigger] d0[v] is Some ==> d[v] == d0[v],
                    forall|v: int|
                        0 <= v < n && d0[v] is None && #[trigger] d[v] is Some ==> d[v] == Some(
                            (level + 1) as usize,
                        ) && within(g, s as int, v, (level + 1) as nat) && next@.contains(v as usize),
                    forall|m: int|
                        0 <= m < next.len() ==> #[trigger] next[m] < n && d[next[m] as int] == Some(
                            (level + 1) as usize,
                        ),
                    forall|m: int| 0 <= m < j ==> d[#[trigger] nb[m] as int] is Some,
                    forall|jj: int| 0 <= jj < i ==> settled(g, d@, #[trigger] frontier[jj] as int),
                    forall|v: int| #![trigger d[v]] 0 <= v < n && d0[v] is Some ==> d[v] is Some,
                    unknown_count(d@) + next.len() == unknown_count(d0),
                decreases nb.len() - j,
            {
                let w = nb[j];
                assert(g[x as int][j as int] == w);
                if d[w].is_none() {
                    assert(edge(g, x as int, w as int));
                    proof {
                        lemma_within_extend(g, s as int, x as int, w as int, level as nat);
                        lemma_unknown_count_set(d@, w as int, (level + 1) as usize);
                    }
                    d.set(w, Some(level + 1));
                    let ghost next0 = next@;
                    next.push(w);
                    assert(next@[next.len() - 1] == w);
                    assert forall|v: usize| next0.contains(v) implies next@.contains(v) by {
                        let q = choose|q: int| 0 <= q < next0.len() && next0[q] == v;
                        assert(next@[q] == v);
                    }
                }
                j += 1;
            }
            assert forall|w: int| #[trigger] edge(g, x as int, w) implies d[w] is Some by {
                let m = choose|m: int| 0 <= m < nb.len() && nb[m] == w as usize;
                assert(d[nb[m] as int] is Some);
            }
            assert(settled(g, d@, x as int));
            i += 1;
        }
        proof {
            assert forall|v: int| 0 <= v < n && #[trigger] within(g, s as int, v, (level + 1) as nat) implies d[v] is Some by {
                lemma_within_unfold(g, s as int, v, level as nat);
                if !within(g, s as int, v, level as nat) {
                    let w = choose|w: int| #[trigger] within(g, s as int, w, level as nat) && edge(g, w, v);
                    lemma_within_range(g, s as int, w, level as nat);
                    if d0[w]->0 < level {
                        assert(settled(g, d0, w));
                    } else {
                        assert(frontier@.contains(w as usize));
                        let j = choose|j: int| 0 <= j < frontier.len() && frontier[j] == w as usize;
                        assert(settled(g, d@, frontier[j] as int));
                    }
                }
            }
            assert forall|v: int| 0 <= v < n && #[trigger] d[v] is Some && d[v]->0 < level + 1 implies settled(g, d@, v) by {
                if d0[v]->0 < level {
                    assert forall|w: int| #[trigger] edge(g, v, w) implies d[w] is Some by {
                        assert(settled(g, d0, v));
                        assert(d0[w] is Some);
                    }
                } else {
                    assert(frontier@.contains(v as usize));
                    let j = choose|j: int| 0 <= j < frontier.len() && frontier[j] == v as usize;
                    assert(settled(g, d@, frontier[j] as int));
                }
            }
            assert forall|v: int| 0 <= v < n && #[trigger] d[v] is Some implies d[v]->0 <= level + 1 && is_dist(g, s as int, v, d[v]->0 as nat) by {
                if d0[v] is None {
                    assert(!within(g, s as int, v, level as nat));
                }
            }
            assert forall|v: int| 0 <= v < n && #[trigger] d[v] == Some((level + 1) as usize) implies next@.contains(v as usize) by {
                if d0[v] is Some {
                    assert(d0[v]->0 <= level);
                }
            }
        }
        frontier = next;
        level = level + 1;
    }
    proof {
        let p = |v: int| 0 <= v < n && d@[v] is Some;
        assert(within(g, s as int, s as int, 0));
        lemma_within_mono(g, s as int, s as int, 0, level as nat);
        assert forall|u: int, w: int| p(u) && #[trigger] edge(g, u, w) implies p(w) by {
            assert(d[u]->0 != level) by {
                if d[u]->0 == level {
                    assert(frontier@.contains(u as usize));
                }
            }
            assert(settled(g, d@, u));
        }
        assert forall|v: int| 0 <= v < n implies match #[trigger] d[v] {
            Some(k) => is_dist(g, s as int, v, k as nat),
            None => !reaches(g, s as int, v),
        } by {
            if d[v] is None && reaches(g, s as int, v) {
                let k = choose|k: nat| within(g, s as int, v, k);
                lemma_closed_within(g, p, s as int, v, k);
            }
        }
    }
    d
}

/// The visit state of a node in a search.
#[derive(Debug, Clone, Copy, PartialEq, Eq)]
pub enum NodeID {
    Unvisited,
    /// Visited, as the node discovered at this position (from 0).
    Visited(usize),
}

impl NodeID {
    /// Whether the node has been visited.
    pub fn is_visited(&self) -> (r: bool)
        ensures
            r == (*self is Visited),
    {
        match *self {
            NodeID::Visited(_) => true,
            NodeID::Unvisited => false,
        }
    }

    /// The discovery position of a visited node.
    pub fn must_get(&self) -> (r: usize)
        requires
            *self is Visited,
        ensures
            r == self->Visited_0,
    {
        match *self {
            NodeID::Visited(v) => v,
            NodeID::Unvisited => 0,
        }
    }
}

/// How many nodes are still unvisited.
pub open spec fn unvisited_count(ids: Seq<NodeID>) -> nat
    decreases ids.len(),
{
    if ids.len() == 0 {
        0
    } else {
        unvisited_count(ids.drop_last()) + if ids.last() is Unvisited { 1nat } else { 0nat }
    }
}

proof fn lemma_unvisited_set(ids: Seq<NodeID>, i: int, k: usize)
    requires
        0 <= i < ids.len(),
        ids[i] is Unvisited,
    ensures
        unvisited_count(ids.update(i, NodeID::Visited(k))) + 1 == unvisited_count(ids),
    decreases ids.len(),
{
    let e = ids.update(i, NodeID::Visited(k));
    if i == ids.len() - 1 {
        assert(e.drop_last() =~= ids.drop_last());
    } else {
        assert(e.drop_last() =~= ids.drop_last().update(i, NodeID::Visited(k)));
        lemma_unvisited_set(ids.drop_last(), i, k);
    }
}

/// Every out-neighbour of `u` is visited.
pub open spec fn explored(g: Seq<Seq<usize>>, ids: Seq<NodeID>, u: int) -> bool {
    forall|w: int| #[trigger] edge(g, u, w) ==> ids[w] is Visited
}

/// The number of visited nodes.
pub open spec fn visited_count(ids: Seq<NodeID>) -> nat {
    (ids.len() - unvisited_count(ids)) as nat
}

/// The visited nodes hold the discovery orders `0..next`, each once.
pub open spec fn is_numbering(ids: Seq<NodeID>, next: nat) -> bool {
    &&& next == visited_count(ids)
    &&& forall|v: int| 0 <= v < ids.len() && #[trigger] ids[v] is Visited ==> ids[v]->Visited_0 < next
    &&& forall|u: int, v: int|
        0 <= u < ids.len() && 0 <= v < ids.len() && u != v && #[trigger] ids[u] is Visited
            && #[trigger] ids[v] is Visited ==> ids[u] != ids[v]
    &&& forall|k: int| 0 <= k < next ==> #[trigger] has_order(ids, k)
}

/// Some node holds discovery order `k`.
pub open spec fn has_order(ids: Seq<NodeID>, k: int) -> bool {
    exists|v: int| 0 <= v < ids.len() && #[trigger] ids[v] == NodeID::Visited(k as usize)
}

/// Every visited node has all its out-neighbours visited.
pub open spec fn all_explored(g: Seq<Seq<usize>>, ids: Seq<NodeID>) -> bool {
    forall|u: int| 0 <= u < ids.len() && #[trigger] ids[u] is Visited ==> explored(g, ids, u)
}

/// What a depth-first search from `at` leaves: exactly the nodes that `at`
/// reaches are visited, `at` first, numbered `0..k` in order of discovery.
pub open spec fn is_search_result(g: Seq<Seq<usize>>, at: int, ids: Seq<NodeID>) -> bool {
    &&& ids.len() == g.len()
    &&& forall|v: int| 0 <= v < ids.len() ==> (#[trigger] ids[v] is Visited <==> reaches(g, at, v))
    &&& ids[at] == NodeID::Visited(0)
    &&& is_numbering(ids, visited_count(ids))
}

proof fn lemma_unvisited_le(ids: Seq<NodeID>)
    ensures
        unvisited_count(ids) <= ids.len(),
    decreases ids.len(),
{
    if ids.len() > 0 {
        lemma_unvisited_le(ids.drop_last());
    }
}

proof fn lemma_unvisited_all(ids: Seq<NodeID>)
    requires
        forall|v: int| 0 <= v < ids.len() ==> #[trigger] ids[v] is Unvisited,
    ensures
        unvisited_count(ids) == ids.len(),
    decreases ids.len(),
{
    if ids.len() > 0 {
        lemma_unvisited_all(ids.drop_last());
    }
}

proof fn lemma_unvisited_none(ids: Seq<NodeID>)
    requires
        unvisited_count(ids) == 0,
    ensures
        forall|v: int| 0 <= v < ids.len() ==> #[trigger] ids[v] is Visited,
    decreases ids.len(),
{
    if ids.len() > 0 {
        lemma_unvisited_none(ids.drop_last());
        assert forall|v: int| 0 <= v < ids.len() implies #[trigger] ids[v] is Visited by {
            if v < ids.len() - 1 {
                assert(ids.drop_last()[v] is Visited);
            }
        }
    }
}

/// Depth-first search from `at`, continuing a numbering: each node is
/// numbered when it is first taken from the stack, and its out-neighbours
/// are pushed so that the first of them is taken next.
pub fn dfs_from(adj: &Vec<Vec<usize>>, ids: &mut Vec<NodeID>, next: &mut usize, at: usize)
    requires
        adj_wf(adj_view(adj@)),
        at < adj.len(),
        old(ids).len() == adj.len(),
        is_numbering(old(ids)@, *old(next) as nat),
        all_explored(adj_view(adj@), old(ids)@),
    ensures
        final(ids).len() == adj.len(),
        is_numbering(final(ids)@, *final(next) as nat),
        all_explored(adj_view(adj@), final(ids)@),
        final(ids)[at as int] is Visited,
        old(ids)[at as int] is Unvisited ==> final(ids)[at as int] == NodeID::Visited(*old(next)),
        forall|v: int| 0 <= v < adj.len() && #[trigger] old(ids)[v] is Visited ==> final(ids)[v] == old(ids)[v],
        forall|v: int|
            0 <= v < adj.len() && #[trigger] final(ids)[v] is Visited && old(ids)[v] is Unvisited ==> reaches(
                adj_view(adj@),
                at as int,
                v,
            ),
{
    let ghost g = adj_view(adj@);
    let ghost old_ids = ids@;
    let ghost start = *next;
    let n = adj.len();
    if ids[at].is_visited() {
        return ;
    }
    proof {
        lemma_unvisited_le(ids@);
        lemma_reaches_self(g, at as int);
    }
    let mut stack: Vec<usize> = Vec::new();
    stack.push(at);
    assert(stack@ =~= seq![at]);
    while stack.len() > 0
        invariant
            g == adj_view(adj@),
            adj_wf(g),
            n == adj.len(),
            ids.len() == n,
            at < n,
            old_ids.len() == n,
            old_ids[at as int] is Unvisited,
            is_numbering(ids@, *next as nat),
            ids[at as int] is Unvisited ==> stack@ == seq![at] && *next == start,
            ids[at as int] is Visited ==> ids[at as int] == NodeID::Visited(start),
            forall|i: int| 0 <= i < stack.len() ==> #[trigger] stack[i] < n && reaches(g, at as int, stack[i] as int),
            forall|v: int| 0 <= v < n && #[trigger] old_ids[v] is Visited ==> ids[v] == old_ids[v],
            forall|v: int|
                0 <= v < n && #[trigger] ids[v] is Visited && old_ids[v] is Unvisited ==> reaches(g, at as int, v),
            forall|u: int, w: int|
                0 <= u < n && #[trigger] ids[u] is Visited && #[trigger] edge(g, u, w) ==> ids[w] is Visited
                    || stack@.contains(w as usize),
        decreases unvisited_count(ids@), stack.len(),
    {
        let ghost before_pop = stack@;
        let x = stack.pop().unwrap();
        let ghost popped = stack@;
        assert(before_pop =~= popped.push(x));
        assert(before_pop[before_pop.len() - 1] == x);
        assert forall|v: usize| before_pop.contains(v) && v != x implies popped.contains(v) by {
            let q = choose|q: int| 0 <= q < before_pop.len() && before_pop[q] == v;
            assert(popped[q] == v);
        }
        if !ids[x].is_visited() {
            let ghost pre = ids@;
            proof {
                lemma_unvisited_set(ids@, x as int, *next);
                lemma_unvisited_le(ids@);
            }
            ids.set(x, NodeID::Visited(*next));
            assert forall|k: int| 0 <= k < *next + 1 implies #[trigger] has_order(ids@, k) by {
                if k < *next {
                    assert(has_order(pre, k));
                    let v = choose|v: int| 0 <= v < pre.len() && #[trigger] pre[v] == NodeID::Visited(k as usize);
                    assert(ids[v] == NodeID::Visited(k as usize));
                } else {
                    assert(ids[x as int] == NodeID::Visited(k as usize));
                }
            }
            *next = *next + 1;
            let nb = &adj[x];
            assert(nb@ == g[x as int]);
            let mut j: usize = nb.len();
            while j > 0
                invariant
                    g == adj_view(adj@),
                    adj_wf(g),
                    n == adj.len(),
                    x < n,
                    nb@ == g[x as int],
                    reaches(g, at as int, x as int),
                    j <= nb.len(),
                    forall|i: int| 0 <= i < popped.len() ==> stack@[i] == popped[i],
                    stack.len() >= popped.len(),
                    forall|i: int| 0 <= i < stack.len() ==> #[trigger] stack[i] < n && reaches(g, at as int, stack[i] as int),
                    forall|m: int| j <= m < nb.len() ==> stack@.contains(#[trigger] nb[m]),
                decreases j,
            {
                j -= 1;
                let w = nb[j];
                assert(g[x as int][j as int] == w);
                assert(edge(g, x as int, w as int));
                proof {
                    let k = choose|k: nat| within(g, at as int, x as int, k);
                    lemma_within_extend(g, at as int, x as int, w as int, k);
                }
                let ghost before = stack@;
                stack.push(w);
                assert(stack@[stack.len() - 1] == w);
                assert forall|v: usize| before.contains(v) implies stack@.contains(v) by {
                    let q = choose|q: int| 0 <= q < before.len() && before[q] == v;
                    assert(stack@[q] == v);
                }
            }
            assert forall|v: usize| popped.contains(v) implies stack@.contains(v) by {
                let q = choose|q: int| 0 <= q < popped.len() && popped[q] == v;
                assert(stack@[q] == v);
            }
            assert forall|w: int| #[trigger] edge(g, x as int, w) implies stack@.contains(w as usize) by {
                let m = choose|m: int| 0 <= m < nb.len() && nb[m] == w as usize;
                assert(stack@.contains(nb[m]));
            }
        }
    }
    assert(all_explored(g, ids@)) by {
        assert forall|u: int| 0 <= u < n && #[trigger] ids[u] is Visited implies explored(g, ids@, u) by {
            assert forall|w: int| #[trigger] edge(g, u, w) implies ids[w] is Visited by {
                assert(!stack@.contains(w as usize));
            }
        }
    }
}

/// Depth-first search from `at`: the nodes that it reaches, each with its
/// discovery order.
pub fn depth_first(adj: &Vec<Vec<usize>>, at: usize) -> (ids: Vec<NodeID>)
    requires
        adj_wf(adj_view(adj@)),
        at < adj.len(),
    ensures
        is_search_result(adj_view(adj@), at as int, ids@),
{
    let ghost g = adj_view(adj@);
    let n = adj.len();
    let mut ids: Vec<NodeID> = Vec::new();
    while ids.len() < n
        invariant
            ids.len() <= n,
            forall|v: int| 0 <= v < ids.len() ==> #[trigger] ids[v] is Unvisited,
        decreases n - ids.len(),
    {
        ids.push(NodeID::Unvisited);
    }
    proof {
        lemma_unvisited_all(ids@);
    }
    let mut next: usize = 0;
    dfs_from(adj, &mut ids, &mut next, at);
    proof {
        let p = |v: int| 0 <= v < n && ids@[v] is Visited;
        assert forall|u: int, w: int| p(u) && #[trigger] edge(g, u, w) implies p(w) by {
            assert(explored(g, ids@, u));
        }
        assert forall|v: int| 0 <= v < n implies (#[trigger] ids[v] is Visited <==> reaches(g, at as int, v)) by {
            if reaches(g, at as int, v) {
                let k = choose|k: nat| within(g, at as int, v, k);
                lemma_closed_within(g, p, at as int, v, k);
            }
        }
    }
    ids
}

/// Depth-first search over the whole network: from each crossing not yet
/// visited, in increasing order. Every node ends up with its own discovery
/// order in `0..n`.
pub fn depth_first_all(adj: &Vec<Vec<usize>>) -> (ids: Vec<NodeID>)
    requires
        adj_wf(adj_view(adj@)),
    ensures
        ids.len() == adj.len(),
        is_numbering(ids@, adj.len() as nat),
        forall|v: int| 0 <= v < ids.len() ==> #[trigger] ids[v] is Visited,
{
    let n = adj.len();
    let mut ids: Vec<NodeID> = Vec::new();
    while ids.len() < n
        invariant
            ids.len() <= n,
            forall|v: int| 0 <= v < ids.len() ==> #[trigger] ids[v] is Unvisited,
        decreases n - ids.len(),
    {
        ids.push(NodeID::Unvisited);
    }
    proof {
        lemma_unvisited_all(ids@);
    }
    let mut next: usize = 0;
    let mut r: usize = 0;
    while r < n
        invariant
            adj_wf(adj_view(adj@)),
            n == adj.len(),
            ids.len() == n,
            r <= n,
            is_numbering(ids@, next as nat),
            all_explored(adj_view(adj@), ids@),
            forall|v: int| 0 <= v < r ==> #[trigger] ids[v] is Visited,
        decreases n - r,
    {
        let ghost pre = ids@;
        dfs_from(adj, &mut ids, &mut next, r);
        assert forall|v: int| 0 <= v < r + 1 implies #[trigger] ids[v] is Visited by {
            if v < r {
                assert(pre[v] is Visited);
            }
        }
        r += 1;
    }
    proof {
        assert forall|v: int| 0 <= v < n implies #[trigger] ids[v] is Visited by {}
        if unvisited_count(ids@) > 0 {
            lemma_unvisited_pos(ids@);
        }
    }
    ids
}

proof fn lemma_unvisited_pos(ids: Seq<NodeID>)
    requires
        unvisited_count(ids) > 0,
    ensures
        exists|v: int| 0 <= v < ids.len() && #[trigger] ids[v] is Unvisited,
    decreases ids.len(),
{
    if ids.last() is Unvisited {
        assert(ids[ids.len() - 1] is Unvisited);
    } else {
        lemma_unvisited_pos(ids.drop_last());
        let v = choose|v: int| 0 <= v < ids.drop_last().len() && #[trigger] ids.drop_last()[v] is Unvisited;
        assert(ids[v] is Unvisited);
    }
}

} // verus!
