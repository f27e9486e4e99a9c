//! Strong crossings (all streets out of them stay in their group), their
//! number in each group, and the variability that follows from it.
use vstd::prelude::*;
use crate::graph::Network;

verus! {

/// Every out-neighbour of `v` lies in the group of `v`.
pub open spec fn is_strong(adj: Seq<Seq<usize>>, group: Seq<usize>, v: int) -> bool {
    forall|k: int| 0 <= k < adj[v].len() ==> group[#[trigger] adj[v][k] as int] == group[v]
}

/// The strong flag of every crossing.
pub open spec fn strong_flags(adj: Seq<Seq<usize>>, group: Seq<usize>) -> Seq<bool> {
    Seq::new(adj.len(), |v: int| is_strong(adj, group, v))
}

/// How many of the crossings `0..k` are strong and lie in group `gid`.
pub open spec fn count_strong(group: Seq<usize>, strong: Seq<bool>, gid: int, k: int) -> nat
    decreases k,
{
    if k <= 0 {
        0
    } else {
        count_strong(group, strong, gid, k - 1) + if strong[k - 1] && group[k - 1] == gid {
            1nat
        } else {
            0nat
        }
    }
}

/// The number of strong crossings of every group id.
pub open spec fn strong_counts_of(group: Seq<usize>, strong: Seq<bool>) -> Seq<usize> {
    Seq::new(group.len(), |gid: int| count_strong(group, strong, gid, group.len() as int) as usize)
}

/// Variability of a crossing whose group holds `count` strong crossings:
/// the others among them, and none where the group holds none.
pub open spec fn variability_of(count: int) -> int {
    if count == 0 {
        0
    } else {
        count - 1
    }
}

/// A crossing without streets out of it is strong.
pub proof fn lemma_dead_end_is_strong(adj: Seq<Seq<usize>>, group: Seq<usize>, v: int)
    requires
        0 <= v < adj.len(),
        adj[v].len() == 0,
    ensures
        strong_flags(adj, group)[v],
{
}

proof fn lemma_count_strong_le(group: Seq<usize>, strong: Seq<bool>, gid: int, k: int)
    ensures
        count_strong(group, strong, gid, k) <= if k < 0 { 0 } else { k },
    decreases k,
{
    if k > 0 {
        lemma_count_strong_le(group, strong, gid, k - 1);
    }
}

/// Marks each crossing whose streets all stay in its group.
pub fn strong_crossings(g: &Network, group: &Vec<usize>) -> (strong: Vec<bool>)
    requires
        g.wf(),
        group.len() == g.n(),
    ensures
        strong@ == strong_flags(g.outs(), group@),
{
    let ghost adj = g.outs();
    let n = g.adj_list.len();
    let mut strong: Vec<bool> = Vec::new();
    while strong.len() < n
        invariant
            g.wf(),
            adj == g.outs(),
            n == g.n(),
            group.len() == n,
            strong.len() <= n,
            forall|v: int| 0 <= v < strong.len() ==> #[trigger] strong[v] == is_strong(adj, group@, v),
        decreases n - strong.len(),
    {
        let v = strong.len();
        let nb = &g.adj_list[v];
        assert(nb@ == adj[v as int]);
        let mut all = true;
        let mut j: usize = 0;
        while j < nb.len()
            invariant
                g.wf(),
                adj == g.outs(),
                nb@ == adj[v as int],
                n == g.n(),
                group.len() == n,
                v < n,
                j <= nb.len(),
                all == forall|k: int| 0 <= k < j ==> group[#[trigger] nb[k] as int] == group[v as int],
            decreases nb.len() - j,
        {
            assert(adj[v as int][j as int] == nb[j as int]);
            if group[nb[j]] != group[v] {
                all = false;
            }
            j += 1;
        }
        strong.push(all);
    }
    assert(strong@ =~= strong_flags(adj, group@));
    strong
}

/// The number of strong crossings in each group, indexed by group id.
pub fn strong_counts(group: &Vec<usize>, strong: &Vec<bool>) -> (counts: Vec<usize>)
    requires
        group.len() == strong.len(),
        forall|v: int| 0 <= v < group.len() ==> #[trigger] group[v] < group.len(),
    ensures
        counts@ == strong_counts_of(group@, strong@),
{
    let n = group.len();
    let mut counts: Vec<usize> = Vec::new();
    while counts.len() < n
        invariant
            counts.len() <= n,
            forall|gid: int| 0 <= gid < counts.len() ==> #[trigger] counts[gid] == 0,
        decreases n - counts.len(),
    {
        counts.push(0);
    }
    let mut v: usize = 0;
    while v < n
        invariant
            n == group.len(),
            group.len() == strong.len(),
            forall|x: int| 0 <= x < group.len() ==> #[trigger] group[x] < group.len(),
            counts.len() == n,
            v <= n,
            forall|gid: int| 0 <= gid < n ==> #[trigger] counts[gid] == count_strong(group@, strong@, gid, v as int),
        decreases n - v,
    {
        if strong[v] {
            let gid = group[v];
            proof {
                lemma_count_strong_le(group@, strong@, gid as int, v as int);
            }
            counts.set(gid, counts[gid] + 1);
        }
        v += 1;
    }
    assert(counts@ =~= strong_counts_of(group@, strong@));
    counts
}

/// The variability of crossing `v`.
pub fn variability(counts: &Vec<usize>, group: &Vec<usize>, v: usize) -> (r: usize)
    requires
        v < group.len(),
        group[v as int] < counts.len(),
    ensures
        r == variability_of(counts[group[v as int] as int] as int),
        counts[group[v as int] as int] == 0 ==> r == 0,
{
    let c = counts[group[v]];
    if c == 0 {
        0
    } else {
        c - 1
    }
}

} // verus!
