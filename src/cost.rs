//! Round-trip costs: shortest hop distances between strong crossings of one
//! group, along streets whose two ends are strong crossings of that group.
use vstd::prelude::*;
use crate::graph::Network;
use crate::classify::{is_strong, strong_flags};
use crate::reach::{
    adj_view, adj_wf, edge, is_dist, lemma_dist_le, lemma_dist_unique, lemma_within_extend, lemma_within_last,
    lemma_within_mono, mutual, reaches, within,
};
use crate::search::distances;

verus! {

/// The street `u -> w` counts for costs: both ends strong, in one group.
pub open spec fn kept(group: Seq<usize>, strong: Seq<bool>, u: int, w: int) -> bool {
    strong[u] && strong[w] && group[u] == group[w]
}

/// The entries `w` of `l` (out-neighbours of `u`) whose street counts for costs.
pub open spec fn kept_streets(l: Seq<usize>, group: Seq<usize>, strong: Seq<bool>, u: int) -> Seq<usize>
    decreases l.len(),
{
    if l.len() == 0 {
        l
    } else {
        let p = kept_streets(l.drop_last(), group, strong, u);
        if kept(group, strong, u, l.last() as int) {
            p.push(l.last())
        } else {
            p
        }
    }
}

/// The network cut down to the streets that count for costs.
pub open spec fn strong_sub(adj: Seq<Seq<usize>>, group: Seq<usize>, strong: Seq<bool>) -> Seq<Seq<usize>> {
    Seq::new(adj.len(), |u: int| kept_streets(adj[u], group, strong, u))
}

/// The least number of streets from `c` to `t` in the cut-down network `h`,
/// known only for a strong crossing `c` and what it reaches.
pub open spec fn dist_entry(h: Seq<Seq<usize>>, strong: Seq<bool>, c: int, t: int) -> Option<usize> {
    if strong[c] && reaches(h, c, t) {
        Some((choose|k: nat| is_dist(h, c, t, k)) as usize)
    } else {
        None
    }
}

/// A cycle of at most `k` streets, and at least one, leads from `c` back to `c`.
pub open spec fn cycle_within(h: Seq<Seq<usize>>, c: int, k: nat) -> bool {
    k >= 1 && exists|w: int| #[trigger] edge(h, c, w) && within(h, w, c, (k - 1) as nat)
}

/// `k` is the least number of streets on a cycle through `c`.
pub open spec fn is_cycle_len(h: Seq<Seq<usize>>, c: int, k: nat) -> bool {
    cycle_within(h, c, k) && !cycle_within(h, c, (k - 1) as nat)
}

/// The cost from `c` to `t`: the least number of streets, at least one, on a
/// way from `c` to `t` in the cut-down network `h`. Known only from a strong
/// crossing `c`; from `c` to itself only along a cycle.
pub open spec fn cost_entry(h: Seq<Seq<usize>>, strong: Seq<bool>, c: int, t: int) -> Option<usize> {
    if t != c {
        dist_entry(h, strong, c, t)
    } else if strong[c] && exists|k: nat| cycle_within(h, c, k) {
        Some((choose|k: nat| is_cycle_len(h, c, k)) as usize)
    } else {
        None
    }
}

/// The distance table: a row for every crossing, empty but for strong ones.
pub open spec fn dist_rows(h: Seq<Seq<usize>>, strong: Seq<bool>) -> Seq<Seq<Option<usize>>> {
    Seq::new(h.len(), |c: int| Seq::new(h.len(), |t: int| dist_entry(h, strong, c, t)))
}

proof fn lemma_cycle_mono(h: Seq<Seq<usize>>, c: int, j: nat, k: nat)
    requires
        j <= k,
        cycle_within(h, c, j),
    ensures
        cycle_within(h, c, k),
{
    let w = choose|w: int| #[trigger] edge(h, c, w) && within(h, w, c, (j - 1) as nat);
    lemma_within_mono(h, w, c, (j - 1) as nat, (k - 1) as nat);
}

proof fn lemma_cycle_len_unique(h: Seq<Seq<usize>>, c: int, j: nat, k: nat)
    requires
        is_cycle_len(h, c, j),
        is_cycle_len(h, c, k),
    ensures
        j == k,
{
    if j < k {
        lemma_cycle_mono(h, c, j, (k - 1) as nat);
    } else if k < j {
        lemma_cycle_mono(h, c, k, (j - 1) as nat);
    }
}

/// The cost table: a row for every crossing, empty but for strong ones.
pub open spec fn cost_rows(h: Seq<Seq<usize>>, strong: Seq<bool>) -> Seq<Seq<Option<usize>>> {
    Seq::new(h.len(), |c: int| Seq::new(h.len(), |t: int| cost_entry(h, strong, c, t)))
}

/// The rows of a table, as sequences.
pub open spec fn table_view(t: Seq<Vec<Option<usize>>>) -> Seq<Seq<Option<usize>>> {
    t.map_values(|r: Vec<Option<usize>>| r@)
}

proof fn lemma_kept_streets(l: Seq<usize>, group: Seq<usize>, strong: Seq<bool>, u: int, w: usize)
    ensures
        kept_streets(l, group, strong, u).contains(w) <==> (l.contains(w) && kept(group, strong, u, w as int)),
        forall|k: int|
            0 <= k < kept_streets(l, group, strong, u).len() ==> l.contains(
                #[trigger] kept_streets(l, group, strong, u)[k],
            ),
    decreases l.len(),
{
    let p = kept_streets(l, group, strong, u);
    if l.len() > 0 {
        let q = kept_streets(l.drop_last(), group, strong, u);
        lemma_kept_streets(l.drop_last(), group, strong, u, w);
        assert(l =~= l.drop_last().push(l.last()));
        assert forall|y: usize| l.drop_last().contains(y) implies l.contains(y) by {
            let i = choose|i: int| 0 <= i < l.drop_last().len() && l.drop_last()[i] == y;
            assert(l[i] == y);
        }
        if l.contains(w) && w != l.last() {
            let i = choose|i: int| 0 <= i < l.len() && l[i] == w;
            assert(l.drop_last()[i] == w);
        }
        if kept(group, strong, u, l.last() as int) {
            assert(p == q.push(l.last()));
            assert(p[q.len() as int] == l.last());
            assert(l[l.len() - 1] == l.last());
            if q.contains(w) {
                let i = choose|i: int| 0 <= i < q.len() && q[i] == w;
                assert(p[i] == w);
            }
            if p.contains(w) && w != l.last() {
                let i = choose|i: int| 0 <= i < p.len() && p[i] == w;
                assert(q[i] == w);
            }
            assert forall|k: int| 0 <= k < p.len() implies l.contains(#[trigger] p[k]) by {
                if k < q.len() {
                    assert(p[k] == q[k]);
                }
            }
        }
    }
}

/// The streets of the cut-down network are the streets of `adj` that count for costs.
pub proof fn lemma_strong_sub_edges(adj: Seq<Seq<usize>>, group: Seq<usize>, strong: Seq<bool>)
    requires
        adj_wf(adj),
        adj.len() <= usize::MAX,
    ensures
        adj_wf(strong_sub(adj, group, strong)),
        strong_sub(adj, group, strong).len() == adj.len(),
        forall|u: int, w: int|
            #[trigger] edge(strong_sub(adj, group, strong), u, w) <==> edge(adj, u, w) && kept(group, strong, u, w),
{
    let h = strong_sub(adj, group, strong);
    assert forall|u: int, k: int| 0 <= u < h.len() && 0 <= k < h[u].len() implies (#[trigger] h[u][k] as int) < h.len() by {
        lemma_kept_streets(adj[u], group, strong, u, 0);
        let i = choose|i: int| 0 <= i < adj[u].len() && adj[u][i] == h[u][k];
    }
    assert forall|u: int, w: int| #[trigger] edge(h, u, w) <==> edge(adj, u, w) && kept(group, strong, u, w) by {
        if 0 <= u < adj.len() && 0 <= w < adj.len() {
            lemma_kept_streets(adj[u], group, strong, u, w as usize);
        }
    }
}

/// In a group whose crossings are all strong, every path of the network from
/// `s` stays in the group and is a path of the cut-down network.
proof fn lemma_strong_group_paths(adj: Seq<Seq<usize>>, group: Seq<usize>, s: int, v: int, k: nat)
    requires
        adj_wf(adj),
        adj.len() <= usize::MAX,
        group.len() == adj.len(),
        0 <= s < adj.len(),
        forall|x: int|
            0 <= x < adj.len() && group[x] == group[s] ==> #[trigger] strong_flags(adj, group)[x],
        within(adj, s, v, k),
    ensures
        0 <= v < adj.len(),
        group[v] == group[s],
        within(strong_sub(adj, group, strong_flags(adj, group)), s, v, k),
    decreases k,
{
    let strong = strong_flags(adj, group);
    let h = strong_sub(adj, group, strong);
    if k > 0 {
        let k1 = (k - 1) as nat;
        if within(adj, s, v, k1) {
            lemma_strong_group_paths(adj, group, s, v, k1);
            lemma_within_mono(h, s, v, k1, k);
        } else {
            let w = lemma_within_last(adj, s, v, k1);
            lemma_strong_group_paths(adj, group, s, w, k1);
            assert(strong[w]);
            assert(is_strong(adj, group, w));
            let i = choose|i: int| 0 <= i < adj[w].len() && adj[w][i] == v as usize;
            assert(group[adj[w][i] as int] == group[w]);
            assert(strong[v]);
            lemma_strong_sub_edges(adj, group, strong);
            assert(edge(h, w, v));
            lemma_within_extend(h, s, w, v, k1);
        }
    }
}

/// Where every crossing of a group is strong, a cost from `c` to `t` in that
/// group comes with a cost from `t` back to `c`.
pub proof fn lemma_cost_has_return(adj: Seq<Seq<usize>>, group: Seq<usize>, c: int, t: int)
    requires
        adj_wf(adj),
        adj.len() <= usize::MAX,
        group.len() == adj.len(),
        forall|u: int, v: int|
            0 <= u < adj.len() && 0 <= v < adj.len() ==> (#[trigger] group[u] == #[trigger] group[v]
                <==> mutual(adj, u, v)),
        0 <= c < adj.len(),
        0 <= t < adj.len(),
        group[c] == group[t],
        forall|x: int|
            0 <= x < adj.len() && group[x] == group[c] ==> #[trigger] strong_flags(adj, group)[x],
        cost_rows(strong_sub(adj, group, strong_flags(adj, group)), strong_flags(adj, group))[c][t] is Some,
    ensures
        cost_rows(strong_sub(adj, group, strong_flags(adj, group)), strong_flags(adj, group))[t][c] is Some,
{
    let strong = strong_flags(adj, group);
    let h = strong_sub(adj, group, strong);
    lemma_strong_sub_edges(adj, group, strong);
    assert(mutual(adj, t, c));
    let k = choose|k: nat| within(adj, t, c, k);
    lemma_strong_group_paths(adj, group, t, c, k);
    assert(strong[t]);
    assert(reaches(h, t, c));
}

/// The network cut down to the streets whose two ends are strong crossings of one group.
pub fn strong_subgraph(g: &Network, group: &Vec<usize>, strong: &Vec<bool>) -> (h: Vec<Vec<usize>>)
    requires
        g.wf(),
        group.len() == g.n(),
        strong.len() == g.n(),
    ensures
        adj_view(h@) == strong_sub(g.outs(), group@, strong@),
{
    let ghost adj = g.outs();
    let n = g.adj_list.len();
    let mut h: Vec<Vec<usize>> = Vec::new();
    while h.len() < n
        invariant
            g.wf(),
            adj == g.outs(),
            n == g.n(),
            group.len() == n,
            strong.len() == n,
            h.len() <= n,
            forall|u: int| 0 <= u < h.len() ==> (#[trigger] h[u])@ == kept_streets(adj[u], group@, strong@, u),
        decreases n - h.len(),
    {
        let u = h.len();
        let nb = &g.adj_list[u];
        assert(nb@ == adj[u as int]);
        let mut row: Vec<usize> = Vec::new();
        let mut j: usize = 0;
        while j < nb.len()
            invariant
                g.wf(),
                adj == g.outs(),
                n == g.n(),
                nb@ == adj[u as int],
                group.len() == n,
                strong.len() == n,
                u < n,
                j <= nb.len(),
                row@ == kept_streets(nb@.take(j as int), group@, strong@, u as int),
            decreases nb.len() - j,
        {
            let w = nb[j];
            assert(adj[u as int][j as int] == w);
            assert(nb@.take(j as int + 1).drop_last() =~= nb@.take(j as int));
            assert(nb@.take(j as int + 1).last() == w);
            if strong[u] && strong[w] && group[u] == group[w] {
                row.push(w);
            }
            j += 1;
        }
        assert(nb@.take(j as int) =~= nb@);
        h.push(row);
    }
    assert(adj_view(h@) =~= strong_sub(adj, group@, strong@));
    h
}

/// The distance table over the cut-down network `h`: for each strong
/// crossing, the least number of streets to every crossing that it reaches.
fn distance_table(h: &Vec<Vec<usize>>, strong: &Vec<bool>) -> (table: Vec<Vec<Option<usize>>>)
    requires
        adj_wf(adj_view(h@)),
        strong.len() == h.len(),
    ensures
        table_view(table@) == dist_rows(adj_view(h@), strong@),
        forall|c: int, t: int|
            0 <= c < table.len() && 0 <= t < table.len() ==> match #[trigger] table@[c]@[t] {
                Some(k) => strong@[c] && is_dist(adj_view(h@), c, t, k as nat),
                None => !(strong@[c] && reaches(adj_view(h@), c, t)),
            },
        table.len() == h.len(),
        forall|c: int| 0 <= c < table.len() ==> (#[trigger] table[c])@.len() == h.len(),
        forall|c: int, t: int|
            0 <= c < table.len() && 0 <= t < table.len() && #[trigger] table@[c]@[t] is Some
                ==> table@[c]@[t]->0 < table.len(),
{
    let ghost hv = adj_view(h@);
    let n = h.len();
    let mut table: Vec<Vec<Option<usize>>> = Vec::new();
    while table.len() < n
        invariant
            hv == adj_view(h@),
            adj_wf(hv),
            n == h.len(),
            strong.len() == n,
            table.len() <= n,
            forall|c: int| 0 <= c < table.len() ==> (#[trigger] table[c])@ == dist_rows(hv, strong@)[c],
            forall|c: int, t: int|
                0 <= c < table.len() && 0 <= t < n ==> match #[trigger] table@[c]@[t] {
                    Some(k) => strong@[c] && is_dist(hv, c, t, k as nat),
                    None => !(strong@[c] && reaches(hv, c, t)),
                },
            forall|c: int| 0 <= c < table.len() ==> (#[trigger] table[c])@.len() == n,
            forall|c: int, t: int|
                0 <= c < table.len() && 0 <= t < n && #[trigger] table@[c]@[t] is Some ==> table@[c]@[t]->0 < n,
        decreases n - table.len(),
    {
        let c = table.len();
        let mut row: Vec<Option<usize>> = Vec::new();
        if strong[c] {
            row = distances(h, c);
            assert forall|t: int| 0 <= t < n implies #[trigger] row@[t] == dist_entry(hv, strong@, c as int, t) by {
                if row@[t] is Some {
                    let k = row@[t]->0 as nat;
                    assert(is_dist(hv, c as int, t, k));
                    assert(reaches(hv, c as int, t));
                    let k2 = choose|k2: nat| is_dist(hv, c as int, t, k2);
                    lemma_dist_unique(hv, c as int, t, k, k2);
                }
            }
        } else {
            while row.len() < n
                invariant
                    row.len() <= n,
                    forall|t: int| 0 <= t < row.len() ==> #[trigger] row@[t] is None,
                decreases n - row.len(),
            {
                row.push(None);
            }
        }
        assert(row@ =~= dist_rows(hv, strong@)[c as int]);
        table.push(row);
    }
    assert(table_view(table@) =~= dist_rows(hv, strong@));
    table
}

/// The cost table over the cut-down network `h`, whose streets join strong
/// crossings: for each strong crossing, the least number of streets (at
/// least one) to every crossing that it reaches in `h`.
pub fn cost_table(h: &Vec<Vec<usize>>, strong: &Vec<bool>) -> (table: Vec<Vec<Option<usize>>>)
    requires
        adj_wf(adj_view(h@)),
        strong.len() == h.len(),
        forall|u: int, w: int| #[trigger] edge(adj_view(h@), u, w) ==> strong@[u] && strong@[w],
    ensures
        table_view(table@) == cost_rows(adj_view(h@), strong@),
        table.len() == h.len(),
        forall|c: int| 0 <= c < table.len() ==> (#[trigger] table[c])@.len() == h.len(),
        forall|c: int, t: int|
            0 <= c < table.len() && 0 <= t < table.len() && #[trigger] table@[c]@[t] is Some
                ==> table@[c]@[t]->0 <= table.len(),
{
    let ghost hv = adj_view(h@);
    let n = h.len();
    let dists = distance_table(h, strong);
    let ghost dv = table_view(dists@);
    let mut cycles: Vec<Option<usize>> = Vec::new();
    while cycles.len() < n
        invariant
            hv == adj_view(h@),
            adj_wf(hv),
            n == h.len(),
            strong.len() == n,
            dists.len() == n,
            dv == table_view(dists@),
            forall|c: int| 0 <= c < n ==> (#[trigger] dists[c])@.len() == n,
            forall|u: int, w: int| #[trigger] edge(hv, u, w) ==> strong@[u] && strong@[w],
            forall|c: int, t: int|
                0 <= c < n && 0 <= t < n ==> match #[trigger] dists@[c]@[t] {
                    Some(k) => strong@[c] && is_dist(hv, c, t, k as nat),
                    None => !(strong@[c] && reaches(hv, c, t)),
                },
            forall|c: int, t: int|
                0 <= c < n && 0 <= t < n && #[trigger] dists@[c]@[t] is Some ==> dists@[c]@[t]->0 < n,
            cycles.len() <= n,
            forall|c: int| 0 <= c < cycles.len() ==> #[trigger] cycles@[c] == cost_entry(hv, strong@, c, c),
            forall|c: int| 0 <= c < cycles.len() && #[trigger] cycles@[c] is Some ==> cycles@[c]->0 <= n,
        decreases n - cycles.len(),
    {
        let c = cycles.len();
        let mut best: Option<usize> = None;
        if strong[c] {
            let nb = &h[c];
            assert(nb@ == hv[c as int]);
            let mut j: usize = 0;
            while j < nb.len()
                invariant
                    hv == adj_view(h@),
                    adj_wf(hv),
                    n == h.len(),
                    dists.len() == n,
                    c < n,
                    nb@ == hv[c as int],
                    forall|x: int| 0 <= x < n ==> (#[trigger] dists[x])@.len() == n,
                    forall|u: int, w: int| #[trigger] edge(hv, u, w) ==> strong@[u] && strong@[w],
                    forall|x: int, t: int|
                        0 <= x < n && 0 <= t < n ==> match #[trigger] dists@[x]@[t] {
                            Some(k) => strong@[x] && is_dist(hv, x, t, k as nat),
                            None => !(strong@[x] && reaches(hv, x, t)),
                        },
                    forall|x: int, t: int|
                        0 <= x < n && 0 <= t < n && #[trigger] dists@[x]@[t] is Some ==> dists@[x]@[t]->0 < n,
                    j <= nb.len(),
                    best is Some ==> cycle_within(hv, c as int, best->0 as nat) && best->0 <= n,
                    forall|m: int|
                        0 <= m < j && #[trigger] dists@[nb[m] as int]@[c as int] is Some ==> best is Some
                            && best->0 <= dists@[nb[m] as int]@[c as int]->0 + 1,
                decreases nb.len() - j,
            {
                let w = nb[j];
                assert(hv[c as int][j as int] == w);
                if let Some(d) = dists[w][c] {
                    assert(dists@[w as int]@[c as int] == Some(d));
                    assert(edge(hv, c as int, w as int));
                    assert(within(hv, w as int, c as int, d as nat));
                    let better = match best {
                        Some(b) => d + 1 < b,
                        None => true,
                    };
                    if better {
                        best = Some(d + 1);
                    }
                }
                j += 1;
            }
            proof {
                match best {
                    Some(k) => {
                        if cycle_within(hv, c as int, (k - 1) as nat) {
                            let w = choose|w: int| #[trigger] edge(hv, c as int, w) && within(hv, w, c as int, (k - 2) as nat);
                            let m = choose|m: int| 0 <= m < nb.len() && nb[m] == w as usize;
                            assert(reaches(hv, w, c as int));
                            let d = dists@[w]@[c as int]->0;
                            lemma_dist_le(hv, w, c as int, d as nat, (k - 2) as nat);
                        }
                        assert(is_cycle_len(hv, c as int, k as nat));
                        let k2 = choose|k2: nat| is_cycle_len(hv, c as int, k2);
                        lemma_cycle_len_unique(hv, c as int, k as nat, k2);
                    },
                    None => {
                        if exists|k: nat| cycle_within(hv, c as int, k) {
                            let k = choose|k: nat| cycle_within(hv, c as int, k);
                            let w = choose|w: int| #[trigger] edge(hv, c as int, w) && within(hv, w, c as int, (k - 1) as nat);
                            let m = choose|m: int| 0 <= m < nb.len() && nb[m] == w as usize;
                            assert(reaches(hv, w, c as int));
                            assert(dists@[nb[m] as int]@[c as int] is Some);
                        }
                    },
                }
            }
        }
        cycles.push(best);
    }
    let mut table = dists;
    let mut c: usize = 0;
    while c < n
        invariant
            hv == adj_view(h@),
            n == h.len(),
            table.len() == n,
            cycles.len() == n,
            c <= n,
            forall|x: int| 0 <= x < n ==> (#[trigger] table[x])@.len() == n,
            forall|x: int| 0 <= x < n ==> #[trigger] cycles@[x] == cost_entry(hv, strong@, x, x),
            forall|x: int| 0 <= x < n && #[trigger] cycles@[x] is Some ==> cycles@[x]->0 <= n,
            forall|x: int, t: int|
                0 <= x < n && 0 <= t < n && (x >= c || t != x) ==> #[trigger] table@[x]@[t] == dv[x][t],
            forall|x: int, t: int| 0 <= x < c && 0 <= t < n && t == x ==> #[trigger] table@[x]@[t] == cycles@[x],
            forall|x: int, t: int|
                0 <= x < n && 0 <= t < n && #[trigger] dv[x][t] is Some ==> dv[x][t]->0 < n,
            dv == dist_rows(hv, strong@),
        decreases n - c,
    {
        let x = cycles[c];
        table[c].set(c, x);
        c += 1;
    }
    assert forall|x: int| 0 <= x < n implies #[trigger] table_view(table@)[x] =~= cost_rows(hv, strong@)[x] by {
        assert forall|t: int| 0 <= t < n implies table@[x]@[t] == cost_rows(hv, strong@)[x][t] by {
            if t != x {
                assert(table@[x]@[t] == dv[x][t]);
            } else {
                assert(table@[x]@[t] == cycles@[x]);
            }
        }
    }
    assert(table_view(table@) =~= cost_rows(hv, strong@));
    assert forall|x: int, t: int|
        0 <= x < n && 0 <= t < n && #[trigger] table@[x]@[t] is Some implies table@[x]@[t]->0 <= n by {
        if t != x {
            assert(table@[x]@[t] == dv[x][t]);
        } else {
            assert(table@[x]@[t] == cycles@[x]);
        }
    }
    table
}

impl Network {
    /// The cost table of the network: for each strong crossing, the least
    /// number of streets to every crossing that it reaches along streets
    /// whose two ends are strong crossings of its group.
    pub fn compute_cost(&self, group: &Vec<usize>, strong: &Vec<bool>) -> (table: Vec<Vec<Option<usize>>>)
        requires
            self.wf(),
            group.len() == self.n(),
            strong.len() == self.n(),
        ensures
            table_view(table@) == cost_rows(strong_sub(self.outs(), group@, strong@), strong@),
            table.len() == self.n(),
            forall|c: int| 0 <= c < table.len() ==> (#[trigger] table[c])@.len() == self.n(),
            forall|c: int, t: int|
                0 <= c < table.len() && 0 <= t < table.len() && #[trigger] table@[c]@[t] is Some
                    ==> table@[c]@[t]->0 <= table.len(),
    {
        let h = strong_subgraph(self, group, strong);
        proof {
            lemma_strong_sub_edges(self.outs(), group@, strong@);
        }
        cost_table(&h, strong)
    }
}

} // verus!
