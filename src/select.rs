//! The ranking: among the crossings of greatest variability that are strong,
//! those of least round-trip cost.
use vstd::prelude::*;
use crate::classify::variability_of;
use crate::graph::Network;

verus! {

/// The outcome of the analysis.
#[derive(Debug, Clone, Copy, PartialEq, Eq)]
pub struct Output {
    /// How many candidates reach the least round-trip cost.
    pub num_prospective_crossings: usize,
    /// The greatest variability of any crossing.
    pub variability: usize,
    /// The least round-trip cost of a candidate, or 0 where there is none.
    pub cost: usize,
}

/// Why no ranking could be given.
#[derive(Debug, Clone, Copy, PartialEq, Eq)]
pub enum AnalysisError {
    /// A candidate has a cost to some strong crossing, but that crossing has
    /// no cost back to the candidate.
    MissingReturnCost,
}

/// The variability of crossing `v`.
pub open spec fn var_at(group: Seq<usize>, counts: Seq<usize>, v: int) -> int {
    variability_of(counts[group[v] as int] as int)
}

/// The greatest variability among the crossings `0..k` (0 where `k` is 0).
pub open spec fn max_var(group: Seq<usize>, counts: Seq<usize>, k: int) -> int
    decreases k,
{
    if k <= 0 {
        0
    } else {
        let m = max_var(group, counts, k - 1);
        let x = var_at(group, counts, k - 1);
        if x > m {
            x
        } else {
            m
        }
    }
}

/// A strong crossing of greatest variability.
pub open spec fn is_candidate(group: Seq<usize>, strong: Seq<bool>, counts: Seq<usize>, c: int) -> bool {
    strong[c] && var_at(group, counts, c) == max_var(group, counts, group.len() as int)
}

/// What the trip between `c` and another strong crossing `t` adds to the
/// round-trip cost of `c`: twice the way out plus the way back.
pub open spec fn trip_term(table: Seq<Seq<Option<usize>>>, strong: Seq<bool>, c: int, t: int) -> int {
    if t != c && strong[t] && table[c][t] is Some {
        2 * table[c][t]->0 + match table[t][c] {
            Some(b) => b as int,
            None => 0,
        }
    } else {
        0
    }
}

/// The round-trip cost of `c` over the targets `0..k`.
pub open spec fn trip_sum(table: Seq<Seq<Option<usize>>>, strong: Seq<bool>, c: int, k: int) -> int
    decreases k,
{
    if k <= 0 {
        0
    } else {
        trip_sum(table, strong, c, k - 1) + trip_term(table, strong, c, k - 1)
    }
}

/// `c` has a cost to the strong crossing `t`, and `t` none back.
pub open spec fn lacks_return(table: Seq<Seq<Option<usize>>>, strong: Seq<bool>, c: int, t: int) -> bool {
    t != c && strong[t] && table[c][t] is Some && table[t][c] is None
}

/// The least round-trip cost among the candidates `0..k`, if any.
pub open spec fn min_trip(
    group: Seq<usize>,
    strong: Seq<bool>,
    counts: Seq<usize>,
    table: Seq<Seq<Option<usize>>>,
    k: int,
) -> Option<int>
    decreases k,
{
    if k <= 0 {
        None
    } else {
        let m = min_trip(group, strong, counts, table, k - 1);
        if is_candidate(group, strong, counts, k - 1) {
            let s = trip_sum(table, strong, k - 1, group.len() as int);
            match m {
                Some(x) => Some(if s < x { s } else { x }),
                None => Some(s),
            }
        } else {
            m
        }
    }
}

/// How many of the candidates `0..k` have round-trip cost `m`.
pub open spec fn count_at(
    group: Seq<usize>,
    strong: Seq<bool>,
    counts: Seq<usize>,
    table: Seq<Seq<Option<usize>>>,
    k: int,
    m: int,
) -> nat
    decreases k,
{
    if k <= 0 {
        0
    } else {
        count_at(group, strong, counts, table, k - 1, m) + if is_candidate(group, strong, counts, k - 1)
            && trip_sum(table, strong, k - 1, group.len() as int) == m {
            1nat
        } else {
            0nat
        }
    }
}

/// The ranking that the groups, strong flags, strong counts and cost table give.
pub open spec fn rank_of(
    group: Seq<usize>,
    strong: Seq<bool>,
    counts: Seq<usize>,
    table: Seq<Seq<Option<usize>>>,
) -> Result<Output, AnalysisError> {
    let n = group.len() as int;
    if exists|c: int, t: int|
        0 <= c < n && 0 <= t < n && is_candidate(group, strong, counts, c) && #[trigger] lacks_return(
            table,
            strong,
            c,
            t,
        ) {
        Err(AnalysisError::MissingReturnCost)
    } else {
        let m = match min_trip(group, strong, counts, table, n) {
            Some(x) => x,
            None => 0,
        };
        Ok(
            Output {
                num_prospective_crossings: count_at(group, strong, counts, table, n, m) as usize,
                variability: max_var(group, counts, n) as usize,
                cost: m as usize,
            },
        )
    }
}

/// A crossing whose group holds no strong crossing has variability 0, never
/// a negative one; and a crossing that is not strong is never a candidate.
pub proof fn lemma_empty_group_variability(
    group: Seq<usize>,
    strong: Seq<bool>,
    counts: Seq<usize>,
    v: int,
)
    requires
        0 <= v < group.len(),
        strong.len() == group.len(),
    ensures
        var_at(group, counts, v) >= 0,
        counts[group[v] as int] == 0 ==> var_at(group, counts, v) == 0,
        !strong[v] ==> !is_candidate(group, strong, counts, v),
{
}

/// The ranking fails exactly when a candidate has a cost to a strong
/// crossing with no cost back; otherwise it is given.
pub proof fn lemma_ranking_fails_iff_missing_return(
    group: Seq<usize>,
    strong: Seq<bool>,
    counts: Seq<usize>,
    table: Seq<Seq<Option<usize>>>,
)
    ensures
        rank_of(group, strong, counts, table) is Err <==> exists|c: int, t: int|
            0 <= c < group.len() && 0 <= t < group.len() && is_candidate(group, strong, counts, c)
                && #[trigger] lacks_return(table, strong, c, t),
{
}

proof fn lemma_min_trip_bound(
    group: Seq<usize>,
    strong: Seq<bool>,
    counts: Seq<usize>,
    table: Seq<Seq<Option<usize>>>,
    k: int,
)
    ensures
        match min_trip(group, strong, counts, table, k) {
            Some(m) => forall|c: int|
                0 <= c < k && #[trigger] is_candidate(group, strong, counts, c) ==> trip_sum(
                    table,
                    strong,
                    c,
                    group.len() as int,
                ) >= m,
            None => forall|c: int| 0 <= c < k ==> !#[trigger] is_candidate(group, strong, counts, c),
        },
    decreases k,
{
    if k > 0 {
        lemma_min_trip_bound(group, strong, counts, table, k - 1);
    }
}

proof fn lemma_count_none_below(
    group: Seq<usize>,
    strong: Seq<bool>,
    counts: Seq<usize>,
    table: Seq<Seq<Option<usize>>>,
    k: int,
    s: int,
)
    requires
        forall|c: int|
            0 <= c < k && #[trigger] is_candidate(group, strong, counts, c) ==> trip_sum(
                table,
                strong,
                c,
                group.len() as int,
            ) > s,
    ensures
        count_at(group, strong, counts, table, k, s) == 0,
    decreases k,
{
    if k > 0 {
        lemma_count_none_below(group, strong, counts, table, k - 1, s);
    }
}

proof fn lemma_max_var_ge(group: Seq<usize>, counts: Seq<usize>, k: int)
    ensures
        max_var(group, counts, k) >= 0,
    decreases k,
{
    if k > 0 {
        lemma_max_var_ge(group, counts, k - 1);
    }
}

impl Network {

    /// Picks the ranking from the groups, strong flags, strong counts and cost
    /// table of the network.
    pub fn max_variability_min_cost(
        &self,
        group: &Vec<usize>,
        strong: &Vec<bool>,
        counts: &Vec<usize>,
        table: &Vec<Vec<Option<usize>>>,
    ) -> (r: Result<Output, AnalysisError>)
        requires
            group.len() == self.n(),
            strong.len() == group.len(),
            table.len() == group.len(),
            forall|v: int| 0 <= v < group.len() ==> #[trigger] group[v] < counts.len(),
            forall|c: int| 0 <= c < table.len() ==> (#[trigger] table[c])@.len() == group.len(),
            forall|c: int, t: int|
                0 <= c < table.len() && 0 <= t < table.len() && #[trigger] table@[c]@[t] is Some
                    ==> table@[c]@[t]->0 <= table.len(),
            3 * group.len() * group.len() <= usize::MAX,
        ensures
            r == rank_of(group@, strong@, counts@, table@.map_values(|r: Vec<Option<usize>>| r@)),
    {
        let ghost tv = table@.map_values(|r: Vec<Option<usize>>| r@);
        let n = group.len();
        let mut best: usize = 0;
        let mut v: usize = 0;
        while v < n
            invariant
                n == group.len(),
                forall|x: int| 0 <= x < group.len() ==> #[trigger] group[x] < counts.len(),
                v <= n,
                best as int == max_var(group@, counts@, v as int),
            decreases n - v,
        {
            let c = counts[group[v]];
            let x: usize = if c == 0 { 0 } else { c - 1 };
            if x > best {
                best = x;
            }
            v += 1;
        }
        let mut min_cost: Option<usize> = None;
        let mut count: usize = 0;
        let mut c: usize = 0;
        while c < n
            invariant
                n == group.len(),
                strong.len() == n,
                table.len() == n,
                tv == table@.map_values(|r: Vec<Option<usize>>| r@),
                forall|x: int| 0 <= x < n ==> #[trigger] group[x] < counts.len(),
                forall|x: int| 0 <= x < n ==> (#[trigger] table[x])@.len() == n,
                forall|x: int, t: int|
                    0 <= x < n && 0 <= t < n && #[trigger] table@[x]@[t] is Some ==> table@[x]@[t]->0 <= n,
                3 * n * n <= usize::MAX,
                best as int == max_var(group@, counts@, n as int),
                c <= n,
                forall|x: int, t: int|
                    0 <= x < c && 0 <= t < n && is_candidate(group@, strong@, counts@, x) ==> !#[trigger] lacks_return(
                        tv,
                        strong@,
                        x,
                        t,
                    ),
                match min_trip(group@, strong@, counts@, tv, c as int) {
                    Some(m) => min_cost == Some(m as usize) && m == min_cost->0 as int && count as int == count_at(
                        group@,
                        strong@,
                        counts@,
                        tv,
                        c as int,
                        m,
                    ),
                    None => min_cost is None && count == 0,
                },
                count <= c,
            decreases n - c,
        {
            let g = counts[group[c]];
            let x: usize = if g == 0 { 0 } else { g - 1 };
            if strong[c] && x == best {
                assert(is_candidate(group@, strong@, counts@, c as int));
                let row = &table[c];
                let mut sum: usize = 0;
                let mut t: usize = 0;
                while t < n
                    invariant
                        n == group.len(),
                        strong.len() == n,
                        table.len() == n,
                        tv == table@.map_values(|r: Vec<Option<usize>>| r@),
                        forall|y: int| 0 <= y < n ==> (#[trigger] table[y])@.len() == n,
                        forall|y: int, z: int|
                            0 <= y < n && 0 <= z < n && #[trigger] table@[y]@[z] is Some ==> table@[y]@[z]->0 <= n,
                        3 * n * n <= usize::MAX,
                        c < n,
                        row@ == tv[c as int],
                        is_candidate(group@, strong@, counts@, c as int),
                        t <= n,
                        sum as int == trip_sum(tv, strong@, c as int, t as int),
                        sum <= 3 * n * t,
                        forall|z: int| 0 <= z < t ==> !#[trigger] lacks_return(tv, strong@, c as int, z),
                    decreases n - t,
                {
                    if t != c && strong[t] {
                        if let Some(out) = row[t] {
                            assert(table@[c as int]@[t as int] is Some);
                            match table[t][c] {
                                Some(back) => {
                                    assert(table@[t as int]@[c as int] is Some);
                                    assert(out <= n && back <= n);
                                    assert(sum + 2 * out + back <= 3 * n * (t + 1) && 3 * n * (t + 1) <= 3 * n * n)
                                        by (nonlinear_arith)
                                        requires
                                            sum <= 3 * n * t,
                                            out <= n,
                                            back <= n,
                                            t < n,
                                    ;
                                    sum = sum + 2 * out + back;
                                },
                                None => {
                                    assert(lacks_return(tv, strong@, c as int, t as int));
                                    return Err(AnalysisError::MissingReturnCost);
                                },
                            }
                        }
                    }
                    assert(3 * n * t <= 3 * n * (t + 1)) by (nonlinear_arith);
                    t += 1;
                }
                proof {
                    lemma_min_trip_bound(group@, strong@, counts@, tv, c as int);
                }
                match min_cost {
                    None => {
                        proof {
                            lemma_count_none_below(group@, strong@, counts@, tv, c as int, sum as int);
                        }
                        min_cost = Some(sum);
                        count = 1;
                    },
                    Some(m) => {
                        if sum < m {
                            proof {
                                lemma_count_none_below(group@, strong@, counts@, tv, c as int, sum as int);
                            }
                            min_cost = Some(sum);
                            count = 1;
                        } else if sum == m {
                            count = count + 1;
                        }
                    },
                }
            }
            c += 1;
        }
        let cost: usize = match min_cost {
            Some(m) => m,
            None => 0,
        };
        proof {
            lemma_max_var_ge(group@, counts@, n as int);
            if min_cost is None {
                lemma_min_trip_bound(group@, strong@, counts@, tv, n as int);
                lemma_count_none_below(group@, strong@, counts@, tv, n as int, 0);
            }
        }
        Ok(Output { num_prospective_crossings: count, variability: best, cost })
    }

}

} // verus!
