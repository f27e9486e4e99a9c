//! The whole analysis of a network, stage by stage.
use vstd::prelude::*;
use crate::classify::{strong_counts, strong_counts_of, strong_crossings, strong_flags};
use crate::cost::{cost_rows, strong_sub, table_view};
use crate::graph::{street_lists, Network};
use crate::groups::group_ids;
use crate::select::{rank_of, AnalysisError, Output};

verus! {

/// The ranking of the network whose out-neighbour lists are `adj`.
pub open spec fn ranking_of(adj: Seq<Seq<usize>>) -> Result<Output, AnalysisError> {
    let group = group_ids(adj);
    let strong = strong_flags(adj, group);
    let counts = strong_counts_of(group, strong);
    let table = cost_rows(strong_sub(adj, group, strong), strong);
    rank_of(group, strong, counts, table)
}

impl Network {
    /// Groups, strong crossings, costs and ranking of the network.
    pub fn run(&self) -> (r: Result<Output, AnalysisError>)
        requires
            self.wf(),
            3 * self.n() * self.n() <= usize::MAX,
        ensures
            r == ranking_of(self.outs()),
    {
        // Any naming of the groups gives the same ranking; the least crossing
        // of each group is used here.
        let group = self.group_roots();
        let strong = strong_crossings(self, &group);
        let counts = strong_counts(&group, &strong);
        let table = self.compute_cost(&group, &strong);
        assert(table@.map_values(|r: Vec<Option<usize>>| r@) == table_view(table@));
        self.max_variability_min_cost(&group, &strong, &counts, &table)
    }
}

/// The analysis depends on the streets alone: two networks built from the
/// same streets get the same ranking, so running it twice gives the same
/// output.
pub proof fn lemma_analysis_repeatable(n: nat, streets: Seq<(usize, usize)>, g1: &Network, g2: &Network)
    requires
        g1.outs() == street_lists(n, streets),
        g2.outs() == street_lists(n, streets),
    ensures
        ranking_of(g1.outs()) == ranking_of(g2.outs()),
{
}

} // verus!
