//! The street network: crossings `0..n` and one-way streets between them,
//! held as out-neighbour lists and, for the same streets, in-neighbour lists.
use vstd::prelude::*;
use crate::reach::{adj_view, adj_wf, edge, is_reverse};

verus! {

/// Why a list of streets does not describe a network.
#[derive(Debug, Clone, Copy, PartialEq, Eq)]
pub enum GraphError {
    /// The street at this position names a crossing outside `0..n`.
    CrossingOutOfRange(usize),
}

/// Crossings `0..num_crossings` with their streets in both directions.
pub struct Network {
    pub num_crossings: usize,
    /// Out-neighbours of each crossing.
    pub adj_list: Vec<Vec<usize>>,
    /// In-neighbours of each crossing.
    pub target_list: Vec<Vec<usize>>,
}

/// The out-neighbour lists that the streets give, in order.
pub open spec fn street_lists(n: nat, streets: Seq<(usize, usize)>) -> Seq<Seq<usize>>
    decreases streets.len(),
{
    if streets.len() == 0 {
        Seq::new(n, |u: int| Seq::<usize>::empty())
    } else {
        let p = street_lists(n, streets.drop_last());
        let (from, to) = streets.last();
        p.update(from as int, p[from as int].push(to))
    }
}

/// The in-neighbour lists that the streets give, in order.
pub open spec fn street_in_lists(n: nat, streets: Seq<(usize, usize)>) -> Seq<Seq<usize>>
    decreases streets.len(),
{
    if streets.len() == 0 {
        Seq::new(n, |u: int| Seq::<usize>::empty())
    } else {
        let p = street_in_lists(n, streets.drop_last());
        let (from, to) = streets.last();
        p.update(to as int, p[to as int].push(from))
    }
}

/// Every street joins two crossings of `0..n`.
pub open spec fn streets_in_range(n: nat, streets: Seq<(usize, usize)>) -> bool {
    forall|i: int| 0 <= i < streets.len() ==> (#[trigger] streets[i]).0 < n && streets[i].1 < n
}

proof fn lemma_push_contains(s: Seq<usize>, x: usize, y: usize)
    ensures
        s.push(x).contains(y) <==> (s.contains(y) || x == y),
{
    if s.push(x).contains(y) && x != y {
        let i = choose|i: int| 0 <= i < s.push(x).len() && s.push(x)[i] == y;
        assert(s[i] == y);
    }
    if s.contains(y) {
        let i = choose|i: int| 0 <= i < s.len() && s[i] == y;
        assert(s.push(x)[i] == y);
    }
    assert(s.push(x)[s.len() as int] == x);
}

impl Network {
    /// Out-neighbours of each crossing.
    pub open spec fn outs(&self) -> Seq<Seq<usize>> {
        adj_view(self.adj_list@)
    }

    /// In-neighbours of each crossing.
    pub open spec fn ins(&self) -> Seq<Seq<usize>> {
        adj_view(self.target_list@)
    }

    /// Number of crossings.
    pub open spec fn n(&self) -> nat {
        self.adj_list@.len()
    }

    /// Both views hold crossings of the network, and the same streets.
    pub open spec fn wf(&self) -> bool {
        &&& self.num_crossings == self.adj_list@.len()
        &&& adj_wf(self.outs())
        &&& adj_wf(self.ins())
        &&& is_reverse(self.outs(), self.ins())
    }

    /// The network with the given out- and in-neighbour lists, which must
    /// hold the same streets.
    pub fn new(adj_list: Vec<Vec<usize>>, target_list: Vec<Vec<usize>>, num_crossings: usize) -> (g: Network)
        requires
            adj_list.len() == num_crossings,
            adj_wf(adj_view(adj_list@)),
            adj_wf(adj_view(target_list@)),
            is_reverse(adj_view(adj_list@), adj_view(target_list@)),
        ensures
            g.wf(),
            g.adj_list@ == adj_list@,
            g.target_list@ == target_list@,
            g.n() == num_crossings,
    {
        Network { num_crossings, adj_list, target_list }
    }

    /// `n` crossings and no street.
    pub fn empty(n: usize) -> (g: Network)
        ensures
            g.wf(),
            g.n() == n,
            g.outs() == street_lists(n as nat, Seq::empty()),
            g.ins() == street_in_lists(n as nat, Seq::empty()),
    {
        let mut adj_list: Vec<Vec<usize>> = Vec::new();
        let mut target_list: Vec<Vec<usize>> = Vec::new();
        while adj_list.len() < n
            invariant
                adj_list.len() <= n,
                target_list.len() == adj_list.len(),
                forall|u: int| 0 <= u < adj_list.len() ==> (#[trigger] adj_list[u])@.len() == 0,
                forall|u: int| 0 <= u < target_list.len() ==> (#[trigger] target_list[u])@.len() == 0,
            decreases n - adj_list.len(),
        {
            adj_list.push(Vec::new());
            target_list.push(Vec::new());
        }
        let g = Network { num_crossings: n, adj_list, target_list };
        assert(g.outs() =~~= street_lists(n as nat, Seq::empty()));
        assert(g.ins() =~~= street_in_lists(n as nat, Seq::empty()));
        assert forall|u: int, v: int| #[trigger] edge(g.outs(), u, v) <==> #[trigger] edge(g.ins(), v, u) by {
            if edge(g.outs(), u, v) {
                assert(g.outs()[u].len() == 0);
            }
            if edge(g.ins(), v, u) {
                assert(g.ins()[v].len() == 0);
            }
        }
        g
    }

    /// Adds the street `from -> to`.
    pub fn add_street(&mut self, from: usize, to: usize)
        requires
            old(self).wf(),
            from < old(self).n(),
            to < old(self).n(),
        ensures
            final(self).wf(),
            final(self).n() == old(self).n(),
            final(self).outs() == old(self).outs().update(
                from as int,
                old(self).outs()[from as int].push(to),
            ),
            final(self).ins() == old(self).ins().update(to as int, old(self).ins()[to as int].push(from)),
    {
        let ghost o = self.outs();
        let ghost i = self.ins();
        self.adj_list[from].push(to);
        self.target_list[to].push(from);
        assert(self.outs() =~= o.update(from as int, o[from as int].push(to)));
        assert(self.ins() =~= i.update(to as int, i[to as int].push(from)));
        proof {
            lemma_push_contains(o[from as int], to, to);
            lemma_push_contains(i[to as int], from, from);
            assert forall|u: int, v: int| #[trigger] edge(self.outs(), u, v) <==> #[trigger] edge(self.ins(), v, u) by {
                if 0 <= u < o.len() && 0 <= v < o.len() {
                    assert(o.len() == self.adj_list.len());
                    assert(edge(o, u, v) <==> edge(i, v, u));
                    if u == from {
                        lemma_push_contains(o[from as int], to, v as usize);
                    } else {
                        assert(self.outs()[u] == o[u]);
                    }
                    if v == to {
                        lemma_push_contains(i[to as int], from, u as usize);
                    } else {
                        assert(self.ins()[v] == i[v]);
                    }
                    assert(edge(self.outs(), u, v) <==> (edge(o, u, v) || (u == from && v == to)));
                    assert(edge(self.ins(), v, u) <==> (edge(i, v, u) || (u == from && v == to)));
                }
            }
            assert forall|u: int, k: int|
                0 <= u < self.outs().len() && 0 <= k < self.outs()[u].len() implies (
                #[trigger] self.outs()[u][k] as int) < self.outs().len() by {
                if u == from && k == o[u].len() {
                } else {
                    assert(self.outs()[u][k] == o[u][k]);
                }
            }
            assert forall|u: int, k: int|
                0 <= u < self.ins().len() && 0 <= k < self.ins()[u].len() implies (
                #[trigger] self.ins()[u][k] as int) < self.ins().len() by {
                if u == to && k == i[u].len() {
                } else {
                    assert(self.ins()[u][k] == i[u][k]);
                }
            }
        }
    }

    /// The network of `n` crossings and the given streets, or the position of
    /// the first street that names a crossing outside `0..n`.
    pub fn from_streets(n: usize, streets: &Vec<(usize, usize)>) -> (r: Result<Network, GraphError>)
        ensures
            match r {
                Ok(g) => streets_in_range(n as nat, streets@) && g.wf() && g.n() == n && g.outs()
                    == street_lists(n as nat, streets@) && g.ins() == street_in_lists(n as nat, streets@),
                Err(GraphError::CrossingOutOfRange(i)) => i < streets.len() && !(streets[i as int].0
                    < n && streets[i as int].1 < n) && streets_in_range(
                    n as nat,
                    streets@.take(i as int),
                ),
            },
    {
        let mut g = Network::empty(n);
        let mut i: usize = 0;
        while i < streets.len()
            invariant
                g.wf(),
                g.n() == n,
                i <= streets.len(),
                streets_in_range(n as nat, streets@.take(i as int)),
                g.outs() == street_lists(n as nat, streets@.take(i as int)),
                g.ins() == street_in_lists(n as nat, streets@.take(i as int)),
            decreases streets.len() - i,
        {
            let (from, to) = streets[i];
            if from >= n || to >= n {
                return Err(GraphError::CrossingOutOfRange(i));
            }
            proof {
                let t = streets@.take(i as int + 1);
                assert(t.drop_last() =~= streets@.take(i as int));
                assert(t.last() == (from, to));
                lemma_street_lists_len(n as nat, streets@.take(i as int));
            }
            g.add_street(from, to);
            i += 1;
        }
        assert(streets@.take(i as int) =~= streets@);
        Ok(g)
    }
}

proof fn lemma_street_lists_len(n: nat, streets: Seq<(usize, usize)>)
    requires
        streets_in_range(n, streets),
    ensures
        street_lists(n, streets).len() == n,
    decreases streets.len(),
{
    if streets.len() > 0 {
        assert(streets_in_range(n, streets.drop_last()));
        lemma_street_lists_len(n, streets.drop_last());
    }
}

} // verus!
