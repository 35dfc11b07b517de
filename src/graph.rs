//! The unit graph: an arena of units with integer dependency edges, and a
//! dependency-first order over it.
use crate::fingerprint::UnitDesc;
use vstd::prelude::*;

verus! {

/// Units of one invocation; `deps[u]` lists the units that unit `u` depends on.
pub struct UnitGraph {
    pub units: Vec<UnitDesc>,
    pub deps: Vec<Vec<usize>>,
}

impl UnitGraph {
    /// The dependency lists as sequences of unit indices.
    pub open spec fn dep_lists(&self) -> Seq<Seq<usize>> {
        self.deps@.map_values(|v: Vec<usize>| v@)
    }

    /// Every unit has a dependency list and every edge names a unit of the graph.
    pub open spec fn wf(&self) -> bool {
        &&& self.deps@.len() == self.units@.len()
        &&& edges_in_range(self.units@.len(), self.dep_lists())
    }
}

/// Every edge of `deps` names one of the `n` units.
pub open spec fn edges_in_range(n: nat, deps: Seq<Seq<usize>>) -> bool {
    forall|u: int, k: int|
        0 <= u < deps.len() && 0 <= k < deps[u].len() ==> #[trigger] deps[u][k] < n
}

/// `o` lists each of the `n` units exactly once, and every dependency of a unit
/// comes before the unit.
pub open spec fn is_topo_order(n: nat, deps: Seq<Seq<usize>>, o: Seq<usize>) -> bool {
    &&& o.no_duplicates()
    &&& forall|j: int| 0 <= j < o.len() ==> #[trigger] o[j] < n
    &&& forall|u: usize| u < n ==> #[trigger] o.contains(u)
    &&& deps_come_first(deps, o)
}

/// Unit `d` stands in `o` before position `j`.
pub open spec fn listed_before(o: Seq<usize>, j: int, d: usize) -> bool {
    exists|i: int| 0 <= i < j && o[i] == d
}

/// Every dependency of each unit listed in `o` is listed before it.
pub open spec fn deps_come_first(deps: Seq<Seq<usize>>, o: Seq<usize>) -> bool {
    forall|j: int, k: int|
        0 <= j < o.len() && 0 <= k < deps[o[j] as int].len() ==> #[trigger] listed_before(
            o,
            j,
            deps[o[j] as int][k],
        )
}

proof fn lemma_push_keeps_deps_first(deps: Seq<Seq<usize>>, o: Seq<usize>, u: usize)
    requires
        deps_come_first(deps, o),
        forall|k: int| 0 <= k < deps[u as int].len() ==> o.contains(#[trigger] deps[u as int][k]),
    ensures
        deps_come_first(deps, o.push(u)),
{
    let o2 = o.push(u);
    assert forall|j: int, k: int|
        0 <= j < o2.len() && 0 <= k < deps[o2[j] as int].len() implies #[trigger] listed_before(
        o2,
        j,
        deps[o2[j] as int][k],
    ) by {
        if j < o.len() {
            assert(o2[j] == o[j]);
            assert(listed_before(o, j, deps[o[j] as int][k]));
            let i = choose|i: int| 0 <= i < j && o[i] == deps[o[j] as int][k];
            assert(o2[i] == o[i]);
        } else {
            let d = deps[u as int][k];
            assert(o.contains(d));
            let i = choose|i: int| 0 <= i < o.len() && o[i] == d;
            assert(o2[i] == o[i]);
        }
    }
}

/// The units have some dependency-first order, that is, the graph has no cycle.
pub open spec fn is_acyclic(n: nat, deps: Seq<Seq<usize>>) -> bool {
    exists|o: Seq<usize>| is_topo_order(n, deps, o)
}

/// Every unit that is not placed has a dependency that is not placed either.
pub open spec fn stuck(n: nat, deps: Seq<Seq<usize>>, placed: Seq<bool>) -> bool {
    forall|u: int|
        0 <= u < n && !#[trigger] placed[u] ==> exists|k: int|
            0 <= k < deps[u].len() && !placed[#[trigger] deps[u][k] as int]
}

/// Number of units not yet placed.
pub open spec fn num_unplaced(s: Seq<bool>) -> nat
    decreases s.len(),
{
    if s.len() == 0 {
        0
    } else {
        num_unplaced(s.drop_last()) + if s.last() {
            0nat
        } else {
            1nat
        }
    }
}

proof fn lemma_place_one(s: Seq<bool>, u: int)
    requires
        0 <= u < s.len(),
        !s[u],
    ensures
        num_unplaced(s.update(u, true)) + 1 == num_unplaced(s),
    decreases s.len(),
{
    if u == s.len() - 1 {
        assert(s.update(u, true).drop_last() =~= s.drop_last());
    } else {
        assert(s.update(u, true).drop_last() =~= s.drop_last().update(u, true));
        lemma_place_one(s.drop_last(), u);
    }
}

/// In a stuck state, no unit at a position before `p` of a dependency-first order is unplaced.
proof fn lemma_stuck_prefix_placed(
    n: nat,
    deps: Seq<Seq<usize>>,
    placed: Seq<bool>,
    o: Seq<usize>,
    p: int,
)
    requires
        placed.len() == n,
        stuck(n, deps, placed),
        is_topo_order(n, deps, o),
        0 <= p <= o.len(),
    ensures
        forall|q: int| 0 <= q < p ==> placed[#[trigger] o[q] as int],
    decreases p,
{
    if p > 0 {
        lemma_stuck_prefix_placed(n, deps, placed, o, p - 1);
        let v = o[p - 1] as int;
        if !placed[v] {
            let k = choose|k: int| 0 <= k < deps[v].len() && !placed[#[trigger] deps[v][k] as int];
            assert(listed_before(o, p - 1, deps[o[p - 1] as int][k]));
            let i = choose|i: int| 0 <= i < p - 1 && #[trigger] o[i] == deps[o[p - 1] as int][k];
            assert(placed[o[i] as int]);
        }
    }
}

/// A stuck state with an unplaced unit rules out every dependency-first order.
proof fn lemma_stuck_means_cycle(n: nat, deps: Seq<Seq<usize>>, placed: Seq<bool>, u: usize)
    requires
        placed.len() == n,
        stuck(n, deps, placed),
        u < n,
        !placed[u as int],
    ensures
        !is_acyclic(n, deps),
{
    if is_acyclic(n, deps) {
        let o = choose|o: Seq<usize>| is_topo_order(n, deps, o);
        lemma_stuck_prefix_placed(n, deps, placed, o, o.len() as int);
        assert(o.contains(u));
        let j = choose|j: int| 0 <= j < o.len() && o[j] == u;
        assert(placed[o[j] as int]);
    }
}

/// Whether every dependency of unit `u` is placed.
fn deps_placed(g: &UnitGraph, placed: &Vec<bool>, u: usize) -> (r: bool)
    requires
        g.wf(),
        u < g.units@.len(),
        placed@.len() == g.units@.len(),
    ensures
        r == forall|k: int|
            0 <= k < g.dep_lists()[u as int].len() ==> placed@[#[trigger] g.dep_lists()[u as int][k] as int],
{
    let ds = &g.deps[u];
    assert(ds@ == g.dep_lists()[u as int]);
    let mut k: usize = 0;
    while k < ds.len()
        invariant
            g.wf(),
            u < g.units@.len(),
            placed@.len() == g.units@.len(),
            ds@ == g.dep_lists()[u as int],
            0 <= k <= ds@.len(),
            forall|k2: int| 0 <= k2 < k ==> placed@[#[trigger] ds@[k2] as int],
        decreases ds@.len() - k,
    {
        assert(ds@[k as int] < g.units@.len());
        if !placed[ds[k]] {
            return false;
        }
        k = k + 1;
    }
    true
}

/// A dependency-first order of the graph's units, or `None` when the
/// dependency edges form a cycle.
pub fn topo_order(g: &UnitGraph) -> (r: Option<Vec<usize>>)
    requires
        g.wf(),
    ensures
        match r {
            Some(o) => is_topo_order(g.units@.len(), g.dep_lists(), o@),
            None => !is_acyclic(g.units@.len(), g.dep_lists()),
        },
{
    let n = g.units.len();
    let ghost deps = g.dep_lists();
    let mut placed: Vec<bool> = Vec::new();
    let mut i: usize = 0;
    while i < n
        invariant
            0 <= i <= n,
            placed@ =~= Seq::new(i as nat, |j: int| false),
        decreases n - i,
    {
        placed.push(false);
        i = i + 1;
    }
    let mut order: Vec<usize> = Vec::new();
    let mut progress = true;
    while progress
        invariant
            g.wf(),
            n == g.units@.len(),
            deps == g.dep_lists(),
            placed@.len() == n,
            order@.no_duplicates(),
            forall|j: int| 0 <= j < order@.len() ==> #[trigger] order@[j] < n,
            forall|u: int| 0 <= u < n ==> (#[trigger] placed@[u] <==> order@.contains(u as usize)),
            deps_come_first(deps, order@),
            !progress ==> stuck(n as nat, deps, placed@),
        decreases num_unplaced(placed@) + if progress { 1nat } else { 0nat },
    {
        let ghost start = num_unplaced(placed@);
        progress = false;
        let mut u: usize = 0;
        while u < n
            invariant
                g.wf(),
                n == g.units@.len(),
                deps == g.dep_lists(),
                placed@.len() == n,
                0 <= u <= n,
                order@.no_duplicates(),
                forall|j: int| 0 <= j < order@.len() ==> #[trigger] order@[j] < n,
                forall|v: int| 0 <= v < n ==> (#[trigger] placed@[v] <==> order@.contains(v as usize)),
                deps_come_first(deps, order@),
                progress ==> num_unplaced(placed@) < start,
                !progress ==> num_unplaced(placed@) == start,
                !progress ==> forall|v: int|
                    0 <= v < u && !#[trigger] placed@[v] ==> exists|k: int|
                        0 <= k < deps[v].len() && !placed@[#[trigger] deps[v][k] as int],
            decreases n - u,
        {
            if !placed[u] && deps_placed(g, &placed, u) {
                proof {
                    lemma_place_one(placed@, u as int);
                }
                let ghost old_order = order@;
                let ghost old_placed = placed@;
                placed.set(u, true);
                order.push(u);
                proof {
                    assert(!old_order.contains(u));
                    assert forall|v: int| 0 <= v < n implies (#[trigger] placed@[v]
                        <==> order@.contains(v as usize)) by {
                        if v == u {
                            assert(order@[old_order.len() as int] == u);
                        } else {
                            if old_order.contains(v as usize) {
                                let j = choose|j: int|
                                    0 <= j < old_order.len() && old_order[j] == v as usize;
                                assert(order@[j] == v as usize);
                            }
                            if order@.contains(v as usize) {
                                let j = choose|j: int|
                                    0 <= j < order@.len() && order@[j] == v as usize;
                                assert(old_order[j] == v as usize);
                            }
                        }
                    }
                    assert forall|k: int| 0 <= k < deps[u as int].len() implies old_order.contains(
                        #[trigger] deps[u as int][k],
                    ) by {
                        assert(old_placed[deps[u as int][k] as int]);
                    }
                    lemma_push_keeps_deps_first(deps, old_order, u);
                }
                progress = true;
            }
            u = u + 1;
        }
    }
    let mut v: usize = 0;
    while v < n
        invariant
            g.wf(),
            n == g.units@.len(),
            deps == g.dep_lists(),
            placed@.len() == n,
            0 <= v <= n,
            forall|w: int| 0 <= w < v ==> #[trigger] placed@[w],
            stuck(n as nat, deps, placed@),
        decreases n - v,
    {
        if !placed[v] {
            proof {
                lemma_stuck_means_cycle(n as nat, deps, placed@, v);
            }
            return None;
        }
        v = v + 1;
    }
    assert forall|w: usize| w < n implies #[trigger] order@.contains(w) by {
        assert(placed@[w as int]);
    }
    Some(order)
}

} // verus!
