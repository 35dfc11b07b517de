//! Scheduling: fingerprint every unit bottom-up, then walk the units in
//! dependency-first order, restoring those whose fingerprint the repository
//! holds and building the others.
use crate::fingerprint::{
    byte_seqs, fingerprint, lemma_fingerprint_tracks_deps, spec_fingerprint, unit_fits,
};
use crate::graph::{is_acyclic, is_topo_order, listed_before, topo_order, UnitGraph};
use crate::repo::{copy_bytes, ArtifactRepo};
use vstd::prelude::*;

verus! {

/// The fingerprints of the units listed in `ds`, taken from `f`.
pub open spec fn dep_fps(ds: Seq<usize>, f: Seq<Seq<u8>>) -> Seq<Seq<u8>> {
    ds.map_values(|d: usize| f[d as int])
}

/// `f` gives each unit the fingerprint of its inputs and of its dependencies' fingerprints in `f`.
pub open spec fn fps_consistent(g: &UnitGraph, f: Seq<Seq<u8>>) -> bool {
    &&& f.len() == g.units@.len()
    &&& forall|u: int|
        0 <= u < g.units@.len() ==> #[trigger] f[u] == spec_fingerprint(
            g.units@[u]@,
            dep_fps(g.dep_lists()[u], f),
        )
}

/// The fingerprints of all units of `g`, computed along the dependency-first order `order`.
pub fn unit_fingerprints(g: &UnitGraph, order: &Vec<usize>) -> (r: Vec<Vec<u8>>)
    requires
        g.wf(),
        is_topo_order(g.units@.len(), g.dep_lists(), order@),
    ensures
        fps_consistent(g, byte_seqs(r@)),
{
    let n = g.units.len();
    let ghost deps = g.dep_lists();
    let mut fps: Vec<Vec<u8>> = Vec::new();
    let mut i: usize = 0;
    while i < n
        invariant
            0 <= i <= n,
            fps@.len() == i,
        decreases n - i,
    {
        fps.push(Vec::new());
        i = i + 1;
    }
    let mut i: usize = 0;
    while i < order.len()
        invariant
            g.wf(),
            n == g.units@.len(),
            deps == g.dep_lists(),
            is_topo_order(n as nat, deps, order@),
            fps@.len() == n,
            0 <= i <= order@.len(),
            forall|j: int|
                0 <= j < i ==> #[trigger] byte_seqs(fps@)[order@[j] as int] == spec_fingerprint(
                    g.units@[order@[j] as int]@,
                    dep_fps(deps[order@[j] as int], byte_seqs(fps@)),
                ),
        decreases order@.len() - i,
    {
        let u = order[i];
        let ds = &g.deps[u];
        assert(ds@ == deps[u as int]);
        let mut list: Vec<Vec<u8>> = Vec::new();
        let mut k: usize = 0;
        while k < ds.len()
            invariant
                g.wf(),
                n == g.units@.len(),
                deps == g.dep_lists(),
                fps@.len() == n,
                u < n,
                ds@ == deps[u as int],
                0 <= k <= ds@.len(),
                byte_seqs(list@) =~= dep_fps(ds@.take(k as int), byte_seqs(fps@)),
            decreases ds@.len() - k,
        {
            assert(ds@[k as int] < n);
            let c = copy_bytes(&fps[ds[k]]);
            let ghost before = list@;
            list.push(c);
            proof {
                let want = dep_fps(ds@.take(k + 1), byte_seqs(fps@));
                let have = byte_seqs(list@);
                assert(byte_seqs(before).len() == before.len());
                assert(dep_fps(ds@.take(k as int), byte_seqs(fps@)).len() == k);
                assert(before.len() == k);
                assert(have.len() == want.len());
                assert forall|m: int| 0 <= m < have.len() implies have[m] == want[m] by {
                    if m < k {
                        assert(list@[m] == before[m]);
                        assert(byte_seqs(before)[m] == dep_fps(ds@.take(k as int), byte_seqs(fps@))[m]);
                        assert(ds@.take(k + 1)[m] == ds@.take(k as int)[m]);
                    } else {
                        assert(list@[m] == c);
                        assert(ds@.take(k + 1)[m] == ds@[k as int]);
                    }
                }
                assert(have =~= want);
            }
            k = k + 1;
        }
        assert(ds@.take(ds@.len() as int) =~= ds@);
        let f = fingerprint(&g.units[u], &list);
        let ghost old_f = byte_seqs(fps@);
        fps.set(u, f);
        proof {
            let new_f = byte_seqs(fps@);
            assert(new_f =~= old_f.update(u as int, f@));
            assert(!order@.take(i as int).contains(u)) by {
                if order@.take(i as int).contains(u) {
                    let j = choose|j: int| 0 <= j < i && order@.take(i as int)[j] == u;
                    assert(order@[j] == order@[i as int]);
                }
            }
            assert forall|j: int| 0 <= j <= i implies dep_fps(deps[order@[j] as int], new_f)
                == dep_fps(deps[order@[j] as int], old_f) by {
                let dj = deps[order@[j] as int];
                assert forall|k: int| 0 <= k < dj.len() implies #[trigger] new_f[dj[k] as int]
                    == old_f[dj[k] as int] by {
                    assert(listed_before(order@, j, deps[order@[j] as int][k]));
                    let m = choose|m: int| 0 <= m < j && order@[m] == deps[order@[j] as int][k];
                    assert(order@[m] != u);
                }
                assert(dep_fps(dj, new_f) =~= dep_fps(dj, old_f));
            }
            assert forall|j: int| 0 <= j < i + 1 implies #[trigger] byte_seqs(fps@)[order@[j] as int]
                == spec_fingerprint(
                g.units@[order@[j] as int]@,
                dep_fps(deps[order@[j] as int], byte_seqs(fps@)),
            ) by {
                if j < i {
                    assert(order@[j] != u);
                }
            }
        }
        i = i + 1;
    }
    proof {
        let f = byte_seqs(fps@);
        assert forall|u: int| 0 <= u < n implies #[trigger] f[u] == spec_fingerprint(
            g.units@[u]@,
            dep_fps(g.dep_lists()[u], f),
        ) by {
            assert(order@.contains(u as usize));
            let j = choose|j: int| 0 <= j < order@.len() && order@[j] == u as usize;
            assert(f[order@[j] as int] == f[u]);
        }
    }
    fps
}

/// Within two fingerprint assignments of graphs that give unit `u` the same
/// inputs and the same edges, a dependency of `u` with differing fingerprints
/// makes the fingerprints of `u` differ; applied edge by edge, a change below
/// reaches every unit above it.
pub proof fn lemma_dependency_change_propagates(
    g1: &UnitGraph,
    f1: Seq<Seq<u8>>,
    g2: &UnitGraph,
    f2: Seq<Seq<u8>>,
    u: int,
    k: int,
)
    requires
        fps_consistent(g1, f1),
        fps_consistent(g2, f2),
        0 <= u < g1.units@.len(),
        0 <= u < g2.units@.len(),
        g1.units@[u]@ == g2.units@[u]@,
        g1.dep_lists()[u] == g2.dep_lists()[u],
        0 <= k < g1.dep_lists()[u].len(),
        f1[g1.dep_lists()[u][k] as int] != f2[g1.dep_lists()[u][k] as int],
        unit_fits(g1.units@[u]@, dep_fps(g1.dep_lists()[u], f1)),
        unit_fits(g1.units@[u]@, dep_fps(g1.dep_lists()[u], f2)),
    ensures
        f1[u] != f2[u],
{
    let ds = g1.dep_lists()[u];
    assert(dep_fps(ds, f1)[k] != dep_fps(ds, f2)[k]);
    lemma_fingerprint_tracks_deps(g1.units@[u]@, dep_fps(ds, f1), dep_fps(ds, f2));
}

/// What happens to a unit: its archive is restored from the repository, or it is built.
#[derive(Debug, Clone, Copy, PartialEq, Eq)]
pub enum StepAction {
    Restore,
    Build,
}

/// One unit of the walk, with its fingerprint and what to do with it.
pub struct Step {
    pub unit: usize,
    pub fingerprint: Vec<u8>,
    pub action: StepAction,
}

/// The action for a unit with fingerprint `fp`, given the repository contents `m`.
pub open spec fn planned_action(m: Map<Seq<u8>, Seq<u8>>, fp: Seq<u8>) -> StepAction {
    if m.contains_key(fp) {
        StepAction::Restore
    } else {
        StepAction::Build
    }
}

/// The units of the steps, in order.
pub open spec fn step_units(steps: Seq<Step>) -> Seq<usize> {
    steps.map_values(|s: Step| s.unit)
}

/// `steps` walks `order`, carrying each unit's fingerprint from `f` and the
/// action that the repository contents `m` call for.
pub open spec fn plan_matches(
    steps: Seq<Step>,
    order: Seq<usize>,
    f: Seq<Seq<u8>>,
    m: Map<Seq<u8>, Seq<u8>>,
) -> bool {
    &&& steps.len() == order.len()
    &&& forall|i: int|
        0 <= i < steps.len() ==> {
            &&& #[trigger] steps[i].unit == order[i]
            &&& steps[i].fingerprint@ == f[order[i] as int]
            &&& steps[i].action == planned_action(m, f[order[i] as int])
        }
}

/// The steps for the units of `order`: restore each unit whose fingerprint the
/// repository holds, build the others.
pub fn plan_steps(order: &Vec<usize>, fps: &Vec<Vec<u8>>, repo: &ArtifactRepo) -> (r: Vec<Step>)
    requires
        repo.wf(),
        forall|j: int| 0 <= j < order@.len() ==> #[trigger] order@[j] < fps@.len(),
    ensures
        plan_matches(r@, order@, byte_seqs(fps@), repo.view()),
{
    let mut steps: Vec<Step> = Vec::new();
    let mut i: usize = 0;
    while i < order.len()
        invariant
            repo.wf(),
            forall|j: int| 0 <= j < order@.len() ==> #[trigger] order@[j] < fps@.len(),
            0 <= i <= order@.len(),
            plan_matches(steps@, order@.take(i as int), byte_seqs(fps@), repo.view()),
        decreases order@.len() - i,
    {
        let u = order[i];
        let fp = copy_bytes(&fps[u]);
        let action = if repo.contains(&fp) {
            StepAction::Restore
        } else {
            StepAction::Build
        };
        let ghost before = steps@;
        steps.push(Step { unit: u, fingerprint: fp, action });
        proof {
            let f = byte_seqs(fps@);
            let o2 = order@.take(i + 1);
            assert forall|j: int| 0 <= j < steps@.len() implies {
                &&& #[trigger] steps@[j].unit == o2[j]
                &&& steps@[j].fingerprint@ == f[o2[j] as int]
                &&& steps@[j].action == planned_action(repo.view(), f[o2[j] as int])
            } by {
                if j < i {
                    assert(steps@[j] == before[j]);
                    assert(before[j].unit == order@.take(i as int)[j]);
                    assert(o2[j] == order@.take(i as int)[j]);
                } else {
                    assert(o2[j] == u);
                }
            }
        }
        i = i + 1;
    }
    assert(order@.take(order@.len() as int) =~= order@);
    steps
}

/// Why no schedule could be made.
#[derive(Debug, Clone, Copy, PartialEq, Eq)]
pub enum ScheduleError {
    /// The dependency edges form a cycle.
    Cycle,
}

/// The fingerprint of every unit, and the steps of a dependency-first walk.
pub struct Schedule {
    pub fingerprints: Vec<Vec<u8>>,
    pub steps: Vec<Step>,
}

/// A complete schedule for `g`: a dependency-first walk of all units, each
/// restored when the repository holds its fingerprint and built otherwise.
pub open spec fn is_schedule(g: &UnitGraph, m: Map<Seq<u8>, Seq<u8>>, s: Schedule) -> bool {
    &&& fps_consistent(g, byte_seqs(s.fingerprints@))
    &&& is_topo_order(g.units@.len(), g.dep_lists(), step_units(s.steps@))
    &&& plan_matches(s.steps@, step_units(s.steps@), byte_seqs(s.fingerprints@), m)
}

/// Fingerprints every unit of `g` and plans the walk against `repo`.
pub fn schedule(g: &UnitGraph, repo: &ArtifactRepo) -> (r: Result<Schedule, ScheduleError>)
    requires
        g.wf(),
        repo.wf(),
    ensures
        match r {
            Ok(s) => is_schedule(g, repo.view(), s),
            Err(e) => e == ScheduleError::Cycle && !is_acyclic(g.units@.len(), g.dep_lists()),
        },
{
    match topo_order(g) {
        None => Err(ScheduleError::Cycle),
        Some(order) => {
            let fps = unit_fingerprints(g, &order);
            let steps = plan_steps(&order, &fps, repo);
            assert(step_units(steps@) =~= order@);
            Ok(Schedule { fingerprints: fps, steps })
        },
    }
}

/// A unit is only built or restored after every one of its dependencies: each
/// dependency is the unit of an earlier step.
pub proof fn lemma_schedule_deps_first(g: &UnitGraph, m: Map<Seq<u8>, Seq<u8>>, s: Schedule)
    requires
        is_schedule(g, m, s),
    ensures
        forall|i: int, k: int|
            #![trigger g.dep_lists()[s.steps@[i].unit as int][k]]
            0 <= i < s.steps@.len() && 0 <= k < g.dep_lists()[s.steps@[i].unit as int].len()
                ==> exists|j: int|
                0 <= j < i && #[trigger] s.steps@[j].unit == g.dep_lists()[s.steps@[i].unit as int][k],
{
    let o = step_units(s.steps@);
    let deps = g.dep_lists();
    assert forall|i: int, k: int|
        #![trigger deps[s.steps@[i].unit as int][k]]
        0 <= i < s.steps@.len() && 0 <= k < deps[s.steps@[i].unit as int].len() implies exists|j: int|
        0 <= j < i && #[trigger] s.steps@[j].unit == deps[s.steps@[i].unit as int][k] by {
        assert(o[i] == s.steps@[i].unit);
        assert(listed_before(o, i, deps[o[i] as int][k]));
        let j = choose|j: int| 0 <= j < i && o[j] == deps[o[i] as int][k];
        assert(o[j] == s.steps@[j].unit);
    }
}

/// When the repository holds the fingerprint of every unit, no unit is built.
pub proof fn lemma_full_cache_hit_builds_nothing(g: &UnitGraph, m: Map<Seq<u8>, Seq<u8>>, s: Schedule)
    requires
        is_schedule(g, m, s),
        forall|u: int| 0 <= u < g.units@.len() ==> m.contains_key(#[trigger] byte_seqs(s.fingerprints@)[u]),
    ensures
        forall|i: int| 0 <= i < s.steps@.len() ==> #[trigger] s.steps@[i].action == StepAction::Restore,
{
    let o = step_units(s.steps@);
    assert forall|i: int| 0 <= i < s.steps@.len() implies #[trigger] s.steps@[i].action == StepAction::Restore by {
        assert(s.steps@[i].unit == o[i]);
        assert(o[i] < g.units@.len());
        assert(m.contains_key(byte_seqs(s.fingerprints@)[o[i] as int]));
    }
}

/// When the repository holds none of the units' fingerprints, every unit is
/// built, and built exactly once.
pub proof fn lemma_empty_cache_builds_each_once(g: &UnitGraph, m: Map<Seq<u8>, Seq<u8>>, s: Schedule)
    requires
        is_schedule(g, m, s),
        forall|u: int| 0 <= u < g.units@.len() ==> !m.contains_key(#[trigger] byte_seqs(s.fingerprints@)[u]),
    ensures
        forall|i: int| 0 <= i < s.steps@.len() ==> #[trigger] s.steps@[i].action == StepAction::Build,
        forall|u: usize| u < g.units@.len() ==> #[trigger] step_units(s.steps@).contains(u),
        forall|i: int, j: int|
            0 <= i < s.steps@.len() && 0 <= j < s.steps@.len() && i != j ==> #[trigger] s.steps@[i].unit != #[trigger] s.steps@[j].unit,
{
    let o = step_units(s.steps@);
    assert forall|i: int| 0 <= i < s.steps@.len() implies #[trigger] s.steps@[i].action == StepAction::Build by {
        assert(s.steps@[i].unit == o[i]);
        assert(o[i] < g.units@.len());
        assert(!m.contains_key(byte_seqs(s.fingerprints@)[o[i] as int]));
    }
    assert forall|i: int, j: int|
        0 <= i < s.steps@.len() && 0 <= j < s.steps@.len() && i != j implies #[trigger] s.steps@[i].unit != #[trigger] s.steps@[j].unit by {
        assert(s.steps@[i].unit == o[i]);
        assert(s.steps@[j].unit == o[j]);
    }
}

/// A failure met while materializing a unit.
#[derive(Debug, Clone, Copy, PartialEq, Eq)]
pub enum Failure {
    /// The repository could not be reached or read for now.
    RepoUnavailable,
    /// The repository holds other content under the unit's fingerprint.
    RepoConflict,
    /// A fetched archive could not be unpacked or did not match its fingerprint.
    RestoreFailed,
    /// The compiler failed on the unit.
    BuildFailed,
}

/// What to do after a failure.
#[derive(Debug, Clone, Copy, PartialEq, Eq)]
pub enum Recovery {
    /// Ask the repository again.
    Retry,
    /// Give up on the repository for this unit and build it here.
    BuildLocally,
    /// Stop the whole invocation, naming the unit.
    Abort,
}

/// The recovery for `failure` after `attempts` tries of a repository operation,
/// of at most `max_attempts`: an unavailable repository is retried until the
/// tries run out and the unit is then built here; a failed restore is treated
/// as a cache miss; a conflict or a failed build ends the invocation.
pub open spec fn spec_recovery(failure: Failure, attempts: u32, max_attempts: u32) -> Recovery {
    match failure {
        Failure::RepoUnavailable => if attempts < max_attempts {
            Recovery::Retry
        } else {
            Recovery::BuildLocally
        },
        Failure::RestoreFailed => Recovery::BuildLocally,
        Failure::RepoConflict => Recovery::Abort,
        Failure::BuildFailed => Recovery::Abort,
    }
}

/// Decides how to go on after `failure`; see [`spec_recovery`].
pub fn recovery(failure: Failure, attempts: u32, max_attempts: u32) -> (r: Recovery)
    ensures
        r == spec_recovery(failure, attempts, max_attempts),
{
    match failure {
        Failure::RepoUnavailable => if attempts < max_attempts {
            Recovery::Retry
        } else {
            Recovery::BuildLocally
        },
        Failure::RestoreFailed => Recovery::BuildLocally,
        Failure::RepoConflict => Recovery::Abort,
        Failure::BuildFailed => Recovery::Abort,
    }
}

} // verus!
