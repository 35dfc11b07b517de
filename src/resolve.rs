//! Quick-resolve: expands a package-level resolve into the unit graph of one
//! target package. A package is one unit per distinct feature set asked of it;
//! development-only edges count only for the target itself, and only when
//! building with development dependencies.
use crate::fingerprint::{byte_seqs, UnitDesc};
use crate::graph::{is_acyclic, UnitGraph};
use crate::repo::{copy_bytes, ArtifactRepo};
use crate::scheduler::{is_schedule, schedule, Schedule};
use vstd::prelude::*;
use vstd::seq_lib::*;
use vstd::set_lib::*;

verus! {

/// The kind of a package-level dependency edge.
#[derive(Debug, Clone, Copy, PartialEq, Eq)]
pub enum DepKind {
    Normal,
    Build,
    Dev,
}

/// What the closure is built for.
#[derive(Debug, Clone, Copy, PartialEq, Eq)]
pub enum BuildFor {
    /// Normal and build dependencies only.
    Normal,
    /// Also the target's development dependencies.
    NormalOrDev,
}

/// A package-level dependency: the package, the kind of edge, and the features asked of it.
pub struct CoarseDep {
    pub package: usize,
    pub kind: DepKind,
    pub features: Vec<Vec<u8>>,
}

/// A resolved package and its dependency edges.
pub struct CoarsePackage {
    pub package: Vec<u8>,
    pub version: Vec<u8>,
    pub source: Vec<u8>,
    pub checksum: Vec<u8>,
    pub target_kind: Vec<u8>,
    pub profile: Vec<u8>,
    pub deps: Vec<CoarseDep>,
}

/// A package-level resolve of a workspace.
pub struct CoarseResolve {
    pub packages: Vec<CoarsePackage>,
}

/// Why a resolve could not be expanded.
#[derive(Debug, Clone, Copy, PartialEq, Eq)]
pub enum ResolveError {
    /// The target or a dependency edge names a package that the resolve does not hold.
    MissingPackage,
}

/// The unit graph of a target, with the resolve package of each unit.
pub struct ResolvedUnits {
    pub graph: UnitGraph,
    pub packages: Vec<usize>,
}

/// Whether an edge of kind `kind` counts, for a unit that is the target (`root`) or not.
pub open spec fn admits(purpose: BuildFor, root: bool, kind: DepKind) -> bool {
    match kind {
        DepKind::Dev => root && purpose == BuildFor::NormalOrDev,
        _ => true,
    }
}

/// The edges of `ds` that count.
pub open spec fn admitted(ds: Seq<CoarseDep>, purpose: BuildFor, root: bool) -> Seq<CoarseDep> {
    ds.filter(|d: CoarseDep| admits(purpose, root, d.kind))
}

/// The unit that a dependency edge asks for: a package and a feature set.
pub open spec fn dep_key(d: CoarseDep) -> (usize, Seq<Seq<u8>>) {
    (d.package, byte_seqs(d.features@))
}

/// Every unit asked for by some edge of the resolve.
pub open spec fn all_demands(ps: Seq<CoarsePackage>) -> Seq<(usize, Seq<Seq<u8>>)>
    decreases ps.len(),
{
    if ps.len() == 0 {
        Seq::empty()
    } else {
        all_demands(ps.drop_last()) + ps.last().deps@.map_values(|d: CoarseDep| dep_key(d))
    }
}

/// Every edge of the resolve names one of its packages.
pub open spec fn resolve_consistent(r: &CoarseResolve) -> bool {
    forall|p: int, k: int|
        0 <= p < r.packages@.len() && 0 <= k < r.packages@[p].deps@.len()
            ==> #[trigger] r.packages@[p].deps@[k].package < r.packages@.len()
}

/// The unit of package `p` of the resolve with feature set `fs`.
pub open spec fn unit_of(p: CoarsePackage, fs: Seq<Seq<u8>>) -> crate::fingerprint::UnitModel {
    crate::fingerprint::UnitModel {
        package: p.package@,
        version: p.version@,
        source: p.source@,
        checksum: p.checksum@,
        features: fs,
        target_kind: p.target_kind@,
        profile: p.profile@,
    }
}

/// `ru` is the unit graph of `target` with `root_features` under `purpose`: unit 0 is
/// the target; each unit is a package of the resolve with a feature set, no two units
/// alike; each unit's edges are its package's counted edges, in order; every other
/// unit is reached by an edge from a unit listed before it.
pub open spec fn is_unit_graph_of(
    r: &CoarseResolve,
    target: usize,
    root_features: Seq<Seq<u8>>,
    purpose: BuildFor,
    ru: &ResolvedUnits,
) -> bool {
    let g = ru.graph;
    let n = g.units@.len();
    let pk = ru.packages@;
    &&& g.wf()
    &&& pk.len() == n
    &&& n >= 1
    &&& pk[0] == target
    &&& g.units@[0]@.features == root_features
    &&& forall|j: int| 0 <= j < n ==> #[trigger] pk[j] < r.packages@.len()
    &&& forall|j: int|
        0 <= j < n ==> #[trigger] g.units@[j]@ == unit_of(r.packages@[pk[j] as int], g.units@[j]@.features)
    &&& forall|a: int, b: int|
        0 <= a < n && 0 <= b < n && a != b ==> (#[trigger] pk[a], g.units@[a]@.features) != (
            #[trigger] pk[b],
            g.units@[b]@.features,
        )
    &&& forall|j: int|
        0 <= j < n ==> {
            let ad = admitted(r.packages@[pk[j] as int].deps@, purpose, j == 0);
            &&& #[trigger] g.dep_lists()[j].len() == ad.len()
            &&& forall|k: int|
                0 <= k < ad.len() ==> (pk[g.dep_lists()[j][k] as int], g.units@[g.dep_lists()[j][k] as int]@.features)
                    == #[trigger] dep_key(ad[k])
        }
    &&& forall|j: int| 1 <= j < n ==> #[trigger] reached_earlier(g.dep_lists(), j)
}

/// Some unit listed before `j` has an edge to `j`.
pub open spec fn reached_earlier(deps: Seq<Seq<usize>>, j: int) -> bool {
    exists|i: int| 0 <= i < j && #[trigger] deps[i].contains(j as usize)
}

proof fn lemma_demand_listed(ps: Seq<CoarsePackage>, p: int, k: int)
    requires
        0 <= p < ps.len(),
        0 <= k < ps[p].deps@.len(),
    ensures
        all_demands(ps).contains(dep_key(ps[p].deps@[k])),
    decreases ps.len(),
{
    let tail = ps.last().deps@.map_values(|d: CoarseDep| dep_key(d));
    if p == ps.len() - 1 {
        assert(all_demands(ps)[all_demands(ps.drop_last()).len() + k] == tail[k]);
    } else {
        lemma_demand_listed(ps.drop_last(), p, k);
        assert(ps.drop_last()[p] == ps[p]);
        let i = choose|i: int|
            0 <= i < all_demands(ps.drop_last()).len() && all_demands(ps.drop_last())[i] == dep_key(
                ps[p].deps@[k],
            );
        assert(all_demands(ps)[i] == all_demands(ps.drop_last())[i]);
    }
}

proof fn lemma_distinct_within<A>(keys: Seq<A>, pool: Seq<A>)
    requires
        keys.no_duplicates(),
        forall|j: int| 0 <= j < keys.len() ==> pool.contains(#[trigger] keys[j]),
    ensures
        keys.len() <= pool.len(),
{
    keys.unique_seq_to_set();
    pool.lemma_cardinality_of_set();
    assert(keys.to_set().subset_of(pool.to_set())) by {
        assert forall|x: A| keys.to_set().contains(x) implies pool.to_set().contains(x) by {
            let j = choose|j: int| 0 <= j < keys.len() && keys[j] == x;
            assert(pool.contains(keys[j]));
        }
    }
    lemma_len_subset(keys.to_set(), pool.to_set());
}

fn admits_edge(purpose: BuildFor, root: bool, kind: DepKind) -> (r: bool)
    ensures
        r == admits(purpose, root, kind),
{
    match kind {
        DepKind::Dev => root && match purpose {
            BuildFor::NormalOrDev => true,
            BuildFor::Normal => false,
        },
        _ => true,
    }
}

/// Whether two lists of byte strings are equal.
pub fn byte_lists_eq(a: &Vec<Vec<u8>>, b: &Vec<Vec<u8>>) -> (r: bool)
    ensures
        r == (byte_seqs(a@) == byte_seqs(b@)),
{
    if a.len() != b.len() {
        assert(byte_seqs(a@).len() != byte_seqs(b@).len());
        return false;
    }
    let mut i: usize = 0;
    while i < a.len()
        invariant
            a@.len() == b@.len(),
            0 <= i <= a@.len(),
            forall|j: int| 0 <= j < i ==> #[trigger] a@[j]@ == b@[j]@,
        decreases a@.len() - i,
    {
        if !crate::repo::bytes_eq(&a[i], &b[i]) {
            assert(byte_seqs(a@)[i as int] != byte_seqs(b@)[i as int]);
            return false;
        }
        i = i + 1;
    }
    assert(byte_seqs(a@) =~= byte_seqs(b@));
    true
}

/// A copy of a list of byte strings.
pub fn copy_byte_list(a: &Vec<Vec<u8>>) -> (r: Vec<Vec<u8>>)
    ensures
        byte_seqs(r@) == byte_seqs(a@),
{
    let mut out: Vec<Vec<u8>> = Vec::new();
    let mut i: usize = 0;
    while i < a.len()
        invariant
            0 <= i <= a@.len(),
            out@.len() == i,
            forall|j: int| 0 <= j < i ==> #[trigger] out@[j]@ == a@[j]@,
        decreases a@.len() - i,
    {
        out.push(copy_bytes(&a[i]));
        i = i + 1;
    }
    assert(byte_seqs(out@) =~= byte_seqs(a@));
    out
}

/// The key of node `j`: its package and feature set.
pub open spec fn node_key(pkgs: Seq<usize>, feats: Seq<Vec<Vec<u8>>>, j: int) -> (usize, Seq<Seq<u8>>) {
    (pkgs[j], byte_seqs(feats[j]@))
}

fn find_node(pkgs: &Vec<usize>, feats: &Vec<Vec<Vec<u8>>>, p: usize, fs: &Vec<Vec<u8>>) -> (r: Option<usize>)
    requires
        pkgs@.len() == feats@.len(),
    ensures
        match r {
            Some(j) => j < pkgs@.len() && node_key(pkgs@, feats@, j as int) == (p, byte_seqs(fs@)),
            None => forall|j: int| 0 <= j < pkgs@.len() ==> #[trigger] node_key(pkgs@, feats@, j) != (p, byte_seqs(fs@)),
        },
{
    let mut j: usize = 0;
    while j < pkgs.len()
        invariant
            pkgs@.len() == feats@.len(),
            0 <= j <= pkgs@.len(),
            forall|m: int| 0 <= m < j ==> #[trigger] node_key(pkgs@, feats@, m) != (p, byte_seqs(fs@)),
        decreases pkgs@.len() - j,
    {
        if pkgs[j] == p && byte_lists_eq(&feats[j], fs) {
            return Some(j);
        }
        j = j + 1;
    }
    None
}

/// Whether every edge of the resolve names one of its packages.
pub fn check_resolve(r: &CoarseResolve) -> (ok: bool)
    ensures
        ok == resolve_consistent(r),
{
    let n = r.packages.len();
    let mut p: usize = 0;
    while p < n
        invariant
            n == r.packages@.len(),
            0 <= p <= n,
            forall|p2: int, k: int|
                0 <= p2 < p && 0 <= k < r.packages@[p2].deps@.len()
                    ==> #[trigger] r.packages@[p2].deps@[k].package < n,
        decreases n - p,
    {
        let ds = &r.packages[p].deps;
        let mut k: usize = 0;
        while k < ds.len()
            invariant
                n == r.packages@.len(),
                0 <= p < n,
                ds@ == r.packages@[p as int].deps@,
                0 <= k <= ds@.len(),
                forall|p2: int, k2: int|
                    0 <= p2 < p && 0 <= k2 < r.packages@[p2].deps@.len()
                        ==> #[trigger] r.packages@[p2].deps@[k2].package < n,
                forall|k2: int| 0 <= k2 < k ==> #[trigger] ds@[k2].package < n,
            decreases ds@.len() - k,
        {
            if ds[k].package >= n {
                return false;
            }
            k = k + 1;
        }
        p = p + 1;
    }
    true
}

/// The edges `e` of node `j` are its package's counted edges, in order.
pub open spec fn edges_ok(
    ps: Seq<CoarsePackage>,
    purpose: BuildFor,
    pkgs: Seq<usize>,
    feats: Seq<Vec<Vec<u8>>>,
    e: Seq<usize>,
    j: int,
) -> bool {
    let ad = admitted(ps[pkgs[j] as int].deps@, purpose, j == 0);
    &&& e.len() == ad.len()
    &&& forall|k: int| 0 <= k < ad.len() ==> #[trigger] node_key(pkgs, feats, e[k] as int) == dep_key(ad[k])
}

/// The unit graph of package `target` with features `root_features`, built for `purpose`.
pub fn quick_resolve(
    r: &CoarseResolve,
    target: usize,
    root_features: &Vec<Vec<u8>>,
    purpose: BuildFor,
) -> (res: Result<ResolvedUnits, ResolveError>)
    ensures
        match res {
            Ok(ru) => target < r.packages@.len() && resolve_consistent(r) && is_unit_graph_of(
                r,
                target,
                byte_seqs(root_features@),
                purpose,
                &ru,
            ),
            Err(e) => e == ResolveError::MissingPackage && !(target < r.packages@.len()
                && resolve_consistent(r)),
        },
{
    let np = r.packages.len();
    if target >= np || !check_resolve(r) {
        return Err(ResolveError::MissingPackage);
    }
    let ghost ps = r.packages@;
    let ghost demands = all_demands(ps);
    let mut pkgs: Vec<usize> = Vec::new();
    pkgs.push(target);
    let mut feats: Vec<Vec<Vec<u8>>> = Vec::new();
    feats.push(copy_byte_list(root_features));
    let mut edges: Vec<Vec<usize>> = Vec::new();
    edges.push(Vec::new());
    let ghost mut parent: Seq<int> = seq![0];
    let mut i: usize = 0;
    while i < pkgs.len()
        invariant
            np == ps.len(),
            ps == r.packages@,
            demands == all_demands(ps),
            resolve_consistent(r),
            pkgs@.len() == feats@.len(),
            pkgs@.len() == edges@.len(),
            pkgs@.len() == parent.len(),
            1 <= pkgs@.len() <= demands.len() + 1,
            0 <= i <= pkgs@.len(),
            pkgs@[0] == target,
            byte_seqs(feats@[0]@) == byte_seqs(root_features@),
            forall|j: int| 0 <= j < pkgs@.len() ==> #[trigger] pkgs@[j] < np,
            forall|a: int, b: int|
                0 <= a < pkgs@.len() && 0 <= b < pkgs@.len() && a != b ==> #[trigger] node_key(
                    pkgs@,
                    feats@,
                    a,
                ) != #[trigger] node_key(pkgs@, feats@, b),
            forall|j: int| 1 <= j < pkgs@.len() ==> demands.contains(#[trigger] node_key(pkgs@, feats@, j)),
            forall|j: int| 0 <= j < i ==> #[trigger] edges_ok(ps, purpose, pkgs@, feats@, edges@[j]@, j),
            forall|j: int, k: int|
                0 <= j < pkgs@.len() && 0 <= k < edges@[j]@.len() ==> #[trigger] edges@[j]@[k] < pkgs@.len(),
            forall|j: int|
                1 <= j < pkgs@.len() ==> 0 <= #[trigger] parent[j] < j && parent[j] < i
                    && edges@[parent[j]]@.contains(j as usize),
        decreases demands.len() + 1 - i,
    {
        let p = pkgs[i];
        let ds = &r.packages[p].deps;
        let root = i == 0;
        let ghost ad_all = admitted(ds@, purpose, root);
        let mut cur: Vec<usize> = Vec::new();
        let mut k: usize = 0;
        while k < ds.len()
            invariant
                np == ps.len(),
                ps == r.packages@,
                demands == all_demands(ps),
                resolve_consistent(r),
                i < pkgs@.len(),
                p == pkgs@[i as int],
                root == (i == 0),
                ds@ == ps[p as int].deps@,
                0 <= k <= ds@.len(),
                pkgs@.len() == feats@.len(),
                pkgs@.len() == edges@.len(),
                pkgs@.len() == parent.len(),
                1 <= pkgs@.len() <= demands.len() + 1,
                pkgs@[0] == target,
                byte_seqs(feats@[0]@) == byte_seqs(root_features@),
                forall|j: int| 0 <= j < pkgs@.len() ==> #[trigger] pkgs@[j] < np,
                forall|a: int, b: int|
                    0 <= a < pkgs@.len() && 0 <= b < pkgs@.len() && a != b ==> #[trigger] node_key(
                        pkgs@,
                        feats@,
                        a,
                    ) != #[trigger] node_key(pkgs@, feats@, b),
                forall|j: int| 1 <= j < pkgs@.len() ==> demands.contains(#[trigger] node_key(pkgs@, feats@, j)),
                forall|j: int| 0 <= j < i ==> #[trigger] edges_ok(ps, purpose, pkgs@, feats@, edges@[j]@, j),
                forall|j: int, k2: int|
                    0 <= j < pkgs@.len() && 0 <= k2 < edges@[j]@.len() ==> #[trigger] edges@[j]@[k2] < pkgs@.len(),
                cur@.len() == admitted(ds@.take(k as int), purpose, root).len(),
                forall|k2: int|
                    0 <= k2 < cur@.len() ==> #[trigger] cur@[k2] < pkgs@.len() && node_key(pkgs@, feats@, cur@[k2] as int)
                        == dep_key(admitted(ds@.take(k as int), purpose, root)[k2]),
                forall|j: int|
                    1 <= j < pkgs@.len() ==> 0 <= #[trigger] parent[j] < j && ((parent[j] < i
                        && edges@[parent[j]]@.contains(j as usize)) || (parent[j] == i
                        && cur@.contains(j as usize))),
            decreases ds@.len() - k,
        {
            let d = &ds[k];
            let ghost before_ad = admitted(ds@.take(k as int), purpose, root);
            assert(ds@.take(k + 1).drop_last() =~= ds@.take(k as int));
            assert(ds@.take(k + 1).last() == ds@[k as int]);
            proof {
                reveal(Seq::filter);
            }
            if admits_edge(purpose, root, d.kind) {
                assert(admitted(ds@.take(k + 1), purpose, root) == before_ad.push(*d));
                let ghost old_pkgs = pkgs@;
                let ghost old_feats = feats@;
                let ghost old_cur = cur@;
                let j = match find_node(&pkgs, &feats, d.package, &d.features) {
                    Some(j) => j,
                    None => {
                        proof {
                            lemma_demand_listed(ps, p as int, k as int);
                            assert(ps[p as int].deps@[k as int] == *d);
                        }
                        pkgs.push(d.package);
                        feats.push(copy_byte_list(&d.features));
                        edges.push(Vec::new());
                        proof {
                            parent = parent.push(i as int);
                            let n2 = pkgs@.len() as int;
                            assert(node_key(pkgs@, feats@, n2 - 1) == dep_key(*d));
                            assert forall|m: int| 0 <= m < n2 - 1 implies #[trigger] node_key(pkgs@, feats@, m)
                                == node_key(old_pkgs, old_feats, m) by {}
                            assert forall|a: int, b: int|
                                0 <= a < n2 && 0 <= b < n2 && a != b implies #[trigger] node_key(
                                pkgs@,
                                feats@,
                                a,
                            ) != #[trigger] node_key(pkgs@, feats@, b) by {
                                if a < n2 - 1 && b < n2 - 1 {
                                    assert(node_key(old_pkgs, old_feats, a) != node_key(old_pkgs, old_feats, b));
                                } else if a < n2 - 1 {
                                    assert(node_key(old_pkgs, old_feats, a) != dep_key(*d));
                                } else {
                                    assert(node_key(old_pkgs, old_feats, b) != dep_key(*d));
                                }
                            }
                            let keys = Seq::new((n2 - 1) as nat, |m: int| node_key(pkgs@, feats@, m + 1));
                            assert forall|m: int| 0 <= m < keys.len() implies demands.contains(#[trigger] keys[m]) by {
                                if m + 1 < n2 - 1 {
                                    assert(node_key(pkgs@, feats@, m + 1) == node_key(old_pkgs, old_feats, m + 1));
                                }
                            }
                            assert(keys.no_duplicates()) by {
                                assert forall|a: int, b: int| 0 <= a < keys.len() && 0 <= b < keys.len() && a != b
                                    implies keys[a] != keys[b] by {
                                    assert(node_key(pkgs@, feats@, a + 1) != node_key(pkgs@, feats@, b + 1));
                                }
                            }
                            lemma_distinct_within(keys, demands);
                            assert forall|j2: int| 0 <= j2 < i implies #[trigger] edges_ok(
                                ps,
                                purpose,
                                pkgs@,
                                feats@,
                                edges@[j2]@,
                                j2,
                            ) by {
                                assert(edges_ok(ps, purpose, old_pkgs, old_feats, edges@[j2]@, j2));
                                let e = edges@[j2]@;
                                assert forall|k2: int| 0 <= k2 < e.len() implies #[trigger] node_key(pkgs@, feats@, e[k2] as int)
                                    == node_key(old_pkgs, old_feats, e[k2] as int) by {
                                    assert(e[k2] < n2 - 1);
                                }
                            }
                        }
                        pkgs.len() - 1
                    },
                };
                cur.push(j);
                proof {
                    let ad2 = admitted(ds@.take(k + 1), purpose, root);
                    assert forall|k2: int|
                        0 <= k2 < cur@.len() implies #[trigger] cur@[k2] < pkgs@.len() && node_key(
                        pkgs@,
                        feats@,
                        cur@[k2] as int,
                    ) == dep_key(ad2[k2]) by {
                        if k2 < old_cur.len() {
                            assert(cur@[k2] == old_cur[k2]);
                            assert(node_key(old_pkgs, old_feats, old_cur[k2] as int) == dep_key(before_ad[k2]));
                        }
                    }
                    assert forall|j2: int| 1 <= j2 < pkgs@.len() implies 0 <= #[trigger] parent[j2] < j2 && ((
                    parent[j2] < i && edges@[parent[j2]]@.contains(j2 as usize)) || (parent[j2] == i
                        && cur@.contains(j2 as usize))) by {
                        if parent[j2] == i && j2 < old_pkgs.len() {
                            assert(old_cur.contains(j2 as usize));
                            let w = choose|w: int| 0 <= w < old_cur.len() && old_cur[w] == j2 as usize;
                            assert(cur@[w] == old_cur[w]);
                        }
                        if j2 == old_pkgs.len() {
                            assert(cur@[cur@.len() - 1] == j2 as usize);
                        }
                    }
                }
            } else {
                assert(admitted(ds@.take(k + 1), purpose, root) == before_ad);
            }
            k = k + 1;
        }
        assert(ds@.take(ds@.len() as int) =~= ds@);
        let ghost old_edges = edges@;
        edges.set(i, cur);
        proof {
            assert forall|j: int| 0 <= j < i + 1 implies #[trigger] edges_ok(ps, purpose, pkgs@, feats@, edges@[j]@, j) by {
                if j < i {
                    assert(edges@[j] == old_edges[j]);
                }
            }
            assert forall|j: int, k2: int|
                0 <= j < pkgs@.len() && 0 <= k2 < edges@[j]@.len() implies #[trigger] edges@[j]@[k2] < pkgs@.len() by {
                if j != i {
                    assert(edges@[j] == old_edges[j]);
                }
            }
            assert forall|j: int| 1 <= j < pkgs@.len() implies 0 <= #[trigger] parent[j] < j && parent[j] < i + 1
                && edges@[parent[j]]@.contains(j as usize) by {
                if parent[j] != i {
                    assert(edges@[parent[j]] == old_edges[parent[j]]);
                }
            }
        }
        i = i + 1;
    }
    let n = pkgs.len();
    let mut units: Vec<UnitDesc> = Vec::new();
    let mut j: usize = 0;
    while j < n
        invariant
            n == pkgs@.len(),
            n == feats@.len(),
            ps == r.packages@,
            np == ps.len(),
            forall|m: int| 0 <= m < n ==> #[trigger] pkgs@[m] < np,
            0 <= j <= n,
            units@.len() == j,
            forall|m: int|
                0 <= m < j ==> #[trigger] units@[m]@ == unit_of(ps[pkgs@[m] as int], byte_seqs(feats@[m]@)),
        decreases n - j,
    {
        let pk = &r.packages[pkgs[j]];
        units.push(
            UnitDesc {
                package: copy_bytes(&pk.package),
                version: copy_bytes(&pk.version),
                source: copy_bytes(&pk.source),
                checksum: copy_bytes(&pk.checksum),
                features: copy_byte_list(&feats[j]),
                target_kind: copy_bytes(&pk.target_kind),
                profile: copy_bytes(&pk.profile),
            },
        );
        j = j + 1;
    }
    let ru = ResolvedUnits { graph: UnitGraph { units, deps: edges }, packages: pkgs };
    proof {
        let g = ru.graph;
        assert forall|m: int| 0 <= m < n implies #[trigger] node_key(ru.packages@, feats@, m) == (
            ru.packages@[m],
            g.units@[m]@.features,
        ) by {}
        assert forall|m: int| 0 <= m < n implies #[trigger] g.dep_lists()[m] == edges@[m]@ by {}
        assert(g.wf()) by {
            assert forall|u: int, k: int|
                0 <= u < g.dep_lists().len() && 0 <= k < g.dep_lists()[u].len() implies #[trigger] g.dep_lists()[u][k]
                < g.units@.len() by {
                assert(g.dep_lists()[u] == edges@[u]@);
            }
        }
        assert forall|a: int, b: int|
            0 <= a < n && 0 <= b < n && a != b implies (#[trigger] ru.packages@[a], g.units@[a]@.features) != (
            #[trigger] ru.packages@[b],
            g.units@[b]@.features,
        ) by {
            assert(node_key(pkgs@, feats@, a) != node_key(pkgs@, feats@, b));
        }
        assert forall|m: int| 0 <= m < n implies {
            let ad = admitted(r.packages@[ru.packages@[m] as int].deps@, purpose, m == 0);
            &&& #[trigger] g.dep_lists()[m].len() == ad.len()
            &&& forall|k: int|
                0 <= k < ad.len() ==> (ru.packages@[g.dep_lists()[m][k] as int], g.units@[g.dep_lists()[m][k] as int]@.features)
                    == #[trigger] dep_key(ad[k])
        } by {
            assert(edges_ok(ps, purpose, pkgs@, feats@, edges@[m]@, m));
            let ad = admitted(r.packages@[ru.packages@[m] as int].deps@, purpose, m == 0);
            assert forall|k: int| 0 <= k < ad.len() implies (ru.packages@[g.dep_lists()[m][k] as int], g.units@[g.dep_lists()[m][k] as int]@.features)
                == #[trigger] dep_key(ad[k]) by {
                let t = edges@[m]@[k] as int;
                assert(node_key(pkgs@, feats@, t) == dep_key(ad[k]));
                assert(node_key(pkgs@, feats@, t) == (ru.packages@[t], g.units@[t]@.features));
            }
        }
        assert forall|m: int| 1 <= m < n implies #[trigger] reached_earlier(g.dep_lists(), m) by {
            let pm = parent[m];
            assert(g.dep_lists()[pm] == edges@[pm]@);
            assert(g.dep_lists()[pm].contains(m as usize));
        }
    }
    Ok(ru)
}

/// Why no build plan could be made for a target.
#[derive(Debug, Clone, Copy, PartialEq, Eq)]
pub enum PlanError {
    /// The resolve names a package that it does not hold.
    MissingPackage,
    /// The unit graph has a dependency cycle.
    Cycle,
}

/// The unit graph of a target and the walk that materializes it against `repo`.
pub fn plan_target(
    r: &CoarseResolve,
    target: usize,
    root_features: &Vec<Vec<u8>>,
    purpose: BuildFor,
    repo: &ArtifactRepo,
) -> (res: Result<(ResolvedUnits, Schedule), PlanError>)
    requires
        repo.wf(),
    ensures
        match res {
            Ok((ru, s)) => {
                &&& target < r.packages@.len()
                &&& resolve_consistent(r)
                &&& is_unit_graph_of(r, target, byte_seqs(root_features@), purpose, &ru)
                &&& is_schedule(&ru.graph, repo.view(), s)
            },
            Err(PlanError::MissingPackage) => !(target < r.packages@.len() && resolve_consistent(r)),
            Err(PlanError::Cycle) => exists|ru: ResolvedUnits|
                is_unit_graph_of(r, target, byte_seqs(root_features@), purpose, &ru)
                    && !is_acyclic(ru.graph.units@.len(), ru.graph.dep_lists()),
        },
{
    let ru = match quick_resolve(r, target, root_features, purpose) {
        Ok(ru) => ru,
        Err(_) => return Err(PlanError::MissingPackage),
    };
    match schedule(&ru.graph, repo) {
        Ok(s) => Ok((ru, s)),
        Err(_) => Err(PlanError::Cycle),
    }
}

} // verus!
