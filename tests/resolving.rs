use quickbuild::repo::ArtifactRepo;
use quickbuild::resolve::{
    plan_target, quick_resolve, BuildFor, CoarseDep, CoarsePackage, CoarseResolve, DepKind, PlanError, ResolveError,
};
use quickbuild::scheduler::{schedule, StepAction};

fn pkg(name: &str, deps: Vec<CoarseDep>) -> CoarsePackage {
    CoarsePackage {
        package: name.as_bytes().to_vec(),
        version: b"0.1.0".to_vec(),
        source: b"registry".to_vec(),
        checksum: format!("sum-{name}").into_bytes(),
        target_kind: b"lib".to_vec(),
        profile: b"dev".to_vec(),
        deps,
    }
}

fn dep(package: usize, kind: DepKind, features: &[&str]) -> CoarseDep {
    CoarseDep { package, kind, features: features.iter().map(|f| f.as_bytes().to_vec()).collect() }
}

fn feats(fs: &[&str]) -> Vec<Vec<u8>> {
    fs.iter().map(|f| f.as_bytes().to_vec()).collect()
}

#[test]
fn dev_dependencies_only_count_for_the_target_when_asked() {
    // 0 = app: normal dep on 1, dev dep on 2. 1 = lib: dev dep on 2.
    let r = CoarseResolve {
        packages: vec![
            pkg("app", vec![dep(1, DepKind::Normal, &[]), dep(2, DepKind::Dev, &[])]),
            pkg("lib", vec![dep(2, DepKind::Dev, &[])]),
            pkg("testkit", vec![]),
        ],
    };
    let normal = quick_resolve(&r, 0, &feats(&[]), BuildFor::Normal).unwrap();
    assert_eq!(normal.packages, vec![0, 1]);
    assert_eq!(normal.graph.deps, vec![vec![1], vec![]]);
    let with_dev = quick_resolve(&r, 0, &feats(&[]), BuildFor::NormalOrDev).unwrap();
    assert_eq!(with_dev.packages, vec![0, 1, 2]);
    assert_eq!(with_dev.graph.deps, vec![vec![1, 2], vec![], vec![]]);
}

#[test]
fn distinct_feature_sets_give_distinct_units() {
    // app depends on a and b; a wants serde with "derive", b wants plain serde.
    let r = CoarseResolve {
        packages: vec![
            pkg("app", vec![dep(1, DepKind::Normal, &[]), dep(2, DepKind::Normal, &[])]),
            pkg("a", vec![dep(3, DepKind::Normal, &["derive"])]),
            pkg("b", vec![dep(3, DepKind::Normal, &[])]),
            pkg("serde", vec![]),
        ],
    };
    let ru = quick_resolve(&r, 0, &feats(&["default"]), BuildFor::Normal).unwrap();
    assert_eq!(ru.packages, vec![0, 1, 2, 3, 3]);
    assert_eq!(ru.graph.units[0].features, feats(&["default"]));
    assert_eq!(ru.graph.units[3].features, feats(&["derive"]));
    assert!(ru.graph.units[4].features.is_empty());
    let s = schedule(&ru.graph, &ArtifactRepo::new()).unwrap();
    assert_ne!(s.fingerprints[3], s.fingerprints[4]);
}

#[test]
fn equal_feature_sets_share_one_unit() {
    let r = CoarseResolve {
        packages: vec![
            pkg("app", vec![dep(1, DepKind::Normal, &[]), dep(2, DepKind::Build, &[])]),
            pkg("a", vec![dep(3, DepKind::Normal, &["std"])]),
            pkg("b", vec![dep(3, DepKind::Normal, &["std"])]),
            pkg("log", vec![]),
        ],
    };
    let ru = quick_resolve(&r, 0, &feats(&[]), BuildFor::Normal).unwrap();
    assert_eq!(ru.packages, vec![0, 1, 2, 3]);
    assert_eq!(ru.graph.deps, vec![vec![1, 2], vec![3], vec![3], vec![]]);
    let s = schedule(&ru.graph, &ArtifactRepo::new()).unwrap();
    assert_eq!(s.steps.iter().filter(|st| st.action == StepAction::Build).count(), 4);
    assert_eq!(s.steps.last().unwrap().unit, 0);
}

#[test]
fn missing_package_is_a_resolution_error() {
    let r = CoarseResolve { packages: vec![pkg("app", vec![dep(5, DepKind::Normal, &[])])] };
    assert!(matches!(quick_resolve(&r, 0, &feats(&[]), BuildFor::Normal), Err(ResolveError::MissingPackage)));
    let r2 = CoarseResolve { packages: vec![pkg("app", vec![])] };
    assert!(matches!(quick_resolve(&r2, 1, &feats(&[]), BuildFor::Normal), Err(ResolveError::MissingPackage)));
}

#[test]
fn plan_target_resolves_and_schedules() {
    let r = CoarseResolve {
        packages: vec![
            pkg("app", vec![dep(1, DepKind::Normal, &[])]),
            pkg("lib", vec![dep(2, DepKind::Normal, &[])]),
            pkg("core-lib", vec![]),
        ],
    };
    let (ru, s) = plan_target(&r, 0, &feats(&[]), BuildFor::Normal, &ArtifactRepo::new()).unwrap();
    assert_eq!(ru.packages, vec![0, 1, 2]);
    let order: Vec<usize> = s.steps.iter().map(|st| st.unit).collect();
    assert_eq!(order, vec![2, 1, 0]);
    let cyclic = CoarseResolve {
        packages: vec![pkg("x", vec![dep(1, DepKind::Normal, &[])]), pkg("y", vec![dep(0, DepKind::Normal, &[])])],
    };
    assert!(matches!(plan_target(&cyclic, 0, &feats(&[]), BuildFor::Normal, &ArtifactRepo::new()), Err(PlanError::Cycle)));
    let broken = CoarseResolve { packages: vec![pkg("x", vec![dep(9, DepKind::Normal, &[])])] };
    assert!(matches!(plan_target(&broken, 0, &feats(&[]), BuildFor::Normal, &ArtifactRepo::new()), Err(PlanError::MissingPackage)));
}
