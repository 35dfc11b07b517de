use quickbuild::fingerprint::{encode_byte_list, fingerprint, UnitDesc};
use quickbuild::graph::{topo_order, UnitGraph};
use quickbuild::repo::{ArtifactRepo, FetchError, PublishError};
use quickbuild::scheduler::{recovery, schedule, Failure, Recovery, Schedule, ScheduleError, StepAction};
use quickbuild::unpack::{pending_restores, OutputDir, RestoreError};

fn unit(name: &str) -> UnitDesc {
    unit_with_features(name, &[])
}

fn unit_with_features(name: &str, features: &[&str]) -> UnitDesc {
    UnitDesc {
        package: name.as_bytes().to_vec(),
        version: b"1.0.0".to_vec(),
        source: b"registry+https://github.com/rust-lang/crates.io-index".to_vec(),
        checksum: format!("sum-{name}").into_bytes(),
        features: features.iter().map(|f| f.as_bytes().to_vec()).collect(),
        target_kind: b"lib".to_vec(),
        profile: b"dev".to_vec(),
    }
}

/// Stand-in for the compiler: the archive of a unit is derived from its fingerprint.
fn compile(fp: &[u8]) -> Vec<u8> {
    let mut a = b"archive:".to_vec();
    a.extend_from_slice(fp);
    a
}

struct Run {
    built: Vec<usize>,
    restored: Vec<usize>,
    published: usize,
    materialized: usize,
}

/// Follows a schedule the way the application does: build and publish each
/// missing unit, fetch each cached one, and unpack every unit into `dir`.
fn execute(s: &Schedule, repo: &mut ArtifactRepo, dir: &mut OutputDir) -> Run {
    let mut run = Run { built: vec![], restored: vec![], published: 0, materialized: 0 };
    for step in &s.steps {
        match step.action {
            StepAction::Build => {
                let archive = compile(&step.fingerprint);
                repo.publish(&step.fingerprint, &archive).unwrap();
                run.published += 1;
                run.built.push(step.unit);
            }
            StepAction::Restore => {
                let archive = repo.fetch(&step.fingerprint).unwrap();
                assert_eq!(archive, compile(&step.fingerprint));
                run.restored.push(step.unit);
            }
        }
        dir.restore(step.unit, &step.fingerprint, &step.fingerprint).unwrap();
        run.materialized += 1;
    }
    run
}

/// A -> B -> C: unit 0 is A, 1 is B, 2 is C.
fn chain() -> UnitGraph {
    UnitGraph { units: vec![unit("a"), unit("b"), unit("c")], deps: vec![vec![1], vec![2], vec![]] }
}

#[test]
fn chain_with_empty_cache_builds_bottom_up() {
    let g = chain();
    let mut repo = ArtifactRepo::new();
    let s = schedule(&g, &repo).unwrap();
    let mut dir = OutputDir::new(3);
    let run = execute(&s, &mut repo, &mut dir);
    assert_eq!(run.built, vec![2, 1, 0]);
    assert_eq!(run.published, 3);
    assert_eq!(run.materialized, 3);
    assert!(run.restored.is_empty());
}

#[test]
fn chain_with_leaf_cached_restores_leaf() {
    let g = chain();
    let mut repo = ArtifactRepo::new();
    let first = schedule(&g, &repo).unwrap();
    let c_fp = first.fingerprints[2].clone();
    repo.publish(&c_fp, &compile(&c_fp)).unwrap();
    let s = schedule(&g, &repo).unwrap();
    let mut dir = OutputDir::new(3);
    let run = execute(&s, &mut repo, &mut dir);
    assert_eq!(run.restored, vec![2]);
    assert_eq!(run.built, vec![1, 0]);
    assert_eq!(run.published, 2);
    assert_eq!(run.materialized, 3);
}

#[test]
fn shared_dependency_is_reused_across_invocations() {
    let mut repo = ArtifactRepo::new();
    let g1 = UnitGraph { units: vec![unit("app-one"), unit("d")], deps: vec![vec![1], vec![]] };
    let s1 = schedule(&g1, &repo).unwrap();
    execute(&s1, &mut repo, &mut OutputDir::new(2));
    let g2 = UnitGraph { units: vec![unit("d"), unit("app-two")], deps: vec![vec![], vec![0]] };
    let s2 = schedule(&g2, &repo).unwrap();
    let run = execute(&s2, &mut repo, &mut OutputDir::new(2));
    assert_eq!(run.restored, vec![0]);
    assert_eq!(run.built, vec![1]);
    assert_eq!(s1.fingerprints[1], s2.fingerprints[0]);
}

#[test]
fn diamond_builds_dependencies_first_and_once() {
    // 0 depends on 1 and 2, which both depend on 3.
    let g = UnitGraph {
        units: vec![unit("top"), unit("left"), unit("right"), unit("base")],
        deps: vec![vec![1, 2], vec![3], vec![3], vec![]],
    };
    let mut repo = ArtifactRepo::new();
    let s = schedule(&g, &repo).unwrap();
    let run = execute(&s, &mut repo, &mut OutputDir::new(4));
    let pos = |u: usize| run.built.iter().position(|&x| x == u).unwrap();
    assert_eq!(run.built.len(), 4);
    for (u, ds) in g.deps.iter().enumerate() {
        for &d in ds {
            assert!(pos(d) < pos(u));
        }
    }
}

#[test]
fn full_cache_hit_builds_nothing() {
    let g = chain();
    let mut repo = ArtifactRepo::new();
    let s = schedule(&g, &repo).unwrap();
    execute(&s, &mut repo, &mut OutputDir::new(3));
    let again = schedule(&g, &repo).unwrap();
    let run = execute(&again, &mut repo, &mut OutputDir::new(3));
    assert!(run.built.is_empty());
    assert_eq!(run.restored.len(), 3);
}

#[test]
fn cycle_is_reported() {
    let g = UnitGraph { units: vec![unit("x"), unit("y")], deps: vec![vec![1], vec![0]] };
    assert!(topo_order(&g).is_none());
    assert!(matches!(schedule(&g, &ArtifactRepo::new()), Err(ScheduleError::Cycle)));
}

#[test]
fn topo_order_lists_each_unit_once() {
    let g = chain();
    assert_eq!(topo_order(&g).unwrap(), vec![2, 1, 0]);
}

#[test]
fn fingerprint_is_deterministic_and_tracks_dependencies() {
    let u = unit_with_features("serde", &["derive", "std"]);
    let d1 = vec![b"dep-one".to_vec()];
    let d2 = vec![b"dep-two".to_vec()];
    assert_eq!(fingerprint(&u, &d1), fingerprint(&u, &d1));
    assert_ne!(fingerprint(&u, &d1), fingerprint(&u, &d2));
    assert_ne!(fingerprint(&u, &d1), fingerprint(&u, &vec![]));
    let other = unit_with_features("serde", &["derive"]);
    assert_ne!(fingerprint(&u, &d1), fingerprint(&other, &d1));
}

#[test]
fn change_below_propagates_to_top() {
    let g1 = chain();
    let mut g2 = chain();
    g2.units[2].version = b"1.0.1".to_vec();
    let s1 = schedule(&g1, &ArtifactRepo::new()).unwrap();
    let s2 = schedule(&g2, &ArtifactRepo::new()).unwrap();
    assert_ne!(s1.fingerprints[0], s2.fingerprints[0]);
}

#[test]
fn list_encoding_is_exact() {
    let l = vec![b"ab".to_vec(), vec![]];
    let expected: Vec<u8> = vec![2, 0, 0, 0, 0, 0, 0, 0, 2, 0, 0, 0, 0, 0, 0, 0, b'a', b'b', 0, 0, 0, 0, 0, 0, 0, 0];
    assert_eq!(encode_byte_list(&l), expected);
    assert_eq!(encode_byte_list(&vec![]), vec![0u8; 8]);
}

#[test]
fn publish_then_fetch_round_trips() {
    let mut repo = ArtifactRepo::new();
    let fp = b"fp".to_vec();
    assert_eq!(repo.fetch(&fp), Err(FetchError::NotFound));
    assert!(!repo.contains(&fp));
    repo.publish(&fp, &b"bytes".to_vec()).unwrap();
    assert!(repo.contains(&fp));
    assert_eq!(repo.fetch(&fp).unwrap(), b"bytes".to_vec());
}

#[test]
fn publish_is_idempotent_and_detects_conflicts() {
    let mut repo = ArtifactRepo::new();
    let fp = b"fp".to_vec();
    assert_eq!(repo.publish(&fp, &b"one".to_vec()), Ok(()));
    assert_eq!(repo.publish(&fp, &b"one".to_vec()), Ok(()));
    assert_eq!(repo.publish(&fp, &b"two".to_vec()), Err(PublishError::Conflict));
    assert_eq!(repo.fetch(&fp).unwrap(), b"one".to_vec());
}

#[test]
fn mismatched_archive_is_not_unpacked() {
    let mut dir = OutputDir::new(2);
    assert_eq!(dir.restore(0, &b"want".to_vec(), &b"other".to_vec()), Err(RestoreError::Mismatch));
    assert!(!dir.is_current(0, &b"want".to_vec()));
    assert_eq!(dir.restore(0, &b"want".to_vec(), &b"want".to_vec()), Ok(()));
    assert_eq!(dir.restore(0, &b"want".to_vec(), &b"want".to_vec()), Ok(()));
    assert!(dir.is_current(0, &b"want".to_vec()));
    assert!(!dir.is_current(1, &b"want".to_vec()));
}

#[test]
fn only_missing_outputs_are_unpacked() {
    let g = chain();
    let s = schedule(&g, &ArtifactRepo::new()).unwrap();
    let mut dir = OutputDir::new(3);
    assert_eq!(pending_restores(&s.steps, &dir), vec![0, 1, 2]);
    let fp_b = s.fingerprints[1].clone();
    dir.restore(1, &fp_b, &fp_b).unwrap();
    assert_eq!(pending_restores(&s.steps, &dir), vec![0, 2]);
}

#[test]
fn recovery_follows_the_failure_class() {
    assert_eq!(recovery(Failure::RepoUnavailable, 0, 3), Recovery::Retry);
    assert_eq!(recovery(Failure::RepoUnavailable, 2, 3), Recovery::Retry);
    assert_eq!(recovery(Failure::RepoUnavailable, 3, 3), Recovery::BuildLocally);
    assert_eq!(recovery(Failure::RestoreFailed, 0, 3), Recovery::BuildLocally);
    assert_eq!(recovery(Failure::RepoConflict, 0, 3), Recovery::Abort);
    assert_eq!(recovery(Failure::BuildFailed, 0, 3), Recovery::Abort);
}
