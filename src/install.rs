//! Decisions of the `install` command: reading its arguments and choosing the
//! package version to build.
use vstd::prelude::*;

verus! {

/// Why the command line was refused.
#[derive(Debug, Clone, Copy, PartialEq, Eq)]
pub enum UsageError {
    /// `install` takes exactly one package name.
    WrongArgumentCount,
}

/// The package named by the arguments `install <package>`.
pub fn install_package_name(args: &Vec<String>) -> (r: Result<String, UsageError>)
    ensures
        match r {
            Ok(name) => args@.len() == 2 && name@ == args@[1]@,
            Err(e) => args@.len() != 2 && e == UsageError::WrongArgumentCount,
        },
{
    if args.len() != 2 {
        return Err(UsageError::WrongArgumentCount);
    }
    Ok(args[1].clone())
}

/// A release version of a package.
#[derive(Debug, Clone, Copy, PartialEq, Eq)]
pub struct PackageVersion {
    pub major: u64,
    pub minor: u64,
    pub patch: u64,
}

/// `a` is not newer than `b`, comparing major, then minor, then patch.
pub open spec fn version_le(a: PackageVersion, b: PackageVersion) -> bool {
    a.major < b.major || (a.major == b.major && (a.minor < b.minor || (a.minor == b.minor
        && a.patch <= b.patch)))
}

fn not_newer(a: &PackageVersion, b: &PackageVersion) -> (r: bool)
    ensures
        r == version_le(*a, *b),
{
    a.major < b.major || (a.major == b.major && (a.minor < b.minor || (a.minor == b.minor
        && a.patch <= b.patch)))
}

/// Why no package could be selected.
#[derive(Debug, Clone, Copy, PartialEq, Eq)]
pub enum SelectError {
    /// The exact version asked for exists but was yanked.
    Yanked,
    /// No version matches the requirement.
    NotFound,
}

/// Position of the newest of the candidate versions; among equal newest ones, the last.
/// When there is none, the error says whether the version asked for was yanked.
pub fn select_package(candidates: &Vec<PackageVersion>, yanked: bool) -> (r: Result<usize, SelectError>)
    ensures
        match r {
            Ok(i) => {
                &&& i < candidates@.len()
                &&& forall|j: int| 0 <= j < candidates@.len() ==> version_le(#[trigger] candidates@[j], candidates@[i as int])
                &&& forall|j: int| i < j < candidates@.len() ==> !version_le(candidates@[i as int], #[trigger] candidates@[j])
            },
            Err(e) => candidates@.len() == 0 && e == (if yanked {
                SelectError::Yanked
            } else {
                SelectError::NotFound
            }),
        },
{
    if candidates.len() == 0 {
        return if yanked {
            Err(SelectError::Yanked)
        } else {
            Err(SelectError::NotFound)
        };
    }
    let mut best: usize = 0;
    let mut i: usize = 1;
    while i < candidates.len()
        invariant
            0 < i <= candidates@.len(),
            best < i,
            forall|j: int| 0 <= j < i ==> version_le(#[trigger] candidates@[j], candidates@[best as int]),
            forall|j: int| best < j < i ==> !version_le(candidates@[best as int], #[trigger] candidates@[j]),
        decreases candidates@.len() - i,
    {
        if not_newer(&candidates[best], &candidates[i]) {
            best = i;
        }
        i = i + 1;
    }
    Ok(best)
}

} // verus!
