use quickbuild::install::{install_package_name, select_package, PackageVersion, SelectError, UsageError};

fn v(major: u64, minor: u64, patch: u64) -> PackageVersion {
    PackageVersion { major, minor, patch }
}

#[test]
fn install_takes_one_package() {
    let args = vec!["install".to_string(), "ripgrep".to_string()];
    assert_eq!(install_package_name(&args), Ok("ripgrep".to_string()));
    let short = vec!["install".to_string()];
    assert_eq!(install_package_name(&short), Err(UsageError::WrongArgumentCount));
    let long = vec!["install".to_string(), "a".to_string(), "b".to_string()];
    assert_eq!(install_package_name(&long), Err(UsageError::WrongArgumentCount));
}

#[test]
fn newest_version_is_selected() {
    let c = vec![v(1, 2, 3), v(1, 10, 0), v(0, 99, 99), v(1, 9, 7)];
    assert_eq!(select_package(&c, false), Ok(1));
    assert_eq!(select_package(&vec![v(2, 0, 0), v(2, 0, 0)], false), Ok(1));
}

#[test]
fn missing_package_errors() {
    assert_eq!(select_package(&vec![], true), Err(SelectError::Yanked));
    assert_eq!(select_package(&vec![], false), Err(SelectError::NotFound));
}
