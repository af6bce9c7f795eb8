//! The installed inventory: ordering, idempotent insertion, removal,
//! and local resolution.

use nenv::local_versions::InstalledVersions;
use nenv::node_version::NodeVersion;
use nenv::resolver::{lookup_local_version, VersionError};
use nenv::versioning::{SimpleVersion, VersionMetadata};

fn v(major: u16, minor: u16, patch: u32) -> SimpleVersion {
    SimpleVersion::new(major, minor, patch)
}

fn entry(major: u16, minor: u16, patch: u32, lts: Option<&str>) -> (SimpleVersion, VersionMetadata) {
    (
        v(major, minor, patch),
        VersionMetadata {
            version: v(major, minor, patch),
            lts: lts.map(|s| s.to_string()),
        },
    )
}

#[test]
fn insert_twice_leaves_one_entry() {
    let mut inv = InstalledVersions::new(Vec::new());
    inv.insert(entry(18, 0, 0, Some("Hydrogen")));
    inv.insert(entry(18, 0, 0, None));
    let all = inv.all();
    assert_eq!(all, vec![v(18, 0, 0)]);
    // The entry written first is the one retained.
    assert_eq!(inv.latest().unwrap().lts.as_deref(), Some("Hydrogen"));
}

#[test]
fn new_sorts_and_deduplicates() {
    let inv = InstalledVersions::new(vec![
        entry(18, 0, 0, None),
        entry(16, 20, 2, Some("Gallium")),
        entry(18, 0, 0, Some("Hydrogen")),
        entry(20, 9, 0, Some("Iron")),
    ]);
    assert_eq!(inv.all(), vec![v(16, 20, 2), v(18, 0, 0), v(20, 9, 0)]);
    // The earliest duplicate wins.
    assert!(inv.lts("Hydrogen").is_none());
}

#[test]
fn remove_keeps_order() {
    let mut inv = InstalledVersions::new(vec![
        entry(16, 20, 2, None),
        entry(18, 0, 0, None),
        entry(20, 9, 0, None),
    ]);
    inv.remove(&v(18, 0, 0));
    assert_eq!(inv.all(), vec![v(16, 20, 2), v(20, 9, 0)]);
    inv.remove(&v(9, 9, 9));
    assert_eq!(inv.all(), vec![v(16, 20, 2), v(20, 9, 0)]);
}

#[test]
fn latest_and_latest_lts() {
    let inv = InstalledVersions::new(vec![
        entry(16, 20, 2, Some("Gallium")),
        entry(18, 12, 1, Some("Hydrogen")),
        entry(21, 1, 0, None),
    ]);
    assert_eq!(inv.latest().unwrap().version, v(21, 1, 0));
    assert_eq!(inv.latest_lts().unwrap().version, v(18, 12, 1));
    let empty = InstalledVersions::new(Vec::new());
    assert!(empty.latest().is_none());
    assert!(empty.latest_lts().is_none());
}

#[test]
fn local_resolution_refuses_latest() {
    let inv = InstalledVersions::new(vec![entry(18, 0, 0, None)]);
    let err = lookup_local_version(&inv, &NodeVersion::Latest).expect_err("unsupported");
    assert!(matches!(err, VersionError::Unsupported(NodeVersion::Latest)));
    let err = lookup_local_version(&inv, &NodeVersion::LatestLts).expect_err("unsupported");
    assert!(matches!(err, VersionError::Unsupported(NodeVersion::LatestLts)));
}

#[test]
fn local_resolution_by_codename_and_range() {
    let inv = InstalledVersions::new(vec![
        entry(18, 0, 0, Some("Hydrogen")),
        entry(18, 12, 1, Some("Hydrogen")),
        entry(20, 9, 0, Some("Iron")),
    ]);
    let m = lookup_local_version(&inv, &NodeVersion::Lts("Hydrogen".to_string()))
        .expect("installed line");
    assert_eq!(m.version, v(18, 12, 1));
    let err = lookup_local_version(&inv, &NodeVersion::Lts("carbon".to_string()))
        .expect_err("absent line");
    assert!(matches!(err, VersionError::UnknownVersion(ref t) if t == "carbon"));
    let m = lookup_local_version(&inv, &NodeVersion::parse("^18")).expect("satisfied");
    assert_eq!(m.version, v(18, 12, 1));
    let err = lookup_local_version(&inv, &NodeVersion::parse("^99")).expect_err("unsatisfied");
    assert!(matches!(err, VersionError::Unfulfillable(ref r) if r == "^99"));
}

#[test]
fn error_constructors_carry_their_input() {
    assert!(matches!(
        VersionError::unknown_version("x".to_string()),
        VersionError::UnknownVersion(ref t) if t == "x"
    ));
    assert!(matches!(
        VersionError::unfulfillable_version("^9".to_string()),
        VersionError::Unfulfillable(ref t) if t == "^9"
    ));
    assert!(matches!(
        VersionError::not_installed(NodeVersion::Latest),
        VersionError::NotInstalled(NodeVersion::Latest)
    ));
    assert!(matches!(
        VersionError::unsupported(NodeVersion::LatestLts),
        VersionError::Unsupported(NodeVersion::LatestLts)
    ));
}
