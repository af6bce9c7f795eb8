//! Catalog construction and resolution.

use nenv::node_version::NodeVersion;
use nenv::resolver::{lookup_remote_version, VersionError};
use nenv::versioning::{LtsInfo, SimpleVersion, VersionInfo};
use nenv::versions::Versions;

fn v(major: u16, minor: u16, patch: u32) -> SimpleVersion {
    SimpleVersion::new(major, minor, patch)
}

fn release(major: u16, minor: u16, patch: u32, lts: Option<&str>) -> VersionInfo {
    VersionInfo {
        version: v(major, minor, patch),
        lts: match lts {
            Some(name) => LtsInfo::Version(name.to_string()),
            None => LtsInfo::NotLts(false),
        },
    }
}

fn catalog() -> Versions {
    Versions::new(vec![
        release(19, 3, 0, None),
        release(18, 0, 0, Some("Hydrogen")),
        release(18, 12, 1, Some("Hydrogen")),
        release(20, 9, 0, Some("Iron")),
        release(21, 1, 0, None),
        release(16, 20, 2, Some("Gallium")),
    ])
}

#[test]
fn latest_is_maximum_of_sorted_versions() {
    let c = catalog();
    let m = c.latest();
    assert_eq!(m.version, v(21, 1, 0));
    assert_eq!(
        *c.sorted_versions.last().unwrap(),
        m.version,
        "latest must be the last sorted version"
    );
}

#[test]
fn sorted_versions_ascending() {
    let c = catalog();
    let sorted = &c.sorted_versions;
    assert_eq!(sorted.len(), 6);
    for w in sorted.windows(2) {
        assert!(w[0].lt(&w[1]));
    }
    assert_eq!(sorted[0], v(16, 20, 2));
    assert_eq!(sorted[5], v(21, 1, 0));
}

#[test]
fn latest_lts_takes_maximum_across_lts_lines() {
    let c = catalog();
    let m = c.latest_lts();
    assert_eq!(m.version, v(20, 9, 0));
    assert_eq!(m.lts.as_deref(), Some("Iron"));
}

#[test]
fn get_lts_returns_maximum_of_the_line() {
    let c = catalog();
    let m = c.get_lts("hydrogen").expect("hydrogen is known");
    assert_eq!(m.version, v(18, 12, 1));
    assert!(c.get_lts("carbon").is_none());
}

#[test]
fn resolve_unknown_codename_is_unknown_version() {
    let c = catalog();
    let err = lookup_remote_version(&c, &NodeVersion::Lts("carbon".to_string()))
        .expect_err("carbon is absent");
    match err {
        VersionError::UnknownVersion(token) => assert_eq!(token, "carbon"),
        other => panic!("expected UnknownVersion, got {other:?}"),
    }
}

#[test]
fn resolve_known_codename_is_line_maximum() {
    let c = catalog();
    let m = lookup_remote_version(&c, &NodeVersion::parse("lts/hydrogen"));
    // "lts/hydrogen" parses to the codename "lts/hydrogen", which is not
    // in the map; the plain codename resolves.
    assert!(m.is_err());
    let m = lookup_remote_version(&c, &NodeVersion::parse("hydrogen")).expect("known line");
    assert_eq!(m.version, v(18, 12, 1));
}

#[test]
fn resolve_range_takes_maximum_match() {
    let c = catalog();
    let m = lookup_remote_version(&c, &NodeVersion::parse("^18")).expect("18.x exists");
    assert_eq!(m.version, v(18, 12, 1));
    let m = lookup_remote_version(&c, &NodeVersion::parse("18.0.0")).expect("caret range");
    assert_eq!(m.version, v(18, 12, 1));
    let m = lookup_remote_version(&c, &NodeVersion::parse("=18.0.0")).expect("exact range");
    assert_eq!(m.version, v(18, 0, 0));
}

#[test]
fn resolve_unfulfillable_range_reports_the_range() {
    let c = catalog();
    let err =
        lookup_remote_version(&c, &NodeVersion::parse("^99")).expect_err("no such major");
    match err {
        VersionError::Unfulfillable(range) => assert_eq!(range, "^99"),
        other => panic!("expected Unfulfillable, got {other:?}"),
    }
}

#[test]
fn resolve_latest_keyword() {
    let c = catalog();
    let m = lookup_remote_version(&c, &NodeVersion::Latest).expect("catalog not empty");
    assert_eq!(m.version, v(21, 1, 0));
    let m = lookup_remote_version(&c, &NodeVersion::LatestLts).expect("has lts");
    assert_eq!(m.version, v(20, 9, 0));
}

#[test]
fn get_exact_version() {
    let c = catalog();
    let m = c.get(&v(19, 3, 0)).expect("known");
    assert_eq!(m.version, v(19, 3, 0));
    assert!(m.lts.is_none());
    assert!(c.get(&v(19, 9, 9)).is_none());
}

#[test]
fn duplicate_releases_keep_one_entry() {
    let c = Versions::new(vec![
        release(18, 0, 0, None),
        release(18, 0, 0, Some("Hydrogen")),
    ]);
    assert_eq!(c.sorted_versions.len(), 1);
    let m = c.get(&v(18, 0, 0)).expect("known");
    // The later entry wins.
    assert_eq!(m.lts.as_deref(), Some("Hydrogen"));
}
