//! Cache encoding: round trips and rejection of malformed bytes.

use nenv::local_versions::InstalledVersions;
use nenv::node_version::NodeVersion;
use nenv::resolver::lookup_remote_version;
use nenv::versioning::{LtsInfo, SimpleVersion, VersionInfo, VersionMetadata};
use nenv::versions::Versions;

fn v(major: u16, minor: u16, patch: u32) -> SimpleVersion {
    SimpleVersion::new(major, minor, patch)
}

fn release(major: u16, minor: u16, patch: u32, lts: Option<&str>) -> VersionInfo {
    VersionInfo {
        version: v(major, minor, patch),
        lts: match lts {
            Some(name) => LtsInfo::Version(name.to_string()),
            None => LtsInfo::NotLts(false),
        },
    }
}

fn catalog() -> Versions {
    Versions::new(vec![
        release(18, 0, 0, Some("Hydrogen")),
        release(18, 12, 1, Some("Hydrogen")),
        release(20, 9, 0, Some("Iron")),
        release(21, 1, 0, None),
    ])
}

fn resolve_version(c: &Versions, spec: &str) -> Option<SimpleVersion> {
    lookup_remote_version(c, &NodeVersion::parse(spec))
        .ok()
        .map(|m| m.version)
}

#[test]
fn catalog_cache_round_trip_preserves_resolution() {
    let c = catalog();
    let bytes = c.to_cache_bytes();
    let c2 = Versions::from_cache_bytes(&bytes).expect("own encoding must decode");
    for spec in ["latest", "lts", "hydrogen", "iron", "^18", "=18.0.0", "^21", "20.9.0"] {
        assert_eq!(
            resolve_version(&c, spec),
            resolve_version(&c2, spec),
            "resolution differs after round trip for {spec}"
        );
    }
    assert_eq!(c.sorted_versions, c2.sorted_versions);
}

#[test]
fn catalog_cache_random_bytes_are_absent() {
    let garbage: Vec<u8> = vec![0xde, 0xad, 0xbe, 0xef, 0x01, 0x55, 0x90, 0x13, 0x37];
    assert!(Versions::from_cache_bytes(&garbage).is_none());
    let empty: Vec<u8> = Vec::new();
    assert!(Versions::from_cache_bytes(&empty).is_none());
}

#[test]
fn catalog_cache_truncation_and_trailing_bytes_are_rejected() {
    let c = catalog();
    let mut bytes = c.to_cache_bytes();
    let mut extended = bytes.clone();
    extended.push(0);
    assert!(Versions::from_cache_bytes(&extended).is_none());
    bytes.pop();
    assert!(Versions::from_cache_bytes(&bytes).is_none());
}

#[test]
fn inventory_cache_round_trip() {
    let mut inv = InstalledVersions::new(Vec::new());
    inv.insert((
        v(18, 0, 0),
        VersionMetadata {
            version: v(18, 0, 0),
            lts: Some("Hydrogen".to_string()),
        },
    ));
    inv.insert((
        v(21, 1, 0),
        VersionMetadata {
            version: v(21, 1, 0),
            lts: None,
        },
    ));
    let bytes = inv.to_cache_bytes();
    let inv2 = InstalledVersions::from_cache_bytes(&bytes).expect("own encoding must decode");
    assert_eq!(inv.all(), inv2.all());
    assert_eq!(
        inv2.lts("Hydrogen").map(|m| m.version),
        Some(v(18, 0, 0))
    );
}

#[test]
fn inventory_cache_random_bytes_are_absent() {
    let garbage: Vec<u8> = vec![7, 7, 7, 7, 7, 7, 7, 7, 7, 7];
    assert!(InstalledVersions::from_cache_bytes(&garbage).is_none());
}
