//! Environment detection: each probe's reading, and the fixed
//! precedence of their combination.

use nenv::node_version::NodeVersion;
use nenv::version_detection::{
    EnvDetector, PackageJsonDetector, ParallelDetector, VersionFileDetector,
};

#[test]
fn pin_file_beats_manifest_beats_environment() {
    let file = VersionFileDetector::version_from_content("18.0.0\n");
    let manifest = PackageJsonDetector::version_from_engines(Some("^16"));
    let env = EnvDetector::version_from_env(Some("20.0.0"));
    assert!(file.is_some() && manifest.is_some() && env.is_some());
    let combined = ParallelDetector::combine(file, manifest, env);
    assert_eq!(combined, Some(NodeVersion::parse("18.0.0")));
}

#[test]
fn manifest_wins_without_pin_file() {
    let manifest = PackageJsonDetector::version_from_engines(Some("^16"));
    let env = EnvDetector::version_from_env(Some("20.0.0"));
    let combined = ParallelDetector::combine(None, manifest, env);
    assert_eq!(combined, Some(NodeVersion::parse("^16")));
}

#[test]
fn environment_is_the_last_resort() {
    let env = EnvDetector::version_from_env(Some("20.0.0"));
    let combined = ParallelDetector::combine(None, None, env);
    assert_eq!(combined, Some(NodeVersion::parse("20.0.0")));
    assert_eq!(ParallelDetector::combine(None, None, None), None);
}

#[test]
fn pin_file_first_line_wins() {
    assert_eq!(
        VersionFileDetector::version_from_content("18.0.0\n20.0.0\n"),
        Some(NodeVersion::parse("18.0.0"))
    );
    assert_eq!(
        VersionFileDetector::version_from_content("18.0.0\r\nnext"),
        Some(NodeVersion::parse("18.0.0"))
    );
    // Parsing a selector never fails, so even a line that is no
    // version decides, as a codename.
    assert_eq!(
        VersionFileDetector::version_from_content("wat\n18.0.0"),
        Some(NodeVersion::Lts("wat".to_string()))
    );
    assert_eq!(VersionFileDetector::version_from_content(""), None);
}

#[test]
fn manifest_probe_reads_the_engines_range() {
    assert_eq!(
        PackageJsonDetector::version_from_engines(Some("^16")),
        Some(NodeVersion::parse("^16"))
    );
    assert_eq!(PackageJsonDetector::version_from_engines(None), None);
    assert_eq!(
        PackageJsonDetector::version_from_engines(Some("not a range !!")),
        None
    );
}

#[test]
fn environment_probe_parses_the_variable() {
    assert_eq!(
        EnvDetector::version_from_env(Some("lts")),
        Some(NodeVersion::LatestLts)
    );
    assert_eq!(EnvDetector::version_from_env(None), None);
}
