//! Selector parsing and canonical formatting.

use nenv::node_version::NodeVersion;

fn round_trips(s: &str) {
    let parsed = NodeVersion::parse(s);
    let reparsed = NodeVersion::parse(parsed.format().as_str());
    assert_eq!(parsed, reparsed, "round trip failed for {s}");
}

#[test]
fn parse_format_round_trip_battery() {
    for s in [
        "latest",
        "lts",
        "lts/hydrogen",
        "1",
        "1.2",
        "1.2.3",
        "^1.2.3",
        "v1.2.3",
    ] {
        round_trips(s);
    }
}

#[test]
fn parse_keywords_case_insensitive() {
    assert_eq!(NodeVersion::parse("latest"), NodeVersion::Latest);
    assert_eq!(NodeVersion::parse("LATEST"), NodeVersion::Latest);
    assert_eq!(NodeVersion::parse("lts"), NodeVersion::LatestLts);
    assert_eq!(NodeVersion::parse("LTS"), NodeVersion::LatestLts);
}

#[test]
fn parse_codename_folds_case() {
    assert_eq!(
        NodeVersion::parse("Hydrogen"),
        NodeVersion::Lts("hydrogen".to_string())
    );
}

#[test]
fn parse_partial_versions_normalize_to_ranges() {
    assert_eq!(NodeVersion::parse("1").format(), "^1");
    assert_eq!(NodeVersion::parse("1.2").format(), "^1.2");
    assert_eq!(NodeVersion::parse("1.2.3").format(), "^1.2.3");
    assert_eq!(NodeVersion::parse("^1.2.3").format(), "^1.2.3");
    assert_eq!(NodeVersion::parse(">=16, <19").format(), ">=16, <19");
}

#[test]
fn parse_strips_whitespace_and_v_prefix() {
    assert_eq!(
        NodeVersion::parse("  v18.0.0  "),
        NodeVersion::parse("18.0.0")
    );
    assert_eq!(NodeVersion::parse("v1.2.3").format(), "^1.2.3");
}

#[test]
fn format_keywords() {
    assert_eq!(NodeVersion::Latest.format(), "latest");
    assert_eq!(NodeVersion::LatestLts.format(), "lts");
    assert_eq!(
        NodeVersion::Lts("hydrogen".to_string()).format(),
        "hydrogen"
    );
}
