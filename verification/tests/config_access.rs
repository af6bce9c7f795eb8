//! The configuration access protocol: deferred writes and batching.

use nenv::config::{Config, ConfigAccess, DownloadConfig, NodeConfig, NODE_DIST_URL};
use nenv::node_version::NodeVersion;

fn custom(default_version: NodeVersion) -> Config {
    Config {
        node: NodeConfig { default_version },
        download: DownloadConfig {
            dist_base_url: "https://mirror.example/dist".to_string(),
        },
        bins: Vec::new(),
    }
}

#[test]
fn defaults() {
    let c = Config::default();
    assert_eq!(c.node.default_version, NodeVersion::LatestLts);
    assert_eq!(c.download.dist_base_url, NODE_DIST_URL);
    assert!(c.bins.is_empty());
}

#[test]
fn mutation_is_flushed_exactly_once_by_the_next_read() {
    let mut access = ConfigAccess::new(Config::default());
    let (_, flushed) = access.get();
    assert!(!flushed, "a fresh configuration has nothing pending");

    let (_, flush_before) = access.set(custom(NodeVersion::Latest));
    assert!(!flush_before, "nothing was pending before the mutation");

    let (value, write_now) = access.get();
    assert_eq!(value.node.default_version, NodeVersion::Latest);
    assert!(write_now, "the first read after a mutation demands the write");

    let (value, write_again) = access.get();
    assert_eq!(value.node.default_version, NodeVersion::Latest);
    assert!(
        !write_again,
        "a second read with no intervening mutation demands no write"
    );
}

#[test]
fn back_to_back_mutations_batch_into_one_write() {
    let mut access = ConfigAccess::new(Config::default());
    let (_, first) = access.set(custom(NodeVersion::Latest));
    assert!(!first);
    let (previous, second) = access.set(custom(NodeVersion::LatestLts));
    assert!(second, "the second mutation flushes the first");
    assert_eq!(previous.node.default_version, NodeVersion::Latest);
    let (value, write_now) = access.get();
    assert_eq!(value.node.default_version, NodeVersion::LatestLts);
    assert!(write_now);
    let (_, write_again) = access.get();
    assert!(!write_again);
}

#[test]
fn pinning_replaces_and_unpinning_removes() {
    let mut c = Config::default();
    c.pin_command("yarn".to_string(), NodeVersion::parse("18.0.0"));
    c.pin_command("deno".to_string(), NodeVersion::parse("lts"));
    assert_eq!(c.pinned_names(), vec!["yarn".to_string(), "deno".to_string()]);

    c.pin_command("yarn".to_string(), NodeVersion::parse("20.0.0"));
    assert_eq!(c.pinned_names(), vec!["yarn".to_string(), "deno".to_string()]);
    let pinned = c
        .bins
        .iter()
        .find(|(name, _)| name == "yarn")
        .map(|(_, e)| e.node_version.format())
        .expect("yarn stays pinned");
    assert_eq!(pinned, "^20.0.0");

    c.unpin_command("yarn");
    assert_eq!(c.pinned_names(), vec!["deno".to_string()]);
    c.unpin_command("absent");
    assert_eq!(c.pinned_names(), vec!["deno".to_string()]);
}

#[test]
fn persist_flushes_unconditionally() {
    let mut access = ConfigAccess::new(Config::default());
    access.set(custom(NodeVersion::Latest));
    let written = access.persist();
    assert_eq!(written.node.default_version, NodeVersion::Latest);
    // An explicit persist does not stand in for a read: the next read
    // still flushes.
    let (_, write_now) = access.get();
    assert!(write_now);
}
