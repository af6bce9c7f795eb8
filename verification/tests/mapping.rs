//! Shim reconciliation, command resolution, and path construction.

use nenv::mapper::{
    exclude_path, reconcile_plan, shim_script, Mapper, MappedCommand, NodeApp,
};
use nenv::node_path::{build_version_path, NodePath, Platform};
use nenv::versioning::SimpleVersion;

fn names(v: &[&str]) -> Vec<String> {
    v.iter().map(|s| s.to_string()).collect()
}

#[test]
fn reconcile_makes_shims_match_bin_dir() {
    let plan = reconcile_plan(
        &names(&["node", "npm", "npx"]),
        &names(&["node", "yarr"]),
        &Vec::new(),
    );
    assert_eq!(plan.writes, names(&["node", "npm", "npx"]));
    assert_eq!(plan.deletes, names(&["yarr"]));
    // Applying the plan: {node, yarr} minus deletes plus writes.
    let mut after: Vec<String> = names(&["node", "yarr"]);
    after.retain(|n| !plan.deletes.contains(n));
    for w in &plan.writes {
        if !after.contains(w) {
            after.push(w.clone());
        }
    }
    after.sort();
    assert_eq!(after, names(&["node", "npm", "npx"]));
}

#[test]
fn reconcile_twice_changes_nothing() {
    let bins = names(&["node", "npm", "npx"]);
    let first = reconcile_plan(&bins, &names(&["node", "yarr"]), &Vec::new());
    // After the first pass the shim directory equals the bin listing.
    let second = reconcile_plan(&bins, &bins, &Vec::new());
    assert_eq!(second.deletes, Vec::<String>::new());
    assert_eq!(second.writes, first.writes);
}

#[test]
fn reconcile_spares_pinned_shims() {
    let plan = reconcile_plan(
        &names(&["node"]),
        &names(&["yarn", "old"]),
        &names(&["yarn"]),
    );
    assert_eq!(plan.writes, names(&["node"]));
    assert_eq!(plan.deletes, names(&["old"]));
}

#[test]
fn command_not_found_carries_the_attempted_path() {
    let cmd = MappedCommand::new(
        "deno".to_string(),
        "/data/bin/deno".to_string(),
        Vec::new(),
        Platform::Posix,
    );
    let err = cmd.resolve(&vec![false]).expect_err("nothing exists");
    assert_eq!(err.command, "deno");
    assert_eq!(err.path, "/data/bin/deno");
}

#[test]
fn extension_probing_order_is_fixed() {
    let cmd = MappedCommand::new(
        "npm".to_string(),
        "C:\\nenv\\bin\\npm".to_string(),
        Vec::new(),
        Platform::Windows,
    );
    let cands = cmd.candidates();
    assert_eq!(
        cands,
        names(&[
            "C:\\nenv\\bin\\npm",
            "C:\\nenv\\bin\\npm.exe",
            "C:\\nenv\\bin\\npm.bat",
            "C:\\nenv\\bin\\npm.cmd",
            "C:\\nenv\\bin\\npm.ps1",
        ])
    );
    let picked = cmd
        .resolve(&vec![false, false, true, true, false])
        .expect("a candidate exists");
    assert_eq!(picked, "C:\\nenv\\bin\\npm.bat");
}

#[test]
fn shim_scripts_reinvoke_the_tool() {
    assert_eq!(
        shim_script("npm", Platform::Posix),
        "#!/bin/sh\nnenv exec npm \"$@\""
    );
    assert_eq!(
        shim_script("npm", Platform::Windows),
        "@echo off\nnenv exec npm %*"
    );
}

#[test]
fn node_app_name_is_the_file_stem() {
    let app = NodeApp::new("/data/versions/18.0.0/bin/npm".to_string(), Platform::Posix);
    assert_eq!(app.name().as_str(), "npm");
    let app = NodeApp::new("C:\\nenv\\bin\\npm.cmd".to_string(), Platform::Windows);
    assert_eq!(app.name().as_str(), "npm");
}

#[test]
fn excluded_entries() {
    assert!(!exclude_path("/bin/node", Platform::Posix));
    assert!(!exclude_path("node.exe", Platform::Windows));
    assert!(!exclude_path("node.bat", Platform::Windows));
    assert!(!exclude_path("node.cmd", Platform::Windows));
    assert!(!exclude_path("node.ps1", Platform::Windows));
    assert!(exclude_path("node.txt", Platform::Windows));
    assert!(exclude_path("node", Platform::Windows));
}

#[test]
fn node_path_layout() {
    let posix = NodePath::new("/data/versions/18.0.0/node-v18.0.0-linux-x64".to_string(), Platform::Posix);
    assert_eq!(posix.bin(), "/data/versions/18.0.0/node-v18.0.0-linux-x64/bin");
    assert_eq!(posix.lib(), "/data/versions/18.0.0/node-v18.0.0-linux-x64/lib");
    assert_eq!(
        posix.node_modules(),
        "/data/versions/18.0.0/node-v18.0.0-linux-x64/lib/node_modules"
    );
    let win = NodePath::new("C:\\nenv\\18.0.0".to_string(), Platform::Windows);
    assert_eq!(win.bin(), "C:\\nenv\\18.0.0");
    assert_eq!(win.lib(), "C:\\nenv\\18.0.0");
}

#[test]
fn version_path_names_the_unpacked_archive() {
    let p = build_version_path(
        "/data/versions",
        &SimpleVersion::new(18, 0, 0),
        "linux",
        "x64",
        Platform::Posix,
    );
    assert_eq!(p, "/data/versions/18.0.0/node-v18.0.0-linux-x64");
}

#[test]
fn mapper_builds_the_command_path() {
    let mapper = Mapper::new(NodePath::new(
        "/data/versions/18.0.0/node-v18.0.0-linux-x64".to_string(),
        Platform::Posix,
    ));
    let cmd = mapper.command("node".to_string(), names(&["--version"]));
    assert_eq!(cmd.path, "/data/versions/18.0.0/node-v18.0.0-linux-x64/bin/node");
    assert_eq!(cmd.args, names(&["--version"]));
}

#[test]
fn version_order_is_numeric() {
    assert!(SimpleVersion::new(1, 2, 3).lt(&SimpleVersion::new(1, 10, 0)));
    assert!(SimpleVersion::new(1, 9, 9).lt(&SimpleVersion::new(2, 0, 0)));
    assert!(SimpleVersion::new(1, 2, 3).le(&SimpleVersion::new(1, 2, 3)));
    assert!(!SimpleVersion::new(2, 0, 0).le(&SimpleVersion::new(1, 9, 9)));
}

#[test]
fn version_strings_are_decimal() {
    assert_eq!(SimpleVersion::new(1, 2, 3).to_version_string(), "1.2.3");
    assert_eq!(SimpleVersion::new(0, 0, 0).to_version_string(), "0.0.0");
    assert_eq!(
        SimpleVersion::new(65535, 65535, 4294967295).to_version_string(),
        "65535.65535.4294967295"
    );
}
