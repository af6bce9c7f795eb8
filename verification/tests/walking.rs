//! Ancestor walking, candidate probing, and the top-level decisions.

use nenv::nenv::{
    decide_exec_preparation, decide_install, decide_set_default, decide_uninstall,
    DefaultDecision, ExecPreparation, InstallDecision, UninstallDecision,
};
use nenv::node_path::{prepend_search_path, Platform};
use nenv::utils::{candidate_files, dir_parts, find_in_parents};

fn names(v: &[&str]) -> Vec<String> {
    v.iter().map(|s| s.to_string()).collect()
}

#[test]
fn dir_parts_walks_to_the_root() {
    assert_eq!(dir_parts("/a/b", Platform::Posix), names(&["/a/b", "/a", "/"]));
    assert_eq!(dir_parts("a/b", Platform::Posix), names(&["a/b", "a", ""]));
    assert_eq!(dir_parts("/", Platform::Posix), names(&["/"]));
    assert_eq!(dir_parts("", Platform::Posix), names(&[""]));
    assert_eq!(
        dir_parts("x\\y", Platform::Windows),
        names(&["x\\y", "x", ""])
    );
}

#[test]
fn candidate_files_join_each_ancestor() {
    let parts = dir_parts("/a/b", Platform::Posix);
    let cands = candidate_files(&parts, "package.json", Platform::Posix);
    assert_eq!(
        cands,
        names(&["/a/b/package.json", "/a/package.json", "//package.json"])
    );
}

#[test]
fn find_in_parents_takes_the_nearest_hit() {
    let cands = names(&["/a/b/.node-version", "/a/.node-version", "/.node-version"]);
    assert_eq!(
        find_in_parents(&cands, &vec![false, true, true]),
        Some("/a/.node-version".to_string())
    );
    assert_eq!(find_in_parents(&cands, &vec![false, false, false]), None);
}

#[test]
fn search_path_gains_the_bin_dir_first() {
    assert_eq!(
        prepend_search_path("/usr/bin:/bin", "/data/bin", Platform::Posix),
        "/data/bin:/usr/bin:/bin"
    );
    assert_eq!(prepend_search_path("", "/data/bin", Platform::Posix), "/data/bin");
    assert_eq!(
        prepend_search_path("C:\\w", "C:\\b", Platform::Windows),
        "C:\\b;C:\\w"
    );
}

#[test]
fn install_is_gated_by_confirmation_when_present() {
    assert_eq!(decide_install(true, false), InstallDecision::NoOp);
    assert_eq!(decide_install(true, true), InstallDecision::Install);
    assert_eq!(decide_install(false, false), InstallDecision::Install);
}

#[test]
fn uninstall_needs_confirmation() {
    assert_eq!(decide_uninstall(false), UninstallDecision::NoOp);
    assert_eq!(decide_uninstall(true), UninstallDecision::Uninstall);
}

#[test]
fn set_default_installs_missing_versions_only_when_confirmed() {
    assert_eq!(decide_set_default(true, false), DefaultDecision::Use);
    assert_eq!(decide_set_default(false, true), DefaultDecision::InstallAndUse);
    assert_eq!(decide_set_default(false, false), DefaultDecision::NoOp);
}

#[test]
fn exec_installs_the_active_version_first_when_missing() {
    assert_eq!(decide_exec_preparation(false), ExecPreparation::InstallFirst);
    assert_eq!(decide_exec_preparation(true), ExecPreparation::Ready);
}
