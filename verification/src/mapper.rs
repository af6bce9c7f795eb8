//! Mapping command names to the active toolchain's executables: shim
//! script generation, command path resolution with platform extension
//! probing, and the reconciliation plan that keeps the shim directory
//! in step with the active version's binaries. The filesystem work
//! happens outside; every decision is made here.

use vstd::prelude::*;

use crate::node_path::{join_spec, path_join, NodePath, Platform};
use crate::strutil::{seq_views, str_eq, vec_contains_str};
use crate::utils::{find_in_parents, first_true, rfind, rfind_char};

verus! {

/// The file name part of a path: everything after the last separator.
pub open spec fn basename_spec(s: Seq<char>, platform: Platform) -> Seq<char> {
    match rfind(s, platform.sep()) {
        None => s,
        Some(i) => s.skip(i + 1),
    }
}

/// The stem of a path's file name: the extension, if one exists and
/// does not begin the name, is removed.
pub open spec fn stem_spec(s: Seq<char>, platform: Platform) -> Seq<char> {
    let b = basename_spec(s, platform);
    match rfind(b, '.') {
        None => b,
        Some(i) => if i == 0 {
            b
        } else {
            b.take(i)
        },
    }
}

/// The extension of a path's file name, if one exists and does not
/// begin the name.
pub open spec fn ext_spec(s: Seq<char>, platform: Platform) -> Option<Seq<char>> {
    let b = basename_spec(s, platform);
    match rfind(b, '.') {
        None => None,
        Some(i) => if i == 0 {
            None
        } else {
            Some(b.skip(i + 1))
        },
    }
}

/// The file name part of a path.
pub fn basename(s: &str, platform: Platform) -> (r: String)
    ensures
        r@ == basename_spec(s@, platform),
{
    let len = s.unicode_len();
    match rfind_char(s, platform.separator()) {
        None => s.to_owned(),
        Some(i) => {
            proof {
                crate::utils::lemma_rfind_bounds(s@, platform.sep());
                assert(s@.subrange(i + 1, len as int) =~= s@.skip(i + 1));
            }
            s.substring_char(i + 1, len).to_owned()
        }
    }
}

/// The stem of a path's file name.
pub fn file_stem(s: &str, platform: Platform) -> (r: String)
    ensures
        r@ == stem_spec(s@, platform),
{
    let b = basename(s, platform);
    match rfind_char(b.as_str(), '.') {
        None => b,
        Some(i) => {
            proof {
                crate::utils::lemma_rfind_bounds(b@, '.');
            }
            if i == 0 {
                b
            } else {
                b.as_str().substring_char(0, i).to_owned()
            }
        }
    }
}

/// The extension of a path's file name.
pub fn extension_of(s: &str, platform: Platform) -> (r: Option<String>)
    ensures
        match r {
            Some(e) => ext_spec(s@, platform) == Some(e@),
            None => ext_spec(s@, platform) is None,
        },
{
    let b = basename(s, platform);
    let blen = b.as_str().unicode_len();
    match rfind_char(b.as_str(), '.') {
        None => None,
        Some(i) => {
            proof {
                crate::utils::lemma_rfind_bounds(b@, '.');
                if 0 < i {
                    assert(b@.subrange(i + 1, blen as int) =~= b@.skip(i + 1));
                }
            }
            if i == 0 {
                None
            } else {
                Some(b.as_str().substring_char(i + 1, blen).to_owned())
            }
        }
    }
}

/// Whether a directory entry is no executable worth mapping: on POSIX
/// platforms nothing is excluded; on the other platform only the
/// executable extensions are admitted.
pub open spec fn exclude_spec(s: Seq<char>, platform: Platform) -> bool {
    match platform {
        Platform::Posix => false,
        Platform::Windows => match ext_spec(s, platform) {
            None => true,
            Some(e) => !(e == "exe"@ || e == "bat"@ || e == "cmd"@ || e == "ps1"@),
        },
    }
}

/// Decides whether a directory entry is excluded from mapping.
pub fn exclude_path(path: &str, platform: Platform) -> (r: bool)
    ensures
        r == exclude_spec(path@, platform),
{
    match platform {
        Platform::Posix => false,
        Platform::Windows => match extension_of(path, platform) {
            None => true,
            Some(e) => !(str_eq(e.as_str(), "exe") || str_eq(e.as_str(), "bat") || str_eq(
                e.as_str(),
                "cmd",
            ) || str_eq(e.as_str(), "ps1")),
        },
    }
}

/// One executable of the active toolchain, known by the name its shim
/// will carry.
#[derive(Debug)]
pub struct NodeApp {
    pub path: String,
    pub name: String,
}

impl NodeApp {
    /// Wraps an executable's path; the shim name is the file stem.
    pub fn new(path: String, platform: Platform) -> (r: NodeApp)
        ensures
            r.path@ == path@,
            r.name@ == stem_spec(path@, platform),
    {
        let name = file_stem(path.as_str(), platform);
        NodeApp { path, name }
    }

    /// The name the shim will carry.
    pub fn name(&self) -> (r: &String)
        ensures
            r@ == self.name@,
    {
        &self.name
    }
}

/// The shim text for a command: a wrapper that re-enters this tool's
/// own `exec` entry point with the command's name.
pub open spec fn shim_script_spec(name: Seq<char>, platform: Platform) -> Seq<char> {
    match platform {
        Platform::Posix => "#!/bin/sh\nnenv exec "@ + name + " \"$@\""@,
        Platform::Windows => "@echo off\nnenv exec "@ + name + " %*"@,
    }
}

/// Renders the shim text for a command.
pub fn shim_script(name: &str, platform: Platform) -> (r: String)
    ensures
        r@ == shim_script_spec(name@, platform),
{
    let mut s = String::new();
    match platform {
        Platform::Posix => {
            s.append("#!/bin/sh\nnenv exec ");
            s.append(name);
            s.append(" \"$@\"");
        }
        Platform::Windows => {
            s.append("@echo off\nnenv exec ");
            s.append(name);
            s.append(" %*");
        }
    }
    proof {
        assert(s@ =~= shim_script_spec(name@, platform));
    }
    s
}

/// A command that could not be resolved to an executable, with the
/// path that was probed.
#[derive(Debug)]
pub struct CommandNotFoundError {
    pub command: String,
    pub path: String,
}

/// A directory that could not be listed during reconciliation.
#[derive(Debug)]
pub struct MapDirError {
    pub dir: String,
}

/// A mapping failure.
#[derive(Debug)]
pub enum MapperError {
    /// The command has no executable in the active toolchain.
    Command(CommandNotFoundError),
    /// A shim could not be read or written.
    Io(String),
    /// A directory could not be listed.
    DirMapping(MapDirError),
}

/// A command invocation routed to the active toolchain.
#[derive(Debug)]
pub struct MappedCommand {
    pub name: String,
    pub path: String,
    pub args: Vec<String>,
    pub platform: Platform,
}

/// The concrete paths probed for a command, in fixed order: the bare
/// path first, then, on the platform that wants extensions, each
/// executable extension in turn.
pub open spec fn candidates_spec(path: Seq<char>, platform: Platform) -> Seq<Seq<char>> {
    match platform {
        Platform::Posix => seq![path],
        Platform::Windows => seq![
            path,
            path + ".exe"@,
            path + ".bat"@,
            path + ".cmd"@,
            path + ".ps1"@,
        ],
    }
}

impl MappedCommand {
    pub fn new(name: String, path: String, args: Vec<String>, platform: Platform) -> (r:
        MappedCommand)
        ensures
            r.name@ == name@,
            r.path@ == path@,
            r.args@ == args@,
            r.platform == platform,
    {
        MappedCommand { name, path, args, platform }
    }

    /// The paths to probe, in the fixed order the first hit wins.
    pub fn candidates(&self) -> (r: Vec<String>)
        ensures
            seq_views(r@) == candidates_spec(self.path@, self.platform),
    {
        let mut r: Vec<String> = Vec::new();
        r.push(self.path.clone());
        match self.platform {
            Platform::Posix => {}
            Platform::Windows => {
                r.push(self.path.clone().concat(".exe"));
                r.push(self.path.clone().concat(".bat"));
                r.push(self.path.clone().concat(".cmd"));
                r.push(self.path.clone().concat(".ps1"));
            }
        }
        proof {
            assert(seq_views(r@) =~= candidates_spec(self.path@, self.platform));
        }
        r
    }

    /// Settles on the first candidate that exists; when none does, the
    /// failure carries the command and the bare path that was probed.
    pub fn resolve(&self, exists: &Vec<bool>) -> (r: Result<String, CommandNotFoundError>)
        requires
            exists@.len() == candidates_spec(self.path@, self.platform).len(),
        ensures
            match r {
                Ok(p) => first_true(exists@) matches Some(i) && p@ == candidates_spec(
                    self.path@,
                    self.platform,
                )[i],
                Err(e) => first_true(exists@) is None && e.command@ == self.name@ && e.path@
                    == self.path@,
            },
    {
        let cands = self.candidates();
        match find_in_parents(&cands, exists) {
            Some(p) => Ok(p),
            None => Err(
                CommandNotFoundError { command: self.name.clone(), path: self.path.clone() },
            ),
        }
    }
}

/// The names of `s` that are not in `excl`, in order.
pub open spec fn keep_not_in(s: Seq<Seq<char>>, excl: Seq<Seq<char>>) -> Seq<Seq<char>>
    decreases s.len(),
{
    if s.len() == 0 {
        s
    } else {
        let rest = keep_not_in(s.drop_last(), excl);
        if excl.contains(s.last()) {
            rest
        } else {
            rest.push(s.last())
        }
    }
}

/// Membership in a filtered list.
pub proof fn lemma_keep_not_in_contains(s: Seq<Seq<char>>, excl: Seq<Seq<char>>, n: Seq<char>)
    ensures
        keep_not_in(s, excl).contains(n) <==> (s.contains(n) && !excl.contains(n)),
    decreases s.len(),
{
    if s.len() > 0 {
        let prefix = s.drop_last();
        lemma_keep_not_in_contains(prefix, excl, n);
        let rest = keep_not_in(prefix, excl);
        if prefix.contains(n) {
            let j = choose|j: int| 0 <= j < prefix.len() && prefix[j] == n;
            assert(s[j] == n);
        }
        if excl.contains(s.last()) {
            if s.contains(n) && !excl.contains(n) {
                let j = choose|j: int| 0 <= j < s.len() && s[j] == n;
                assert(prefix[j] == n);
            }
        } else {
            let r = rest.push(s.last());
            if r.contains(n) {
                let j = choose|j: int| 0 <= j < r.len() && r[j] == n;
                if j < rest.len() {
                    assert(rest[j] == n);
                } else {
                    assert(s[s.len() - 1] == n);
                }
            }
            if s.contains(n) && !excl.contains(n) {
                let j = choose|j: int| 0 <= j < s.len() && s[j] == n;
                if j < s.len() - 1 {
                    assert(prefix[j] == n);
                    let k = choose|k: int| 0 <= k < rest.len() && rest[k] == n;
                    assert(r[k] == n);
                } else {
                    assert(r[r.len() - 1] == n);
                }
            }
        }
    }
}

/// Membership in a concatenation.
pub proof fn lemma_concat_contains(a: Seq<Seq<char>>, b: Seq<Seq<char>>, n: Seq<char>)
    ensures
        (a + b).contains(n) <==> (a.contains(n) || b.contains(n)),
{
    if (a + b).contains(n) {
        let j = choose|j: int| 0 <= j < (a + b).len() && (a + b)[j] == n;
        if j < a.len() {
            assert(a[j] == n);
        } else {
            assert(b[j - a.len()] == n);
        }
    }
    if a.contains(n) {
        let j = choose|j: int| 0 <= j < a.len() && a[j] == n;
        assert((a + b)[j] == n);
    }
    if b.contains(n) {
        let j = choose|j: int| 0 <= j < b.len() && b[j] == n;
        assert((a + b)[a.len() + j] == n);
    }
}

/// What one reconciliation pass will do: regenerate a shim for every
/// unpinned executable of the active toolchain, and delete every shim
/// that neither that toolchain provides nor a pin protects.
#[derive(Debug)]
pub struct ReconcilePlan {
    pub writes: Vec<String>,
    pub deletes: Vec<String>,
}

/// Computes the reconciliation plan from the two directory listings
/// and the pinned command names.
pub fn reconcile_plan(bin_names: &Vec<String>, shim_names: &Vec<String>, pinned: &Vec<String>) -> (r:
    ReconcilePlan)
    ensures
        seq_views(r.writes@) == keep_not_in(seq_views(bin_names@), seq_views(pinned@)),
        seq_views(r.deletes@) == keep_not_in(
            seq_views(shim_names@),
            seq_views(bin_names@) + seq_views(pinned@),
        ),
{
    let ghost bins = seq_views(bin_names@);
    let ghost shims = seq_views(shim_names@);
    let ghost pv = seq_views(pinned@);
    let mut writes: Vec<String> = Vec::new();
    let n = bin_names.len();
    let mut i: usize = 0;
    while i < n
        invariant
            0 <= i <= n,
            n == bin_names@.len(),
            bins == seq_views(bin_names@),
            pv == seq_views(pinned@),
            seq_views(writes@) == keep_not_in(bins.take(i as int), pv),
        decreases n - i,
    {
        proof {
            assert(bins.take(i + 1).drop_last() =~= bins.take(i as int));
            assert(bins.take(i + 1).last() == bins[i as int]);
        }
        let ghost pre = writes@;
        if !vec_contains_str(pinned, bin_names[i].as_str()) {
            writes.push(bin_names[i].clone());
            proof {
                assert(seq_views(writes@) =~= seq_views(pre).push(bins[i as int]));
            }
        }
        i = i + 1;
    }
    proof {
        assert(bins.take(n as int) =~= bins);
    }
    let mut deletes: Vec<String> = Vec::new();
    let m = shim_names.len();
    let mut j: usize = 0;
    while j < m
        invariant
            0 <= j <= m,
            m == shim_names@.len(),
            bins == seq_views(bin_names@),
            shims == seq_views(shim_names@),
            pv == seq_views(pinned@),
            seq_views(deletes@) == keep_not_in(shims.take(j as int), bins + pv),
        decreases m - j,
    {
        proof {
            assert(shims.take(j + 1).drop_last() =~= shims.take(j as int));
            assert(shims.take(j + 1).last() == shims[j as int]);
        }
        let ghost pre = deletes@;
        let in_bins = vec_contains_str(bin_names, shim_names[j].as_str());
        let in_pinned = vec_contains_str(pinned, shim_names[j].as_str());
        proof {
            lemma_concat_contains(bins, pv, shims[j as int]);
        }
        if !in_bins && !in_pinned {
            deletes.push(shim_names[j].clone());
            proof {
                assert(seq_views(deletes@) =~= seq_views(pre).push(shims[j as int]));
            }
        }
        j = j + 1;
    }
    proof {
        assert(shims.take(m as int) =~= shims);
    }
    ReconcilePlan { writes, deletes }
}

/// After one reconciliation pass, a shim name is present exactly when
/// the active toolchain provides it and no pin claims it, or it was a
/// pinned shim already present. With no pins, the shim directory is
/// exactly the toolchain's listing; and a second pass over the result
/// plans no deletions and rewrites the same set, so it changes
/// nothing.
pub proof fn lemma_reconcile_exact(
    bins: Seq<Seq<char>>,
    shims: Seq<Seq<char>>,
    pinned: Seq<Seq<char>>,
    n: Seq<char>,
)
    ensures
        ((shims.contains(n) && !keep_not_in(shims, bins + pinned).contains(n)) || keep_not_in(
            bins,
            pinned,
        ).contains(n)) <==> ((bins.contains(n) && !pinned.contains(n)) || (shims.contains(n)
            && pinned.contains(n))),
{
    lemma_keep_not_in_contains(bins, pinned, n);
    lemma_keep_not_in_contains(shims, bins + pinned, n);
    lemma_concat_contains(bins, pinned, n);
}

/// A second pass plans no deletions: when every shim present is one
/// the toolchain provides or a pin protects — as holds after a pass —
/// nothing more is deleted, and the writes, which depend only on the
/// toolchain listing and the pins, are the same, regenerating the same
/// scripts; so reconciliation is idempotent.
pub proof fn lemma_reconcile_idempotent(
    bins: Seq<Seq<char>>,
    shims_after: Seq<Seq<char>>,
    pinned: Seq<Seq<char>>,
)
    requires
        forall|j: int|
            0 <= j < shims_after.len() ==> (bins + pinned).contains(#[trigger] shims_after[j]),
    ensures
        keep_not_in(shims_after, bins + pinned).len() == 0,
    decreases shims_after.len(),
{
    if shims_after.len() > 0 {
        let prefix = shims_after.drop_last();
        assert forall|j: int|
            0 <= j < prefix.len() implies (bins + pinned).contains(#[trigger] prefix[j]) by {
            assert(prefix[j] == shims_after[j]);
        }
        lemma_reconcile_idempotent(bins, prefix, pinned);
        assert((bins + pinned).contains(shims_after[shims_after.len() - 1]));
    }
}

/// Maps command names to the active toolchain.
#[derive(Debug)]
pub struct Mapper {
    pub node_path: NodePath,
}

impl Mapper {
    pub fn new(node_path: NodePath) -> (r: Mapper)
        ensures
            r.node_path.base@ == node_path.base@,
            r.node_path.platform == node_path.platform,
    {
        Mapper { node_path }
    }

    /// The invocation for a command of the active toolchain: its
    /// executable is probed inside the toolchain's binary directory.
    pub fn command(&self, command: String, args: Vec<String>) -> (r: MappedCommand)
        ensures
            r.name@ == command@,
            r.path@ == join_spec(
                self.node_path.bin_spec(),
                command@,
                self.node_path.platform,
            ),
            r.args@ == args@,
            r.platform == self.node_path.platform,
    {
        let bin = self.node_path.bin();
        let path = path_join(bin.as_str(), command.as_str(), self.node_path.platform);
        MappedCommand::new(command, path, args, self.node_path.platform)
    }
}

} // verus!
