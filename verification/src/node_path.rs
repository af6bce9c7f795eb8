//! Platform-conditional path logic: the separator, the layout of an
//! installed toolchain, and the directory a given version lives in.
//! The platform is chosen once at startup; everything here is a pure
//! function of it.

use vstd::prelude::*;

use crate::versioning::{version_str, SimpleVersion};

verus! {

/// Which platform's conventions are in force.
#[derive(Clone, Copy, PartialEq, Eq, Structural, Debug)]
pub enum Platform {
    Posix,
    Windows,
}

impl Platform {
    /// The path separator this platform's paths use.
    pub open spec fn sep(self) -> char {
        match self {
            Platform::Posix => '/',
            Platform::Windows => '\\',
        }
    }

    /// The path separator, as a character.
    pub fn separator(&self) -> (c: char)
        ensures
            c == self.sep(),
    {
        match self {
            Platform::Posix => '/',
            Platform::Windows => '\\',
        }
    }

    /// The separator between entries of the executable search path.
    pub open spec fn search_sep(self) -> char {
        match self {
            Platform::Posix => ':',
            Platform::Windows => ';',
        }
    }

    /// The search path separator, as a character.
    pub fn search_separator(&self) -> (c: char)
        ensures
            c == self.search_sep(),
    {
        match self {
            Platform::Posix => ':',
            Platform::Windows => ';',
        }
    }
}

/// A search path with `entry` put first: an empty search path becomes
/// just the entry, any other gains it as a new first element.
pub open spec fn prepend_entry_spec(existing: Seq<char>, entry: Seq<char>, platform: Platform) -> Seq<
    char,
> {
    if existing.len() == 0 {
        entry
    } else {
        entry + seq![platform.search_sep()] + existing
    }
}

/// Puts `entry` first in a search path.
pub fn prepend_search_path(existing: &str, entry: &str, platform: Platform) -> (r: String)
    ensures
        r@ == prepend_entry_spec(existing@, entry@, platform),
{
    let mut s = entry.to_owned();
    if existing.unicode_len() == 0 {
        return s;
    }
    match platform {
        Platform::Posix => {
            proof {
                reveal_strlit(":");
                assert(":"@ =~= seq![':']);
            }
            s.append(":");
        }
        Platform::Windows => {
            proof {
                reveal_strlit(";");
                assert(";"@ =~= seq![';']);
            }
            s.append(";");
        }
    }
    s.append(existing);
    proof {
        assert(s@ =~= prepend_entry_spec(existing@, entry@, platform));
    }
    s
}

/// `base` and `name` joined with the platform separator.
pub open spec fn join_spec(base: Seq<char>, name: Seq<char>, platform: Platform) -> Seq<char> {
    base + seq![platform.sep()] + name
}

/// Joins a path and a component.
pub fn path_join(base: &str, name: &str, platform: Platform) -> (r: String)
    ensures
        r@ == join_spec(base@, name@, platform),
{
    let mut s = base.to_owned();
    match platform {
        Platform::Posix => {
            proof {
                reveal_strlit("/");
                assert("/"@ =~= seq!['/']);
            }
            s.append("/");
        }
        Platform::Windows => {
            proof {
                reveal_strlit("\\");
                assert("\\"@ =~= seq!['\\']);
            }
            s.append("\\");
        }
    }
    s.append(name);
    proof {
        assert(s@ =~= join_spec(base@, name@, platform));
    }
    s
}

/// The directories of one installed toolchain. On POSIX layouts the
/// binaries and libraries live in subdirectories; the platform whose
/// archives are flat keeps them in the root.
#[derive(Debug)]
pub struct NodePath {
    pub base: String,
    pub platform: Platform,
}

impl NodePath {
    pub fn new(base: String, platform: Platform) -> (r: NodePath)
        ensures
            r.base@ == base@,
            r.platform == platform,
    {
        NodePath { base, platform }
    }

    /// Where the toolchain's executables live.
    pub open spec fn bin_spec(self) -> Seq<char> {
        match self.platform {
            Platform::Posix => join_spec(self.base@, "bin"@, self.platform),
            Platform::Windows => self.base@,
        }
    }

    pub fn bin(&self) -> (r: String)
        ensures
            r@ == self.bin_spec(),
    {
        match self.platform {
            Platform::Posix => path_join(self.base.as_str(), "bin", self.platform),
            Platform::Windows => self.base.clone(),
        }
    }

    /// Where the toolchain's libraries live.
    pub open spec fn lib_spec(self) -> Seq<char> {
        match self.platform {
            Platform::Posix => join_spec(self.base@, "lib"@, self.platform),
            Platform::Windows => self.base@,
        }
    }

    pub fn lib(&self) -> (r: String)
        ensures
            r@ == self.lib_spec(),
    {
        match self.platform {
            Platform::Posix => path_join(self.base.as_str(), "lib", self.platform),
            Platform::Windows => self.base.clone(),
        }
    }

    /// Where the toolchain's global modules live.
    pub fn node_modules(&self) -> (r: String)
        ensures
            r@ == join_spec(self.lib_spec(), "node_modules"@, self.platform),
    {
        let l = self.lib();
        path_join(l.as_str(), "node_modules", self.platform)
    }
}

/// The directory name one release unpacks to.
pub open spec fn version_dir_name(v: SimpleVersion, os: Seq<char>, arch: Seq<char>) -> Seq<char> {
    "node-v"@ + version_str(v) + "-"@ + os + "-"@ + arch
}

/// Where a given version's toolchain is installed: the versions root,
/// then the version number, then the unpacked archive's directory.
pub fn build_version_path(
    versions_dir: &str,
    version: &SimpleVersion,
    os: &str,
    arch: &str,
    platform: Platform,
) -> (r: String)
    ensures
        r@ == join_spec(
            join_spec(versions_dir@, version_str(*version), platform),
            version_dir_name(*version, os@, arch@),
            platform,
        ),
{
    let vs = version.to_version_string();
    let dir = path_join(versions_dir, vs.as_str(), platform);
    let mut leaf = String::new();
    leaf.append("node-v");
    leaf.append(vs.as_str());
    leaf.append("-");
    leaf.append(os);
    leaf.append("-");
    leaf.append(arch);
    proof {
        assert(leaf@ =~= version_dir_name(*version, os@, arch@));
    }
    path_join(dir.as_str(), leaf.as_str(), platform)
}

} // verus!
