//! Semantic version triples and per-release metadata.

use vstd::prelude::*;

use crate::strutil::{dec_str, u64_to_dec};

verus! {

/// A semantic version, ordered numerically by major, then minor, then patch.
#[derive(Clone, Copy, PartialEq, Eq, Structural, Debug, Hash)]
pub struct SimpleVersion {
    pub major: u16,
    pub minor: u16,
    pub patch: u32,
}

/// Numeric (never lexicographic) strict order on versions.
pub open spec fn ver_lt(a: SimpleVersion, b: SimpleVersion) -> bool {
    ||| a.major < b.major
    ||| (a.major == b.major && a.minor < b.minor)
    ||| (a.major == b.major && a.minor == b.minor && a.patch < b.patch)
}

/// Numeric non-strict order on versions.
pub open spec fn ver_le(a: SimpleVersion, b: SimpleVersion) -> bool {
    ver_lt(a, b) || a == b
}

impl SimpleVersion {
    pub fn new(major: u16, minor: u16, patch: u32) -> (v: SimpleVersion)
        ensures
            v == (SimpleVersion { major, minor, patch }),
    {
        SimpleVersion { major, minor, patch }
    }

    /// Decides the strict numeric order.
    pub fn lt(&self, other: &SimpleVersion) -> (r: bool)
        ensures
            r == ver_lt(*self, *other),
    {
        if self.major != other.major {
            self.major < other.major
        } else if self.minor != other.minor {
            self.minor < other.minor
        } else {
            self.patch < other.patch
        }
    }

    /// Decides the non-strict numeric order.
    pub fn le(&self, other: &SimpleVersion) -> (r: bool)
        ensures
            r == ver_le(*self, *other),
    {
        if self.major != other.major {
            self.major < other.major
        } else if self.minor != other.minor {
            self.minor < other.minor
        } else {
            self.patch <= other.patch
        }
    }
}

/// The canonical `major.minor.patch` rendering of a version.
pub open spec fn version_str(v: SimpleVersion) -> Seq<char> {
    dec_str(v.major as nat) + seq!['.'] + dec_str(v.minor as nat) + seq!['.'] + dec_str(
        v.patch as nat,
    )
}

impl SimpleVersion {
    /// Formats this version as `major.minor.patch`.
    pub fn to_version_string(&self) -> (s: String)
        ensures
            s@ == version_str(*self),
    {
        proof {
            reveal_strlit(".");
            assert("."@ =~= seq!['.']);
        }
        let mut s = u64_to_dec(self.major as u64);
        s.append(".");
        let minor = u64_to_dec(self.minor as u64);
        s.append(minor.as_str());
        s.append(".");
        let patch = u64_to_dec(self.patch as u64);
        s.append(patch.as_str());
        proof {
            assert(s@ =~= version_str(*self));
        }
        s
    }
}

/// One upstream release: its version and, for LTS releases, the codename.
#[derive(Debug)]
pub struct VersionMetadata {
    pub version: SimpleVersion,
    pub lts: Option<String>,
}

/// The mathematical value of a [`VersionMetadata`].
pub struct MetaView {
    pub version: SimpleVersion,
    pub lts: Option<Seq<char>>,
}

impl View for VersionMetadata {
    type V = MetaView;

    open spec fn view(&self) -> MetaView {
        MetaView {
            version: self.version,
            lts: match self.lts {
                Some(ref l) => Some(l@),
                None => None,
            },
        }
    }
}

impl VersionMetadata {
    /// A copy whose mathematical value equals this one's.
    pub fn duplicate(&self) -> (r: VersionMetadata)
        ensures
            r@ == self@,
    {
        VersionMetadata {
            version: self.version,
            lts: match &self.lts {
                Some(l) => Some(l.clone()),
                None => None,
            },
        }
    }
}

/// The LTS field of an upstream release entry: either a codename or the
/// marker that the release is not an LTS one.
#[derive(Debug)]
pub enum LtsInfo {
    Version(String),
    NotLts(bool),
}

/// The codename a release entry carries, if any.
pub open spec fn lts_info_name(l: LtsInfo) -> Option<Seq<char>> {
    match l {
        LtsInfo::Version(v) => Some(v@),
        LtsInfo::NotLts(_) => None,
    }
}

impl LtsInfo {
    /// The codename, surrendering the value.
    pub fn lts(self) -> (r: Option<String>)
        ensures
            match r {
                Some(s) => lts_info_name(self) == Some(s@),
                None => lts_info_name(self) is None,
            },
    {
        match self {
            LtsInfo::Version(v) => Some(v),
            LtsInfo::NotLts(_) => None,
        }
    }

    /// The codename, by reference.
    pub fn lts_ref(&self) -> (r: Option<&String>)
        ensures
            match r {
                Some(s) => lts_info_name(*self) == Some(s@),
                None => lts_info_name(*self) is None,
            },
    {
        match self {
            LtsInfo::Version(v) => Some(v),
            LtsInfo::NotLts(_) => None,
        }
    }
}

/// One entry of the fetched upstream release index, reduced to what the
/// catalog reads from it.
#[derive(Debug)]
pub struct VersionInfo {
    pub version: SimpleVersion,
    pub lts: LtsInfo,
}

} // verus!
