//! The semver range engine, reached through trusted declarations: the
//! library keeps a range as its canonical string and asks the `semver`
//! crate whether a version satisfies it.

use vstd::prelude::*;

verus! {

/// What the range parser makes of a string: `None` when the string is
/// not a well-formed semver range, otherwise the canonical form the
/// parsed range prints as. It depends on the string alone.
pub uninterp spec fn req_canon(s: Seq<char>) -> Option<Seq<char>>;

/// Whether the range denoted by the string `req` admits the version
/// `major.minor.patch`; a string the range parser rejects admits
/// nothing. It depends on the arguments alone.
pub uninterp spec fn req_matches(req: Seq<char>, major: int, minor: int, patch: int) -> bool;

/// Relies on `semver::VersionReq::parse` and the `Display` of the
/// parsed requirement: both are pure functions of the input string,
/// and together they name the canonical form of a range.
#[verifier::external_body]
pub(crate) fn parse_req(s: &str) -> (r: Option<String>)
    ensures
        match r {
            Some(c) => req_canon(s@) == Some(c@),
            None => req_canon(s@) is None,
        },
{
    match semver::VersionReq::parse(s) {
        Ok(req) => Some(req.to_string()),
        Err(_) => None,
    }
}

/// Relies on `semver::VersionReq::parse` and `semver::VersionReq::matches`
/// (with `semver::Version::new` converting the numbers): whether a
/// version satisfies a range string depends on the string and the three
/// numbers alone, and an unparseable string satisfies nothing.
#[verifier::external_body]
pub(crate) fn req_matches_exec(req: &str, major: u16, minor: u16, patch: u32) -> (r: bool)
    ensures
        r == req_matches(req@, major as int, minor as int, patch as int),
{
    match semver::VersionReq::parse(req) {
        Ok(parsed) => parsed.matches(
            &semver::Version::new(major as u64, minor as u64, patch as u64),
        ),
        Err(_) => false,
    }
}

} // verus!
