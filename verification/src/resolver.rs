//! Resolution of a version selector against the full catalog or the
//! local inventory, with the typed errors the caller reports.

use vstd::prelude::*;

use crate::assoc::alookup;
use crate::local_versions::{last_fulfilling_in, last_named_lts_in, InstalledVersions};
use crate::node_version::{NodeVersion, NodeVersionView};
use crate::ranges::req_matches;
use crate::versioning::{ver_le, SimpleVersion, VersionMetadata};
use crate::versions::Versions;

verus! {

/// A resolution failure, carrying the offending input for diagnostics.
#[derive(Debug)]
pub enum VersionError {
    /// The token did not name any known version or codename.
    UnknownVersion(String),
    /// No known version satisfies the range.
    Unfulfillable(String),
    /// The version is not installed.
    NotInstalled(NodeVersion),
    /// The selector cannot be used with this operation.
    Unsupported(NodeVersion),
}

/// The mathematical value of a [`VersionError`].
pub enum VersionErrorView {
    UnknownVersion(Seq<char>),
    Unfulfillable(Seq<char>),
    NotInstalled(NodeVersionView),
    Unsupported(NodeVersionView),
}

impl View for VersionError {
    type V = VersionErrorView;

    open spec fn view(&self) -> VersionErrorView {
        match self {
            VersionError::UnknownVersion(s) => VersionErrorView::UnknownVersion(s@),
            VersionError::Unfulfillable(s) => VersionErrorView::Unfulfillable(s@),
            VersionError::NotInstalled(v) => VersionErrorView::NotInstalled(v@),
            VersionError::Unsupported(v) => VersionErrorView::Unsupported(v@),
        }
    }
}

impl VersionError {
    /// The token named no known version.
    pub fn unknown_version(src: String) -> (r: VersionError)
        ensures
            r@ == VersionErrorView::UnknownVersion(src@),
    {
        VersionError::UnknownVersion(src)
    }

    /// The range admits no known version.
    pub fn unfulfillable_version(src: String) -> (r: VersionError)
        ensures
            r@ == VersionErrorView::Unfulfillable(src@),
    {
        VersionError::Unfulfillable(src)
    }

    /// The selector's version is not installed.
    pub fn not_installed(src: NodeVersion) -> (r: VersionError)
        ensures
            r@ == VersionErrorView::NotInstalled(src@),
    {
        VersionError::NotInstalled(src)
    }

    /// The selector cannot serve this operation.
    pub fn unsupported(src: NodeVersion) -> (r: VersionError)
        ensures
            r@ == VersionErrorView::Unsupported(src@),
    {
        VersionError::Unsupported(src)
    }
}

/// Resolves a selector against the full catalog: `latest` takes the
/// catalog's maximum, `lts` the maximum across all LTS lines, a
/// codename the maximum of its line, and a range the maximum version
/// satisfying it. Ties never arise: the numerically greatest version
/// wins. The catalog must be able to answer: it must not be empty for
/// `latest`, and must hold an LTS release for `lts`.
pub fn lookup_remote_version<'a>(
    versions: &'a Versions,
    version_req: &NodeVersion,
) -> (r: Result<&'a VersionMetadata, VersionError>)
    requires
        versions.wf(),
        version_req@ is Latest ==> versions.sorted().len() > 0,
        version_req@ is LatestLts ==> exists|k: SimpleVersion|
            versions.keys().contains(k) && versions.is_lts_major(k.major),
    ensures
        match version_req@ {
            NodeVersionView::Latest => r matches Ok(m) && m@.version == versions.sorted().last()
                && alookup(versions.meta_pairs(), m@.version) == Some(m@) && forall|
                k: SimpleVersion,
            | versions.keys().contains(k) ==> ver_le(k, m@.version),
            NodeVersionView::LatestLts => r matches Ok(m) && alookup(
                versions.meta_pairs(),
                m@.version,
            ) == Some(m@) && versions.keys().contains(m@.version) && versions.is_lts_major(
                m@.version.major,
            ) && forall|k: SimpleVersion|
                versions.keys().contains(k) && versions.is_lts_major(k.major) ==> ver_le(
                    k,
                    m@.version,
                ),
            NodeVersionView::Lts(name) => match r {
                Ok(m) => {
                    &&& alookup(versions.lts_pairs(), name) == Some(m@.version.major)
                    &&& alookup(versions.meta_pairs(), m@.version) == Some(m@)
                    &&& versions.keys().contains(m@.version)
                    &&& forall|k: SimpleVersion|
                        versions.keys().contains(k) && k.major == m@.version.major ==> ver_le(
                            k,
                            m@.version,
                        )
                },
                Err(e) => e@ == VersionErrorView::UnknownVersion(name) && (alookup(
                    versions.lts_pairs(),
                    name,
                ) is None || (alookup(versions.lts_pairs(), name) matches Some(major) && forall|
                    k: SimpleVersion,
                | versions.keys().contains(k) ==> k.major != major)),
            },
            NodeVersionView::Req(req) => match r {
                Ok(m) => {
                    &&& alookup(versions.meta_pairs(), m@.version) == Some(m@)
                    &&& versions.keys().contains(m@.version)
                    &&& req_matches(
                        req,
                        m@.version.major as int,
                        m@.version.minor as int,
                        m@.version.patch as int,
                    )
                    &&& forall|k: SimpleVersion|
                        versions.keys().contains(k) && req_matches(
                            req,
                            k.major as int,
                            k.minor as int,
                            k.patch as int,
                        ) ==> ver_le(k, m@.version)
                },
                Err(e) => e@ == VersionErrorView::Unfulfillable(req) && forall|k: SimpleVersion|
                    versions.keys().contains(k) ==> !req_matches(
                        req,
                        k.major as int,
                        k.minor as int,
                        k.patch as int,
                    ),
            },
        },
{
    match version_req {
        NodeVersion::Latest => Ok(versions.latest()),
        NodeVersion::LatestLts => Ok(versions.latest_lts()),
        NodeVersion::Lts(lts) => match versions.get_lts(lts.as_str()) {
            Some(m) => Ok(m),
            None => Err(VersionError::unknown_version(lts.clone())),
        },
        NodeVersion::Req(req) => match versions.get_fulfilling(req.as_str()) {
            Some(m) => Ok(m),
            None => Err(VersionError::unfulfillable_version(req.clone())),
        },
    }
}

/// Resolves a selector against the local inventory alone. `latest` and
/// `lts` are refused with `Unsupported` by design: what is newest is a
/// property of the full release universe, not of what happens to be
/// installed, so the caller must fall back to the catalog explicitly.
pub fn lookup_local_version<'a>(
    installed: &'a InstalledVersions,
    version_req: &NodeVersion,
) -> (r: Result<&'a VersionMetadata, VersionError>)
    ensures
        match version_req@ {
            NodeVersionView::Latest => r matches Err(e) && e@ == VersionErrorView::Unsupported(
                version_req@,
            ),
            NodeVersionView::LatestLts => r matches Err(e) && e@ == VersionErrorView::Unsupported(
                version_req@,
            ),
            NodeVersionView::Lts(name) => match r {
                Ok(m) => last_named_lts_in(installed.entries(), name) == Some(m@),
                Err(e) => e@ == VersionErrorView::UnknownVersion(name) && last_named_lts_in(
                    installed.entries(),
                    name,
                ) is None,
            },
            NodeVersionView::Req(req) => match r {
                Ok(m) => last_fulfilling_in(installed.entries(), req) == Some(m@),
                Err(e) => e@ == VersionErrorView::Unfulfillable(req) && last_fulfilling_in(
                    installed.entries(),
                    req,
                ) is None,
            },
        },
{
    match version_req {
        NodeVersion::Lts(lts) => match installed.lts(lts.as_str()) {
            Some(m) => Ok(m),
            None => Err(VersionError::unknown_version(lts.clone())),
        },
        NodeVersion::Req(req) => match installed.fulfilling(req.as_str()) {
            Some(m) => Ok(m),
            None => Err(VersionError::unfulfillable_version(req.clone())),
        },
        _ => Err(VersionError::unsupported(version_req.duplicate())),
    }
}

} // verus!
