//! The user-supplied version selector: `latest`, the newest LTS, an LTS
//! codename, or a semver range, together with its parsing and canonical
//! formatting.

use vstd::prelude::*;

use crate::ranges::{parse_req, req_canon};
use crate::strutil::{
    lower_spec, str_eq, strip_leading, strip_leading_spec, to_lowercase, trim, trim_spec,
};

verus! {

/// A version request. `Req` holds the canonical form of a semver range,
/// as the range parser formats it.
#[derive(Debug, PartialEq, Eq)]
pub enum NodeVersion {
    Latest,
    LatestLts,
    Lts(String),
    Req(String),
}

/// The mathematical value of a [`NodeVersion`].
pub enum NodeVersionView {
    Latest,
    LatestLts,
    Lts(Seq<char>),
    Req(Seq<char>),
}

impl View for NodeVersion {
    type V = NodeVersionView;

    open spec fn view(&self) -> NodeVersionView {
        match self {
            NodeVersion::Latest => NodeVersionView::Latest,
            NodeVersion::LatestLts => NodeVersionView::LatestLts,
            NodeVersion::Lts(n) => NodeVersionView::Lts(n@),
            NodeVersion::Req(c) => NodeVersionView::Req(c@),
        }
    }
}

/// What parsing a selector string yields: `latest` and `lts` are matched
/// case-insensitively; anything else is trimmed, stripped of leading `v`s
/// and offered to the range parser; if the range parser rejects it, it is
/// taken as a (folded) LTS codename.
pub open spec fn spec_parse(s: Seq<char>) -> NodeVersionView {
    if lower_spec(s) == "latest"@ {
        NodeVersionView::Latest
    } else if lower_spec(s) == "lts"@ {
        NodeVersionView::LatestLts
    } else {
        let vs = strip_leading_spec(trim_spec(s), 'v');
        match req_canon(vs) {
            Some(c) => NodeVersionView::Req(c),
            None => NodeVersionView::Lts(lower_spec(vs)),
        }
    }
}

/// The canonical string form of a selector.
pub open spec fn spec_format(v: NodeVersionView) -> Seq<char> {
    match v {
        NodeVersionView::Latest => "latest"@,
        NodeVersionView::LatestLts => "lts"@,
        NodeVersionView::Lts(n) => n,
        NodeVersionView::Req(c) => c,
    }
}

impl NodeVersion {
    /// Parses a selector string. Parsing never fails: an unrecognized
    /// string is treated as an LTS codename.
    pub fn parse(s: &str) -> (v: NodeVersion)
        ensures
            v@ == spec_parse(s@),
    {
        let lowered = to_lowercase(s);
        if str_eq(lowered.as_str(), "latest") {
            NodeVersion::Latest
        } else if str_eq(lowered.as_str(), "lts") {
            NodeVersion::LatestLts
        } else {
            let trimmed = trim(s);
            let vs = strip_leading(trimmed, 'v');
            match parse_req(vs) {
                Some(c) => NodeVersion::Req(c),
                None => NodeVersion::Lts(to_lowercase(vs)),
            }
        }
    }

    /// The canonical string form of this selector.
    pub fn format(&self) -> (r: String)
        ensures
            r@ == spec_format(self@),
    {
        match self {
            NodeVersion::Latest => {
                let mut s = String::new();
                s.append("latest");
                proof {
                    assert(s@ =~= "latest"@);
                }
                s
            }
            NodeVersion::LatestLts => {
                let mut s = String::new();
                s.append("lts");
                proof {
                    assert(s@ =~= "lts"@);
                }
                s
            }
            NodeVersion::Lts(n) => n.clone(),
            NodeVersion::Req(c) => c.clone(),
        }
    }

    /// A copy whose mathematical value equals this one's.
    pub fn duplicate(&self) -> (r: NodeVersion)
        ensures
            r@ == self@,
    {
        match self {
            NodeVersion::Latest => NodeVersion::Latest,
            NodeVersion::LatestLts => NodeVersion::LatestLts,
            NodeVersion::Lts(n) => NodeVersion::Lts(n.clone()),
            NodeVersion::Req(c) => NodeVersion::Req(c.clone()),
        }
    }
}

/// A codename round-trips through format and parse when it is already
/// folded and trimmed, carries no leading `v`, is not one of the two
/// keywords, and the range parser rejects it. Codenames produced by
/// [`NodeVersion::parse`] satisfy the folding conditions by construction.
pub open spec fn lts_name_round_trips(n: Seq<char>) -> bool {
    &&& lower_spec(n) == n
    &&& n != "latest"@
    &&& n != "lts"@
    &&& trim_spec(n) == n
    &&& strip_leading_spec(n, 'v') == n
    &&& req_canon(n) is None
}

/// A canonical range string round-trips when it is a fixed point of the
/// range parser, is not a keyword after folding, and is stable under
/// trimming and `v`-stripping.
pub open spec fn req_string_round_trips(c: Seq<char>) -> bool {
    &&& lower_spec(c) != "latest"@
    &&& lower_spec(c) != "lts"@
    &&& trim_spec(c) == c
    &&& strip_leading_spec(c, 'v') == c
    &&& req_canon(c) == Some(c)
}

proof fn lemma_lower_fixed_latest()
    ensures
        lower_spec("latest"@) == "latest"@,
        lower_spec("lts"@) == "lts"@,
        "latest"@ != "lts"@,
{
    reveal_strlit("latest");
    reveal_strlit("lts");
    assert(lower_spec("latest"@) =~= "latest"@);
    assert(lower_spec("lts"@) =~= "lts"@);
    assert("latest"@.len() != "lts"@.len());
}

/// Parsing the canonical form of a selector gives the selector back,
/// for every selector whose payload satisfies the stated stability
/// conditions (keyword selectors satisfy them outright).
pub proof fn lemma_parse_format_round_trip(v: NodeVersionView)
    requires
        match v {
            NodeVersionView::Latest => true,
            NodeVersionView::LatestLts => true,
            NodeVersionView::Lts(n) => lts_name_round_trips(n),
            NodeVersionView::Req(c) => req_string_round_trips(c),
        },
    ensures
        spec_parse(spec_format(v)) == v,
{
    lemma_lower_fixed_latest();
    match v {
        NodeVersionView::Latest => {}
        NodeVersionView::LatestLts => {}
        NodeVersionView::Lts(n) => {}
        NodeVersionView::Req(c) => {}
    }
}

} // verus!
