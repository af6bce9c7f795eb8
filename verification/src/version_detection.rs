//! The environment probes' decision logic and their fixed-precedence
//! combination. The probes' reads (pin file, project manifest,
//! environment variable) happen outside; what each read yields is
//! decided here, deterministically.

use vstd::prelude::*;

use crate::node_version::{spec_parse, NodeVersion, NodeVersionView};
use crate::ranges::{parse_req, req_canon};

verus! {

/// The length of the first line of a string.
pub open spec fn line_len(s: Seq<char>) -> int
    decreases s.len(),
{
    if s.len() == 0 {
        0
    } else if s[0] == '\n' {
        0
    } else {
        1 + line_len(s.drop_first())
    }
}

/// A line with a trailing carriage return removed.
pub open spec fn strip_cr(l: Seq<char>) -> Seq<char> {
    if l.len() > 0 && l.last() == '\r' {
        l.drop_last()
    } else {
        l
    }
}

/// The first line of a string, as the pin file probe reads it.
pub open spec fn first_line(s: Seq<char>) -> Seq<char> {
    strip_cr(s.take(line_len(s)))
}

proof fn lemma_line_len_skip(s: Seq<char>, i: int)
    requires
        0 <= i <= s.len(),
        forall|j: int| 0 <= j < i ==> s[j] != '\n',
    ensures
        line_len(s) == i + line_len(s.skip(i)),
    decreases i,
{
    if i > 0 {
        assert(s.skip(0) =~= s);
        assert(s.drop_first() =~= s.skip(1));
        lemma_line_len_skip(s.skip(1), i - 1);
        assert(s.skip(1).skip(i - 1) =~= s.skip(i));
    } else {
        assert(s.skip(0) =~= s);
    }
}

proof fn lemma_line_len_bounds(s: Seq<char>)
    ensures
        0 <= line_len(s) <= s.len(),
    decreases s.len(),
{
    if s.len() > 0 && s[0] != '\n' {
        lemma_line_len_bounds(s.drop_first());
    }
}

/// The pin file probe: the first line names the selector. A pin file
/// with no content gives no opinion.
pub struct VersionFileDetector;

impl VersionFileDetector {
    /// Decides the selector a pin file's content names.
    pub fn version_from_content(content: &str) -> (r: Option<NodeVersion>)
        ensures
            match r {
                Some(v) => content@.len() > 0 && v@ == spec_parse(first_line(content@)),
                None => content@.len() == 0,
            },
    {
        let len = content.unicode_len();
        if len == 0 {
            return None;
        }
        let mut i: usize = 0;
        while i < len && content.get_char(i) != '\n'
            invariant
                0 <= i <= len,
                len == content@.len(),
                forall|j: int| 0 <= j < i ==> content@[j] != '\n',
            decreases len - i,
        {
            i = i + 1;
        }
        proof {
            lemma_line_len_skip(content@, i as int);
            lemma_line_len_bounds(content@.skip(i as int));
            if i < len {
                assert(content@.skip(i as int)[0] == '\n');
            }
            assert(line_len(content@) == i as int);
        }
        let line = if i > 0 && content.get_char(i - 1) == '\r' {
            proof {
                assert(content@.take(i as int).last() == content@[i - 1]);
                assert(content@.take(i as int).drop_last() =~= content@.take(i - 1));
            }
            content.substring_char(0, i - 1)
        } else {
            proof {
                if i > 0 {
                    assert(content@.take(i as int).last() == content@[i - 1]);
                }
            }
            content.substring_char(0, i)
        };
        proof {
            assert(line@ == first_line(content@));
        }
        Some(NodeVersion::parse(line))
    }
}

/// The project manifest probe: the `engines.node` field, if present,
/// is a semver range.
pub struct PackageJsonDetector;

impl PackageJsonDetector {
    /// Decides the selector the manifest's `engines.node` field names.
    /// A missing field, or one the range parser rejects, gives no
    /// opinion.
    pub fn version_from_engines(node_req: Option<&str>) -> (r: Option<NodeVersion>)
        ensures
            match r {
                Some(v) => node_req matches Some(s) && req_canon(s@) matches Some(c) && v@
                    == NodeVersionView::Req(c),
                None => match node_req {
                    Some(s) => req_canon(s@) is None,
                    None => true,
                },
            },
    {
        match node_req {
            Some(s) => match parse_req(s) {
                Some(c) => Some(NodeVersion::Req(c)),
                None => None,
            },
            None => None,
        }
    }
}

/// The environment probe: a fixed variable names the selector.
pub struct EnvDetector;

impl EnvDetector {
    /// Decides the selector the environment variable's value names;
    /// an unset variable gives no opinion.
    pub fn version_from_env(value: Option<&str>) -> (r: Option<NodeVersion>)
        ensures
            match r {
                Some(v) => value matches Some(s) && v@ == spec_parse(s@),
                None => value is None,
            },
    {
        match value {
            Some(s) => Some(NodeVersion::parse(s)),
            None => None,
        }
    }
}

/// The combiner: the probes run concurrently, but their results are
/// ranked by fixed declared priority, never by completion order.
pub struct ParallelDetector;

impl ParallelDetector {
    /// Combines the three probe results: the pin file wins outright,
    /// then the manifest, then the environment; only if all three have
    /// no opinion is there no detection.
    pub fn combine(
        version_file: Option<NodeVersion>,
        package_json: Option<NodeVersion>,
        env: Option<NodeVersion>,
    ) -> (r: Option<NodeVersion>)
        ensures
            r == (if version_file is Some {
                version_file
            } else if package_json is Some {
                package_json
            } else {
                env
            }),
    {
        if version_file.is_some() {
            version_file
        } else if package_json.is_some() {
            package_json
        } else {
            env
        }
    }
}

} // verus!
