//! Path-walking helpers: the ancestor chain of a directory and the
//! first of a list of candidate files that exists. The existence
//! checks themselves happen outside; this module only decides.

use vstd::prelude::*;

use crate::node_path::{join_spec, path_join, Platform};
use crate::strutil::seq_views;

verus! {

/// The index of the last occurrence of `c`, if any.
pub open spec fn rfind(s: Seq<char>, c: char) -> Option<int>
    decreases s.len(),
{
    if s.len() == 0 {
        None
    } else if s.last() == c {
        Some(s.len() - 1)
    } else {
        rfind(s.drop_last(), c)
    }
}

/// A found index is in bounds and carries the character.
pub proof fn lemma_rfind_bounds(s: Seq<char>, c: char)
    ensures
        match rfind(s, c) {
            Some(i) => 0 <= i < s.len() && s[i] == c,
            None => true,
        },
    decreases s.len(),
{
    if s.len() > 0 && s.last() != c {
        lemma_rfind_bounds(s.drop_last(), c);
    }
}

/// Finds the last occurrence of `c`.
pub fn rfind_char(s: &str, c: char) -> (r: Option<usize>)
    ensures
        match r {
            Some(i) => rfind(s@, c) == Some(i as int),
            None => rfind(s@, c) is None,
        },
{
    let len = s.unicode_len();
    proof {
        assert(s@.take(len as int) =~= s@);
    }
    let mut i: usize = len;
    while i > 0
        invariant
            0 <= i <= len,
            len == s@.len(),
            rfind(s@, c) == rfind(s@.take(i as int), c),
        decreases i,
    {
        proof {
            assert(s@.take(i as int).last() == s@[i - 1]);
            assert(s@.take(i as int).drop_last() =~= s@.take(i - 1));
        }
        if s.get_char(i - 1) == c {
            return Some(i - 1);
        }
        i = i - 1;
    }
    proof {
        assert(s@.take(0) =~= Seq::<char>::empty());
    }
    None
}

/// The parent directory of a path, `None` at a root: everything after
/// the last separator goes; a separator-free non-empty path's parent
/// is the empty path, and the empty path has none.
pub open spec fn parent_spec(s: Seq<char>, platform: Platform) -> Option<Seq<char>> {
    match rfind(s, platform.sep()) {
        None => if s.len() == 0 {
            None
        } else {
            Some(Seq::empty())
        },
        Some(i) => if i == 0 {
            if s.len() == 1 {
                None
            } else {
                Some(seq![platform.sep()])
            }
        } else {
            Some(s.take(i))
        },
    }
}

/// A parent is strictly shorter than its path.
pub proof fn lemma_parent_shorter(s: Seq<char>, platform: Platform)
    ensures
        match parent_spec(s, platform) {
            Some(p) => p.len() < s.len(),
            None => true,
        },
{
    lemma_rfind_bounds(s, platform.sep());
}

/// The parent directory of a path.
pub fn parent_of(s: &str, platform: Platform) -> (r: Option<String>)
    ensures
        match r {
            Some(p) => parent_spec(s@, platform) == Some(p@),
            None => parent_spec(s@, platform) is None,
        },
{
    let len = s.unicode_len();
    match rfind_char(s, platform.separator()) {
        None => {
            if len == 0 {
                None
            } else {
                Some(String::new())
            }
        }
        Some(i) => {
            proof {
                lemma_rfind_bounds(s@, platform.sep());
            }
            if i == 0 {
                if len == 1 {
                    None
                } else {
                    let sep_str = s.substring_char(0, 1);
                    proof {
                        assert(sep_str@ =~= seq![platform.sep()]);
                    }
                    Some(sep_str.to_owned())
                }
            } else {
                Some(s.substring_char(0, i).to_owned())
            }
        }
    }
}

/// The ancestor chain of a path, from the path itself up to a root.
pub open spec fn dir_parts_spec(s: Seq<char>, platform: Platform) -> Seq<Seq<char>>
    decreases s.len(),
    via dir_parts_spec_decreases
{
    match parent_spec(s, platform) {
        None => seq![s],
        Some(p) => seq![s] + dir_parts_spec(p, platform),
    }
}

#[via_fn]
proof fn dir_parts_spec_decreases(s: Seq<char>, platform: Platform) {
    lemma_parent_shorter(s, platform);
}

/// Lists a path and all its ancestors, nearest first.
pub fn dir_parts(path: &str, platform: Platform) -> (r: Vec<String>)
    ensures
        seq_views(r@) == dir_parts_spec(path@, platform),
{
    let mut parts: Vec<String> = Vec::new();
    parts.push(path.to_owned());
    let mut next: Option<String> = parent_of(path, platform);
    proof {
        lemma_parent_shorter(path@, platform);
        assert(seq_views(parts@) =~= seq![path@]);
        match next {
            Some(ref p) => {
                assert(dir_parts_spec(path@, platform) == seq_views(parts@) + dir_parts_spec(
                    p@,
                    platform,
                ));
            }
            None => {
                assert(dir_parts_spec(path@, platform) =~= seq_views(parts@));
            }
        }
    }
    while next.is_some()
        invariant
            match next {
                Some(p) => dir_parts_spec(path@, platform) == seq_views(parts@)
                    + dir_parts_spec(p@, platform),
                None => dir_parts_spec(path@, platform) == seq_views(parts@),
            },
        decreases (match next {
            Some(p) => p@.len() as int + 1,
            None => 0int,
        }),
    {
        let p = next.unwrap();
        let ghost pre = parts@;
        parts.push(p.clone());
        next = parent_of(p.as_str(), platform);
        proof {
            lemma_parent_shorter(p@, platform);
            assert(seq_views(parts@) =~= seq_views(pre).push(p@));
            match next {
                Some(ref q) => {
                    assert(dir_parts_spec(p@, platform) == seq![p@] + dir_parts_spec(
                        q@,
                        platform,
                    ));
                    assert(seq_views(pre) + (seq![p@] + dir_parts_spec(q@, platform))
                        =~= seq_views(parts@) + dir_parts_spec(q@, platform));
                }
                None => {
                    assert(dir_parts_spec(p@, platform) =~= seq![p@]);
                    assert(seq_views(pre) + seq![p@] =~= seq_views(parts@));
                }
            }
        }
    }
    parts
}

/// The index of the first set flag, if any.
pub open spec fn first_true(s: Seq<bool>) -> Option<int>
    decreases s.len(),
{
    if s.len() == 0 {
        None
    } else if s[0] {
        Some(0)
    } else {
        match first_true(s.drop_first()) {
            Some(i) => Some(i + 1),
            None => None,
        }
    }
}

proof fn lemma_first_true_at(s: Seq<bool>, i: int)
    requires
        0 <= i < s.len(),
        s[i],
        forall|j: int| 0 <= j < i ==> !s[j],
    ensures
        first_true(s) == Some(i),
    decreases i,
{
    if i > 0 {
        lemma_first_true_at(s.drop_first(), i - 1);
    }
}

proof fn lemma_first_true_none(s: Seq<bool>)
    requires
        forall|j: int| 0 <= j < s.len() ==> !s[j],
    ensures
        first_true(s) is None,
    decreases s.len(),
{
    if s.len() > 0 {
        assert forall|j: int| 0 <= j < s.drop_first().len() implies !s.drop_first()[j] by {
            assert(s.drop_first()[j] == s[j + 1]);
        }
        lemma_first_true_none(s.drop_first());
    }
}

/// Joins each ancestor with a file name, yielding the candidate files
/// an upward search would probe, nearest first.
pub fn candidate_files(parts: &Vec<String>, name: &str, platform: Platform) -> (r: Vec<String>)
    ensures
        r@.len() == parts@.len(),
        forall|i: int|
            0 <= i < r@.len() ==> seq_views(r@)[i] == join_spec(
                seq_views(parts@)[i],
                name@,
                platform,
            ),
{
    let mut r: Vec<String> = Vec::new();
    let n = parts.len();
    let mut i: usize = 0;
    while i < n
        invariant
            0 <= i <= n,
            n == parts@.len(),
            r@.len() == i,
            forall|j: int|
                0 <= j < i ==> seq_views(r@)[j] == join_spec(
                    seq_views(parts@)[j],
                    name@,
                    platform,
                ),
        decreases n - i,
    {
        let joined = path_join(parts[i].as_str(), name, platform);
        let ghost pre = r@;
        let ghost jv = joined@;
        r.push(joined);
        proof {
            assert forall|j: int|
                0 <= j < i + 1 implies seq_views(r@)[j] == join_spec(
                seq_views(parts@)[j],
                name@,
                platform,
            ) by {
                if j < i {
                    assert(r@[j] == pre[j]);
                    assert(seq_views(pre)[j] == join_spec(seq_views(parts@)[j], name@, platform));
                } else {
                    assert(r@[j] == r@.last());
                    assert(r@[j]@ == jv);
                }
            }
        }
        i = i + 1;
    }
    r
}

/// The first candidate whose existence flag is set: how an upward
/// search settles on the nearest hit.
pub fn find_in_parents(candidates: &Vec<String>, exists: &Vec<bool>) -> (r: Option<String>)
    requires
        candidates@.len() == exists@.len(),
    ensures
        match r {
            Some(f) => first_true(exists@) matches Some(i) && f@ == seq_views(candidates@)[i],
            None => first_true(exists@) is None,
        },
{
    let n = candidates.len();
    let mut i: usize = 0;
    while i < n
        invariant
            0 <= i <= n,
            n == candidates@.len(),
            n == exists@.len(),
            forall|j: int| 0 <= j < i ==> !exists@[j],
        decreases n - i,
    {
        if exists[i] {
            proof {
                lemma_first_true_at(exists@, i as int);
            }
            return Some(candidates[i].clone());
        }
        i = i + 1;
    }
    proof {
        lemma_first_true_none(exists@);
    }
    None
}

} // verus!
