//! The ordered, deduplicated-by-version set of locally installed
//! toolchains, kept separate from the catalog so resolution can work
//! offline.

use vstd::prelude::*;

use crate::ranges::{req_matches, req_matches_exec};
use crate::strutil::str_eq;
use crate::versioning::{ver_lt, MetaView, SimpleVersion, VersionMetadata};

verus! {

/// One inventory entry at the mathematical level.
pub type Entry = (SimpleVersion, MetaView);

/// The keys of an entry sequence.
pub open spec fn entry_keys(s: Seq<Entry>) -> Seq<SimpleVersion> {
    s.map_values(|p: Entry| p.0)
}

/// Entries in strictly ascending version order (so versions are unique).
pub open spec fn entries_sorted(s: Seq<Entry>) -> bool {
    forall|i: int, j: int| 0 <= i < j < s.len() ==> ver_lt(s[i].0, s[j].0)
}

/// What inserting yields: the entry goes to its place in the order,
/// and a version that is already present keeps the entry it had.
pub open spec fn sorted_insert(s: Seq<Entry>, v: SimpleVersion, m: MetaView) -> Seq<Entry>
    decreases s.len(),
{
    if s.len() == 0 {
        seq![(v, m)]
    } else if ver_lt(v, s[0].0) {
        seq![(v, m)] + s
    } else if s[0].0 == v {
        s
    } else {
        seq![s[0]] + sorted_insert(s.drop_first(), v, m)
    }
}

/// What removing yields: every entry of that version goes, the order
/// of the rest is kept.
pub open spec fn sorted_remove(s: Seq<Entry>, v: SimpleVersion) -> Seq<Entry>
    decreases s.len(),
{
    if s.len() == 0 {
        s
    } else {
        let rest = sorted_remove(s.drop_last(), v);
        if s.last().0 == v {
            rest
        } else {
            rest.push(s.last())
        }
    }
}

/// What building from an unordered list yields: the entries inserted
/// left to right, so the earliest entry of a version wins.
pub open spec fn insert_all(input: Seq<Entry>) -> Seq<Entry>
    decreases input.len(),
{
    if input.len() == 0 {
        Seq::empty()
    } else {
        sorted_insert(insert_all(input.drop_last()), input.last().0, input.last().1)
    }
}

/// The newest entry whose metadata carries an LTS codename.
pub open spec fn last_lts_in(s: Seq<Entry>) -> Option<MetaView>
    decreases s.len(),
{
    if s.len() == 0 {
        None
    } else if s.last().1.lts is Some {
        Some(s.last().1)
    } else {
        last_lts_in(s.drop_last())
    }
}

/// The newest entry whose metadata carries exactly this codename.
pub open spec fn last_named_lts_in(s: Seq<Entry>, name: Seq<char>) -> Option<MetaView>
    decreases s.len(),
{
    if s.len() == 0 {
        None
    } else if s.last().1.lts == Some(name) {
        Some(s.last().1)
    } else {
        last_named_lts_in(s.drop_last(), name)
    }
}

/// The newest entry whose version satisfies the range string.
pub open spec fn last_fulfilling_in(s: Seq<Entry>, req: Seq<char>) -> Option<MetaView>
    decreases s.len(),
{
    if s.len() == 0 {
        None
    } else if req_matches(
        req,
        s.last().0.major as int,
        s.last().0.minor as int,
        s.last().0.patch as int,
    ) {
        Some(s.last().1)
    } else {
        last_fulfilling_in(s.drop_last(), req)
    }
}

/// The locally installed versions, ascending and unique by version.
pub struct InstalledVersions {
    pub ordered_versions: Vec<(SimpleVersion, VersionMetadata)>,
}

impl InstalledVersions {
    /// The inventory's entries at the mathematical level.
    pub open spec fn entries(self) -> Seq<Entry> {
        self.ordered_versions@.map_values(|p: (SimpleVersion, VersionMetadata)| (p.0, p.1@))
    }

    /// The inventory invariant.
    pub open spec fn wf(self) -> bool {
        entries_sorted(self.entries())
    }

    /// Builds an inventory from an unordered, possibly duplicated list:
    /// the result is ordered and unique by version, and the earliest
    /// entry of each version is the one kept.
    pub fn new(versions: Vec<(SimpleVersion, VersionMetadata)>) -> (r: InstalledVersions)
        ensures
            r.wf(),
            r.entries() == insert_all(
                versions@.map_values(|p: (SimpleVersion, VersionMetadata)| (p.0, p.1@)),
            ),
    {
        let ghost input = versions@.map_values(
            |p: (SimpleVersion, VersionMetadata)| (p.0, p.1@),
        );
        let mut r = InstalledVersions { ordered_versions: Vec::new() };
        let n = versions.len();
        let mut i: usize = 0;
        while i < n
            invariant
                0 <= i <= n,
                n == versions@.len(),
                input == versions@.map_values(
                    |p: (SimpleVersion, VersionMetadata)| (p.0, p.1@),
                ),
                r.wf(),
                r.entries() == insert_all(input.take(i as int)),
            decreases n - i,
        {
            let (version, meta) = {
                let p = &versions[i];
                (p.0, p.1.duplicate())
            };
            proof {
                assert(input.take(i + 1).drop_last() =~= input.take(i as int));
                assert(input.take(i + 1).last() == input[i as int]);
            }
            r.insert((version, meta));
            i = i + 1;
        }
        proof {
            assert(input.take(n as int) =~= input);
        }
        r
    }

    /// Inserts a version, keeping order and uniqueness: inserting a
    /// version that is already present leaves the inventory unchanged.
    pub fn insert(&mut self, version: (SimpleVersion, VersionMetadata))
        requires
            old(self).wf(),
        ensures
            final(self).wf(),
            final(self).entries() == sorted_insert(
                old(self).entries(),
                version.0,
                version.1@,
            ),
    {
        let ghost s = self.entries();
        let ghost key = version.0;
        let ghost mv = version.1@;
        let n = self.ordered_versions.len();
        let mut pos: usize = 0;
        while pos < n && self.ordered_versions[pos].0.lt(&version.0)
            invariant
                0 <= pos <= n,
                n == self.ordered_versions@.len(),
                s == self.entries(),
                key == version.0,
                forall|j: int| 0 <= j < pos ==> ver_lt(s[j].0, key),
            decreases n - pos,
        {
            pos = pos + 1;
        }
        proof {
            lemma_sorted_insert_at(s, key, mv, pos as int);
        }
        if pos < n && self.ordered_versions[pos].0 == version.0 {
            return;
        }
        let ghost old_vec = self.ordered_versions@;
        self.ordered_versions.insert(pos, version);
        proof {
            old_vec.insert_ensures(pos as int, (version.0, version.1));
            assert(self.entries() =~= s.insert(pos as int, (key, mv)));
            s.insert_ensures(pos as int, (key, mv));
            if pos < s.len() {
                assert(s[pos as int].0 != key);
                assert(!ver_lt(s[pos as int].0, key));
            }
            assert forall|a: int, b: int|
                0 <= a < b < self.entries().len() implies ver_lt(
                self.entries()[a].0,
                self.entries()[b].0,
            ) by {
                let t = self.entries();
                if a < pos && b < pos {
                    assert(ver_lt(s[a].0, s[b].0));
                } else if a < pos && b == pos {
                    assert(ver_lt(s[a].0, key));
                } else if a < pos && b > pos {
                    assert(t[b] == s[b - 1]);
                    if a < b - 1 {
                        assert(ver_lt(s[a].0, s[b - 1].0));
                    }
                } else if a == pos && b > pos {
                    assert(t[b] == s[b - 1]);
                    assert(ver_lt(key, s[pos as int].0));
                    if b - 1 > pos {
                        assert(ver_lt(s[pos as int].0, s[b - 1].0));
                    }
                } else {
                    assert(t[a] == s[a - 1]);
                    assert(t[b] == s[b - 1]);
                    assert(ver_lt(s[a - 1].0, s[b - 1].0));
                }
            }
        }
    }

    /// Removes a version; the order of the rest is kept.
    pub fn remove(&mut self, version: &SimpleVersion)
        requires
            old(self).wf(),
        ensures
            final(self).wf(),
            final(self).entries() == sorted_remove(old(self).entries(), *version),
    {
        let ghost s = self.entries();
        let mut kept: Vec<(SimpleVersion, VersionMetadata)> = Vec::new();
        let n = self.ordered_versions.len();
        let mut i: usize = 0;
        while i < n
            invariant
                0 <= i <= n,
                n == self.ordered_versions@.len(),
                s == self.entries(),
                kept@.map_values(|p: (SimpleVersion, VersionMetadata)| (p.0, p.1@))
                    == sorted_remove(s.take(i as int), *version),
            decreases n - i,
        {
            proof {
                assert(s.take(i + 1).drop_last() =~= s.take(i as int));
                assert(s.take(i + 1).last() == s[i as int]);
            }
            let ghost old_kept = kept@;
            if !(self.ordered_versions[i].0 == *version) {
                let p = &self.ordered_versions[i];
                kept.push((p.0, p.1.duplicate()));
                proof {
                    assert(kept@.map_values(
                        |p: (SimpleVersion, VersionMetadata)| (p.0, p.1@),
                    ) =~= old_kept.map_values(
                        |p: (SimpleVersion, VersionMetadata)| (p.0, p.1@),
                    ).push((s[i as int].0, s[i as int].1)));
                }
            }
            i = i + 1;
        }
        proof {
            assert(s.take(n as int) =~= s);
        }
        self.ordered_versions = kept;
        proof {
            lemma_sorted_remove_sorted(s, *version);
        }
    }

    /// All installed versions, ascending.
    pub fn all(&self) -> (r: Vec<SimpleVersion>)
        ensures
            r@ == entry_keys(self.entries()),
    {
        let mut r: Vec<SimpleVersion> = Vec::new();
        let n = self.ordered_versions.len();
        let mut i: usize = 0;
        while i < n
            invariant
                0 <= i <= n,
                n == self.ordered_versions@.len(),
                r@ =~= entry_keys(self.entries()).take(i as int),
            decreases n - i,
        {
            r.push(self.ordered_versions[i].0);
            proof {
                assert(r@ =~= entry_keys(self.entries()).take(i + 1));
            }
            i = i + 1;
        }
        proof {
            assert(entry_keys(self.entries()).take(n as int) =~= entry_keys(self.entries()));
        }
        r
    }

    /// The newest installed version's metadata.
    pub fn latest(&self) -> (r: Option<&VersionMetadata>)
        ensures
            match r {
                Some(m) => self.entries().len() > 0 && m@ == self.entries().last().1,
                None => self.entries().len() == 0,
            },
    {
        let n = self.ordered_versions.len();
        if n == 0 {
            None
        } else {
            Some(&self.ordered_versions[n - 1].1)
        }
    }

    /// The newest installed LTS version's metadata.
    pub fn latest_lts(&self) -> (r: Option<&VersionMetadata>)
        ensures
            match r {
                Some(m) => last_lts_in(self.entries()) == Some(m@),
                None => last_lts_in(self.entries()) is None,
            },
    {
        let mut i: usize = self.ordered_versions.len();
        proof {
            assert(self.entries().take(i as int) =~= self.entries());
        }
        while i > 0
            invariant
                0 <= i <= self.ordered_versions@.len(),
                last_lts_in(self.entries()) == last_lts_in(self.entries().take(i as int)),
            decreases i,
        {
            proof {
                assert(self.entries().take(i as int).drop_last() =~= self.entries().take(
                    i - 1,
                ));
                assert(self.entries().take(i as int).last() == self.entries()[i - 1]);
            }
            match &self.ordered_versions[i - 1].1.lts {
                Some(_) => {
                    return Some(&self.ordered_versions[i - 1].1);
                }
                None => {}
            }
            i = i - 1;
        }
        proof {
            assert(self.entries().take(0) =~= Seq::<Entry>::empty());
        }
        None
    }

    /// The newest installed version of the LTS line named `lts`; the
    /// codename is compared exactly as the metadata records it.
    pub fn lts(&self, lts: &str) -> (r: Option<&VersionMetadata>)
        ensures
            match r {
                Some(m) => last_named_lts_in(self.entries(), lts@) == Some(m@),
                None => last_named_lts_in(self.entries(), lts@) is None,
            },
    {
        let mut i: usize = self.ordered_versions.len();
        proof {
            assert(self.entries().take(i as int) =~= self.entries());
        }
        while i > 0
            invariant
                0 <= i <= self.ordered_versions@.len(),
                last_named_lts_in(self.entries(), lts@) == last_named_lts_in(
                    self.entries().take(i as int),
                    lts@,
                ),
            decreases i,
        {
            proof {
                assert(self.entries().take(i as int).drop_last() =~= self.entries().take(
                    i - 1,
                ));
                assert(self.entries().take(i as int).last() == self.entries()[i - 1]);
            }
            let matches_name = match &self.ordered_versions[i - 1].1.lts {
                Some(l) => str_eq(l.as_str(), lts),
                None => false,
            };
            if matches_name {
                return Some(&self.ordered_versions[i - 1].1);
            }
            i = i - 1;
        }
        proof {
            assert(self.entries().take(0) =~= Seq::<Entry>::empty());
        }
        None
    }

    /// The newest installed version satisfying the range string.
    pub fn fulfilling(&self, req: &str) -> (r: Option<&VersionMetadata>)
        ensures
            match r {
                Some(m) => last_fulfilling_in(self.entries(), req@) == Some(m@),
                None => last_fulfilling_in(self.entries(), req@) is None,
            },
    {
        let mut i: usize = self.ordered_versions.len();
        proof {
            assert(self.entries().take(i as int) =~= self.entries());
        }
        while i > 0
            invariant
                0 <= i <= self.ordered_versions@.len(),
                last_fulfilling_in(self.entries(), req@) == last_fulfilling_in(
                    self.entries().take(i as int),
                    req@,
                ),
            decreases i,
        {
            proof {
                assert(self.entries().take(i as int).drop_last() =~= self.entries().take(
                    i - 1,
                ));
                assert(self.entries().take(i as int).last() == self.entries()[i - 1]);
            }
            let key = self.ordered_versions[i - 1].0;
            if req_matches_exec(req, key.major, key.minor, key.patch) {
                return Some(&self.ordered_versions[i - 1].1);
            }
            i = i - 1;
        }
        proof {
            assert(self.entries().take(0) =~= Seq::<Entry>::empty());
        }
        None
    }
}

/// Scanning to the first position whose key is not below `v` locates
/// exactly where the recursive insertion places the entry.
proof fn lemma_sorted_insert_at(s: Seq<Entry>, v: SimpleVersion, m: MetaView, pos: int)
    requires
        entries_sorted(s),
        0 <= pos <= s.len(),
        forall|j: int| 0 <= j < pos ==> ver_lt(s[j].0, v),
        pos < s.len() ==> !ver_lt(s[pos].0, v),
    ensures
        sorted_insert(s, v, m) == (if pos < s.len() && s[pos].0 == v {
            s
        } else {
            s.insert(pos, (v, m))
        }),
    decreases s.len(),
{
    if s.len() == 0 {
        assert(s.insert(0, (v, m)) =~= seq![(v, m)]);
    } else if pos == 0 {
        if ver_lt(v, s[0].0) {
            assert(s.insert(0, (v, m)) =~= seq![(v, m)] + s);
        } else {
            assert(s[0].0 == v);
        }
    } else {
        assert(ver_lt(s[0].0, v));
        let rest = s.drop_first();
        assert forall|j: int| 0 <= j < pos - 1 implies ver_lt(rest[j].0, v) by {
            assert(rest[j] == s[j + 1]);
        }
        assert(pos - 1 < rest.len() ==> !ver_lt(rest[pos - 1].0, v));
        lemma_sorted_insert_at(rest, v, m, pos - 1);
        if pos < s.len() && s[pos].0 == v {
            assert(rest[pos - 1].0 == v);
            assert(seq![s[0]] + rest =~= s);
        } else {
            assert(seq![s[0]] + rest.insert(pos - 1, (v, m)) =~= s.insert(pos, (v, m)));
        }
    }
}

/// Removal keeps the strict order, and every surviving entry was there
/// before.
proof fn lemma_sorted_remove_sorted(s: Seq<Entry>, v: SimpleVersion)
    requires
        entries_sorted(s),
    ensures
        entries_sorted(sorted_remove(s, v)),
        forall|j: int|
            0 <= j < sorted_remove(s, v).len() ==> s.contains(#[trigger] sorted_remove(s, v)[j]),
    decreases s.len(),
{
    if s.len() > 0 {
        let prefix = s.drop_last();
        lemma_sorted_remove_sorted(prefix, v);
        let rest = sorted_remove(prefix, v);
        assert forall|j: int| 0 <= j < rest.len() implies s.contains(#[trigger] rest[j]) by {
            assert(prefix.contains(rest[j]));
            let k = choose|k: int| 0 <= k < prefix.len() && prefix[k] == rest[j];
            assert(s[k] == rest[j]);
        }
        if s.last().0 == v {
        } else {
            let r = rest.push(s.last());
            assert(s[s.len() - 1] == s.last());
            assert forall|a: int, b: int| 0 <= a < b < r.len() implies ver_lt(r[a].0, r[b].0) by {
                if b < rest.len() {
                    assert(ver_lt(rest[a].0, rest[b].0));
                } else {
                    assert(r[b] == s.last());
                    assert(prefix.contains(rest[a]));
                    let k = choose|k: int| 0 <= k < prefix.len() && prefix[k] == rest[a];
                    assert(ver_lt(s[k].0, s[s.len() - 1].0));
                }
            }
            assert forall|j: int| 0 <= j < r.len() implies s.contains(#[trigger] r[j]) by {
                if j < rest.len() {
                    assert(s.contains(rest[j]));
                } else {
                    assert(r[j] == s[s.len() - 1]);
                }
            }
        }
    }
}

/// Insertion puts the version among the keys.
proof fn lemma_sorted_insert_contains(s: Seq<Entry>, v: SimpleVersion, m: MetaView)
    ensures
        entry_keys(sorted_insert(s, v, m)).contains(v),
    decreases s.len(),
{
    let r = sorted_insert(s, v, m);
    if s.len() == 0 {
        assert(entry_keys(r)[0] == v);
    } else if ver_lt(v, s[0].0) {
        assert(r[0] == (v, m));
        assert(entry_keys(r)[0] == v);
    } else if s[0].0 == v {
        assert(entry_keys(r)[0] == v);
    } else {
        lemma_sorted_insert_contains(s.drop_first(), v, m);
        let inner = sorted_insert(s.drop_first(), v, m);
        let j = choose|j: int| 0 <= j < inner.len() && entry_keys(inner)[j] == v;
        assert(r[j + 1] == inner[j]);
        assert(entry_keys(r)[j + 1] == v);
    }
}

/// Inserting a version that is already present changes nothing.
proof fn lemma_sorted_insert_present(s: Seq<Entry>, v: SimpleVersion, m: MetaView)
    requires
        entries_sorted(s),
        entry_keys(s).contains(v),
    ensures
        sorted_insert(s, v, m) == s,
    decreases s.len(),
{
    let j = choose|j: int| 0 <= j < s.len() && entry_keys(s)[j] == v;
    if ver_lt(v, s[0].0) {
        if j > 0 {
            assert(ver_lt(s[0].0, s[j].0));
        }
        assert(false);
    } else if s[0].0 == v {
    } else {
        assert(j > 0);
        assert(s.drop_first()[j - 1] == s[j]);
        assert(entry_keys(s.drop_first())[j - 1] == v);
        lemma_sorted_insert_present(s.drop_first(), v, m);
        assert(seq![s[0]] + s.drop_first() =~= s);
    }
}

/// Insertion keeps the strict order.
proof fn lemma_sorted_insert_sorted(s: Seq<Entry>, v: SimpleVersion, m: MetaView)
    requires
        entries_sorted(s),
    ensures
        entries_sorted(sorted_insert(s, v, m)),
    decreases s.len(),
{
    let r = sorted_insert(s, v, m);
    if s.len() == 0 {
    } else if ver_lt(v, s[0].0) {
        assert forall|a: int, b: int| 0 <= a < b < r.len() implies ver_lt(r[a].0, r[b].0) by {
            if a == 0 {
                assert(r[b] == s[b - 1]);
                if b > 1 {
                    assert(ver_lt(s[0].0, s[b - 1].0));
                }
            } else {
                assert(r[a] == s[a - 1]);
                assert(r[b] == s[b - 1]);
                assert(ver_lt(s[a - 1].0, s[b - 1].0));
            }
        }
    } else if s[0].0 == v {
    } else {
        let rest = s.drop_first();
        lemma_sorted_insert_sorted(rest, v, m);
        let inner = sorted_insert(rest, v, m);
        assert(!ver_lt(v, s[0].0) && s[0].0 != v);
        assert(ver_lt(s[0].0, v));
        assert forall|b: int| 0 <= b < inner.len() implies ver_lt(s[0].0, inner[b].0) by {
            lemma_sorted_insert_member(rest, v, m, b);
            if inner[b].0 == v {
            } else {
                let k = choose|k: int| 0 <= k < rest.len() && rest[k] == inner[b];
                assert(s[k + 1] == rest[k]);
                assert(ver_lt(s[0].0, s[k + 1].0));
            }
        }
        assert forall|a: int, b: int| 0 <= a < b < r.len() implies ver_lt(r[a].0, r[b].0) by {
            if a == 0 {
                assert(r[b] == inner[b - 1]);
            } else {
                assert(r[a] == inner[a - 1]);
                assert(r[b] == inner[b - 1]);
            }
        }
    }
}

/// Every entry of an insertion result is the new entry or one of the
/// old ones.
proof fn lemma_sorted_insert_member(s: Seq<Entry>, v: SimpleVersion, m: MetaView, b: int)
    requires
        0 <= b < sorted_insert(s, v, m).len(),
    ensures
        sorted_insert(s, v, m)[b].0 == v || s.contains(sorted_insert(s, v, m)[b]),
    decreases s.len(),
{
    let r = sorted_insert(s, v, m);
    if s.len() == 0 {
    } else if ver_lt(v, s[0].0) {
        if b > 0 {
            assert(r[b] == s[b - 1]);
        }
    } else if s[0].0 == v {
    } else {
        if b > 0 {
            lemma_sorted_insert_member(s.drop_first(), v, m, b - 1);
            let inner = sorted_insert(s.drop_first(), v, m);
            assert(r[b] == inner[b - 1]);
            if inner[b - 1].0 != v {
                let k = choose|k: int|
                    0 <= k < s.drop_first().len() && s.drop_first()[k] == inner[b - 1];
                assert(s[k + 1] == inner[b - 1]);
            }
        }
    }
}

/// How often a version occurs among the keys.
pub open spec fn count_key(s: Seq<Entry>, v: SimpleVersion) -> nat
    decreases s.len(),
{
    if s.len() == 0 {
        0
    } else {
        count_key(s.drop_last(), v) + (if s.last().0 == v {
            1nat
        } else {
            0nat
        })
    }
}

proof fn lemma_count_key_zero(s: Seq<Entry>, v: SimpleVersion)
    requires
        forall|j: int| 0 <= j < s.len() ==> s[j].0 != v,
    ensures
        count_key(s, v) == 0,
    decreases s.len(),
{
    if s.len() > 0 {
        assert forall|j: int| 0 <= j < s.drop_last().len() implies s.drop_last()[j].0 != v by {
            assert(s.drop_last()[j] == s[j]);
        }
        lemma_count_key_zero(s.drop_last(), v);
    }
}

/// In a strictly ordered sequence a present version occurs exactly once.
proof fn lemma_sorted_count_one(s: Seq<Entry>, v: SimpleVersion)
    requires
        entries_sorted(s),
        entry_keys(s).contains(v),
    ensures
        count_key(s, v) == 1,
    decreases s.len(),
{
    let j = choose|j: int| 0 <= j < s.len() && entry_keys(s)[j] == v;
    if j == s.len() - 1 {
        assert forall|k: int| 0 <= k < s.drop_last().len() implies s.drop_last()[k].0 != v by {
            assert(s.drop_last()[k] == s[k]);
            assert(ver_lt(s[k].0, s[j].0));
        }
        lemma_count_key_zero(s.drop_last(), v);
    } else {
        assert(ver_lt(s[j].0, s[s.len() - 1].0));
        assert(s.last().0 != v);
        assert(s.drop_last()[j] == s[j]);
        assert(entry_keys(s.drop_last())[j] == v);
        lemma_sorted_count_one(s.drop_last(), v);
    }
}

/// Inserting the same version twice leaves the inventory exactly as
/// one insertion leaves it, and the version then occurs exactly once.
pub proof fn lemma_insert_twice_single_entry(
    s: Seq<Entry>,
    v: SimpleVersion,
    m1: MetaView,
    m2: MetaView,
)
    requires
        entries_sorted(s),
    ensures
        sorted_insert(sorted_insert(s, v, m1), v, m2) == sorted_insert(s, v, m1),
        count_key(sorted_insert(sorted_insert(s, v, m1), v, m2), v) == 1,
{
    let once = sorted_insert(s, v, m1);
    lemma_sorted_insert_sorted(s, v, m1);
    lemma_sorted_insert_contains(s, v, m1);
    lemma_sorted_insert_present(once, v, m2);
    lemma_sorted_count_one(once, v);
}

} // verus!
