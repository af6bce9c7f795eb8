//! The catalog of known upstream releases: the codename-to-major map,
//! the per-version metadata map, and the derived ascending index that
//! resolution runs on.

use vstd::prelude::*;
use vstd::pervasive::unreached;

use crate::assoc::{
    alookup, lemma_alookup_found, lemma_alookup_none_iff, lemma_alookup_push_other,
    lemma_alookup_update_other, unique_keys,
};
use crate::ranges::{req_matches, req_matches_exec};
use crate::strutil::{lower_spec, str_eq, to_lowercase};
use crate::versioning::{
    lts_info_name, ver_le, ver_lt, LtsInfo, MetaView, SimpleVersion, VersionInfo, VersionMetadata,
};

verus! {

/// A sequence of versions in strictly ascending numeric order.
pub open spec fn strictly_sorted(s: Seq<SimpleVersion>) -> bool {
    forall|i: int, j: int| 0 <= i < j < s.len() ==> ver_lt(s[i], s[j])
}

/// Two strictly ascending sequences with the same members are equal.
pub proof fn lemma_strictly_sorted_same_members(x: Seq<SimpleVersion>, y: Seq<SimpleVersion>)
    requires
        strictly_sorted(x),
        strictly_sorted(y),
        forall|j: int| 0 <= j < x.len() ==> y.contains(#[trigger] x[j]),
        forall|j: int| 0 <= j < y.len() ==> x.contains(#[trigger] y[j]),
    ensures
        x =~= y,
    decreases x.len(),
{
    if x.len() == 0 {
        if y.len() > 0 {
            assert(x.contains(y[0]));
            assert(false);
        }
    } else if y.len() == 0 {
        assert(y.contains(x[0]));
        assert(false);
    } else {
        assert(y.contains(x[0]));
        let j = choose|j: int| 0 <= j < y.len() && y[j] == x[0];
        if j > 0 {
            assert(ver_lt(y[0], y[j]));
        }
        assert(x.contains(y[0]));
        let k = choose|k: int| 0 <= k < x.len() && x[k] == y[0];
        if k > 0 {
            assert(ver_lt(x[0], x[k]));
        }
        assert(x[0] == y[0]);
        let xt = x.drop_first();
        let yt = y.drop_first();
        assert forall|a: int| 0 <= a < xt.len() implies yt.contains(#[trigger] xt[a]) by {
            assert(xt[a] == x[a + 1]);
            assert(y.contains(x[a + 1]));
            let i = choose|i: int| 0 <= i < y.len() && y[i] == x[a + 1];
            assert(ver_lt(x[0], x[a + 1]));
            assert(i > 0);
            assert(yt[i - 1] == x[a + 1]);
        }
        assert forall|a: int| 0 <= a < yt.len() implies xt.contains(#[trigger] yt[a]) by {
            assert(yt[a] == y[a + 1]);
            assert(x.contains(y[a + 1]));
            let i = choose|i: int| 0 <= i < x.len() && x[i] == y[a + 1];
            assert(ver_lt(y[0], y[a + 1]));
            assert(i > 0);
            assert(xt[i - 1] == y[a + 1]);
        }
        lemma_strictly_sorted_same_members(xt, yt);
        assert(x =~= seq![x[0]] + xt);
        assert(y =~= seq![y[0]] + yt);
    }
}

/// The codename-to-major entry the release list yields for `name`:
/// of the entries whose folded codename is `name`, the last one wins.
pub open spec fn lts_lookup_in(entries: Seq<VersionInfo>, name: Seq<char>) -> Option<u16>
    decreases entries.len(),
{
    if entries.len() == 0 {
        None
    } else {
        let last = entries[entries.len() - 1];
        match lts_info_name(last.lts) {
            Some(l) => if lower_spec(l) == name {
                Some(last.version.major)
            } else {
                lts_lookup_in(entries.drop_last(), name)
            },
            None => lts_lookup_in(entries.drop_last(), name),
        }
    }
}

/// The metadata the release list yields for version `v`: of the entries
/// with that version, the last one wins.
pub open spec fn meta_lookup_in(entries: Seq<VersionInfo>, v: SimpleVersion) -> Option<MetaView>
    decreases entries.len(),
{
    if entries.len() == 0 {
        None
    } else {
        let last = entries[entries.len() - 1];
        if last.version == v {
            Some(MetaView { version: last.version, lts: lts_info_name(last.lts) })
        } else {
            meta_lookup_in(entries.drop_last(), v)
        }
    }
}

/// The codename-to-major pairs a raw entry vector denotes.
pub open spec fn lts_pairs_of(v: Seq<(String, u16)>) -> Seq<(Seq<char>, u16)> {
    v.map_values(|p: (String, u16)| (p.0@, p.1))
}

/// The version-to-metadata pairs a raw metadata vector denotes.
pub open spec fn meta_pairs_of(v: Seq<VersionMetadata>) -> Seq<(SimpleVersion, MetaView)> {
    v.map_values(|m: VersionMetadata| (m.version, m@))
}

/// The cached index of all known upstream releases.
pub struct Versions {
    pub lts_versions: Vec<(String, u16)>,
    pub versions: Vec<VersionMetadata>,
    pub sorted_versions: Vec<SimpleVersion>,
}

impl Versions {
    /// The codename-to-major map, as an association sequence.
    pub open spec fn lts_pairs(self) -> Seq<(Seq<char>, u16)> {
        lts_pairs_of(self.lts_versions@)
    }

    /// The version-to-metadata map, as an association sequence.
    pub open spec fn meta_pairs(self) -> Seq<(SimpleVersion, MetaView)> {
        meta_pairs_of(self.versions@)
    }

    /// The versions the catalog knows, in storage order.
    pub open spec fn keys(self) -> Seq<SimpleVersion> {
        self.versions@.map_values(|m: VersionMetadata| m.version)
    }

    /// The derived ascending index.
    pub open spec fn sorted(self) -> Seq<SimpleVersion> {
        self.sorted_versions@
    }

    /// Both maps have pairwise distinct keys.
    pub open spec fn maps_wf(self) -> bool {
        unique_keys(self.lts_pairs()) && unique_keys(self.meta_pairs())
    }

    /// The catalog invariant: distinct keys, and the derived index is
    /// exactly the key set of the metadata map, in strictly ascending
    /// order.
    pub open spec fn wf(self) -> bool {
        &&& self.maps_wf()
        &&& strictly_sorted(self.sorted())
        &&& forall|j: int|
            0 <= j < self.keys().len() ==> self.sorted().contains(#[trigger] self.keys()[j])
        &&& forall|j: int|
            0 <= j < self.sorted().len() ==> self.keys().contains(#[trigger] self.sorted()[j])
        &&& self.sorted().len() == self.keys().len()
    }

    /// Whether some codename maps to `major`.
    pub open spec fn is_lts_major(self, major: u16) -> bool {
        exists|j: int| 0 <= j < self.lts_pairs().len() && self.lts_pairs()[j].1 == major
    }

    /// Builds the catalog from a fetched release list: codenames are
    /// folded to lower case and map to their release's major version,
    /// and each version maps to its metadata; on duplicates the last
    /// entry wins. The ascending index is derived at the end.
    pub fn new(all_versions: Vec<VersionInfo>) -> (r: Versions)
        ensures
            r.wf(),
            forall|name: Seq<char>|
                #[trigger] alookup(r.lts_pairs(), name) == lts_lookup_in(all_versions@, name),
            forall|v: SimpleVersion|
                #[trigger] alookup(r.meta_pairs(), v) == meta_lookup_in(all_versions@, v),
    {
        let mut r = Versions {
            lts_versions: Vec::new(),
            versions: Vec::new(),
            sorted_versions: Vec::new(),
        };
        let n = all_versions.len();
        let mut i: usize = 0;
        while i < n
            invariant
                0 <= i <= n,
                n == all_versions@.len(),
                r.maps_wf(),
                forall|name: Seq<char>|
                    #[trigger] alookup(r.lts_pairs(), name) == lts_lookup_in(
                        all_versions@.take(i as int),
                        name,
                    ),
                forall|v: SimpleVersion|
                    #[trigger] alookup(r.meta_pairs(), v) == meta_lookup_in(
                        all_versions@.take(i as int),
                        v,
                    ),
            decreases n - i,
        {
            let info = &all_versions[i];
            let meta = VersionMetadata {
                version: info.version,
                lts: match info.lts.lts_ref() {
                    Some(s) => Some(s.clone()),
                    None => None,
                },
            };
            proof {
                assert(meta@ == (MetaView {
                    version: all_versions@[i as int].version,
                    lts: lts_info_name(all_versions@[i as int].lts),
                }));
            }
            upsert_meta(&mut r.versions, meta);
            match info.lts.lts_ref() {
                Some(name) => {
                    let lowered = to_lowercase(name.as_str());
                    upsert_lts(&mut r.lts_versions, lowered, info.version.major);
                }
                None => {}
            }
            proof {
                let taken = all_versions@.take(i + 1);
                assert(taken.drop_last() =~= all_versions@.take(i as int));
                assert(taken[taken.len() - 1] == all_versions@[i as int]);
            }
            i = i + 1;
        }
        proof {
            assert(all_versions@.take(n as int) =~= all_versions@);
        }
        r.create_sorted_versions();
        r
    }

    /// Rebuilds the ascending index from the metadata map's keys; it is
    /// not persisted, so every load ends here.
    pub fn create_sorted_versions(&mut self)
        requires
            old(self).maps_wf(),
        ensures
            final(self).lts_versions@ == old(self).lts_versions@,
            final(self).versions@ == old(self).versions@,
            final(self).wf(),
    {
        let mut out: Vec<SimpleVersion> = Vec::new();
        let n = self.versions.len();
        let mut i: usize = 0;
        while i < n
            invariant
                0 <= i <= n,
                n == self.versions@.len(),
                self.maps_wf(),
                strictly_sorted(out@),
                out@.len() == i,
                forall|j: int| 0 <= j < i ==> out@.contains(#[trigger] self.keys()[j]),
                forall|j: int|
                    0 <= j < out@.len() ==> self.keys().take(i as int).contains(
                        #[trigger] out@[j],
                    ),
            decreases n - i,
        {
            let key = self.versions[i].version;
            proof {
                assert(self.keys()[i as int] == key);
                if out@.contains(key) {
                    let jj = choose|jj: int| 0 <= jj < out@.len() && out@[jj] == key;
                    assert(self.keys().take(i as int).contains(out@[jj]));
                    let j2 = choose|j2: int|
                        0 <= j2 < i && self.keys().take(i as int)[j2] == key;
                    assert(self.meta_pairs()[j2].0 == self.meta_pairs()[i as int].0);
                    assert(false);
                }
            }
            let mut pos: usize = 0;
            while pos < out.len() && out[pos].lt(&key)
                invariant
                    0 <= pos <= out@.len(),
                    forall|j: int| 0 <= j < pos ==> ver_lt(out@[j], key),
                decreases out@.len() - pos,
            {
                pos = pos + 1;
            }
            proof {
                if pos < out@.len() {
                    assert(out@[pos as int] != key);
                }
            }
            let ghost old_out = out@;
            out.insert(pos, key);
            proof {
                old_out.insert_ensures(pos as int, key);
                assert(out@ == old_out.insert(pos as int, key));
                assert(out@.len() == old_out.len() + 1);
                assert(forall|x: int| 0 <= x < pos ==> #[trigger] out@[x] == old_out[x]);
                assert(forall|x: int|
                    pos <= x < old_out.len() ==> #[trigger] out@[x + 1] == old_out[x]);
                assert(out@[pos as int] == key);
                assert forall|a: int, b: int| 0 <= a < b < out@.len() implies ver_lt(
                    out@[a],
                    out@[b],
                ) by {
                    if a < pos && b < pos {
                        assert(ver_lt(old_out[a], old_out[b]));
                    } else if a < pos && b == pos {
                        assert(ver_lt(old_out[a], key));
                    } else if a < pos && b > pos {
                        assert(out@[b] == old_out[b - 1]);
                        if a < b - 1 {
                            assert(ver_lt(old_out[a], old_out[b - 1]));
                        }
                    } else if a == pos && b > pos {
                        assert(out@[b] == old_out[b - 1]);
                        assert(old_out[pos as int] != key);
                        assert(!ver_lt(old_out[pos as int], key));
                        assert(ver_lt(key, old_out[pos as int]));
                        if b - 1 > pos {
                            assert(ver_lt(old_out[pos as int], old_out[b - 1]));
                        }
                    } else {
                        assert(out@[a] == old_out[a - 1]);
                        assert(out@[b] == old_out[b - 1]);
                        assert(ver_lt(old_out[a - 1], old_out[b - 1]));
                    }
                }
                let ghost taken = self.keys().take(i + 1);
                assert(taken[i as int] == key);
                assert forall|j: int| 0 <= j < i + 1 implies out@.contains(
                    #[trigger] self.keys()[j],
                ) by {
                    if j == i {
                        assert(out@[pos as int] == key);
                    } else {
                        assert(old_out.contains(self.keys()[j]));
                        let j2 = choose|j2: int|
                            0 <= j2 < old_out.len() && old_out[j2] == self.keys()[j];
                        if j2 < pos {
                            assert(out@[j2] == self.keys()[j]);
                        } else {
                            assert(out@[j2 + 1] == self.keys()[j]);
                        }
                    }
                }
                assert forall|j: int| 0 <= j < out@.len() implies taken.contains(
                    #[trigger] out@[j],
                ) by {
                    if j == pos {
                        assert(taken[i as int] == out@[j]);
                    } else if j < pos {
                        assert(out@[j] == old_out[j]);
                        assert(self.keys().take(i as int).contains(old_out[j]));
                        let j2 = choose|j2: int|
                            0 <= j2 < i && self.keys().take(i as int)[j2] == old_out[j];
                        assert(taken[j2] == out@[j]);
                    } else {
                        assert(out@[j] == old_out[j - 1]);
                        assert(self.keys().take(i as int).contains(old_out[j - 1]));
                        let j2 = choose|j2: int|
                            0 <= j2 < i && self.keys().take(i as int)[j2] == old_out[j - 1];
                        assert(taken[j2] == out@[j]);
                    }
                }
            }
            i = i + 1;
        }
        proof {
            assert(self.keys().take(n as int) =~= self.keys());
            assert forall|j: int| 0 <= j < out@.len() implies self.keys().contains(
                #[trigger] out@[j],
            ) by {
                assert(self.keys().take(n as int).contains(out@[j]));
            }
        }
        self.sorted_versions = out;
    }

    /// The metadata recorded for `version`, if the catalog knows it.
    pub fn get(&self, version: &SimpleVersion) -> (r: Option<&VersionMetadata>)
        ensures
            match r {
                Some(m) => alookup(self.meta_pairs(), *version) == Some(m@) && m@.version
                    == *version,
                None => alookup(self.meta_pairs(), *version) is None,
            },
    {
        let n = self.versions.len();
        let mut i: usize = 0;
        while i < n
            invariant
                0 <= i <= n,
                n == self.versions@.len(),
                forall|j: int| 0 <= j < i ==> self.meta_pairs()[j].0 != *version,
            decreases n - i,
        {
            if self.versions[i].version == *version {
                proof {
                    lemma_alookup_found(self.meta_pairs(), *version, i as int);
                }
                return Some(&self.versions[i]);
            }
            i = i + 1;
        }
        proof {
            lemma_alookup_none_iff(self.meta_pairs(), *version);
        }
        None
    }

    /// The major version a codename maps to, if any.
    fn lts_lookup(&self, name: &str) -> (r: Option<u16>)
        ensures
            r == alookup(self.lts_pairs(), name@),
    {
        let n = self.lts_versions.len();
        let mut i: usize = 0;
        while i < n
            invariant
                0 <= i <= n,
                n == self.lts_versions@.len(),
                forall|j: int| 0 <= j < i ==> self.lts_pairs()[j].0 != name@,
            decreases n - i,
        {
            if str_eq(self.lts_versions[i].0.as_str(), name) {
                proof {
                    lemma_alookup_found(self.lts_pairs(), name@, i as int);
                }
                return Some(self.lts_versions[i].1);
            }
            i = i + 1;
        }
        proof {
            lemma_alookup_none_iff(self.lts_pairs(), name@);
        }
        None
    }

    /// Whether some codename maps to `major`.
    fn has_lts_major(&self, major: u16) -> (r: bool)
        ensures
            r == self.is_lts_major(major),
    {
        let n = self.lts_versions.len();
        let mut i: usize = 0;
        while i < n
            invariant
                0 <= i <= n,
                n == self.lts_versions@.len(),
                forall|j: int| 0 <= j < i ==> self.lts_pairs()[j].1 != major,
            decreases n - i,
        {
            if self.lts_versions[i].1 == major {
                proof {
                    assert(self.lts_pairs()[i as int].1 == major);
                }
                return true;
            }
            i = i + 1;
        }
        false
    }

    /// The newest version the catalog knows. The catalog must not be
    /// empty.
    pub fn latest(&self) -> (r: &VersionMetadata)
        requires
            self.wf(),
            self.sorted().len() > 0,
        ensures
            alookup(self.meta_pairs(), r@.version) == Some(r@),
            r@.version == self.sorted().last(),
            forall|k: SimpleVersion| self.keys().contains(k) ==> ver_le(k, r@.version),
    {
        let key = self.sorted_versions[self.sorted_versions.len() - 1];
        proof {
            assert(self.keys().contains(self.sorted()[self.sorted().len() - 1]));
            self.lemma_key_has_meta(key);
            assert forall|k: SimpleVersion| self.keys().contains(k) implies ver_le(k, key) by {
                let j = choose|j: int| 0 <= j < self.keys().len() && self.keys()[j] == k;
                assert(self.sorted().contains(self.keys()[j]));
                let j2 = choose|j2: int| 0 <= j2 < self.sorted().len() && self.sorted()[j2] == k;
                if j2 < self.sorted().len() - 1 {
                    assert(ver_lt(self.sorted()[j2], self.sorted().last()));
                }
            }
        }
        match self.get(&key) {
            Some(m) => m,
            None => unreached(),
        }
    }

    /// Every key of the metadata map has a metadata entry.
    proof fn lemma_key_has_meta(&self, key: SimpleVersion)
        requires
            self.keys().contains(key),
        ensures
            alookup(self.meta_pairs(), key) is Some,
    {
        let j = choose|j: int| 0 <= j < self.keys().len() && self.keys()[j] == key;
        assert(self.meta_pairs()[j].0 == key);
        lemma_alookup_none_iff(self.meta_pairs(), key);
    }

    /// The newest version with the given major, if the catalog has one.
    pub fn get_latest_for_major(&self, major: u16) -> (r: Option<&VersionMetadata>)
        requires
            self.wf(),
        ensures
            match r {
                Some(m) => {
                    &&& alookup(self.meta_pairs(), m@.version) == Some(m@)
                    &&& self.keys().contains(m@.version)
                    &&& m@.version.major == major
                    &&& forall|k: SimpleVersion|
                        self.keys().contains(k) && k.major == major ==> ver_le(k, m@.version)
                },
                None => forall|k: SimpleVersion| self.keys().contains(k) ==> k.major != major,
            },
    {
        let mut i: usize = self.sorted_versions.len();
        while i > 0
            invariant
                self.wf(),
                0 <= i <= self.sorted().len(),
                forall|j: int| i <= j < self.sorted().len() ==> self.sorted()[j].major != major,
            decreases i,
        {
            let key = self.sorted_versions[i - 1];
            if key.major == major {
                proof {
                    assert(self.keys().contains(self.sorted()[i - 1]));
                    self.lemma_key_has_meta(key);
                    assert forall|k: SimpleVersion|
                        self.keys().contains(k) && k.major == major implies ver_le(k, key) by {
                        let j = choose|j: int| 0 <= j < self.keys().len() && self.keys()[j] == k;
                        assert(self.sorted().contains(self.keys()[j]));
                        let j2 = choose|j2: int|
                            0 <= j2 < self.sorted().len() && self.sorted()[j2] == k;
                        if j2 > i - 1 {
                            assert(self.sorted()[j2].major != major);
                        } else if j2 < i - 1 {
                            assert(ver_lt(self.sorted()[j2], self.sorted()[i - 1]));
                        }
                    }
                }
                return match self.get(&key) {
                    Some(m) => Some(m),
                    None => unreached(),
                };
            }
            i = i - 1;
        }
        proof {
            assert forall|k: SimpleVersion| self.keys().contains(k) implies k.major != major by {
                let j = choose|j: int| 0 <= j < self.keys().len() && self.keys()[j] == k;
                assert(self.sorted().contains(self.keys()[j]));
                let j2 = choose|j2: int| 0 <= j2 < self.sorted().len() && self.sorted()[j2] == k;
                assert(self.sorted()[j2].major != major);
            }
        }
        None
    }

    /// The newest release of the LTS line called `lts_name`, if the
    /// codename is known and a release of its line is known.
    pub fn get_lts(&self, lts_name: &str) -> (r: Option<&VersionMetadata>)
        requires
            self.wf(),
        ensures
            match r {
                Some(m) => {
                    &&& alookup(self.lts_pairs(), lts_name@) == Some(m@.version.major)
                    &&& alookup(self.meta_pairs(), m@.version) == Some(m@)
                    &&& self.keys().contains(m@.version)
                    &&& forall|k: SimpleVersion|
                        self.keys().contains(k) && k.major == m@.version.major ==> ver_le(
                            k,
                            m@.version,
                        )
                },
                None => {
                    ||| alookup(self.lts_pairs(), lts_name@) is None
                    ||| (alookup(self.lts_pairs(), lts_name@) matches Some(major) && forall|
                        k: SimpleVersion,
                    |
                        self.keys().contains(k) ==> k.major != major)
                },
            },
    {
        match self.lts_lookup(lts_name) {
            Some(major) => self.get_latest_for_major(major),
            None => None,
        }
    }

    /// The newest LTS release the catalog knows. Some known version
    /// must belong to an LTS line.
    pub fn latest_lts(&self) -> (r: &VersionMetadata)
        requires
            self.wf(),
            exists|k: SimpleVersion| self.keys().contains(k) && self.is_lts_major(k.major),
        ensures
            alookup(self.meta_pairs(), r@.version) == Some(r@),
            self.keys().contains(r@.version),
            self.is_lts_major(r@.version.major),
            forall|k: SimpleVersion|
                self.keys().contains(k) && self.is_lts_major(k.major) ==> ver_le(k, r@.version),
    {
        let mut i: usize = self.sorted_versions.len();
        while i > 0
            invariant
                self.wf(),
                0 <= i <= self.sorted().len(),
                forall|j: int|
                    i <= j < self.sorted().len() ==> !self.is_lts_major(self.sorted()[j].major),
            decreases i,
        {
            let key = self.sorted_versions[i - 1];
            if self.has_lts_major(key.major) {
                proof {
                    assert(self.keys().contains(self.sorted()[i - 1]));
                    self.lemma_key_has_meta(key);
                    assert forall|k: SimpleVersion|
                        self.keys().contains(k) && self.is_lts_major(k.major) implies ver_le(
                        k,
                        key,
                    ) by {
                        let j = choose|j: int| 0 <= j < self.keys().len() && self.keys()[j] == k;
                        assert(self.sorted().contains(self.keys()[j]));
                        let j2 = choose|j2: int|
                            0 <= j2 < self.sorted().len() && self.sorted()[j2] == k;
                        if j2 > i - 1 {
                            assert(!self.is_lts_major(self.sorted()[j2].major));
                        } else if j2 < i - 1 {
                            assert(ver_lt(self.sorted()[j2], self.sorted()[i - 1]));
                        }
                    }
                }
                return match self.get(&key) {
                    Some(m) => m,
                    None => unreached(),
                };
            }
            i = i - 1;
        }
        proof {
            let k = choose|k: SimpleVersion|
                self.keys().contains(k) && self.is_lts_major(k.major);
            let j = choose|j: int| 0 <= j < self.keys().len() && self.keys()[j] == k;
            assert(self.sorted().contains(self.keys()[j]));
            let j2 = choose|j2: int| 0 <= j2 < self.sorted().len() && self.sorted()[j2] == k;
            assert(!self.is_lts_major(self.sorted()[j2].major));
            assert(false);
        }
        unreached()
    }

    /// The newest version satisfying the range string, if any does.
    pub fn get_fulfilling(&self, req: &str) -> (r: Option<&VersionMetadata>)
        requires
            self.wf(),
        ensures
            match r {
                Some(m) => {
                    &&& alookup(self.meta_pairs(), m@.version) == Some(m@)
                    &&& self.keys().contains(m@.version)
                    &&& req_matches(
                        req@,
                        m@.version.major as int,
                        m@.version.minor as int,
                        m@.version.patch as int,
                    )
                    &&& forall|k: SimpleVersion|
                        self.keys().contains(k) && req_matches(
                            req@,
                            k.major as int,
                            k.minor as int,
                            k.patch as int,
                        ) ==> ver_le(k, m@.version)
                },
                None => forall|k: SimpleVersion|
                    self.keys().contains(k) ==> !req_matches(
                        req@,
                        k.major as int,
                        k.minor as int,
                        k.patch as int,
                    ),
            },
    {
        let mut i: usize = self.sorted_versions.len();
        while i > 0
            invariant
                self.wf(),
                0 <= i <= self.sorted().len(),
                forall|j: int|
                    i <= j < self.sorted().len() ==> !req_matches(
                        req@,
                        self.sorted()[j].major as int,
                        self.sorted()[j].minor as int,
                        self.sorted()[j].patch as int,
                    ),
            decreases i,
        {
            let key = self.sorted_versions[i - 1];
            if req_matches_exec(req, key.major, key.minor, key.patch) {
                proof {
                    assert(self.keys().contains(self.sorted()[i - 1]));
                    self.lemma_key_has_meta(key);
                    assert forall|k: SimpleVersion|
                        self.keys().contains(k) && req_matches(
                            req@,
                            k.major as int,
                            k.minor as int,
                            k.patch as int,
                        ) implies ver_le(k, key) by {
                        let j = choose|j: int| 0 <= j < self.keys().len() && self.keys()[j] == k;
                        assert(self.sorted().contains(self.keys()[j]));
                        let j2 = choose|j2: int|
                            0 <= j2 < self.sorted().len() && self.sorted()[j2] == k;
                        if j2 > i - 1 {
                            assert(!req_matches(
                                req@,
                                self.sorted()[j2].major as int,
                                self.sorted()[j2].minor as int,
                                self.sorted()[j2].patch as int,
                            ));
                        } else if j2 < i - 1 {
                            assert(ver_lt(self.sorted()[j2], self.sorted()[i - 1]));
                        }
                    }
                }
                return match self.get(&key) {
                    Some(m) => Some(m),
                    None => unreached(),
                };
            }
            i = i - 1;
        }
        proof {
            assert forall|k: SimpleVersion| self.keys().contains(k) implies !req_matches(
                req@,
                k.major as int,
                k.minor as int,
                k.patch as int,
            ) by {
                let j = choose|j: int| 0 <= j < self.keys().len() && self.keys()[j] == k;
                assert(self.sorted().contains(self.keys()[j]));
                let j2 = choose|j2: int| 0 <= j2 < self.sorted().len() && self.sorted()[j2] == k;
                assert(!req_matches(
                    req@,
                    self.sorted()[j2].major as int,
                    self.sorted()[j2].minor as int,
                    self.sorted()[j2].patch as int,
                ));
            }
        }
        None
    }
}

/// Inserts metadata into the version-keyed map, replacing any entry of
/// the same version.
fn upsert_meta(v: &mut Vec<VersionMetadata>, meta: VersionMetadata)
    requires
        unique_keys(meta_pairs_of(old(v)@)),
    ensures
        unique_keys(meta_pairs_of(final(v)@)),
        forall|k: SimpleVersion|
            #[trigger] alookup(meta_pairs_of(final(v)@), k) == (if k == meta.version {
                Some(meta@)
            } else {
                alookup(meta_pairs_of(old(v)@), k)
            }),
{
    let ghost old_pairs = meta_pairs_of(v@);
    let ghost key = meta.version;
    let ghost mview = meta@;
    let n = v.len();
    let mut i: usize = 0;
    while i < n
        invariant
            0 <= i <= n,
            n == v@.len(),
            meta_pairs_of(v@) == old_pairs,
            meta_pairs_of(old(v)@) == old_pairs,
            unique_keys(old_pairs),
            key == meta.version,
            mview == meta@,
            forall|j: int| 0 <= j < i ==> old_pairs[j].0 != key,
        decreases n - i,
    {
        if v[i].version == meta.version {
            v[i] = meta;
            proof {
                let new_pairs = meta_pairs_of(v@);
                assert(new_pairs =~= old_pairs.update(i as int, (key, mview)));
                assert(old_pairs[i as int].0 == key);
                assert forall|a: int, b: int|
                    0 <= a < b < new_pairs.len() implies new_pairs[a].0 != new_pairs[b].0 by {
                    if a != i && b != i {
                        assert(new_pairs[a] == old_pairs[a]);
                        assert(new_pairs[b] == old_pairs[b]);
                    }
                }
                lemma_alookup_found(new_pairs, key, i as int);
                assert forall|k: SimpleVersion| k != key implies alookup(new_pairs, k) == alookup(
                    old_pairs,
                    k,
                ) by {
                    lemma_alookup_update_other(old_pairs, i as int, (key, mview), k);
                }
            }
            return;
        }
        i = i + 1;
    }
    v.push(meta);
    proof {
        let new_pairs = meta_pairs_of(v@);
        assert(new_pairs =~= old_pairs.push((key, mview)));
        lemma_alookup_found(new_pairs, key, old_pairs.len() as int);
        assert forall|k: SimpleVersion| k != key implies alookup(new_pairs, k) == alookup(
            old_pairs,
            k,
        ) by {
            lemma_alookup_push_other(old_pairs, (key, mview), k);
        }
    }
}

/// Inserts a codename into the codename-keyed map, replacing any entry
/// of the same (already folded) name.
fn upsert_lts(v: &mut Vec<(String, u16)>, name: String, major: u16)
    requires
        unique_keys(lts_pairs_of(old(v)@)),
    ensures
        unique_keys(lts_pairs_of(final(v)@)),
        forall|k: Seq<char>|
            #[trigger] alookup(lts_pairs_of(final(v)@), k) == (if k == name@ {
                Some(major)
            } else {
                alookup(lts_pairs_of(old(v)@), k)
            }),
{
    let ghost old_pairs = lts_pairs_of(v@);
    let ghost key = name@;
    let n = v.len();
    let mut i: usize = 0;
    while i < n
        invariant
            0 <= i <= n,
            n == v@.len(),
            lts_pairs_of(v@) == old_pairs,
            lts_pairs_of(old(v)@) == old_pairs,
            unique_keys(old_pairs),
            key == name@,
            forall|j: int| 0 <= j < i ==> old_pairs[j].0 != key,
        decreases n - i,
    {
        if str_eq(v[i].0.as_str(), name.as_str()) {
            v[i] = (name, major);
            proof {
                let new_pairs = lts_pairs_of(v@);
                assert(new_pairs =~= old_pairs.update(i as int, (key, major)));
                assert(old_pairs[i as int].0 == key);
                assert forall|a: int, b: int|
                    0 <= a < b < new_pairs.len() implies new_pairs[a].0 != new_pairs[b].0 by {
                    if a != i && b != i {
                        assert(new_pairs[a] == old_pairs[a]);
                        assert(new_pairs[b] == old_pairs[b]);
                    }
                }
                lemma_alookup_found(new_pairs, key, i as int);
                assert forall|k: Seq<char>| k != key implies alookup(new_pairs, k) == alookup(
                    old_pairs,
                    k,
                ) by {
                    lemma_alookup_update_other(old_pairs, i as int, (key, major), k);
                }
            }
            return;
        }
        i = i + 1;
    }
    v.push((name, major));
    proof {
        let new_pairs = lts_pairs_of(v@);
        assert(new_pairs =~= old_pairs.push((key, major)));
        lemma_alookup_found(new_pairs, key, old_pairs.len() as int);
        assert forall|k: Seq<char>| k != key implies alookup(new_pairs, k) == alookup(
            old_pairs,
            k,
        ) by {
            lemma_alookup_push_other(old_pairs, (key, major), k);
        }
    }
}

} // verus!
