//! The process-wide configuration value and the deferred-write access
//! protocol around it: reads flush pending changes, mutations only set
//! a dirty bit.

use vstd::prelude::*;

use crate::assoc::{
    alookup, lemma_alookup_found, lemma_alookup_none_iff, lemma_alookup_push_other,
    lemma_alookup_update_other, unique_keys,
};
use crate::node_version::{NodeVersion, NodeVersionView};
use crate::strutil::{seq_views, str_eq};

verus! {

/// The release server every fresh configuration points at.
pub const NODE_DIST_URL: &'static str = "https://nodejs.org/dist";

/// Node execution configuration.
#[derive(Debug)]
pub struct NodeConfig {
    /// The selector used when no pin file, manifest or environment
    /// variable names one.
    pub default_version: NodeVersion,
}

/// How node toolchains are downloaded.
#[derive(Debug)]
pub struct DownloadConfig {
    pub dist_base_url: String,
}

/// A command pinned to a fixed selector, whatever version is active.
#[derive(Debug)]
pub struct ExecutableConfig {
    pub node_version: NodeVersion,
}

/// The whole configuration.
#[derive(Debug)]
pub struct Config {
    pub node: NodeConfig,
    pub download: DownloadConfig,
    /// Commands hardwired to a selector, by command name.
    pub bins: Vec<(String, ExecutableConfig)>,
}

/// The pinned-command pairs a raw vector denotes.
pub open spec fn bins_view(v: Seq<(String, ExecutableConfig)>) -> Seq<(Seq<char>, NodeVersionView)> {
    v.map_values(|p: (String, ExecutableConfig)| (p.0@, p.1.node_version@))
}

/// The mathematical value of a [`Config`].
pub struct ConfigView {
    pub default_version: NodeVersionView,
    pub dist_base_url: Seq<char>,
    pub bins: Seq<(Seq<char>, NodeVersionView)>,
}

impl View for Config {
    type V = ConfigView;

    open spec fn view(&self) -> ConfigView {
        ConfigView {
            default_version: self.node.default_version@,
            dist_base_url: self.download.dist_base_url@,
            bins: bins_view(self.bins@),
        }
    }
}

impl Default for NodeConfig {
    /// The newest LTS release is the default selector.
    fn default() -> (r: NodeConfig)
        ensures
            r.default_version@ is LatestLts,
    {
        NodeConfig { default_version: NodeVersion::LatestLts }
    }
}

impl Default for DownloadConfig {
    /// Downloads come from the canonical release server.
    fn default() -> (r: DownloadConfig)
        ensures
            r.dist_base_url@ == NODE_DIST_URL@,
    {
        DownloadConfig { dist_base_url: NODE_DIST_URL.to_owned() }
    }
}

impl Default for Config {
    fn default() -> (r: Config)
        ensures
            r@.default_version is LatestLts,
            r@.dist_base_url == NODE_DIST_URL@,
            r@.bins.len() == 0,
    {
        Config {
            node: NodeConfig::default(),
            download: DownloadConfig::default(),
            bins: Vec::new(),
        }
    }
}

impl Config {
    /// A copy whose mathematical value equals this one's.
    pub fn duplicate(&self) -> (r: Config)
        ensures
            r@ == self@,
    {
        let mut bins: Vec<(String, ExecutableConfig)> = Vec::new();
        let n = self.bins.len();
        let mut i: usize = 0;
        while i < n
            invariant
                0 <= i <= n,
                n == self.bins@.len(),
                bins@.len() == i,
                bins_view(bins@) == self@.bins.take(i as int),
            decreases n - i,
        {
            let ghost old_bins = bins@;
            let p = &self.bins[i];
            let name = p.0.clone();
            let pinned = ExecutableConfig { node_version: p.1.node_version.duplicate() };
            proof {
                assert((name@, pinned.node_version@) == self@.bins[i as int]);
            }
            bins.push((name, pinned));
            proof {
                assert forall|j: int|
                    0 <= j < bins@.len() implies bins_view(bins@)[j] == self@.bins.take(i + 1)[j]
                by {
                    if j < i {
                        assert(bins@[j] == old_bins[j]);
                        assert(bins_view(old_bins)[j] == self@.bins.take(i as int)[j]);
                    } else {
                        assert(bins@[j] == (name, pinned));
                    }
                }
                assert(bins_view(bins@) =~= self@.bins.take(i + 1));
            }
            i = i + 1;
        }
        proof {
            assert(self@.bins.take(n as int) =~= self@.bins);
        }
        let r = Config {
            node: NodeConfig { default_version: self.node.default_version.duplicate() },
            download: DownloadConfig { dist_base_url: self.download.dist_base_url.clone() },
            bins,
        };
        proof {
            assert(r@ == self@);
        }
        r
    }
}

/// What unpinning yields: every pin of that command goes, the others
/// keep their order.
pub open spec fn bins_remove(s: Seq<(Seq<char>, NodeVersionView)>, name: Seq<char>) -> Seq<
    (Seq<char>, NodeVersionView),
>
    decreases s.len(),
{
    if s.len() == 0 {
        s
    } else {
        let rest = bins_remove(s.drop_last(), name);
        if s.last().0 == name {
            rest
        } else {
            rest.push(s.last())
        }
    }
}

impl Config {
    /// The pinned commands have pairwise distinct names.
    pub open spec fn bins_wf(self) -> bool {
        unique_keys(self@.bins)
    }

    /// Pins a command to a selector; pinning a command again replaces
    /// its selector.
    pub fn pin_command(&mut self, name: String, version: NodeVersion)
        requires
            old(self).bins_wf(),
        ensures
            final(self).bins_wf(),
            final(self)@.default_version == old(self)@.default_version,
            final(self)@.dist_base_url == old(self)@.dist_base_url,
            forall|k: Seq<char>|
                #[trigger] alookup(final(self)@.bins, k) == (if k == name@ {
                    Some(version@)
                } else {
                    alookup(old(self)@.bins, k)
                }),
    {
        let ghost old_pairs = self@.bins;
        let ghost key = name@;
        let ghost vv = version@;
        let n = self.bins.len();
        let mut i: usize = 0;
        while i < n
            invariant
                0 <= i <= n,
                n == self.bins@.len(),
                self@.bins == old_pairs,
                self@.bins == old(self)@.bins,
                self == old(self),
                unique_keys(old_pairs),
                key == name@,
                vv == version@,
                forall|j: int| 0 <= j < i ==> old_pairs[j].0 != key,
            decreases n - i,
        {
            if str_eq(self.bins[i].0.as_str(), name.as_str()) {
                self.bins[i] = (name, ExecutableConfig { node_version: version });
                proof {
                    let new_pairs = self@.bins;
                    assert(new_pairs =~= old_pairs.update(i as int, (key, vv)));
                    assert(old_pairs[i as int].0 == key);
                    assert forall|a: int, b: int|
                        0 <= a < b < new_pairs.len() implies new_pairs[a].0 != new_pairs[b].0 by {
                        if a != i && b != i {
                            assert(new_pairs[a] == old_pairs[a]);
                            assert(new_pairs[b] == old_pairs[b]);
                        }
                    }
                    lemma_alookup_found(new_pairs, key, i as int);
                    assert forall|k: Seq<char>| k != key implies alookup(new_pairs, k) == alookup(
                        old_pairs,
                        k,
                    ) by {
                        lemma_alookup_update_other(old_pairs, i as int, (key, vv), k);
                    }
                }
                return;
            }
            i = i + 1;
        }
        self.bins.push((name, ExecutableConfig { node_version: version }));
        proof {
            let new_pairs = self@.bins;
            assert(new_pairs =~= old_pairs.push((key, vv)));
            lemma_alookup_found(new_pairs, key, old_pairs.len() as int);
            assert forall|k: Seq<char>| k != key implies alookup(new_pairs, k) == alookup(
                old_pairs,
                k,
            ) by {
                lemma_alookup_push_other(old_pairs, (key, vv), k);
            }
        }
    }

    /// Unpins a command; an unpinned name is simply absent afterwards.
    pub fn unpin_command(&mut self, name: &str)
        requires
            old(self).bins_wf(),
        ensures
            final(self).bins_wf(),
            final(self)@.default_version == old(self)@.default_version,
            final(self)@.dist_base_url == old(self)@.dist_base_url,
            final(self)@.bins == bins_remove(old(self)@.bins, name@),
            alookup(final(self)@.bins, name@) is None,
    {
        let ghost s = self@.bins;
        let mut kept: Vec<(String, ExecutableConfig)> = Vec::new();
        let n = self.bins.len();
        let mut i: usize = 0;
        while i < n
            invariant
                0 <= i <= n,
                n == self.bins@.len(),
                self@.bins == s,
                self == old(self),
                unique_keys(s),
                bins_view(kept@) == bins_remove(s.take(i as int), name@),
            decreases n - i,
        {
            proof {
                assert(s.take(i + 1).drop_last() =~= s.take(i as int));
                assert(s.take(i + 1).last() == s[i as int]);
            }
            let ghost old_kept = kept@;
            if !str_eq(self.bins[i].0.as_str(), name) {
                let p = &self.bins[i];
                kept.push(
                    (p.0.clone(), ExecutableConfig { node_version: p.1.node_version.duplicate() }),
                );
                proof {
                    assert(bins_view(kept@) =~= bins_view(old_kept).push(s[i as int]));
                }
            }
            i = i + 1;
        }
        proof {
            assert(s.take(n as int) =~= s);
        }
        self.bins = kept;
        proof {
            lemma_bins_remove_clean(s, name@);
            lemma_alookup_none_iff(self@.bins, name@);
        }
    }

    /// The pinned command names, in storage order: the set the shim
    /// reconciliation must spare.
    pub fn pinned_names(&self) -> (r: Vec<String>)
        ensures
            seq_views(r@) == bins_names(self@.bins),
    {
        let mut r: Vec<String> = Vec::new();
        let n = self.bins.len();
        let mut i: usize = 0;
        while i < n
            invariant
                0 <= i <= n,
                n == self.bins@.len(),
                r@.len() == i,
                seq_views(r@) == bins_names(self@.bins).take(i as int),
            decreases n - i,
        {
            let ghost pre = r@;
            r.push(self.bins[i].0.clone());
            proof {
                assert forall|j: int|
                    0 <= j < i + 1 implies seq_views(r@)[j] == bins_names(self@.bins).take(
                    i + 1,
                )[j] by {
                    if j < i {
                        assert(r@[j] == pre[j]);
                        assert(seq_views(pre)[j] == bins_names(self@.bins).take(i as int)[j]);
                    } else {
                        assert(r@[j] == r@.last());
                    }
                }
                assert(seq_views(r@) =~= bins_names(self@.bins).take(i + 1));
            }
            i = i + 1;
        }
        proof {
            assert(bins_names(self@.bins).take(n as int) =~= bins_names(self@.bins));
        }
        r
    }
}

/// The names of a pinned-command map, in order.
pub open spec fn bins_names(s: Seq<(Seq<char>, NodeVersionView)>) -> Seq<Seq<char>> {
    s.map_values(|p: (Seq<char>, NodeVersionView)| p.0)
}

/// Unpinning removes every pin of the name, keeps the others'
/// lookups, and keeps the names pairwise distinct.
proof fn lemma_bins_remove_clean(s: Seq<(Seq<char>, NodeVersionView)>, name: Seq<char>)
    requires
        unique_keys(s),
    ensures
        unique_keys(bins_remove(s, name)),
        forall|j: int|
            0 <= j < bins_remove(s, name).len() ==> (#[trigger] bins_remove(s, name)[j]).0
                != name,
    decreases s.len(),
{
    if s.len() > 0 {
        let prefix = s.drop_last();
        assert forall|a: int, b: int|
            0 <= a < b < prefix.len() implies prefix[a].0 != prefix[b].0 by {
            assert(prefix[a] == s[a]);
            assert(prefix[b] == s[b]);
        }
        lemma_bins_remove_clean(prefix, name);
        let rest = bins_remove(prefix, name);
        if s.last().0 == name {
        } else {
            let r = rest.push(s.last());
            assert forall|j: int| 0 <= j < r.len() implies (#[trigger] r[j]).0 != name by {
                if j < rest.len() {
                    assert(r[j] == rest[j]);
                }
            }
            assert forall|a: int, b: int| 0 <= a < b < r.len() implies r[a].0 != r[b].0 by {
                if b < rest.len() {
                    assert(r[a] == rest[a] && r[b] == rest[b]);
                } else {
                    assert(r[b] == s[s.len() - 1]);
                    lemma_bins_remove_member(prefix, name, a);
                    if rest[a].0 == s[s.len() - 1].0 {
                        let k = choose|k: int| 0 <= k < prefix.len() && prefix[k] == rest[a];
                        assert(s[k].0 == s[s.len() - 1].0);
                        assert(false);
                    }
                }
            }
        }
    }
}

/// Every surviving pin was there before.
proof fn lemma_bins_remove_member(s: Seq<(Seq<char>, NodeVersionView)>, name: Seq<char>, j: int)
    requires
        0 <= j < bins_remove(s, name).len(),
    ensures
        s.contains(bins_remove(s, name)[j]),
    decreases s.len(),
{
    if s.len() > 0 {
        let prefix = s.drop_last();
        let rest = bins_remove(prefix, name);
        if s.last().0 == name {
            lemma_bins_remove_member(prefix, name, j);
            let k = choose|k: int| 0 <= k < prefix.len() && prefix[k] == rest[j];
            assert(s[k] == bins_remove(s, name)[j]);
        } else {
            if j < rest.len() {
                lemma_bins_remove_member(prefix, name, j);
                let k = choose|k: int| 0 <= k < prefix.len() && prefix[k] == rest[j];
                assert(s[k] == bins_remove(s, name)[j]);
            } else {
                assert(bins_remove(s, name)[j] == s[s.len() - 1]);
            }
        }
    }
}

/// The access protocol's state: the configuration value and whether a
/// mutation is waiting to be written to disk.
pub struct ConfigAccess {
    pub config: Config,
    pub dirty: bool,
}

/// The mathematical value of a [`ConfigAccess`].
pub struct ConfigAccessView {
    pub config: ConfigView,
    pub dirty: bool,
}

impl View for ConfigAccess {
    type V = ConfigAccessView;

    open spec fn view(&self) -> ConfigAccessView {
        ConfigAccessView { config: self.config@, dirty: self.dirty }
    }
}

/// What a read does to the state: the dirty bit is cleared, and the
/// read demands a disk write exactly when it was set.
pub open spec fn spec_get(s: ConfigAccessView) -> (ConfigAccessView, ConfigView, bool) {
    (ConfigAccessView { config: s.config, dirty: false }, s.config, s.dirty)
}

/// What releasing a mutable view does to the state: the new value is
/// stored and the dirty bit is set; nothing is written yet.
pub open spec fn spec_set(s: ConfigAccessView, c: ConfigView) -> ConfigAccessView {
    ConfigAccessView { config: c, dirty: true }
}

impl ConfigAccess {
    /// Wraps a freshly loaded configuration; nothing is pending.
    pub fn new(config: Config) -> (r: ConfigAccess)
        ensures
            r@.config == config@,
            r@.dirty == false,
    {
        ConfigAccess { config, dirty: false }
    }

    /// A read view of the configuration. The second component demands
    /// that the caller flush the returned value to disk now: it is set
    /// exactly when mutations were pending, so any number of prior
    /// mutations are batched into one write.
    pub fn get(&mut self) -> (r: (Config, bool))
        ensures
            (final(self)@, r.0@, r.1) == spec_get(old(self)@),
    {
        let flush = self.dirty;
        self.dirty = false;
        (self.config.duplicate(), flush)
    }

    /// Replaces the value, as mutating through a write view and
    /// releasing it does: the first component is the value the caller
    /// must flush first (demanded exactly when mutations were already
    /// pending), and the dirty bit is left set for the new value.
    pub fn set(&mut self, config: Config) -> (r: (Config, bool))
        ensures
            r.0@ == old(self)@.config,
            r.1 == old(self)@.dirty,
            final(self)@ == spec_set(old(self)@, config@),
    {
        let flush = self.dirty;
        let previous = self.config.duplicate();
        self.config = config;
        self.dirty = true;
        (previous, flush)
    }

    /// The value to write at shutdown, flushed unconditionally; the
    /// dirty bit is untouched, as an explicit persist does not stand
    /// in for a read.
    pub fn persist(&self) -> (r: Config)
        ensures
            r@ == self@.config,
    {
        self.config.duplicate()
    }
}

/// After a mutation is released, the next read returns the mutated
/// value and demands exactly one disk write; a further read with no
/// intervening mutation returns the same value and demands none.
pub proof fn lemma_config_flush_batched(s: ConfigAccessView, c: ConfigView)
    ensures
        spec_get(spec_set(s, c)).1 == c,
        spec_get(spec_set(s, c)).2 == true,
        spec_get(spec_get(spec_set(s, c)).0).1 == c,
        spec_get(spec_get(spec_set(s, c)).0).2 == false,
{
}

} // verus!
