//! Restoring a saved configuration onto the machine as it is right now.
//!
//! Adapter LUIDs are not stable: Windows hands out new ones on every boot and
//! on driver updates, so a profile saved yesterday refers to adapters that no
//! longer exist by that name. Everything else in a saved path (the source id,
//! the target id, the monitor's device path) is stable, so each strategy
//! below reconstructs the LUIDs from a different stable anchor.
//!
//! Candidates are checked with `SDC_VALIDATE` before anything is applied, so
//! a rejected strategy costs no screen flicker, and remapping goes through an
//! explicit old-to-new map in a single pass, so one rewrite never chains into
//! another.

use vstd::prelude::*;

use crate::error::Error;
use crate::model::{
    adapter_ids_of, assoc_map, keys_distinct, lemma_assoc_map, lemma_assoc_map_finite,
    lookup, lookup_fn, mode_is_target, monitor_views, relabel, ConfigModel, DisplayConfig,
    Luid, LuidMap, ModeInfo, MonitorInfo, MonitorModel, PathInfo,
};
use crate::text::{is_blank, str_eq, str_is_blank};

verus! {

/// How a candidate configuration was reconstructed from the saved one.
#[derive(Debug, Clone, Copy, PartialEq, Eq, Structural)]
pub enum Strategy {
    /// Exactly as saved. Correct when nothing has changed since the save,
    /// which is the common case within a single boot.
    Verbatim,
    /// Adopt current adapter LUIDs by matching paths on (source id, target id).
    PathIds,
    /// Match monitors by their device path, which encodes the EDID and is the
    /// most stable identifier available.
    DevicePath,
    /// Match monitors by the name the user sees. Less reliable than device
    /// path when two identical monitors are attached.
    FriendlyName,
    /// Collapse everything onto the single adapter present. Only meaningful
    /// on a one-GPU machine, which is most of them.
    SingleAdapter,
}

pub open spec fn strategy_description(s: Strategy) -> Seq<char> {
    match s {
        Strategy::Verbatim => "as saved"@,
        Strategy::PathIds => "matched by path ids"@,
        Strategy::DevicePath => "matched by monitor device path"@,
        Strategy::FriendlyName => "matched by monitor name"@,
        Strategy::SingleAdapter => "collapsed onto the single adapter"@,
    }
}

impl Strategy {
    pub fn describe(self) -> (s: &'static str)
        ensures
            s@ == strategy_description(self),
    {
        match self {
            Strategy::Verbatim => "as saved",
            Strategy::PathIds => "matched by path ids",
            Strategy::DevicePath => "matched by monitor device path",
            Strategy::FriendlyName => "matched by monitor name",
            Strategy::SingleAdapter => "collapsed onto the single adapter",
        }
    }
}

/// What a successful apply actually did.
#[derive(Debug, Clone, Copy, PartialEq, Eq, Structural)]
pub struct ApplyOutcome {
    pub strategy: Strategy,
    /// True when the configuration only went through with `SDC_ALLOW_CHANGES`,
    /// meaning Windows was permitted to adjust modes to make it fit. The result
    /// may differ from what was saved.
    pub lenient: bool,
}

/// One candidate configuration, and how it was derived.
#[derive(Debug)]
pub struct Candidate {
    pub strategy: Strategy,
    pub config: DisplayConfig,
}

/// Which monitor identity a strategy matches on.
#[derive(Debug, Clone, Copy, PartialEq, Eq, Structural)]
pub enum IdentityKey {
    DevicePath,
    FriendlyName,
}

// ---------------------------------------------------------------------------
// Specifications
// ---------------------------------------------------------------------------

/// `m` with `k -> v` added unless `k` is already mapped.
pub open spec fn or_insert<K, V>(m: Map<K, V>, k: K, v: V) -> Map<K, V> {
    if m.contains_key(k) {
        m
    } else {
        m.insert(k, v)
    }
}

/// Index of the first path with this (source id, target id) pair.
pub open spec fn find_path(paths: Seq<PathInfo>, source_id: u32, target_id: u32) -> Option<int>
    decreases paths.len(),
{
    if paths.len() == 0 {
        None
    } else {
        match find_path(paths.drop_last(), source_id, target_id) {
            Some(i) => Some(i),
            None => if paths.last().source.id == source_id && paths.last().target.id == target_id {
                Some(paths.len() - 1)
            } else {
                None
            },
        }
    }
}

/// The adapter renaming path-id matching builds: for each saved path, in
/// order, the first current path with the same (source id, target id)
/// supplies the new LUIDs of its two ends, unless an earlier path already
/// named them.
pub open spec fn path_id_map(saved: Seq<PathInfo>, current: Seq<PathInfo>) -> Map<Luid, Luid>
    decreases saved.len(),
{
    if saved.len() == 0 {
        Map::empty()
    } else {
        let m = path_id_map(saved.drop_last(), current);
        let sp = saved.last();
        match find_path(current, sp.source.id, sp.target.id) {
            Some(k) => or_insert(
                or_insert(m, sp.source.adapter_id, current[k].source.adapter_id),
                sp.target.adapter_id,
                current[k].target.adapter_id,
            ),
            None => m,
        }
    }
}

/// Every LUID the map names goes to itself.
pub open spec fn is_identity_map(m: Map<Luid, Luid>) -> bool {
    forall|k: Luid| #[trigger] m.contains_key(k) ==> m[k] == k
}

/// The path-id candidate: `None` when no path matches or when matching
/// would change nothing.
pub open spec fn remapped_by_path_ids(saved: ConfigModel, current: ConfigModel) -> Option<
    ConfigModel,
> {
    let m = path_id_map(saved.paths, current.paths);
    if m.dom().len() == 0 || is_identity_map(m) {
        None
    } else {
        Some(relabel(saved, lookup_fn(m)))
    }
}

/// The identity a monitor reports under `key`.
pub open spec fn key_of(m: MonitorModel, key: IdentityKey) -> Option<Seq<char>> {
    match key {
        IdentityKey::DevicePath => m.device_path,
        IdentityKey::FriendlyName => m.friendly_name,
    }
}

/// Does this monitor report exactly `needle` under `key`?
pub open spec fn has_key(m: MonitorModel, key: IdentityKey, needle: Seq<char>) -> bool {
    key_of(m, key) == Some(needle)
}

/// How many monitors report `needle` under `key`.
pub open spec fn key_count(ms: Seq<MonitorModel>, key: IdentityKey, needle: Seq<char>) -> nat
    decreases ms.len(),
{
    if ms.len() == 0 {
        0
    } else {
        key_count(ms.drop_last(), key, needle) + if has_key(ms.last(), key, needle) {
            1nat
        } else {
            0nat
        }
    }
}

/// Index of the first monitor reporting `needle` under `key`.
pub open spec fn find_key(ms: Seq<MonitorModel>, key: IdentityKey, needle: Seq<char>) -> Option<
    int,
>
    decreases ms.len(),
{
    if ms.len() == 0 {
        None
    } else {
        match find_key(ms.drop_last(), key, needle) {
            Some(i) => Some(i),
            None => if has_key(ms.last(), key, needle) {
                Some(ms.len() - 1)
            } else {
                None
            },
        }
    }
}

/// The current monitor a saved one is matched to: only when its key is
/// present, not blank, and held by exactly one monitor on each side.
pub open spec fn matched_monitor(
    saved: Seq<MonitorModel>,
    current: Seq<MonitorModel>,
    key: IdentityKey,
    m: MonitorModel,
) -> Option<int> {
    match key_of(m, key) {
        Some(k) => if !is_blank(k) && key_count(saved, key, k) == 1 && key_count(current, key, k)
            == 1 {
            find_key(current, key, k)
        } else {
            None
        },
        None => None,
    }
}

/// (saved adapter, saved target id) to (current adapter, current target id).
pub type TargetKey = (Luid, u32);

/// The two maps identity matching builds over the first monitors of
/// `prefix`: the target map (a later match for the same saved place wins)
/// and the adapter map (the first match for an adapter wins).
pub open spec fn identity_maps(
    prefix: Seq<MonitorModel>,
    saved: Seq<MonitorModel>,
    current: Seq<MonitorModel>,
    key: IdentityKey,
) -> (Map<TargetKey, TargetKey>, Map<Luid, Luid>)
    decreases prefix.len(),
{
    if prefix.len() == 0 {
        (Map::empty(), Map::empty())
    } else {
        let (t, a) = identity_maps(prefix.drop_last(), saved, current, key);
        let m = prefix.last();
        match matched_monitor(saved, current, key, m) {
            Some(h) => (
                t.insert((m.adapter_id, m.id), (current[h].adapter_id, current[h].id)),
                or_insert(a, m.adapter_id, current[h].adapter_id),
            ),
            None => (t, a),
        }
    }
}

/// The target id a saved place moves to under `t`.
pub open spec fn new_target_id(t: Map<TargetKey, TargetKey>, adapter: Luid, id: u32) -> u32 {
    if t.contains_key((adapter, id)) {
        t[(adapter, id)].1
    } else {
        id
    }
}

/// Move every target id named by `t`: in paths, in target modes (source
/// modes carry source ids and stay), and in monitor identities. LUIDs are
/// left for the adapter map.
pub open spec fn retarget(c: ConfigModel, t: Map<TargetKey, TargetKey>) -> ConfigModel {
    ConfigModel {
        paths: c.paths.map_values(
            |p: PathInfo|
                PathInfo {
                    target: crate::model::PathTargetInfo {
                        id: new_target_id(t, p.target.adapter_id, p.target.id),
                        ..p.target
                    },
                    ..p
                },
        ),
        modes: c.modes.map_values(
            |m: ModeInfo|
                if mode_is_target(m) {
                    ModeInfo { id: new_target_id(t, m.adapter_id, m.id), ..m }
                } else {
                    m
                },
        ),
        monitors: c.monitors.map_values(
            |m: MonitorModel| MonitorModel { id: new_target_id(t, m.adapter_id, m.id), ..m },
        ),
    }
}

/// The identity-matching candidate.
pub open spec fn remapped_by_identity(
    saved: ConfigModel,
    current: ConfigModel,
    key: IdentityKey,
) -> Option<ConfigModel> {
    let (t, a) = identity_maps(saved.monitors, saved.monitors, current.monitors, key);
    if t.dom().len() == 0 {
        None
    } else {
        Some(relabel(retarget(saved, t), lookup_fn(a)))
    }
}

/// The single-adapter candidate.
pub open spec fn remapped_onto_single_adapter(saved: ConfigModel, current: ConfigModel) -> Option<
    ConfigModel,
> {
    let now = adapter_ids_of(current);
    if now.len() != 1 {
        None
    } else if forall|i: int| 0 <= i < adapter_ids_of(saved).len() ==> #[trigger] adapter_ids_of(
        saved,
    )[i] == now[0] {
        None
    } else {
        Some(relabel(saved, collapse_onto(adapter_ids_of(saved), now[0])))
    }
}

/// Send every LUID in `from` to `only`, and leave the rest alone.
pub open spec fn collapse_onto(from: Seq<Luid>, only: Luid) -> spec_fn(Luid) -> Luid {
    |l: Luid| if from.contains(l) { only } else { l }
}

/// The remapped candidates, in the order they are tried.
pub open spec fn derived_candidates(saved: ConfigModel, current: ConfigModel) -> Seq<
    (Strategy, Option<ConfigModel>),
> {
    seq![
        (Strategy::PathIds, remapped_by_path_ids(saved, current)),
        (Strategy::DevicePath, remapped_by_identity(saved, current, IdentityKey::DevicePath)),
        (Strategy::FriendlyName, remapped_by_identity(saved, current, IdentityKey::FriendlyName)),
        (Strategy::SingleAdapter, remapped_onto_single_adapter(saved, current)),
    ]
}

pub open spec fn configs_of(s: Seq<(Strategy, ConfigModel)>) -> Seq<ConfigModel> {
    s.map_values(|c: (Strategy, ConfigModel)| c.1)
}

/// `base` followed by every derived candidate that exists and is not a
/// configuration already in the list.
pub open spec fn gather(
    base: Seq<(Strategy, ConfigModel)>,
    derived: Seq<(Strategy, Option<ConfigModel>)>,
) -> Seq<(Strategy, ConfigModel)>
    decreases derived.len(),
{
    if derived.len() == 0 {
        base
    } else {
        let r = gather(base, derived.drop_last());
        match derived.last().1 {
            Some(c) => if configs_of(r).contains(c) {
                r
            } else {
                r.push((derived.last().0, c))
            },
            None => r,
        }
    }
}

/// Every candidate worth trying, cheapest and most faithful first.
pub open spec fn candidate_list(saved: ConfigModel, current: ConfigModel) -> Seq<
    (Strategy, ConfigModel),
> {
    gather(seq![(Strategy::Verbatim, saved)], derived_candidates(saved, current))
}

pub open spec fn candidate_views(v: Seq<Candidate>) -> Seq<(Strategy, ConfigModel)> {
    v.map_values(|c: Candidate| (c.strategy, c.config@))
}

pub open spec fn opt_config(o: Option<DisplayConfig>) -> Option<ConfigModel> {
    match o {
        Some(c) => Some(c@),
        None => None,
    }
}

// ---------------------------------------------------------------------------
// A map from saved places to current ones
// ---------------------------------------------------------------------------

/// Saved (adapter, target id) to current (adapter, target id).
///
/// A `HashMap` keyed by `(Luid, u32)` would need vstd's hash-key model to
/// hold of that key, which vstd grants only to primitive types and boxes of them; here it could
/// only be assumed. So the map is an association list, and the type invariant
/// (no key listed twice) gives what the hash map gave: one value per key,
/// with a later insert replacing an earlier one.
pub struct TargetMap {
    entries: Vec<(TargetKey, TargetKey)>,
}

impl View for TargetMap {
    type V = Map<TargetKey, TargetKey>;

    closed spec fn view(&self) -> Map<TargetKey, TargetKey> {
        assoc_map(self.entries@)
    }
}

fn same_key(a: TargetKey, b: TargetKey) -> (eq: bool)
    ensures
        eq == (a == b),
{
    a.0 == b.0 && a.1 == b.1
}

impl TargetMap {
    #[verifier::type_invariant]
    closed spec fn wf(self) -> bool {
        keys_distinct(self.entries@)
    }

    pub fn new() -> (m: TargetMap)
        ensures
            m@ == Map::<TargetKey, TargetKey>::empty(),
    {
        TargetMap { entries: Vec::new() }
    }

    pub fn is_empty(&self) -> (b: bool)
        ensures
            b == (self@.dom().len() == 0),
    {
        proof {
            use_type_invariant(self);
            lemma_assoc_map_finite(self.entries@);
            if self.entries@.len() > 0 {
                lemma_assoc_map(self.entries@, self.entries@[0].0);
                assert(self@.dom().contains(self.entries@[0].0));
            } else {
                assert(self@ =~= Map::<TargetKey, TargetKey>::empty());
            }
        }
        self.entries.len() == 0
    }

    pub fn get(&self, k: TargetKey) -> (out: Option<TargetKey>)
        ensures
            out == if self@.contains_key(k) {
                Some(self@[k])
            } else {
                None::<TargetKey>
            },
    {
        proof {
            use_type_invariant(self);
            lemma_assoc_map(self.entries@, k);
        }
        let mut i: usize = 0;
        while i < self.entries.len()
            invariant
                i <= self.entries.len(),
                forall|j: int| 0 <= j < i ==> (#[trigger] self.entries@[j]).0 != k,
            decreases self.entries.len() - i,
        {
            if same_key(self.entries[i].0, k) {
                proof {
                    use_type_invariant(self);
                    lemma_assoc_map(self.entries@, k);
                    assert(self.entries@[i as int].0 == k);
                }
                return Some(self.entries[i].1);
            }
            i = i + 1;
        }
        None
    }

    /// Map `k` to `v`, replacing any earlier value for `k`.
    pub fn insert(&mut self, k: TargetKey, v: TargetKey)
        ensures
            final(self)@ == old(self)@.insert(k, v),
    {
        proof {
            use_type_invariant(&*self);
        }
        let ghost before = self.entries@;
        let mut entries: Vec<(TargetKey, TargetKey)> = Vec::new();
        let mut i: usize = 0;
        while i < self.entries.len()
            invariant
                i <= self.entries.len(),
                before == self.entries@,
                keys_distinct(before),
                entries@.len() == i,
                forall|j: int| 0 <= j < i ==> (#[trigger] entries@[j]).0 == before[j].0,
                forall|j: int| 0 <= j < i ==> (#[trigger] entries@[j]).1 == if before[j].0 == k {
                    v
                } else {
                    before[j].1
                },
            decreases self.entries.len() - i,
        {
            let e = self.entries[i];
            if same_key(e.0, k) {
                entries.push((k, v));
            } else {
                entries.push(e);
            }
            i = i + 1;
        }
        let found = exists_key(&entries, k);
        if !found {
            entries.push((k, v));
        }
        proof {
            let after = entries@;
            assert(keys_distinct(after)) by {
                assert forall|a: int, b: int| 0 <= a < b < after.len() implies (#[trigger] after[a]).0
                    != (#[trigger] after[b]).0 by {
                    if b < before.len() {
                    } else {
                        assert(after[b].0 == k);
                    }
                }
            }
            assert forall|x: TargetKey| #[trigger] assoc_map(after).contains_key(x) == before_with(
                before,
                k,
                v,
            ).contains_key(x) by {
                lemma_assoc_map(after, x);
                lemma_assoc_map(before, x);
                if exists|j: int| 0 <= j < before.len() && (#[trigger] before[j]).0 == x {
                    let j = choose|j: int| 0 <= j < before.len() && (#[trigger] before[j]).0 == x;
                    assert(after[j].0 == x);
                }
                if exists|j: int| 0 <= j < after.len() && (#[trigger] after[j]).0 == x {
                    let j = choose|j: int| 0 <= j < after.len() && (#[trigger] after[j]).0 == x;
                    if j < before.len() {
                        assert(before[j].0 == x);
                    }
                }
                if x == k && !found {
                    assert(after[after.len() - 1].0 == k);
                }
            }
            assert forall|x: TargetKey| #[trigger] assoc_map(after).contains_key(x) implies assoc_map(
                after,
            )[x] == before_with(before, k, v)[x] by {
                lemma_assoc_map(after, x);
                lemma_assoc_map(before, x);
                let j = choose|j: int| 0 <= j < after.len() && (#[trigger] after[j]).0 == x;
                if j < before.len() {
                    assert(before[j].0 == x);
                } else {
                    assert(x == k);
                }
            }
            assert(assoc_map(after) =~= before_with(before, k, v));
        }
        self.entries = entries;
    }
}

pub open spec fn before_with(before: Seq<(TargetKey, TargetKey)>, k: TargetKey, v: TargetKey) -> Map<
    TargetKey,
    TargetKey,
> {
    assoc_map(before).insert(k, v)
}

fn exists_key(entries: &Vec<(TargetKey, TargetKey)>, k: TargetKey) -> (b: bool)
    ensures
        b == exists|j: int| 0 <= j < entries@.len() && (#[trigger] entries@[j]).0 == k,
{
    let mut i: usize = 0;
    while i < entries.len()
        invariant
            i <= entries.len(),
            forall|j: int| 0 <= j < i ==> (#[trigger] entries@[j]).0 != k,
        decreases entries.len() - i,
    {
        if same_key(entries[i].0, k) {
            assert(entries@[i as int].0 == k);
            return true;
        }
        i = i + 1;
    }
    false
}

// ---------------------------------------------------------------------------
// Remapping strategies
// ---------------------------------------------------------------------------

/// Rewrite adapter LUIDs through an explicit map, in one pass.
///
/// Doing this as a lookup rather than repeated in-place substitution matters:
/// substituting A to B and then B to C in sequence would wrongly carry the
/// first group into the second.
pub fn remap_adapters(config: &mut DisplayConfig, map: &LuidMap)
    ensures
        final(config)@ == relabel(old(config)@, lookup_fn(map@)),
{
    config.relabel_with(map);
}

/// Index of the first path with this (source id, target id).
fn find_path_index(paths: &Vec<PathInfo>, source_id: u32, target_id: u32) -> (out: Option<usize>)
    ensures
        match out {
            Some(k) => find_path(paths@, source_id, target_id) == Some(k as int) && k < paths@.len(),
            None => find_path(paths@, source_id, target_id) is None,
        },
{
    let mut i: usize = 0;
    assert(paths@.take(0) =~= Seq::<PathInfo>::empty());
    while i < paths.len()
        invariant
            i <= paths.len(),
            find_path(paths@.take(i as int), source_id, target_id) is None,
        decreases paths.len() - i,
    {
        assert(paths@.take(i + 1).drop_last() =~= paths@.take(i as int));
        if paths[i].source.id == source_id && paths[i].target.id == target_id {
            proof {
                lemma_find_path_prefix(paths@, i + 1, source_id, target_id);
            }
            return Some(i);
        }
        i = i + 1;
    }
    assert(paths@.take(i as int) =~= paths@);
    None
}

/// The first match in a prefix is the first match overall.
proof fn lemma_find_path_prefix(paths: Seq<PathInfo>, n: int, source_id: u32, target_id: u32)
    requires
        0 <= n <= paths.len(),
        find_path(paths.take(n), source_id, target_id) is Some,
    ensures
        find_path(paths, source_id, target_id) == find_path(paths.take(n), source_id, target_id),
    decreases paths.len() - n,
{
    if n < paths.len() {
        assert(paths.take(n + 1).drop_last() =~= paths.take(n));
        lemma_find_path_prefix(paths, n + 1, source_id, target_id);
    } else {
        assert(paths.take(n) =~= paths);
    }
}

/// Adopt current adapter LUIDs by matching saved paths to current paths on the
/// pair of ids that stays constant across boots.
pub fn remap_by_path_ids(saved: &DisplayConfig, current: &DisplayConfig) -> (out: Option<
    DisplayConfig,
>)
    ensures
        opt_config(out) == remapped_by_path_ids(saved@, current@),
{
    let mut map = LuidMap::new();
    let mut i: usize = 0;
    while i < saved.paths.len()
        invariant
            i <= saved.paths.len(),
            map@ == path_id_map(saved@.paths.take(i as int), current@.paths),
        decreases saved.paths.len() - i,
    {
        assert(saved@.paths.take(i + 1).drop_last() =~= saved@.paths.take(i as int));
        let sp = saved.paths[i];
        match find_path_index(&current.paths, sp.source.id, sp.target.id) {
            Some(k) => {
                let hit = current.paths[k];
                map.or_insert(sp.source.adapter_id, hit.source.adapter_id);
                map.or_insert(sp.target.adapter_id, hit.target.adapter_id);
            },
            None => {},
        }
        i = i + 1;
    }
    assert(saved@.paths.take(saved.paths.len() as int) =~= saved@.paths);
    if map.is_empty() || map.is_identity() {
        return None;
    }
    let mut out = saved.clone();
    remap_adapters(&mut out, &map);
    Some(out)
}

/// The identity this monitor reports under `key`.
fn monitor_key(m: &MonitorInfo, key: IdentityKey) -> (out: &Option<String>)
    ensures
        crate::model::opt_view(*out) == key_of(m@, key),
{
    match key {
        IdentityKey::DevicePath => &m.device_path,
        IdentityKey::FriendlyName => &m.friendly_name,
    }
}

/// Does this monitor report exactly `needle` under `key`?
fn monitor_has_key(m: &MonitorInfo, key: IdentityKey, needle: &str) -> (b: bool)
    ensures
        b == has_key(m@, key, needle@),
{
    match monitor_key(m, key) {
        Some(k) => str_eq(k.as_str(), needle),
        None => false,
    }
}

/// How many monitors in this list carry the given key.
pub fn key_occurrences(monitors: &Vec<MonitorInfo>, key: IdentityKey, needle: &str) -> (n: usize)
    ensures
        n == key_count(monitor_views(monitors@), key, needle@),
{
    let ghost ms = monitor_views(monitors@);
    let mut n: usize = 0;
    let mut i: usize = 0;
    while i < monitors.len()
        invariant
            i <= monitors.len(),
            ms == monitor_views(monitors@),
            n == key_count(ms.take(i as int), key, needle@),
            n <= i,
        decreases monitors.len() - i,
    {
        assert(ms.take(i + 1).drop_last() =~= ms.take(i as int));
        if monitor_has_key(&monitors[i], key, needle) {
            n = n + 1;
        }
        i = i + 1;
    }
    assert(ms.take(i as int) =~= ms);
    n
}

/// Index of the first monitor carrying the given key.
fn find_key_index(monitors: &Vec<MonitorInfo>, key: IdentityKey, needle: &str) -> (out: Option<
    usize,
>)
    ensures
        match out {
            Some(h) => find_key(monitor_views(monitors@), key, needle@) == Some(h as int) && h
                < monitors@.len(),
            None => find_key(monitor_views(monitors@), key, needle@) is None,
        },
{
    let ghost ms = monitor_views(monitors@);
    let mut i: usize = 0;
    assert(ms.take(0) =~= Seq::<MonitorModel>::empty());
    while i < monitors.len()
        invariant
            i <= monitors.len(),
            ms == monitor_views(monitors@),
            find_key(ms.take(i as int), key, needle@) is None,
        decreases monitors.len() - i,
    {
        assert(ms.take(i + 1).drop_last() =~= ms.take(i as int));
        if monitor_has_key(&monitors[i], key, needle) {
            proof {
                lemma_find_key_prefix(ms, i + 1, key, needle@);
            }
            return Some(i);
        }
        i = i + 1;
    }
    assert(ms.take(i as int) =~= ms);
    None
}

proof fn lemma_find_key_prefix(ms: Seq<MonitorModel>, n: int, key: IdentityKey, needle: Seq<char>)
    requires
        0 <= n <= ms.len(),
        find_key(ms.take(n), key, needle) is Some,
    ensures
        find_key(ms, key, needle) == find_key(ms.take(n), key, needle),
    decreases ms.len() - n,
{
    if n < ms.len() {
        assert(ms.take(n + 1).drop_last() =~= ms.take(n));
        lemma_find_key_prefix(ms, n + 1, key, needle);
    } else {
        assert(ms.take(n) =~= ms);
    }
}

/// The new target id for a saved place.
fn moved_id(targets: &TargetMap, adapter: Luid, id: u32) -> (out: u32)
    ensures
        out == new_target_id(targets@, adapter, id),
{
    match targets.get((adapter, id)) {
        Some(to) => to.1,
        None => id,
    }
}

/// `saved` with every target id named by `targets` moved.
fn retargeted(saved: &DisplayConfig, targets: &TargetMap) -> (out: DisplayConfig)
    ensures
        out@ == retarget(saved@, targets@),
{
    let ghost t = targets@;
    let ghost want = retarget(saved@, t);
    let mut paths: Vec<PathInfo> = Vec::new();
    let mut i: usize = 0;
    while i < saved.paths.len()
        invariant
            i <= saved.paths.len(),
            t == targets@,
            want == retarget(saved@, t),
            paths@ == want.paths.take(i as int),
        decreases saved.paths.len() - i,
    {
        let mut p = saved.paths[i];
        p.target.id = moved_id(targets, p.target.adapter_id, p.target.id);
        paths.push(p);
        assert(paths@ =~= want.paths.take(i + 1));
        i = i + 1;
    }
    let mut modes: Vec<ModeInfo> = Vec::new();
    let mut i: usize = 0;
    while i < saved.modes.len()
        invariant
            i <= saved.modes.len(),
            t == targets@,
            want == retarget(saved@, t),
            modes@ == want.modes.take(i as int),
        decreases saved.modes.len() - i,
    {
        let mut m = saved.modes[i];
        if m.is_target() {
            m.id = moved_id(targets, m.adapter_id, m.id);
        }
        modes.push(m);
        assert(modes@ =~= want.modes.take(i + 1));
        i = i + 1;
    }
    let mut monitors: Vec<MonitorInfo> = Vec::new();
    let mut i: usize = 0;
    while i < saved.monitors.len()
        invariant
            i <= saved.monitors.len(),
            t == targets@,
            want == retarget(saved@, t),
            monitor_views(monitors@) == want.monitors.take(i as int),
        decreases saved.monitors.len() - i,
    {
        let mut m = saved.monitors[i].duplicate();
        m.id = moved_id(targets, m.adapter_id, m.id);
        let ghost before = monitors@;
        monitors.push(m);
        proof {
            assert(monitors@ =~= before.push(m));
            assert(monitor_views(before).len() == i);
            assert forall|k: int| 0 <= k < i + 1 implies monitor_views(monitors@)[k]
                == want.monitors.take(i + 1)[k] by {
                if k < i {
                    assert(monitors@[k] == before[k]);
                    assert(monitor_views(before)[k] == want.monitors.take(i as int)[k]);
                } else {
                    assert(saved@.monitors[k] == saved.monitors@[k]@);
                }
            }
            assert(monitor_views(monitors@) =~= want.monitors.take(i + 1));
        }
        i = i + 1;
    }
    assert(want.paths.take(saved.paths.len() as int) =~= want.paths);
    assert(want.modes.take(saved.modes.len() as int) =~= want.modes);
    assert(want.monitors.take(saved.monitors.len() as int) =~= want.monitors);
    let out = DisplayConfig { paths, modes, monitors };
    assert(out@ =~= want);
    out
}

/// Match monitors on a stable identity, and adopt both the adapter LUID and
/// the target id that identity currently lives at.
///
/// The target id can move when a monitor is plugged into a different port, so
/// unlike [`remap_by_path_ids`] this also rewrites ids.
///
/// A key that is not unique on both sides is skipped rather than guessed. Two
/// monitors of the same model report the same friendly name, and mapping both
/// of them onto whichever one happened to be found first would silently
/// collapse two displays into one.
pub fn remap_by_monitor_identity(
    saved: &DisplayConfig,
    current: &DisplayConfig,
    key: IdentityKey,
) -> (out: Option<DisplayConfig>)
    ensures
        opt_config(out) == remapped_by_identity(saved@, current@, key),
{
    let ghost sm = saved@.monitors;
    let ghost cm = current@.monitors;
    let mut targets = TargetMap::new();
    let mut adapters = LuidMap::new();
    let mut i: usize = 0;
    while i < saved.monitors.len()
        invariant
            i <= saved.monitors.len(),
            sm == saved@.monitors,
            cm == current@.monitors,
            (targets@, adapters@) == identity_maps(sm.take(i as int), sm, cm, key),
        decreases saved.monitors.len() - i,
    {
        assert(sm.take(i + 1).drop_last() =~= sm.take(i as int));
        assert(sm.take(i + 1).last() == saved.monitors@[i as int]@);
        let m = &saved.monitors[i];
        match monitor_key(m, key) {
            Some(k) => {
                if !str_is_blank(k.as_str()) && key_occurrences(&saved.monitors, key, k.as_str())
                    == 1 && key_occurrences(&current.monitors, key, k.as_str()) == 1 {
                    match find_key_index(&current.monitors, key, k.as_str()) {
                        Some(h) => {
                            let hit = &current.monitors[h];
                            assert(cm[h as int] == hit@);
                            targets.insert((m.adapter_id, m.id), (hit.adapter_id, hit.id));
                            adapters.or_insert(m.adapter_id, hit.adapter_id);
                        },
                        None => {},
                    }
                }
            },
            None => {},
        }
        i = i + 1;
    }
    assert(sm.take(saved.monitors.len() as int) =~= sm);
    if targets.is_empty() {
        return None;
    }
    let mut out = retargeted(saved, &targets);
    remap_adapters(&mut out, &adapters);
    Some(out)
}

/// On a single-GPU machine, every LUID in the saved profile must be the one
/// adapter that exists now, whatever it happens to be called this boot.
pub fn remap_onto_single_adapter(saved: &DisplayConfig, current: &DisplayConfig) -> (out: Option<
    DisplayConfig,
>)
    ensures
        opt_config(out) == remapped_onto_single_adapter(saved@, current@),
{
    let now = current.adapter_ids();
    if now.len() != 1 {
        return None;
    }
    let only = now[0];
    let saved_adapters = saved.adapter_ids();
    let mut all_same = true;
    let mut i: usize = 0;
    while i < saved_adapters.len()
        invariant
            i <= saved_adapters.len(),
            all_same == (forall|k: int| 0 <= k < i ==> #[trigger] saved_adapters@[k] == only),
        decreases saved_adapters.len() - i,
    {
        if saved_adapters[i] != only {
            all_same = false;
        }
        i = i + 1;
    }
    if all_same {
        return None;
    }
    let mut map = LuidMap::new();
    let mut i: usize = 0;
    while i < saved_adapters.len()
        invariant
            i <= saved_adapters.len(),
            forall|l: Luid| #[trigger] map@.contains_key(l) == saved_adapters@.take(i as int).contains(l),
            forall|l: Luid| #[trigger] map@.contains_key(l) ==> map@[l] == only,
        decreases saved_adapters.len() - i,
    {
        let a = saved_adapters[i];
        map.or_insert(a, only);
        proof {
            let pre = saved_adapters@.take(i as int);
            assert(saved_adapters@.take(i + 1) =~= pre.push(a));
            assert forall|l: Luid| #[trigger] pre.push(a).contains(l) == (pre.contains(l) || l == a) by {
                if pre.push(a).contains(l) && l != a {
                    let k = choose|k: int| 0 <= k < pre.push(a).len() && pre.push(a)[k] == l;
                    assert(pre[k] == l);
                }
                if pre.contains(l) {
                    let k = choose|k: int| 0 <= k < pre.len() && pre[k] == l;
                    assert(pre.push(a)[k] == l);
                }
                if l == a {
                    assert(pre.push(a)[pre.len() as int] == a);
                }
            }
        }
        i = i + 1;
    }
    assert(saved_adapters@.take(saved_adapters.len() as int) =~= saved_adapters@);
    let mut out = saved.clone();
    remap_adapters(&mut out, &map);
    assert(lookup_fn(map@) =~= collapse_onto(adapter_ids_of(saved@), only));
    Some(out)
}

// ---------------------------------------------------------------------------
// Candidates
// ---------------------------------------------------------------------------

/// Is a configuration with this model already among the candidates?
fn already_listed(out: &Vec<Candidate>, config: &DisplayConfig) -> (b: bool)
    ensures
        b == configs_of(candidate_views(out@)).contains(config@),
{
    let ghost cs = configs_of(candidate_views(out@));
    let mut i: usize = 0;
    while i < out.len()
        invariant
            i <= out.len(),
            cs == configs_of(candidate_views(out@)),
            forall|k: int| 0 <= k < i ==> cs[k] != config@,
        decreases out.len() - i,
    {
        if out[i].config.same_as(config) {
            assert(cs[i as int] == config@);
            return true;
        }
        i = i + 1;
    }
    false
}

/// Add a derived candidate unless it does not exist or repeats one already
/// listed.
fn push_if_new(out: &mut Vec<Candidate>, strategy: Strategy, config: Option<DisplayConfig>)
    ensures
        candidate_views(final(out)@) == match opt_config(config) {
            Some(c) => if configs_of(candidate_views(old(out)@)).contains(c) {
                candidate_views(old(out)@)
            } else {
                candidate_views(old(out)@).push((strategy, c))
            },
            None => candidate_views(old(out)@),
        },
{
    match config {
        Some(c) => {
            if !already_listed(out, &c) {
                let ghost before = out@;
                let ghost cv = c@;
                out.push(Candidate { strategy, config: c });
                assert(candidate_views(out@) =~= candidate_views(before).push((strategy, cv)));
            }
        },
        None => {},
    }
}

/// Build every candidate worth trying, cheapest and most faithful first.
pub fn candidates(saved: &DisplayConfig, current: &DisplayConfig) -> (out: Vec<Candidate>)
    ensures
        candidate_views(out@) == candidate_list(saved@, current@),
{
    let mut out: Vec<Candidate> = Vec::new();
    out.push(Candidate { strategy: Strategy::Verbatim, config: saved.clone() });
    let ghost base = seq![(Strategy::Verbatim, saved@)];
    let ghost d = derived_candidates(saved@, current@);
    assert(candidate_views(out@) =~= base);
    push_if_new(&mut out, Strategy::PathIds, remap_by_path_ids(saved, current));
    assert(d.take(1).drop_last() =~= d.take(0));
    assert(d.take(0) =~= Seq::<(Strategy, Option<ConfigModel>)>::empty());
    assert(gather(base, d.take(0)) == base);
    assert(d.take(1).last() == d[0]);
    assert(candidate_views(out@) == gather(base, d.take(1)));
    push_if_new(
        &mut out,
        Strategy::DevicePath,
        remap_by_monitor_identity(saved, current, IdentityKey::DevicePath),
    );
    assert(d.take(2).drop_last() =~= d.take(1));
    assert(d.take(2).last() == d[1]);
    assert(candidate_views(out@) == gather(base, d.take(2)));
    push_if_new(
        &mut out,
        Strategy::FriendlyName,
        remap_by_monitor_identity(saved, current, IdentityKey::FriendlyName),
    );
    assert(d.take(3).drop_last() =~= d.take(2));
    assert(d.take(3).last() == d[2]);
    assert(candidate_views(out@) == gather(base, d.take(3)));
    push_if_new(&mut out, Strategy::SingleAdapter, remap_onto_single_adapter(saved, current));
    assert(d.take(4).drop_last() =~= d.take(3));
    assert(d.take(4).last() == d[3]);
    assert(d.take(4) =~= d);
    out
}

// ---------------------------------------------------------------------------
// Laws
// ---------------------------------------------------------------------------

/// No two candidates in the list carry the same configuration.
pub open spec fn distinct_configs(s: Seq<(Strategy, ConfigModel)>) -> bool {
    forall|i: int, j: int| 0 <= i < j < s.len() ==> (#[trigger] s[i]).1 != (#[trigger] s[j]).1
}

proof fn lemma_gather(base: Seq<(Strategy, ConfigModel)>, d: Seq<(Strategy, Option<ConfigModel>)>)
    requires
        distinct_configs(base),
    ensures
        gather(base, d).len() >= base.len(),
        forall|i: int| 0 <= i < base.len() ==> #[trigger] gather(base, d)[i] == base[i],
        distinct_configs(gather(base, d)),
    decreases d.len(),
{
    if d.len() > 0 {
        lemma_gather(base, d.drop_last());
        let r = gather(base, d.drop_last());
        match d.last().1 {
            Some(c) => {
                if !configs_of(r).contains(c) {
                    let g = r.push((d.last().0, c));
                    assert forall|i: int, j: int| 0 <= i < j < g.len() implies (#[trigger] g[i]).1 != (
                    #[trigger] g[j]).1 by {
                        if j == r.len() {
                            assert(configs_of(r)[i] == r[i].1);
                        } else {
                            assert(g[i] == r[i] && g[j] == r[j]);
                        }
                    }
                    assert forall|i: int| 0 <= i < base.len() implies #[trigger] g[i] == base[i] by {
                        assert(g[i] == r[i]);
                    }
                }
            },
            None => {},
        }
    }
}

/// The candidate list starts with the saved configuration as it is, and
/// never lists the same configuration twice.
pub proof fn law_candidates_start_verbatim_without_repeats(saved: ConfigModel, current: ConfigModel)
    ensures
        candidate_list(saved, current).len() >= 1,
        candidate_list(saved, current)[0] == (Strategy::Verbatim, saved),
        distinct_configs(candidate_list(saved, current)),
{
    let base = seq![(Strategy::Verbatim, saved)];
    lemma_gather(base, derived_candidates(saved, current));
}

/// `c` has the paths, modes and monitors `saved` has, in the same order,
/// each path on or off as it was and fed by the same source: only adapter
/// LUIDs and target ids may differ.
pub open spec fn same_shape(c: ConfigModel, saved: ConfigModel) -> bool {
    &&& c.paths.len() == saved.paths.len()
    &&& c.modes.len() == saved.modes.len()
    &&& c.monitors.len() == saved.monitors.len()
    &&& forall|i: int|
        0 <= i < c.paths.len() ==> (#[trigger] c.paths[i]).flags == saved.paths[i].flags
            && c.paths[i].source.id == saved.paths[i].source.id
}

proof fn lemma_relabel_shape(c: ConfigModel, saved: ConfigModel, f: spec_fn(Luid) -> Luid)
    requires
        same_shape(c, saved),
    ensures
        same_shape(relabel(c, f), saved),
{
    let r = relabel(c, f);
    assert forall|i: int| 0 <= i < r.paths.len() implies (#[trigger] r.paths[i]).flags == saved.paths[i].flags
        && r.paths[i].source.id == saved.paths[i].source.id by {
        assert(r.paths[i].flags == c.paths[i].flags);
    }
}

proof fn lemma_retarget_shape(saved: ConfigModel, t: Map<TargetKey, TargetKey>)
    ensures
        same_shape(retarget(saved, t), saved),
{
}

proof fn lemma_gather_shape(
    saved: ConfigModel,
    base: Seq<(Strategy, ConfigModel)>,
    d: Seq<(Strategy, Option<ConfigModel>)>,
)
    requires
        forall|i: int| 0 <= i < base.len() ==> same_shape((#[trigger] base[i]).1, saved),
        forall|i: int| 0 <= i < d.len() ==> match (#[trigger] d[i]).1 {
            Some(c) => same_shape(c, saved),
            None => true,
        },
    ensures
        forall|i: int| 0 <= i < gather(base, d).len() ==> same_shape((#[trigger] gather(base, d)[i]).1, saved),
    decreases d.len(),
{
    if d.len() > 0 {
        assert forall|i: int| 0 <= i < d.drop_last().len() implies match (#[trigger] d.drop_last()[i]).1 {
            Some(c) => same_shape(c, saved),
            None => true,
        } by {
            assert(d.drop_last()[i] == d[i]);
        }
        lemma_gather_shape(saved, base, d.drop_last());
        let r = gather(base, d.drop_last());
        assert(d.last() == d[d.len() - 1]);
        match d.last().1 {
            Some(c) => {
                if !configs_of(r).contains(c) {
                    let g = r.push((d.last().0, c));
                    assert forall|i: int| 0 <= i < g.len() implies same_shape((#[trigger] g[i]).1, saved) by {
                        if i < r.len() {
                            assert(g[i] == r[i]);
                        }
                    }
                }
            },
            None => {},
        }
    }
}

/// Rebuilding a profile for the machine as it is now only renames: every
/// candidate keeps every path, mode and monitor of the saved profile, in
/// order, with each path on or off as it was saved and fed by the same
/// source. A disabled monitor stays disabled, and nothing is dropped.
pub proof fn law_candidates_keep_the_saved_shape(saved: ConfigModel, current: ConfigModel)
    ensures
        forall|i: int|
            0 <= i < candidate_list(saved, current).len() ==> same_shape(
                (#[trigger] candidate_list(saved, current)[i]).1,
                saved,
            ),
{
    let base = seq![(Strategy::Verbatim, saved)];
    let d = derived_candidates(saved, current);
    let m = path_id_map(saved.paths, current.paths);
    lemma_relabel_shape(saved, saved, lookup_fn(m));
    let (t1, a1) = identity_maps(saved.monitors, saved.monitors, current.monitors, IdentityKey::DevicePath);
    lemma_retarget_shape(saved, t1);
    lemma_relabel_shape(retarget(saved, t1), saved, lookup_fn(a1));
    let (t2, a2) = identity_maps(saved.monitors, saved.monitors, current.monitors, IdentityKey::FriendlyName);
    lemma_retarget_shape(saved, t2);
    lemma_relabel_shape(retarget(saved, t2), saved, lookup_fn(a2));
    let now = adapter_ids_of(current);
    if now.len() == 1 {
        lemma_relabel_shape(saved, saved, collapse_onto(adapter_ids_of(saved), now[0]));
    }
    assert forall|i: int| 0 <= i < d.len() implies match (#[trigger] d[i]).1 {
        Some(c) => same_shape(c, saved),
        None => true,
    } by {}
    lemma_gather_shape(saved, base, d);
}

/// Path (source id, target id) pairs are all different.
pub open spec fn path_ids_distinct(paths: Seq<PathInfo>) -> bool {
    forall|i: int, j: int|
        0 <= i < j < paths.len() ==> !((#[trigger] paths[i]).source.id == (
        #[trigger] paths[j]).source.id && paths[i].target.id == paths[j].target.id)
}

proof fn lemma_find_path_bounds(paths: Seq<PathInfo>, sid: u32, tid: u32)
    ensures
        match find_path(paths, sid, tid) {
            Some(k) => 0 <= k < paths.len() && paths[k].source.id == sid && paths[k].target.id
                == tid && forall|j: int|
                0 <= j < k ==> !((#[trigger] paths[j]).source.id == sid && paths[j].target.id == tid),
            None => forall|j: int|
                0 <= j < paths.len() ==> !((#[trigger] paths[j]).source.id == sid && paths[j].target.id
                    == tid),
        },
    decreases paths.len(),
{
    if paths.len() > 0 {
        lemma_find_path_bounds(paths.drop_last(), sid, tid);
        assert forall|j: int| 0 <= j < paths.len() - 1 implies #[trigger] paths[j] == paths.drop_last()[j] by {}
    }
}

proof fn lemma_path_id_map_identity(paths: Seq<PathInfo>, n: int)
    requires
        0 <= n <= paths.len(),
        path_ids_distinct(paths),
    ensures
        is_identity_map(path_id_map(paths.take(n), paths)),
    decreases n,
{
    if n > 0 {
        let pre = paths.take(n);
        assert(pre.drop_last() =~= paths.take(n - 1));
        lemma_path_id_map_identity(paths, n - 1);
        let sp = pre.last();
        assert(sp == paths[n - 1]);
        lemma_find_path_bounds(paths, sp.source.id, sp.target.id);
        match find_path(paths, sp.source.id, sp.target.id) {
            Some(k) => {
                if k < n - 1 {
                    assert(paths[k].source.id == paths[n - 1].source.id);
                }
                assert(k == n - 1);
            },
            None => {
                assert(paths[n - 1].source.id == sp.source.id);
            },
        }
    }
}

proof fn lemma_key_count_positive(ms: Seq<MonitorModel>, key: IdentityKey, needle: Seq<char>, j: int)
    requires
        0 <= j < ms.len(),
        has_key(ms[j], key, needle),
    ensures
        key_count(ms, key, needle) >= 1,
        key_count(ms, key, needle) == 1 ==> find_key(ms, key, needle) == Some(j),
    decreases ms.len(),
{
    if j < ms.len() - 1 {
        assert(ms.drop_last()[j] == ms[j]);
        lemma_key_count_positive(ms.drop_last(), key, needle, j);
        if key_count(ms, key, needle) == 1 {
            assert(!has_key(ms.last(), key, needle));
        }
    } else {
        if key_count(ms, key, needle) == 1 {
            lemma_key_count_zero_none(ms.drop_last(), key, needle);
        }
    }
}

proof fn lemma_key_count_zero_none(ms: Seq<MonitorModel>, key: IdentityKey, needle: Seq<char>)
    requires
        key_count(ms, key, needle) == 0,
    ensures
        find_key(ms, key, needle) is None,
    decreases ms.len(),
{
    if ms.len() > 0 {
        lemma_key_count_zero_none(ms.drop_last(), key, needle);
    }
}

/// Every entry of a map sends its key to itself.
pub open spec fn fixes_targets(t: Map<TargetKey, TargetKey>) -> bool {
    forall|x: TargetKey| #[trigger] t.contains_key(x) ==> t[x] == x
}

proof fn lemma_identity_maps_fixed(ms: Seq<MonitorModel>, key: IdentityKey, n: int)
    requires
        0 <= n <= ms.len(),
    ensures
        fixes_targets(identity_maps(ms.take(n), ms, ms, key).0),
        is_identity_map(identity_maps(ms.take(n), ms, ms, key).1),
    decreases n,
{
    if n > 0 {
        let pre = ms.take(n);
        assert(pre.drop_last() =~= ms.take(n - 1));
        lemma_identity_maps_fixed(ms, key, n - 1);
        let m = pre.last();
        assert(m == ms[n - 1]);
        match matched_monitor(ms, ms, key, m) {
            Some(h) => {
                let k = key_of(m, key)->0;
                lemma_key_count_positive(ms, key, k, n - 1);
                assert(h == n - 1);
            },
            None => {},
        }
    }
}

proof fn lemma_retarget_fixed(c: ConfigModel, t: Map<TargetKey, TargetKey>)
    requires
        fixes_targets(t),
    ensures
        retarget(c, t) == c,
{
    let r = retarget(c, t);
    assert forall|i: int| 0 <= i < c.paths.len() implies r.paths[i] == c.paths[i] by {
        let p = c.paths[i];
        if t.contains_key((p.target.adapter_id, p.target.id)) {
            assert(t[(p.target.adapter_id, p.target.id)] == (p.target.adapter_id, p.target.id));
        }
    }
    assert forall|i: int| 0 <= i < c.modes.len() implies r.modes[i] == c.modes[i] by {
        let m = c.modes[i];
        if t.contains_key((m.adapter_id, m.id)) {
            assert(t[(m.adapter_id, m.id)] == (m.adapter_id, m.id));
        }
    }
    assert forall|i: int| 0 <= i < c.monitors.len() implies r.monitors[i] == c.monitors[i] by {
        let m = c.monitors[i];
        if t.contains_key((m.adapter_id, m.id)) {
            assert(t[(m.adapter_id, m.id)] == (m.adapter_id, m.id));
        }
    }
    assert(r.paths =~= c.paths);
    assert(r.modes =~= c.modes);
    assert(r.monitors =~= c.monitors);
}

proof fn lemma_relabel_identity(c: ConfigModel, f: spec_fn(Luid) -> Luid)
    requires
        forall|l: Luid| #[trigger] f(l) == l,
    ensures
        relabel(c, f) == c,
{
    let r = relabel(c, f);
    assert(r.paths =~= c.paths);
    assert(r.modes =~= c.modes);
    assert(r.monitors =~= c.monitors);
}

/// On a machine where nothing has changed, and where no two paths share a
/// (source id, target id) pair, the only candidate is the saved
/// configuration itself: no strategy produces a different configuration,
/// however many identical monitors are attached.
pub proof fn law_unchanged_machine_needs_no_remapping(config: ConfigModel)
    requires
        path_ids_distinct(config.paths),
    ensures
        candidate_list(config, config) == seq![(Strategy::Verbatim, config)],
{
    let base = seq![(Strategy::Verbatim, config)];
    let d = derived_candidates(config, config);
    // Path ids: every saved path finds itself.
    lemma_path_id_map_identity(config.paths, config.paths.len() as int);
    assert(config.paths.take(config.paths.len() as int) =~= config.paths);
    assert(remapped_by_path_ids(config, config) is None);
    // Identity: every matched monitor is matched to itself.
    assert(config.monitors.take(config.monitors.len() as int) =~= config.monitors);
    lemma_identity_maps_fixed(config.monitors, IdentityKey::DevicePath, config.monitors.len() as int);
    lemma_identity_maps_fixed(config.monitors, IdentityKey::FriendlyName, config.monitors.len() as int);
    let (t1, a1) = identity_maps(config.monitors, config.monitors, config.monitors, IdentityKey::DevicePath);
    let (t2, a2) = identity_maps(config.monitors, config.monitors, config.monitors, IdentityKey::FriendlyName);
    lemma_retarget_fixed(config, t1);
    lemma_retarget_fixed(config, t2);
    lemma_relabel_identity(config, lookup_fn(a1));
    lemma_relabel_identity(config, lookup_fn(a2));
    // Single adapter: the saved adapters are the current ones.
    assert(remapped_onto_single_adapter(config, config) is None);
    assert(configs_of(base)[0] == config);
    reveal_with_fuel(gather, 5);
    assert(d.drop_last().drop_last().drop_last().drop_last() =~= Seq::<(Strategy, Option<ConfigModel>)>::empty());
    assert(gather(base, d.drop_last().drop_last().drop_last()) == base);
    assert(gather(base, d.drop_last().drop_last()) == base);
    assert(gather(base, d.drop_last()) == base);
    assert(gather(base, d) == base);
}

proof fn lemma_find_key(ms: Seq<MonitorModel>, key: IdentityKey, needle: Seq<char>)
    ensures
        match find_key(ms, key, needle) {
            Some(i) => 0 <= i < ms.len() && has_key(ms[i], key, needle),
            None => key_count(ms, key, needle) == 0,
        },
    decreases ms.len(),
{
    if ms.len() > 0 {
        lemma_find_key(ms.drop_last(), key, needle);
        match find_key(ms.drop_last(), key, needle) {
            Some(i) => {
                assert(ms.drop_last()[i] == ms[i]);
            },
            None => {},
        }
    }
}

/// Monitor identity is matched only when it is unambiguous: a saved monitor
/// is matched only by a key that is present, not blank, and held by exactly
/// one monitor on each side, and the monitor it is matched to holds that
/// key.
pub proof fn law_identity_matches_only_unambiguous(
    saved: Seq<MonitorModel>,
    current: Seq<MonitorModel>,
    key: IdentityKey,
    m: MonitorModel,
)
    ensures
        match matched_monitor(saved, current, key, m) {
            Some(h) => match key_of(m, key) {
                Some(k) => {
                    &&& !is_blank(k)
                    &&& key_count(saved, key, k) == 1
                    &&& key_count(current, key, k) == 1
                    &&& 0 <= h < current.len()
                    &&& has_key(current[h], key, k)
                },
                None => false,
            },
            None => true,
        },
{
    match key_of(m, key) {
        Some(k) => {
            lemma_find_key(current, key, k);
        },
        None => {},
    }
}

/// A saved monitor identity matching can use: its key is present, not blank,
/// and held by exactly one monitor on each side.
pub open spec fn matchable(saved: Seq<MonitorModel>, current: Seq<MonitorModel>, key: IdentityKey, m: MonitorModel) -> bool {
    match key_of(m, key) {
        Some(k) => !is_blank(k) && key_count(saved, key, k) == 1 && key_count(current, key, k) == 1,
        None => false,
    }
}

/// Some saved monitor at `(adapter, id)` is matched to a current monitor
/// whose id is `new_id`.
pub open spec fn moved_to(
    saved: Seq<MonitorModel>,
    current: Seq<MonitorModel>,
    key: IdentityKey,
    adapter: Luid,
    id: u32,
    new_id: u32,
) -> bool {
    exists|j: int, h: int|
        0 <= j < saved.len() && (#[trigger] saved[j]).adapter_id == adapter && saved[j].id == id
            && matched_monitor(saved, current, key, saved[j]) == Some(h) && 0 <= h < current.len()
            && new_id == (#[trigger] current[h]).id
}

proof fn lemma_matched_iff_matchable(
    saved: Seq<MonitorModel>,
    current: Seq<MonitorModel>,
    key: IdentityKey,
    m: MonitorModel,
)
    ensures
        matched_monitor(saved, current, key, m) is Some <==> matchable(saved, current, key, m),
        matched_monitor(saved, current, key, m) matches Some(h) ==> 0 <= h < current.len(),
{
    match key_of(m, key) {
        Some(k) => {
            lemma_find_key(current, key, k);
        },
        None => {},
    }
}

proof fn lemma_identity_targets(
    prefix: Seq<MonitorModel>,
    saved: Seq<MonitorModel>,
    current: Seq<MonitorModel>,
    key: IdentityKey,
)
    ensures
        identity_maps(prefix, saved, current, key).0.dom().finite(),
        (exists|i: int| 0 <= i < prefix.len() && matchable(saved, current, key, #[trigger] prefix[i]))
            ==> identity_maps(prefix, saved, current, key).0.dom().len() > 0,
        (forall|i: int| 0 <= i < prefix.len() ==> !matchable(saved, current, key, #[trigger] prefix[i]))
            ==> identity_maps(prefix, saved, current, key).0.dom().len() == 0,
        forall|x: TargetKey| #[trigger]
            identity_maps(prefix, saved, current, key).0.contains_key(x) ==> exists|j: int, h: int|
                0 <= j < prefix.len() && ((#[trigger] prefix[j]).adapter_id, prefix[j].id) == x
                    && matched_monitor(saved, current, key, prefix[j]) == Some(h) && 0 <= h
                    < current.len() && identity_maps(prefix, saved, current, key).0[x] == (
                    (#[trigger] current[h]).adapter_id,
                    current[h].id,
                ),
    decreases prefix.len(),
{
    let t = identity_maps(prefix, saved, current, key).0;
    if prefix.len() == 0 {
        assert(t.dom() =~= Set::<TargetKey>::empty());
    } else {
        let q = prefix.drop_last();
        lemma_identity_targets(q, saved, current, key);
        let r = identity_maps(q, saved, current, key).0;
        let m = prefix.last();
        let n = prefix.len() - 1;
        assert(prefix[n] == m);
        assert forall|i: int| 0 <= i < n implies #[trigger] prefix[i] == q[i] by {}
        lemma_matched_iff_matchable(saved, current, key, m);
        match matched_monitor(saved, current, key, m) {
            Some(h) => {
                let place = (m.adapter_id, m.id);
                assert(t == r.insert(place, (current[h].adapter_id, current[h].id)));
                assert(t.dom() =~= r.dom().insert(place));
                assert(t.dom().contains(place));
                assert(t.dom().remove(place).len() + 1 == t.dom().len());
                assert forall|x: TargetKey| #[trigger] t.contains_key(x) implies exists|j: int, h2: int|
                    0 <= j < prefix.len() && ((#[trigger] prefix[j]).adapter_id, prefix[j].id) == x
                        && matched_monitor(saved, current, key, prefix[j]) == Some(h2) && 0 <= h2
                        < current.len() && t[x] == ((#[trigger] current[h2]).adapter_id, current[h2].id) by {
                    if x == place {
                        assert(prefix[n] == m);
                    } else {
                        assert(r.contains_key(x));
                        let (j, h2) = choose|j: int, h2: int|
                            0 <= j < q.len() && ((#[trigger] q[j]).adapter_id, q[j].id) == x
                                && matched_monitor(saved, current, key, q[j]) == Some(h2) && 0 <= h2
                                < current.len() && r[x] == ((#[trigger] current[h2]).adapter_id, current[h2].id);
                        assert(prefix[j] == q[j]);
                    }
                }
            },
            None => {
                assert(t == r);
                if exists|i: int| 0 <= i < prefix.len() && matchable(saved, current, key, #[trigger] prefix[i]) {
                    let i = choose|i: int| 0 <= i < prefix.len() && matchable(saved, current, key, #[trigger] prefix[i]);
                    assert(i < n);
                    assert(q[i] == prefix[i]);
                }
                if forall|i: int| 0 <= i < prefix.len() ==> !matchable(saved, current, key, #[trigger] prefix[i]) {
                    assert forall|i: int| 0 <= i < q.len() implies !matchable(saved, current, key, #[trigger] q[i]) by {
                        assert(q[i] == prefix[i]);
                    }
                }
                assert forall|x: TargetKey| #[trigger] t.contains_key(x) implies exists|j: int, h2: int|
                    0 <= j < prefix.len() && ((#[trigger] prefix[j]).adapter_id, prefix[j].id) == x
                        && matched_monitor(saved, current, key, prefix[j]) == Some(h2) && 0 <= h2
                        < current.len() && t[x] == ((#[trigger] current[h2]).adapter_id, current[h2].id) by {
                    let (j, h2) = choose|j: int, h2: int|
                        0 <= j < q.len() && ((#[trigger] q[j]).adapter_id, q[j].id) == x
                            && matched_monitor(saved, current, key, q[j]) == Some(h2) && 0 <= h2
                            < current.len() && r[x] == ((#[trigger] current[h2]).adapter_id, current[h2].id);
                    assert(prefix[j] == q[j]);
                }
            },
        }
    }
}

/// Identity matching produces a candidate exactly when some saved monitor
/// can be matched: one whose key is present, not blank, and held by exactly
/// one monitor on each side.
pub proof fn law_identity_remap_needs_a_match(saved: ConfigModel, current: ConfigModel, key: IdentityKey)
    ensures
        remapped_by_identity(saved, current, key) is None <==> forall|i: int|
            0 <= i < saved.monitors.len() ==> !matchable(
                saved.monitors,
                current.monitors,
                key,
                #[trigger] saved.monitors[i],
            ),
{
    lemma_identity_targets(saved.monitors, saved.monitors, current.monitors, key);
}

/// Identity matching only moves target ids of matched monitors: the result
/// keeps the saved shape (paths, modes and monitors in order, flags and source
/// ids as saved), and a path's target id, a target mode's id or a monitor's
/// id differs from the saved one only where a matched saved monitor sits at
/// that (adapter, id), and then it is the id of the current monitor that
/// saved monitor is matched to. Source modes keep their ids.
pub proof fn law_identity_moves_only_matched_targets(saved: ConfigModel, current: ConfigModel, key: IdentityKey)
    ensures
        remapped_by_identity(saved, current, key) matches Some(out) ==> {
            &&& same_shape(out, saved)
            &&& forall|i: int|
                0 <= i < out.paths.len() ==> (#[trigger] out.paths[i]).target.id == saved.paths[i].target.id
                    || moved_to(
                    saved.monitors,
                    current.monitors,
                    key,
                    saved.paths[i].target.adapter_id,
                    saved.paths[i].target.id,
                    out.paths[i].target.id,
                )
            &&& forall|i: int|
                0 <= i < out.modes.len() ==> (#[trigger] out.modes[i]).id == saved.modes[i].id || (
                mode_is_target(saved.modes[i]) && moved_to(
                    saved.monitors,
                    current.monitors,
                    key,
                    saved.modes[i].adapter_id,
                    saved.modes[i].id,
                    out.modes[i].id,
                ))
            &&& forall|i: int|
                0 <= i < out.monitors.len() ==> (#[trigger] out.monitors[i]).id == saved.monitors[i].id
                    || moved_to(
                    saved.monitors,
                    current.monitors,
                    key,
                    saved.monitors[i].adapter_id,
                    saved.monitors[i].id,
                    out.monitors[i].id,
                )
        },
{
    let (t, a) = identity_maps(saved.monitors, saved.monitors, current.monitors, key);
    if let Some(out) = remapped_by_identity(saved, current, key) {
        lemma_identity_targets(saved.monitors, saved.monitors, current.monitors, key);
        lemma_retarget_shape(saved, t);
        lemma_relabel_shape(retarget(saved, t), saved, lookup_fn(a));
        let rt = retarget(saved, t);
        assert(out == relabel(rt, lookup_fn(a)));
        assert forall|i: int| 0 <= i < out.paths.len() implies (#[trigger] out.paths[i]).target.id
            == saved.paths[i].target.id || moved_to(
            saved.monitors,
            current.monitors,
            key,
            saved.paths[i].target.adapter_id,
            saved.paths[i].target.id,
            out.paths[i].target.id,
        ) by {
            let x = (saved.paths[i].target.adapter_id, saved.paths[i].target.id);
            assert(out.paths[i].target.id == rt.paths[i].target.id);
            if t.contains_key(x) {
                let (j, h) = choose|j: int, h: int|
                    0 <= j < saved.monitors.len() && ((#[trigger] saved.monitors[j]).adapter_id, saved.monitors[j].id) == x
                        && matched_monitor(saved.monitors, current.monitors, key, saved.monitors[j]) == Some(h)
                        && 0 <= h < current.monitors.len() && t[x] == ((#[trigger] current.monitors[h]).adapter_id, current.monitors[h].id);
                assert(current.monitors[h].id == out.paths[i].target.id);
            }
        }
        assert forall|i: int| 0 <= i < out.modes.len() implies (#[trigger] out.modes[i]).id == saved.modes[i].id
            || (mode_is_target(saved.modes[i]) && moved_to(
            saved.monitors,
            current.monitors,
            key,
            saved.modes[i].adapter_id,
            saved.modes[i].id,
            out.modes[i].id,
        )) by {
            let x = (saved.modes[i].adapter_id, saved.modes[i].id);
            assert(out.modes[i].id == rt.modes[i].id);
            if mode_is_target(saved.modes[i]) && t.contains_key(x) {
                let (j, h) = choose|j: int, h: int|
                    0 <= j < saved.monitors.len() && ((#[trigger] saved.monitors[j]).adapter_id, saved.monitors[j].id) == x
                        && matched_monitor(saved.monitors, current.monitors, key, saved.monitors[j]) == Some(h)
                        && 0 <= h < current.monitors.len() && t[x] == ((#[trigger] current.monitors[h]).adapter_id, current.monitors[h].id);
                assert(current.monitors[h].id == out.modes[i].id);
            }
        }
        assert forall|i: int| 0 <= i < out.monitors.len() implies (#[trigger] out.monitors[i]).id
            == saved.monitors[i].id || moved_to(
            saved.monitors,
            current.monitors,
            key,
            saved.monitors[i].adapter_id,
            saved.monitors[i].id,
            out.monitors[i].id,
        ) by {
            let x = (saved.monitors[i].adapter_id, saved.monitors[i].id);
            assert(out.monitors[i].id == rt.monitors[i].id);
            if t.contains_key(x) {
                let (j, h) = choose|j: int, h: int|
                    0 <= j < saved.monitors.len() && ((#[trigger] saved.monitors[j]).adapter_id, saved.monitors[j].id) == x
                        && matched_monitor(saved.monitors, current.monitors, key, saved.monitors[j]) == Some(h)
                        && 0 <= h < current.monitors.len() && t[x] == ((#[trigger] current.monitors[h]).adapter_id, current.monitors[h].id);
                assert(current.monitors[h].id == out.monitors[i].id);
            }
        }
    }
}

/// Collapsing onto the one adapter present leaves a configuration that names
/// that adapter and no other, and differs from the saved one only in its
/// adapter LUIDs. The strategy is offered only when exactly one adapter is
/// present and the saved configuration names some other one.
pub proof fn law_single_adapter_names_only_the_present_adapter(saved: ConfigModel, current: ConfigModel)
    ensures
        remapped_onto_single_adapter(saved, current) is None <==> (adapter_ids_of(current).len() != 1
            || forall|i: int|
            0 <= i < adapter_ids_of(saved).len() ==> #[trigger] adapter_ids_of(saved)[i]
                == adapter_ids_of(current)[0]),
        remapped_onto_single_adapter(saved, current) matches Some(out) ==> adapter_ids_of(out) == seq![
            adapter_ids_of(current)[0],
        ],
        remapped_onto_single_adapter(saved, current) matches Some(out) ==> out == relabel(
            saved,
            collapse_onto(adapter_ids_of(saved), adapter_ids_of(current)[0]),
        ),
{
    let now = adapter_ids_of(current);
    let ids = adapter_ids_of(saved);
    if let Some(out) = remapped_onto_single_adapter(saved, current) {
        let x = now[0];
        let f = collapse_onto(ids, x);
        let ms = crate::model::adapter_mentions(saved);
        crate::model::lemma_mentions_relabel(saved, f);
        // Every mention of the saved configuration is one of its adapters,
        // and each of those is sent to `x`.
        assert forall|i: int| 0 <= i < ms.map_values(f).len() implies ms.map_values(f)[i] == x by {
            crate::model::lemma_dedup_contains(ms, ms[i]);
            assert(ms.contains(ms[i]));
        }
        // Some saved adapter differs from `x`, so there is at least one mention.
        let j = choose|j: int| 0 <= j < ids.len() && ids[j] != x;
        crate::model::lemma_dedup_contains(ms, ids[j]);
        assert(ids.contains(ids[j]));
        crate::model::lemma_dedup_constant(ms.map_values(f), x);
    }
}

/// Where a strategy stands in the order candidates are tried.
pub open spec fn strategy_rank(s: Strategy) -> int {
    match s {
        Strategy::Verbatim => 0,
        Strategy::PathIds => 1,
        Strategy::DevicePath => 2,
        Strategy::FriendlyName => 3,
        Strategy::SingleAdapter => 4,
    }
}

/// What a strategy makes of the saved configuration on the current machine.
pub open spec fn remap_for(s: Strategy, saved: ConfigModel, current: ConfigModel) -> Option<ConfigModel> {
    match s {
        Strategy::Verbatim => Some(saved),
        Strategy::PathIds => remapped_by_path_ids(saved, current),
        Strategy::DevicePath => remapped_by_identity(saved, current, IdentityKey::DevicePath),
        Strategy::FriendlyName => remapped_by_identity(saved, current, IdentityKey::FriendlyName),
        Strategy::SingleAdapter => remapped_onto_single_adapter(saved, current),
    }
}

proof fn lemma_gather_order(
    saved: ConfigModel,
    current: ConfigModel,
    d: Seq<(Strategy, Option<ConfigModel>)>,
)
    requires
        forall|k: int|
            0 <= k < d.len() ==> strategy_rank((#[trigger] d[k]).0) == k + 1 && d[k].1 == remap_for(
                d[k].0,
                saved,
                current,
            ),
    ensures
        ({
            let g = gather(seq![(Strategy::Verbatim, saved)], d);
            &&& g.len() >= 1
            &&& g[0] == (Strategy::Verbatim, saved)
            &&& forall|i: int, j: int|
                0 <= i < j < g.len() ==> strategy_rank((#[trigger] g[i]).0) < strategy_rank(
                    (#[trigger] g[j]).0,
                )
            &&& forall|i: int|
                0 <= i < g.len() ==> strategy_rank((#[trigger] g[i]).0) <= d.len() && remap_for(
                    g[i].0,
                    saved,
                    current,
                ) == Some(g[i].1)
            &&& forall|k: int|
                #![trigger d[k]]
                0 <= k < d.len() ==> ((exists|i: int| 0 <= i < g.len() && (#[trigger] g[i]).0 == d[k].0)
                    <==> (d[k].1 matches Some(x) && forall|i: int|
                    0 <= i < g.len() && strategy_rank((#[trigger] g[i]).0) < k + 1 ==> g[i].1 != x))
        }),
    decreases d.len(),
{
    let base = seq![(Strategy::Verbatim, saved)];
    let g = gather(base, d);
    if d.len() == 0 {
        assert(g == base);
    } else {
        let q = d.drop_last();
        assert forall|k: int| 0 <= k < q.len() implies strategy_rank((#[trigger] q[k]).0) == k + 1
            && q[k].1 == remap_for(q[k].0, saved, current) by {
            assert(q[k] == d[k]);
        }
        lemma_gather_order(saved, current, q);
        let r = gather(base, q);
        let n = d.len() - 1;
        assert(d.last() == d[n]);
        assert forall|k: int| 0 <= k < n implies #[trigger] q[k] == d[k] by {}
        match d.last().1 {
            Some(c) => {
                if !configs_of(r).contains(c) {
                    assert(g == r.push((d[n].0, c)));
                    assert forall|i: int| 0 <= i < r.len() implies #[trigger] g[i] == r[i] by {}
                    assert(g[r.len() as int] == (d[n].0, c));
                    assert forall|k: int| #![trigger d[k]] 0 <= k < d.len() implies ((exists|i: int|
                        0 <= i < g.len() && (#[trigger] g[i]).0 == d[k].0) <==> (d[k].1 matches Some(x)
                        && forall|i: int|
                        0 <= i < g.len() && strategy_rank((#[trigger] g[i]).0) < k + 1 ==> g[i].1
                            != x)) by {
                        if k < n {
                            assert(q[k] == d[k]);
                            if exists|i: int| 0 <= i < g.len() && (#[trigger] g[i]).0 == d[k].0 {
                                let i = choose|i: int| 0 <= i < g.len() && (#[trigger] g[i]).0 == d[k].0;
                                assert(i < r.len());
                                assert(r[i].0 == q[k].0);
                            }
                            if exists|i: int| 0 <= i < r.len() && (#[trigger] r[i]).0 == q[k].0 {
                                let i = choose|i: int| 0 <= i < r.len() && (#[trigger] r[i]).0 == q[k].0;
                                assert(g[i].0 == d[k].0);
                            }
                            if let Some(x) = d[k].1 {
                                if exists|i: int|
                                    0 <= i < g.len() && strategy_rank((#[trigger] g[i]).0) < k + 1
                                        && g[i].1 == x {
                                    let i = choose|i: int|
                                        0 <= i < g.len() && strategy_rank((#[trigger] g[i]).0) < k + 1
                                            && g[i].1 == x;
                                    assert(i < r.len());
                                    assert(r[i] == g[i]);
                                }
                                if exists|i: int|
                                    0 <= i < r.len() && strategy_rank((#[trigger] r[i]).0) < k + 1
                                        && r[i].1 == x {
                                    let i = choose|i: int|
                                        0 <= i < r.len() && strategy_rank((#[trigger] r[i]).0) < k + 1
                                            && r[i].1 == x;
                                    assert(g[i] == r[i]);
                                }
                            }
                        } else {
                            assert(g[r.len() as int].0 == d[k].0);
                            assert forall|i: int|
                                0 <= i < g.len() && strategy_rank((#[trigger] g[i]).0) < k + 1 implies g[i].1
                                != c by {
                                assert(i < r.len());
                                assert(g[i] == r[i]);
                                assert(configs_of(r)[i] == r[i].1);
                            }
                        }
                    }
                } else {
                    assert(g == r);
                    let i0 = choose|i: int| 0 <= i < configs_of(r).len() && configs_of(r)[i] == c;
                    assert(r[i0].1 == c);
                    assert forall|k: int| #![trigger d[k]] 0 <= k < d.len() implies ((exists|i: int|
                        0 <= i < g.len() && (#[trigger] g[i]).0 == d[k].0) <==> (d[k].1 matches Some(x)
                        && forall|i: int|
                        0 <= i < g.len() && strategy_rank((#[trigger] g[i]).0) < k + 1 ==> g[i].1
                            != x)) by {
                        if k < n {
                            assert(q[k] == d[k]);
                        } else {
                            assert(strategy_rank(g[i0].0) < k + 1);
                            if exists|i: int| 0 <= i < g.len() && (#[trigger] g[i]).0 == d[k].0 {
                                let i = choose|i: int| 0 <= i < g.len() && (#[trigger] g[i]).0 == d[k].0;
                                assert(strategy_rank(g[i].0) <= n);
                            }
                        }
                    }
                }
            },
            None => {
                assert(g == r);
                assert forall|k: int| #![trigger d[k]] 0 <= k < d.len() implies ((exists|i: int|
                    0 <= i < g.len() && (#[trigger] g[i]).0 == d[k].0) <==> (d[k].1 matches Some(x)
                    && forall|i: int|
                    0 <= i < g.len() && strategy_rank((#[trigger] g[i]).0) < k + 1 ==> g[i].1 != x)) by {
                    if k < n {
                        assert(q[k] == d[k]);
                    } else {
                        if exists|i: int| 0 <= i < g.len() && (#[trigger] g[i]).0 == d[k].0 {
                            let i = choose|i: int| 0 <= i < g.len() && (#[trigger] g[i]).0 == d[k].0;
                            assert(strategy_rank(g[i].0) <= n);
                        }
                    }
                }
            },
        }
    }
}

/// Candidates come in the order their strategies are tried, each strategy at
/// most once, and each carries what its strategy makes of the saved
/// configuration. A remapping strategy is listed exactly when it produces a
/// configuration and that configuration is not already listed under an
/// earlier strategy.
pub proof fn law_candidates_follow_strategy_order(saved: ConfigModel, current: ConfigModel)
    ensures
        ({
            let c = candidate_list(saved, current);
            &&& forall|i: int, j: int|
                0 <= i < j < c.len() ==> strategy_rank((#[trigger] c[i]).0) < strategy_rank(
                    (#[trigger] c[j]).0,
                )
            &&& forall|i: int|
                0 <= i < c.len() ==> remap_for((#[trigger] c[i]).0, saved, current) == Some(c[i].1)
            &&& forall|s: Strategy|
                s != Strategy::Verbatim ==> ((exists|i: int| 0 <= i < c.len() && (#[trigger] c[i]).0 == s)
                    <==> (#[trigger] remap_for(s, saved, current) matches Some(x) && forall|i: int|
                    0 <= i < c.len() && strategy_rank((#[trigger] c[i]).0) < strategy_rank(s) ==> c[i].1
                        != x))
        }),
{
    let d = derived_candidates(saved, current);
    lemma_gather_order(saved, current, d);
    let c = candidate_list(saved, current);
    assert forall|s: Strategy| s != Strategy::Verbatim implies ((exists|i: int|
        0 <= i < c.len() && (#[trigger] c[i]).0 == s) <==> (#[trigger] remap_for(s, saved, current) matches Some(
        x,
    ) && forall|i: int|
        0 <= i < c.len() && strategy_rank((#[trigger] c[i]).0) < strategy_rank(s) ==> c[i].1 != x)) by {
        let k = strategy_rank(s) - 1;
        assert(0 <= k < d.len());
        assert(d[k].0 == s);
    }
}

// ---------------------------------------------------------------------------
// Applying: the decisions between calls into Windows
// ---------------------------------------------------------------------------

/// The Win32 status that means success.
pub const WIN32_SUCCESS: i32 = 0;

/// Did Windows accept the configuration?
pub fn is_success(status: i32) -> (b: bool)
    ensures
        b == (status == WIN32_SUCCESS),
{
    status == WIN32_SUCCESS
}

/// What to ask of Windows next, or how the attempt ended.
#[derive(Debug, Clone, Copy, PartialEq, Eq, Structural)]
pub enum Step {
    /// Ask whether candidate `index` would apply (`SDC_VALIDATE`), strictly
    /// or letting Windows adjust modes (`SDC_ALLOW_CHANGES`).
    Validate { index: usize, lenient: bool },
    /// Apply candidate `index`, strictly or leniently.
    Apply { index: usize, lenient: bool },
    /// A candidate went through.
    Succeeded(ApplyOutcome),
    /// Nothing went through; the last status Windows returned.
    Failed { last_status: i32 },
}

/// Where an apply stands.
#[derive(Debug, Clone, Copy, PartialEq, Eq, Structural)]
pub enum Phase {
    /// Waiting to hear whether candidate `i` validates strictly.
    CheckStrict(usize),
    /// Waiting to hear whether candidate `i`, validated strictly, applied.
    ApplyStrict(usize),
    /// Waiting to hear whether candidate `i` validates leniently.
    CheckLenient(usize),
    /// Waiting to hear whether the lenient fallback `f` applied.
    ApplyFallback(usize),
    /// Waiting to hear whether the direct, unvalidated attempt at candidate
    /// `i` (strict, then lenient) applied.
    Direct(usize, bool),
    /// Finished; nothing more to ask.
    Finished,
}

/// The state of an apply, as a value.
pub struct RunModel {
    pub strategies: Seq<Strategy>,
    pub phase: Phase,
    pub fallback: Option<usize>,
    pub last_status: i32,
    pub step: Step,
}

/// Try each candidate in turn, once the scan has reached candidate `i`.
pub open spec fn scan_from(r: RunModel, i: usize) -> RunModel {
    if i < r.strategies.len() {
        RunModel { phase: Phase::CheckStrict(i), step: Step::Validate { index: i, lenient: false }, ..r }
    } else {
        match r.fallback {
            Some(f) => RunModel {
                phase: Phase::ApplyFallback(f),
                step: Step::Apply { index: f, lenient: true },
                ..r
            },
            None => direct_from(r, 0),
        }
    }
}

/// Start the direct attempts at candidate `i`.
pub open spec fn direct_from(r: RunModel, i: usize) -> RunModel {
    if i < r.strategies.len() {
        RunModel { phase: Phase::Direct(i, false), step: Step::Apply { index: i, lenient: false }, ..r }
    } else {
        RunModel { phase: Phase::Finished, step: Step::Failed { last_status: r.last_status }, ..r }
    }
}

/// The state before anything has been asked.
pub open spec fn run_start(strategies: Seq<Strategy>) -> RunModel {
    scan_from(
        RunModel {
            strategies,
            phase: Phase::Finished,
            fallback: None,
            last_status: 0,
            step: Step::Failed { last_status: 0 },
        },
        0,
    )
}

pub open spec fn succeeded(r: RunModel, i: usize, lenient: bool) -> RunModel {
    RunModel {
        phase: Phase::Finished,
        step: Step::Succeeded(ApplyOutcome { strategy: r.strategies[i as int], lenient }),
        ..r
    }
}

/// Windows answered a validation.
pub open spec fn after_validation(r: RunModel, ok: bool) -> RunModel {
    match r.phase {
        Phase::CheckStrict(i) => if ok {
            RunModel { phase: Phase::ApplyStrict(i), step: Step::Apply { index: i, lenient: false }, ..r }
        } else if r.fallback is None {
            RunModel { phase: Phase::CheckLenient(i), step: Step::Validate { index: i, lenient: true }, ..r }
        } else {
            scan_from(r, (i + 1) as usize)
        },
        Phase::CheckLenient(i) => if ok {
            scan_from(RunModel { fallback: Some(i), ..r }, (i + 1) as usize)
        } else {
            scan_from(r, (i + 1) as usize)
        },
        _ => r,
    }
}

/// Windows answered an apply with `status`.
pub open spec fn after_apply(r: RunModel, status: i32) -> RunModel {
    match r.phase {
        Phase::ApplyStrict(i) => if status == WIN32_SUCCESS {
            succeeded(r, i, false)
        } else {
            scan_from(r, (i + 1) as usize)
        },
        Phase::ApplyFallback(f) => if status == WIN32_SUCCESS {
            succeeded(r, f, true)
        } else {
            direct_from(r, 0)
        },
        Phase::Direct(i, lenient) => if status == WIN32_SUCCESS {
            succeeded(r, i, lenient)
        } else if !lenient {
            RunModel {
                phase: Phase::Direct(i, true),
                step: Step::Apply { index: i, lenient: true },
                last_status: status,
                ..r
            }
        } else {
            direct_from(RunModel { last_status: status, ..r }, (i + 1) as usize)
        },
        _ => r,
    }
}

/// Every index the state mentions is a candidate.
pub open spec fn run_wf(r: RunModel) -> bool {
    let n = r.strategies.len();
    &&& n <= usize::MAX
    &&& match r.phase {
        Phase::CheckStrict(i) => i < n,
        Phase::ApplyStrict(i) => i < n,
        Phase::CheckLenient(i) => i < n && r.fallback is None,
        Phase::ApplyFallback(f) => f < n && r.fallback == Some(f),
        Phase::Direct(i, _) => i < n,
        Phase::Finished => true,
    }
    &&& match r.fallback {
        Some(f) => f < n,
        None => true,
    }
}

/// The step the run is waiting on; it strictly decreases with every answer
/// until the run is finished, so a run asks at most `5 n + 3` questions.
pub open spec fn run_measure(r: RunModel) -> nat {
    let n = r.strategies.len();
    match r.phase {
        Phase::CheckStrict(i) => (2 * n + 2 + 3 * (n - i) + 2) as nat,
        Phase::ApplyStrict(i) => (2 * n + 2 + 3 * (n - i) + 1) as nat,
        Phase::CheckLenient(i) => (2 * n + 2 + 3 * (n - i) + 1) as nat,
        Phase::ApplyFallback(_) => (2 * n + 1) as nat,
        Phase::Direct(i, lenient) => if lenient {
            (2 * (n - i) - 1) as nat
        } else {
            (2 * (n - i)) as nat
        },
        Phase::Finished => 0,
    }
}

/// The state of an apply, held without its invariant so it can be updated
/// field by field.
struct RunState {
    strategies: Vec<Strategy>,
    phase: Phase,
    fallback: Option<usize>,
    last_status: i32,
    step: Step,
}

impl View for RunState {
    type V = RunModel;

    closed spec fn view(&self) -> RunModel {
        RunModel {
            strategies: self.strategies@,
            phase: self.phase,
            fallback: self.fallback,
            last_status: self.last_status,
            step: self.step,
        }
    }
}

impl RunState {
    fn scan_from(&mut self, i: usize)
        requires
            i <= old(self).strategies.len(),
            match old(self).fallback {
                Some(f) => f < old(self).strategies.len(),
                None => true,
            },
        ensures
            final(self)@ == scan_from(old(self)@, i),
    {
        if i < self.strategies.len() {
            self.phase = Phase::CheckStrict(i);
            self.step = Step::Validate { index: i, lenient: false };
        } else {
            match self.fallback {
                Some(f) => {
                    self.phase = Phase::ApplyFallback(f);
                    self.step = Step::Apply { index: f, lenient: true };
                },
                None => self.direct_from(0),
            }
        }
    }

    fn direct_from(&mut self, i: usize)
        ensures
            final(self)@ == direct_from(old(self)@, i),
    {
        if i < self.strategies.len() {
            self.phase = Phase::Direct(i, false);
            self.step = Step::Apply { index: i, lenient: false };
        } else {
            self.phase = Phase::Finished;
            self.step = Step::Failed { last_status: self.last_status };
        }
    }

    /// Start applying: the first question for Windows.
    fn new(candidates: &Vec<Candidate>) -> (run: RunState)
        ensures
            run@ == run_start(candidate_views(candidates@).map_values(
                |c: (Strategy, ConfigModel)| c.0,
            )),
            run_wf(run@),
    {
        let mut strategies: Vec<Strategy> = Vec::new();
        let mut i: usize = 0;
        while i < candidates.len()
            invariant
                i <= candidates.len(),
                strategies@ == candidate_views(candidates@).take(i as int).map_values(
                    |c: (Strategy, ConfigModel)| c.0,
                ),
            decreases candidates.len() - i,
        {
            strategies.push(candidates[i].strategy);
            assert(strategies@ =~= candidate_views(candidates@).take(i + 1).map_values(
                |c: (Strategy, ConfigModel)| c.0,
            ));
            i = i + 1;
        }
        assert(candidate_views(candidates@).take(candidates.len() as int) =~= candidate_views(
            candidates@,
        ));
        let mut run = RunState {
            strategies,
            phase: Phase::Finished,
            fallback: None,
            last_status: 0,
            step: Step::Failed { last_status: 0 },
        };
        run.scan_from(0);
        run
    }

    /// Windows said whether the last validation passed.
    fn validated(&mut self, ok: bool) -> (s: Step)
        requires
            run_wf(old(self)@),
        ensures
            final(self)@ == after_validation(old(self)@, ok),
            run_wf(final(self)@),
            s == final(self)@.step,
    {
        let n = self.strategies.len();
        match self.phase {
            Phase::CheckStrict(i) => {
                assert(i < n);
                if ok {
                    self.phase = Phase::ApplyStrict(i);
                    self.step = Step::Apply { index: i, lenient: false };
                } else if self.fallback.is_none() {
                    self.phase = Phase::CheckLenient(i);
                    self.step = Step::Validate { index: i, lenient: true };
                } else {
                    self.scan_from(i + 1);
                }
            },
            Phase::CheckLenient(i) => {
                assert(i < n);
                if ok {
                    self.fallback = Some(i);
                }
                self.scan_from(i + 1);
            },
            _ => {},
        }
        self.step
    }

    /// Windows answered the last apply with `status`.
    fn applied(&mut self, status: i32) -> (s: Step)
        requires
            run_wf(old(self)@),
        ensures
            final(self)@ == after_apply(old(self)@, status),
            run_wf(final(self)@),
            s == final(self)@.step,
    {
        let n = self.strategies.len();
        match self.phase {
            Phase::ApplyStrict(i) => {
                assert(i < n);
                if is_success(status) {
                    self.phase = Phase::Finished;
                    self.step = Step::Succeeded(ApplyOutcome { strategy: self.strategies[i], lenient: false });
                } else {
                    self.scan_from(i + 1);
                }
            },
            Phase::ApplyFallback(f) => {
                if is_success(status) {
                    self.phase = Phase::Finished;
                    self.step = Step::Succeeded(ApplyOutcome { strategy: self.strategies[f], lenient: true });
                } else {
                    self.direct_from(0);
                }
            },
            Phase::Direct(i, lenient) => {
                assert(i < n);
                if is_success(status) {
                    self.phase = Phase::Finished;
                    self.step = Step::Succeeded(ApplyOutcome { strategy: self.strategies[i], lenient });
                } else if !lenient {
                    self.last_status = status;
                    self.phase = Phase::Direct(i, true);
                    self.step = Step::Apply { index: i, lenient: true };
                } else {
                    self.last_status = status;
                    self.direct_from(i + 1);
                }
            },
            _ => {},
        }
        self.step
    }
}

/// An attempt to apply a saved configuration, driven by Windows' answers.
///
/// Every candidate is validated before anything is applied, so a strategy
/// Windows would reject never reaches the screen. Strict candidates are
/// preferred over lenient ones across the board: a later strategy that
/// reproduces the saved modes exactly beats an earlier one that only fits
/// after Windows adjusts it. If nothing validates, each candidate is tried
/// directly, strictly and then leniently, before giving up, because Windows
/// sometimes accepts at apply time what it rejected at validate time.
pub struct ApplyRun {
    state: RunState,
}

impl View for ApplyRun {
    type V = RunModel;

    closed spec fn view(&self) -> RunModel {
        self.state@
    }
}

impl ApplyRun {
    #[verifier::type_invariant]
    closed spec fn wf(self) -> bool {
        run_wf(self.state@)
    }

    /// Start applying: the first question for Windows.
    pub fn new(candidates: &Vec<Candidate>) -> (run: ApplyRun)
        ensures
            run@ == run_start(candidate_views(candidates@).map_values(
                |c: (Strategy, ConfigModel)| c.0,
            )),
            run_wf(run@),
    {
        ApplyRun { state: RunState::new(candidates) }
    }

    /// The question the run is waiting on, or how it ended.
    pub fn step(&self) -> (s: Step)
        ensures
            s == self@.step,
    {
        self.state.step
    }

    /// A finished run with nothing to try, to stand in while the real one is
    /// being updated.
    fn placeholder() -> (st: RunState)
        ensures
            run_wf(st@),
    {
        RunState {
            strategies: Vec::new(),
            phase: Phase::Finished,
            fallback: None,
            last_status: 0,
            step: Step::Failed { last_status: 0 },
        }
    }

    /// Windows said whether the last validation passed.
    pub fn validated(&mut self, ok: bool) -> (s: Step)
        ensures
            final(self)@ == after_validation(old(self)@, ok),
            run_wf(final(self)@),
            s == final(self)@.step,
    {
        proof {
            use_type_invariant(&*self);
        }
        let mut st = ApplyRun::placeholder();
        std::mem::swap(&mut st, &mut self.state);
        let s = st.validated(ok);
        self.state = st;
        s
    }

    /// Windows answered the last apply with `status`.
    pub fn applied(&mut self, status: i32) -> (s: Step)
        ensures
            final(self)@ == after_apply(old(self)@, status),
            run_wf(final(self)@),
            s == final(self)@.step,
    {
        proof {
            use_type_invariant(&*self);
        }
        let mut st = ApplyRun::placeholder();
        std::mem::swap(&mut st, &mut self.state);
        let s = st.applied(status);
        self.state = st;
        s
    }
}

/// Apply a saved configuration to the machine whose current configuration
/// is `current`: build the candidates and start the run that decides what
/// to ask Windows.
pub fn apply(saved: &DisplayConfig, current: &DisplayConfig) -> (out: (Vec<Candidate>, ApplyRun))
    ensures
        candidate_views(out.0@) == candidate_list(saved@, current@),
        out.1@ == run_start(candidate_list(saved@, current@).map_values(
            |c: (Strategy, ConfigModel)| c.0,
        )),
        run_wf(out.1@),
{
    let candidates = candidates(saved, current);
    let run = ApplyRun::new(&candidates);
    (candidates, run)
}

/// What a dry run reports for one candidate: its strategy, and whether it
/// only validates leniently. `checks` holds, per candidate, whether it
/// validated strictly and, only when it did not, whether it validated
/// leniently; answers beyond the last candidate are ignored.
pub open spec fn preflight_report(strategies: Seq<Strategy>, checks: Seq<(bool, bool)>) -> Seq<
    (Strategy, bool),
>
    decreases checks.len(),
{
    if checks.len() == 0 {
        Seq::empty()
    } else {
        let rest = preflight_report(strategies, checks.drop_last());
        let i = checks.len() - 1;
        if i >= strategies.len() {
            rest
        } else if checks.last().0 {
            rest.push((strategies[i], false))
        } else if checks.last().1 {
            rest.push((strategies[i], true))
        } else {
            rest
        }
    }
}

/// Which strategies would apply cleanly, without applying any of them.
///
/// `checks[i]` is what `SDC_VALIDATE` said of candidate `i`: strictly, and
/// (asked only when that failed) leniently. The report lists, in candidate
/// order, each candidate that validated, marked lenient when only the lenient
/// validation passed.
pub fn preflight(candidates: &Vec<Candidate>, checks: &Vec<(bool, bool)>) -> (out: Vec<(Strategy, bool)>)
    ensures
        out@ == preflight_report(
            candidate_views(candidates@).map_values(|c: (Strategy, ConfigModel)| c.0),
            checks@,
        ),
{
    let ghost strategies = candidate_views(candidates@).map_values(|c: (Strategy, ConfigModel)| c.0);
    let mut out: Vec<(Strategy, bool)> = Vec::new();
    let mut i: usize = 0;
    assert(checks@.take(0) =~= Seq::<(bool, bool)>::empty());
    while i < checks.len()
        invariant
            i <= checks.len(),
            strategies == candidate_views(candidates@).map_values(|c: (Strategy, ConfigModel)| c.0),
            out@ == preflight_report(strategies, checks@.take(i as int)),
        decreases checks.len() - i,
    {
        assert(checks@.take(i + 1).drop_last() =~= checks@.take(i as int));
        let (strict, lenient) = checks[i];
        if i >= candidates.len() {
        } else if strict {
            assert(strategies[i as int] == candidates@[i as int].strategy);
            out.push((candidates[i].strategy, false));
        } else if lenient {
            assert(strategies[i as int] == candidates@[i as int].strategy);
            out.push((candidates[i].strategy, true));
        }
        i = i + 1;
    }
    assert(checks@.take(checks.len() as int) =~= checks@);
    out
}

/// `idx` says which candidate each entry of the report is about: the `k`th
/// entry is about candidate `idx[k]`, the candidates reported come in order,
/// every candidate that validated (strictly or leniently) is reported, and an
/// entry is marked lenient exactly when the strict validation of its
/// candidate failed.
/// Did the candidate validate, strictly or leniently?
pub open spec fn validated(check: (bool, bool)) -> bool {
    check.0 || check.1
}

/// A report entry about candidate `i`: its strategy, marked lenient exactly
/// when the strict validation failed, for a candidate that validated.
pub open spec fn entry_about(
    strategies: Seq<Strategy>,
    checks: Seq<(bool, bool)>,
    entry: (Strategy, bool),
    i: int,
) -> bool {
    &&& 0 <= i
    &&& i < checks.len()
    &&& i < strategies.len()
    &&& validated(checks[i])
    &&& entry == (strategies[i], !checks[i].0)
}

pub open spec fn reports_candidates(
    strategies: Seq<Strategy>,
    checks: Seq<(bool, bool)>,
    report: Seq<(Strategy, bool)>,
    idx: Seq<int>,
) -> bool {
    &&& idx.len() == report.len()
    &&& forall|k: int|
        #![trigger idx[k]]
        0 <= k < idx.len() ==> entry_about(strategies, checks, report[k], idx[k])
    &&& forall|k: int, l: int| 0 <= k < l < idx.len() ==> #[trigger] idx[k] < #[trigger] idx[l]
    &&& forall|i: int|
        #![trigger checks[i]]
        0 <= i < checks.len() && i < strategies.len() && validated(checks[i]) ==> idx.contains(i)
}

/// A dry run reports each candidate that validated, in candidate order, and
/// marks it lenient exactly when its strict validation failed: a candidate
/// that validated strictly is never reported as needing lenient changes.
pub proof fn law_dry_run_marks_only_lenient_passes(strategies: Seq<Strategy>, checks: Seq<(bool, bool)>)
    ensures
        exists|idx: Seq<int>| reports_candidates(strategies, checks, preflight_report(strategies, checks), idx),
    decreases checks.len(),
{
    let r = preflight_report(strategies, checks);
    if checks.len() == 0 {
        let idx = Seq::<int>::empty();
        assert(reports_candidates(strategies, checks, r, idx));
    } else {
        let d = checks.drop_last();
        law_dry_run_marks_only_lenient_passes(strategies, d);
        let rd = preflight_report(strategies, d);
        let idx0 = choose|idx: Seq<int>| reports_candidates(strategies, d, rd, idx);
        assert(reports_candidates(strategies, d, rd, idx0));
        let n = checks.len() - 1;
        assert forall|i: int| 0 <= i < n implies #[trigger] d[i] == checks[i] by {}
        assert(checks.last() == checks[n]);
        if n < strategies.len() && (checks[n].0 || checks[n].1) {
            let idx = idx0.push(n);
            assert(r == rd.push((strategies[n], !checks[n].0)));
            assert forall|k: int| #![trigger idx[k]] 0 <= k < idx.len() implies entry_about(strategies, checks, r[k], idx[k]) by {
                if k < idx0.len() {
                    assert(idx[k] == idx0[k]);
                    assert(d[idx0[k]] == checks[idx0[k]]);
                }
            }
            assert forall|k: int, l: int| 0 <= k < l < idx.len() implies #[trigger] idx[k] < #[trigger] idx[l] by {
                assert(idx[k] == idx0[k]);
                if l < idx0.len() {
                    assert(idx[l] == idx0[l]);
                }
            }
            assert forall|i: int|
                #![trigger checks[i]]
                0 <= i < checks.len() && i < strategies.len() && validated(checks[i]) implies idx.contains(i) by {
                if i < n {
                    assert(d[i] == checks[i]);
                    assert(validated(d[i]));
                    assert(idx0.contains(i));
                    let k = choose|k: int| 0 <= k < idx0.len() && idx0[k] == i;
                    assert(idx[k] == i);
                } else {
                    assert(idx[idx0.len() as int] == i);
                }
            }
            assert(reports_candidates(strategies, checks, r, idx));
        } else {
            assert(r == rd);
            assert forall|k: int| #![trigger idx0[k]] 0 <= k < idx0.len() implies entry_about(strategies, checks, r[k], idx0[k]) by {
                assert(d[idx0[k]] == checks[idx0[k]]);
            }
            assert forall|i: int|
                #![trigger checks[i]]
                0 <= i < checks.len() && i < strategies.len() && validated(checks[i]) implies idx0.contains(i) by {
                assert(i < n);
                assert(d[i] == checks[i]);
                assert(validated(d[i]));
            }
            assert(reports_candidates(strategies, checks, r, idx0));
        }
    }
}

/// The run is waiting for Windows to answer a validation.
pub open spec fn awaits_validation(r: RunModel) -> bool {
    r.phase is CheckStrict || r.phase is CheckLenient
}

/// The run is waiting for Windows to answer an apply.
pub open spec fn awaits_apply(r: RunModel) -> bool {
    r.phase is ApplyStrict || r.phase is ApplyFallback || r.phase is Direct
}

/// Every answer brings the run closer to its end: the measure drops, so a
/// run over `n` candidates asks Windows at most `5 n + 4` questions.
pub proof fn law_run_terminates(r: RunModel, ok: bool, status: i32)
    requires
        run_wf(r),
    ensures
        run_measure(run_start(r.strategies)) <= 5 * r.strategies.len() + 4,
        awaits_validation(r) ==> run_measure(after_validation(r, ok)) < run_measure(r),
        awaits_apply(r) ==> run_measure(after_apply(r, status)) < run_measure(r),
{
    let n = r.strategies.len();
    match r.phase {
        Phase::CheckStrict(i) => {
            let next = scan_from(r, (i + 1) as usize);
            let next2 = scan_from(RunModel { fallback: Some(i), ..r }, (i + 1) as usize);
            assert(run_measure(next) < run_measure(r));
        },
        Phase::CheckLenient(i) => {
            let next = scan_from(r, (i + 1) as usize);
            let next2 = scan_from(RunModel { fallback: Some(i), ..r }, (i + 1) as usize);
            assert(run_measure(next) < run_measure(r));
            assert(run_measure(next2) < run_measure(r));
        },
        Phase::ApplyStrict(i) => {
            let next = scan_from(r, (i + 1) as usize);
            assert(run_measure(next) < run_measure(r));
        },
        Phase::ApplyFallback(f) => {
            assert(run_measure(direct_from(r, 0)) < run_measure(r));
        },
        Phase::Direct(i, lenient) => {
            let r2 = RunModel { last_status: status, ..r };
            assert(run_measure(direct_from(r2, (i + 1) as usize)) < run_measure(r));
        },
        Phase::Finished => {},
    }
}

/// A strict apply is only ever asked for right after the same candidate
/// validated strictly, and a lenient fallback only for the candidate whose
/// lenient validation passed: in those phases nothing Windows would reject
/// reaches the screen.
pub proof fn law_apply_follows_validation(r: RunModel, ok: bool, status: i32, i: usize)
    requires
        run_wf(r),
    ensures
        awaits_validation(r) && after_validation(r, ok).phase == Phase::ApplyStrict(i) ==> ok
            && r.phase == Phase::CheckStrict(i),
        awaits_apply(r) ==> !(after_apply(r, status).phase is ApplyStrict),
        awaits_validation(r) && after_validation(r, ok).fallback != r.fallback ==> ok && r.phase
            == Phase::CheckLenient(i) ==> after_validation(r, ok).fallback == Some(i),
        awaits_validation(r) && after_validation(r, ok).fallback != r.fallback ==> ok
            && r.phase is CheckLenient && r.fallback is None,
        awaits_apply(r) ==> after_apply(r, status).fallback == r.fallback,
        after_validation(r, ok).phase == Phase::ApplyFallback(i) ==> after_validation(
            r,
            ok,
        ).fallback == Some(i),
        after_apply(r, status).phase == Phase::ApplyFallback(i) ==> after_apply(
            r,
            status,
        ).fallback == Some(i),
{
}

/// Strict before lenient, across the board: the lenient fallback and the
/// direct attempts start only once the last candidate has had its strict
/// chance.
pub proof fn law_strict_candidates_first(r: RunModel, ok: bool, status: i32)
    requires
        run_wf(r),
        r.phase is CheckStrict || r.phase is CheckLenient || r.phase is ApplyStrict,
    ensures
        ({
            let next = after_validation(r, ok);
            (next.phase is ApplyFallback || next.phase is Direct) ==> match r.phase {
                Phase::CheckStrict(i) => i + 1 == r.strategies.len(),
                Phase::CheckLenient(i) => i + 1 == r.strategies.len(),
                _ => true,
            }
        }),
        ({
            let next = after_apply(r, status);
            (next.phase is ApplyFallback || next.phase is Direct) ==> match r.phase {
                Phase::ApplyStrict(i) => i + 1 == r.strategies.len(),
                _ => true,
            }
        }),
{
}

/// The outcome of the apply the run is waiting on, should Windows accept it.
pub open spec fn attempted_outcome(r: RunModel) -> ApplyOutcome {
    match r.phase {
        Phase::ApplyStrict(i) => ApplyOutcome { strategy: r.strategies[i as int], lenient: false },
        Phase::ApplyFallback(f) => ApplyOutcome { strategy: r.strategies[f as int], lenient: true },
        Phase::Direct(i, lenient) => ApplyOutcome { strategy: r.strategies[i as int], lenient },
        _ => ApplyOutcome { strategy: Strategy::Verbatim, lenient: false },
    }
}

pub open spec fn failed_with(status: i32) -> Step {
    Step::Failed { last_status: status }
}

pub open spec fn last_direct_attempt(r: RunModel) -> Phase {
    Phase::Direct((r.strategies.len() - 1) as usize, true)
}

/// The run reports success only for an apply Windows accepted, naming the
/// candidate and the leniency it was asked for; it reports failure only
/// after the last direct attempt failed, with that attempt's status.
pub proof fn law_outcome_is_what_windows_accepted(r: RunModel, status: i32)
    requires
        run_wf(r),
        awaits_apply(r),
    ensures
        (after_apply(r, status).step is Succeeded) ==> (status == WIN32_SUCCESS && after_apply(
            r,
            status,
        ).step == Step::Succeeded(attempted_outcome(r))),
        (after_apply(r, status).step is Failed) ==> (status != WIN32_SUCCESS && after_apply(
            r,
            status,
        ).step == failed_with(status) && r.phase == last_direct_attempt(r)),
{
}

/// A validation answer never ends a run: at worst it moves on to the next
/// question.
pub proof fn law_validation_never_ends_the_run(r: RunModel, ok: bool)
    requires
        run_wf(r),
        awaits_validation(r),
    ensures
        after_validation(r, ok).phase != Phase::Finished,
{
}

} // verus!
