//! Plain-data mirrors of the Windows CCD structures.
//!
//! These are what a saved profile holds. They round-trip losslessly to and
//! from the Win32 types, and every rule about which monitors a configuration
//! lights up, and how adapters are renamed, is stated over them.

use vstd::prelude::*;

use crate::settings::NameMap;
use crate::text::{
    decimal, insert_sorted, is_blank, lemma_sorted_same_set_equal, push_decimal, push_str, str_eq,
    str_is_blank, strictly_sorted, views,
};

verus! {

/// Locally unique adapter identifier.
///
/// Windows reassigns these on every boot and on GPU driver changes. Every
/// remapping strategy in `apply` exists to deal with that.
#[derive(Debug, Clone, Copy, PartialEq, Eq, Hash, Structural)]
pub struct Luid {
    pub low: u32,
    pub high: i32,
}

#[derive(Debug, Clone, Copy, PartialEq, Eq, Default, Structural)]
pub struct Rational {
    pub numerator: u32,
    pub denominator: u32,
}

#[derive(Debug, Clone, Copy, PartialEq, Eq, Default, Structural)]
pub struct Region2D {
    pub cx: u32,
    pub cy: u32,
}

#[derive(Debug, Clone, Copy, PartialEq, Eq, Default, Structural)]
pub struct Point {
    pub x: i32,
    pub y: i32,
}

#[derive(Debug, Clone, Copy, PartialEq, Eq, Default, Structural)]
pub struct Rect {
    pub left: i32,
    pub top: i32,
    pub right: i32,
    pub bottom: i32,
}

/// Sentinel meaning "this path has no associated mode info entry".
pub const MODE_IDX_INVALID: u32 = 0xffff_ffff;

/// `DISPLAYCONFIG_PATH_ACTIVE`: the path is part of the active topology.
pub const PATH_ACTIVE: u32 = 0x0000_0001;

#[derive(Debug, Clone, Copy, PartialEq, Eq, Structural)]
pub struct PathSourceInfo {
    pub adapter_id: Luid,
    pub id: u32,
    /// Raw union value. Depending on the `SDC_VIRTUAL_MODE_AWARE` flag this is
    /// either a plain mode index or a packed (cloneGroupId, sourceModeInfoIdx)
    /// pair. Storing it raw preserves both readings.
    pub mode_info_idx: u32,
    pub status_flags: u32,
}

#[derive(Debug, Clone, Copy, PartialEq, Eq, Structural)]
pub struct PathTargetInfo {
    pub adapter_id: Luid,
    pub id: u32,
    /// Raw union value; see [`PathSourceInfo::mode_info_idx`].
    pub mode_info_idx: u32,
    pub output_technology: i32,
    pub rotation: i32,
    pub scaling: i32,
    pub refresh_rate: Rational,
    pub scanline_ordering: i32,
    pub target_available: bool,
    pub status_flags: u32,
}

#[derive(Debug, Clone, Copy, PartialEq, Eq, Structural)]
pub struct PathInfo {
    pub source: PathSourceInfo,
    pub target: PathTargetInfo,
    pub flags: u32,
}

#[derive(Debug, Clone, Copy, PartialEq, Eq, Structural)]
pub struct VideoSignalInfo {
    pub pixel_rate: u64,
    pub h_sync_freq: Rational,
    pub v_sync_freq: Rational,
    pub active_size: Region2D,
    pub total_size: Region2D,
    /// Raw union value: `videoStandard` overlapped with a bitfield carrying
    /// vSyncFreqDivider. Kept raw for the same reason as `mode_info_idx`.
    pub video_standard: u32,
    pub scanline_ordering: i32,
}

#[derive(Debug, Clone, Copy, PartialEq, Eq, Structural)]
pub struct SourceMode {
    pub width: u32,
    pub height: u32,
    pub pixel_format: i32,
    pub position: Point,
}

#[derive(Debug, Clone, Copy, PartialEq, Eq, Structural)]
pub struct TargetMode {
    pub video_signal_info: VideoSignalInfo,
}

#[derive(Debug, Clone, Copy, PartialEq, Eq, Structural)]
pub struct DesktopImageInfo {
    pub path_source_size: Point,
    pub desktop_image_region: Rect,
    pub desktop_image_clip: Rect,
}

/// Which arm of the `DISPLAYCONFIG_MODE_INFO` union is live, tagged by the
/// structure's own `infoType` field.
#[derive(Debug, Clone, Copy, PartialEq, Eq, Structural)]
pub enum ModeKind {
    Source(SourceMode),
    Target(TargetMode),
    DesktopImage(DesktopImageInfo),
}

#[derive(Debug, Clone, Copy, PartialEq, Eq, Structural)]
pub struct ModeInfo {
    pub id: u32,
    pub adapter_id: Luid,
    pub mode: ModeKind,
}

/// Human-facing identity of a monitor, from `DISPLAYCONFIG_TARGET_DEVICE_NAME`.
///
/// `device_path` is the stable one: it encodes the EDID and survives reboots
/// and port changes. `friendly_name` is what the user recognizes.
#[derive(Debug)]
pub struct MonitorInfo {
    pub adapter_id: Luid,
    pub id: u32,
    pub friendly_name: Option<String>,
    pub device_path: Option<String>,
    pub output_technology: i32,
    pub edid_manufacture_id: u16,
    pub edid_product_code_id: u16,
    pub connector_instance: u32,
}

/// A complete display topology: what Windows hands back from
/// `QueryDisplayConfig`, plus the monitor identities needed to re-match it
/// against a different boot.
#[derive(Debug)]
pub struct DisplayConfig {
    pub paths: Vec<PathInfo>,
    pub modes: Vec<ModeInfo>,
    pub monitors: Vec<MonitorInfo>,
}

// ---------------------------------------------------------------------------
// Mathematical models
// ---------------------------------------------------------------------------

/// A monitor identity with its strings taken as character sequences.
#[verifier::ext_equal]
pub struct MonitorModel {
    pub adapter_id: Luid,
    pub id: u32,
    pub friendly_name: Option<Seq<char>>,
    pub device_path: Option<Seq<char>>,
    pub output_technology: i32,
    pub edid_manufacture_id: u16,
    pub edid_product_code_id: u16,
    pub connector_instance: u32,
}

/// A display configuration as three sequences.
#[verifier::ext_equal]
pub struct ConfigModel {
    pub paths: Seq<PathInfo>,
    pub modes: Seq<ModeInfo>,
    pub monitors: Seq<MonitorModel>,
}

pub open spec fn opt_view(o: Option<String>) -> Option<Seq<char>> {
    match o {
        Some(s) => Some(s@),
        None => None,
    }
}

impl View for MonitorInfo {
    type V = MonitorModel;

    open spec fn view(&self) -> MonitorModel {
        MonitorModel {
            adapter_id: self.adapter_id,
            id: self.id,
            friendly_name: opt_view(self.friendly_name),
            device_path: opt_view(self.device_path),
            output_technology: self.output_technology,
            edid_manufacture_id: self.edid_manufacture_id,
            edid_product_code_id: self.edid_product_code_id,
            connector_instance: self.connector_instance,
        }
    }
}

pub open spec fn monitor_views(ms: Seq<MonitorInfo>) -> Seq<MonitorModel> {
    ms.map_values(|m: MonitorInfo| m@)
}

impl View for DisplayConfig {
    type V = ConfigModel;

    open spec fn view(&self) -> ConfigModel {
        ConfigModel { paths: self.paths@, modes: self.modes@, monitors: monitor_views(self.monitors@) }
    }
}

/// Is this path part of the active topology?
pub open spec fn path_is_active(p: PathInfo) -> bool {
    p.flags & PATH_ACTIVE != 0
}

pub open spec fn mode_is_source(m: ModeInfo) -> bool {
    m.mode is Source
}

pub open spec fn mode_is_target(m: ModeInfo) -> bool {
    m.mode is Target
}

/// The best available label: the friendly name unless it is missing or
/// blank, otherwise "Display" and the target id.
pub open spec fn label_of(m: MonitorModel) -> Seq<char> {
    match m.friendly_name {
        Some(n) if !is_blank(n) => n,
        _ => "Display "@ + decimal(m.id as nat),
    }
}

/// Does this monitor identity sit at the given adapter and target id?
pub open spec fn monitor_at(m: MonitorModel, adapter: Luid, id: u32) -> bool {
    m.id == id && m.adapter_id == adapter
}

/// Index of the first monitor at the given adapter and target id.
pub open spec fn find_monitor(ms: Seq<MonitorModel>, adapter: Luid, id: u32) -> Option<int>
    decreases ms.len(),
{
    if ms.len() == 0 {
        None
    } else {
        match find_monitor(ms.drop_last(), adapter, id) {
            Some(i) => Some(i),
            None => if monitor_at(ms.last(), adapter, id) {
                Some(ms.len() - 1)
            } else {
                None
            },
        }
    }
}

/// The monitors behind the active paths, in path order; an active path with
/// no recorded identity contributes nothing.
pub open spec fn active_monitors_of(paths: Seq<PathInfo>, ms: Seq<MonitorModel>) -> Seq<
    MonitorModel,
>
    decreases paths.len(),
{
    if paths.len() == 0 {
        Seq::empty()
    } else {
        let rest = active_monitors_of(paths.drop_last(), ms);
        let p = paths.last();
        if path_is_active(p) {
            match find_monitor(ms, p.target.adapter_id, p.target.id) {
                Some(k) => rest.push(ms[k]),
                None => rest,
            }
        } else {
            rest
        }
    }
}

pub open spec fn active_monitors(c: ConfigModel) -> Seq<MonitorModel> {
    active_monitors_of(c.paths, c.monitors)
}

/// How many paths are active.
pub open spec fn count_active(paths: Seq<PathInfo>) -> nat
    decreases paths.len(),
{
    if paths.len() == 0 {
        0
    } else {
        count_active(paths.drop_last()) + if path_is_active(paths.last()) {
            1nat
        } else {
            0nat
        }
    }
}

/// How many times `x` occurs in `s`.
pub open spec fn occurrences(s: Seq<Seq<char>>, x: Seq<char>) -> nat
    decreases s.len(),
{
    if s.len() == 0 {
        0
    } else {
        occurrences(s.drop_last(), x) + if s.last() == x {
            1nat
        } else {
            0nat
        }
    }
}

/// The label at position `i`, with a "#n" suffix when the same label occurs
/// more than once: `n` counts the occurrences up to and including this one.
pub open spec fn disambiguated(labels: Seq<Seq<char>>, i: int) -> Seq<char> {
    let l = labels[i];
    if occurrences(labels, l) < 2 {
        l
    } else {
        l + " #"@ + decimal(occurrences(labels.take(i + 1), l))
    }
}

pub open spec fn disambiguate_all(labels: Seq<Seq<char>>) -> Seq<Seq<char>> {
    Seq::new(labels.len(), |i: int| disambiguated(labels, i))
}

pub open spec fn active_labels(c: ConfigModel) -> Seq<Seq<char>> {
    disambiguate_all(active_monitors(c).map_values(|m: MonitorModel| label_of(m)))
}

/// The label a monitor is shown under: its nickname when it has one,
/// otherwise its best available label.
pub open spec fn label_with_of(m: MonitorModel, nicknames: Map<Seq<char>, Seq<char>>) -> Seq<char> {
    if nicknames.contains_key(identity_key(m)) {
        nicknames[identity_key(m)]
    } else {
        label_of(m)
    }
}

/// The labels of the active monitors, nicknames applied, repeats numbered.
pub open spec fn active_labels_with(c: ConfigModel, nicknames: Map<Seq<char>, Seq<char>>) -> Seq<
    Seq<char>,
> {
    disambiguate_all(active_monitors(c).map_values(|m: MonitorModel| label_with_of(m, nicknames)))
}

/// A monitor's stable key: its device path, or the adapter's low part and
/// the target id when Windows gave no path.
pub open spec fn identity_key(m: MonitorModel) -> Seq<char> {
    match m.device_path {
        Some(p) => p,
        None => decimal(m.adapter_id.low as nat) + ":"@ + decimal(m.id as nat),
    }
}

/// The set of keys of the monitors this configuration leaves on.
pub open spec fn identity_set(c: ConfigModel) -> Set<Seq<char>> {
    active_monitors(c).map_values(|m: MonitorModel| identity_key(m)).to_set()
}

/// Both configurations light up the same, non-empty, set of monitors.
pub open spec fn same_active_monitors(a: ConfigModel, b: ConfigModel) -> bool {
    !identity_set(a).is_empty() && identity_set(a) == identity_set(b)
}

/// Two configurations show the same monitors or not, whichever is asked
/// about the other; and a configuration with nothing on matches nothing,
/// not even itself.
pub proof fn law_same_monitors_is_symmetric(a: ConfigModel, b: ConfigModel)
    ensures
        same_active_monitors(a, b) == same_active_monitors(b, a),
        identity_set(a).is_empty() ==> !same_active_monitors(a, b) && !same_active_monitors(b, a),
{
}

/// A monitor given a nickname is shown under it.
pub proof fn law_nickname_is_shown(m: MonitorModel, nicknames: Map<Seq<char>, Seq<char>>, nickname: Seq<char>)
    ensures
        label_with_of(m, nicknames.insert(identity_key(m), nickname)) == nickname,
        !nicknames.contains_key(identity_key(m)) ==> label_with_of(m, nicknames) == label_of(m),
{
}

/// The adapter LUIDs the paths mention, source then target of each, with
/// repeats.
pub open spec fn path_adapters(paths: Seq<PathInfo>) -> Seq<Luid>
    decreases paths.len(),
{
    if paths.len() == 0 {
        Seq::empty()
    } else {
        path_adapters(paths.drop_last()) + seq![
            paths.last().source.adapter_id,
            paths.last().target.adapter_id,
        ]
    }
}

/// Every adapter LUID a configuration mentions: paths first (source then
/// target of each), then modes, then monitor identities, with repeats.
pub open spec fn adapter_mentions(c: ConfigModel) -> Seq<Luid> {
    path_adapters(c.paths) + c.modes.map_values(|m: ModeInfo| m.adapter_id) + c.monitors.map_values(
        |m: MonitorModel| m.adapter_id,
    )
}

/// `s` with every repeat of an earlier element removed.
pub open spec fn dedup<A>(s: Seq<A>) -> Seq<A>
    decreases s.len(),
{
    if s.len() == 0 {
        Seq::empty()
    } else {
        let r = dedup(s.drop_last());
        if r.contains(s.last()) {
            r
        } else {
            r.push(s.last())
        }
    }
}

pub open spec fn adapter_ids_of(c: ConfigModel) -> Seq<Luid> {
    dedup(adapter_mentions(c))
}

/// The configuration with every adapter LUID `l` replaced by `f(l)`: in both
/// ends of every path, in every mode, and in every monitor identity.
pub open spec fn relabel(c: ConfigModel, f: spec_fn(Luid) -> Luid) -> ConfigModel {
    ConfigModel {
        paths: c.paths.map_values(
            |p: PathInfo|
                PathInfo {
                    source: PathSourceInfo { adapter_id: f(p.source.adapter_id), ..p.source },
                    target: PathTargetInfo { adapter_id: f(p.target.adapter_id), ..p.target },
                    ..p
                },
        ),
        modes: c.modes.map_values(|m: ModeInfo| ModeInfo { adapter_id: f(m.adapter_id), ..m }),
        monitors: c.monitors.map_values(
            |m: MonitorModel| MonitorModel { adapter_id: f(m.adapter_id), ..m },
        ),
    }
}

/// Replacing one LUID with another.
pub open spec fn swap_one(from: Luid, to: Luid) -> spec_fn(Luid) -> Luid {
    |l: Luid| if l == from { to } else { l }
}

// ---------------------------------------------------------------------------
// Lemmas
// ---------------------------------------------------------------------------

pub proof fn lemma_find_monitor_bounds(ms: Seq<MonitorModel>, adapter: Luid, id: u32)
    ensures
        match find_monitor(ms, adapter, id) {
            Some(k) => 0 <= k < ms.len() && monitor_at(ms[k], adapter, id) && (forall|j: int|
                0 <= j < k ==> !monitor_at(#[trigger] ms[j], adapter, id)),
            None => forall|j: int| 0 <= j < ms.len() ==> !monitor_at(#[trigger] ms[j], adapter, id),
        },
    decreases ms.len(),
{
    if ms.len() > 0 {
        lemma_find_monitor_bounds(ms.drop_last(), adapter, id);
        assert forall|j: int| 0 <= j < ms.len() - 1 implies #[trigger] ms[j] == ms.drop_last()[j] by {}
    }
}

proof fn lemma_dedup_push<A>(s: Seq<A>, x: A)
    ensures
        dedup(s.push(x)) == if dedup(s).contains(x) {
            dedup(s)
        } else {
            dedup(s).push(x)
        },
{
    assert(s.push(x).drop_last() =~= s);
}

pub proof fn lemma_dedup_contains<A>(s: Seq<A>, x: A)
    ensures
        dedup(s).contains(x) == s.contains(x),
    decreases s.len(),
{
    if s.len() > 0 {
        lemma_dedup_contains(s.drop_last(), x);
        if s.drop_last().contains(x) {
            let i = choose|i: int| 0 <= i < s.drop_last().len() && s.drop_last()[i] == x;
            assert(s[i] == x);
        }
        if s.contains(x) && x != s.last() {
            let i = choose|i: int| 0 <= i < s.len() && s[i] == x;
            assert(s.drop_last()[i] == x);
        }
        let r = dedup(s.drop_last());
        if !r.contains(s.last()) {
            assert(r.push(s.last())[r.len() as int] == s.last());
            if r.contains(x) {
                let i = choose|i: int| 0 <= i < r.len() && r[i] == x;
                assert(r.push(s.last())[i] == x);
            }
            if r.push(s.last()).contains(x) && x != s.last() {
                let i = choose|i: int| 0 <= i < r.len() + 1 && r.push(s.last())[i] == x;
                assert(r[i] == x);
            }
        }
    }
}

/// Removing repeats from a non-empty run of one value leaves that value once.
pub proof fn lemma_dedup_constant<A>(s: Seq<A>, x: A)
    requires
        s.len() > 0,
        forall|i: int| 0 <= i < s.len() ==> s[i] == x,
    ensures
        dedup(s) == seq![x],
    decreases s.len(),
{
    if s.len() == 1 {
        assert(s.drop_last() =~= Seq::<A>::empty());
        assert(dedup(s.drop_last()) =~= Seq::<A>::empty());
    } else {
        lemma_dedup_constant(s.drop_last(), x);
        assert(s.last() == x);
        assert(seq![x][0] == x);
        assert(seq![x].contains(x));
    }
}

proof fn lemma_path_adapters_relabel(paths: Seq<PathInfo>, f: spec_fn(Luid) -> Luid)
    ensures
        path_adapters(relabel(ConfigModel { paths, modes: Seq::empty(), monitors: Seq::empty() }, f).paths)
            == path_adapters(paths).map_values(f),
    decreases paths.len(),
{
    let r = relabel(ConfigModel { paths, modes: Seq::empty(), monitors: Seq::empty() }, f).paths;
    if paths.len() > 0 {
        let q = paths.drop_last();
        lemma_path_adapters_relabel(q, f);
        let rq = relabel(ConfigModel { paths: q, modes: Seq::empty(), monitors: Seq::empty() }, f).paths;
        assert(r.drop_last() =~= rq);
        assert(path_adapters(r) =~= path_adapters(paths).map_values(f));
    } else {
        assert(path_adapters(r) =~= path_adapters(paths).map_values(f));
    }
}

/// Relabelling a configuration relabels every adapter mention in place.
pub proof fn lemma_mentions_relabel(c: ConfigModel, f: spec_fn(Luid) -> Luid)
    ensures
        adapter_mentions(relabel(c, f)) == adapter_mentions(c).map_values(f),
{
    let r = relabel(c, f);
    lemma_path_adapters_relabel(c.paths, f);
    assert(relabel(ConfigModel { paths: c.paths, modes: Seq::empty(), monitors: Seq::empty() }, f).paths
        == r.paths);
    let pa = path_adapters(c.paths);
    let ma = c.modes.map_values(|m: ModeInfo| m.adapter_id);
    let na = c.monitors.map_values(|m: MonitorModel| m.adapter_id);
    assert(r.modes.map_values(|m: ModeInfo| m.adapter_id) =~= ma.map_values(f));
    assert(r.monitors.map_values(|m: MonitorModel| m.adapter_id) =~= na.map_values(f));
    assert((pa + ma + na).map_values(f) =~= pa.map_values(f) + ma.map_values(f) + na.map_values(f));
}

// ---------------------------------------------------------------------------
// Executable functions
// ---------------------------------------------------------------------------

impl PathInfo {
    pub fn is_active(&self) -> (b: bool)
        ensures
            b == path_is_active(*self),
    {
        self.flags & PATH_ACTIVE != 0
    }
}

impl ModeInfo {
    pub fn is_source(&self) -> (b: bool)
        ensures
            b == mode_is_source(*self),
    {
        match self.mode {
            ModeKind::Source(_) => true,
            _ => false,
        }
    }

    pub fn is_target(&self) -> (b: bool)
        ensures
            b == mode_is_target(*self),
    {
        match self.mode {
            ModeKind::Target(_) => true,
            _ => false,
        }
    }
}

/// A copy of an optional string.
pub fn clone_opt(o: &Option<String>) -> (out: Option<String>)
    ensures
        opt_view(out) == opt_view(*o),
{
    match o {
        Some(s) => Some(s.clone()),
        None => None,
    }
}

/// Do two optional strings hold the same text?
pub fn opt_str_eq(a: &Option<String>, b: &Option<String>) -> (eq: bool)
    ensures
        eq == (opt_view(*a) == opt_view(*b)),
{
    match (a, b) {
        (Some(x), Some(y)) => str_eq(x.as_str(), y.as_str()),
        (None, None) => true,
        _ => false,
    }
}

impl Clone for MonitorInfo {
    fn clone(&self) -> (res: Self)
        ensures
            res@ == self@,
    {
        self.duplicate()
    }
}

impl MonitorInfo {
    /// A copy of this identity.
    pub fn duplicate(&self) -> (res: MonitorInfo)
        ensures
            res@ == self@,
    {
        MonitorInfo {
            adapter_id: self.adapter_id,
            id: self.id,
            friendly_name: clone_opt(&self.friendly_name),
            device_path: clone_opt(&self.device_path),
            output_technology: self.output_technology,
            edid_manufacture_id: self.edid_manufacture_id,
            edid_product_code_id: self.edid_product_code_id,
            connector_instance: self.connector_instance,
        }
    }
}

impl MonitorInfo {
    /// Is this the same identity as `other`, field by field?
    pub fn same_as(&self, other: &MonitorInfo) -> (eq: bool)
        ensures
            eq == (self@ == other@),
    {
        self.adapter_id == other.adapter_id && self.id == other.id && opt_str_eq(
            &self.friendly_name,
            &other.friendly_name,
        ) && opt_str_eq(&self.device_path, &other.device_path) && self.output_technology
            == other.output_technology && self.edid_manufacture_id == other.edid_manufacture_id
            && self.edid_product_code_id == other.edid_product_code_id && self.connector_instance
            == other.connector_instance
    }

    /// Best available label for this monitor.
    pub fn label(&self) -> (out: String)
        ensures
            out@ == label_of(self@),
    {
        match &self.friendly_name {
            Some(n) => {
                if !str_is_blank(n.as_str()) {
                    return n.clone();
                }
            },
            None => {},
        }
        let mut out = String::new();
        push_str(&mut out, "Display ");
        push_decimal(&mut out, self.id as u64);
        out
    }

    /// The stable key this monitor is known by across reboots.
    pub fn key(&self) -> (out: String)
        ensures
            out@ == identity_key(self@),
    {
        match &self.device_path {
            Some(p) => p.clone(),
            None => {
                let mut out = String::new();
                push_decimal(&mut out, self.adapter_id.low as u64);
                push_str(&mut out, ":");
                push_decimal(&mut out, self.id as u64);
                out
            },
        }
    }
}

impl MonitorInfo {
    /// The label this monitor is shown under: its nickname, if it has one.
    pub fn label_with(&self, nicknames: &NameMap) -> (out: String)
        ensures
            out@ == label_with_of(self@, nicknames@),
    {
        let key = self.key();
        match nicknames.get(key.as_str()) {
            Some(n) => n.clone(),
            None => self.label(),
        }
    }
}

impl PartialEq for MonitorInfo {
    fn eq(&self, other: &Self) -> (eq: bool) {
        self.same_as(other)
    }
}

impl vstd::std_specs::cmp::PartialEqSpecImpl for MonitorInfo {
    open spec fn obeys_eq_spec() -> bool {
        true
    }

    open spec fn eq_spec(&self, other: &Self) -> bool {
        self@ == other@
    }
}

/// A copy of a vector of plain values.
pub fn copy_vec<T: Copy>(v: &Vec<T>) -> (out: Vec<T>)
    ensures
        out@ == v@,
{
    let mut out: Vec<T> = Vec::new();
    let mut i: usize = 0;
    while i < v.len()
        invariant
            i <= v.len(),
            out@ == v@.take(i as int),
        decreases v.len() - i,
    {
        out.push(v[i]);
        assert(v@.take(i as int).push(v@[i as int]) =~= v@.take(i + 1));
        i = i + 1;
    }
    assert(v@.take(v.len() as int) =~= v@);
    out
}

/// A copy of a list of monitor identities.
pub fn copy_monitors(v: &Vec<MonitorInfo>) -> (out: Vec<MonitorInfo>)
    ensures
        monitor_views(out@) == monitor_views(v@),
{
    let mut out: Vec<MonitorInfo> = Vec::new();
    let mut i: usize = 0;
    while i < v.len()
        invariant
            i <= v.len(),
            monitor_views(out@) == monitor_views(v@.take(i as int)),
        decreases v.len() - i,
    {
        let ghost before = out@;
        let m = v[i].duplicate();
        out.push(m);
        assert(out@ =~= before.push(m));
        assert(v@.take(i + 1) =~= v@.take(i as int).push(v@[i as int]));
        assert(monitor_views(out@) =~= monitor_views(before).push(m@));
        assert(monitor_views(v@.take(i + 1)) =~= monitor_views(v@.take(i as int)).push(v@[i as int]@));
        i = i + 1;
    }
    assert(v@.take(v.len() as int) =~= v@);
    out
}

impl Clone for DisplayConfig {
    fn clone(&self) -> (res: Self)
        ensures
            res@ == self@,
    {
        DisplayConfig {
            paths: copy_vec(&self.paths),
            modes: copy_vec(&self.modes),
            monitors: copy_monitors(&self.monitors),
        }
    }
}

impl DisplayConfig {
    /// Do the two configurations hold the same paths, modes and monitors?
    pub fn same_as(&self, other: &DisplayConfig) -> (eq: bool)
        ensures
            eq == (self@ == other@),
    {
        if self.paths.len() != other.paths.len() || self.modes.len() != other.modes.len()
            || self.monitors.len() != other.monitors.len() {
            proof {
                if self@ == other@ {
                    assert(self@.monitors.len() == other@.monitors.len());
                }
            }
            return false;
        }
        let mut i: usize = 0;
        while i < self.paths.len()
            invariant
                i <= self.paths.len() == other.paths.len(),
                forall|k: int| 0 <= k < i ==> self.paths@[k] == other.paths@[k],
            decreases self.paths.len() - i,
        {
            if self.paths[i] != other.paths[i] {
                return false;
            }
            i = i + 1;
        }
        let mut i: usize = 0;
        while i < self.modes.len()
            invariant
                i <= self.modes.len() == other.modes.len(),
                forall|k: int| 0 <= k < i ==> self.modes@[k] == other.modes@[k],
            decreases self.modes.len() - i,
        {
            if self.modes[i] != other.modes[i] {
                return false;
            }
            i = i + 1;
        }
        let mut i: usize = 0;
        while i < self.monitors.len()
            invariant
                i <= self.monitors.len() == other.monitors.len(),
                forall|k: int| 0 <= k < i ==> self.monitors@[k]@ == other.monitors@[k]@,
            decreases self.monitors.len() - i,
        {
            if !self.monitors[i].same_as(&other.monitors[i]) {
                proof {
                    if self@ == other@ {
                        assert(self@.monitors[i as int] == other@.monitors[i as int]);
                    }
                }
                return false;
            }
            i = i + 1;
        }
        assert(self@.paths =~= other@.paths);
        assert(self@.modes =~= other@.modes);
        assert(self@.monitors =~= other@.monitors);
        true
    }
}

impl PartialEq for DisplayConfig {
    fn eq(&self, other: &Self) -> (eq: bool) {
        self.same_as(other)
    }
}

impl vstd::std_specs::cmp::PartialEqSpecImpl for DisplayConfig {
    open spec fn obeys_eq_spec() -> bool {
        true
    }

    open spec fn eq_spec(&self, other: &Self) -> bool {
        self@ == other@
    }
}

// ---------------------------------------------------------------------------
// Renaming adapters
// ---------------------------------------------------------------------------

/// The map a sequence of (key, value) pairs describes; a later pair for
/// the same key wins.
pub open spec fn assoc_map<K, V>(s: Seq<(K, V)>) -> Map<K, V>
    decreases s.len(),
{
    if s.len() == 0 {
        Map::empty()
    } else {
        assoc_map(s.drop_last()).insert(s.last().0, s.last().1)
    }
}

/// Where `l` goes under `m`: its image, or itself when `m` does not mention it.
pub open spec fn lookup(m: Map<Luid, Luid>, l: Luid) -> Luid {
    if m.contains_key(l) {
        m[l]
    } else {
        l
    }
}

pub open spec fn lookup_fn(m: Map<Luid, Luid>) -> spec_fn(Luid) -> Luid {
    |l: Luid| lookup(m, l)
}

/// A finite renaming of adapter LUIDs, each source named at most once.
///
/// A `HashMap<Luid, Luid>` would need vstd's hash-key model to hold of
/// `Luid`, which vstd grants only to primitive types and boxes of them; here it could only be
/// assumed. So the renaming is an association list, and the type invariant
/// (no source listed twice) gives what the hash map gave: one target per
/// source.
pub struct LuidMap {
    entries: Vec<(Luid, Luid)>,
}

pub open spec fn keys_distinct<K, V>(s: Seq<(K, V)>) -> bool {
    forall|i: int, j: int| 0 <= i < j < s.len() ==> (#[trigger] s[i]).0 != (#[trigger] s[j]).0
}

pub proof fn lemma_assoc_map<K, V>(s: Seq<(K, V)>, k: K)
    requires
        keys_distinct(s),
    ensures
        assoc_map(s).contains_key(k) <==> exists|i: int| 0 <= i < s.len() && (#[trigger] s[i]).0 == k,
        forall|i: int| 0 <= i < s.len() && (#[trigger] s[i]).0 == k ==> assoc_map(s)[k] == s[i].1,
    decreases s.len(),
{
    if s.len() > 0 {
        let t = s.drop_last();
        assert(keys_distinct(t)) by {
            assert forall|i: int, j: int| 0 <= i < j < t.len() implies (#[trigger] t[i]).0 != (
            #[trigger] t[j]).0 by {
                assert(t[i] == s[i] && t[j] == s[j]);
            }
        }
        lemma_assoc_map(t, k);
        if exists|i: int| 0 <= i < t.len() && (#[trigger] t[i]).0 == k {
            let i = choose|i: int| 0 <= i < t.len() && (#[trigger] t[i]).0 == k;
            assert(s[i] == t[i]);
        }
        if exists|i: int| 0 <= i < s.len() && (#[trigger] s[i]).0 == k {
            let i = choose|i: int| 0 <= i < s.len() && (#[trigger] s[i]).0 == k;
            if i < s.len() - 1 {
                assert(t[i] == s[i]);
            }
        }
        assert forall|i: int| 0 <= i < s.len() && (#[trigger] s[i]).0 == k implies assoc_map(s)[k]
            == s[i].1 by {
            if i < s.len() - 1 {
                assert(t[i] == s[i]);
                assert(s[s.len() - 1].0 != k);
            }
        }
    }
}

impl View for LuidMap {
    type V = Map<Luid, Luid>;

    closed spec fn view(&self) -> Map<Luid, Luid> {
        assoc_map(self.entries@)
    }
}

impl LuidMap {
    #[verifier::type_invariant]
    closed spec fn wf(self) -> bool {
        keys_distinct(self.entries@)
    }

    /// The empty renaming.
    pub fn new() -> (m: LuidMap)
        ensures
            m@ == Map::<Luid, Luid>::empty(),
    {
        LuidMap { entries: Vec::new() }
    }

    pub fn is_empty(&self) -> (b: bool)
        ensures
            b == (self@.dom().len() == 0),
    {
        proof {
            use_type_invariant(self);
            self.lemma_finite();
            if self.entries@.len() > 0 {
                lemma_assoc_map(self.entries@, self.entries@[0].0);
                assert(self@.dom().contains(self.entries@[0].0));
            } else {
                assert(self@ =~= Map::<Luid, Luid>::empty());
            }
        }
        self.entries.len() == 0
    }

    proof fn lemma_finite(&self)
        ensures
            self@.dom().finite(),
    {
        lemma_assoc_map_finite(self.entries@);
    }

    /// Where `l` goes under this renaming.
    pub fn get(&self, l: Luid) -> (out: Luid)
        ensures
            out == lookup(self@, l),
    {
        proof {
            use_type_invariant(self);
            lemma_assoc_map(self.entries@, l);
        }
        let mut i: usize = 0;
        while i < self.entries.len()
            invariant
                i <= self.entries.len(),
                forall|k: int| 0 <= k < i ==> (#[trigger] self.entries@[k]).0 != l,
            decreases self.entries.len() - i,
        {
            if self.entries[i].0 == l {
                proof {
                    use_type_invariant(self);
                    lemma_assoc_map(self.entries@, l);
                    assert(self.entries@[i as int].0 == l);
                }
                return self.entries[i].1;
            }
            i = i + 1;
        }
        l
    }

    /// Name `from -> to` unless `from` is already named.
    pub fn or_insert(&mut self, from: Luid, to: Luid)
        ensures
            final(self)@ == if old(self)@.contains_key(from) {
                old(self)@
            } else {
                old(self)@.insert(from, to)
            },
    {
        proof {
            use_type_invariant(&*self);
            lemma_assoc_map(self.entries@, from);
        }
        let mut i: usize = 0;
        while i < self.entries.len()
            invariant
                i <= self.entries.len(),
                forall|k: int| 0 <= k < i ==> (#[trigger] self.entries@[k]).0 != from,
            decreases self.entries.len() - i,
        {
            if self.entries[i].0 == from {
                proof {
                    use_type_invariant(&*self);
                    lemma_assoc_map(self.entries@, from);
                    assert(self.entries@[i as int].0 == from);
                }
                return;
            }
            i = i + 1;
        }
        let ghost before = self.entries@;
        let mut entries = copy_vec(&self.entries);
        entries.push((from, to));
        proof {
            assert(entries@.drop_last() =~= before);
            assert forall|a: int, b: int| 0 <= a < b < entries@.len() implies (
            #[trigger] entries@[a]).0 != (#[trigger] entries@[b]).0 by {
                if b < before.len() {
                    assert(entries@[a] == before[a] && entries@[b] == before[b]);
                } else {
                    assert(entries@[a] == before[a]);
                }
            }
        }
        self.entries = entries;
    }

    /// Does every source go to itself?
    pub fn is_identity(&self) -> (b: bool)
        ensures
            b == (forall|k: Luid| #[trigger] self@.contains_key(k) ==> self@[k] == k),
    {
        proof {
            use_type_invariant(self);
        }
        let mut i: usize = 0;
        while i < self.entries.len()
            invariant
                i <= self.entries.len(),
                keys_distinct(self.entries@),
                forall|k: int| 0 <= k < i ==> (#[trigger] self.entries@[k]).0 == self.entries@[k].1,
            decreases self.entries.len() - i,
        {
            if self.entries[i].0 != self.entries[i].1 {
                proof {
                    let k = self.entries@[i as int].0;
                    lemma_assoc_map(self.entries@, k);
                    assert(self@.contains_key(k));
                }
                return false;
            }
            i = i + 1;
        }
        proof {
            assert forall|k: Luid| #[trigger] self@.contains_key(k) implies self@[k] == k by {
                lemma_assoc_map(self.entries@, k);
                let j = choose|j: int| 0 <= j < self.entries@.len() && (#[trigger] self.entries@[j]).0 == k;
            }
        }
        true
    }
}

pub proof fn lemma_assoc_map_finite<K, V>(s: Seq<(K, V)>)
    ensures
        assoc_map(s).dom().finite(),
    decreases s.len(),
{
    if s.len() > 0 {
        lemma_assoc_map_finite(s.drop_last());
    }
}

// ---------------------------------------------------------------------------
// Queries over a configuration
// ---------------------------------------------------------------------------

pub open spec fn ref_views(v: Seq<&MonitorInfo>) -> Seq<MonitorModel> {
    v.map_values(|m: &MonitorInfo| m@)
}

pub open spec fn luid_relabel_path(p: PathInfo, f: spec_fn(Luid) -> Luid) -> PathInfo {
    PathInfo {
        source: PathSourceInfo { adapter_id: f(p.source.adapter_id), ..p.source },
        target: PathTargetInfo { adapter_id: f(p.target.adapter_id), ..p.target },
        ..p
    }
}

/// The paths whose target is physically present, in order. Keeping the
/// others makes Windows reject the whole configuration later.
pub open spec fn available_paths_of(paths: Seq<PathInfo>) -> Seq<PathInfo>
    decreases paths.len(),
{
    if paths.len() == 0 {
        Seq::empty()
    } else {
        let rest = available_paths_of(paths.drop_last());
        if paths.last().target.target_available {
            rest.push(paths.last())
        } else {
            rest
        }
    }
}

/// The paths whose target is physically present, in order.
pub fn available_paths(paths: &Vec<PathInfo>) -> (out: Vec<PathInfo>)
    ensures
        out@ == available_paths_of(paths@),
{
    let mut out: Vec<PathInfo> = Vec::new();
    let mut i: usize = 0;
    while i < paths.len()
        invariant
            i <= paths.len(),
            out@ == available_paths_of(paths@.take(i as int)),
        decreases paths.len() - i,
    {
        assert(paths@.take(i + 1).drop_last() =~= paths@.take(i as int));
        if paths[i].target.target_available {
            out.push(paths[i]);
        }
        i = i + 1;
    }
    assert(paths@.take(paths.len() as int) =~= paths@);
    out
}

/// Is an identity still wanted for this path's target: has none been
/// collected for it yet?
pub fn needs_identity(monitors: &Vec<MonitorInfo>, p: &PathInfo) -> (b: bool)
    ensures
        b == forall|k: int| 0 <= k < monitors@.len() ==> !monitor_at(
            #[trigger] monitors@[k]@,
            p.target.adapter_id,
            p.target.id,
        ),
{
    let mut i: usize = 0;
    while i < monitors.len()
        invariant
            i <= monitors.len(),
            forall|k: int| 0 <= k < i ==> !monitor_at(#[trigger] monitors@[k]@, p.target.adapter_id, p.target.id),
        decreases monitors.len() - i,
    {
        if monitors[i].id == p.target.id && monitors[i].adapter_id == p.target.adapter_id {
            assert(monitor_at(monitors@[i as int]@, p.target.adapter_id, p.target.id));
            return false;
        }
        i = i + 1;
    }
    true
}

impl DisplayConfig {
    /// Index of the first monitor identity at this adapter and target id.
    pub fn find_monitor_index(&self, adapter: Luid, id: u32) -> (out: Option<usize>)
        ensures
            match out {
                Some(k) => find_monitor(self@.monitors, adapter, id) == Some(k as int),
                None => find_monitor(self@.monitors, adapter, id) is None,
            },
    {
        let ghost ms = self@.monitors;
        let mut i: usize = 0;
        assert(ms.take(0) =~= Seq::<MonitorModel>::empty());
        while i < self.monitors.len()
            invariant
                i <= self.monitors.len(),
                ms == self@.monitors,
                find_monitor(ms.take(i as int), adapter, id) is None,
            decreases self.monitors.len() - i,
        {
            assert(ms.take(i + 1).drop_last() =~= ms.take(i as int));
            if self.monitors[i].id == id && self.monitors[i].adapter_id == adapter {
                proof {
                    lemma_find_monitor_bounds(ms, adapter, id);
                    lemma_find_monitor_bounds(ms.take(i as int), adapter, id);
                    match find_monitor(ms, adapter, id) {
                        Some(k) => {
                            if k < i {
                                assert(ms.take(i as int)[k] == ms[k]);
                            }
                            if k > i {
                                assert(monitor_at(ms[i as int], adapter, id));
                            }
                        },
                        None => {
                            assert(monitor_at(ms[i as int], adapter, id));
                        },
                    }
                }
                return Some(i);
            }
            i = i + 1;
        }
        assert(ms.take(i as int) =~= ms);
        None
    }

    /// Monitors attached to an active path, in path order: the ones a user
    /// would say are "on" in this configuration.
    pub fn active_monitors(&self) -> (out: Vec<&MonitorInfo>)
        ensures
            ref_views(out@) == active_monitors(self@),
    {
        let mut out: Vec<&MonitorInfo> = Vec::new();
        let mut i: usize = 0;
        while i < self.paths.len()
            invariant
                i <= self.paths.len(),
                ref_views(out@) == active_monitors_of(self@.paths.take(i as int), self@.monitors),
            decreases self.paths.len() - i,
        {
            let p = self.paths[i];
            let ghost before = out@;
            assert(self@.paths.take(i + 1).drop_last() =~= self@.paths.take(i as int));
            if p.is_active() {
                match self.find_monitor_index(p.target.adapter_id, p.target.id) {
                    Some(k) => {
                        proof {
                            lemma_find_monitor_bounds(self@.monitors, p.target.adapter_id, p.target.id);
                        }
                        out.push(&self.monitors[k]);
                        assert(ref_views(out@) =~= ref_views(before).push(self@.monitors[k as int]));
                    },
                    None => {},
                }
            }
            i = i + 1;
        }
        assert(self@.paths.take(self.paths.len() as int) =~= self@.paths);
        out
    }

    /// How many paths are active.
    pub fn active_path_count(&self) -> (n: usize)
        ensures
            n == count_active(self@.paths),
    {
        let mut n: usize = 0;
        let mut i: usize = 0;
        while i < self.paths.len()
            invariant
                i <= self.paths.len(),
                n == count_active(self@.paths.take(i as int)),
                n <= i,
            decreases self.paths.len() - i,
        {
            assert(self@.paths.take(i + 1).drop_last() =~= self@.paths.take(i as int));
            if self.paths[i].is_active() {
                n = n + 1;
            }
            i = i + 1;
        }
        assert(self@.paths.take(self.paths.len() as int) =~= self@.paths);
        n
    }

    /// Labels for the active monitors, disambiguated when two report the same
    /// name.
    ///
    /// Identical monitors are common, and two entries both reading "DELL
    /// U2724D" tell the user nothing. Repeats get a numeric suffix in path
    /// order.
    pub fn active_monitor_labels(&self) -> (out: Vec<String>)
        ensures
            views(out@) == active_labels(self@),
    {
        let monitors = self.active_monitors();
        let mut labels: Vec<String> = Vec::new();
        let mut i: usize = 0;
        while i < monitors.len()
            invariant
                i <= monitors.len(),
                views(labels@) == ref_views(monitors@).take(i as int).map_values(
                    |m: MonitorModel| label_of(m),
                ),
            decreases monitors.len() - i,
        {
            let ghost before = labels@;
            let l = monitors[i].label();
            labels.push(l);
            proof {
                let want = ref_views(monitors@).take(i + 1).map_values(|m: MonitorModel| label_of(m));
                let prev = ref_views(monitors@).take(i as int).map_values(|m: MonitorModel| label_of(m));
                assert(views(before).len() == prev.len());
                assert(before.len() == i);
                assert(labels@ =~= before.push(l));
                assert forall|k: int| 0 <= k < i + 1 implies views(labels@)[k] == want[k] by {
                    if k < i {
                        assert(labels@[k] == before[k]);
                        assert(views(before)[k] == prev[k]);
                    } else {
                        assert(ref_views(monitors@)[k] == monitors@[k]@);
                    }
                }
                assert(views(labels@) =~= want);
            }
            i = i + 1;
        }
        assert(ref_views(monitors@).take(monitors.len() as int) =~= ref_views(monitors@));
        disambiguate(&labels)
    }

    /// Labels for the active monitors with nicknames applied; repeats are
    /// numbered as in `active_monitor_labels`.
    pub fn active_monitor_labels_with(&self, nicknames: &NameMap) -> (out: Vec<String>)
        ensures
            views(out@) == active_labels_with(self@, nicknames@),
    {
        let monitors = self.active_monitors();
        let mut labels: Vec<String> = Vec::new();
        let mut i: usize = 0;
        while i < monitors.len()
            invariant
                i <= monitors.len(),
                views(labels@) == ref_views(monitors@).take(i as int).map_values(
                    |m: MonitorModel| label_with_of(m, nicknames@),
                ),
            decreases monitors.len() - i,
        {
            let ghost before = labels@;
            let l = monitors[i].label_with(nicknames);
            labels.push(l);
            proof {
                let want = ref_views(monitors@).take(i + 1).map_values(
                    |m: MonitorModel| label_with_of(m, nicknames@),
                );
                let prev = ref_views(monitors@).take(i as int).map_values(
                    |m: MonitorModel| label_with_of(m, nicknames@),
                );
                assert(views(before).len() == prev.len());
                assert(before.len() == i);
                assert(labels@ =~= before.push(l));
                assert forall|k: int| 0 <= k < i + 1 implies views(labels@)[k] == want[k] by {
                    if k < i {
                        assert(labels@[k] == before[k]);
                        assert(views(before)[k] == prev[k]);
                    } else {
                        assert(ref_views(monitors@)[k] == monitors@[k]@);
                    }
                }
                assert(views(labels@) =~= want);
            }
            i = i + 1;
        }
        assert(ref_views(monitors@).take(monitors.len() as int) =~= ref_views(monitors@));
        disambiguate(&labels)
    }

    /// A stable fingerprint of which monitors this configuration leaves on:
    /// the monitors' keys, sorted, without repeats.
    ///
    /// Built from device paths, which survive reboots and adapter
    /// renumbering, so two configurations captured at different times can be
    /// compared.
    pub fn active_identity(&self) -> (out: Vec<String>)
        ensures
            strictly_sorted(views(out@)),
            views(out@).to_set() == identity_set(self@),
    {
        let monitors = self.active_monitors();
        let ghost keys = ref_views(monitors@).map_values(|m: MonitorModel| identity_key(m));
        let mut out: Vec<String> = Vec::new();
        let mut i: usize = 0;
        assert(keys.take(0).to_set() =~= Set::<Seq<char>>::empty());
        assert(views(out@).to_set() =~= Set::<Seq<char>>::empty());
        while i < monitors.len()
            invariant
                i <= monitors.len(),
                keys == ref_views(monitors@).map_values(|m: MonitorModel| identity_key(m)),
                strictly_sorted(views(out@)),
                views(out@).to_set() == keys.take(i as int).to_set(),
            decreases monitors.len() - i,
        {
            let k = monitors[i].key();
            insert_sorted(&mut out, k);
            proof {
                assert(keys.take(i + 1) =~= keys.take(i as int).push(k@));
                lemma_to_set_push(keys.take(i as int), k@);
            }
            i = i + 1;
        }
        assert(keys.take(monitors.len() as int) =~= keys);
        out
    }

    /// Does this configuration light up the same monitors as `other`?
    ///
    /// Compares only *which* monitors are on, not their resolutions or
    /// arrangement, and a configuration with nothing on matches nothing.
    pub fn has_same_active_monitors(&self, other: &DisplayConfig) -> (b: bool)
        ensures
            b == same_active_monitors(self@, other@),
    {
        let mine = self.active_identity();
        let theirs = other.active_identity();
        proof {
            if views(mine@).len() > 0 {
                assert(views(mine@).to_set().contains(views(mine@)[0]));
            } else {
                assert(views(mine@).to_set() =~= Set::<Seq<char>>::empty());
            }
            if identity_set(self@) == identity_set(other@) {
                lemma_sorted_same_set_equal(views(mine@), views(theirs@));
            }
        }
        mine.len() != 0 && strings_eq(&mine, &theirs)
    }

    /// Every distinct adapter LUID referenced anywhere in this configuration
    /// (paths, modes and monitor identities), in order of first mention.
    pub fn adapter_ids(&self) -> (out: Vec<Luid>)
        ensures
            out@ == adapter_ids_of(self@),
    {
        let mut out: Vec<Luid> = Vec::new();
        let mut i: usize = 0;
        while i < self.paths.len()
            invariant
                i <= self.paths.len(),
                out@ == dedup(path_adapters(self@.paths.take(i as int))),
            decreases self.paths.len() - i,
        {
            let p = self.paths[i];
            let ghost before = path_adapters(self@.paths.take(i as int));
            assert(self@.paths.take(i + 1).drop_last() =~= self@.paths.take(i as int));
            assert(path_adapters(self@.paths.take(i + 1)) =~= before.push(p.source.adapter_id).push(
                p.target.adapter_id,
            ));
            proof {
                lemma_dedup_push(before, p.source.adapter_id);
                lemma_dedup_push(before.push(p.source.adapter_id), p.target.adapter_id);
            }
            if !luid_in(&out, p.source.adapter_id) {
                out.push(p.source.adapter_id);
            }
            if !luid_in(&out, p.target.adapter_id) {
                out.push(p.target.adapter_id);
            }
            i = i + 1;
        }
        assert(self@.paths.take(self.paths.len() as int) =~= self@.paths);
        let ghost pa = path_adapters(self@.paths);
        let ghost ma = self@.modes.map_values(|m: ModeInfo| m.adapter_id);
        let mut j: usize = 0;
        assert(pa + ma.take(0) =~= pa);
        while j < self.modes.len()
            invariant
                j <= self.modes.len(),
                pa == path_adapters(self@.paths),
                ma == self@.modes.map_values(|m: ModeInfo| m.adapter_id),
                out@ == dedup(pa + ma.take(j as int)),
            decreases self.modes.len() - j,
        {
            let a = self.modes[j].adapter_id;
            assert(pa + ma.take(j + 1) =~= (pa + ma.take(j as int)).push(a));
            proof {
                lemma_dedup_push(pa + ma.take(j as int), a);
            }
            if !luid_in(&out, a) {
                out.push(a);
            }
            j = j + 1;
        }
        assert(ma.take(self.modes.len() as int) =~= ma);
        let ghost pm = pa + ma;
        let ghost na = self@.monitors.map_values(|m: MonitorModel| m.adapter_id);
        let mut k: usize = 0;
        assert(pm + na.take(0) =~= pm);
        while k < self.monitors.len()
            invariant
                k <= self.monitors.len(),
                pm == path_adapters(self@.paths) + self@.modes.map_values(|m: ModeInfo| m.adapter_id),
                na == self@.monitors.map_values(|m: MonitorModel| m.adapter_id),
                out@ == dedup(pm + na.take(k as int)),
            decreases self.monitors.len() - k,
        {
            let a = self.monitors[k].adapter_id;
            assert(na[k as int] == a);
            assert(pm + na.take(k + 1) =~= (pm + na.take(k as int)).push(a));
            proof {
                lemma_dedup_push(pm + na.take(k as int), a);
            }
            if !luid_in(&out, a) {
                out.push(a);
            }
            k = k + 1;
        }
        assert(na.take(self.monitors.len() as int) =~= na);
        out
    }

    /// Rewrite every adapter LUID through `map`, in one pass: each LUID is
    /// looked up once, so a renaming A to B and B to C sends A to B, not C.
    pub fn relabel_with(&mut self, map: &LuidMap)
        ensures
            final(self)@ == relabel(old(self)@, lookup_fn(map@)),
    {
        let ghost f = lookup_fn(map@);
        let mut paths: Vec<PathInfo> = Vec::new();
        let mut i: usize = 0;
        while i < self.paths.len()
            invariant
                i <= self.paths.len(),
                f == lookup_fn(map@),
                paths@ == self@.paths.take(i as int).map_values(
                    |p: PathInfo| luid_relabel_path(p, f),
                ),
            decreases self.paths.len() - i,
        {
            let mut p = self.paths[i];
            p.source.adapter_id = map.get(p.source.adapter_id);
            p.target.adapter_id = map.get(p.target.adapter_id);
            paths.push(p);
            assert(paths@ =~= self@.paths.take(i + 1).map_values(
                |p: PathInfo| luid_relabel_path(p, f),
            ));
            i = i + 1;
        }
        let mut modes: Vec<ModeInfo> = Vec::new();
        let mut i: usize = 0;
        while i < self.modes.len()
            invariant
                i <= self.modes.len(),
                f == lookup_fn(map@),
                modes@ == self@.modes.take(i as int).map_values(
                    |m: ModeInfo| ModeInfo { adapter_id: f(m.adapter_id), ..m },
                ),
            decreases self.modes.len() - i,
        {
            let mut m = self.modes[i];
            m.adapter_id = map.get(m.adapter_id);
            modes.push(m);
            assert(modes@ =~= self@.modes.take(i + 1).map_values(
                |m: ModeInfo| ModeInfo { adapter_id: f(m.adapter_id), ..m },
            ));
            i = i + 1;
        }
        let mut monitors: Vec<MonitorInfo> = Vec::new();
        let mut i: usize = 0;
        while i < self.monitors.len()
            invariant
                i <= self.monitors.len(),
                f == lookup_fn(map@),
                monitor_views(monitors@) == self@.monitors.take(i as int).map_values(
                    |m: MonitorModel| MonitorModel { adapter_id: f(m.adapter_id), ..m },
                ),
            decreases self.monitors.len() - i,
        {
            let mut m = self.monitors[i].duplicate();
            m.adapter_id = map.get(m.adapter_id);
            let ghost before = monitors@;
            monitors.push(m);
            proof {
                let g = |m: MonitorModel| MonitorModel { adapter_id: f(m.adapter_id), ..m };
                let want = self@.monitors.take(i + 1).map_values(g);
                let prev = self@.monitors.take(i as int).map_values(g);
                assert(monitor_views(before).len() == prev.len());
                assert(before.len() == i);
                assert(monitors@ =~= before.push(m));
                assert forall|k: int| 0 <= k < i + 1 implies monitor_views(monitors@)[k] == want[k] by {
                    if k < i {
                        assert(monitors@[k] == before[k]);
                        assert(monitor_views(before)[k] == prev[k]);
                    } else {
                        assert(self@.monitors[k] == self.monitors@[k]@);
                    }
                }
                assert(monitor_views(monitors@) =~= want);
            }
            i = i + 1;
        }
        assert(self@.paths.take(self.paths.len() as int) =~= self@.paths);
        assert(self@.modes.take(self.modes.len() as int) =~= self@.modes);
        assert(self@.monitors.take(self.monitors.len() as int) =~= self@.monitors);
        self.paths = paths;
        self.modes = modes;
        self.monitors = monitors;
        assert(self@.paths =~= relabel(old(self)@, f).paths);
        assert(self@.modes =~= relabel(old(self)@, f).modes);
        assert(self@.monitors =~= relabel(old(self)@, f).monitors);
    }

    /// Rewrite every occurrence of one adapter LUID with another.
    pub fn replace_adapter(&mut self, from: Luid, to: Luid)
        ensures
            final(self)@ == relabel(old(self)@, swap_one(from, to)),
    {
        let mut map = LuidMap::new();
        map.or_insert(from, to);
        self.relabel_with(&map);
        assert(lookup_fn(map@) =~= swap_one(from, to));
    }
}

/// Is `l` in `v`?
pub fn luid_in(v: &Vec<Luid>, l: Luid) -> (b: bool)
    ensures
        b == v@.contains(l),
{
    let mut i: usize = 0;
    while i < v.len()
        invariant
            i <= v.len(),
            forall|k: int| 0 <= k < i ==> v@[k] != l,
        decreases v.len() - i,
    {
        if v[i] == l {
            return true;
        }
        i = i + 1;
    }
    false
}

/// How many of the first `upto` labels equal `x`.
fn count_equal(labels: &Vec<String>, x: &String, upto: usize) -> (n: usize)
    requires
        upto <= labels.len(),
    ensures
        n == occurrences(views(labels@).take(upto as int), x@),
        n <= upto,
{
    let mut n: usize = 0;
    let mut j: usize = 0;
    while j < upto
        invariant
            j <= upto <= labels.len(),
            n == occurrences(views(labels@).take(j as int), x@),
            n <= j,
        decreases upto - j,
    {
        assert(views(labels@).take(j + 1).drop_last() =~= views(labels@).take(j as int));
        if str_eq(labels[j].as_str(), x.as_str()) {
            n = n + 1;
        }
        j = j + 1;
    }
    n
}

/// Each label, with a "#n" suffix where it repeats.
pub fn disambiguate(labels: &Vec<String>) -> (out: Vec<String>)
    ensures
        views(out@) == disambiguate_all(views(labels@)),
{
    let ghost ls = views(labels@);
    let mut out: Vec<String> = Vec::new();
    let mut i: usize = 0;
    while i < labels.len()
        invariant
            i <= labels.len(),
            ls == views(labels@),
            out@.len() == i,
            forall|k: int| 0 <= k < i ==> (#[trigger] out@[k])@ == disambiguated(ls, k),
        decreases labels.len() - i,
    {
        let total = count_equal(labels, &labels[i], labels.len());
        assert(ls.take(labels.len() as int) =~= ls);
        let mut s = labels[i].clone();
        if total >= 2 {
            let nth = count_equal(labels, &labels[i], i + 1);
            push_str(&mut s, " #");
            push_decimal(&mut s, nth as u64);
        }
        out.push(s);
        i = i + 1;
    }
    assert(views(out@) =~= disambiguate_all(ls));
    out
}

/// Do two lists of strings hold the same strings in the same order?
pub fn strings_eq(a: &Vec<String>, b: &Vec<String>) -> (eq: bool)
    ensures
        eq == (views(a@) == views(b@)),
{
    if a.len() != b.len() {
        proof {
            if views(a@) == views(b@) {
                assert(views(a@).len() == views(b@).len());
            }
        }
        return false;
    }
    let mut i: usize = 0;
    while i < a.len()
        invariant
            i <= a.len() == b.len(),
            forall|k: int| 0 <= k < i ==> a@[k]@ == b@[k]@,
        decreases a.len() - i,
    {
        if !str_eq(a[i].as_str(), b[i].as_str()) {
            proof {
                if views(a@) == views(b@) {
                    assert(views(a@)[i as int] == views(b@)[i as int]);
                }
            }
            return false;
        }
        i = i + 1;
    }
    assert(views(a@) =~= views(b@));
    true
}

proof fn lemma_to_set_push(s: Seq<Seq<char>>, x: Seq<char>)
    ensures
        s.push(x).to_set() == s.to_set().insert(x),
{
    assert forall|y: Seq<char>| s.push(x).to_set().contains(y) implies s.to_set().insert(x).contains(y) by {
        let k = choose|k: int| 0 <= k < s.push(x).len() && s.push(x)[k] == y;
        if k < s.len() {
            assert(s[k] == y);
        }
    }
    assert forall|y: Seq<char>| s.to_set().insert(x).contains(y) implies s.push(x).to_set().contains(y) by {
        if y == x {
            assert(s.push(x)[s.len() as int] == x);
        } else {
            let k = choose|k: int| 0 <= k < s.len() && s[k] == y;
            assert(s.push(x)[k] == y);
        }
    }
    assert(s.push(x).to_set() =~= s.to_set().insert(x));
}

} // verus!
