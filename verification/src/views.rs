//! What the settings window and the tray show: profiles annotated for
//! display, the monitors Windows knows about, what is on screen right now,
//! and where the "Identify" labels go.
//!
//! Everything here is computed from a configuration, the saved profiles and
//! the settings, which the caller reads; nothing here touches the screen.

use vstd::prelude::*;

use crate::apply::{strategy_description, ApplyOutcome, Strategy};
use crate::model::{
    active_labels_with, active_monitors, clone_opt, identity_key, label_of, label_with_of,
    opt_view, same_active_monitors, path_is_active, ConfigModel, DisplayConfig, ModeKind,
    MonitorInfo, MonitorModel, PathInfo, ModeInfo, SourceMode,
};
use crate::profile::{profile_views, summarize_labels, summary_text, Profile, ProfileModel};
use crate::settings::{NameMap, Settings};
use crate::text::{decimal, push_decimal, push_signed_decimal, push_str, signed_decimal, views};

verus! {

// ---------------------------------------------------------------------------
// Which monitors are lit, and how
// ---------------------------------------------------------------------------

/// Does path `p` light monitor `m`?
pub open spec fn lights(p: PathInfo, m: MonitorModel) -> bool {
    path_is_active(p) && p.target.id == m.id && p.target.adapter_id == m.adapter_id
}

/// Is monitor `m` on an active path of `c`?
pub open spec fn monitor_lit(c: ConfigModel, m: MonitorModel) -> bool {
    exists|i: int| 0 <= i < c.paths.len() && lights(#[trigger] c.paths[i], m)
}

/// Index of the first path that lights `m`.
pub open spec fn first_lighting_path(paths: Seq<PathInfo>, m: MonitorModel) -> Option<int>
    decreases paths.len(),
{
    if paths.len() == 0 {
        None
    } else {
        match first_lighting_path(paths.drop_last(), m) {
            Some(i) => Some(i),
            None => if lights(paths.last(), m) {
                Some(paths.len() - 1)
            } else {
                None
            },
        }
    }
}

/// Is `mode` the source mode a path with this source points at?
pub open spec fn is_source_of(mode: ModeInfo, p: PathInfo) -> bool {
    mode.mode is Source && mode.id == p.source.id && mode.adapter_id == p.source.adapter_id
}

/// The first source mode belonging to `p`'s source.
pub open spec fn source_mode_of(modes: Seq<ModeInfo>, p: PathInfo) -> Option<SourceMode>
    decreases modes.len(),
{
    if modes.len() == 0 {
        None
    } else {
        match source_mode_of(modes.drop_last(), p) {
            Some(s) => Some(s),
            None => if is_source_of(modes.last(), p) {
                Some(modes.last().mode->Source_0)
            } else {
                None
            },
        }
    }
}

/// The source mode behind the first active path to `m`: its resolution and
/// its position in the virtual desktop. An inactive monitor has none.
pub open spec fn active_mode_of(c: ConfigModel, m: MonitorModel) -> Option<SourceMode> {
    match first_lighting_path(c.paths, m) {
        Some(i) => source_mode_of(c.modes, c.paths[i]),
        None => None,
    }
}

proof fn lemma_first_lighting_path(paths: Seq<PathInfo>, m: MonitorModel)
    ensures
        match first_lighting_path(paths, m) {
            Some(i) => 0 <= i < paths.len() && lights(paths[i], m) && forall|k: int|
                0 <= k < i ==> !lights(#[trigger] paths[k], m),
            None => forall|k: int| 0 <= k < paths.len() ==> !lights(#[trigger] paths[k], m),
        },
    decreases paths.len(),
{
    if paths.len() > 0 {
        lemma_first_lighting_path(paths.drop_last(), m);
        let t = paths.drop_last();
        assert forall|k: int| 0 <= k < t.len() implies t[k] == paths[k] by {}
    }
}

/// Is this monitor on an active path?
pub fn is_active(config: &DisplayConfig, monitor: &MonitorInfo) -> (b: bool)
    ensures
        b == monitor_lit(config@, monitor@),
{
    let mut i: usize = 0;
    while i < config.paths.len()
        invariant
            i <= config.paths.len(),
            forall|k: int| 0 <= k < i ==> !lights(#[trigger] config@.paths[k], monitor@),
        decreases config.paths.len() - i,
    {
        let p = config.paths[i];
        if p.is_active() && p.target.id == monitor.id && p.target.adapter_id == monitor.adapter_id {
            assert(lights(config@.paths[i as int], monitor@));
            return true;
        }
        i = i + 1;
    }
    false
}

/// The source mode behind an active monitor's path: its resolution and its
/// position in the virtual desktop.
pub fn active_mode(config: &DisplayConfig, monitor: &MonitorInfo) -> (out: Option<SourceMode>)
    ensures
        out == active_mode_of(config@, monitor@),
{
    proof {
        lemma_first_lighting_path(config@.paths, monitor@);
    }
    let mut i: usize = 0;
    while i < config.paths.len()
        invariant
            i <= config.paths.len(),
            forall|k: int| 0 <= k < i ==> !lights(#[trigger] config@.paths[k], monitor@),
            match first_lighting_path(config@.paths, monitor@) {
                Some(f) => 0 <= f < config@.paths.len() && lights(config@.paths[f], monitor@) && forall|k: int|
                    0 <= k < f ==> !lights(#[trigger] config@.paths[k], monitor@),
                None => forall|k: int| 0 <= k < config@.paths.len() ==> !lights(#[trigger] config@.paths[k], monitor@),
            },
        decreases config.paths.len() - i,
    {
        let p = config.paths[i];
        if p.is_active() && p.target.id == monitor.id && p.target.adapter_id == monitor.adapter_id {
            assert(lights(config@.paths[i as int], monitor@));
            proof {
                let f = first_lighting_path(config@.paths, monitor@);
                if f is Some {
                    let fi = f->0;
                    if fi > i {
                        assert(!lights(config@.paths[i as int], monitor@));
                    }
                }
                assert(f == Some(i as int));
            }
            return source_mode(&config.modes, &p);
        }
        i = i + 1;
    }
    None
}

/// The first source mode belonging to the path's source.
fn source_mode(modes: &Vec<ModeInfo>, p: &PathInfo) -> (out: Option<SourceMode>)
    ensures
        out == source_mode_of(modes@, *p),
{
    let mut i: usize = 0;
    while i < modes.len()
        invariant
            i <= modes.len(),
            source_mode_of(modes@.take(i as int), *p) is None,
        decreases modes.len() - i,
    {
        let m = modes[i];
        assert(modes@.take(i + 1).drop_last() =~= modes@.take(i as int));
        match m.mode {
            ModeKind::Source(s) => {
                if m.id == p.source.id && m.adapter_id == p.source.adapter_id {
                    proof {
                        lemma_source_mode_prefix(modes@, *p, i + 1);
                    }
                    return Some(s);
                }
            },
            _ => {},
        }
        i = i + 1;
    }
    assert(modes@.take(modes.len() as int) =~= modes@);
    None
}

/// Once a prefix finds a source mode, the whole list finds the same one.
proof fn lemma_source_mode_prefix(modes: Seq<ModeInfo>, p: PathInfo, n: int)
    requires
        0 <= n <= modes.len(),
        source_mode_of(modes.take(n), p) is Some,
    ensures
        source_mode_of(modes, p) == source_mode_of(modes.take(n), p),
    decreases modes.len() - n,
{
    if n < modes.len() {
        assert(modes.take(n + 1).drop_last() =~= modes.take(n));
        lemma_source_mode_prefix(modes, p, n + 1);
    } else {
        assert(modes.take(n) =~= modes);
    }
}

// ---------------------------------------------------------------------------
// Profiles as the settings window sees them
// ---------------------------------------------------------------------------

/// A profile as the settings window sees it.
pub struct ProfileView {
    pub name: String,
    pub summary: String,
    pub monitors: Vec<String>,
    pub saved_at: Option<String>,
    /// Is this the configuration currently on screen?
    pub active: bool,
    /// Accelerator bound to this profile, if any.
    pub hotkey: Option<String>,
}

pub struct ProfileViewModel {
    pub name: Seq<char>,
    pub summary: Seq<char>,
    pub monitors: Seq<Seq<char>>,
    pub saved_at: Option<Seq<char>>,
    pub active: bool,
    pub hotkey: Option<Seq<char>>,
}

impl View for ProfileView {
    type V = ProfileViewModel;

    open spec fn view(&self) -> ProfileViewModel {
        ProfileViewModel {
            name: self.name@,
            summary: self.summary@,
            monitors: views(self.monitors@),
            saved_at: opt_view(self.saved_at),
            active: self.active,
            hotkey: opt_view(self.hotkey),
        }
    }
}

pub open spec fn opt_config(c: Option<&DisplayConfig>) -> Option<ConfigModel> {
    match c {
        Some(c) => Some(c@),
        None => None,
    }
}

/// The value bound to `k`, if any.
pub open spec fn lookup_name(m: Map<Seq<char>, Seq<char>>, k: Seq<char>) -> Option<Seq<char>> {
    if m.contains_key(k) {
        Some(m[k])
    } else {
        None
    }
}

/// A profile annotated for display. The monitor labels are recomputed from
/// the stored configuration, so a nickname set after saving still shows.
pub open spec fn profile_view_of(
    p: ProfileModel,
    current: Option<ConfigModel>,
    hotkeys: Map<Seq<char>, Seq<char>>,
    nicknames: Map<Seq<char>, Seq<char>>,
) -> ProfileViewModel {
    let labels = active_labels_with(p.config, nicknames);
    ProfileViewModel {
        name: p.name,
        summary: summary_text(labels),
        monitors: labels,
        saved_at: p.saved_at,
        active: match current {
            Some(c) => same_active_monitors(p.config, c),
            None => false,
        },
        hotkey: lookup_name(hotkeys, p.name),
    }
}

/// One-line description of what a profile leaves switched on, and the labels
/// it is made from, nicknames applied.
pub fn summarize(profile: &Profile, nicknames: &NameMap) -> (out: (String, Vec<String>))
    ensures
        views(out.1@) == active_labels_with(profile@.config, nicknames@),
        out.0@ == summary_text(active_labels_with(profile@.config, nicknames@)),
{
    let labels = profile.config.active_monitor_labels_with(nicknames);
    let summary = summarize_labels(&labels);
    (summary, labels)
}

/// A copy of the value bound to `key`.
fn lookup_copy(m: &NameMap, key: &str) -> (out: Option<String>)
    ensures
        opt_view(out) == lookup_name(m@, key@),
{
    match m.get(key) {
        Some(v) => Some(v.clone()),
        None => None,
    }
}

/// Every profile, annotated for display, in the order given. Nothing is
/// marked active when the current configuration could not be read.
pub fn list(profiles: &Vec<Profile>, current: Option<&DisplayConfig>, settings: &Settings) -> (out: Vec<ProfileView>)
    ensures
        out@.len() == profiles@.len(),
        forall|i: int| 0 <= i < out@.len() ==> (#[trigger] out@[i])@ == profile_view_of(
            profiles@[i]@,
            opt_config(current),
            settings.hotkeys@,
            settings.monitor_names@,
        ),
{
    let mut out: Vec<ProfileView> = Vec::new();
    let mut i: usize = 0;
    while i < profiles.len()
        invariant
            i <= profiles.len(),
            out@.len() == i,
            forall|k: int| 0 <= k < i ==> (#[trigger] out@[k])@ == profile_view_of(
                profiles@[k]@,
                opt_config(current),
                settings.hotkeys@,
                settings.monitor_names@,
            ),
        decreases profiles.len() - i,
    {
        let p = &profiles[i];
        let (summary, monitors) = summarize(p, &settings.monitor_names);
        let active = match current {
            Some(c) => p.is_active(c),
            None => false,
        };
        let view = ProfileView {
            name: p.name.clone(),
            summary,
            monitors,
            saved_at: clone_opt(&p.saved_at),
            active,
            hotkey: lookup_copy(&settings.hotkeys, p.name.as_str()),
        };
        out.push(view);
        i = i + 1;
    }
    out
}

// ---------------------------------------------------------------------------
// What is on screen
// ---------------------------------------------------------------------------

/// What is on screen right now.
pub struct CurrentStatus {
    pub active_monitors: Vec<String>,
    pub inactive_monitors: Vec<String>,
    /// Name of the saved profile that matches, if one does.
    pub matching_profile: Option<String>,
}

pub struct CurrentStatusModel {
    pub active_monitors: Seq<Seq<char>>,
    pub inactive_monitors: Seq<Seq<char>>,
    pub matching_profile: Option<Seq<char>>,
}

impl View for CurrentStatus {
    type V = CurrentStatusModel;

    open spec fn view(&self) -> CurrentStatusModel {
        CurrentStatusModel {
            active_monitors: views(self.active_monitors@),
            inactive_monitors: views(self.inactive_monitors@),
            matching_profile: opt_view(self.matching_profile),
        }
    }
}

/// Labels of the monitors in `ms` that no active path of `c` lights, in
/// order, nicknames applied.
pub open spec fn inactive_labels(c: ConfigModel, ms: Seq<MonitorModel>, nicknames: Map<Seq<char>, Seq<char>>) -> Seq<
    Seq<char>,
>
    decreases ms.len(),
{
    if ms.len() == 0 {
        Seq::empty()
    } else {
        let rest = inactive_labels(c, ms.drop_last(), nicknames);
        if monitor_lit(c, ms.last()) {
            rest
        } else {
            rest.push(label_with_of(ms.last(), nicknames))
        }
    }
}

/// The name of the first profile in `ps` that matches what `c` shows.
pub open spec fn first_matching(ps: Seq<ProfileModel>, c: ConfigModel) -> Option<Seq<char>>
    decreases ps.len(),
{
    if ps.len() == 0 {
        None
    } else {
        match first_matching(ps.drop_last(), c) {
            Some(n) => Some(n),
            None => if same_active_monitors(ps.last().config, c) {
                Some(ps.last().name)
            } else {
                None
            },
        }
    }
}

/// Which saved profile matches the screen right now, if any: the first one
/// in the order given.
pub fn active_profile_name(config: &DisplayConfig, profiles: &Vec<Profile>) -> (out: Option<String>)
    ensures
        opt_view(out) == first_matching(profile_views(profiles@), config@),
{
    let ghost ps = profile_views(profiles@);
    let mut i: usize = 0;
    while i < profiles.len()
        invariant
            i <= profiles.len(),
            ps == profile_views(profiles@),
            first_matching(ps.take(i as int), config@) is None,
        decreases profiles.len() - i,
    {
        assert(ps.take(i + 1).drop_last() =~= ps.take(i as int));
        if profiles[i].is_active(config) {
            proof {
                lemma_first_matching_prefix(ps, config@, i + 1);
            }
            return Some(profiles[i].name.clone());
        }
        i = i + 1;
    }
    assert(ps.take(profiles.len() as int) =~= ps);
    None
}

proof fn lemma_first_matching_prefix(ps: Seq<ProfileModel>, c: ConfigModel, n: int)
    requires
        0 <= n <= ps.len(),
        first_matching(ps.take(n), c) is Some,
    ensures
        first_matching(ps, c) == first_matching(ps.take(n), c),
    decreases ps.len() - n,
{
    if n < ps.len() {
        assert(ps.take(n + 1).drop_last() =~= ps.take(n));
        lemma_first_matching_prefix(ps, c, n + 1);
    } else {
        assert(ps.take(n) =~= ps);
    }
}

/// Describe what is on screen right now: the active monitors' labels, the
/// connected monitors not in use, and the saved profile that matches.
pub fn current_status(config: &DisplayConfig, profiles: &Vec<Profile>, nicknames: &NameMap) -> (out: CurrentStatus)
    ensures
        out@ == (CurrentStatusModel {
            active_monitors: active_labels_with(config@, nicknames@),
            inactive_monitors: inactive_labels(config@, config@.monitors, nicknames@),
            matching_profile: first_matching(profile_views(profiles@), config@),
        }),
{
    let active_monitors = config.active_monitor_labels_with(nicknames);
    let mut inactive: Vec<String> = Vec::new();
    let mut i: usize = 0;
    while i < config.monitors.len()
        invariant
            i <= config.monitors.len(),
            views(inactive@) == inactive_labels(config@, config@.monitors.take(i as int), nicknames@),
        decreases config.monitors.len() - i,
    {
        let m = &config.monitors[i];
        assert(config@.monitors.take(i + 1).drop_last() =~= config@.monitors.take(i as int));
        assert(config@.monitors.take(i + 1).last() == m@);
        if !is_active(config, m) {
            let ghost before = inactive@;
            let l = m.label_with(nicknames);
            inactive.push(l);
            assert(views(inactive@) =~= views(before).push(l@));
        }
        i = i + 1;
    }
    assert(config@.monitors.take(config.monitors.len() as int) =~= config@.monitors);
    let matching_profile = active_profile_name(config, profiles);
    CurrentStatus { active_monitors, inactive_monitors: inactive, matching_profile }
}

// ---------------------------------------------------------------------------
// Monitors, for the nickname editor
// ---------------------------------------------------------------------------

/// A monitor as the settings window sees it.
pub struct MonitorView {
    /// Stable identity, used as the key when setting a nickname.
    pub key: String,
    /// What Windows calls it, such as "DELL U2724D".
    pub model: String,
    /// The nickname, if one has been set.
    pub nickname: Option<String>,
    pub active: bool,
    /// Resolution and desktop position, which is how someone tells two
    /// identical monitors apart well enough to name them.
    pub resolution: Option<String>,
    pub position: Option<String>,
    /// The same geometry, unformatted, in virtual-desktop coordinates: a
    /// monitor left of the primary has a negative `x`.
    pub x: Option<i32>,
    pub y: Option<i32>,
    pub width: Option<u32>,
    pub height: Option<u32>,
}

pub struct MonitorViewModel {
    pub key: Seq<char>,
    pub model: Seq<char>,
    pub nickname: Option<Seq<char>>,
    pub active: bool,
    pub resolution: Option<Seq<char>>,
    pub position: Option<Seq<char>>,
    pub x: Option<i32>,
    pub y: Option<i32>,
    pub width: Option<u32>,
    pub height: Option<u32>,
}

impl View for MonitorView {
    type V = MonitorViewModel;

    open spec fn view(&self) -> MonitorViewModel {
        MonitorViewModel {
            key: self.key@,
            model: self.model@,
            nickname: opt_view(self.nickname),
            active: self.active,
            resolution: opt_view(self.resolution),
            position: opt_view(self.position),
            x: self.x,
            y: self.y,
            width: self.width,
            height: self.height,
        }
    }
}

/// "1920x1080".
pub open spec fn resolution_text(s: SourceMode) -> Seq<char> {
    decimal(s.width as nat) + "x"@ + decimal(s.height as nat)
}

/// "-1920, 0".
pub open spec fn position_text(s: SourceMode) -> Seq<char> {
    signed_decimal(s.position.x as int) + ", "@ + signed_decimal(s.position.y as int)
}

/// A monitor described for the nickname editor.
pub open spec fn monitor_view_of(c: ConfigModel, m: MonitorModel, nicknames: Map<Seq<char>, Seq<char>>) -> MonitorViewModel {
    let mode = active_mode_of(c, m);
    MonitorViewModel {
        key: identity_key(m),
        model: label_of(m),
        nickname: lookup_name(nicknames, identity_key(m)),
        active: monitor_lit(c, m),
        resolution: match mode {
            Some(s) => Some(resolution_text(s)),
            None => None,
        },
        position: match mode {
            Some(s) => Some(position_text(s)),
            None => None,
        },
        x: match mode {
            Some(s) => Some(s.position.x),
            None => None,
        },
        y: match mode {
            Some(s) => Some(s.position.y),
            None => None,
        },
        width: match mode {
            Some(s) => Some(s.width),
            None => None,
        },
        height: match mode {
            Some(s) => Some(s.height),
            None => None,
        },
    }
}

/// One monitor, described for the nickname editor.
pub fn monitor_view(config: &DisplayConfig, monitor: &MonitorInfo, nicknames: &NameMap) -> (out: MonitorView)
    ensures
        out@ == monitor_view_of(config@, monitor@, nicknames@),
{
    let key = monitor.key();
    let nickname = lookup_copy(nicknames, key.as_str());
    let active = is_active(config, monitor);
    let mode = active_mode(config, monitor);
    match mode {
        Some(s) => {
            let mut resolution = String::new();
            push_decimal(&mut resolution, s.width as u64);
            push_str(&mut resolution, "x");
            push_decimal(&mut resolution, s.height as u64);
            let mut position = String::new();
            push_signed_decimal(&mut position, s.position.x as i64);
            push_str(&mut position, ", ");
            push_signed_decimal(&mut position, s.position.y as i64);
            MonitorView {
                key,
                model: monitor.label(),
                nickname,
                active,
                resolution: Some(resolution),
                position: Some(position),
                x: Some(s.position.x),
                y: Some(s.position.y),
                width: Some(s.width),
                height: Some(s.height),
            }
        },
        None => MonitorView {
            key,
            model: monitor.label(),
            nickname,
            active,
            resolution: None,
            position: None,
            x: None,
            y: None,
            width: None,
            height: None,
        },
    }
}

/// Every monitor the configuration knows about, for the nickname editor.
pub fn list_monitors(config: &DisplayConfig, nicknames: &NameMap) -> (out: Vec<MonitorView>)
    ensures
        out@.len() == config@.monitors.len(),
        forall|i: int| 0 <= i < out@.len() ==> (#[trigger] out@[i])@ == monitor_view_of(
            config@,
            config@.monitors[i],
            nicknames@,
        ),
{
    let mut out: Vec<MonitorView> = Vec::new();
    let mut i: usize = 0;
    while i < config.monitors.len()
        invariant
            i <= config.monitors.len(),
            out@.len() == i,
            forall|k: int| 0 <= k < i ==> (#[trigger] out@[k])@ == monitor_view_of(
                config@,
                config@.monitors[k],
                nicknames@,
            ),
        decreases config.monitors.len() - i,
    {
        let v = monitor_view(config, &config.monitors[i], nicknames);
        out.push(v);
        i = i + 1;
    }
    out
}

// ---------------------------------------------------------------------------
// Identify overlays
// ---------------------------------------------------------------------------

/// Where to put an "Identify" overlay for one active monitor, and what it
/// should say.
pub struct IdentifyTarget {
    pub label: String,
    pub x: i32,
    pub y: i32,
    pub width: u32,
    pub height: u32,
}

pub struct IdentifyModel {
    pub label: Seq<char>,
    pub x: i32,
    pub y: i32,
    pub width: u32,
    pub height: u32,
}

impl View for IdentifyTarget {
    type V = IdentifyModel;

    open spec fn view(&self) -> IdentifyModel {
        IdentifyModel { label: self.label@, x: self.x, y: self.y, width: self.width, height: self.height }
    }
}

/// The overlays for the first `n` active monitors: each one's label, over
/// its source mode's rectangle; a monitor without a source mode gets none.
pub open spec fn overlays_upto(
    c: ConfigModel,
    ms: Seq<MonitorModel>,
    labels: Seq<Seq<char>>,
    n: nat,
) -> Seq<IdentifyModel>
    decreases n,
{
    if n == 0 {
        Seq::empty()
    } else {
        let rest = overlays_upto(c, ms, labels, (n - 1) as nat);
        match active_mode_of(c, ms[n - 1]) {
            Some(s) => rest.push(
                IdentifyModel {
                    label: labels[n - 1],
                    x: s.position.x,
                    y: s.position.y,
                    width: s.width,
                    height: s.height,
                },
            ),
            None => rest,
        }
    }
}

/// Geometry and label for every active monitor, for the Identify overlay.
/// The labels are the ones the settings window shows, so the number on an
/// overlay is the number that tells two identical monitors apart there.
pub open spec fn overlays_of(c: ConfigModel, nicknames: Map<Seq<char>, Seq<char>>) -> Seq<IdentifyModel> {
    overlays_upto(c, active_monitors(c), active_labels_with(c, nicknames), active_monitors(c).len())
}

pub open spec fn identify_views(v: Seq<IdentifyTarget>) -> Seq<IdentifyModel> {
    v.map_values(|t: IdentifyTarget| t@)
}

/// Geometry and label for every active monitor, for the Identify overlay.
pub fn identify_targets(config: &DisplayConfig, nicknames: &NameMap) -> (out: Vec<IdentifyTarget>)
    ensures
        identify_views(out@) == overlays_of(config@, nicknames@),
{
    let monitors = config.active_monitors();
    let labels = config.active_monitor_labels_with(nicknames);
    let ghost ms = active_monitors(config@);
    let ghost ls = active_labels_with(config@, nicknames@);
    assert(ls.len() == ms.len());
    let mut out: Vec<IdentifyTarget> = Vec::new();
    let mut i: usize = 0;
    while i < monitors.len()
        invariant
            i <= monitors.len(),
            ms == active_monitors(config@),
            ms == crate::model::ref_views(monitors@),
            ls == views(labels@),
            labels@.len() == monitors@.len(),
            identify_views(out@) == overlays_upto(config@, ms, ls, i as nat),
        decreases monitors.len() - i,
    {
        let m = monitors[i];
        assert(ms[i as int] == m@);
        let ghost before = identify_views(out@);
        match active_mode(config, m) {
            Some(s) => {
                let t = IdentifyTarget {
                    label: labels[i].clone(),
                    x: s.position.x,
                    y: s.position.y,
                    width: s.width,
                    height: s.height,
                };
                out.push(t);
                assert(identify_views(out@) =~= before.push(t@));
            },
            None => {},
        }
        i = i + 1;
    }
    out
}

// ---------------------------------------------------------------------------
// Messages
// ---------------------------------------------------------------------------

/// What switching to a profile reports.
pub open spec fn switched_text(name: Seq<char>, outcome: ApplyOutcome) -> Seq<char> {
    let base = "Switched to "@ + name;
    let with_strategy = if outcome.strategy == Strategy::Verbatim {
        base
    } else {
        base + " ("@ + strategy_description(outcome.strategy) + ")"@
    };
    if outcome.lenient {
        with_strategy + "; Windows adjusted some settings to make it fit"@
    } else {
        with_strategy
    }
}

/// The message after switching to `name`: how the profile was matched when
/// not verbatim, and whether Windows had to adjust it.
pub fn switched_message(name: &str, outcome: ApplyOutcome) -> (out: String)
    ensures
        out@ == switched_text(name@, outcome),
{
    let mut message = String::new();
    push_str(&mut message, "Switched to ");
    push_str(&mut message, name);
    if outcome.strategy != Strategy::Verbatim {
        push_str(&mut message, " (");
        push_str(&mut message, outcome.strategy.describe());
        push_str(&mut message, ")");
    }
    if outcome.lenient {
        push_str(&mut message, "; Windows adjusted some settings to make it fit");
    }
    message
}


/// The profile reported on screen is one whose configuration lights the same,
/// non-empty, set of monitors as the screen, and no earlier profile does;
/// nothing is reported only when no profile does.
pub proof fn law_active_profile_lights_what_is_on_screen(ps: Seq<ProfileModel>, c: ConfigModel)
    ensures
        first_matching(ps, c) matches Some(n) ==> (exists|i: int|
            0 <= i < ps.len() && (#[trigger] ps[i]).name == n && !crate::model::identity_set(ps[i].config).is_empty()
                && crate::model::identity_set(ps[i].config) == crate::model::identity_set(c) && forall|j: int|
                0 <= j < i ==> !(!crate::model::identity_set((#[trigger] ps[j]).config).is_empty()
                    && crate::model::identity_set(ps[j].config) == crate::model::identity_set(c))),
        first_matching(ps, c) is None ==> forall|i: int|
            0 <= i < ps.len() ==> !(!crate::model::identity_set((#[trigger] ps[i]).config).is_empty()
                && crate::model::identity_set(ps[i].config) == crate::model::identity_set(c)),
    decreases ps.len(),
{
    if ps.len() > 0 {
        let d = ps.drop_last();
        law_active_profile_lights_what_is_on_screen(d, c);
        assert forall|k: int| 0 <= k < d.len() implies #[trigger] d[k] == ps[k] by {}
        match first_matching(d, c) {
            Some(n) => {
                let i = choose|i: int|
                    0 <= i < d.len() && (#[trigger] d[i]).name == n && !crate::model::identity_set(d[i].config).is_empty()
                        && crate::model::identity_set(d[i].config) == crate::model::identity_set(c) && forall|j: int|
                        0 <= j < i ==> !(!crate::model::identity_set((#[trigger] d[j]).config).is_empty()
                            && crate::model::identity_set(d[j].config) == crate::model::identity_set(c));
                assert(ps[i] == d[i]);
                assert forall|j: int| 0 <= j < i implies !(!crate::model::identity_set((#[trigger] ps[j]).config).is_empty()
                    && crate::model::identity_set(ps[j].config) == crate::model::identity_set(c)) by {
                    assert(d[j] == ps[j]);
                }
            },
            None => {
                let l = ps.len() - 1;
                assert(ps[l] == ps.last());
                assert forall|j: int| 0 <= j < l implies !(!crate::model::identity_set((#[trigger] ps[j]).config).is_empty()
                    && crate::model::identity_set(ps[j].config) == crate::model::identity_set(c)) by {
                    assert(d[j] == ps[j]);
                }
            },
        }
    }
}
} // verus!
