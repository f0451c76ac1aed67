use msw_core::apply::{ApplyOutcome, Strategy};
use msw_core::model::{
    DisplayConfig, Luid, ModeInfo, ModeKind, MonitorInfo, PathInfo, PathSourceInfo,
    PathTargetInfo, Point, Rational, SourceMode, PATH_ACTIVE,
};
use msw_core::profile::Profile;
use msw_core::settings::{NameMap, Settings};
use msw_core::views::{
    active_mode, active_profile_name, current_status, identify_targets, is_active, list,
    list_monitors, summarize, switched_message,
};

fn luid(low: u32) -> Luid {
    Luid { low, high: 0 }
}

fn monitor(id: u32, path: &str, name: &str) -> MonitorInfo {
    MonitorInfo {
        adapter_id: luid(0xaaa),
        id,
        friendly_name: Some(name.to_string()),
        device_path: Some(path.to_string()),
        output_technology: 5,
        edid_manufacture_id: 1,
        edid_product_code_id: 2,
        connector_instance: 0,
    }
}

fn path(source_id: u32, target_id: u32, active: bool) -> PathInfo {
    PathInfo {
        source: PathSourceInfo { adapter_id: luid(0xaaa), id: source_id, mode_info_idx: 0, status_flags: 0 },
        target: PathTargetInfo {
            adapter_id: luid(0xaaa),
            id: target_id,
            mode_info_idx: 1,
            output_technology: 5,
            rotation: 1,
            scaling: 1,
            refresh_rate: Rational { numerator: 60, denominator: 1 },
            scanline_ordering: 1,
            target_available: true,
            status_flags: 0,
        },
        flags: if active { PATH_ACTIVE } else { 0 },
    }
}

fn source_mode(id: u32, x: i32, width: u32) -> ModeInfo {
    ModeInfo {
        id,
        adapter_id: luid(0xaaa),
        mode: ModeKind::Source(SourceMode { width, height: 1080, pixel_format: 4, position: Point { x, y: 0 } }),
    }
}

/// Two identical monitors side by side, the left one left of the primary,
/// and a third connected but switched off.
fn desk() -> DisplayConfig {
    DisplayConfig {
        paths: vec![path(0, 100, true), path(1, 200, true), path(2, 300, false)],
        modes: vec![source_mode(0, -1920, 1920), source_mode(1, 0, 2560)],
        monitors: vec![
            monitor(100, "\\\\?\\DISPLAY#DEL#LEFT", "DELL U2724D"),
            monitor(200, "\\\\?\\DISPLAY#DEL#RIGHT", "DELL U2724D"),
            monitor(300, "\\\\?\\DISPLAY#BNQ#TV", "BenQ"),
        ],
    }
}

fn nicknames(pairs: &[(&str, &str)]) -> NameMap {
    let mut m = NameMap::new();
    for (k, v) in pairs {
        m.insert(k.to_string(), v.to_string());
    }
    m
}

#[test]
fn lit_and_unlit_monitors_are_told_apart() {
    let config = desk();
    assert!(is_active(&config, &config.monitors[0]));
    assert!(!is_active(&config, &config.monitors[2]));
}

#[test]
fn the_active_mode_is_the_source_behind_the_path() {
    let config = desk();
    let mode = active_mode(&config, &config.monitors[0]).expect("lit");
    assert_eq!(mode.position.x, -1920);
    assert_eq!(mode.width, 1920);
    assert!(active_mode(&config, &config.monitors[2]).is_none());
}

#[test]
fn nicknames_replace_labels_and_repeats_are_numbered() {
    let config = desk();
    assert_eq!(
        config.active_monitor_labels_with(&NameMap::new()),
        vec!["DELL U2724D #1", "DELL U2724D #2"]
    );
    let names = nicknames(&[("\\\\?\\DISPLAY#DEL#LEFT", "Left")]);
    assert_eq!(config.active_monitor_labels_with(&names), vec!["Left", "DELL U2724D"]);
}

#[test]
fn a_profile_summary_picks_up_nicknames_set_after_saving() {
    let profile = Profile::from_config_at("Work", desk(), 0);
    let names = nicknames(&[("\\\\?\\DISPLAY#DEL#LEFT", "Left"), ("\\\\?\\DISPLAY#DEL#RIGHT", "Right")]);
    let (summary, labels) = summarize(&profile, &names);
    assert_eq!(summary, "2 monitors: Left, Right");
    assert_eq!(labels, vec!["Left", "Right"]);
}

#[test]
fn profile_views_show_activity_and_hotkeys() {
    let profiles = vec![Profile::from_config_at("Work", desk(), 0)];
    let mut settings = Settings::default();
    settings.hotkeys.insert("Work".into(), "CmdOrControl+Alt+1".into());
    let current = desk();

    let views = list(&profiles, Some(&current), &settings);
    assert_eq!(views.len(), 1);
    assert_eq!(views[0].name, "Work");
    assert!(views[0].active);
    assert_eq!(views[0].hotkey.as_deref(), Some("CmdOrControl+Alt+1"));
    assert_eq!(views[0].saved_at.as_deref(), Some("1970-01-01T00:00:00Z"));

    let unread = list(&profiles, None, &settings);
    assert!(!unread[0].active, "nothing is active when the screen could not be read");
}

#[test]
fn current_status_lists_both_sides_and_the_matching_profile() {
    let config = desk();
    let profiles = vec![
        Profile::from_config_at("Other", DisplayConfig { paths: vec![], modes: vec![], monitors: vec![] }, 0),
        Profile::from_config_at("Desk", desk(), 0),
    ];
    let status = current_status(&config, &profiles, &NameMap::new());
    assert_eq!(status.active_monitors, vec!["DELL U2724D #1", "DELL U2724D #2"]);
    assert_eq!(status.inactive_monitors, vec!["BenQ"]);
    assert_eq!(status.matching_profile.as_deref(), Some("Desk"));
    assert_eq!(active_profile_name(&config, &profiles).as_deref(), Some("Desk"));
}

#[test]
fn monitor_views_carry_geometry_only_when_lit() {
    let config = desk();
    let views = list_monitors(&config, &nicknames(&[("\\\\?\\DISPLAY#BNQ#TV", "TV")]));
    assert_eq!(views.len(), 3);
    assert_eq!(views[0].key, "\\\\?\\DISPLAY#DEL#LEFT");
    assert_eq!(views[0].resolution.as_deref(), Some("1920x1080"));
    assert_eq!(views[0].position.as_deref(), Some("-1920, 0"));
    assert_eq!(views[0].x, Some(-1920));
    assert_eq!(views[1].width, Some(2560));
    assert!(!views[2].active);
    assert_eq!(views[2].nickname.as_deref(), Some("TV"));
    assert_eq!(views[2].resolution, None);
}

#[test]
fn identify_targets_follow_the_settings_labels() {
    let config = desk();
    let targets = identify_targets(&config, &NameMap::new());
    assert_eq!(targets.len(), 2);
    assert_eq!(targets[0].label, "DELL U2724D #1");
    assert_eq!(targets[0].x, -1920);
    assert_eq!(targets[1].label, "DELL U2724D #2");
    assert_eq!(targets[1].width, 2560);
}

#[test]
fn switching_reports_how_the_profile_was_matched() {
    assert_eq!(
        switched_message("Work", ApplyOutcome { strategy: Strategy::Verbatim, lenient: false }),
        "Switched to Work"
    );
    assert_eq!(
        switched_message("Work", ApplyOutcome { strategy: Strategy::DevicePath, lenient: true }),
        "Switched to Work (matched by monitor device path); Windows adjusted some settings to make it fit"
    );
}
