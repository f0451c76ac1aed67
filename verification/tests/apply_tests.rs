use msw_core::apply::{
    candidates, remap_adapters, remap_by_monitor_identity, remap_by_path_ids,
    remap_onto_single_adapter, IdentityKey, Strategy,
};
use msw_core::model::{
    DisplayConfig, Luid, ModeInfo, ModeKind, MonitorInfo, PathInfo, PathSourceInfo,
    PathTargetInfo, Point, Rational, Region2D, SourceMode, TargetMode, VideoSignalInfo,
    LuidMap, PATH_ACTIVE,
};

fn luid(low: u32) -> Luid {
    Luid { low, high: 0 }
}

fn monitor(adapter: u32, id: u32, path: &str, name: &str) -> MonitorInfo {
    MonitorInfo {
        adapter_id: luid(adapter),
        id,
        friendly_name: Some(name.to_string()),
        device_path: Some(path.to_string()),
        output_technology: 5,
        edid_manufacture_id: 1,
        edid_product_code_id: 2,
        connector_instance: 0,
    }
}

fn path(adapter: u32, source_id: u32, target_id: u32, active: bool) -> PathInfo {
    PathInfo {
        source: PathSourceInfo {
            adapter_id: luid(adapter),
            id: source_id,
            mode_info_idx: 0,
            status_flags: 0,
        },
        target: PathTargetInfo {
            adapter_id: luid(adapter),
            id: target_id,
            mode_info_idx: 1,
            output_technology: 5,
            rotation: 1,
            scaling: 1,
            refresh_rate: Rational {
                numerator: 60,
                denominator: 1,
            },
            scanline_ordering: 1,
            target_available: true,
            status_flags: 0,
        },
        flags: if active { PATH_ACTIVE } else { 0 },
    }
}

fn source_mode(adapter: u32, id: u32) -> ModeInfo {
    ModeInfo {
        id,
        adapter_id: luid(adapter),
        mode: ModeKind::Source(SourceMode {
            width: 1920,
            height: 1080,
            pixel_format: 4,
            position: Point { x: 0, y: 0 },
        }),
    }
}

fn target_mode(adapter: u32, id: u32) -> ModeInfo {
    ModeInfo {
        id,
        adapter_id: luid(adapter),
        mode: ModeKind::Target(TargetMode {
            video_signal_info: VideoSignalInfo {
                pixel_rate: 148_500_000,
                h_sync_freq: Rational {
                    numerator: 67_500,
                    denominator: 1,
                },
                v_sync_freq: Rational {
                    numerator: 60,
                    denominator: 1,
                },
                active_size: Region2D { cx: 1920, cy: 1080 },
                total_size: Region2D { cx: 2200, cy: 1125 },
                video_standard: 0,
                scanline_ordering: 1,
            },
        }),
    }
}

/// A two-monitor profile on one adapter.
fn saved_config(adapter: u32) -> DisplayConfig {
    DisplayConfig {
        paths: vec![path(adapter, 0, 100, true), path(adapter, 1, 200, true)],
        modes: vec![
            source_mode(adapter, 0),
            target_mode(adapter, 100),
            source_mode(adapter, 1),
            target_mode(adapter, 200),
        ],
        monitors: vec![
            monitor(adapter, 100, "\\\\?\\DISPLAY#DEL4231#LEFT", "DELL U2720Q"),
            monitor(adapter, 200, "\\\\?\\DISPLAY#DEL4232#RIGHT", "DELL U2719D"),
        ],
    }
}

#[test]
fn path_id_match_adopts_current_adapter() {
    let saved = saved_config(0xaaa);
    let current = saved_config(0xbbb);

    let out = remap_by_path_ids(&saved, &current).expect("should remap");

    assert_eq!(out.adapter_ids(), vec![luid(0xbbb)]);
    // Everything other than the LUID is untouched.
    assert_eq!(out.paths[0].source.id, 0);
    assert_eq!(out.paths[1].target.id, 200);
    assert_eq!(out.modes.len(), saved.modes.len());
}

#[test]
fn path_id_match_declines_when_adapter_is_unchanged() {
    let saved = saved_config(0xaaa);
    assert!(remap_by_path_ids(&saved, &saved).is_none());
}

#[test]
fn path_id_match_declines_when_no_path_matches() {
    let saved = saved_config(0xaaa);
    let mut current = saved_config(0xbbb);
    current.paths[0].target.id = 999;
    current.paths[1].target.id = 998;

    assert!(remap_by_path_ids(&saved, &current).is_none());
}

#[test]
fn device_path_match_follows_a_monitor_to_a_new_port() {
    let saved = saved_config(0xaaa);

    // Same two monitors, new adapter, and the first one moved to a port
    // that reports a different target id.
    let mut current = saved_config(0xbbb);
    current.paths[0].target.id = 777;
    current.modes[1].id = 777;
    current.monitors[0].id = 777;

    let out = remap_by_monitor_identity(&saved, &current, IdentityKey::DevicePath)
        .expect("should remap");

    assert_eq!(out.adapter_ids(), vec![luid(0xbbb)]);
    assert_eq!(
        out.paths[0].target.id, 777,
        "target id should follow the monitor"
    );
    assert_eq!(out.paths[1].target.id, 200, "unmoved monitor keeps its id");

    let target_ids: Vec<u32> = out
        .modes
        .iter()
        .filter(|m| m.is_target())
        .map(|m| m.id)
        .collect();
    assert_eq!(target_ids, vec![777, 200], "target modes follow too");

    let source_ids: Vec<u32> = out
        .modes
        .iter()
        .filter(|m| m.is_source())
        .map(|m| m.id)
        .collect();
    assert_eq!(
        source_ids,
        vec![0, 1],
        "source modes are not target ids and must not move"
    );
}

#[test]
fn identity_match_declines_when_nothing_is_recognizable() {
    let saved = saved_config(0xaaa);
    let mut current = saved_config(0xbbb);
    current.monitors[0].device_path = Some("\\\\?\\DISPLAY#OTHER#1".into());
    current.monitors[1].device_path = Some("\\\\?\\DISPLAY#OTHER#2".into());

    assert!(remap_by_monitor_identity(&saved, &current, IdentityKey::DevicePath).is_none());
}

/// A matched pair of identical monitors plus one other.
fn config_with_identical_pair(adapter: u32) -> DisplayConfig {
    let mut config = saved_config(adapter);
    config.paths.push(path(adapter, 2, 300, true));
    config.modes.push(source_mode(adapter, 2));
    config.modes.push(target_mode(adapter, 300));

    // Two monitors of the same model report the same friendly name but
    // have distinct device paths.
    config.monitors = vec![
        monitor(adapter, 100, "\\\\?\\DISPLAY#DEL42D3#UID100", "DELL U2724D"),
        monitor(adapter, 200, "\\\\?\\DISPLAY#BNQ78EC#UID200", "BenQ GL2780"),
        monitor(adapter, 300, "\\\\?\\DISPLAY#DEL42D0#UID300", "DELL U2724D"),
    ];
    config
}

#[test]
fn duplicate_monitor_names_are_never_collapsed_onto_one() {
    let saved = config_with_identical_pair(0xaaa);
    let current = config_with_identical_pair(0xbbb);

    let out = remap_by_monitor_identity(&saved, &current, IdentityKey::FriendlyName)
        .expect("the unique monitor should still match");

    let target_ids: Vec<u32> = out.paths.iter().map(|p| p.target.id).collect();
    assert_eq!(
        target_ids,
        vec![100, 200, 300],
        "the two identical Dells must keep their own ids"
    );
}

#[test]
fn device_paths_disambiguate_identical_models() {
    let saved = config_with_identical_pair(0xaaa);

    let mut current = config_with_identical_pair(0xbbb);
    current.paths[2].target.id = 777;
    current.monitors[2].id = 777;

    let out = remap_by_monitor_identity(&saved, &current, IdentityKey::DevicePath)
        .expect("device paths are unique and should match");

    let target_ids: Vec<u32> = out.paths.iter().map(|p| p.target.id).collect();
    assert_eq!(
        target_ids,
        vec![100, 200, 777],
        "only the monitor that actually moved should be rewritten"
    );
    assert_eq!(out.adapter_ids(), vec![luid(0xbbb)]);
}

#[test]
fn an_unchanged_machine_with_identical_monitors_needs_no_remapping() {
    let config = config_with_identical_pair(0xaaa);
    let candidates = candidates(&config, &config);

    assert_eq!(
        candidates.len(),
        1,
        "expected only the verbatim candidate, got: {:?}",
        candidates.iter().map(|c| c.strategy).collect::<Vec<_>>()
    );
}

#[test]
fn identity_match_ignores_blank_keys() {
    let mut saved = saved_config(0xaaa);
    saved.monitors[0].friendly_name = Some("   ".into());
    saved.monitors[1].friendly_name = None;

    let current = saved_config(0xbbb);

    assert!(
        remap_by_monitor_identity(&saved, &current, IdentityKey::FriendlyName).is_none(),
        "blank and missing names must not be treated as a match"
    );
}

#[test]
fn single_adapter_collapse_unifies_a_split_profile() {
    let mut saved = saved_config(0xaaa);
    saved.paths[1].source.adapter_id = luid(0xccc);
    saved.paths[1].target.adapter_id = luid(0xccc);
    saved.modes[2].adapter_id = luid(0xccc);
    saved.modes[3].adapter_id = luid(0xccc);

    let current = saved_config(0xbbb);

    let out = remap_onto_single_adapter(&saved, &current).expect("should collapse");
    assert_eq!(out.adapter_ids(), vec![luid(0xbbb)]);
}

#[test]
fn single_adapter_collapse_declines_with_two_adapters_present() {
    let saved = saved_config(0xaaa);
    let mut current = saved_config(0xbbb);
    current.paths[1].source.adapter_id = luid(0xccc);
    current.paths[1].target.adapter_id = luid(0xccc);

    assert!(remap_onto_single_adapter(&saved, &current).is_none());
}

#[test]
fn remap_does_not_chain_one_substitution_into_another() {
    // Rewriting A->B and then B->C in sequence would land the first group
    // on C.
    let mut config = saved_config(0xaaa);
    config.paths[1].source.adapter_id = luid(0xbbb);
    config.paths[1].target.adapter_id = luid(0xbbb);
    config.modes[2].adapter_id = luid(0xbbb);
    config.modes[3].adapter_id = luid(0xbbb);

    let mut map = LuidMap::new();
    map.or_insert(luid(0xaaa), luid(0xbbb));
    map.or_insert(luid(0xbbb), luid(0xccc));
    remap_adapters(&mut config, &map);

    assert_eq!(config.paths[0].source.adapter_id, luid(0xbbb));
    assert_eq!(config.paths[1].source.adapter_id, luid(0xccc));
}

#[test]
fn candidate_list_starts_verbatim_and_has_no_duplicates() {
    let saved = saved_config(0xaaa);
    let current = saved_config(0xbbb);

    let candidates = candidates(&saved, &current);

    assert_eq!(candidates[0].strategy, Strategy::Verbatim);
    assert_eq!(candidates[0].config, saved);

    for i in 0..candidates.len() {
        for j in (i + 1)..candidates.len() {
            assert_ne!(
                candidates[i].config, candidates[j].config,
                "{:?} and {:?} produced identical configurations",
                candidates[i].strategy, candidates[j].strategy
            );
        }
    }
}

#[test]
fn unchanged_machine_yields_only_the_verbatim_candidate() {
    let saved = saved_config(0xaaa);
    let candidates = candidates(&saved, &saved);
    assert_eq!(candidates.len(), 1);
    assert_eq!(candidates[0].strategy, Strategy::Verbatim);
}

#[test]
fn a_profile_is_recognised_as_active_across_a_reboot() {
    let saved = saved_config(0xaaa);
    let mut current = saved_config(0xbbb);
    current.paths[0].target.id = 777;
    current.monitors[0].id = 777;

    assert!(saved.has_same_active_monitors(&current));
}

#[test]
fn profiles_lighting_different_monitors_are_distinguished() {
    let play = saved_config(0xaaa);
    let mut work = saved_config(0xaaa);
    work.paths[1].flags = 0;

    assert!(!play.has_same_active_monitors(&work));
    assert!(!work.has_same_active_monitors(&play));
    assert!(work.has_same_active_monitors(&work));
}

#[test]
fn a_configuration_with_nothing_active_matches_nothing() {
    let mut dark = saved_config(0xaaa);
    for p in &mut dark.paths {
        p.flags = 0;
    }
    assert!(
        !dark.has_same_active_monitors(&dark),
        "no active monitors is not a meaningful identity to match on"
    );
}

#[test]
fn identical_monitors_get_distinguishable_labels() {
    let mut config = saved_config(0xaaa);
    config.monitors[1].friendly_name = Some("DELL U2720Q".into());

    assert_eq!(
        config.active_monitor_labels(),
        vec!["DELL U2720Q #1", "DELL U2720Q #2"]
    );
}

#[test]
fn distinct_monitors_are_labelled_plainly() {
    let config = saved_config(0xaaa);
    assert_eq!(
        config.active_monitor_labels(),
        vec!["DELL U2720Q", "DELL U2719D"],
        "unique names should not pick up a suffix"
    );
}

#[test]
fn disabled_monitors_survive_remapping() {
    let mut saved = saved_config(0xaaa);
    saved.paths.push(path(0xaaa, 2, 300, false));
    saved.paths[1].flags = 0;
    saved.monitors.push(monitor(
        0xaaa,
        300,
        "\\\\?\\DISPLAY#DEL4233#THIRD",
        "DELL U2719D",
    ));

    let current = saved_config(0xbbb);
    let out = remap_by_path_ids(&saved, &current).expect("should remap");

    assert_eq!(out.paths.len(), 3, "inactive paths must be preserved");
    assert_eq!(out.active_path_count(), 1);
    assert_eq!(
        out.paths[2].target.adapter_id,
        luid(0xbbb),
        "an unmatched path still picks up the remapped adapter"
    );
}

#[test]
fn replacing_an_adapter_rewrites_every_mention() {
    let mut config = saved_config(0xaaa);
    config.replace_adapter(luid(0xaaa), luid(0xddd));
    assert_eq!(config.adapter_ids(), vec![luid(0xddd)]);
    assert_eq!(config.monitors[1].adapter_id, luid(0xddd));
    assert_eq!(config.modes[3].adapter_id, luid(0xddd));
    // Replacing an adapter that is not there changes nothing.
    config.replace_adapter(luid(0xeee), luid(0xfff));
    assert_eq!(config, saved_config(0xddd));
}

#[test]
fn same_monitors_is_judged_the_same_both_ways() {
    let a = saved_config(0xaaa);
    let mut b = saved_config(0xbbb);
    b.monitors[0].device_path = Some("\\\\?\\DISPLAY#OTHER#1".into());
    assert_eq!(a.has_same_active_monitors(&b), b.has_same_active_monitors(&a));
    assert!(!a.has_same_active_monitors(&b));
}

#[test]
fn every_candidate_keeps_the_saved_paths_on_or_off() {
    let mut saved = saved_config(0xaaa);
    saved.paths[1].flags = 0;
    let mut current = saved_config(0xbbb);
    current.paths[0].target.id = 777;
    current.monitors[0].id = 777;
    let all = candidates(&saved, &current);
    assert!(all.len() > 1);
    for c in all {
        assert_eq!(c.config.paths.len(), 2);
        assert_eq!(c.config.paths[0].flags, PATH_ACTIVE);
        assert_eq!(c.config.paths[1].flags, 0);
        assert_eq!(c.config.modes.len(), saved.modes.len());
        assert_eq!(c.config.monitors.len(), saved.monitors.len());
    }
}

#[test]
fn a_monitor_on_its_own_adapter_is_counted() {
    let mut config = saved_config(0xaaa);
    config.monitors[1].adapter_id = luid(0xeee);
    assert_eq!(config.adapter_ids(), vec![luid(0xaaa), luid(0xeee)]);
}

#[test]
fn a_dry_run_ignores_answers_beyond_the_candidates() {
    let saved = saved_config(0xaaa);
    let all = candidates(&saved, &saved);
    assert_eq!(all.len(), 1);
    let report = msw_core::apply::preflight(&all, &vec![(false, true), (true, false)]);
    assert_eq!(report, vec![(Strategy::Verbatim, true)]);
}

#[test]
fn candidates_come_in_the_order_their_strategies_are_tried() {
    let saved = saved_config(0xaaa);
    let current = saved_config(0xbbb);
    let strategies: Vec<Strategy> = candidates(&saved, &current)
        .iter()
        .map(|c| c.strategy)
        .collect();
    // Identity matching and the single-adapter collapse give the same
    // configuration as path ids here, so they are not listed again.
    assert_eq!(strategies, vec![Strategy::Verbatim, Strategy::PathIds]);
}

#[test]
fn an_identity_remap_keeps_unmatched_monitors_where_they_were() {
    let mut saved = saved_config(0xaaa);
    saved.monitors[1].device_path = None;
    let mut current = saved_config(0xbbb);
    current.paths[0].target.id = 300;
    current.modes[1].id = 300;
    current.monitors[0].id = 300;
    current.monitors[1].device_path = None;

    let out = remap_by_monitor_identity(&saved, &current, IdentityKey::DevicePath)
        .expect("the first monitor is matchable");
    assert_eq!(out.paths[0].target.id, 300);
    assert_eq!(out.paths[1].target.id, 200);
    assert_eq!(out.monitors[0].id, 300);
    assert_eq!(out.monitors[1].id, 200);
    assert_eq!(out.modes[0].id, 0);
    assert_eq!(out.modes[1].id, 300);
    assert_eq!(out.modes[3].id, 200);
}

#[test]
fn identity_matching_needs_one_matchable_monitor() {
    let mut saved = saved_config(0xaaa);
    saved.monitors[0].device_path = None;
    saved.monitors[1].device_path = Some("   ".to_string());
    let current = saved_config(0xbbb);
    assert!(remap_by_monitor_identity(&saved, &current, IdentityKey::DevicePath).is_none());
}

#[test]
fn collapsing_names_only_the_present_adapter() {
    let mut saved = saved_config(0xaaa);
    saved.monitors[1].adapter_id = luid(0xeee);
    let current = saved_config(0xbbb);
    let out = remap_onto_single_adapter(&saved, &current).expect("should collapse");
    assert_eq!(out.adapter_ids(), vec![luid(0xbbb)]);
    assert_eq!(out.monitors[1].adapter_id, luid(0xbbb));
}
