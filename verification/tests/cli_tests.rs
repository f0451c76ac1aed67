use msw_core::apply::{ApplyOutcome, Strategy};
use msw_core::cli::{
    confirms, means_yes, current_lines, default_log_filter, delete_prompt, dry_run_lines, exists_refusal,
    list_lines, log_level, renamed_line, reset_refusal, saved_line, shown_name, switched_lines,
};
use msw_core::model::{
    DisplayConfig, Luid, MonitorInfo, PathInfo, PathSourceInfo, PathTargetInfo, Rational, PATH_ACTIVE,
};
use msw_core::profile::{listing_order, Profile};

fn luid(low: u32) -> Luid {
    Luid { low, high: 0 }
}

fn path(target_id: u32, active: bool) -> PathInfo {
    PathInfo {
        source: PathSourceInfo { adapter_id: luid(1), id: target_id, mode_info_idx: 0, status_flags: 0 },
        target: PathTargetInfo {
            adapter_id: luid(1),
            id: target_id,
            mode_info_idx: 1,
            output_technology: 5,
            rotation: 1,
            scaling: 1,
            refresh_rate: Rational { numerator: 60, denominator: 1 },
            scanline_ordering: 1,
            target_available: true,
            status_flags: 0,
        },
        flags: if active { PATH_ACTIVE } else { 0 },
    }
}

fn monitor(id: u32, name: Option<&str>) -> MonitorInfo {
    MonitorInfo {
        adapter_id: luid(1),
        id,
        friendly_name: name.map(str::to_string),
        device_path: None,
        output_technology: 5,
        edid_manufacture_id: 1,
        edid_product_code_id: 2,
        connector_instance: 0,
    }
}

fn empty() -> DisplayConfig {
    DisplayConfig { paths: vec![], modes: vec![], monitors: vec![] }
}

#[test]
fn verbosity_picks_the_level() {
    assert_eq!(log_level(0), "warn");
    assert_eq!(log_level(1), "info");
    assert_eq!(log_level(7), "debug");
    assert_eq!(default_log_filter(1), "msw_core=info,msw_cli=info");
}

#[test]
fn names_are_shown_quoted() {
    assert_eq!(shown_name("Work"), "\"Work\"");
    assert_eq!(shown_name("a\"b"), "\"a\\\"b\"");
}

#[test]
fn an_empty_list_explains_how_to_start() {
    assert_eq!(
        list_lines(&vec![]),
        vec![
            "No profiles yet.",
            "",
            "Arrange your monitors the way you want them, then run:",
            "    msw save \"Play\""
        ]
    );
}

#[test]
fn the_list_is_a_table_sized_by_the_widest_name() {
    let mut work = Profile::from_config_at("Work", empty(), 0);
    work.active_monitors = vec!["A".into(), "B".into()];
    let play = Profile::from_config_at("Arcade", empty(), 0);
    assert_eq!(
        list_lines(&vec![work, play]),
        vec!["Work    2 monitors: A, B", "Arcade  no active monitors"]
    );
    // Width counts bytes while padding counts characters, as `{:width$}`
    // after `str::len` does.
    let cafe = Profile::from_config_at("café", empty(), 0);
    let ab = Profile::from_config_at("ab", empty(), 0);
    assert_eq!(
        list_lines(&vec![cafe, ab]),
        vec!["café   no active monitors", "ab     no active monitors"]
    );
}

#[test]
fn listing_order_ignores_case_and_keeps_ties_in_order() {
    let names = ["work", "Play", "Arcade", "play"];
    let profiles: Vec<Profile> = names.iter().map(|n| Profile::from_config_at(n, empty(), 0)).collect();
    let sorted: Vec<String> = listing_order(profiles).into_iter().map(|p| p.name).collect();
    assert_eq!(sorted, vec!["Arcade", "Play", "play", "work"]);
}

#[test]
fn current_shows_lit_and_unlit_monitors() {
    let config = DisplayConfig {
        paths: vec![path(1, true), path(2, false)],
        modes: vec![],
        monitors: vec![monitor(1, Some("DELL")), monitor(2, None)],
    };
    assert_eq!(
        current_lines(&config),
        vec![
            "1 active of 2 known display path(s):",
            "  * DELL",
            "",
            "Connected but not in use:",
            "  - Display 2"
        ]
    );
    let lit = DisplayConfig { paths: vec![path(1, true)], modes: vec![], monitors: vec![monitor(1, Some("DELL"))] };
    assert_eq!(current_lines(&lit), vec!["1 active of 1 known display path(s):", "  * DELL"]);
}

#[test]
fn a_dry_run_reports_each_way_in() {
    assert_eq!(
        dry_run_lines("\"Work\"", &vec![]),
        vec![
            "\"Work\" would NOT apply cleanly.",
            "",
            "Windows rejected every way of matching this profile to the monitors",
            "connected right now. Applying it anyway may still work, but check that",
            "the monitors this profile expects are actually plugged in."
        ]
    );
    assert_eq!(
        dry_run_lines("\"Work\"", &vec![(Strategy::PathIds, true), (Strategy::DevicePath, false), (Strategy::SingleAdapter, true)]),
        vec![
            "\"Work\" would apply: matched by path ids.",
            "",
            "Note: only with SDC_ALLOW_CHANGES, so Windows would be free to adjust",
            "resolution or refresh rate to make it fit.",
            "",
            "Fallbacks available if that fails:",
            "  - matched by monitor device path",
            "  - collapsed onto the single adapter (with adjustments)"
        ]
    );
    assert_eq!(
        dry_run_lines("\"Work\"", &vec![(Strategy::Verbatim, false)]),
        vec!["\"Work\" would apply: as saved."]
    );
}

#[test]
fn switching_reports_the_strategy_and_adjustments() {
    assert_eq!(
        switched_lines("\"Work\"", ApplyOutcome { strategy: Strategy::Verbatim, lenient: false }),
        vec!["Switched to \"Work\"."]
    );
    assert_eq!(
        switched_lines("\"Work\"", ApplyOutcome { strategy: Strategy::FriendlyName, lenient: true }),
        vec![
            "Switched to \"Work\" (matched by monitor name).",
            "",
            "Windows adjusted the configuration to make it fit, so resolution or refresh",
            "rate may differ from what you saved. Re-save the profile to capture what you",
            "actually ended up with."
        ]
    );
}

#[test]
fn only_yes_confirms() {
    assert!(confirms("y\n"));
    assert!(confirms("  YES "));
    assert!(confirms("Yes"));
    assert!(!confirms(""));
    assert!(!confirms("yeah"));
    assert!(!confirms("n"));
}

#[test]
fn the_other_messages_read_as_written() {
    let mut p = Profile::from_config_at("Work", empty(), 0);
    p.active_monitors = vec!["DELL".into()];
    assert_eq!(saved_line("\"Work\"", &p), "Saved \"Work\": DELL");
    assert_eq!(
        exists_refusal("\"Work\""),
        "a profile named \"Work\" already exists; pass --force to replace it"
    );
    assert_eq!(delete_prompt("\"Work\""), "Delete profile \"Work\"? [y/N] ");
    assert_eq!(renamed_line("\"Old\"", "\"New\""), "Renamed \"Old\" to \"New\".");
    assert_eq!(reset_refusal(-5), "Windows refused to restore its remembered layout (error -5)");
}

#[test]
fn only_the_two_yes_words_count() {
    assert!(means_yes("y"));
    assert!(means_yes("yes"));
    assert!(!means_yes("Y"), "the answer is lowercased before it gets here");
    assert!(!means_yes("ye"));
}
