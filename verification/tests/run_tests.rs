use msw_core::apply::{apply, ApplyOutcome, Step, Strategy};
use msw_core::model::{
    DisplayConfig, Luid, ModeInfo, ModeKind, MonitorInfo, PathInfo, PathSourceInfo,
    PathTargetInfo, Point, Rational, Region2D, SourceMode, TargetMode, VideoSignalInfo, PATH_ACTIVE,
};

fn luid(low: u32) -> Luid {
    Luid { low, high: 0 }
}

fn monitor(adapter: u32, id: u32, path: &str, name: &str) -> MonitorInfo {
    MonitorInfo {
        adapter_id: luid(adapter),
        id,
        friendly_name: Some(name.to_string()),
        device_path: Some(path.to_string()),
        output_technology: 5,
        edid_manufacture_id: 1,
        edid_product_code_id: 2,
        connector_instance: 0,
    }
}

fn path(adapter: u32, source_id: u32, target_id: u32, active: bool) -> PathInfo {
    PathInfo {
        source: PathSourceInfo {
            adapter_id: luid(adapter),
            id: source_id,
            mode_info_idx: 0,
            status_flags: 0,
        },
        target: PathTargetInfo {
            adapter_id: luid(adapter),
            id: target_id,
            mode_info_idx: 1,
            output_technology: 5,
            rotation: 1,
            scaling: 1,
            refresh_rate: Rational {
                numerator: 60,
                denominator: 1,
            },
            scanline_ordering: 1,
            target_available: true,
            status_flags: 0,
        },
        flags: if active { PATH_ACTIVE } else { 0 },
    }
}

fn source_mode(adapter: u32, id: u32) -> ModeInfo {
    ModeInfo {
        id,
        adapter_id: luid(adapter),
        mode: ModeKind::Source(SourceMode {
            width: 1920,
            height: 1080,
            pixel_format: 4,
            position: Point { x: 0, y: 0 },
        }),
    }
}

fn target_mode(adapter: u32, id: u32) -> ModeInfo {
    ModeInfo {
        id,
        adapter_id: luid(adapter),
        mode: ModeKind::Target(TargetMode {
            video_signal_info: VideoSignalInfo {
                pixel_rate: 148_500_000,
                h_sync_freq: Rational {
                    numerator: 67_500,
                    denominator: 1,
                },
                v_sync_freq: Rational {
                    numerator: 60,
                    denominator: 1,
                },
                active_size: Region2D { cx: 1920, cy: 1080 },
                total_size: Region2D { cx: 2200, cy: 1125 },
                video_standard: 0,
                scanline_ordering: 1,
            },
        }),
    }
}

/// A two-monitor profile on one adapter.
fn saved_config(adapter: u32) -> DisplayConfig {
    DisplayConfig {
        paths: vec![path(adapter, 0, 100, true), path(adapter, 1, 200, true)],
        modes: vec![
            source_mode(adapter, 0),
            target_mode(adapter, 100),
            source_mode(adapter, 1),
            target_mode(adapter, 200),
        ],
        monitors: vec![
            monitor(adapter, 100, "\\\\?\\DISPLAY#DEL4231#LEFT", "DELL U2720Q"),
            monitor(adapter, 200, "\\\\?\\DISPLAY#DEL4232#RIGHT", "DELL U2719D"),
        ],
    }
}


/// The saved two-monitor profile and the same desk after a reboot renamed
/// its adapter: the candidates are the profile as saved and its path-id
/// remapping, every other strategy giving one of those again.
fn two_candidates() -> (DisplayConfig, DisplayConfig) {
    (saved_config(0xaaa), saved_config(0xbbb))
}

#[test]
fn a_later_strict_candidate_beats_an_earlier_lenient_one() {
    let (saved, current) = two_candidates();
    let (candidates, mut run) = apply(&saved, &current);
    assert_eq!(candidates.len(), 2);
    assert_eq!(candidates[1].strategy, Strategy::PathIds);

    assert_eq!(run.step(), Step::Validate { index: 0, lenient: false });
    assert_eq!(run.validated(false), Step::Validate { index: 0, lenient: true });
    assert_eq!(run.validated(true), Step::Validate { index: 1, lenient: false });
    assert_eq!(run.validated(true), Step::Apply { index: 1, lenient: false });
    assert_eq!(
        run.applied(0),
        Step::Succeeded(ApplyOutcome { strategy: Strategy::PathIds, lenient: false })
    );
}

#[test]
fn the_lenient_fallback_is_applied_when_nothing_validates_strictly() {
    let (saved, current) = two_candidates();
    let (_, mut run) = apply(&saved, &current);
    assert_eq!(run.validated(false), Step::Validate { index: 0, lenient: true });
    assert_eq!(run.validated(true), Step::Validate { index: 1, lenient: false });
    // With a fallback in hand, later candidates are only checked strictly.
    assert_eq!(run.validated(false), Step::Apply { index: 0, lenient: true });
    assert_eq!(
        run.applied(0),
        Step::Succeeded(ApplyOutcome { strategy: Strategy::Verbatim, lenient: true })
    );
}

#[test]
fn when_nothing_validates_each_candidate_is_tried_directly() {
    let (saved, current) = two_candidates();
    let (_, mut run) = apply(&saved, &current);
    assert_eq!(run.validated(false), Step::Validate { index: 0, lenient: true });
    assert_eq!(run.validated(false), Step::Validate { index: 1, lenient: false });
    assert_eq!(run.validated(false), Step::Validate { index: 1, lenient: true });
    assert_eq!(run.validated(false), Step::Apply { index: 0, lenient: false });
    assert_eq!(run.applied(5), Step::Apply { index: 0, lenient: true });
    assert_eq!(run.applied(6), Step::Apply { index: 1, lenient: false });
    assert_eq!(run.applied(7), Step::Apply { index: 1, lenient: true });
    assert_eq!(run.applied(8), Step::Failed { last_status: 8 });
    // A finished run stays finished.
    assert_eq!(run.applied(0), Step::Failed { last_status: 8 });
    assert_eq!(run.validated(true), Step::Failed { last_status: 8 });
}

#[test]
fn a_direct_attempt_windows_accepts_ends_the_run() {
    let (saved, current) = two_candidates();
    let (_, mut run) = apply(&saved, &current);
    run.validated(false);
    run.validated(false);
    run.validated(false);
    assert_eq!(run.validated(false), Step::Apply { index: 0, lenient: false });
    assert_eq!(run.applied(31), Step::Apply { index: 0, lenient: true });
    assert_eq!(
        run.applied(0),
        Step::Succeeded(ApplyOutcome { strategy: Strategy::Verbatim, lenient: true })
    );
}

#[test]
fn a_validated_candidate_that_fails_to_apply_moves_on() {
    let (saved, current) = two_candidates();
    let (_, mut run) = apply(&saved, &current);
    assert_eq!(run.validated(true), Step::Apply { index: 0, lenient: false });
    assert_eq!(run.applied(31), Step::Validate { index: 1, lenient: false });
    assert_eq!(run.validated(true), Step::Apply { index: 1, lenient: false });
    assert_eq!(
        run.applied(0),
        Step::Succeeded(ApplyOutcome { strategy: Strategy::PathIds, lenient: false })
    );
}
