use msw_core::model::{available_paths, needs_identity, Luid, MonitorInfo, PathInfo, PathSourceInfo, PathTargetInfo, Rational};
use msw_core::text::wide_to_string;

#[test]
fn wide_decoding_stops_at_nul() {
    let buf: Vec<u16> = "DELL U2720Q\0garbage".encode_utf16().collect();
    assert_eq!(wide_to_string(&buf).as_deref(), Some("DELL U2720Q"));
}

#[test]
fn empty_wide_buffer_is_none() {
    assert_eq!(wide_to_string(&[0u16; 64]), None);
    assert_eq!(wide_to_string(&[]), None);
}

#[test]
fn a_full_buffer_and_a_lone_surrogate_still_decode() {
    let buf: Vec<u16> = "café".encode_utf16().collect();
    assert_eq!(wide_to_string(&buf).as_deref(), Some("café"));
    assert_eq!(wide_to_string(&[0x41, 0xD800, 0x42, 0]).as_deref(), Some("A\u{FFFD}B"));
}

fn path(target: u32, available: bool) -> PathInfo {
    PathInfo {
        source: PathSourceInfo { adapter_id: Luid { low: 1, high: 0 }, id: 0, mode_info_idx: 0, status_flags: 0 },
        target: PathTargetInfo {
            adapter_id: Luid { low: 1, high: 0 },
            id: target,
            mode_info_idx: 0,
            output_technology: 0,
            rotation: 1,
            scaling: 1,
            refresh_rate: Rational { numerator: 60, denominator: 1 },
            scanline_ordering: 1,
            target_available: available,
            status_flags: 0,
        },
        flags: 0,
    }
}

#[test]
fn absent_targets_are_dropped_and_identities_asked_once() {
    let paths = vec![path(1, true), path(2, false), path(3, true)];
    let kept: Vec<u32> = available_paths(&paths).iter().map(|p| p.target.id).collect();
    assert_eq!(kept, vec![1, 3]);

    let known = vec![MonitorInfo {
        adapter_id: Luid { low: 1, high: 0 },
        id: 1,
        friendly_name: None,
        device_path: None,
        output_technology: 0,
        edid_manufacture_id: 0,
        edid_product_code_id: 0,
        connector_instance: 0,
    }];
    assert!(!needs_identity(&known, &paths[0]));
    assert!(needs_identity(&known, &paths[2]));
}

#[test]
fn surrogate_pairs_combine_and_stray_halves_are_replaced() {
    let buf: Vec<u16> = "A😀B".encode_utf16().chain([0]).collect();
    assert_eq!(wide_to_string(&buf).as_deref(), Some("A😀B"));
    assert_eq!(wide_to_string(&[0xDC00, 0xD83D, 0x43, 0]).as_deref(), Some("\u{FFFD}\u{FFFD}C"));
}
