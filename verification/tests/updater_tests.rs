use msw_core::updater::{
    check_failed_message, install_failed_message, latest_message, offer_message, status_from, Release,
};

#[test]
fn a_found_release_is_available() {
    let s = status_from("1.0.0".into(), Some(Release { version: "1.1.0".into(), notes: Some("Fixes".into()) }));
    assert!(s.available);
    assert_eq!(s.new_version.as_deref(), Some("1.1.0"));
    assert_eq!(s.notes.as_deref(), Some("Fixes"));
    let none = status_from("1.0.0".into(), None);
    assert!(!none.available);
    assert_eq!(none.current_version, "1.0.0");
    assert_eq!(none.new_version, None);
}

#[test]
fn the_offer_includes_trimmed_notes_unless_blank() {
    let s = status_from("1.0.0".into(), Some(Release { version: "1.1.0".into(), notes: Some("  Fixes \n".into()) }));
    assert_eq!(
        offer_message(&s),
        "Version 1.1.0 is available. You have 1.0.0.\n\nFixes\n\nInstall it now? The application will restart."
    );
    let blank = status_from("1.0.0".into(), Some(Release { version: "1.1.0".into(), notes: Some("   ".into()) }));
    assert_eq!(
        offer_message(&blank),
        "Version 1.1.0 is available. You have 1.0.0.\n\nInstall it now? The application will restart."
    );
}

#[test]
fn other_reports_read_as_written() {
    let s = status_from("1.0.0".into(), None);
    assert_eq!(latest_message(&s), "Modern Monitor Switcher 1.0.0 is the latest version.");
    assert_eq!(check_failed_message("offline"), "Could not check for updates:\n\noffline");
    assert_eq!(install_failed_message("bad signature"), "Could not install the update:\n\nbad signature");
}
