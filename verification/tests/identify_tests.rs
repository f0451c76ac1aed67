use msw_core::identify::{in_batch, is_overlay, overlay_script, script_for, window_label};

#[test]
fn overlay_labels_carry_their_call_and_index() {
    assert_eq!(window_label(0, 0), "identify-0-0");
    assert_eq!(window_label(12, 3), "identify-12-3");
}

#[test]
fn a_later_call_is_not_closed_by_an_earlier_one() {
    let label = window_label(12, 3);
    assert!(is_overlay(&label));
    assert!(in_batch(&label, 12));
    assert!(!in_batch(&label, 1), "call 1 must not close call 12's overlays");
    assert!(!in_batch(&label, 123));
    assert!(!is_overlay("main"));
}

#[test]
fn the_label_reaches_the_page_as_a_json_string() {
    assert_eq!(script_for("\"x\""), "window.__IDENTIFY_LABEL__ = \"x\";");
    assert_eq!(overlay_script("Left"), "window.__IDENTIFY_LABEL__ = \"Left\";");
    assert_eq!(
        overlay_script("say \"hi\"\n</script>"),
        "window.__IDENTIFY_LABEL__ = \"say \\\"hi\\\"\\n</script>\";"
    );
}

#[test]
fn control_characters_are_escaped_in_the_label() {
    assert_eq!(
        overlay_script("a\\b\t\u{1}\u{8}\u{c}\r\u{7f}é"),
        "window.__IDENTIFY_LABEL__ = \"a\\\\b\\t\\u0001\\b\\f\\r\u{7f}é\";"
    );
}
