use msw_core::model::DisplayConfig;
use msw_core::error::Error;
use msw_core::profile::{
    checked_name, is_valid_name, now_rfc3339, order_by_keys, profile_file_name, rename_clashes,
    rfc3339_from_unix, Profile,
};

fn empty_config() -> DisplayConfig {
    DisplayConfig {
        paths: Vec::new(),
        modes: Vec::new(),
        monitors: Vec::new(),
    }
}

#[test]
fn valid_names_are_accepted() {
    for name in ["Work", "Play", "Work 2", "3-monitor setup", "café"] {
        assert!(is_valid_name(name), "{name:?} should be valid");
    }
}

#[test]
fn invalid_names_are_rejected() {
    for name in [
        "",
        "   ",
        "a/b",
        "a\\b",
        "a:b",
        "a*b",
        "a?b",
        "con",
        "CON",
        "NUL",
        "PRN.json",
        "trailing.",
        "a\u{7}b",
    ] {
        assert!(!is_valid_name(name), "{name:?} should be rejected");
    }
    assert!(!is_valid_name(&"x".repeat(65)));
}

#[test]
fn timestamp_looks_like_rfc3339() {
    let stamp = now_rfc3339();
    assert_eq!(stamp.len(), 20, "{stamp}");
    assert!(stamp.ends_with('Z'));
    assert_eq!(stamp.as_bytes()[4], b'-');
    assert_eq!(stamp.as_bytes()[10], b'T');

    let year: i32 = stamp[..4].parse().unwrap();
    assert!((2024..2100).contains(&year), "implausible year in {stamp}");
}

#[test]
fn summary_reads_naturally() {
    let mut profile = Profile::from_config("Work", empty_config());
    assert_eq!(profile.summary(), "no active monitors");

    profile.active_monitors = vec!["DELL U2720Q".into()];
    assert_eq!(profile.summary(), "DELL U2720Q");

    profile.active_monitors = vec!["A".into(), "B".into()];
    assert_eq!(profile.summary(), "2 monitors: A, B");
}

#[test]
fn known_instants_format_exactly() {
    assert_eq!(rfc3339_from_unix(0), "1970-01-01T00:00:00Z");
    assert_eq!(rfc3339_from_unix(951_782_400), "2000-02-29T00:00:00Z");
    assert_eq!(rfc3339_from_unix(1_709_210_096), "2024-02-29T12:34:56Z");
    assert_eq!(rfc3339_from_unix(-1), "1969-12-31T23:59:59Z");
}

#[test]
fn ordering_by_given_keys_is_stable() {
    let entries: Vec<(Vec<char>, Profile)> = [("z", "a"), ("m", "b"), ("z", "c"), ("a", "d")]
        .iter()
        .map(|(k, n)| (k.chars().collect(), Profile::from_config_at(n, empty_config(), 0)))
        .collect();
    let names: Vec<String> = order_by_keys(entries).into_iter().map(|p| p.name).collect();
    assert_eq!(names, vec!["d", "b", "a", "c"]);
}

#[test]
fn a_file_name_overrides_the_name_inside() {
    let p = Profile::from_config_at("Something Else", empty_config(), 0);
    assert_eq!(p.named_after_file(Some("Work")).name, "Work");
    let q = Profile::from_config_at("Work", empty_config(), 0);
    assert_eq!(q.named_after_file(None).name, "Work");
}

#[test]
fn names_become_trimmed_file_names() {
    assert_eq!(profile_file_name("  Work "), "Work.json");
    assert_eq!(checked_name(" Work ").ok().as_deref(), Some("Work"));
    assert!(matches!(checked_name("bad/name"), Err(Error::InvalidProfileName(n)) if n == "bad/name"));
    assert!(rename_clashes("Work", "Play", true));
    assert!(!rename_clashes("Work", "WORK", true), "changing only the case is not a clash");
    assert!(!rename_clashes("Work", "Play", false));
}

#[test]
fn a_name_and_its_trimmed_form_are_judged_alike() {
    for name in ["  Work  ", "\tCON ", " a. ", "   ", " Gaming\n"] {
        assert_eq!(is_valid_name(name), is_valid_name(name.trim()), "{name:?}");
    }
    assert!(is_valid_name("  Work  "));
    assert!(!is_valid_name(" con "));
}
