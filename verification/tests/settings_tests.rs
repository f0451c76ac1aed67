use msw_core::settings::Settings;

#[test]
fn defaults_are_sensible() {
    let s = Settings::default();
    assert!(
        s.check_for_updates,
        "updating quietly is the point of this rewrite"
    );
    assert!(s.hotkeys.is_empty());
}

#[test]
fn pruning_drops_bindings_for_deleted_profiles() {
    let mut s = Settings::default();
    s.hotkeys.insert("Work".into(), "CmdOrControl+Alt+1".into());
    s.hotkeys.insert("Gone".into(), "CmdOrControl+Alt+2".into());

    assert!(s.prune_hotkeys(&["Work".to_string()]));
    assert_eq!(s.hotkeys.len(), 1);
    assert!(s.hotkeys.contains_key("Work"));

    assert!(
        !s.prune_hotkeys(&["Work".to_string()]),
        "pruning twice changes nothing"
    );
}

#[test]
fn accelerators_resolve_back_to_their_profile() {
    let mut s = Settings::default();
    s.hotkeys.insert("Play".into(), "CmdOrControl+Alt+2".into());

    assert_eq!(
        s.profile_for_accelerator("CmdOrControl+Alt+2"),
        Some("Play")
    );
    assert_eq!(s.profile_for_accelerator("CmdOrControl+Alt+9"), None);
}

#[test]
fn bindings_are_listed_in_name_order() {
    let mut s = Settings::default();
    s.hotkeys.insert("Work".into(), "A".into());
    s.hotkeys.insert("Arcade".into(), "B".into());
    s.hotkeys.insert("Play".into(), "C".into());
    let names: Vec<String> = s.hotkeys.entries().into_iter().map(|(n, _)| n).collect();
    assert_eq!(names, vec!["Arcade", "Play", "Work"]);
}

#[test]
fn inserting_again_replaces_and_returns_the_old_value() {
    let mut s = Settings::default();
    assert_eq!(s.hotkeys.insert("Work".into(), "A".into()), None);
    assert_eq!(s.hotkeys.insert("Work".into(), "B".into()), Some("A".to_string()));
    assert_eq!(s.hotkeys.len(), 1);
    assert_eq!(s.hotkeys.get("Work").map(|v| v.as_str()), Some("B"));
    assert_eq!(s.hotkeys.remove("Work"), Some("B".to_string()));
    assert_eq!(s.hotkeys.remove("Work"), None);
    assert!(s.hotkeys.is_empty());
}

#[test]
fn the_smallest_name_wins_when_two_share_an_accelerator() {
    let mut s = Settings::default();
    s.hotkeys.insert("Work".into(), "A".into());
    s.hotkeys.insert("Play".into(), "A".into());
    assert_eq!(s.profile_for_accelerator("A"), Some("Play"));
}

#[test]
fn a_set_hotkey_is_trimmed_and_resolves_back() {
    let mut s = Settings::default();
    assert_eq!(
        s.set_hotkey("Work".into(), Some("  CmdOrControl+Alt+1 ".into()), true),
        Ok(())
    );
    assert_eq!(s.profile_for_accelerator("CmdOrControl+Alt+1"), Some("Work"));
}

#[test]
fn a_taken_accelerator_is_refused_with_its_owner() {
    let mut s = Settings::default();
    s.set_hotkey("Work".into(), Some("CmdOrControl+Alt+1".into()), true).unwrap();
    assert_eq!(
        s.set_hotkey("Play".into(), Some("CmdOrControl+Alt+1".into()), true),
        Err("CmdOrControl+Alt+1 is already assigned to Work.".to_string())
    );
    assert_eq!(s.hotkeys.len(), 1);
    // Rebinding the same profile to its own accelerator is fine.
    assert_eq!(
        s.set_hotkey("Work".into(), Some("CmdOrControl+Alt+1".into()), true),
        Ok(())
    );
}

#[test]
fn an_unusable_accelerator_is_refused() {
    let mut s = Settings::default();
    assert_eq!(
        s.set_hotkey("Work".into(), Some(" Nonsense ".into()), false),
        Err("Nonsense is not a usable key combination.".to_string())
    );
    assert!(s.hotkeys.is_empty());
}

#[test]
fn a_blank_accelerator_clears_the_binding() {
    let mut s = Settings::default();
    s.set_hotkey("Work".into(), Some("A".into()), true).unwrap();
    assert_eq!(s.set_hotkey("Work".into(), Some("   ".into()), false), Ok(()));
    assert!(s.hotkeys.is_empty());
    s.set_hotkey("Work".into(), Some("A".into()), true).unwrap();
    assert_eq!(s.set_hotkey("Work".into(), None, false), Ok(()));
    assert!(s.hotkeys.is_empty());
}

#[test]
fn nicknames_are_trimmed_limited_and_cleared() {
    let mut s = Settings::default();
    assert_eq!(s.set_monitor_name("key".into(), Some("  Left ".into())), Ok(()));
    assert_eq!(s.monitor_names.get("key").map(|v| v.as_str()), Some("Left"));

    let long = "x".repeat(33);
    assert_eq!(
        s.set_monitor_name("key".into(), Some(long)),
        Err("Keep the nickname to 32 characters or fewer.".to_string())
    );
    assert_eq!(s.monitor_names.get("key").map(|v| v.as_str()), Some("Left"));

    // Thirty-two characters, some of them more than one byte, still fit.
    let fits = "é".repeat(32);
    assert_eq!(s.set_monitor_name("key".into(), Some(fits.clone())), Ok(()));
    assert_eq!(s.monitor_names.get("key"), Some(&fits));

    assert_eq!(s.set_monitor_name("key".into(), Some(" ".into())), Ok(()));
    assert!(s.monitor_names.is_empty());
}

#[test]
fn renaming_carries_the_hotkey_and_deleting_releases_it() {
    let mut s = Settings::default();
    s.hotkeys.insert("Old".into(), "A".into());
    assert!(s.move_hotkey("Old", "New".into()));
    assert_eq!(s.profile_for_accelerator("A"), Some("New"));
    assert!(!s.hotkeys.contains_key("Old"));
    assert!(!s.move_hotkey("Old", "Other".into()));

    assert!(s.forget_hotkey("New"));
    assert!(!s.forget_hotkey("New"));
    assert!(s.hotkeys.is_empty());
}

#[test]
fn renaming_there_and_back_restores_the_bindings() {
    let mut s = Settings::default();
    s.hotkeys.insert("Old".into(), "A".into());
    s.hotkeys.insert("Other".into(), "B".into());
    let before = s.hotkeys.entries();
    assert!(s.move_hotkey("Old", "New".into()));
    assert!(s.move_hotkey("New", "Old".into()));
    assert_eq!(s.hotkeys.entries(), before);
}

#[test]
fn no_accelerator_is_held_twice_after_a_run_of_changes() {
    let mut s = Settings::default();
    s.set_hotkey("Work".into(), Some("A".into()), true).unwrap();
    assert!(s.set_hotkey("Play".into(), Some(" A ".into()), true).is_err());
    s.set_hotkey("Play".into(), Some("B".into()), true).unwrap();
    assert!(s.set_hotkey("Work".into(), Some("B".into()), true).is_err());
    s.set_hotkey("Work".into(), None, true).unwrap();
    s.set_hotkey("Gaming".into(), Some("A".into()), true).unwrap();
    let entries = s.hotkeys.entries();
    for i in 0..entries.len() {
        for j in (i + 1)..entries.len() {
            assert_ne!(entries[i].1, entries[j].1);
        }
    }
    assert_eq!(
        entries,
        vec![
            ("Gaming".to_string(), "A".to_string()),
            ("Play".to_string(), "B".to_string())
        ]
    );
}

#[test]
fn an_accelerator_nobody_holds_resolves_to_nothing() {
    let mut s = Settings::default();
    s.set_hotkey("Work".into(), Some("A".into()), true).unwrap();
    assert_eq!(s.profile_for_accelerator("B"), None);
    s.set_hotkey("Work".into(), None, true).unwrap();
    assert_eq!(s.profile_for_accelerator("A"), None);
}
