use msw_core::model::DisplayConfig;
use msw_core::profile::Profile;
use msw_core::settings::NameMap;
use msw_core::tray::{build_menu, menu_action, strip_prefix, tooltip_text, MenuAction, MenuEntry};

fn empty() -> DisplayConfig {
    DisplayConfig { paths: vec![], modes: vec![], monitors: vec![] }
}

fn ids(menu: &[MenuEntry]) -> Vec<String> {
    menu.iter()
        .map(|e| match e {
            MenuEntry::Item { id, .. } => id.clone(),
            MenuEntry::Check { id, .. } => id.clone(),
            MenuEntry::Separator => "-".to_string(),
            MenuEntry::Submenu { text } => format!("[{text}"),
            MenuEntry::EndSubmenu => "]".to_string(),
        })
        .collect()
}

#[test]
fn the_tooltip_names_the_profile_on_screen() {
    assert_eq!(tooltip_text(None), "Modern Monitor Switcher");
    assert_eq!(tooltip_text(Some("Work")), "Modern Monitor Switcher\nOn screen: Work");
}

#[test]
fn an_empty_menu_offers_to_save() {
    let menu = build_menu(&vec![], None, &NameMap::new());
    assert_eq!(
        ids(&menu),
        vec!["no-profiles", "-", "save-new", "monitors-off", "-", "settings", "check-updates", "quit"]
    );
    match &menu[0] {
        MenuEntry::Item { enabled, text, .. } => {
            assert!(!enabled);
            assert_eq!(text, "No profiles yet");
        }
        _ => panic!("the placeholder is a plain item"),
    }
}

#[test]
fn profiles_get_an_entry_and_a_replace_item_each() {
    let profiles = vec![
        Profile::from_config_at("Play", empty(), 0),
        Profile::from_config_at("Work", empty(), 0),
    ];
    let mut hotkeys = NameMap::new();
    hotkeys.insert("Work".into(), "CmdOrControl+Alt+1".into());
    let menu = build_menu(&profiles, Some(&empty()), &hotkeys);
    assert_eq!(
        ids(&menu),
        vec![
            "apply:Play",
            "apply:Work",
            "-",
            "[Save current layout",
            "save-new",
            "-",
            "overwrite:Play",
            "overwrite:Work",
            "]",
            "monitors-off",
            "-",
            "settings",
            "check-updates",
            "quit"
        ]
    );
    match &menu[1] {
        MenuEntry::Check { accelerator, checked, text, .. } => {
            assert_eq!(accelerator.as_deref(), Some("CmdOrControl+Alt+1"));
            assert!(!checked, "an empty profile is never the one on screen");
            assert_eq!(text, "Work");
        }
        _ => panic!("profiles are check items"),
    }
    match &menu[6] {
        MenuEntry::Item { text, .. } => assert_eq!(text, "Replace Play"),
        _ => panic!("replace entries are plain items"),
    }
}

#[test]
fn menu_ids_decode_to_their_actions() {
    assert!(matches!(menu_action("apply:Work: late"), MenuAction::Apply(n) if n == "Work: late"));
    assert!(matches!(menu_action("overwrite:apply:x"), MenuAction::Overwrite(n) if n == "apply:x"));
    assert!(matches!(menu_action("settings"), MenuAction::ShowWindow));
    assert!(matches!(menu_action("save-new"), MenuAction::SaveNew));
    assert!(matches!(menu_action("monitors-off"), MenuAction::MonitorsOff));
    assert!(matches!(menu_action("check-updates"), MenuAction::CheckUpdates));
    assert!(matches!(menu_action("quit"), MenuAction::Quit));
    assert!(matches!(menu_action("no-profiles"), MenuAction::Ignore));
    assert!(matches!(menu_action("apply"), MenuAction::Ignore));
}

#[test]
fn prefixes_are_stripped_only_when_present() {
    assert_eq!(strip_prefix("apply:é", "apply:").as_deref(), Some("é"));
    assert_eq!(strip_prefix("apply:", "apply:").as_deref(), Some(""));
    assert_eq!(strip_prefix("appl", "apply:"), None);
    assert_eq!(strip_prefix("xpply:a", "apply:"), None);
}
