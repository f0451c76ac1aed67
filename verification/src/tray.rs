//! The tray icon's menu and tooltip, as data.
//!
//! The menu is rebuilt from the saved profiles whenever they change. Each
//! item carries an id; profile names are user-supplied, so they are always
//! carried after a fixed prefix and never parsed for meaning beyond it.

use vstd::prelude::*;

use crate::model::{opt_view, same_active_monitors, ConfigModel, DisplayConfig};
use crate::profile::{profile_views, Profile, ProfileModel};
use crate::settings::NameMap;
use crate::text::push_str;
use crate::views::{lookup_name, opt_config};

verus! {

pub const TRAY_ID: &'static str = "msw-tray";

pub const APPLY_PREFIX: &'static str = "apply:";

pub const OVERWRITE_PREFIX: &'static str = "overwrite:";

pub const ID_NO_PROFILES: &'static str = "no-profiles";

pub const ID_SAVE_NEW: &'static str = "save-new";

pub const ID_SETTINGS: &'static str = "settings";

pub const ID_MONITORS_OFF: &'static str = "monitors-off";

pub const ID_CHECK_UPDATES: &'static str = "check-updates";

pub const ID_QUIT: &'static str = "quit";

/// The application's name as the tray shows it.
pub const APP_TITLE: &'static str = "Modern Monitor Switcher";

// ---------------------------------------------------------------------------
// Tooltip
// ---------------------------------------------------------------------------

pub open spec fn tooltip_of(active: Option<Seq<char>>) -> Seq<char> {
    match active {
        Some(name) => APP_TITLE@ + "\nOn screen: "@ + name,
        None => APP_TITLE@,
    }
}

pub open spec fn opt_str_view(o: Option<&str>) -> Option<Seq<char>> {
    match o {
        Some(s) => Some(s@),
        None => None,
    }
}

/// The tray tooltip, which doubles as the answer to "which profile am I
/// in?".
pub fn tooltip_text(active: Option<&str>) -> (out: String)
    ensures
        out@ == tooltip_of(opt_str_view(active)),
{
    let mut out = String::new();
    push_str(&mut out, APP_TITLE);
    match active {
        Some(name) => {
            push_str(&mut out, "\nOn screen: ");
            push_str(&mut out, name);
        },
        None => {},
    }
    out
}

// ---------------------------------------------------------------------------
// Menu
// ---------------------------------------------------------------------------

/// One line of the tray menu.
pub enum MenuEntry {
    /// A plain item.
    Item { id: String, text: String, enabled: bool },
    /// A profile, checked when it is the one on screen, showing the hotkey
    /// bound to it.
    Check { id: String, text: String, checked: bool, accelerator: Option<String> },
    Separator,
    /// Opens a submenu titled `text`; the entries up to the matching
    /// `EndSubmenu` belong to it.
    Submenu { text: String },
    EndSubmenu,
}

pub enum EntryModel {
    Item { id: Seq<char>, text: Seq<char>, enabled: bool },
    Check { id: Seq<char>, text: Seq<char>, checked: bool, accelerator: Option<Seq<char>> },
    Separator,
    Submenu { text: Seq<char> },
    EndSubmenu,
}

impl View for MenuEntry {
    type V = EntryModel;

    open spec fn view(&self) -> EntryModel {
        match self {
            MenuEntry::Item { id, text, enabled } => EntryModel::Item { id: id@, text: text@, enabled: *enabled },
            MenuEntry::Check { id, text, checked, accelerator } => EntryModel::Check {
                id: id@,
                text: text@,
                checked: *checked,
                accelerator: opt_view(*accelerator),
            },
            MenuEntry::Separator => EntryModel::Separator,
            MenuEntry::Submenu { text } => EntryModel::Submenu { text: text@ },
            MenuEntry::EndSubmenu => EntryModel::EndSubmenu,
        }
    }
}

pub open spec fn entry_views(v: Seq<MenuEntry>) -> Seq<EntryModel> {
    v.map_values(|e: MenuEntry| e@)
}

pub open spec fn apply_id(name: Seq<char>) -> Seq<char> {
    APPLY_PREFIX@ + name
}

pub open spec fn overwrite_id(name: Seq<char>) -> Seq<char> {
    OVERWRITE_PREFIX@ + name
}

pub open spec fn item(id: Seq<char>, text: Seq<char>) -> EntryModel {
    EntryModel::Item { id, text, enabled: true }
}

/// Is this profile the one on screen?
pub open spec fn on_screen(p: ProfileModel, current: Option<ConfigModel>) -> bool {
    match current {
        Some(c) => same_active_monitors(p.config, c),
        None => false,
    }
}

/// One checkable entry per profile.
pub open spec fn profile_entries(
    ps: Seq<ProfileModel>,
    current: Option<ConfigModel>,
    hotkeys: Map<Seq<char>, Seq<char>>,
) -> Seq<EntryModel> {
    Seq::new(
        ps.len(),
        |i: int|
            EntryModel::Check {
                id: apply_id(ps[i].name),
                text: ps[i].name,
                checked: on_screen(ps[i], current),
                accelerator: lookup_name(hotkeys, ps[i].name),
            },
    )
}

/// One "Replace" entry per profile.
pub open spec fn overwrite_entries(ps: Seq<ProfileModel>) -> Seq<EntryModel> {
    Seq::new(ps.len(), |i: int| item(overwrite_id(ps[i].name), "Replace "@ + ps[i].name))
}

/// The whole menu: the profiles (or a disabled placeholder), the ways to
/// save, then the fixed items.
pub open spec fn menu_of(
    ps: Seq<ProfileModel>,
    current: Option<ConfigModel>,
    hotkeys: Map<Seq<char>, Seq<char>>,
) -> Seq<EntryModel> {
    let tail = seq![
        item(ID_MONITORS_OFF@, "Turn off displays"@),
        EntryModel::Separator,
        item(ID_SETTINGS@, "Open Monitor Switcher"@),
        item(ID_CHECK_UPDATES@, "Check for updates"@),
        item(ID_QUIT@, "Quit"@),
    ];
    if ps.len() == 0 {
        seq![
            EntryModel::Item { id: ID_NO_PROFILES@, text: "No profiles yet"@, enabled: false },
            EntryModel::Separator,
            item(ID_SAVE_NEW@, "Save current layout..."@),
        ] + tail
    } else {
        profile_entries(ps, current, hotkeys) + seq![
            EntryModel::Separator,
            EntryModel::Submenu { text: "Save current layout"@ },
            item(ID_SAVE_NEW@, "New profile..."@),
            EntryModel::Separator,
        ] + overwrite_entries(ps) + seq![EntryModel::EndSubmenu] + tail
    }
}

fn plain_item(id: &str, text: &str) -> (e: MenuEntry)
    ensures
        e@ == item(id@, text@),
{
    MenuEntry::Item { id: id.to_owned(), text: text.to_owned(), enabled: true }
}

fn prefixed(prefix: &str, name: &str) -> (out: String)
    ensures
        out@ == prefix@ + name@,
{
    let mut out = String::new();
    push_str(&mut out, prefix);
    push_str(&mut out, name);
    out
}

fn push_tail(out: &mut Vec<MenuEntry>)
    ensures
        entry_views(final(out)@) == entry_views(old(out)@) + seq![
            item(ID_MONITORS_OFF@, "Turn off displays"@),
            EntryModel::Separator,
            item(ID_SETTINGS@, "Open Monitor Switcher"@),
            item(ID_CHECK_UPDATES@, "Check for updates"@),
            item(ID_QUIT@, "Quit"@),
        ],
{
    let ghost before = entry_views(out@);
    out.push(plain_item(ID_MONITORS_OFF, "Turn off displays"));
    out.push(MenuEntry::Separator);
    out.push(plain_item(ID_SETTINGS, "Open Monitor Switcher"));
    out.push(plain_item(ID_CHECK_UPDATES, "Check for updates"));
    out.push(plain_item(ID_QUIT, "Quit"));
    assert(entry_views(out@) =~= before + seq![
        item(ID_MONITORS_OFF@, "Turn off displays"@),
        EntryModel::Separator,
        item(ID_SETTINGS@, "Open Monitor Switcher"@),
        item(ID_CHECK_UPDATES@, "Check for updates"@),
        item(ID_QUIT@, "Quit"@),
    ]);
}

/// The tray menu for these profiles. `current` is what is on screen, or
/// `None` when it could not be read, in which case nothing is checked.
pub fn build_menu(profiles: &Vec<Profile>, current: Option<&DisplayConfig>, hotkeys: &NameMap) -> (out: Vec<MenuEntry>)
    ensures
        entry_views(out@) == menu_of(profile_views(profiles@), opt_config(current), hotkeys@),
{
    let ghost ps = profile_views(profiles@);
    let ghost cur = opt_config(current);
    let mut out: Vec<MenuEntry> = Vec::new();
    if profiles.len() == 0 {
        out.push(MenuEntry::Item { id: ID_NO_PROFILES.to_owned(), text: "No profiles yet".to_owned(), enabled: false });
        out.push(MenuEntry::Separator);
        out.push(plain_item(ID_SAVE_NEW, "Save current layout..."));
        let ghost head = entry_views(out@);
        assert(head =~= seq![
            EntryModel::Item { id: ID_NO_PROFILES@, text: "No profiles yet"@, enabled: false },
            EntryModel::Separator,
            item(ID_SAVE_NEW@, "Save current layout..."@),
        ]);
        push_tail(&mut out);
        return out;
    }
    let mut i: usize = 0;
    while i < profiles.len()
        invariant
            i <= profiles.len(),
            ps == profile_views(profiles@),
            cur == opt_config(current),
            entry_views(out@) == profile_entries(ps, cur, hotkeys@).take(i as int),
        decreases profiles.len() - i,
    {
        let p = &profiles[i];
        let checked = match current {
            Some(c) => p.is_active(c),
            None => false,
        };
        let accelerator = match hotkeys.get(p.name.as_str()) {
            Some(a) => Some(a.clone()),
            None => None,
        };
        let e = MenuEntry::Check {
            id: prefixed(APPLY_PREFIX, p.name.as_str()),
            text: p.name.clone(),
            checked,
            accelerator,
        };
        let ghost before = entry_views(out@);
        proof {
            assert(ps[i as int] == p@);
            assert(e@ == profile_entries(ps, cur, hotkeys@)[i as int]);
        }
        out.push(e);
        assert(entry_views(out@) =~= before.push(e@));
        assert(entry_views(out@) =~= profile_entries(ps, cur, hotkeys@).take(i + 1));
        i = i + 1;
    }
    let ghost first = entry_views(out@);
    assert(first =~= profile_entries(ps, cur, hotkeys@));
    out.push(MenuEntry::Separator);
    out.push(MenuEntry::Submenu { text: "Save current layout".to_owned() });
    out.push(plain_item(ID_SAVE_NEW, "New profile..."));
    out.push(MenuEntry::Separator);
    let ghost second = entry_views(out@);
    assert(second =~= first + seq![
        EntryModel::Separator,
        EntryModel::Submenu { text: "Save current layout"@ },
        item(ID_SAVE_NEW@, "New profile..."@),
        EntryModel::Separator,
    ]);
    let mut j: usize = 0;
    while j < profiles.len()
        invariant
            j <= profiles.len(),
            ps == profile_views(profiles@),
            entry_views(out@) == second + overwrite_entries(ps).take(j as int),
        decreases profiles.len() - j,
    {
        let name = profiles[j].name.as_str();
        let e = MenuEntry::Item {
            id: prefixed(OVERWRITE_PREFIX, name),
            text: prefixed("Replace ", name),
            enabled: true,
        };
        let ghost before = entry_views(out@);
        proof {
            assert(ps[j as int].name == name@);
            assert(e@ == overwrite_entries(ps)[j as int]);
        }
        out.push(e);
        assert(entry_views(out@) =~= before.push(e@));
        assert(entry_views(out@) =~= second + overwrite_entries(ps).take(j + 1));
        j = j + 1;
    }
    assert(overwrite_entries(ps).take(profiles.len() as int) =~= overwrite_entries(ps));
    out.push(MenuEntry::EndSubmenu);
    let ghost third = entry_views(out@);
    assert(third =~= second + overwrite_entries(ps) + seq![EntryModel::EndSubmenu]);
    push_tail(&mut out);
    out
}

// ---------------------------------------------------------------------------
// Menu events
// ---------------------------------------------------------------------------

/// What a click on a menu item asks for.
pub enum MenuAction {
    /// Switch to the named profile.
    Apply(String),
    /// Save the current layout over the named profile.
    Overwrite(String),
    /// Open the settings window.
    ShowWindow,
    /// Open the settings window at its save dialog.
    SaveNew,
    MonitorsOff,
    CheckUpdates,
    Quit,
    /// Not an item this menu made.
    Ignore,
}

pub enum ActionModel {
    Apply(Seq<char>),
    Overwrite(Seq<char>),
    ShowWindow,
    SaveNew,
    MonitorsOff,
    CheckUpdates,
    Quit,
    Ignore,
}

impl View for MenuAction {
    type V = ActionModel;

    open spec fn view(&self) -> ActionModel {
        match self {
            MenuAction::Apply(n) => ActionModel::Apply(n@),
            MenuAction::Overwrite(n) => ActionModel::Overwrite(n@),
            MenuAction::ShowWindow => ActionModel::ShowWindow,
            MenuAction::SaveNew => ActionModel::SaveNew,
            MenuAction::MonitorsOff => ActionModel::MonitorsOff,
            MenuAction::CheckUpdates => ActionModel::CheckUpdates,
            MenuAction::Quit => ActionModel::Quit,
            MenuAction::Ignore => ActionModel::Ignore,
        }
    }
}

pub open spec fn has_prefix(s: Seq<char>, p: Seq<char>) -> bool {
    p.len() <= s.len() && s.take(p.len() as int) == p
}

/// What the item with this id asks for.
pub open spec fn action_of(id: Seq<char>) -> ActionModel {
    if has_prefix(id, APPLY_PREFIX@) {
        ActionModel::Apply(id.skip(APPLY_PREFIX@.len() as int))
    } else if has_prefix(id, OVERWRITE_PREFIX@) {
        ActionModel::Overwrite(id.skip(OVERWRITE_PREFIX@.len() as int))
    } else if id == ID_SETTINGS@ {
        ActionModel::ShowWindow
    } else if id == ID_SAVE_NEW@ {
        ActionModel::SaveNew
    } else if id == ID_MONITORS_OFF@ {
        ActionModel::MonitorsOff
    } else if id == ID_CHECK_UPDATES@ {
        ActionModel::CheckUpdates
    } else if id == ID_QUIT@ {
        ActionModel::Quit
    } else {
        ActionModel::Ignore
    }
}

/// `s` without `prefix`, when it starts with it.
pub fn strip_prefix(s: &str, prefix: &str) -> (out: Option<String>)
    ensures
        match out {
            Some(rest) => has_prefix(s@, prefix@) && rest@ == s@.skip(prefix@.len() as int),
            None => !has_prefix(s@, prefix@),
        },
{
    let cs = crate::text::chars_of(s);
    let ps = crate::text::chars_of(prefix);
    if ps.len() > cs.len() {
        return None;
    }
    let mut i: usize = 0;
    while i < ps.len()
        invariant
            i <= ps.len() <= cs.len(),
            cs@ == s@,
            ps@ == prefix@,
            forall|k: int| 0 <= k < i ==> cs@[k] == ps@[k],
        decreases ps.len() - i,
    {
        if cs[i] != ps[i] {
            assert(s@.take(prefix@.len() as int)[i as int] != prefix@[i as int]);
            return None;
        }
        i = i + 1;
    }
    assert(s@.take(prefix@.len() as int) =~= prefix@);
    let mut rest: Vec<char> = Vec::new();
    let mut j: usize = ps.len();
    while j < cs.len()
        invariant
            ps.len() <= j <= cs.len(),
            cs@ == s@,
            ps@ == prefix@,
            rest@ == s@.subrange(prefix@.len() as int, j as int),
        decreases cs.len() - j,
    {
        rest.push(cs[j]);
        assert(rest@ =~= s@.subrange(prefix@.len() as int, j + 1));
        j = j + 1;
    }
    assert(rest@ =~= s@.skip(prefix@.len() as int));
    Some(crate::text::string_of(&rest))
}

/// What a click on the menu item with this id asks for.
pub fn menu_action(id: &str) -> (out: MenuAction)
    ensures
        out@ == action_of(id@),
{
    match strip_prefix(id, APPLY_PREFIX) {
        Some(name) => {
            return MenuAction::Apply(name);
        },
        None => {},
    }
    match strip_prefix(id, OVERWRITE_PREFIX) {
        Some(name) => {
            return MenuAction::Overwrite(name);
        },
        None => {},
    }
    if crate::text::str_eq(id, ID_SETTINGS) {
        MenuAction::ShowWindow
    } else if crate::text::str_eq(id, ID_SAVE_NEW) {
        MenuAction::SaveNew
    } else if crate::text::str_eq(id, ID_MONITORS_OFF) {
        MenuAction::MonitorsOff
    } else if crate::text::str_eq(id, ID_CHECK_UPDATES) {
        MenuAction::CheckUpdates
    } else if crate::text::str_eq(id, ID_QUIT) {
        MenuAction::Quit
    } else {
        MenuAction::Ignore
    }
}

// ---------------------------------------------------------------------------
// Laws
// ---------------------------------------------------------------------------

/// Whatever a profile is called, clicking its menu entry switches to exactly
/// that profile, and clicking its "Replace" entry saves over exactly it:
/// the name is carried through the id unparsed.
pub proof fn law_profile_ids_round_trip(name: Seq<char>)
    ensures
        action_of(apply_id(name)) == ActionModel::Apply(name),
        action_of(overwrite_id(name)) == ActionModel::Overwrite(name),
{
    reveal_strlit("apply:");
    reveal_strlit("overwrite:");
    let a = apply_id(name);
    assert(a.take(6) =~= APPLY_PREFIX@);
    assert(a.skip(6) =~= name);
    let o = overwrite_id(name);
    assert(o.take(10) =~= OVERWRITE_PREFIX@);
    assert(o.skip(10) =~= name);
    // An overwrite id does not start with "apply:".
    assert(o[0] == 'o');
    assert(!has_prefix(o, APPLY_PREFIX@)) by {
        if has_prefix(o, APPLY_PREFIX@) {
            assert(o.take(6)[0] == 'a');
        }
    }
}


/// Does this entry show a check mark?
pub open spec fn shows_check(e: EntryModel) -> bool {
    match e {
        EntryModel::Check { checked, .. } => checked,
        _ => false,
    }
}

/// The menu opens with one checkable entry per profile, in order, named after
/// it, and an entry is checked exactly when that profile's configuration
/// lights the same, non-empty, set of monitors as the one on screen. Nothing
/// is checked when the screen could not be read, and two checked entries
/// always belong to profiles lighting the same monitors.
pub proof fn law_menu_checks_what_is_on_screen(
    ps: Seq<ProfileModel>,
    current: Option<ConfigModel>,
    hotkeys: Map<Seq<char>, Seq<char>>,
)
    requires
        ps.len() > 0,
    ensures
        forall|i: int|
            0 <= i < ps.len() ==> #[trigger] menu_of(ps, current, hotkeys)[i] == (EntryModel::Check {
                id: apply_id(ps[i].name),
                text: ps[i].name,
                checked: match current {
                    Some(c) => !crate::model::identity_set(ps[i].config).is_empty() && crate::model::identity_set(
                        ps[i].config,
                    ) == crate::model::identity_set(c),
                    None => false,
                },
                accelerator: lookup_name(hotkeys, ps[i].name),
            }),
        forall|i: int, j: int|
            0 <= i < ps.len() && 0 <= j < ps.len() && shows_check(#[trigger] menu_of(ps, current, hotkeys)[i])
                && shows_check(#[trigger] menu_of(ps, current, hotkeys)[j]) ==> crate::model::identity_set(
                ps[i].config,
            ) == crate::model::identity_set(ps[j].config),
{
    let m = menu_of(ps, current, hotkeys);
    let pe = profile_entries(ps, current, hotkeys);
    assert forall|i: int| 0 <= i < ps.len() implies #[trigger] m[i] == pe[i] by {}
}
} // verus!
