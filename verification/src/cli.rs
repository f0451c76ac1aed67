//! What the command line front end prints.
//!
//! Each report is a list of lines. Names are shown the way `{:?}` shows a
//! string, quoted; the functions that lay out a report take the name as it
//! is to be shown, so they say exactly what is printed for any text.

use vstd::prelude::*;

use crate::apply::{strategy_description, ApplyOutcome, Strategy};
use crate::error::{debug_quoted, quoted};
use crate::model::{active_monitors, label_of, ref_views, ConfigModel, DisplayConfig, MonitorModel};
use crate::profile::{profile_views, summary_text, Profile, ProfileModel};
use crate::text::{
    char_code, chars_of, decimal, lowercase, push_char, push_decimal, push_str, repeat,
    str_eq, to_lowercase, trim, trim_chars, string_of, utf8_len, views,
};
use crate::views::monitor_lit;

verus! {

// ---------------------------------------------------------------------------
// Logging
// ---------------------------------------------------------------------------

/// The log level for a count of `-v` flags.
pub open spec fn level_for(verbose: u8) -> Seq<char> {
    if verbose == 0 {
        "warn"@
    } else if verbose == 1 {
        "info"@
    } else {
        "debug"@
    }
}

/// The log level for a count of `-v` flags: warnings by default, then
/// progress, then detail.
pub fn log_level(verbose: u8) -> (out: &'static str)
    ensures
        out@ == level_for(verbose),
{
    if verbose == 0 {
        "warn"
    } else if verbose == 1 {
        "info"
    } else {
        "debug"
    }
}

/// The log filter used when none is given in the environment.
pub fn default_log_filter(verbose: u8) -> (out: String)
    ensures
        out@ == "msw_core="@ + level_for(verbose) + ",msw_cli="@ + level_for(verbose),
{
    let level = log_level(verbose);
    let mut out = String::new();
    push_str(&mut out, "msw_core=");
    push_str(&mut out, level);
    push_str(&mut out, ",msw_cli=");
    push_str(&mut out, level);
    out
}

// ---------------------------------------------------------------------------
// Names
// ---------------------------------------------------------------------------

/// A name as the command line shows it: quoted, as `{:?}` writes it.
pub fn shown_name(name: &str) -> (out: String)
    ensures
        out@ == debug_quoted(name@),
{
    quoted(name)
}

// ---------------------------------------------------------------------------
// list
// ---------------------------------------------------------------------------

/// The widest name, in bytes: what the table's first column is sized by.
pub open spec fn name_width(ps: Seq<ProfileModel>) -> nat
    decreases ps.len(),
{
    if ps.len() == 0 {
        0
    } else {
        let rest = name_width(ps.drop_last());
        let w = utf8_len(ps.last().name);
        if w > rest {
            w
        } else {
            rest
        }
    }
}

/// `text` padded with spaces to `width` characters, as `{:width$}` does.
pub open spec fn padded(text: Seq<char>, width: nat) -> Seq<char> {
    if text.len() < width {
        text + repeat(' ', (width - text.len()) as nat)
    } else {
        text
    }
}

/// The table line for one profile.
pub open spec fn list_line(p: ProfileModel, width: nat) -> Seq<char> {
    padded(p.name, width) + "  "@ + summary_text(p.active_monitors)
}

/// What `msw list` prints.
pub open spec fn list_text(ps: Seq<ProfileModel>) -> Seq<Seq<char>> {
    if ps.len() == 0 {
        seq![
            "No profiles yet."@,
            Seq::empty(),
            "Arrange your monitors the way you want them, then run:"@,
            "    msw save \"Play\""@,
        ]
    } else {
        Seq::new(ps.len(), |i: int| list_line(ps[i], name_width(ps)))
    }
}

/// The number of bytes the characters take in UTF-8.
fn utf8_bytes(s: &str) -> (n: u128)
    ensures
        n == utf8_len(s@),
{
    let cs = chars_of(s);
    let mut total: u128 = 0;
    let mut i: usize = 0;
    while i < cs.len()
        invariant
            i <= cs.len(),
            cs@ == s@,
            total == utf8_len(cs@.take(i as int)),
            total <= 4 * i,
        decreases cs.len() - i,
    {
        let v = char_code(cs[i]);
        let w: u128 = if v < 0x80 {
            1
        } else if v < 0x800 {
            2
        } else if v < 0x10000 {
            3
        } else {
            4
        };
        proof {
            crate::text::lemma_utf8_len_append(cs@.take(i as int), cs@[i as int]);
            assert(cs@.take(i as int).push(cs@[i as int]) =~= cs@.take(i + 1));
        }
        total = total + w;
        i = i + 1;
    }
    assert(cs@.take(cs.len() as int) =~= cs@);
    total
}

/// Appends `text` padded with spaces to `width` characters.
fn push_padded(out: &mut String, text: &str, width: u128)
    ensures
        final(out)@ == old(out)@ + padded(text@, width as nat),
{
    push_str(out, text);
    let n = chars_of(text).len() as u128;
    let ghost start = out@;
    if n < width {
        let mut k: u128 = n;
        while k < width
            invariant
                n <= k <= width,
                out@ == start + repeat(' ', (k - n) as nat),
            decreases width - k,
        {
            push_char(out, ' ');
            assert(repeat(' ', (k - n) as nat).push(' ') =~= repeat(' ', (k + 1 - n) as nat));
            k = k + 1;
        }
    }
}

/// What `msw list` prints: a hint when there are no profiles, otherwise a
/// table of names and summaries.
pub fn list_lines(profiles: &Vec<Profile>) -> (out: Vec<String>)
    ensures
        views(out@) == list_text(profile_views(profiles@)),
{
    let ghost ps = profile_views(profiles@);
    let mut out: Vec<String> = Vec::new();
    if profiles.len() == 0 {
        out.push("No profiles yet.".to_owned());
        out.push(String::new());
        out.push("Arrange your monitors the way you want them, then run:".to_owned());
        out.push("    msw save \"Play\"".to_owned());
        assert(views(out@) =~= list_text(ps));
        return out;
    }
    let mut width: u128 = 0;
    let mut i: usize = 0;
    while i < profiles.len()
        invariant
            i <= profiles.len(),
            ps == profile_views(profiles@),
            width == name_width(ps.take(i as int)),
        decreases profiles.len() - i,
    {
        assert(ps.take(i + 1).drop_last() =~= ps.take(i as int));
        assert(ps.take(i + 1).last() == profiles@[i as int]@);
        let w = utf8_bytes(profiles[i].name.as_str());
        if w > width {
            width = w;
        }
        i = i + 1;
    }
    assert(ps.take(profiles.len() as int) =~= ps);
    let mut j: usize = 0;
    while j < profiles.len()
        invariant
            j <= profiles.len(),
            ps == profile_views(profiles@),
            width == name_width(ps),
            out@.len() == j,
            forall|k: int| 0 <= k < j ==> (#[trigger] out@[k])@ == list_line(ps[k], width as nat),
        decreases profiles.len() - j,
    {
        let p = &profiles[j];
        let mut line = String::new();
        push_padded(&mut line, p.name.as_str(), width);
        push_str(&mut line, "  ");
        let summary = p.summary();
        push_str(&mut line, summary.as_str());
        out.push(line);
        j = j + 1;
    }
    assert(views(out@) =~= list_text(ps));
    out
}

// ---------------------------------------------------------------------------
// current
// ---------------------------------------------------------------------------

/// The labels of the connected monitors no active path lights, in order.
pub open spec fn unlit_labels(c: ConfigModel, ms: Seq<MonitorModel>) -> Seq<Seq<char>>
    decreases ms.len(),
{
    if ms.len() == 0 {
        Seq::empty()
    } else {
        let rest = unlit_labels(c, ms.drop_last());
        if monitor_lit(c, ms.last()) {
            rest
        } else {
            rest.push(label_of(ms.last()))
        }
    }
}

/// What `msw current` prints: a count, the active monitors, then those
/// connected but not in use.
pub open spec fn current_text(c: ConfigModel) -> Seq<Seq<char>> {
    let active = active_monitors(c);
    let unlit = unlit_labels(c, c.monitors);
    let head = seq![decimal(active.len()) + " active of "@ + decimal(c.paths.len()) + " known display path(s):"@];
    let lit_lines = Seq::new(active.len(), |i: int| "  * "@ + label_of(active[i]));
    let rest = if unlit.len() == 0 {
        Seq::empty()
    } else {
        seq![Seq::empty(), "Connected but not in use:"@] + Seq::new(unlit.len(), |i: int| "  - "@ + unlit[i])
    };
    head + lit_lines + rest
}

fn prefixed_line(prefix: &str, text: &str) -> (out: String)
    ensures
        out@ == prefix@ + text@,
{
    let mut out = String::new();
    push_str(&mut out, prefix);
    push_str(&mut out, text);
    out
}

/// What `msw current` prints.
pub fn current_lines(config: &DisplayConfig) -> (out: Vec<String>)
    ensures
        views(out@) == current_text(config@),
{
    let active = config.active_monitors();
    let ghost am = active_monitors(config@);
    let mut out: Vec<String> = Vec::new();
    let mut head = String::new();
    push_decimal(&mut head, active.len() as u64);
    push_str(&mut head, " active of ");
    push_decimal(&mut head, config.paths.len() as u64);
    push_str(&mut head, " known display path(s):");
    out.push(head);
    let ghost first = views(out@);
    let mut i: usize = 0;
    while i < active.len()
        invariant
            i <= active.len(),
            am == ref_views(active@),
            views(out@) == first + Seq::new(i as nat, |k: int| "  * "@ + label_of(am[k])),
        decreases active.len() - i,
    {
        let l = active[i].label();
        let line = prefixed_line("  * ", l.as_str());
        let ghost before = views(out@);
        let ghost lv = line@;
        assert(am[i as int] == active@[i as int]@);
        out.push(line);
        assert(views(out@) =~= before.push(lv));
        assert(views(out@) =~= first + Seq::new((i + 1) as nat, |k: int| "  * "@ + label_of(am[k])));
        i = i + 1;
    }
    let ghost second = views(out@);
    let mut unlit: Vec<String> = Vec::new();
    let mut j: usize = 0;
    while j < config.monitors.len()
        invariant
            j <= config.monitors.len(),
            views(unlit@) == unlit_labels(config@, config@.monitors.take(j as int)),
        decreases config.monitors.len() - j,
    {
        let m = &config.monitors[j];
        assert(config@.monitors.take(j + 1).drop_last() =~= config@.monitors.take(j as int));
        assert(config@.monitors.take(j + 1).last() == m@);
        if !crate::views::is_active(config, m) {
            let ghost before = unlit@;
            let l = m.label();
            unlit.push(l);
            assert(views(unlit@) =~= views(before).push(l@));
        }
        j = j + 1;
    }
    assert(config@.monitors.take(config.monitors.len() as int) =~= config@.monitors);
    let ghost ul = views(unlit@);
    assert(ul == unlit_labels(config@, config@.monitors));
    assert(am.len() == active@.len());
    assert(first =~= seq![decimal(am.len()) + " active of "@ + decimal(config@.paths.len()) + " known display path(s):"@]);
    assert(second == seq![decimal(am.len()) + " active of "@ + decimal(config@.paths.len()) + " known display path(s):"@] + Seq::new(am.len(), |k: int| "  * "@ + label_of(am[k])));
    if unlit.len() > 0 {
        out.push(String::new());
        out.push("Connected but not in use:".to_owned());
        let ghost third = views(out@);
        let mut k: usize = 0;
        while k < unlit.len()
            invariant
                k <= unlit.len(),
                ul == views(unlit@),
                views(out@) == third + Seq::new(k as nat, |x: int| "  - "@ + ul[x]),
            decreases unlit.len() - k,
        {
            let line = prefixed_line("  - ", unlit[k].as_str());
            let ghost before = views(out@);
            let ghost lv = line@;
            out.push(line);
            assert(views(out@) =~= before.push(lv));
            assert(views(out@) =~= third + Seq::new((k + 1) as nat, |x: int| "  - "@ + ul[x]));
            k = k + 1;
        }
        assert(views(out@) =~= current_text(config@));
    } else {
        assert(views(out@) =~= current_text(config@));
    }
    out
}

// ---------------------------------------------------------------------------
// save, apply, delete, rename, reset
// ---------------------------------------------------------------------------

/// What `msw save` prints once the profile is saved.
pub fn saved_line(shown: &str, profile: &Profile) -> (out: String)
    ensures
        out@ == "Saved "@ + shown@ + ": "@ + summary_text(profile@.active_monitors),
{
    let mut out = String::new();
    push_str(&mut out, "Saved ");
    push_str(&mut out, shown);
    push_str(&mut out, ": ");
    let summary = profile.summary();
    push_str(&mut out, summary.as_str());
    out
}

/// Why `msw save` refuses to replace a profile without `--force`.
pub fn exists_refusal(shown: &str) -> (out: String)
    ensures
        out@ == "a profile named "@ + shown@ + " already exists; pass --force to replace it"@,
{
    let mut out = String::new();
    push_str(&mut out, "a profile named ");
    push_str(&mut out, shown);
    push_str(&mut out, " already exists; pass --force to replace it");
    out
}

pub open spec fn fallback_line(option: (Strategy, bool)) -> Seq<char> {
    "  - "@ + strategy_description(option.0) + if option.1 {
        " (with adjustments)"@
    } else {
        Seq::empty()
    }
}

/// What `msw apply --dry-run` prints, given the strategies that would
/// apply in the order they would be tried, each marked when it needs
/// Windows to adjust modes.
pub open spec fn dry_run_text(shown: Seq<char>, options: Seq<(Strategy, bool)>) -> Seq<Seq<char>> {
    if options.len() == 0 {
        seq![
            shown + " would NOT apply cleanly."@,
            Seq::empty(),
            "Windows rejected every way of matching this profile to the monitors"@,
            "connected right now. Applying it anyway may still work, but check that"@,
            "the monitors this profile expects are actually plugged in."@,
        ]
    } else {
        let first = seq![shown + " would apply: "@ + strategy_description(options[0].0) + "."@];
        let note = if options[0].1 {
            seq![
                Seq::empty(),
                "Note: only with SDC_ALLOW_CHANGES, so Windows would be free to adjust"@,
                "resolution or refresh rate to make it fit."@,
            ]
        } else {
            Seq::empty()
        };
        let fallbacks = if options.len() > 1 {
            seq![Seq::empty(), "Fallbacks available if that fails:"@] + Seq::new(
                (options.len() - 1) as nat,
                |i: int| fallback_line(options[i + 1]),
            )
        } else {
            Seq::empty()
        };
        first + note + fallbacks
    }
}

/// What `msw apply --dry-run` prints.
pub fn dry_run_lines(shown: &str, options: &Vec<(Strategy, bool)>) -> (out: Vec<String>)
    ensures
        views(out@) == dry_run_text(shown@, options@),
{
    let mut out: Vec<String> = Vec::new();
    if options.len() == 0 {
        out.push(prefixed_line(shown, " would NOT apply cleanly."));
        out.push(String::new());
        out.push("Windows rejected every way of matching this profile to the monitors".to_owned());
        out.push("connected right now. Applying it anyway may still work, but check that".to_owned());
        out.push("the monitors this profile expects are actually plugged in.".to_owned());
        assert(views(out@) =~= dry_run_text(shown@, options@));
        return out;
    }
    let (strategy, lenient) = options[0];
    let mut first = prefixed_line(shown, " would apply: ");
    push_str(&mut first, strategy.describe());
    push_str(&mut first, ".");
    out.push(first);
    if lenient {
        out.push(String::new());
        out.push("Note: only with SDC_ALLOW_CHANGES, so Windows would be free to adjust".to_owned());
        out.push("resolution or refresh rate to make it fit.".to_owned());
    }
    if options.len() > 1 {
        out.push(String::new());
        out.push("Fallbacks available if that fails:".to_owned());
        let ghost head = views(out@);
        let mut i: usize = 1;
        while i < options.len()
            invariant
                1 <= i <= options.len(),
                views(out@) == head + Seq::new((i - 1) as nat, |k: int| fallback_line(options@[k + 1])),
            decreases options.len() - i,
        {
            let (s, l) = options[i];
            let mut line = prefixed_line("  - ", s.describe());
            if l {
                push_str(&mut line, " (with adjustments)");
            }
            let ghost before = views(out@);
            let ghost lv = line@;
            assert(lv =~= fallback_line(options@[i as int]));
            out.push(line);
            assert(views(out@) =~= before.push(lv));
            assert(views(out@) =~= head + Seq::new(i as nat, |k: int| fallback_line(options@[k + 1])));
            i = i + 1;
        }
    }
    assert(views(out@) =~= dry_run_text(shown@, options@));
    out
}

/// What `msw apply` prints after switching.
pub open spec fn switched_text(shown: Seq<char>, outcome: ApplyOutcome) -> Seq<Seq<char>> {
    let first = "Switched to "@ + shown + if outcome.strategy == Strategy::Verbatim {
        Seq::empty()
    } else {
        " ("@ + strategy_description(outcome.strategy) + ")"@
    } + "."@;
    if outcome.lenient {
        seq![
            first,
            Seq::empty(),
            "Windows adjusted the configuration to make it fit, so resolution or refresh"@,
            "rate may differ from what you saved. Re-save the profile to capture what you"@,
            "actually ended up with."@,
        ]
    } else {
        seq![first]
    }
}

/// What `msw apply` prints after switching: how the profile was matched
/// when not verbatim, and a warning when Windows had to adjust it.
pub fn switched_lines(shown: &str, outcome: ApplyOutcome) -> (out: Vec<String>)
    ensures
        views(out@) == switched_text(shown@, outcome),
{
    let mut first = prefixed_line("Switched to ", shown);
    if outcome.strategy != Strategy::Verbatim {
        push_str(&mut first, " (");
        push_str(&mut first, outcome.strategy.describe());
        push_str(&mut first, ")");
    }
    push_str(&mut first, ".");
    assert(first@ =~= "Switched to "@ + shown@ + (if outcome.strategy == Strategy::Verbatim {
        Seq::empty()
    } else {
        " ("@ + strategy_description(outcome.strategy) + ")"@
    }) + "."@);
    let mut out: Vec<String> = Vec::new();
    out.push(first);
    if outcome.lenient {
        out.push(String::new());
        out.push("Windows adjusted the configuration to make it fit, so resolution or refresh".to_owned());
        out.push("rate may differ from what you saved. Re-save the profile to capture what you".to_owned());
        out.push("actually ended up with.".to_owned());
    }
    assert(views(out@) =~= switched_text(shown@, outcome));
    out
}

/// Does this answer to "Delete profile ...? [y/N]" mean yes? Only "y" or
/// "yes", in any case, with surrounding whitespace ignored.
pub open spec fn confirms_text(answer: Seq<char>) -> bool {
    is_yes_word(lowercase(trim(answer)))
}

pub open spec fn is_yes_word(word: Seq<char>) -> bool {
    word == "y"@ || word == "yes"@
}

/// Is this lowercased, trimmed answer a yes?
pub fn means_yes(word: &str) -> (b: bool)
    ensures
        b == is_yes_word(word@),
{
    str_eq(word, "y") || str_eq(word, "yes")
}

/// Does this answer mean yes?
pub fn confirms(answer: &str) -> (b: bool)
    ensures
        b == confirms_text(answer@),
{
    let t = string_of(&trim_chars(&chars_of(answer)));
    let lower = to_lowercase(t.as_str());
    means_yes(lower.as_str())
}

/// The question `msw delete` asks before deleting.
pub fn delete_prompt(shown: &str) -> (out: String)
    ensures
        out@ == "Delete profile "@ + shown@ + "? [y/N] "@,
{
    let mut out = prefixed_line("Delete profile ", shown);
    push_str(&mut out, "? [y/N] ");
    out
}

/// What `msw rename` prints.
pub fn renamed_line(shown_from: &str, shown_to: &str) -> (out: String)
    ensures
        out@ == "Renamed "@ + shown_from@ + " to "@ + shown_to@ + "."@,
{
    let mut out = prefixed_line("Renamed ", shown_from);
    push_str(&mut out, " to ");
    push_str(&mut out, shown_to);
    push_str(&mut out, ".");
    out
}

/// Why `msw reset` failed: Windows refused, with this status.
pub fn reset_refusal(status: i32) -> (out: String)
    ensures
        out@ == "Windows refused to restore its remembered layout (error "@
            + crate::text::signed_decimal(status as int) + ")"@,
{
    let mut out = String::new();
    push_str(&mut out, "Windows refused to restore its remembered layout (error ");
    crate::text::push_signed_decimal(&mut out, status as i64);
    push_str(&mut out, ")");
    out
}

} // verus!
