//! Saved profiles: what they hold, how they are named, and how a directory of
//! them is ordered.

use vstd::prelude::*;

use crate::error::Error;
use crate::model::{
    active_labels, opt_view, same_active_monitors, ConfigModel, DisplayConfig, clone_opt,
};
use crate::text::{
    ascii_lower, chars_eq_ignore_ascii_case, chars_less, chars_lt, chars_of, decimal,
    eq_ignore_ascii_case, is_cc, join, join_strings, lemma_chars_lt_asymmetric,
    lemma_chars_lt_irreflexive, lemma_chars_lt_total, lemma_chars_lt_transitive, lowercase,
    push_char, push_decimal, push_str, push_zero_padded, str_eq, string_of, to_lowercase, trim,
    trim_chars, utf8_len, utf8_len_exceeds, views, zero_padded, char_is_control, is_ws,
};

verus! {

/// On-disk format version. Bumped only for changes that older builds cannot
/// read; additive fields do not need it.
pub const FORMAT_VERSION: u32 = 1;

/// The version of this library, recorded in the profiles it captures.
pub const LIBRARY_VERSION: &'static str = "0.1.0";

pub fn default_format_version() -> (v: u32)
    ensures
        v == FORMAT_VERSION,
{
    FORMAT_VERSION
}

/// A named display configuration.
#[derive(Debug)]
pub struct Profile {
    pub name: String,
    pub format_version: u32,
    /// RFC 3339 timestamp, recorded when the profile was captured.
    pub saved_at: Option<String>,
    /// Which application version captured it, for bug reports.
    pub saved_by: Option<String>,
    /// Names of the monitors this profile leaves switched on. Purely
    /// descriptive (the authority is `config`) but it makes a profile file
    /// readable at a glance and gives the UI something to show.
    pub active_monitors: Vec<String>,
    pub config: DisplayConfig,
}

pub struct ProfileModel {
    pub name: Seq<char>,
    pub format_version: u32,
    pub saved_at: Option<Seq<char>>,
    pub saved_by: Option<Seq<char>>,
    pub active_monitors: Seq<Seq<char>>,
    pub config: ConfigModel,
}

impl View for Profile {
    type V = ProfileModel;

    open spec fn view(&self) -> ProfileModel {
        ProfileModel {
            name: self.name@,
            format_version: self.format_version,
            saved_at: opt_view(self.saved_at),
            saved_by: opt_view(self.saved_by),
            active_monitors: views(self.active_monitors@),
            config: self.config@,
        }
    }
}

// ---------------------------------------------------------------------------
// Timestamps
// ---------------------------------------------------------------------------

/// The civil (proleptic Gregorian) date `days` days after 1970-01-01, by
/// Howard Hinnant's `civil_from_days`. Division here is Euclidean, as
/// `div_euclid` computes it.
pub open spec fn civil_from_days(days: int) -> (int, int, int) {
    let z = days + 719_468;
    let era = z / 146_097;
    let doe = z % 146_097;
    let yoe = (doe - doe / 1460 + doe / 36_524 - doe / 146_096) / 365;
    let y = yoe + era * 400;
    let doy = doe - (365 * yoe + yoe / 4 - yoe / 100);
    let mp = (5 * doy + 2) / 153;
    let d = doy - (153 * mp + 2) / 5 + 1;
    let m = if mp < 10 { mp + 3 } else { mp - 9 };
    let y = if m <= 2 { y + 1 } else { y };
    (y, m, d)
}

/// `secs` seconds after the Unix epoch as `YYYY-MM-DDTHH:MM:SSZ`, in UTC.
pub open spec fn rfc3339(secs: int) -> Seq<char> {
    let days = secs / 86_400;
    let tod = secs % 86_400;
    let (y, m, d) = civil_from_days(days);
    zero_padded(y, 4) + "-"@ + zero_padded(m, 2) + "-"@ + zero_padded(d, 2) + "T"@ + zero_padded(
        tod / 3600,
        2,
    ) + ":"@ + zero_padded((tod % 3600) / 60, 2) + ":"@ + zero_padded(tod % 60, 2) + "Z"@
}

/// Whole seconds since the Unix epoch, now; zero if the clock reads earlier
/// than the epoch.
///
/// Calls `SystemTime::elapsed` on `UNIX_EPOCH`. The result depends on the
/// clock, so nothing is claimed of it.
#[verifier::external_body]
fn seconds_since_epoch() -> u64 {
    std::time::UNIX_EPOCH.elapsed().map(|d| d.as_secs()).unwrap_or(0)
}

/// Euclidean quotient and remainder of `a` by a positive `b`.
fn div_rem_euclid(a: i64, b: i64) -> (out: (i64, i64))
    requires
        0 < b <= 1_000_000,
    ensures
        out.0 == a as int / b as int,
        out.1 == a as int % b as int,
{
    if a >= 0 {
        let q = a / b;
        let r = a % b;
        (q, r)
    } else {
        let pos = -(a + 1);
        let q0 = pos / b;
        let r0 = pos % b;
        proof {
            let ai = a as int;
            let bi = b as int;
            let pi = pos as int;
            assert(pi == -ai - 1);
            assert(q0 as int == pi / bi && r0 as int == pi % bi);
            assert(pi == (q0 as int) * bi + (r0 as int)) by (nonlinear_arith)
                requires
                    pi >= 0,
                    bi > 0,
                    q0 as int == pi / bi,
                    r0 as int == pi % bi,
            ;
            assert(ai == (-q0 - 1) * bi + (bi - 1 - r0)) by (nonlinear_arith)
                requires
                    pi == (q0 as int) * bi + (r0 as int),
                    pi == -ai - 1,
            ;
            assert(0 <= bi - 1 - r0 < bi);
            vstd::arithmetic::div_mod::lemma_fundamental_div_mod_converse(
                ai,
                bi,
                -q0 - 1,
                bi - 1 - r0,
            );
        }
        let q = -q0 - 1;
        let r = b - 1 - r0;
        (q, r)
    }
}

/// The year of era and day of year Hinnant's algorithm derives from a day of
/// a 400-year era stay within a year of era and a (March-based) year.
proof fn lemma_civil_bounds(doe: int)
    requires
        0 <= doe < 146097,
    ensures
        ({
            let yoe = (doe - doe / 1460 + doe / 36_524 - doe / 146_096) / 365;
            let doy = doe - (365 * yoe + yoe / 4 - yoe / 100);
            0 <= yoe <= 399 && 0 <= doy <= 365
        }),
{
    let a = doe / 1460;
    let b = doe / 36_524;
    let c = doe / 146_096;
    let yoe = (doe - a + b - c) / 365;
    assert(0 <= yoe <= 399);
    let doy = doe - (365 * yoe + yoe / 4 - yoe / 100);
    assert(0 <= doy <= 365);
}

/// The civil date `days` days after 1970-01-01.
fn civil(days: i64) -> (out: (i64, i64, i64))
    requires
        -200_000_000_000_000 <= days <= 200_000_000_000_000,
    ensures
        (out.0 as int, out.1 as int, out.2 as int) == civil_from_days(days as int),
{
    let z = days + 719_468;
    let (era, doe) = div_rem_euclid(z, 146_097);
    proof {
        lemma_civil_bounds(doe as int);
        assert(-2_000_000_000 <= era <= 2_000_000_000);
    }
    let yoe = (doe - doe / 1460 + doe / 36_524 - doe / 146_096) / 365;
    let y = yoe + era * 400;
    let doy = doe - (365 * yoe + yoe / 4 - yoe / 100);
    let mp = (5 * doy + 2) / 153;
    let d = doy - (153 * mp + 2) / 5 + 1;
    let m = if mp < 10 {
        mp + 3
    } else {
        mp - 9
    };
    let y = if m <= 2 {
        y + 1
    } else {
        y
    };
    (y, m, d)
}

/// `secs` after the Unix epoch, formatted as RFC 3339 in UTC with seconds
/// resolution.
pub fn rfc3339_from_unix(secs: i64) -> (out: String)
    ensures
        out@ == rfc3339(secs as int),
{
    let (days, time_of_day) = div_rem_euclid(secs, 86_400);
    proof {
        assert(-200_000_000_000_000 <= days <= 200_000_000_000_000) by (nonlinear_arith)
            requires
                days as int == secs as int / 86_400,
                i64::MIN <= secs <= i64::MAX,
        ;
    }
    let (y, m, d) = civil(days);
    let mut out = String::new();
    push_zero_padded(&mut out, y, 4);
    push_str(&mut out, "-");
    push_zero_padded(&mut out, m, 2);
    push_str(&mut out, "-");
    push_zero_padded(&mut out, d, 2);
    push_str(&mut out, "T");
    push_zero_padded(&mut out, time_of_day / 3600, 2);
    push_str(&mut out, ":");
    push_zero_padded(&mut out, (time_of_day % 3600) / 60, 2);
    push_str(&mut out, ":");
    push_zero_padded(&mut out, time_of_day % 60, 2);
    push_str(&mut out, "Z");
    out
}

/// The current time as RFC 3339: some instant, formatted.
pub fn now_rfc3339() -> (out: String)
    ensures
        exists|secs: i64| out@ == rfc3339(secs as int),
{
    let secs = seconds_since_epoch() as i64;
    rfc3339_from_unix(secs)
}

/// Zero padding to `w` digits gives exactly `w` characters for a value that
/// has at most `w` digits.
proof fn lemma_zero_padded_len(x: int, w: nat)
    requires
        w >= 1,
        0 <= x < crate::text::pow10(w),
    ensures
        zero_padded(x, w).len() == w,
{
    crate::text::lemma_decimal_len_bound(x as nat, w);
}

/// A timestamp reads `YYYY-MM-DDTHH:MM:SSZ`, twenty characters with the
/// separators in place, for every instant whose year has four digits.
pub proof fn law_timestamp_shape(secs: int)
    requires
        0 <= civil_from_days(secs / 86_400).0 <= 9999,
    ensures
        rfc3339(secs).len() == 20,
        rfc3339(secs)[4] == '-',
        rfc3339(secs)[7] == '-',
        rfc3339(secs)[10] == 'T',
        rfc3339(secs)[13] == ':',
        rfc3339(secs)[16] == ':',
        rfc3339(secs)[19] == 'Z',
{
    let days = secs / 86_400;
    let tod = secs % 86_400;
    let (y, m, d) = civil_from_days(days);
    let z = days + 719_468;
    lemma_civil_bounds(z % 146_097);
    assert(1 <= m <= 12);
    assert(1 <= d <= 31);
    reveal_with_fuel(crate::text::pow10, 5);
    lemma_zero_padded_len(y, 4);
    lemma_zero_padded_len(m, 2);
    lemma_zero_padded_len(d, 2);
    lemma_zero_padded_len(tod / 3600, 2);
    lemma_zero_padded_len((tod % 3600) / 60, 2);
    lemma_zero_padded_len(tod % 60, 2);
    reveal_strlit("-");
    reveal_strlit("T");
    reveal_strlit(":");
    reveal_strlit("Z");
}

// ---------------------------------------------------------------------------
// Names
// ---------------------------------------------------------------------------

/// Characters Windows refuses in a filename, plus the path separators.
pub open spec fn is_forbidden(c: char) -> bool {
    c == '<' || c == '>' || c == ':' || c == '"' || c == '/' || c == '\\' || c == '|' || c == '?'
        || c == '*'
}

/// Names Windows reserves regardless of extension.
pub open spec fn reserved_names() -> Seq<Seq<char>> {
    seq![
        "CON"@, "PRN"@, "AUX"@, "NUL"@, "COM1"@, "COM2"@, "COM3"@, "COM4"@, "COM5"@, "COM6"@,
        "COM7"@, "COM8"@, "COM9"@, "LPT1"@, "LPT2"@, "LPT3"@, "LPT4"@, "LPT5"@, "LPT6"@, "LPT7"@,
        "LPT8"@, "LPT9"@,
    ]
}

/// The part of `t` before its first dot.
pub open spec fn stem(t: Seq<char>) -> Seq<char>
    decreases t.len(),
{
    if t.len() == 0 || t[0] == '.' {
        Seq::empty()
    } else {
        seq![t[0]] + stem(t.drop_first())
    }
}

pub open spec fn is_reserved(s: Seq<char>) -> bool {
    exists|i: int| 0 <= i < reserved_names().len() && eq_ignore_ascii_case(s, #[trigger] reserved_names()[i])
}

/// A name that can safely become a filename: once trimmed it is not empty,
/// takes at most 64 bytes, holds no character Windows refuses and no control
/// character, does not end in a dot, and its part before the first dot is not
/// a reserved device name in any ASCII case.
pub open spec fn valid_name(name: Seq<char>) -> bool {
    let t = trim(name);
    &&& t.len() > 0
    &&& utf8_len(t) <= 64
    &&& forall|i: int| 0 <= i < t.len() ==> !is_forbidden(#[trigger] t[i]) && !is_cc(t[i])
    &&& t.last() != '.'
    &&& !is_reserved(stem(t))
}

/// A name and its trimmed form are judged alike: surrounding whitespace
/// never makes a name usable or unusable.
pub proof fn law_trimming_does_not_change_validity(name: Seq<char>)
    ensures
        valid_name(name) == valid_name(trim(name)),
{
    crate::text::lemma_trim_idempotent(name);
}

fn char_is_forbidden(c: char) -> (b: bool)
    ensures
        b == is_forbidden(c),
{
    c == '<' || c == '>' || c == ':' || c == '"' || c == '/' || c == '\\' || c == '|' || c == '?'
        || c == '*'
}

fn reserved_name(i: usize) -> (s: &'static str)
    requires
        i < 22,
    ensures
        s@ == reserved_names()[i as int],
{
    match i {
        0 => "CON",
        1 => "PRN",
        2 => "AUX",
        3 => "NUL",
        4 => "COM1",
        5 => "COM2",
        6 => "COM3",
        7 => "COM4",
        8 => "COM5",
        9 => "COM6",
        10 => "COM7",
        11 => "COM8",
        12 => "COM9",
        13 => "LPT1",
        14 => "LPT2",
        15 => "LPT3",
        16 => "LPT4",
        17 => "LPT5",
        18 => "LPT6",
        19 => "LPT7",
        20 => "LPT8",
        _ => "LPT9",
    }
}

fn stem_chars(t: &Vec<char>) -> (out: Vec<char>)
    ensures
        out@ == stem(t@),
{
    let mut out: Vec<char> = Vec::new();
    let mut i: usize = 0;
    assert(t@.skip(0) =~= t@);
    assert(out@ + stem(t@) =~= stem(t@));
    while i < t.len() && t[i] != '.'
        invariant
            i <= t.len(),
            forall|k: int| 0 <= k < i ==> t@[k] != '.',
            stem(t@) == out@ + stem(t@.skip(i as int)),
        decreases t.len() - i,
    {
        proof {
            let rest = t@.skip(i as int);
            assert(rest.drop_first() =~= t@.skip(i + 1));
            assert(out@.push(t@[i as int]) + stem(t@.skip(i + 1)) =~= out@ + stem(rest));
        }
        out.push(t[i]);
        i = i + 1;
    }
    proof {
        let rest = t@.skip(i as int);
        assert(stem(rest) =~= Seq::<char>::empty());
        assert(out@ + Seq::<char>::empty() =~= out@);
    }
    out
}

/// Is this a name we can safely turn into a filename?
pub fn is_valid_name(name: &str) -> (b: bool)
    ensures
        b == valid_name(name@),
{
    let cs = chars_of(name);
    let t = trim_chars(&cs);
    if t.len() == 0 || utf8_len_exceeds(&t, 64) {
        return false;
    }
    let mut i: usize = 0;
    while i < t.len()
        invariant
            i <= t.len(),
            t@ == trim(name@),
            forall|k: int| 0 <= k < i ==> !is_forbidden(#[trigger] t@[k]) && !is_cc(t@[k]),
        decreases t.len() - i,
    {
        if char_is_forbidden(t[i]) || char_is_control(t[i]) {
            assert(is_forbidden(t@[i as int]) || is_cc(t@[i as int]));
            return false;
        }
        i = i + 1;
    }
    if t[t.len() - 1] == '.' {
        return false;
    }
    let st = stem_chars(&t);
    let mut r: usize = 0;
    while r < 22
        invariant
            r <= 22,
            t@ == trim(name@),
            st@ == stem(t@),
            forall|k: int| 0 <= k < r ==> !eq_ignore_ascii_case(st@, #[trigger] reserved_names()[k]),
        decreases 22 - r,
    {
        let reserved = chars_of(reserved_name(r));
        if chars_eq_ignore_ascii_case(&st, &reserved) {
            assert(eq_ignore_ascii_case(stem(t@), reserved_names()[r as int]));
            return false;
        }
        r = r + 1;
    }
    proof {
        assert(reserved_names().len() == 22);
    }
    true
}

/// The name a profile is stored under: the given name, trimmed, with
/// `.json` after it.
pub open spec fn file_name(name: Seq<char>) -> Seq<char> {
    trim(name) + ".json"@
}

/// The file name a profile of this name lives in.
pub fn profile_file_name(name: &str) -> (out: String)
    ensures
        out@ == file_name(name@),
{
    let t = trim_chars(&chars_of(name));
    let mut out = string_of(&t);
    push_str(&mut out, ".json");
    out
}

/// `name`, trimmed, when it is usable; otherwise the error naming it as
/// given.
pub fn checked_name(name: &str) -> (out: Result<String, Error>)
    ensures
        match out {
            Ok(t) => valid_name(name@) && t@ == trim(name@),
            Err(Error::InvalidProfileName(n)) => !valid_name(name@) && n@ == name@,
            Err(_) => false,
        },
{
    if !is_valid_name(name) {
        return Err(Error::InvalidProfileName(name.to_owned()));
    }
    let t = trim_chars(&chars_of(name));
    Ok(string_of(&t))
}

/// Would renaming `from` to `to` clash with another profile? Only when a
/// profile named `to` exists and the two names differ by more than ASCII
/// case: renaming "work" to "Work" rewrites the same file.
pub fn rename_clashes(from: &str, to: &str, to_exists: bool) -> (b: bool)
    ensures
        b == (to_exists && !eq_ignore_ascii_case(from@, to@)),
{
    to_exists && !chars_eq_ignore_ascii_case(&chars_of(from), &chars_of(to))
}

// ---------------------------------------------------------------------------
// Profiles
// ---------------------------------------------------------------------------

/// One-line summary of a list of monitor labels.
pub open spec fn summary_text(labels: Seq<Seq<char>>) -> Seq<char> {
    if labels.len() == 0 {
        "no active monitors"@
    } else if labels.len() == 1 {
        labels[0]
    } else {
        decimal(labels.len()) + " monitors: "@ + join(labels, ", "@)
    }
}

/// The one-line summary of a list of monitor labels: "no active monitors",
/// the single label, or the count and the labels joined by commas.
pub fn summarize_labels(labels: &Vec<String>) -> (out: String)
    ensures
        out@ == summary_text(views(labels@)),
{
    if labels.len() == 0 {
        let mut out = String::new();
        push_str(&mut out, "no active monitors");
        out
    } else if labels.len() == 1 {
        labels[0].clone()
    } else {
        let mut out = String::new();
        push_decimal(&mut out, labels.len() as u64);
        push_str(&mut out, " monitors: ");
        let joined = join_strings(labels, ", ");
        push_str(&mut out, joined.as_str());
        out
    }
}

/// A copy of a list of strings.
pub fn clone_strings(v: &Vec<String>) -> (out: Vec<String>)
    ensures
        views(out@) == views(v@),
{
    let mut out: Vec<String> = Vec::new();
    let mut i: usize = 0;
    while i < v.len()
        invariant
            i <= v.len(),
            out@.len() == i,
            views(out@) == views(v@.take(i as int)),
        decreases v.len() - i,
    {
        let ghost before = out@;
        let item = v[i].clone();
        out.push(item);
        proof {
            assert(v@.take(i + 1).drop_last() =~= v@.take(i as int));
            assert forall|k: int| 0 <= k < out@.len() implies (#[trigger] out@[k])@ == v@.take(i + 1)[k]@ by {
                if k < i {
                    assert(out@[k] == before[k]);
                    assert(views(before)[k] == views(v@.take(i as int))[k]);
                }
            }
        }
        assert(views(out@) =~= views(v@.take(i + 1)));
        i = i + 1;
    }
    assert(v@.take(v.len() as int) =~= v@);
    out
}

/// The text a capturing build records as its author.
pub open spec fn saved_by_text() -> Seq<char> {
    "msw "@ + LIBRARY_VERSION@
}

impl Clone for Profile {
    fn clone(&self) -> (res: Self)
        ensures
            res@ == self@,
    {
        Profile {
            name: self.name.clone(),
            format_version: self.format_version,
            saved_at: clone_opt(&self.saved_at),
            saved_by: clone_opt(&self.saved_by),
            active_monitors: clone_strings(&self.active_monitors),
            config: self.config.clone(),
        }
    }
}

impl Profile {
    /// A profile of `config` under `name`, stamped as saved `secs` seconds
    /// after the Unix epoch.
    pub fn from_config_at(name: &str, config: DisplayConfig, secs: i64) -> (p: Profile)
        ensures
            p@.name == name@,
            p@.format_version == FORMAT_VERSION,
            p@.saved_at == Some(rfc3339(secs as int)),
            p@.saved_by == Some(saved_by_text()),
            p@.active_monitors == active_labels(config@),
            p@.config == config@,
    {
        let active_monitors = config.active_monitor_labels();
        let mut saved_by = String::new();
        push_str(&mut saved_by, "msw ");
        push_str(&mut saved_by, LIBRARY_VERSION);
        Profile {
            name: name.to_owned(),
            format_version: FORMAT_VERSION,
            saved_at: Some(rfc3339_from_unix(secs)),
            saved_by: Some(saved_by),
            active_monitors,
            config,
        }
    }

    /// A profile of `config` under `name`, stamped with the current time.
    pub fn from_config(name: &str, config: DisplayConfig) -> (p: Profile)
        ensures
            p@.name == name@,
            p@.format_version == FORMAT_VERSION,
            exists|secs: i64| p@.saved_at == Some(rfc3339(secs as int)),
            p@.saved_by == Some(saved_by_text()),
            p@.active_monitors == active_labels(config@),
            p@.config == config@,
    {
        let secs = seconds_since_epoch() as i64;
        Profile::from_config_at(name, config, secs)
    }

    /// Is this the profile currently on screen?
    ///
    /// Judged by which monitors are active, not by the exact modes, so it
    /// stays true after Windows adjusts a refresh rate.
    pub fn is_active(&self, current: &DisplayConfig) -> (b: bool)
        ensures
            b == same_active_monitors(self@.config, current@),
    {
        self.config.has_same_active_monitors(current)
    }

    /// One-line summary for menus and command line output.
    pub fn summary(&self) -> (out: String)
        ensures
            out@ == summary_text(self@.active_monitors),
    {
        summarize_labels(&self.active_monitors)
    }

    /// The profile as read from a file with stem `stem`: the file name is
    /// authoritative, so a profile stays findable even if someone edits the
    /// name field by hand.
    pub fn named_after_file(self, stem: Option<&str>) -> (p: Profile)
        ensures
            p@ == (ProfileModel {
                name: match stem {
                    Some(s) => s@,
                    None => self@.name,
                },
                ..self@
            }),
    {
        let mut p = self;
        match stem {
            Some(s) => {
                if !str_eq(p.name.as_str(), s) {
                    p.name = s.to_owned();
                }
            },
            None => {},
        }
        p
    }
}

// ---------------------------------------------------------------------------
// Listing order
// ---------------------------------------------------------------------------

/// A profile with the key it is listed by.
pub type Keyed = (Seq<char>, ProfileModel);

/// The key profiles are listed by: the name, lowercased.
pub open spec fn listing_key(p: ProfileModel) -> Seq<char> {
    lowercase(p.name)
}

/// `x` placed after every entry whose key is not greater than its own,
/// scanning from the back.
pub open spec fn insert_by_key(s: Seq<Keyed>, x: Keyed) -> Seq<Keyed>
    decreases s.len(),
{
    if s.len() == 0 {
        seq![x]
    } else if chars_lt(x.0, s.last().0) {
        insert_by_key(s.drop_last(), x).push(s.last())
    } else {
        s.push(x)
    }
}

/// Entries sorted by key, stably: entries whose keys are equal keep the
/// order they came in.
pub open spec fn sort_by_key(s: Seq<Keyed>) -> Seq<Keyed>
    decreases s.len(),
{
    if s.len() == 0 {
        Seq::empty()
    } else {
        insert_by_key(sort_by_key(s.drop_last()), s.last())
    }
}

/// Each profile with its listing key.
pub open spec fn keyed(ps: Seq<ProfileModel>) -> Seq<Keyed> {
    ps.map_values(|p: ProfileModel| (listing_key(p), p))
}

/// The profiles of keyed entries.
pub open spec fn unkeyed(s: Seq<Keyed>) -> Seq<ProfileModel> {
    s.map_values(|e: Keyed| e.1)
}

/// Profiles in listing order: by lowercased name, and otherwise in the
/// order given.
pub open spec fn listing_sort(ps: Seq<ProfileModel>) -> Seq<ProfileModel> {
    unkeyed(sort_by_key(keyed(ps)))
}

pub open spec fn profile_views(s: Seq<Profile>) -> Seq<ProfileModel> {
    s.map_values(|p: Profile| p@)
}

/// The given keys paired with the given profiles.
pub open spec fn paired(keys: Seq<Vec<char>>, ps: Seq<Profile>) -> Seq<Keyed> {
    Seq::new(ps.len(), |i: int| (keys[i]@, ps[i]@))
}

/// No entry follows one with a greater key.
pub open spec fn in_key_order(s: Seq<Keyed>) -> bool {
    forall|i: int, j: int| 0 <= i < j < s.len() ==> !chars_lt((#[trigger] s[j]).0, (#[trigger] s[i]).0)
}

proof fn lemma_insert_by_key_split(s: Seq<Keyed>, x: Keyed, j: int)
    requires
        0 <= j <= s.len(),
        forall|k: int| j <= k < s.len() ==> chars_lt(x.0, (#[trigger] s[k]).0),
        j == 0 || !chars_lt(x.0, s[j - 1].0),
    ensures
        insert_by_key(s, x) == s.take(j).push(x) + s.skip(j),
    decreases s.len() - j,
{
    if j < s.len() {
        assert(s.drop_last().take(j) =~= s.take(j));
        assert forall|k: int| j <= k < s.drop_last().len() implies chars_lt(
            x.0,
            (#[trigger] s.drop_last()[k]).0,
        ) by {
            assert(s.drop_last()[k] == s[k]);
        }
        if j > 0 {
            assert(s.drop_last()[j - 1] == s[j - 1]);
        }
        lemma_insert_by_key_split(s.drop_last(), x, j);
        assert(s.drop_last().skip(j).push(s.last()) =~= s.skip(j));
        assert(insert_by_key(s, x) == insert_by_key(s.drop_last(), x).push(s.last()));
        assert((s.take(j).push(x) + s.drop_last().skip(j)).push(s.last()) =~= s.take(j).push(x)
            + s.skip(j));
    } else {
        assert(s.take(j) =~= s);
        assert(s.skip(j) =~= Seq::<Keyed>::empty());
        if s.len() == 0 {
            assert(insert_by_key(s, x) =~= seq![x]);
        }
        assert(s.push(x) + Seq::<Keyed>::empty() =~= s.push(x));
    }
}

proof fn lemma_insert_by_key_sorted(t: Seq<Keyed>, x: Keyed)
    requires
        in_key_order(t),
    ensures
        in_key_order(insert_by_key(t, x)),
        insert_by_key(t, x).to_multiset() == t.to_multiset().insert(x),
    decreases t.len(),
{
    broadcast use vstd::seq_lib::group_to_multiset_ensures;

    if t.len() == 0 {
        assert(insert_by_key(t, x) == seq![x]);
        assert(seq![x] =~= t.push(x));
    } else if chars_lt(x.0, t.last().0) {
        let u = t.drop_last();
        assert(in_key_order(u)) by {
            assert forall|i: int, j: int| 0 <= i < j < u.len() implies !chars_lt(
                (#[trigger] u[j]).0,
                (#[trigger] u[i]).0,
            ) by {
                assert(u[i] == t[i] && u[j] == t[j]);
            }
        }
        lemma_insert_by_key_sorted(u, x);
        let r = insert_by_key(u, x);
        let last = t.last();
        assert(t =~= u.push(last));
        assert forall|i: int| 0 <= i < r.len() implies !chars_lt(last.0, (#[trigger] r[i]).0) by {
            assert(r.contains(r[i]));
            assert(r.to_multiset().count(r[i]) > 0);
            if r[i] == x {
                lemma_chars_lt_asymmetric(x.0, last.0);
            } else {
                assert(u.to_multiset().count(r[i]) > 0);
                assert(u.contains(r[i]));
                let m = choose|m: int| 0 <= m < u.len() && u[m] == r[i];
                assert(t[m] == u[m]);
            }
        }
        let q = r.push(last);
        assert forall|i: int, j: int| 0 <= i < j < q.len() implies !chars_lt(
            (#[trigger] q[j]).0,
            (#[trigger] q[i]).0,
        ) by {
            if j < r.len() {
                assert(q[i] == r[i] && q[j] == r[j]);
            } else {
                assert(q[i] == r[i] && q[j] == last);
            }
        }
    } else {
        let last = t.last();
        assert forall|i: int| 0 <= i < t.len() implies !chars_lt(x.0, (#[trigger] t[i]).0) by {
            if chars_lt(x.0, t[i].0) {
                lemma_chars_lt_total(t[i].0, last.0);
                if i < t.len() - 1 {
                    if chars_lt(t[i].0, last.0) {
                        lemma_chars_lt_transitive(x.0, t[i].0, last.0);
                    }
                }
            }
        }
        let q = t.push(x);
        assert forall|i: int, j: int| 0 <= i < j < q.len() implies !chars_lt(
            (#[trigger] q[j]).0,
            (#[trigger] q[i]).0,
        ) by {
            if j < t.len() {
                assert(q[i] == t[i] && q[j] == t[j]);
            } else {
                assert(q[i] == t[i] && q[j] == x);
            }
        }
    }
}

/// Sorting by key leaves the entries in key order, and keeps every entry it
/// was given, each as many times as it was given.
pub proof fn law_sorting_is_ordered_and_complete(s: Seq<Keyed>)
    ensures
        in_key_order(sort_by_key(s)),
        sort_by_key(s).to_multiset() == s.to_multiset(),
    decreases s.len(),
{
    broadcast use vstd::seq_lib::group_to_multiset_ensures;

    if s.len() == 0 {
        assert(sort_by_key(s) =~= s);
    } else {
        law_sorting_is_ordered_and_complete(s.drop_last());
        lemma_insert_by_key_sorted(sort_by_key(s.drop_last()), s.last());
        assert(s =~= s.drop_last().push(s.last()));
    }
}

/// Profiles given with their keys, taken as sequences.
pub open spec fn keyed_views(entries: Seq<(Vec<char>, Profile)>) -> Seq<Keyed> {
    entries.map_values(|e: (Vec<char>, Profile)| (e.0@, e.1@))
}

/// The profiles, ordered by the key given with each: by key, and otherwise
/// in the order given.
pub fn order_by_keys(entries: Vec<(Vec<char>, Profile)>) -> (out: Vec<Profile>)
    ensures
        profile_views(out@) == unkeyed(sort_by_key(keyed_views(entries@))),
{
    let ghost input = keyed_views(entries@);
    let mut rest = entries;
    let mut keys: Vec<Vec<char>> = Vec::new();
    let mut profiles: Vec<Profile> = Vec::new();
    assert(paired(keys@, profiles@) =~= input.take(0));
    while rest.len() > 0
        invariant
            keys@.len() == profiles@.len(),
            keys@.len() + rest@.len() == input.len(),
            keyed_views(rest@) == input.skip(keys@.len() as int),
            paired(keys@, profiles@) == input.take(keys@.len() as int),
        decreases rest.len(),
    {
        let ghost before = rest@;
        let ghost done: int = keys@.len() as int;
        let ghost kb = keys@;
        let ghost pb = profiles@;
        let (k, p) = rest.remove(0);
        proof {
            assert(keyed_views(before)[0] == (k@, p@));
            assert(input.skip(done)[0] == input[done]);
            assert forall|x: int| 0 <= x < rest@.len() implies #[trigger] keyed_views(rest@)[x]
                == input.skip(done + 1)[x] by {
                assert(rest@[x] == before[x + 1]);
                assert(keyed_views(before)[x + 1] == input.skip(done)[x + 1]);
            }
            assert(keyed_views(rest@) =~= input.skip(done + 1));
        }
        keys.push(k);
        profiles.push(p);
        proof {
            assert forall|x: int| 0 <= x < keys@.len() implies #[trigger] paired(keys@, profiles@)[x]
                == input.take(done + 1)[x] by {
                if x < done {
                    assert(keys@[x] == kb[x] && profiles@[x] == pb[x]);
                    assert(paired(kb, pb)[x] == input.take(done)[x]);
                }
            }
            assert(paired(keys@, profiles@) =~= input.take(done + 1));
        }
    }
    assert(input.take(input.len() as int) =~= input);
    order_keyed(profiles, keys)
}

/// The profiles, ordered by the keys given with them. `keys[i]` is the key
/// of `profiles[i]`.
fn order_keyed(profiles: Vec<Profile>, keys: Vec<Vec<char>>) -> (out: Vec<Profile>)
    requires
        keys@.len() == profiles@.len(),
    ensures
        profile_views(out@) == unkeyed(sort_by_key(paired(keys@, profiles@))),
{
    let ghost input = paired(keys@, profiles@);
    let ghost n = input.len();
    let mut out: Vec<Profile> = Vec::new();
    let mut out_keys: Vec<Vec<char>> = Vec::new();
    let mut rest = profiles;
    let mut rest_keys = keys;
    let mut taken: usize = 0;
    let len0 = rest.len();
    assert(input.len() == len0);
    assert(input.take(0) =~= Seq::<Keyed>::empty());
    assert(paired(out_keys@, out@) =~= Seq::<Keyed>::empty());
    while rest.len() > 0
        invariant
            taken + rest.len() == n,
            n == input.len(),
            n <= usize::MAX,
            rest_keys@.len() == rest@.len(),
            paired(rest_keys@, rest@) == input.skip(taken as int),
            out_keys@.len() == out@.len(),
            paired(out_keys@, out@) == sort_by_key(input.take(taken as int)),
        decreases rest.len(),
    {
        let ghost before = paired(rest_keys@, rest@);
        let ghost before_rest = rest@;
        let ghost before_keys = rest_keys@;
        let p = rest.remove(0);
        let key = rest_keys.remove(0);
        proof {
            assert(before[0] == (key@, p@));
            assert(input.skip(taken as int)[0] == input[taken as int]);
            assert forall|k: int| 0 <= k < rest@.len() implies #[trigger] paired(rest_keys@, rest@)[k]
                == input.skip(taken + 1)[k] by {
                assert(rest@[k] == before_rest[k + 1]);
                assert(rest_keys@[k] == before_keys[k + 1]);
                assert(before[k + 1] == input.skip(taken as int)[k + 1]);
            }
            assert(paired(rest_keys@, rest@) =~= input.skip(taken + 1));
            assert(input.take(taken + 1).drop_last() =~= input.take(taken as int));
            assert(input.take(taken + 1).last() == (key@, p@));
        }
        let ghost sorted = paired(out_keys@, out@);
        let mut j: usize = out.len();
        while j > 0 && chars_less(&key, &out_keys[j - 1])
            invariant
                j <= out@.len(),
                out_keys@.len() == out@.len(),
                sorted == paired(out_keys@, out@),
                forall|k: int| j <= k < sorted.len() ==> chars_lt(key@, (#[trigger] sorted[k]).0),
            decreases j,
        {
            assert(sorted[j - 1].0 == out_keys@[j - 1]@);
            j = j - 1;
        }
        proof {
            if j > 0 {
                assert(sorted[j - 1].0 == out_keys@[j - 1]@);
            }
            lemma_insert_by_key_split(sorted, (key@, p@), j as int);
        }
        let ghost entry = (key@, p@);
        let ghost before_out = out@;
        let ghost before_out_keys = out_keys@;
        out.insert(j, p);
        out_keys.insert(j, key);
        proof {
            assert forall|k: int| 0 <= k < out@.len() implies #[trigger] paired(out_keys@, out@)[k]
                == (sorted.take(j as int).push(entry) + sorted.skip(j as int))[k] by {
                if k < j {
                    assert(out@[k] == before_out[k] && out_keys@[k] == before_out_keys[k]);
                } else if k > j {
                    assert(out@[k] == before_out[k - 1] && out_keys@[k] == before_out_keys[k - 1]);
                }
            }
            assert(paired(out_keys@, out@) =~= sorted.take(j as int).push(entry) + sorted.skip(j as int));
        }
        taken = taken + 1;
    }
    assert(input.take(n as int) =~= input);
    assert(profile_views(out@) =~= unkeyed(paired(out_keys@, out@)));
    out
}

/// Profiles in listing order: by name, case-insensitively, and otherwise in
/// the order given.
pub fn listing_order(profiles: Vec<Profile>) -> (out: Vec<Profile>)
    ensures
        profile_views(out@) == listing_sort(profile_views(profiles@)),
{
    let ghost want = keyed(profile_views(profiles@));
    let mut rest = profiles;
    let mut entries: Vec<(Vec<char>, Profile)> = Vec::new();
    while rest.len() > 0
        invariant
            entries@.len() + rest@.len() == want.len(),
            profile_views(rest@) == profile_views(profiles@).skip(entries@.len() as int),
            want == keyed(profile_views(profiles@)),
            keyed_views(entries@) == want.take(entries@.len() as int),
        decreases rest.len(),
    {
        let ghost before = rest@;
        let ghost done: int = entries@.len() as int;
        let ghost eb = keyed_views(entries@);
        let p = rest.remove(0);
        proof {
            assert(profile_views(before)[0] == p@);
            assert(profile_views(profiles@).skip(done)[0] == profile_views(profiles@)[done]);
            assert forall|x: int| 0 <= x < rest@.len() implies #[trigger] profile_views(rest@)[x]
                == profile_views(profiles@).skip(done + 1)[x] by {
                assert(rest@[x] == before[x + 1]);
                assert(profile_views(before)[x + 1] == profile_views(profiles@).skip(done)[x + 1]);
            }
            assert(profile_views(rest@) =~= profile_views(profiles@).skip(done + 1));
        }
        let key = chars_of(to_lowercase(p.name.as_str()).as_str());
        entries.push((key, p));
        proof {
            assert(want[done] == (listing_key(profile_views(profiles@)[done]), profile_views(profiles@)[done]));
            assert(keyed_views(entries@) =~= eb.push(want[done]));
            assert(keyed_views(entries@) =~= want.take(done + 1));
        }
    }
    assert(want.take(want.len() as int) =~= want);
    order_by_keys(entries)
}


/// The combined length of some strings.
pub open spec fn total_len(items: Seq<Seq<char>>) -> nat
    decreases items.len(),
{
    if items.len() == 0 {
        0
    } else {
        total_len(items.drop_last()) + items.last().len()
    }
}

/// Where the `i`th item starts once the items are joined by ", ".
pub open spec fn joined_place(items: Seq<Seq<char>>, i: int) -> int {
    total_len(items.take(i)) + 2 * i
}

proof fn lemma_subrange_concat(x: Seq<char>, y: Seq<char>, lo: int, hi: int)
    requires
        0 <= lo <= hi <= x.len() + y.len(),
    ensures
        hi <= x.len() ==> (x + y).subrange(lo, hi) == x.subrange(lo, hi),
        x.len() <= lo ==> (x + y).subrange(lo, hi) == y.subrange(lo - x.len(), hi - x.len()),
{
    if hi <= x.len() {
        assert((x + y).subrange(lo, hi) =~= x.subrange(lo, hi));
    }
    if x.len() <= lo {
        assert((x + y).subrange(lo, hi) =~= y.subrange(lo - x.len(), hi - x.len()));
    }
}

proof fn lemma_total_len_take(items: Seq<Seq<char>>, i: int)
    requires
        0 <= i < items.len(),
    ensures
        total_len(items.take(i + 1)) == total_len(items.take(i)) + items[i].len(),
{
    assert(items.take(i + 1).drop_last() =~= items.take(i));
}

proof fn lemma_join_len(items: Seq<Seq<char>>)
    requires
        items.len() >= 1,
    ensures
        join(items, ", "@).len() == total_len(items) + 2 * (items.len() - 1),
    decreases items.len(),
{
    reveal_strlit(", ");
    assert((", "@).len() == 2);
    if items.len() == 1 {
        assert(items.drop_last() =~= Seq::<Seq<char>>::empty());
        assert(total_len(items.drop_last()) == 0);
        assert(items.last() == items[0]);
    } else {
        lemma_join_len(items.drop_last());
        assert(join(items, ", "@) == join(items.drop_last(), ", "@) + ", "@ + items.last());
    }
}

proof fn lemma_join_item(items: Seq<Seq<char>>, i: int)
    requires
        0 <= i < items.len(),
    ensures
        joined_place(items, i) + items[i].len() <= join(items, ", "@).len(),
        join(items, ", "@).subrange(joined_place(items, i), joined_place(items, i) + items[i].len())
            == items[i],
    decreases items.len(),
{
    reveal_strlit(", ");
    assert((", "@).len() == 2);
    let n = items.len();
    let j = join(items, ", "@);
    lemma_join_len(items);
    lemma_total_len_take(items, i);
    if n == 1 {
        assert(items.take(0) =~= Seq::<Seq<char>>::empty());
        assert(j.subrange(0, items[0].len() as int) =~= items[0]);
    } else {
        let d = items.drop_last();
        let jp = join(d, ", "@);
        lemma_join_len(d);
        assert(j == (jp + ", "@) + items.last());
        if i < n - 1 {
            lemma_join_item(d, i);
            assert(items.take(i) =~= d.take(i));
            let lo = joined_place(items, i);
            let hi = lo + items[i].len();
            lemma_subrange_concat(jp + ", "@, items.last(), lo, hi);
            lemma_subrange_concat(jp, ", "@, lo, hi);
        } else {
            assert(items.take(i) =~= d);
            let lo = joined_place(items, i);
            lemma_subrange_concat(jp + ", "@, items.last(), lo, lo + items[i].len());
            assert(items.last().subrange(0, items[i].len() as int) =~= items.last());
        }
    }
}

proof fn lemma_join_separator(items: Seq<Seq<char>>, i: int)
    requires
        0 < i < items.len(),
    ensures
        2 <= joined_place(items, i) <= join(items, ", "@).len(),
        join(items, ", "@).subrange(joined_place(items, i) - 2, joined_place(items, i)) == ", "@,
    decreases items.len(),
{
    reveal_strlit(", ");
    assert((", "@).len() == 2);
    let n = items.len();
    let j = join(items, ", "@);
    let d = items.drop_last();
    let jp = join(d, ", "@);
    lemma_join_len(items);
    lemma_join_len(d);
    lemma_join_item(items, i);
    assert(j == (jp + ", "@) + items.last());
    let p = joined_place(items, i);
    if i < n - 1 {
        lemma_join_separator(d, i);
        assert(items.take(i) =~= d.take(i));
        lemma_subrange_concat(jp + ", "@, items.last(), p - 2, p);
        lemma_subrange_concat(jp, ", "@, p - 2, p);
    } else {
        assert(items.take(i) =~= d);
        lemma_subrange_concat(jp + ", "@, items.last(), p - 2, p);
        lemma_subrange_concat(jp, ", "@, p - 2, p);
        assert((", "@).subrange(0, 2) =~= ", "@);
    }
}

/// The summary of two or more labels is the count, " monitors: ", and then
/// every label in order, each after the one before and a ", ", with nothing
/// else: no label is dropped, repeated or reordered.
pub proof fn law_summary_lists_every_label(labels: Seq<Seq<char>>)
    requires
        labels.len() >= 2,
    ensures
        ({
            let s = summary_text(labels);
            let head = decimal(labels.len()) + " monitors: "@;
            &&& s.len() == head.len() + total_len(labels) + 2 * (labels.len() - 1)
            &&& s.subrange(0, head.len() as int) == head
            &&& forall|i: int|
                0 <= i < labels.len() ==> #[trigger] s.subrange(
                    head.len() + joined_place(labels, i),
                    head.len() + joined_place(labels, i) + labels[i].len(),
                ) == labels[i]
            &&& forall|i: int|
                0 < i < labels.len() ==> #[trigger] s.subrange(
                    head.len() + joined_place(labels, i) - 2,
                    head.len() + joined_place(labels, i),
                ) == ", "@
        }),
{
    let head = decimal(labels.len()) + " monitors: "@;
    let j = join(labels, ", "@);
    let s = summary_text(labels);
    lemma_join_len(labels);
    assert(s == head + j);
    lemma_subrange_concat(head, j, 0, head.len() as int);
    assert(head.subrange(0, head.len() as int) =~= head);
    assert forall|i: int| 0 <= i < labels.len() implies #[trigger] s.subrange(
        head.len() + joined_place(labels, i),
        head.len() + joined_place(labels, i) + labels[i].len(),
    ) == labels[i] by {
        lemma_join_item(labels, i);
        lemma_subrange_concat(
            head,
            j,
            head.len() + joined_place(labels, i),
            head.len() + joined_place(labels, i) + labels[i].len(),
        );
    }
    assert forall|i: int| 0 < i < labels.len() implies #[trigger] s.subrange(
        head.len() + joined_place(labels, i) - 2,
        head.len() + joined_place(labels, i),
    ) == ", "@ by {
        lemma_join_separator(labels, i);
        lemma_subrange_concat(
            head,
            j,
            head.len() + joined_place(labels, i) - 2,
            head.len() + joined_place(labels, i),
        );
    }
}

/// Listing is by name, ignoring case: in the listing no profile comes after
/// one whose lowercased name is greater than its own, and the listing holds
/// exactly the profiles given, each as many times as it was given.
pub proof fn law_listing_ignores_case(ps: Seq<ProfileModel>)
    ensures
        ({
            let out = listing_sort(ps);
            &&& out.len() == ps.len()
            &&& forall|i: int, j: int|
                0 <= i < j < out.len() ==> !chars_lt(
                    lowercase((#[trigger] out[j]).name),
                    lowercase((#[trigger] out[i]).name),
                )
            &&& forall|i: int| 0 <= i < out.len() ==> ps.contains(#[trigger] out[i])
            &&& forall|k: int| 0 <= k < ps.len() ==> out.contains(#[trigger] ps[k])
        }),
{
    broadcast use vstd::seq_lib::group_to_multiset_ensures;

    let kp = keyed(ps);
    let sorted = sort_by_key(kp);
    let out = listing_sort(ps);
    law_sorting_is_ordered_and_complete(kp);
    assert(sorted.len() == kp.len()) by {
        assert(sorted.to_multiset().len() == kp.to_multiset().len());
    }
    assert forall|i: int| 0 <= i < sorted.len() implies sorted[i].0 == lowercase(sorted[i].1.name)
        && ps.contains(sorted[i].1) by {
        assert(sorted.to_multiset().count(sorted[i]) > 0);
        assert(kp.contains(sorted[i]));
        let k = choose|k: int| 0 <= k < kp.len() && kp[k] == sorted[i];
        assert(kp[k] == (listing_key(ps[k]), ps[k]));
    }
    assert forall|i: int, j: int| 0 <= i < j < out.len() implies !chars_lt(
        lowercase((#[trigger] out[j]).name),
        lowercase((#[trigger] out[i]).name),
    ) by {
        assert(out[i] == sorted[i].1 && out[j] == sorted[j].1);
        assert(!chars_lt(sorted[j].0, sorted[i].0));
    }
    assert forall|i: int| 0 <= i < out.len() implies ps.contains(#[trigger] out[i]) by {
        assert(out[i] == sorted[i].1);
    }
    assert forall|k: int| 0 <= k < ps.len() implies out.contains(#[trigger] ps[k]) by {
        assert(kp[k] == (listing_key(ps[k]), ps[k]));
        assert(kp.to_multiset().count(kp[k]) > 0);
        assert(sorted.contains(kp[k]));
        let i = choose|i: int| 0 <= i < sorted.len() && sorted[i] == kp[k];
        assert(out[i] == ps[k]);
    }
}

} // verus!
