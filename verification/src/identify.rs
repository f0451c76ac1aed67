//! Naming the "Identify" overlays: one window per active monitor, labelled
//! so a whole set can be found and closed again without a registry.
//!
//! Every overlay's window label starts with a fixed prefix, then the number
//! of the call that opened it, then its index. Closing one call's overlays
//! goes by the prefix with that call's number, so a delayed close left over
//! from an earlier call cannot dismiss overlays a later call just opened.

use vstd::prelude::*;

use crate::text::{decimal, digit_char, lemma_decimal_nonempty, push_decimal, push_str};
use crate::tray::has_prefix;

verus! {

/// Every overlay window's label starts with this.
pub const WINDOW_PREFIX: &'static str = "identify-";

/// What the overlay page reads its label from.
pub const LABEL_VARIABLE: &'static str = "window.__IDENTIFY_LABEL__";

/// The label of overlay `index` opened by call `batch`.
pub open spec fn window_label_of(batch: u64, index: usize) -> Seq<char> {
    WINDOW_PREFIX@ + decimal(batch as nat) + "-"@ + decimal(index as nat)
}

/// The prefix shared by every overlay call `batch` opened.
pub open spec fn batch_prefix(batch: u64) -> Seq<char> {
    WINDOW_PREFIX@ + decimal(batch as nat) + "-"@
}

/// The label of overlay `index` opened by call `batch`.
pub fn window_label(batch: u64, index: usize) -> (out: String)
    ensures
        out@ == window_label_of(batch, index),
{
    let mut out = String::new();
    push_str(&mut out, WINDOW_PREFIX);
    push_decimal(&mut out, batch);
    push_str(&mut out, "-");
    push_decimal(&mut out, index as u64);
    out
}

/// Does `s` start with `prefix`?
pub fn starts_with(s: &str, prefix: &str) -> (b: bool)
    ensures
        b == has_prefix(s@, prefix@),
{
    crate::tray::strip_prefix(s, prefix).is_some()
}

/// Is this window an identify overlay, from any call?
pub fn is_overlay(label: &str) -> (b: bool)
    ensures
        b == has_prefix(label@, WINDOW_PREFIX@),
{
    starts_with(label, WINDOW_PREFIX)
}

/// Was this window opened by call `batch`?
pub fn in_batch(label: &str, batch: u64) -> (b: bool)
    ensures
        b == has_prefix(label@, batch_prefix(batch)),
{
    let mut prefix = String::new();
    push_str(&mut prefix, WINDOW_PREFIX);
    push_decimal(&mut prefix, batch);
    push_str(&mut prefix, "-");
    starts_with(label, prefix.as_str())
}

/// A hexadecimal digit, lower case.
pub open spec fn hex_digit(n: int) -> char {
    if n < 10 {
        (('0' as int) + n) as char
    } else {
        (('a' as int) + n - 10) as char
    }
}

/// How one character appears inside a JSON string literal: a quote, a
/// backslash and the control characters are escaped (backspace, form feed,
/// line feed, carriage return and tab by their short escapes, the other
/// control characters below U+0020 as `\u00` and two hex digits); every
/// other character stands for itself.
pub open spec fn json_escaped(c: char) -> Seq<char> {
    if c == '"' {
        seq!['\\', '"']
    } else if c == '\\' {
        seq!['\\', '\\']
    } else if c == '\x08' {
        seq!['\\', 'b']
    } else if c == '\x0C' {
        seq!['\\', 'f']
    } else if c == '\n' {
        seq!['\\', 'n']
    } else if c == '\r' {
        seq!['\\', 'r']
    } else if c == '\t' {
        seq!['\\', 't']
    } else if (c as int) < 0x20 {
        seq!['\\', 'u', '0', '0', hex_digit((c as int) / 16), hex_digit((c as int) % 16)]
    } else {
        seq![c]
    }
}

/// Every character of `text`, escaped.
pub open spec fn json_escaped_all(text: Seq<char>) -> Seq<char>
    decreases text.len(),
{
    if text.len() == 0 {
        Seq::empty()
    } else {
        json_escaped_all(text.drop_last()) + json_escaped(text.last())
    }
}

/// `text` as a JSON string literal, quotes included, as `serde_json`
/// writes it.
pub open spec fn json_string_literal(text: Seq<char>) -> Seq<char> {
    seq!['"'] + json_escaped_all(text) + seq!['"']
}

/// Calls `serde_json::to_string` on a string slice, which writes the text
/// between quotes with the escapes of `json_escaped` (its compact formatter's
/// escape table). Serializing a `str` into memory cannot fail; the empty
/// string that stands in for the error is never produced.
#[verifier::external_body]
fn json_string(text: &str) -> (out: String)
    ensures
        out@ == json_string_literal(text@),
{
    serde_json::to_string(text).unwrap_or_default()
}

/// The script that hands an overlay its label, given the label as a JSON
/// string literal: a JSON string literal is valid JavaScript, so the label
/// reaches the page without ever being parsed as anything else.
pub fn script_for(literal: &str) -> (out: String)
    ensures
        out@ == LABEL_VARIABLE@ + " = "@ + literal@ + ";"@,
{
    let mut out = String::new();
    push_str(&mut out, LABEL_VARIABLE);
    push_str(&mut out, " = ");
    push_str(&mut out, literal);
    push_str(&mut out, ";");
    out
}

/// The script that hands an overlay its label.
pub fn overlay_script(label: &str) -> (out: String)
    ensures
        out@ == LABEL_VARIABLE@ + " = "@ + json_string_literal(label@) + ";"@,
{
    let literal = json_string(label);
    script_for(literal.as_str())
}

// ---------------------------------------------------------------------------
// Laws
// ---------------------------------------------------------------------------

pub open spec fn is_digit(c: char) -> bool {
    '0' <= c && c <= '9'
}

proof fn lemma_decimal_digits(n: nat)
    ensures
        forall|i: int| 0 <= i < decimal(n).len() ==> is_digit(#[trigger] decimal(n)[i]),
    decreases n,
{
    if n >= 10 {
        lemma_decimal_digits(n / 10);
        let d = decimal(n / 10);
        assert forall|i: int| 0 <= i < decimal(n).len() implies is_digit(#[trigger] decimal(n)[i]) by {
            if i < d.len() {
                assert(decimal(n)[i] == d[i]);
            }
        }
    }
}

proof fn lemma_digit_char_injective(a: nat, b: nat)
    requires
        a < 10,
        b < 10,
        digit_char(a) == digit_char(b),
    ensures
        a == b,
{
}

proof fn lemma_decimal_long(n: nat)
    requires
        n >= 10,
    ensures
        decimal(n).len() >= 2,
{
    lemma_decimal_nonempty(n / 10);
}

/// Different numbers are written differently.
pub proof fn lemma_decimal_injective(a: nat, b: nat)
    requires
        decimal(a) == decimal(b),
    ensures
        a == b,
    decreases a,
{
    if a < 10 && b < 10 {
        assert(decimal(a) == seq![digit_char(a)]);
        assert(decimal(b) == seq![digit_char(b)]);
        assert(decimal(a)[0] == digit_char(a));
        assert(decimal(b)[0] == digit_char(b));
        lemma_digit_char_injective(a, b);
    } else if a < 10 {
        lemma_decimal_long(b);
    } else if b < 10 {
        lemma_decimal_long(a);
    } else {
        assert(decimal(a) == decimal(a / 10).push(digit_char(a % 10)));
        assert(decimal(b) == decimal(b / 10).push(digit_char(b % 10)));
        assert(decimal(a).last() == digit_char(a % 10));
        assert(decimal(b).last() == digit_char(b % 10));
        lemma_digit_char_injective(a % 10, b % 10);
        assert(decimal(a).drop_last() =~= decimal(a / 10));
        assert(decimal(b).drop_last() =~= decimal(b / 10));
        lemma_decimal_injective(a / 10, b / 10);
    }
}

/// Every overlay counts as an overlay, and belongs to the call that opened
/// it and to no other: closing another call's set never closes it.
pub proof fn law_overlays_belong_to_their_own_call(batch: u64, index: usize, other: u64)
    ensures
        has_prefix(window_label_of(batch, index), WINDOW_PREFIX@),
        has_prefix(window_label_of(batch, index), batch_prefix(batch)),
        has_prefix(window_label_of(batch, index), batch_prefix(other)) <==> other == batch,
{
    let p = WINDOW_PREFIX@;
    let d = decimal(batch as nat);
    let e = decimal(other as nat);
    let l = window_label_of(batch, index);
    let n: int = p.len() as int;
    assert(l =~= p + (d + "-"@ + decimal(index as nat)));
    assert(l.take(n) =~= p);
    assert(l.take(batch_prefix(batch).len() as int) =~= batch_prefix(batch));
    reveal_strlit("-");
    lemma_decimal_digits(batch as nat);
    lemma_decimal_digits(other as nat);
    if has_prefix(l, batch_prefix(other)) && other != batch {
        let q = batch_prefix(other);
        let t = l.take(q.len() as int);
        assert(t == q);
        let el: int = e.len() as int;
        let dl: int = d.len() as int;
        if el < dl {
            // Where `other`'s prefix has its dash, the label still has a digit.
            assert(q[n + el] == '-');
            assert(l[n + el] == d[el]);
            assert(t[n + el] == l[n + el]);
        } else if el > dl {
            // Where the label has its dash, `other`'s prefix has a digit.
            assert(l[n + dl] == '-');
            assert(q[n + dl] == e[dl]);
            assert(t[n + dl] == l[n + dl]);
        } else {
            assert forall|i: int| 0 <= i < d.len() implies d[i] == e[i] by {
                assert(l[n + i] == d[i]);
                assert(q[n + i] == e[i]);
                assert(t[n + i] == l[n + i]);
            }
            assert(d =~= e);
            lemma_decimal_injective(batch as nat, other as nat);
        }
    }
}

} // verus!
