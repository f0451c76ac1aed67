//! What can go wrong, as plain data.

use vstd::prelude::*;

use crate::text::{decimal, push_decimal, push_str, signed_decimal, push_signed_decimal};

verus! {

#[derive(Debug)]
pub enum Error {
    /// `GetDisplayConfigBufferSizes` failed with this Win32 error.
    BufferSizes(u32),
    /// `QueryDisplayConfig` failed with this Win32 error.
    Query(u32),
    /// Every strategy was rejected; the last Win32 status seen.
    ApplyFailed { last_status: i32 },
    NoSuchProfile(String),
    ProfileExists(String),
    InvalidProfileName(String),
    /// A profile file that is not valid JSON, with the parser's message.
    ProfileParse { path: String, message: String },
    /// A file that could not be read or written, with the system's message.
    Io { path: String, message: String },
    NoDataDir,
}

/// What `format!("{:?}", s)` gives for a string: the text in double quotes
/// with `str::escape_debug` applied. The escape rules depend on Unicode
/// tables, so the result is named rather than restated.
pub uninterp spec fn debug_quoted(s: Seq<char>) -> Seq<char>;

/// Formats a string the way `{:?}` does.
///
/// Calls `format!` with `{:?}`; the contract claims only that the result is
/// a function of the characters given.
#[verifier::external_body]
pub(crate) fn quoted(s: &str) -> (out: String)
    ensures
        out@ == debug_quoted(s@),
{
    format!("{:?}", s)
}

/// The message each error reads as, with the profile name it carries (if
/// any) shown as `shown`.
pub open spec fn message_showing(e: Error, shown: Seq<char>) -> Seq<char> {
    match e {
        Error::BufferSizes(code) => "GetDisplayConfigBufferSizes failed (Win32 error "@ + decimal(
            code as nat,
        ) + ")"@,
        Error::Query(code) => "QueryDisplayConfig failed (Win32 error "@ + decimal(code as nat)
            + ")"@,
        Error::ApplyFailed { last_status } =>
            "could not apply the display configuration; every strategy was rejected (last Win32 error "@
            + signed_decimal(last_status as int) + ")"@,
        Error::NoSuchProfile(_) => "no profile named "@ + shown,
        Error::ProfileExists(_) => "a profile named "@ + shown + " already exists"@,
        Error::InvalidProfileName(_) => shown + " is not a usable profile name"@,
        Error::ProfileParse { path, message } => "profile "@ + path@ + " is not valid JSON: "@
            + message@,
        Error::Io { path, message } => "could not read or write "@ + path@ + ": "@ + message@,
        Error::NoDataDir => "could not locate the per-user application data directory"@,
    }
}

/// The profile name an error carries, if any.
pub open spec fn named(e: Error) -> Option<Seq<char>> {
    match e {
        Error::NoSuchProfile(n) => Some(n@),
        Error::ProfileExists(n) => Some(n@),
        Error::InvalidProfileName(n) => Some(n@),
        _ => None,
    }
}

/// The message each error reads as: a carried profile name is shown quoted.
pub open spec fn error_message(e: Error) -> Seq<char> {
    match named(e) {
        Some(n) => message_showing(e, debug_quoted(n)),
        None => message_showing(e, Seq::empty()),
    }
}

impl Error {
    /// The message this error reads as, with the profile name it carries
    /// shown as `shown`.
    pub fn message_with(&self, shown: &str) -> (out: String)
        ensures
            out@ == message_showing(*self, shown@),
    {
        let mut out = String::new();
        match self {
            Error::BufferSizes(code) => {
                push_str(&mut out, "GetDisplayConfigBufferSizes failed (Win32 error ");
                push_decimal(&mut out, *code as u64);
                push_str(&mut out, ")");
            },
            Error::Query(code) => {
                push_str(&mut out, "QueryDisplayConfig failed (Win32 error ");
                push_decimal(&mut out, *code as u64);
                push_str(&mut out, ")");
            },
            Error::ApplyFailed { last_status } => {
                push_str(
                    &mut out,
                    "could not apply the display configuration; every strategy was rejected (last Win32 error ",
                );
                push_signed_decimal(&mut out, *last_status as i64);
                push_str(&mut out, ")");
            },
            Error::NoSuchProfile(_) => {
                push_str(&mut out, "no profile named ");
                push_str(&mut out, shown);
            },
            Error::ProfileExists(_) => {
                push_str(&mut out, "a profile named ");
                push_str(&mut out, shown);
                push_str(&mut out, " already exists");
            },
            Error::InvalidProfileName(_) => {
                push_str(&mut out, shown);
                push_str(&mut out, " is not a usable profile name");
            },
            Error::ProfileParse { path, message } => {
                push_str(&mut out, "profile ");
                push_str(&mut out, path.as_str());
                push_str(&mut out, " is not valid JSON: ");
                push_str(&mut out, message.as_str());
            },
            Error::Io { path, message } => {
                push_str(&mut out, "could not read or write ");
                push_str(&mut out, path.as_str());
                push_str(&mut out, ": ");
                push_str(&mut out, message.as_str());
            },
            Error::NoDataDir => {
                push_str(&mut out, "could not locate the per-user application data directory");
            },
        }
        out
    }

    /// The message this error reads as.
    pub fn message(&self) -> (out: String)
        ensures
            out@ == error_message(*self),
    {
        match self {
            Error::NoSuchProfile(n) | Error::ProfileExists(n) | Error::InvalidProfileName(n) => {
                let shown = quoted(n.as_str());
                self.message_with(shown.as_str())
            },
            _ => self.message_with(""),
        }
    }
}

} // verus!
