//! What an update check found, and what the user is told about it.
//!
//! Two paths in: a quiet check at startup that only speaks up when there is
//! something to install, and an explicit check from the tray that always
//! says what it found.

use vstd::prelude::*;

use crate::model::opt_view;
use crate::text::{is_blank, push_str, str_is_blank, trim, trim_chars, chars_of, string_of};
use crate::tray::APP_TITLE;

verus! {

/// What a check turned up, for the settings window.
pub struct UpdateStatus {
    pub available: bool,
    pub current_version: String,
    pub new_version: Option<String>,
    pub notes: Option<String>,
}

pub struct UpdateStatusModel {
    pub available: bool,
    pub current_version: Seq<char>,
    pub new_version: Option<Seq<char>>,
    pub notes: Option<Seq<char>>,
}

impl View for UpdateStatus {
    type V = UpdateStatusModel;

    open spec fn view(&self) -> UpdateStatusModel {
        UpdateStatusModel {
            available: self.available,
            current_version: self.current_version@,
            new_version: opt_view(self.new_version),
            notes: opt_view(self.notes),
        }
    }
}

/// A release the updater found: its version and its release notes.
pub struct Release {
    pub version: String,
    pub notes: Option<String>,
}

/// The status a check reports: the running version, and the release found,
/// if any.
pub fn status_from(current_version: String, release: Option<Release>) -> (out: UpdateStatus)
    ensures
        out@ == match release {
            Some(r) => UpdateStatusModel {
                available: true,
                current_version: current_version@,
                new_version: Some(r.version@),
                notes: opt_view(r.notes),
            },
            None => UpdateStatusModel {
                available: false,
                current_version: current_version@,
                new_version: None,
                notes: None,
            },
        },
{
    match release {
        Some(r) => UpdateStatus {
            available: true,
            current_version,
            new_version: Some(r.version),
            notes: r.notes,
        },
        None => UpdateStatus { available: false, current_version, new_version: None, notes: None },
    }
}

/// The question put to the user when an update is available. Release notes
/// are included, trimmed, unless they are blank.
pub open spec fn offer_text(s: UpdateStatusModel) -> Seq<char> {
    let version = match s.new_version {
        Some(v) => v,
        None => Seq::empty(),
    };
    let head = "Version "@ + version + " is available. You have "@ + s.current_version + "."@;
    let with_notes = match s.notes {
        Some(n) => if is_blank(n) {
            head
        } else {
            head + "\n\n"@ + trim(n)
        },
        None => head,
    };
    with_notes + "\n\nInstall it now? The application will restart."@
}

/// The question put to the user when an update is available.
pub fn offer_message(status: &UpdateStatus) -> (out: String)
    ensures
        out@ == offer_text(status@),
{
    let mut message = String::new();
    push_str(&mut message, "Version ");
    match &status.new_version {
        Some(v) => push_str(&mut message, v.as_str()),
        None => {},
    }
    push_str(&mut message, " is available. You have ");
    push_str(&mut message, status.current_version.as_str());
    push_str(&mut message, ".");
    match &status.notes {
        Some(n) => {
            if !str_is_blank(n.as_str()) {
                push_str(&mut message, "\n\n");
                let t = string_of(&trim_chars(&chars_of(n.as_str())));
                push_str(&mut message, t.as_str());
            }
        },
        None => {},
    }
    push_str(&mut message, "\n\nInstall it now? The application will restart.");
    message
}

/// What an explicit check says when there is nothing newer.
pub fn latest_message(status: &UpdateStatus) -> (out: String)
    ensures
        out@ == APP_TITLE@ + " "@ + status.current_version@ + " is the latest version."@,
{
    let mut message = String::new();
    push_str(&mut message, APP_TITLE);
    push_str(&mut message, " ");
    push_str(&mut message, status.current_version.as_str());
    push_str(&mut message, " is the latest version.");
    message
}

/// What an explicit check says when it could not reach the release feed.
pub fn check_failed_message(error: &str) -> (out: String)
    ensures
        out@ == "Could not check for updates:\n\n"@ + error@,
{
    let mut message = String::new();
    push_str(&mut message, "Could not check for updates:\n\n");
    push_str(&mut message, error);
    message
}

/// What the user is told when installing failed.
pub fn install_failed_message(error: &str) -> (out: String)
    ensures
        out@ == "Could not install the update:\n\n"@ + error@,
{
    let mut message = String::new();
    push_str(&mut message, "Could not install the update:\n\n");
    push_str(&mut message, error);
    message
}

} // verus!
