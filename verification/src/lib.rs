//! Capture and restore display configurations.

use vstd::prelude::*;

pub mod apply;
pub mod cli;
pub mod error;
pub mod identify;
pub mod model;
pub mod profile;
pub mod settings;
pub mod text;
pub mod tray;
pub mod updater;
pub mod views;
pub mod watch;

verus! {
}
