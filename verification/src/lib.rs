//! A console with vertical tabs: everything it decides, without the terminal it
//! decides it for.

use vstd::prelude::*;

pub mod app;
pub mod base64;
pub mod events;
pub mod footer;
pub mod keys;
pub mod labels;
pub mod mouse;
pub mod probe;
pub mod screen;
pub mod selection;
pub mod session;
pub mod shell;
pub mod stamp;
pub mod style;
pub mod tab;
pub mod text;
pub mod transcript;
pub mod turn;

verus! {

/// The version shown in the footer's right corner.
pub const VERSION: &'static str = "0.4.0";

} // verus!
