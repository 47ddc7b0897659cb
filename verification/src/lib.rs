//! The text, event and mod-entry logic of an in-game mod browser.
//!
//! - [`text`]: words, truncation and the character helpers.
//! - [`wrap`]: greedy word wrapping, with what it keeps of the text.
//! - [`entry`]: the installed mods as list entries.
//! - [`row`]: the texts each row and the header show.
//! - [`ui`]: the host's events and the set of open description cards.

use vstd::prelude::*;

pub mod text;
pub mod wrap;
pub mod ui;
pub mod entry;
pub mod row;

verus! {

/// The mod browser: a "Yog Mods" menu button that opens a screen listing every installed mod.
pub struct YogModList;

impl YogModList {
    /// The id under which the list screen, its renderer and its event handler are registered.
    pub fn ui_id() -> (id: &'static str)
        ensures
            id@ == "yog:modlist"@,
    {
        "yog:modlist"
    }

    /// The label of the menu button that opens the list.
    pub fn menu_label() -> (label: &'static str)
        ensures
            label@ == "Yog Mods"@,
    {
        "Yog Mods"
    }
}

} // verus!
