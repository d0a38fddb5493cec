//! The command-line switches, held as plain values. The binary's argument
//! parser fills this in and hands it over.

use vstd::prelude::*;

verus! {

/// One invocation's switches and block arguments.
#[derive(Debug, Clone)]
pub struct Args {
    pub blocks: Vec<String>,
    pub raw: bool,
    pub full: bool,
    /// Edit the stored month file with a text editor.
    pub edit: bool,
    /// Open the storage directory with the default file browser.
    pub brf: bool,
    /// Remove the given blocks instead of adding them.
    pub remove: bool,
    /// Work on a specific date.
    pub day: Option<String>,
    /// Set the day's comment.
    pub comment: Option<String>,
    /// Clear the day's comment.
    pub clear_comment: bool,
    /// Work on yesterday.
    pub yesterday: bool,
    /// Work on a specific month.
    pub month: Option<String>,
    /// Work on the previous month.
    pub previous: bool,
    /// Work on the next month.
    pub next: bool,
    /// Show the outcome without writing it back.
    pub dry_run: bool,
}

} // verus!
