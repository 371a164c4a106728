//! The command line: `roundtable <command>`.

use vstd::prelude::*;
use crate::session::SessionArgs;

verus! {

/// Convene the full daily creative session.
#[derive(Debug)]
pub struct Cli {
    pub command: Command,
}

/// A `roundtable` command.
#[derive(Debug)]
pub enum Command {
    /// Run the full daily session chain.
    Session(SessionArgs),
    /// Show or query the publication cadence.
    Cadence(CadenceCommand),
}

/// A `roundtable cadence` command.
#[derive(Debug)]
pub enum CadenceCommand {
    /// Print the cadence, as `text` or `json`.
    Show { format: String },
    /// Print the next session, bind and digest dates counted from a date
    /// (today when not given).
    Next { from: Option<String> },
}

} // verus!
