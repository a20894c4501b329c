//! The commands that a line may hold in place of a request.

use vstd::prelude::*;

verus! {

/// The commands open to everyone.
#[derive(Clone, Copy, Debug, PartialEq, Eq, Structural)]
pub enum Command {
    /// Shows all available commands.
    Help,
    /// Shows how to format the query correctly.
    FormatGuide,
}

/// The commands open to the maintainer alone.
#[derive(Clone, Copy, Debug, PartialEq, Eq, Structural)]
pub enum MaintainerCommand {
    /// How many users use this bot.
    TotalUsers,
}

} // verus!
