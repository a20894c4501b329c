//! The commands of a chat front end and the fixed texts that answer them.

pub mod enums;

use vstd::prelude::*;

verus! {

/// The answer to a line that starts like a command and is none.
pub const UNKNOWN_COMMAND_MESSAGE: &'static str = "Unknown command. Try /help";

/// The answer to the command that asks how a request is written.
pub const FORMAT_GUIDE_MESSAGE: &'static str =
    "Format for integer:\ninteger_numsys > desirednumsys\n\nFormat for fractional:\nfract_numsys > desirednumsys\nor\nfract_numsys > mantissalen_desirednumsys\n\n\nNumber system must be between 2 and 36 inclusively\nMantissa length must be between 0 and 50 inclusively";

} // verus!
