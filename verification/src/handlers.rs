//! The choice of an answer to a line of text.

use crate::converter::{Converter, ValidErrorKind};
use crate::text::chars_of;
use vstd::prelude::*;

verus! {

/// How a line of text is answered.
pub enum Reply {
    /// With the list of commands.
    Help,
    /// With the notice that there is no such command.
    UnknownCommand,
    /// With the converted number.
    Converted(String),
    /// With the message of the error, for a request that was refused.
    Refused(ValidErrorKind),
}

/// The line that greets the converter.
pub open spec fn start_command() -> Seq<char> {
    seq!['/', 's', 't', 'a', 'r', 't']
}

/// A line that starts with `/` is meant as a command.
pub open spec fn is_command(text: Seq<char>) -> bool {
    text.len() > 0 && text[0] == '/'
}

/// Chooses the answer to the line `text`: the greeting is answered with the
/// list of commands, any other line that starts with `/` with the notice that
/// there is no such command, and every other line is read as a request.
pub fn reply_to(text: &str) -> (reply: Reply)
    ensures
        match reply {
            Reply::Help => text@ == start_command(),
            Reply::UnknownCommand => is_command(text@) && text@ != start_command(),
            Reply::Converted(digits) => !is_command(text@) && Converter::answer(text@) == Ok::<
                Seq<char>,
                ValidErrorKind,
            >(digits@),
            Reply::Refused(kind) => !is_command(text@) && Converter::answer(text@) == Err::<
                Seq<char>,
                ValidErrorKind,
            >(kind),
        },
{
    let line = chars_of(text);
    if line.len() > 0 && line[0] == '/' {
        if line.len() == 6 && line[1] == 's' && line[2] == 't' && line[3] == 'a' && line[4] == 'r'
            && line[5] == 't' {
            assert(text@ =~= start_command());
            return Reply::Help;
        }
        return Reply::UnknownCommand;
    }
    let outcome = Converter::convert_from_message(text);
    match outcome.result {
        Some(digits) => Reply::Converted(digits),
        None => match outcome.error_kind {
            Some(kind) => Reply::Refused(kind),
            None => Reply::Refused(ValidErrorKind::UnknownError),
        },
    }
}

} // verus!
