//! What a requester is told about a request that was refused.

use crate::converter::ValidErrorKind;
use vstd::prelude::*;

verus! {

pub const INVALID_FORMAT_MESSAGE: &'static str = "Incorrect format. Try /formatguide";

pub const INVALID_MANTISSA_LENGTH_MESSAGE: &'static str = "Invalid mantissa lenght";

pub const INVALID_INITIAL_BASE_MESSAGE: &'static str = "Invalid number system for initial number";

pub const INVALID_INITIAL_NUMBER_MESSAGE: &'static str = "Invalid initial number";

pub const INVALID_CONDITION_BASE_MESSAGE: &'static str = "Invalid number system for condition";

pub const INVALID_CONDITION_MESSAGE: &'static str = "Invalid condition";

pub const UNKNOWN_ERROR_MESSAGE: &'static str =
    "An unexpected error occured...\nYour last message will be sent to the developer, so he can fix it\nIt's fine, it's anonymous\nThank you";

/// The message that belongs to each kind of error.
pub open spec fn message_of(kind: ValidErrorKind) -> Seq<char> {
    match kind {
        ValidErrorKind::InvalidFormat => INVALID_FORMAT_MESSAGE@,
        ValidErrorKind::InvalidMantissaLength => INVALID_MANTISSA_LENGTH_MESSAGE@,
        ValidErrorKind::InvalidInitialBase => INVALID_INITIAL_BASE_MESSAGE@,
        ValidErrorKind::InvalidInitialNumber => INVALID_INITIAL_NUMBER_MESSAGE@,
        ValidErrorKind::InvalidConditionBase => INVALID_CONDITION_BASE_MESSAGE@,
        ValidErrorKind::InvalidCondition => INVALID_CONDITION_MESSAGE@,
        ValidErrorKind::UnknownError => UNKNOWN_ERROR_MESSAGE@,
    }
}

impl ValidErrorKind {
    /// What the requester is told about an error of this kind.
    pub fn message(&self) -> (text: &'static str)
        ensures
            text@ == message_of(*self),
    {
        match self {
            ValidErrorKind::InvalidFormat => INVALID_FORMAT_MESSAGE,
            ValidErrorKind::InvalidMantissaLength => INVALID_MANTISSA_LENGTH_MESSAGE,
            ValidErrorKind::InvalidInitialBase => INVALID_INITIAL_BASE_MESSAGE,
            ValidErrorKind::InvalidInitialNumber => INVALID_INITIAL_NUMBER_MESSAGE,
            ValidErrorKind::InvalidConditionBase => INVALID_CONDITION_BASE_MESSAGE,
            ValidErrorKind::InvalidCondition => INVALID_CONDITION_MESSAGE,
            ValidErrorKind::UnknownError => UNKNOWN_ERROR_MESSAGE,
        }
    }

    /// Whether the line that led to an error of this kind goes to the
    /// maintainer as well: only an error that the checks did not foresee does.
    pub fn reaches_maintainer(&self) -> (reported: bool)
        ensures
            reported == (*self == ValidErrorKind::UnknownError),
    {
        match self {
            ValidErrorKind::UnknownError => true,
            _ => false,
        }
    }
}

} // verus!
