//! Reading a request from a line of text, checking it, and answering it.

pub mod error_messages;

use crate::digits::converting::{
    any_fractional_to_any, any_whole_to_any, converted_fractional, converted_whole, digits_below,
    integer_of_text, parse_integer,
};
use crate::digits::notation::valid_in_base;
use crate::text::{
    chars_of, find_char, part_of, position_of, split, split_chars, string_of, to_uppercase,
    uppercase_of, views,
};
use vstd::prelude::*;

verus! {

/// What is wrong with a request.
#[derive(Clone, Copy, Debug, PartialEq, Eq, Structural)]
pub enum ValidErrorKind {
    /// The line is not three words with `>` in the middle.
    InvalidFormat,
    /// The count of digits after the point is no integer, or above 50.
    InvalidMantissaLength,
    /// The base of the number is no integer from 2 to 36.
    InvalidInitialBase,
    /// The first word is not a number and a base, or the number holds a
    /// character that is no digit of its base, or more than one point.
    InvalidInitialNumber,
    /// The base asked for is no integer from 2 to 36.
    InvalidConditionBase,
    /// The third word has too many parts, or parts that the number does not admit.
    InvalidCondition,
    /// The request is in order and the conversion failed all the same.
    UnknownError,
}

/// A request that has been read and checked.
pub struct ConversionRequest {
    /// The number, in upper case.
    pub number: String,
    pub source_base: i32,
    pub target_base: i32,
    /// How many digits are asked for after the point, where that was said.
    pub mantissa_length: Option<i32>,
}

/// A request as plain values.
pub struct RequestView {
    pub number: Seq<char>,
    pub source_base: int,
    pub target_base: int,
    pub mantissa_length: Option<i32>,
}

impl View for ConversionRequest {
    type V = RequestView;

    open spec fn view(&self) -> RequestView {
        RequestView {
            number: self.number@,
            source_base: self.source_base as int,
            target_base: self.target_base as int,
            mantissa_length: self.mantissa_length,
        }
    }
}

impl RequestView {
    /// Both bases are supported, the number is written in the digits of its
    /// base with at most one point, and no more than 50 digits are asked for.
    pub open spec fn wf(self) -> bool {
        &&& 2 <= self.source_base <= 36
        &&& 2 <= self.target_base <= 36
        &&& number_kind(self.number, self.source_base) is Some
        &&& self.mantissa_length matches Some(len) ==> len <= 50
    }

    /// The number has a point.
    pub open spec fn is_fractional(self) -> bool {
        position_of(self.number, '.') < self.number.len()
    }

    /// The number as the target base writes it; `None` where it is too large
    /// to be converted.
    pub open spec fn converted(self) -> Option<Seq<char>> {
        if self.is_fractional() {
            converted_fractional(
                self.number,
                self.source_base,
                self.target_base,
                self.mantissa_length,
            )
        } else {
            converted_whole(self.number, self.source_base, self.target_base)
        }
    }
}

/// The integer that `s` writes in decimal, where 32 bits with a sign hold it.
pub open spec fn small_integer_of_text(s: Seq<char>) -> Option<i32> {
    match integer_of_text(s) {
        Some(v) => if i32::MIN <= v <= i32::MAX {
            Some(v as i32)
        } else {
            None
        },
        None => None,
    }
}

/// Whether `number` is a number of base `base`, and of which kind:
/// `Some(false)` for digits of the base alone, `Some(true)` for digits of the
/// base around exactly one point, `None` for anything else.
pub open spec fn number_kind(number: Seq<char>, base: int) -> Option<bool> {
    let dot = position_of(number, '.');
    if dot >= number.len() {
        if valid_in_base(number, base) {
            Some(false)
        } else {
            None
        }
    } else if valid_in_base(number.take(dot), base) && valid_in_base(number.skip(dot + 1), base) {
        Some(true)
    } else {
        None
    }
}

/// The words of a request whose shape is in order.
pub struct Shape {
    pub number: Seq<char>,
    pub base: Seq<char>,
    pub condition: Seq<Seq<char>>,
}

/// The shape of a request: three words parted by single spaces, the second of
/// them `>`; the first a number and a base parted by `_`; the third one part or
/// two parted by `_`.
pub open spec fn shape_of(text: Seq<char>) -> Result<Shape, ValidErrorKind> {
    let words = split(text, ' ');
    if words.len() != 3 || words[1] != seq!['>'] {
        Err(ValidErrorKind::InvalidFormat)
    } else {
        let initial = split(words[0], '_');
        let condition = split(words[2], '_');
        if initial.len() != 2 {
            Err(ValidErrorKind::InvalidInitialNumber)
        } else if condition.len() > 2 {
            Err(ValidErrorKind::InvalidCondition)
        } else {
            Ok(Shape { number: initial[0], base: initial[1], condition })
        }
    }
}

/// The base that the text `base` names for the number of a request.
pub open spec fn source_base_of(base: Seq<char>) -> Result<i32, ValidErrorKind> {
    match small_integer_of_text(base) {
        Some(b) => if 2 <= b <= 36 {
            Ok(b)
        } else {
            Err(ValidErrorKind::InvalidInitialBase)
        },
        None => Err(ValidErrorKind::InvalidInitialBase),
    }
}

/// The base asked for and the count of digits after the point, once both are read.
pub open spec fn condition_in_range(base: i32, mantissa_length: Option<i32>) -> Result<
    (i32, Option<i32>),
    ValidErrorKind,
> {
    if !(2 <= base <= 36) {
        Err(ValidErrorKind::InvalidConditionBase)
    } else if mantissa_length matches Some(len) && len > 50 {
        Err(ValidErrorKind::InvalidMantissaLength)
    } else {
        Ok((base, mantissa_length))
    }
}

/// What the third word of a request asks for. A whole number admits a base
/// alone. A number with a point admits a base, or a count of digits and a
/// base; of these two the base is read first.
pub open spec fn condition_of(parts: Seq<Seq<char>>, fractional: bool) -> Result<
    (i32, Option<i32>),
    ValidErrorKind,
> {
    if !fractional {
        if parts.len() != 1 {
            Err(ValidErrorKind::InvalidCondition)
        } else {
            match small_integer_of_text(parts[0]) {
                Some(base) => condition_in_range(base, None),
                None => Err(ValidErrorKind::InvalidCondition),
            }
        }
    } else if parts.len() == 1 {
        match small_integer_of_text(parts[0]) {
            Some(base) => condition_in_range(base, None),
            None => Err(ValidErrorKind::InvalidConditionBase),
        }
    } else if parts.len() == 2 {
        match small_integer_of_text(parts[1]) {
            Some(base) => match small_integer_of_text(parts[0]) {
                Some(len) => condition_in_range(base, Some(len)),
                None => Err(ValidErrorKind::InvalidMantissaLength),
            },
            None => Err(ValidErrorKind::InvalidConditionBase),
        }
    } else {
        Err(ValidErrorKind::InvalidCondition)
    }
}

/// The request that stands in the number `upper`, already in upper case, its
/// base and the parts of the third word.
pub open spec fn checked_request(upper: Seq<char>, source_base: i32, condition: Seq<Seq<char>>)
    -> Result<RequestView, ValidErrorKind> {
    match number_kind(upper, source_base as int) {
        None => Err(ValidErrorKind::InvalidInitialNumber),
        Some(fractional) => match condition_of(condition, fractional) {
            Err(e) => Err(e),
            Ok((target_base, mantissa_length)) => Ok(
                RequestView {
                    number: upper,
                    source_base: source_base as int,
                    target_base: target_base as int,
                    mantissa_length,
                },
            ),
        },
    }
}

/// The request that the line `text` holds, or what is wrong with it. The
/// first rule that fails decides: the shape, then the base of the number, then
/// the number, put in upper case, then what is asked for.
pub open spec fn parsed(text: Seq<char>) -> Result<RequestView, ValidErrorKind> {
    match shape_of(text) {
        Err(e) => Err(e),
        Ok(shape) => match source_base_of(shape.base) {
            Err(e) => Err(e),
            Ok(source_base) => checked_request(
                uppercase_of(shape.number),
                source_base,
                shape.condition,
            ),
        },
    }
}

/// The outcome of a conversion: the text of the result or what went wrong,
/// never both and never neither.
pub struct Converter {
    pub result: Option<String>,
    pub error_kind: Option<ValidErrorKind>,
}

impl Converter {
    /// Exactly one of the two fields is filled.
    pub open spec fn wf(&self) -> bool {
        self.result is Some <==> self.error_kind is None
    }

    /// What the line `text` is answered with: the error of the request where
    /// it has one, else the converted number, else `UnknownError`.
    pub open spec fn answer(text: Seq<char>) -> Result<Seq<char>, ValidErrorKind> {
        match parsed(text) {
            Err(e) => Err(e),
            Ok(request) => match request.converted() {
                Some(digits) => Ok(digits),
                None => Err(ValidErrorKind::UnknownError),
            },
        }
    }

    /// Reads the request in `text`, checks it and converts the number.
    pub fn convert_from_message(text: &str) -> (outcome: Self)
        ensures
            outcome.wf(),
            match Self::answer(text@) {
                Ok(digits) => outcome.result matches Some(s) && s@ == digits,
                Err(e) => outcome.error_kind == Some(e),
            },
    {
        match parse_and_convert(text) {
            Ok(digits) => Self { result: Some(digits), error_kind: None },
            Err(e) => Self { result: None, error_kind: Some(e) },
        }
    }
}

/// Reads the request in the line `text`, checks it and converts the number:
/// the converted number, or the one error that the line has.
pub fn parse_and_convert(text: &str) -> (r: Result<String, ValidErrorKind>)
    ensures
        match Converter::answer(text@) {
            Ok(digits) => r matches Ok(s) && s@ == digits,
            Err(e) => r == Err::<String, ValidErrorKind>(e),
        },
{
    match parse_request(text) {
        Ok(request) => convert_request(&request),
        Err(e) => Err(e),
    }
}

/// The integer that `text` writes in decimal, as `str::parse::<i32>` reads it.
pub fn parse_small_integer(text: &Vec<char>) -> (r: Option<i32>)
    ensures
        r == small_integer_of_text(text@),
{
    match parse_integer(text) {
        Some(v) => if -2147483648 <= v && v <= 2147483647 {
            Some(v as i32)
        } else {
            None
        },
        None => None,
    }
}

/// Tells whether `number`, in upper case already, is a number of base `base`,
/// and whether it has a point.
pub fn validate_number(number: &str, base: i32) -> (r: Result<bool, ValidErrorKind>)
    requires
        2 <= base <= 36,
    ensures
        match number_kind(number@, base as int) {
            Some(fractional) => r == Ok::<bool, ValidErrorKind>(fractional),
            None => r == Err::<bool, ValidErrorKind>(ValidErrorKind::InvalidInitialNumber),
        },
{
    let text = chars_of(number);
    let dot = find_char(&text, '.');
    if dot >= text.len() {
        if digits_below(&text, base as u32) {
            Ok(false)
        } else {
            Err(ValidErrorKind::InvalidInitialNumber)
        }
    } else {
        let before = part_of(&text, 0, dot);
        let after = part_of(&text, dot + 1, text.len());
        proof {
            assert(before@ =~= number@.take(dot as int));
            assert(after@ =~= number@.skip(dot + 1));
        }
        if digits_below(&before, base as u32) && digits_below(&after, base as u32) {
            Ok(true)
        } else {
            Err(ValidErrorKind::InvalidInitialNumber)
        }
    }
}

/// Checks the base asked for and the count of digits once both are read.
pub fn check_condition(base: i32, mantissa_length: Option<i32>) -> (r: Result<
    (i32, Option<i32>),
    ValidErrorKind,
>)
    ensures
        r == condition_in_range(base, mantissa_length),
{
    if !(2 <= base && base <= 36) {
        return Err(ValidErrorKind::InvalidConditionBase);
    }
    if let Some(len) = mantissa_length {
        if len > 50 {
            return Err(ValidErrorKind::InvalidMantissaLength);
        }
    }
    Ok((base, mantissa_length))
}

/// Reads what the parts of the third word ask for, for a number with a point
/// or without one.
pub fn read_condition(parts: &Vec<Vec<char>>, fractional: bool) -> (r: Result<
    (i32, Option<i32>),
    ValidErrorKind,
>)
    ensures
        r == condition_of(views(parts@), fractional),
{
    proof {
        assert(views(parts@).len() == parts@.len());
    }
    if !fractional {
        if parts.len() != 1 {
            return Err(ValidErrorKind::InvalidCondition);
        }
        assert(views(parts@)[0] == parts@[0]@);
        match parse_small_integer(&parts[0]) {
            Some(base) => check_condition(base, None),
            None => Err(ValidErrorKind::InvalidCondition),
        }
    } else if parts.len() == 1 {
        assert(views(parts@)[0] == parts@[0]@);
        match parse_small_integer(&parts[0]) {
            Some(base) => check_condition(base, None),
            None => Err(ValidErrorKind::InvalidConditionBase),
        }
    } else if parts.len() == 2 {
        assert(views(parts@)[0] == parts@[0]@);
        assert(views(parts@)[1] == parts@[1]@);
        let base = match parse_small_integer(&parts[1]) {
            Some(base) => base,
            None => {
                return Err(ValidErrorKind::InvalidConditionBase);
            },
        };
        match parse_small_integer(&parts[0]) {
            Some(len) => check_condition(base, Some(len)),
            None => Err(ValidErrorKind::InvalidMantissaLength),
        }
    } else {
        Err(ValidErrorKind::InvalidCondition)
    }
}

/// What `r` holds as plain values.
pub open spec fn request_outcome(r: Result<ConversionRequest, ValidErrorKind>) -> Result<
    RequestView,
    ValidErrorKind,
> {
    match r {
        Ok(request) => Ok(request@),
        Err(e) => Err(e),
    }
}

/// Reads the request in the line `text` and checks it.
pub fn parse_request(text: &str) -> (r: Result<ConversionRequest, ValidErrorKind>)
    ensures
        request_outcome(r) == parsed(text@),
        r matches Ok(request) ==> request@.wf(),
{
    let line = chars_of(text);
    let words = split_chars(&line, ' ');
    proof {
        assert(views(words@).len() == words@.len());
    }
    if words.len() != 3 {
        return Err(ValidErrorKind::InvalidFormat);
    }
    proof {
        assert(views(words@)[0] == words@[0]@);
        assert(views(words@)[1] == words@[1]@);
        assert(views(words@)[2] == words@[2]@);
    }
    if !(words[1].len() == 1 && words[1][0] == '>') {
        proof {
            if words@[1]@ == seq!['>'] {
                assert(words@[1]@.len() == 1);
                assert(words@[1]@[0] == '>');
            }
        }
        return Err(ValidErrorKind::InvalidFormat);
    }
    proof {
        assert(words@[1]@ =~= seq!['>']);
    }
    let initial = split_chars(&words[0], '_');
    let condition = split_chars(&words[2], '_');
    proof {
        assert(views(initial@).len() == initial@.len());
        assert(views(condition@).len() == condition@.len());
    }
    if initial.len() != 2 {
        return Err(ValidErrorKind::InvalidInitialNumber);
    }
    if condition.len() > 2 {
        return Err(ValidErrorKind::InvalidCondition);
    }
    proof {
        assert(views(initial@)[0] == initial@[0]@);
        assert(views(initial@)[1] == initial@[1]@);
    }
    let source_base = match parse_small_integer(&initial[1]) {
        Some(base) => base,
        None => {
            return Err(ValidErrorKind::InvalidInitialBase);
        },
    };
    if !(2 <= source_base && source_base <= 36) {
        return Err(ValidErrorKind::InvalidInitialBase);
    }
    let number = string_of(&initial[0]);
    let upper = to_uppercase(number.as_str());
    let fractional = match validate_number(upper.as_str(), source_base) {
        Ok(fractional) => fractional,
        Err(e) => {
            return Err(e);
        },
    };
    match read_condition(&condition, fractional) {
        Ok((target_base, mantissa_length)) => Ok(
            ConversionRequest { number: upper, source_base, target_base, mantissa_length },
        ),
        Err(e) => Err(e),
    }
}

/// Converts the number of a checked request. The one way this fails is a
/// number too large to be converted: `UnknownError`.
pub fn convert_request(request: &ConversionRequest) -> (r: Result<String, ValidErrorKind>)
    requires
        request@.wf(),
    ensures
        match request@.converted() {
            Some(digits) => r matches Ok(s) && s@ == digits,
            None => r == Err::<String, ValidErrorKind>(ValidErrorKind::UnknownError),
        },
{
    let text = chars_of(request.number.as_str());
    let dot = find_char(&text, '.');
    let converted = if dot < text.len() {
        any_fractional_to_any(
            request.number.as_str(),
            request.source_base,
            request.target_base,
            request.mantissa_length,
        )
    } else {
        any_whole_to_any(request.number.as_str(), request.source_base, request.target_base)
    };
    match converted {
        Ok(digits) => Ok(digits),
        Err(_) => Err(ValidErrorKind::UnknownError),
    }
}

} // verus!
