use binary2hex::commands::enums::{Command, MaintainerCommand};
use binary2hex::commands::{FORMAT_GUIDE_MESSAGE, UNKNOWN_COMMAND_MESSAGE};
use binary2hex::converter::error_messages;
use binary2hex::converter::{
    check_condition, convert_request, parse_and_convert, parse_request, parse_small_integer, read_condition,
    validate_number, ConversionRequest, Converter, ValidErrorKind,
};
use binary2hex::handlers::{reply_to, Reply};
use binary2hex::journal::contains_user;
use binary2hex::text::{chars_of, find_char, part_of, split_chars, string_of};

fn letters(s: &str) -> Vec<char> {
    s.chars().collect()
}

fn error_of(line: &str) -> Option<ValidErrorKind> {
    let outcome = Converter::convert_from_message(line);
    assert!(outcome.result.is_none() != outcome.error_kind.is_none());
    outcome.error_kind
}

fn result_of(line: &str) -> Option<String> {
    let outcome = Converter::convert_from_message(line);
    assert!(outcome.result.is_none() != outcome.error_kind.is_none());
    outcome.result
}

#[test]
fn request_for_a_whole_number_is_read() {
    let request = parse_request("1110001_2 > 10").ok().unwrap();
    assert_eq!(request.number, "1110001");
    assert_eq!(request.source_base, 2);
    assert_eq!(request.target_base, 10);
    assert_eq!(request.mantissa_length, None);
    assert_eq!(result_of("1110001_2 > 10"), Some("113".to_string()));
}

#[test]
fn request_for_a_fractional_number_is_read() {
    let request = parse_request("13.5533_8 > 16").ok().unwrap();
    assert_eq!(request.number, "13.5533");
    assert_eq!(request.source_base, 8);
    assert_eq!(request.target_base, 16);
    assert_eq!(request.mantissa_length, None);
    let request = parse_request("13.5533_8 > 2_16").ok().unwrap();
    assert_eq!(request.target_base, 16);
    assert_eq!(request.mantissa_length, Some(2));
    assert_eq!(result_of("13.5533_8 > 16"), Some("B.B5B".to_string()));
    assert_eq!(result_of("13.5533_8 > 2_16"), Some("B.B5".to_string()));
    assert_eq!(result_of("0.55357_8 > 16"), Some("0.B5DE".to_string()));
}

#[test]
fn number_is_put_in_upper_case() {
    let request = parse_request("a8f13_16 > 10").ok().unwrap();
    assert_eq!(request.number, "A8F13");
    assert_eq!(result_of("a8f13_16 > 10"), Some("691987".to_string()));
    assert_eq!(result_of("ff.8_16 > 10"), Some("255.5".to_string()));
    // one letter that upper case writes with two
    assert_eq!(result_of("ß_36 > 10"), Some("1036".to_string()));
}

#[test]
fn word_count_other_than_three_is_a_format_error() {
    assert_eq!(error_of("1_2 > 10 5"), Some(ValidErrorKind::InvalidFormat));
    assert_eq!(error_of("1_2 >"), Some(ValidErrorKind::InvalidFormat));
    assert_eq!(error_of("1_2"), Some(ValidErrorKind::InvalidFormat));
    assert_eq!(error_of(""), Some(ValidErrorKind::InvalidFormat));
    assert_eq!(error_of("1_2  > 10"), Some(ValidErrorKind::InvalidFormat));
    assert_eq!(error_of(" 1_2 > 10"), Some(ValidErrorKind::InvalidFormat));
    assert_eq!(error_of("1_2 > 10 "), Some(ValidErrorKind::InvalidFormat));
    assert_eq!(error_of("1_2\t>\t10"), Some(ValidErrorKind::InvalidFormat));
}

#[test]
fn middle_word_must_be_the_arrow() {
    assert_eq!(error_of("1_2 < 10"), Some(ValidErrorKind::InvalidFormat));
    assert_eq!(error_of("1_2 >> 10"), Some(ValidErrorKind::InvalidFormat));
    assert_eq!(error_of("1_2  10"), Some(ValidErrorKind::InvalidFormat));
    // the format is judged before anything else
    assert_eq!(error_of("x_y_z to a_b_c"), Some(ValidErrorKind::InvalidFormat));
}

#[test]
fn first_word_must_be_number_and_base() {
    assert_eq!(error_of("1 > 10"), Some(ValidErrorKind::InvalidInitialNumber));
    assert_eq!(error_of("1_2_3 > 10"), Some(ValidErrorKind::InvalidInitialNumber));
    // judged before the third word
    assert_eq!(error_of("1 > 1_2_3"), Some(ValidErrorKind::InvalidInitialNumber));
}

#[test]
fn third_word_has_at_most_two_parts() {
    assert_eq!(error_of("1_2 > 1_2_3"), Some(ValidErrorKind::InvalidCondition));
    assert_eq!(error_of("1.1_2 > 1_2_3"), Some(ValidErrorKind::InvalidCondition));
    // judged before the base of the number
    assert_eq!(error_of("1_x > 1_2_3"), Some(ValidErrorKind::InvalidCondition));
}

#[test]
fn base_of_the_number_must_be_from_2_to_36() {
    assert_eq!(error_of("1_x > 10"), Some(ValidErrorKind::InvalidInitialBase));
    assert_eq!(error_of("1_ > 10"), Some(ValidErrorKind::InvalidInitialBase));
    assert_eq!(error_of("1_1 > 10"), Some(ValidErrorKind::InvalidInitialBase));
    assert_eq!(error_of("1_0 > 10"), Some(ValidErrorKind::InvalidInitialBase));
    assert_eq!(error_of("1_-2 > 10"), Some(ValidErrorKind::InvalidInitialBase));
    assert_eq!(error_of("1_37 > 10"), Some(ValidErrorKind::InvalidInitialBase));
    assert_eq!(error_of("1_99999999999 > 10"), Some(ValidErrorKind::InvalidInitialBase));
    assert_eq!(error_of("1_2.0 > 10"), Some(ValidErrorKind::InvalidInitialBase));
    assert_eq!(result_of("1_2 > 10"), Some("1".to_string()));
    assert_eq!(result_of("Z_36 > 10"), Some("35".to_string()));
    assert_eq!(result_of("F_+16 > 10"), Some("15".to_string()));
    // judged before the number
    assert_eq!(error_of("?_1 > 10"), Some(ValidErrorKind::InvalidInitialBase));
}

#[test]
fn digits_must_belong_to_the_base() {
    assert_eq!(error_of("AB_5 > 10"), Some(ValidErrorKind::InvalidInitialNumber));
    assert_eq!(error_of("12_2 > 10"), Some(ValidErrorKind::InvalidInitialNumber));
    assert_eq!(error_of("1-1_2 > 10"), Some(ValidErrorKind::InvalidInitialNumber));
    assert_eq!(error_of("-1_2 > 10"), Some(ValidErrorKind::InvalidInitialNumber));
    assert_eq!(error_of("1.2_2 > 10"), Some(ValidErrorKind::InvalidInitialNumber));
    assert_eq!(error_of("2.1_2 > 10"), Some(ValidErrorKind::InvalidInitialNumber));
    // judged before the base asked for
    assert_eq!(error_of("12_2 > 40"), Some(ValidErrorKind::InvalidInitialNumber));
}

#[test]
fn number_has_at_most_one_point() {
    assert_eq!(error_of("1.1.1_2 > 10"), Some(ValidErrorKind::InvalidInitialNumber));
    assert_eq!(error_of("1.._2 > 10"), Some(ValidErrorKind::InvalidInitialNumber));
    assert_eq!(result_of("1._2 > 10"), Some("1.".to_string()));
    assert_eq!(result_of("._2 > 10"), Some("0.".to_string()));
}

#[test]
fn whole_number_admits_a_base_alone() {
    assert_eq!(error_of("1_2 > x"), Some(ValidErrorKind::InvalidCondition));
    assert_eq!(error_of("1_2 > "), Some(ValidErrorKind::InvalidCondition));
    assert_eq!(error_of("1_2 > 5_10"), Some(ValidErrorKind::InvalidCondition));
    assert_eq!(error_of("1_2 > 10_"), Some(ValidErrorKind::InvalidCondition));
}

#[test]
fn base_asked_for_must_be_from_2_to_36() {
    assert_eq!(error_of("11_2 > 40"), Some(ValidErrorKind::InvalidConditionBase));
    assert_eq!(error_of("11_2 > 1"), Some(ValidErrorKind::InvalidConditionBase));
    assert_eq!(error_of("11_2 > -10"), Some(ValidErrorKind::InvalidConditionBase));
    assert_eq!(error_of("1.1_2 > 37"), Some(ValidErrorKind::InvalidConditionBase));
    assert_eq!(error_of("1.1_2 > x"), Some(ValidErrorKind::InvalidConditionBase));
    assert_eq!(error_of("1.1_2 > 5_x"), Some(ValidErrorKind::InvalidConditionBase));
    assert_eq!(error_of("1.1_2 > 5_"), Some(ValidErrorKind::InvalidConditionBase));
    assert_eq!(error_of("1.1_2 > 5_1"), Some(ValidErrorKind::InvalidConditionBase));
    // the base is read before the count of digits, and its range is judged first
    assert_eq!(error_of("1.1_2 > x_y"), Some(ValidErrorKind::InvalidConditionBase));
    assert_eq!(error_of("1.1_2 > 51_37"), Some(ValidErrorKind::InvalidConditionBase));
}

#[test]
fn count_of_digits_must_be_an_integer_up_to_50() {
    assert_eq!(error_of("1.1_2 > x_10"), Some(ValidErrorKind::InvalidMantissaLength));
    assert_eq!(error_of("1.1_2 > _10"), Some(ValidErrorKind::InvalidMantissaLength));
    assert_eq!(error_of("1.1_2 > 51_10"), Some(ValidErrorKind::InvalidMantissaLength));
    assert_eq!(error_of("1.1_2 > 2147483648_10"), Some(ValidErrorKind::InvalidMantissaLength));
    assert_eq!(result_of("1.1_2 > 50_10"), Some("1.5".to_string()));
    assert_eq!(result_of("1.1_2 > 0_10"), Some("1.".to_string()));
    assert_eq!(result_of("1.1_2 > -3_10"), Some("1.".to_string()));
    let request = parse_request("1.1_2 > -3_10").ok().unwrap();
    assert_eq!(request.mantissa_length, Some(-3));
}

#[test]
fn number_too_large_is_an_unknown_error() {
    let line = format!("{}_2 > 10", "1".repeat(128));
    assert_eq!(error_of(&line), Some(ValidErrorKind::UnknownError));
    let line = format!("{}.1_2 > 10", "1".repeat(128));
    assert_eq!(error_of(&line), Some(ValidErrorKind::UnknownError));
    let line = format!("{}_2 > 10", "1".repeat(127));
    assert_eq!(
        result_of(&line),
        Some("170141183460469231731687303715884105727".to_string())
    );
}

#[test]
fn zero_is_written_with_one_digit() {
    assert_eq!(result_of("0_2 > 10"), Some("0".to_string()));
    assert_eq!(result_of("000_7 > 36"), Some("0".to_string()));
    assert_eq!(result_of("_2 > 10"), Some("0".to_string()));
    assert_eq!(result_of("0.0_2 > 10"), Some("0.".to_string()));
}

#[test]
fn same_base_request_gives_the_number_back() {
    assert_eq!(result_of("2AEA_16 > 16"), Some("2AEA".to_string()));
    assert_eq!(result_of("B.B5B_16 > 16"), Some("B.B5B".to_string()));
}

#[test]
fn validate_number_tells_whole_from_fractional() {
    assert_eq!(validate_number("1110001", 2), Ok(false));
    assert_eq!(validate_number("", 2), Ok(false));
    assert_eq!(validate_number("13.5533", 8), Ok(true));
    assert_eq!(validate_number(".", 8), Ok(true));
    assert_eq!(validate_number("AB", 5), Err(ValidErrorKind::InvalidInitialNumber));
    assert_eq!(validate_number("ab", 16), Err(ValidErrorKind::InvalidInitialNumber));
    assert_eq!(validate_number("1.1.1", 2), Err(ValidErrorKind::InvalidInitialNumber));
    assert_eq!(validate_number("1.8", 8), Err(ValidErrorKind::InvalidInitialNumber));
    assert_eq!(validate_number("8.1", 8), Err(ValidErrorKind::InvalidInitialNumber));
    assert_eq!(validate_number("Z", 36), Ok(false));
    assert_eq!(validate_number("Z", 35), Err(ValidErrorKind::InvalidInitialNumber));
}

#[test]
fn read_condition_reads_base_and_count() {
    let one = vec![letters("16")];
    let two = vec![letters("5"), letters("16")];
    assert_eq!(read_condition(&one, false), Ok((16, None)));
    assert_eq!(read_condition(&one, true), Ok((16, None)));
    assert_eq!(read_condition(&two, true), Ok((16, Some(5))));
    assert_eq!(read_condition(&two, false), Err(ValidErrorKind::InvalidCondition));
    assert_eq!(read_condition(&vec![], true), Err(ValidErrorKind::InvalidCondition));
    assert_eq!(read_condition(&vec![], false), Err(ValidErrorKind::InvalidCondition));
    let three = vec![letters("5"), letters("16"), letters("1")];
    assert_eq!(read_condition(&three, true), Err(ValidErrorKind::InvalidCondition));
    assert_eq!(check_condition(36, Some(50)), Ok((36, Some(50))));
    assert_eq!(check_condition(36, Some(51)), Err(ValidErrorKind::InvalidMantissaLength));
    assert_eq!(check_condition(37, Some(51)), Err(ValidErrorKind::InvalidConditionBase));
    assert_eq!(check_condition(2, Some(i32::MIN)), Ok((2, Some(i32::MIN))));
}

#[test]
fn small_integers_are_read_as_32_bits() {
    for s in ["0", "-1", "+36", "2147483647", "2147483648", "-2147483648", "-2147483649", "", "x", "1_"] {
        assert_eq!(parse_small_integer(&letters(s)), s.parse::<i32>().ok());
    }
}

#[test]
fn convert_request_converts_a_checked_request() {
    let request = ConversionRequest {
        number: "A15BB3".to_string(),
        source_base: 16,
        target_base: 8,
        mantissa_length: None,
    };
    assert_eq!(convert_request(&request), Ok("50255663".to_string()));
    let request = ConversionRequest {
        number: "0.55357".to_string(),
        source_base: 8,
        target_base: 16,
        mantissa_length: Some(2),
    };
    assert_eq!(convert_request(&request), Ok("0.B5".to_string()));
    let request = ConversionRequest {
        number: "Z".repeat(30),
        source_base: 36,
        target_base: 8,
        mantissa_length: None,
    };
    assert_eq!(convert_request(&request), Err(ValidErrorKind::UnknownError));
}

#[test]
fn every_error_has_its_message() {
    assert_eq!(ValidErrorKind::InvalidFormat.message(), "Incorrect format. Try /formatguide");
    assert_eq!(ValidErrorKind::InvalidMantissaLength.message(), "Invalid mantissa lenght");
    assert_eq!(
        ValidErrorKind::InvalidInitialBase.message(),
        "Invalid number system for initial number"
    );
    assert_eq!(ValidErrorKind::InvalidInitialNumber.message(), "Invalid initial number");
    assert_eq!(
        ValidErrorKind::InvalidConditionBase.message(),
        "Invalid number system for condition"
    );
    assert_eq!(ValidErrorKind::InvalidCondition.message(), "Invalid condition");
    assert_eq!(
        ValidErrorKind::UnknownError.message(),
        "An unexpected error occured...\nYour last message will be sent to the developer, so he can fix it\nIt's fine, it's anonymous\nThank you"
    );
    assert_eq!(ValidErrorKind::UnknownError.message(), error_messages::UNKNOWN_ERROR_MESSAGE);
    assert_eq!(ValidErrorKind::InvalidFormat.message(), error_messages::INVALID_FORMAT_MESSAGE);
}

#[test]
fn only_an_unknown_error_reaches_the_maintainer() {
    assert!(ValidErrorKind::UnknownError.reaches_maintainer());
    for kind in [
        ValidErrorKind::InvalidFormat,
        ValidErrorKind::InvalidMantissaLength,
        ValidErrorKind::InvalidInitialBase,
        ValidErrorKind::InvalidInitialNumber,
        ValidErrorKind::InvalidConditionBase,
        ValidErrorKind::InvalidCondition,
    ] {
        assert!(!kind.reaches_maintainer());
    }
}

#[test]
fn lines_are_answered_by_their_kind() {
    assert!(matches!(reply_to("/start"), Reply::Help));
    assert!(matches!(reply_to("/"), Reply::UnknownCommand));
    assert!(matches!(reply_to("/star"), Reply::UnknownCommand));
    assert!(matches!(reply_to("/start "), Reply::UnknownCommand));
    assert!(matches!(reply_to("/1_2 > 10"), Reply::UnknownCommand));
    assert!(matches!(reply_to("1_2 > 10"), Reply::Converted(s) if s == "1"));
    assert!(matches!(reply_to("start"), Reply::Refused(ValidErrorKind::InvalidFormat)));
    assert!(matches!(reply_to(""), Reply::Refused(ValidErrorKind::InvalidFormat)));
    assert!(matches!(reply_to(" /start"), Reply::Refused(ValidErrorKind::InvalidFormat)));
    assert!(matches!(reply_to("1_2 > 40"), Reply::Refused(ValidErrorKind::InvalidConditionBase)));
}

#[test]
fn fixed_texts_read_as_they_should() {
    assert_eq!(UNKNOWN_COMMAND_MESSAGE, "Unknown command. Try /help");
    assert!(FORMAT_GUIDE_MESSAGE.starts_with("Format for integer:\ninteger_numsys > desirednumsys\n\n"));
    assert!(FORMAT_GUIDE_MESSAGE.ends_with("Mantissa length must be between 0 and 50 inclusively"));
    assert_eq!(FORMAT_GUIDE_MESSAGE.lines().count(), 11);
    assert_ne!(Command::Help, Command::FormatGuide);
    assert_eq!(MaintainerCommand::TotalUsers, MaintainerCommand::TotalUsers);
}

#[test]
fn text_is_split_at_every_separator() {
    let parts = |s: &str, sep: char| -> Vec<String> {
        split_chars(&letters(s), sep).iter().map(|p| p.iter().collect()).collect()
    };
    assert_eq!(parts("a b c", ' '), vec!["a", "b", "c"]);
    assert_eq!(parts("", ' '), vec![""]);
    assert_eq!(parts(" ", ' '), vec!["", ""]);
    assert_eq!(parts("a  b", ' '), vec!["a", "", "b"]);
    assert_eq!(parts("_a_", '_'), vec!["", "a", ""]);
    assert_eq!(parts("abc", '_'), vec!["abc"]);
    for s in ["", "_", "__", "a_b", "_a_b_", "1.5_8", "no separator"] {
        let expected: Vec<String> = s.split('_').map(|p| p.to_string()).collect();
        assert_eq!(parts(s, '_'), expected);
    }
}

#[test]
fn text_helpers_keep_the_characters() {
    assert_eq!(chars_of("aß1"), vec!['a', 'ß', '1']);
    assert_eq!(chars_of(""), Vec::<char>::new());
    assert_eq!(string_of(&vec!['a', 'ß', '1']), "aß1");
    assert_eq!(string_of(&vec![]), "");
    assert_eq!(find_char(&letters("12.5.1"), '.'), 2);
    assert_eq!(find_char(&letters("125"), '.'), 3);
    assert_eq!(find_char(&letters(""), '.'), 0);
    assert_eq!(part_of(&letters("12.5"), 0, 2), vec!['1', '2']);
    assert_eq!(part_of(&letters("12.5"), 3, 4), vec!['5']);
    assert_eq!(part_of(&letters("12.5"), 4, 4), Vec::<char>::new());
}

#[test]
fn user_is_known_when_the_identifier_is_listed() {
    assert!(contains_user(&vec![3, 1, 2], 1));
    assert!(contains_user(&vec![7], 7));
    assert!(contains_user(&vec![7, 7], 7));
    assert!(!contains_user(&vec![3, 1, 2], 4));
    assert!(!contains_user(&vec![], 0));
    assert!(contains_user(&vec![0, u64::MAX], u64::MAX));
}

#[test]
fn parse_and_convert_gives_result_or_error() {
    assert_eq!(parse_and_convert("1110001_2 > 10"), Ok("113".to_string()));
    assert_eq!(parse_and_convert("A8F13_16 > 10"), Ok("691987".to_string()));
    assert_eq!(parse_and_convert("13.5533_8 > 16"), Ok("B.B5B".to_string()));
    assert_eq!(parse_and_convert("2.01_10 > 10"), Ok("2.01".to_string()));
    assert_eq!(parse_and_convert("1.1_3 > 3"), Ok("1.1".to_string()));
    assert_eq!(parse_and_convert("1 2 3 4"), Err(ValidErrorKind::InvalidFormat));
    assert_eq!(parse_and_convert("11_2 > 40"), Err(ValidErrorKind::InvalidConditionBase));
    assert_eq!(parse_and_convert("AB_5 > 10"), Err(ValidErrorKind::InvalidInitialNumber));
}
