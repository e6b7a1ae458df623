use trebuchet::extract::first_and_last_digit;
use trebuchet::extract::first_and_last_number;
use trebuchet::extract::spelled_to_digit;

#[test]
fn test_part1() {
    let example_line_1 = "1abc2";
    let example_line_2 = "pqr3stu8vwx";
    let example_line_3 = "a1b2c3d4e5f";
    let example_line_4 = "treb7uchet";
    assert_eq!(first_and_last_digit(example_line_1.to_string()).unwrap(), "12");
    assert_eq!(first_and_last_digit(example_line_2.to_string()).unwrap(), "38");
    assert_eq!(first_and_last_digit(example_line_3.to_string()).unwrap(), "15");
    assert_eq!(first_and_last_digit(example_line_4.to_string()).unwrap(), "77");
}

#[test]
fn test_part2() {
    let example_line_1 = "two1nine";
    let example_line_2 = "eightwothree";
    let example_line_3 = "abcone2threexyz";
    let example_line_4 = "xtwone3four";
    let example_line_5 = "4nineeightseven2";
    let example_line_6 = "zoneight234";
    let example_line_7 = "7pqrstsixteen";
    assert_eq!(first_and_last_number(example_line_1.to_string()).unwrap(), "29");
    assert_eq!(first_and_last_number(example_line_2.to_string()).unwrap(), "83");
    assert_eq!(first_and_last_number(example_line_3.to_string()).unwrap(), "13");
    assert_eq!(first_and_last_number(example_line_4.to_string()).unwrap(), "24");
    assert_eq!(first_and_last_number(example_line_5.to_string()).unwrap(), "42");
    assert_eq!(first_and_last_number(example_line_6.to_string()).unwrap(), "14");
    assert_eq!(first_and_last_number(example_line_7.to_string()).unwrap(), "76");
}

#[test]
fn digit_mode_single_digit_repeats() {
    // exactly one digit: first == last
    assert_eq!(first_and_last_digit("treb7uchet".to_string()).unwrap(), "77");
    assert_eq!(first_and_last_digit("5".to_string()).unwrap(), "55");
}

#[test]
fn digit_mode_accepts_zero() {
    // '0' is a digit character in literal mode, though it has no spelled form
    assert_eq!(first_and_last_digit("a0b".to_string()).unwrap(), "00");
    assert_eq!(first_and_last_digit("0xy9".to_string()).unwrap(), "09");
}

#[test]
fn digit_mode_no_digit_is_an_error() {
    let r = first_and_last_digit("abcdef".to_string());
    let e = r.unwrap_err();
    assert_eq!(e.line, "abcdef");
}

#[test]
fn digit_mode_empty_line_is_an_error() {
    let r = first_and_last_digit(String::new());
    let e = r.unwrap_err();
    assert_eq!(e.line, "");
}

#[test]
fn spelled_mode_single_token_repeats() {
    // exactly one token: first == last
    assert_eq!(first_and_last_number("eight".to_string()).unwrap(), "88");
    assert_eq!(first_and_last_number("treb7uchet".to_string()).unwrap(), "77");
}

#[test]
fn spelled_mode_counts_overlapping_words() {
    // "two" and "one" overlap on one character; both count
    assert_eq!(first_and_last_number("twone".to_string()).unwrap(), "21");
    assert_eq!(first_and_last_number("oneight".to_string()).unwrap(), "18");
}

#[test]
fn spelled_mode_no_token_is_an_error() {
    // no literal digit and no spelled word anywhere
    let r = first_and_last_number("xyz".to_string());
    let e = r.unwrap_err();
    assert_eq!(e.line, "xyz");
}

#[test]
fn spelled_mode_zero_digit_alone_is_an_error() {
    // '0' is not a token of the spelled mode
    let r = first_and_last_number("abc0def".to_string());
    let e = r.unwrap_err();
    assert_eq!(e.line, "abc0def");
}

#[test]
fn spelled_to_digit_maps_all_nine_words() {
    assert_eq!(spelled_to_digit("one"), "1");
    assert_eq!(spelled_to_digit("two"), "2");
    assert_eq!(spelled_to_digit("three"), "3");
    assert_eq!(spelled_to_digit("four"), "4");
    assert_eq!(spelled_to_digit("five"), "5");
    assert_eq!(spelled_to_digit("six"), "6");
    assert_eq!(spelled_to_digit("seven"), "7");
    assert_eq!(spelled_to_digit("eight"), "8");
    assert_eq!(spelled_to_digit("nine"), "9");
}

#[test]
fn spelled_to_digit_leaves_other_strings_alone() {
    assert_eq!(spelled_to_digit("7"), "7");
    assert_eq!(spelled_to_digit("hello"), "hello");
    assert_eq!(spelled_to_digit(""), "");
    assert_eq!(spelled_to_digit("ones"), "ones");
}
