use trebuchet::totals::part1_total;
use trebuchet::totals::part2_total;
use trebuchet::totals::split_input;

#[test]
fn part1_sums_the_example_lines() {
    let input = "1abc2\npqr3stu8vwx\na1b2c3d4e5f\ntreb7uchet";
    assert_eq!(part1_total(input).unwrap(), 142);
}

#[test]
fn part2_sums_the_example_lines() {
    let input = "two1nine\neightwothree\nabcone2threexyz\nxtwone3four\n4nineeightseven2\nzoneight234\n7pqrstsixteen";
    assert_eq!(part2_total(input).unwrap(), 281);
}

#[test]
fn totals_skip_empty_lines() {
    let input = "12\n\n34\n";
    assert_eq!(part1_total(input).unwrap(), 12 + 34);
    assert_eq!(part2_total(input).unwrap(), 12 + 34);
}

#[test]
fn totals_of_an_empty_text_are_zero() {
    assert_eq!(part1_total("").unwrap(), 0);
    assert_eq!(part2_total("").unwrap(), 0);
}

#[test]
fn part1_reports_the_first_bad_line() {
    let r = part1_total("12\nabc\n34\nqq");
    let e = r.unwrap_err();
    assert_eq!(e.line, "abc");
}

#[test]
fn part2_reports_the_first_bad_line() {
    // "one" is a token for part 2, "qqq" holds none
    let r = part2_total("one\nqqq\n5");
    let e = r.unwrap_err();
    assert_eq!(e.line, "qqq");
}

#[test]
fn part1_rejects_spelled_words_alone() {
    // words are not digits in literal mode
    let r = part1_total("two1nine\neightwothree");
    let e = r.unwrap_err();
    assert_eq!(e.line, "eightwothree");
}

#[test]
fn split_input_splits_on_newlines() {
    let lines = split_input("a\nbc\n\nd");
    assert_eq!(lines, vec!["a", "bc", "", "d"]);
}

#[test]
fn split_input_keeps_a_final_empty_line() {
    let lines = split_input("a\n");
    assert_eq!(lines, vec!["a", ""]);
    let lines = split_input("");
    assert_eq!(lines, vec![""]);
}
