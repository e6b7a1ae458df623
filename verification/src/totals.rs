//! Splitting a whole input text into lines and summing the calibration
//! value of every non-empty line, in each of the two extraction modes.

use crate::extract::digit_span;
use crate::extract::has_digit;
use crate::extract::has_token;
use crate::extract::mode_a_value;
use crate::extract::mode_b_value;
use crate::extract::token_span;
use crate::extract::FormatError;
use vstd::prelude::*;
use vstd::string::StrSliceExecFns;

verus! {

/// The lines of a text, split on the newline character: a text without a
/// newline is a single line, and every newline ends one line and starts
/// the next, so a trailing newline yields a final empty line.
pub open spec fn split_lines(s: Seq<char>) -> Seq<Seq<char>>
    decreases s.len(),
{
    if s.len() == 0 {
        seq![Seq::<char>::empty()]
    } else if s[0] == '\n' {
        seq![Seq::<char>::empty()] + split_lines(s.subrange(1, s.len() as int))
    } else {
        let rest = split_lines(s.subrange(1, s.len() as int));
        seq![seq![s[0]] + rest[0]] + rest.subrange(1, rest.len() as int)
    }
}

/// A text splits into at least one and at most one-plus-its-length lines.
pub proof fn lemma_split_lines_len(s: Seq<char>)
    ensures
        1 <= split_lines(s).len() <= s.len() + 1,
    decreases s.len(),
{
    if s.len() > 0 {
        lemma_split_lines_len(s.subrange(1, s.len() as int));
    }
}

/// Splitting off the first line: when the first `k` characters hold no
/// newline and a newline (or the end of the text) follows them, the first
/// line is exactly those `k` characters and the remaining lines are the
/// split of what follows the newline.
proof fn lemma_split_first_line(s: Seq<char>, k: int)
    requires
        0 <= k <= s.len(),
        forall|j: int| 0 <= j < k ==> s[j] != '\n',
        k < s.len() ==> s[k] == '\n',
    ensures
        k == s.len() ==> split_lines(s) == seq![s],
        k < s.len() ==> split_lines(s) == seq![s.subrange(0, k)] + split_lines(
            s.subrange(k + 1, s.len() as int),
        ),
    decreases s.len(),
{
    if k == 0 {
        if k < s.len() {
            assert(s.subrange(0, 0) =~= Seq::<char>::empty());
        } else {
            assert(s =~= Seq::<char>::empty());
            assert(split_lines(s) =~= seq![s]);
        }
    } else {
        let s1 = s.subrange(1, s.len() as int);
        assert(s[0] != '\n');
        assert forall|j: int| 0 <= j < k - 1 implies s1[j] != '\n' by {
            assert(s1[j] == s[j + 1]);
        }
        lemma_split_lines_len(s1);
        lemma_split_first_line(s1, k - 1);
        let rest = split_lines(s1);
        if k < s.len() {
            assert(s1[k - 1] == s[k]);
            assert(rest == seq![s1.subrange(0, k - 1)] + split_lines(
                s1.subrange(k, s1.len() as int),
            ));
            assert(rest[0] == s1.subrange(0, k - 1));
            assert(seq![s[0]] + s1.subrange(0, k - 1) =~= s.subrange(0, k));
            assert(rest.subrange(1, rest.len() as int) =~= split_lines(
                s1.subrange(k, s1.len() as int),
            ));
            assert(s1.subrange(k, s1.len() as int) =~= s.subrange(k + 1, s.len() as int));
            assert(split_lines(s) =~= seq![s.subrange(0, k)] + split_lines(
                s.subrange(k + 1, s.len() as int),
            ));
        } else {
            assert(rest == seq![s1]);
            assert(seq![s[0]] + s1 =~= s);
            assert(rest.subrange(1, rest.len() as int) =~= Seq::<Seq<char>>::empty());
            assert(split_lines(s) =~= seq![s]);
        }
    }
}

/// The lines of the input text, split on the newline character.
pub fn split_input(text: &str) -> (r: Vec<String>)
    ensures
        r@.map_values(|l: String| l@) == split_lines(text@),
{
    let len = text.unicode_len();
    let mut lines: Vec<String> = Vec::new();
    let mut start: usize = 0;
    let mut i: usize = 0;
    proof {
        assert(text@.subrange(0, len as int) =~= text@);
        assert(lines@.map_values(|l: String| l@) + split_lines(text@) =~= split_lines(
            text@,
        ));
    }
    while i < len
        invariant
            start <= i <= len,
            len == text@.len(),
            forall|j: int| start <= j < i ==> text@[j] != '\n',
            split_lines(text@) == lines@.map_values(|l: String| l@) + split_lines(
                text@.subrange(start as int, len as int),
            ),
        decreases len - i,
    {
        let c = text.get_char(i);
        if c == '\n' {
            let line = text.substring_char(start, i).to_owned();
            proof {
                let tail = text@.subrange(start as int, len as int);
                assert forall|j: int| 0 <= j < i - start implies tail[j] != '\n' by {
                    assert(tail[j] == text@[start + j]);
                }
                assert(tail[i - start] == text@[i as int]);
                lemma_split_first_line(tail, i - start);
                assert(tail.subrange(0, i - start) =~= text@.subrange(
                    start as int,
                    i as int,
                ));
                assert(tail.subrange(i - start + 1, tail.len() as int) =~= text@.subrange(
                    i + 1,
                    len as int,
                ));
                assert(lines@.push(line).map_values(|l: String| l@) =~= lines@.map_values(
                    |l: String| l@,
                ).push(line@));
                assert(lines@.map_values(|l: String| l@).push(line@) + split_lines(
                    text@.subrange(i + 1, len as int),
                ) =~= lines@.map_values(|l: String| l@) + (seq![line@] + split_lines(
                    text@.subrange(i + 1, len as int),
                )));
            }
            lines.push(line);
            start = i + 1;
        }
        i = i + 1;
    }
    let line = text.substring_char(start, len).to_owned();
    proof {
        let tail = text@.subrange(start as int, len as int);
        assert forall|j: int| 0 <= j < tail.len() implies tail[j] != '\n' by {
            assert(tail[j] == text@[start + j]);
        }
        lemma_split_first_line(tail, tail.len() as int);
        assert(lines@.push(line).map_values(|l: String| l@) =~= lines@.map_values(
            |l: String| l@,
        ).push(line@));
        assert(lines@.map_values(|l: String| l@).push(line@) =~= lines@.map_values(
            |l: String| l@,
        ) + seq![tail]);
    }
    lines.push(line);
    lines
}

/// What a line adds to the literal-digit total: its combined two-digit
/// value, or nothing when the line is empty.
pub open spec fn line_contrib_a(l: Seq<char>) -> int {
    if l.len() == 0 {
        0
    } else {
        mode_a_value(l)
    }
}

/// What a line adds to the spelled-digit total: its combined two-digit
/// value, or nothing when the line is empty.
pub open spec fn line_contrib_b(l: Seq<char>) -> int {
    if l.len() == 0 {
        0
    } else {
        mode_b_value(l)
    }
}

/// The literal-digit total of a sequence of lines.
pub open spec fn sum_a(ls: Seq<Seq<char>>) -> int
    decreases ls.len(),
{
    if ls.len() == 0 {
        0
    } else {
        sum_a(ls.drop_last()) + line_contrib_a(ls.last())
    }
}

/// The spelled-digit total of a sequence of lines.
pub open spec fn sum_b(ls: Seq<Seq<char>>) -> int
    decreases ls.len(),
{
    if ls.len() == 0 {
        0
    } else {
        sum_b(ls.drop_last()) + line_contrib_b(ls.last())
    }
}

/// Every non-empty line holds a literal digit.
pub open spec fn all_lines_ok_a(ls: Seq<Seq<char>>) -> bool {
    forall|i: int| 0 <= i < ls.len() && #[trigger] ls[i].len() > 0 ==> has_digit(ls[i])
}

/// Every non-empty line holds a token of the spelled-digit mode.
pub open spec fn all_lines_ok_b(ls: Seq<Seq<char>>) -> bool {
    forall|i: int| 0 <= i < ls.len() && #[trigger] ls[i].len() > 0 ==> has_token(ls[i])
}

/// Line number `i` is the first non-empty line that holds no literal
/// digit, and `line` is its content.
pub open spec fn first_bad_line_a(ls: Seq<Seq<char>>, i: int, line: Seq<char>) -> bool {
    &&& 0 <= i < ls.len()
    &&& ls[i].len() > 0
    &&& !has_digit(ls[i])
    &&& line == ls[i]
    &&& forall|j: int| 0 <= j < i && #[trigger] ls[j].len() > 0 ==> has_digit(ls[j])
}

/// Line number `i` is the first non-empty line in which no token occurs,
/// and `line` is its content.
pub open spec fn first_bad_line_b(ls: Seq<Seq<char>>, i: int, line: Seq<char>) -> bool {
    &&& 0 <= i < ls.len()
    &&& ls[i].len() > 0
    &&& !has_token(ls[i])
    &&& line == ls[i]
    &&& forall|j: int| 0 <= j < i && #[trigger] ls[j].len() > 0 ==> has_token(ls[j])
}

/// Some line number is the first non-empty line that holds no literal
/// digit, and `line` is its content.
pub open spec fn has_bad_line_a(ls: Seq<Seq<char>>, line: Seq<char>) -> bool {
    exists|i: int| first_bad_line_a(ls, i, line)
}

/// Some line number is the first non-empty line in which no token occurs,
/// and `line` is its content.
pub open spec fn has_bad_line_b(ls: Seq<Seq<char>>, line: Seq<char>) -> bool {
    exists|i: int| first_bad_line_b(ls, i, line)
}

/// The sum, over every non-empty line of the text, of the line's
/// literal-digit calibration value; or a `FormatError` carrying the first
/// non-empty line that holds no digit.
pub fn part1_total(text: &str) -> (r: Result<i64, FormatError>)
    requires
        text@.len() <= 0x0100_0000_0000_0000,  // the running total stays within i64
    ensures
        match r {
            Ok(n) => all_lines_ok_a(split_lines(text@)) && n == sum_a(split_lines(text@)),
            Err(e) => !all_lines_ok_a(split_lines(text@)) && has_bad_line_a(
                split_lines(text@),
                e.line@,
            ),
        },
{
    let ghost ls = split_lines(text@);
    proof {
        lemma_split_lines_len(text@);
    }
    let lines = split_input(text);
    let mut total: i64 = 0;
    let mut idx: usize = 0;
    proof {
        assert(ls.subrange(0, 0) =~= Seq::<Seq<char>>::empty());
    }
    while idx < lines.len()
        invariant
            idx <= lines@.len(),
            lines@.map_values(|l: String| l@) == ls,
            ls == split_lines(text@),
            ls.len() <= text@.len() + 1,
            text@.len() <= 0x0100_0000_0000_0000,
            0 <= total <= 99 * idx,
            total == sum_a(ls.subrange(0, idx as int)),
            forall|j: int| 0 <= j < idx && #[trigger] ls[j].len() > 0 ==> has_digit(ls[j]),
        decreases lines@.len() - idx,
    {
        proof {
            assert(lines@.map_values(|l: String| l@)[idx as int] == lines@[idx as int]@);
            assert(ls.subrange(0, idx + 1).drop_last() =~= ls.subrange(0, idx as int));
            assert(ls.subrange(0, idx + 1).last() == ls[idx as int]);
        }
        let line = &lines[idx];
        if !line.as_str().is_empty() {
            match digit_span(line.as_str()) {
                Some((c1, c2)) => {
                    let v: i64 = 10 * (((c1 as u32) - 48) as i64) + (((c2 as u32) - 48)
                        as i64);
                    proof {
                        assert(v == mode_a_value(ls[idx as int]));
                        assert(0 <= v <= 99);
                    }
                    total = total + v;
                },
                None => {
                    let bad = lines[idx].clone();
                    proof {
                        assert(first_bad_line_a(ls, idx as int, bad@));
                        assert(ls[idx as int].len() > 0 && !has_digit(ls[idx as int]));
                        assert(!all_lines_ok_a(ls));
                        assert(has_bad_line_a(ls, bad@));
                    }
                    return Err(FormatError { line: bad });
                },
            }
        }
        idx = idx + 1;
    }
    proof {
        assert(ls.subrange(0, ls.len() as int) =~= ls);
    }
    Ok(total)
}

/// The sum, over every non-empty line of the text, of the line's
/// spelled-digit calibration value; or a `FormatError` carrying the first
/// non-empty line in which no token occurs.
pub fn part2_total(text: &str) -> (r: Result<i64, FormatError>)
    requires
        text@.len() <= 0x0100_0000_0000_0000,  // the running total stays within i64
    ensures
        match r {
            Ok(n) => all_lines_ok_b(split_lines(text@)) && n == sum_b(split_lines(text@)),
            Err(e) => !all_lines_ok_b(split_lines(text@)) && has_bad_line_b(
                split_lines(text@),
                e.line@,
            ),
        },
{
    let ghost ls = split_lines(text@);
    proof {
        lemma_split_lines_len(text@);
    }
    let lines = split_input(text);
    let mut total: i64 = 0;
    let mut idx: usize = 0;
    proof {
        assert(ls.subrange(0, 0) =~= Seq::<Seq<char>>::empty());
    }
    while idx < lines.len()
        invariant
            idx <= lines@.len(),
            lines@.map_values(|l: String| l@) == ls,
            ls == split_lines(text@),
            ls.len() <= text@.len() + 1,
            text@.len() <= 0x0100_0000_0000_0000,
            0 <= total <= 99 * idx,
            total == sum_b(ls.subrange(0, idx as int)),
            forall|j: int| 0 <= j < idx && #[trigger] ls[j].len() > 0 ==> has_token(ls[j]),
        decreases lines@.len() - idx,
    {
        proof {
            assert(lines@.map_values(|l: String| l@)[idx as int] == lines@[idx as int]@);
            assert(ls.subrange(0, idx + 1).drop_last() =~= ls.subrange(0, idx as int));
            assert(ls.subrange(0, idx + 1).last() == ls[idx as int]);
        }
        let line = &lines[idx];
        if !line.as_str().is_empty() {
            match token_span(line.as_str()) {
                Some((v1, v2)) => {
                    let v: i64 = 10 * (v1 as i64) + (v2 as i64);
                    proof {
                        assert(v == mode_b_value(ls[idx as int]));
                        assert(0 <= v <= 99);
                    }
                    total = total + v;
                },
                None => {
                    let bad = lines[idx].clone();
                    proof {
                        assert(first_bad_line_b(ls, idx as int, bad@));
                        assert(ls[idx as int].len() > 0 && !has_token(ls[idx as int]));
                        assert(!all_lines_ok_b(ls));
                        assert(has_bad_line_b(ls, bad@));
                    }
                    return Err(FormatError { line: bad });
                },
            }
        }
        idx = idx + 1;
    }
    proof {
        assert(ls.subrange(0, ls.len() as int) =~= ls);
    }
    Ok(total)
}

} // verus!
