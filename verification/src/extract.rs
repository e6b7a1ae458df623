//! Extraction of the first and last digit of a line, in the two modes:
//! literal digit characters only, and literal digits together with the
//! spelled-out words "one" through "nine".

use crate::tokens::digit_char;
use crate::tokens::digit_val;
use crate::tokens::is_digit_char;
use crate::tokens::lemma_pattern_lens;
use crate::tokens::lemma_token_at_pos_unique;
use crate::tokens::occurs_at;
use crate::tokens::pattern_at;
use crate::tokens::token_count;
use crate::tokens::token_pattern;
use crate::tokens::token_value;
use vstd::prelude::*;
use vstd::string::StrSliceExecFns;
use vstd::string::StringExecFns;

verus! {

/// A line that yields no digit token under the active mode: the fatal
/// input-format error of this library.
#[derive(Debug)]
pub struct FormatError {
    /// The offending line, as given.
    pub line: String,
}

/// The line holds at least one literal decimal digit character.
pub open spec fn has_digit(s: Seq<char>) -> bool {
    exists|i: int| 0 <= i < s.len() && is_digit_char(s[i])
}

/// Position `i` holds the first literal digit of the line.
pub open spec fn is_first_digit_at(s: Seq<char>, i: int) -> bool {
    &&& 0 <= i < s.len()
    &&& is_digit_char(s[i])
    &&& forall|j: int| 0 <= j < i ==> !is_digit_char(s[j])
}

/// Position `i` holds the last literal digit of the line.
pub open spec fn is_last_digit_at(s: Seq<char>, i: int) -> bool {
    &&& 0 <= i < s.len()
    &&& is_digit_char(s[i])
    &&& forall|j: int| i < j < s.len() ==> !is_digit_char(s[j])
}

/// The position of the first literal digit of the line.
pub open spec fn first_digit_index(s: Seq<char>) -> int {
    choose|i: int| is_first_digit_at(s, i)
}

/// The position of the last literal digit of the line.
pub open spec fn last_digit_index(s: Seq<char>) -> int {
    choose|i: int| is_last_digit_at(s, i)
}

/// The two characters that the literal-digit mode extracts from the line:
/// its first digit character followed by its last digit character.
pub open spec fn mode_a_chars(s: Seq<char>) -> Seq<char> {
    seq![s[first_digit_index(s)], s[last_digit_index(s)]]
}

/// The combined numeric value of the literal-digit extraction:
/// ten times the first digit plus the last digit.
pub open spec fn mode_a_value(s: Seq<char>) -> int {
    10 * digit_val(s[first_digit_index(s)]) + digit_val(s[last_digit_index(s)])
}

/// A position that holds the first digit is the position the specification
/// names, and likewise for the last digit.
pub proof fn lemma_first_digit_index_is(s: Seq<char>, i: int)
    requires
        is_first_digit_at(s, i),
    ensures
        first_digit_index(s) == i,
{
    let j = first_digit_index(s);
    assert(is_first_digit_at(s, j));
    if j < i {
        assert(!is_digit_char(s[j]));
    }
    if j > i {
        assert(!is_digit_char(s[i]));
    }
}

/// See `lemma_first_digit_index_is`.
pub proof fn lemma_last_digit_index_is(s: Seq<char>, i: int)
    requires
        is_last_digit_at(s, i),
    ensures
        last_digit_index(s) == i,
{
    let j = last_digit_index(s);
    assert(is_last_digit_at(s, j));
    if j < i {
        assert(!is_digit_char(s[i]));
    }
    if j > i {
        assert(!is_digit_char(s[j]));
    }
}

/// The literal-digit interpretation of a fixed line is unique: any two
/// positions that both qualify as the first digit coincide, and likewise
/// for the last digit. The extraction is a deterministic, pure function
/// of the line.
pub proof fn lemma_mode_a_deterministic(s: Seq<char>, i1: int, i2: int, j1: int, j2: int)
    requires
        is_first_digit_at(s, i1),
        is_first_digit_at(s, i2),
        is_last_digit_at(s, j1),
        is_last_digit_at(s, j2),
    ensures
        i1 == i2,
        j1 == j2,
{
    lemma_first_digit_index_is(s, i1);
    lemma_first_digit_index_is(s, i2);
    lemma_last_digit_index_is(s, j1);
    lemma_last_digit_index_is(s, j2);
}

/// In any line with at least one literal digit, a first and a last digit
/// position exist, and the extracted pair consists of exactly the digit
/// characters at those positions, first then last.
pub proof fn lemma_mode_a_extraction(s: Seq<char>)
    requires
        has_digit(s),
    ensures
        is_first_digit_at(s, first_digit_index(s)),
        is_last_digit_at(s, last_digit_index(s)),
        mode_a_chars(s).len() == 2,
        mode_a_chars(s)[0] == s[first_digit_index(s)],
        mode_a_chars(s)[1] == s[last_digit_index(s)],
        is_digit_char(mode_a_chars(s)[0]),
        is_digit_char(mode_a_chars(s)[1]),
{
    lemma_first_digit_exists(s);
    lemma_last_digit_exists(s);
    assert(is_first_digit_at(s, first_digit_index(s)));
    assert(is_last_digit_at(s, last_digit_index(s)));
}

proof fn lemma_first_digit_exists(s: Seq<char>)
    requires
        has_digit(s),
    ensures
        exists|i: int| is_first_digit_at(s, i),
    decreases s.len(),
{
    if is_digit_char(s[0]) {
        assert(is_first_digit_at(s, 0));
    } else {
        let rest = s.subrange(1, s.len() as int);
        let w = choose|i: int| 0 <= i < s.len() && is_digit_char(s[i]);
        assert(rest[w - 1] == s[w]);
        assert(has_digit(rest));
        lemma_first_digit_exists(rest);
        let i = choose|i: int| is_first_digit_at(rest, i);
        assert(rest[i] == s[i + 1]);
        assert forall|j: int| 0 <= j < i + 1 implies !is_digit_char(s[j]) by {
            if j > 0 {
                assert(rest[j - 1] == s[j]);
            }
        }
        assert(is_first_digit_at(s, i + 1));
    }
}

proof fn lemma_last_digit_exists(s: Seq<char>)
    requires
        has_digit(s),
    ensures
        exists|i: int| is_last_digit_at(s, i),
    decreases s.len(),
{
    let n = s.len() as int;
    if is_digit_char(s[n - 1]) {
        assert(is_last_digit_at(s, n - 1));
    } else {
        let rest = s.subrange(0, n - 1);
        let w = choose|i: int| 0 <= i < s.len() && is_digit_char(s[i]);
        assert(rest[w] == s[w]);
        assert(has_digit(rest));
        lemma_last_digit_exists(rest);
        let i = choose|i: int| is_last_digit_at(rest, i);
        assert(rest[i] == s[i]);
        assert forall|j: int| i < j < n implies !is_digit_char(s[j]) by {
            if j < n - 1 {
                assert(rest[j] == s[j]);
            }
        }
        assert(is_last_digit_at(s, i));
    }
}

/// Whether `c` is a literal decimal digit character.
fn is_digit_exec(c: char) -> (b: bool)
    ensures
        b == is_digit_char(c),
{
    let u = c as u32;
    48 <= u && u <= 57
}

/// The position of the first literal digit of the line, if any.
fn first_digit_pos(s: &str, len: usize) -> (r: Option<usize>)
    requires
        len == s@.len(),
    ensures
        match r {
            Some(i) => is_first_digit_at(s@, i as int),
            None => !has_digit(s@),
        },
{
    let mut i: usize = 0;
    while i < len
        invariant
            i <= len,
            len == s@.len(),
            forall|j: int| 0 <= j < i ==> !is_digit_char(s@[j]),
        decreases len - i,
    {
        let c = s.get_char(i);
        if is_digit_exec(c) {
            return Some(i);
        }
        i = i + 1;
    }
    None
}

/// The position of the last literal digit of the line, if any.
fn last_digit_pos(s: &str, len: usize) -> (r: Option<usize>)
    requires
        len == s@.len(),
    ensures
        match r {
            Some(i) => is_last_digit_at(s@, i as int),
            None => !has_digit(s@),
        },
{
    let mut i: usize = len;
    while i > 0
        invariant
            i <= len,
            len == s@.len(),
            forall|j: int| i <= j < len ==> !is_digit_char(s@[j]),
        decreases i,
    {
        i = i - 1;
        let c = s.get_char(i);
        if is_digit_exec(c) {
            return Some(i);
        }
    }
    None
}

/// The first and the last literal digit character of the line, if the line
/// holds any digit.
pub(crate) fn digit_span(s: &str) -> (r: Option<(char, char)>)
    ensures
        r is Some <==> has_digit(s@),
        match r {
            Some(p) => {
                &&& p.0 == s@[first_digit_index(s@)]
                &&& p.1 == s@[last_digit_index(s@)]
                &&& is_digit_char(p.0)
                &&& is_digit_char(p.1)
            },
            None => !has_digit(s@),
        },
{
    let len = s.unicode_len();
    let first = first_digit_pos(s, len);
    match first {
        None => None,
        Some(fi) => {
            let last = last_digit_pos(s, len);
            match last {
                None => {
                    // the first scan found a digit, so the last scan must too
                    proof {
                        assert(has_digit(s@));
                    }
                    None
                },
                Some(li) => {
                    proof {
                        lemma_first_digit_index_is(s@, fi as int);
                        lemma_last_digit_index_is(s@, li as int);
                    }
                    Some((s.get_char(fi), s.get_char(li)))
                },
            }
        },
    }
}

/// The one-character string slice holding the digit character `c`.
fn digit_char_str(c: char) -> (r: &'static str)
    requires
        is_digit_char(c),
    ensures
        r@ == seq![c],
{
    match c {
        '0' => {
            proof {
                reveal_strlit("0");
            }
            "0"
        },
        '1' => {
            proof {
                reveal_strlit("1");
            }
            "1"
        },
        '2' => {
            proof {
                reveal_strlit("2");
            }
            "2"
        },
        '3' => {
            proof {
                reveal_strlit("3");
            }
            "3"
        },
        '4' => {
            proof {
                reveal_strlit("4");
            }
            "4"
        },
        '5' => {
            proof {
                reveal_strlit("5");
            }
            "5"
        },
        '6' => {
            proof {
                reveal_strlit("6");
            }
            "6"
        },
        '7' => {
            proof {
                reveal_strlit("7");
            }
            "7"
        },
        '8' => {
            proof {
                reveal_strlit("8");
            }
            "8"
        },
        _ => {
            assert(c == '9');
            proof {
                reveal_strlit("9");
            }
            "9"
        },
    }
}

/// The two-character string holding the digit characters `c1` and `c2`.
fn digit_pair_string(c1: char, c2: char) -> (r: String)
    requires
        is_digit_char(c1),
        is_digit_char(c2),
    ensures
        r@ == seq![c1, c2],
{
    let first = digit_char_str(c1);
    let second = digit_char_str(c2);
    let r = String::from_str(first).concat(second);
    proof {
        assert(r@ =~= seq![c1, c2]);
    }
    r
}

/// Literal-digit extraction: the two-character string made of the first
/// and the last decimal digit character of the line (the same character
/// twice when the line holds exactly one digit), or a `FormatError`
/// carrying the line when the line holds no digit at all.
pub fn first_and_last_digit(s: String) -> (r: Result<String, FormatError>)
    ensures
        match r {
            Ok(t) => has_digit(s@) && t@ == mode_a_chars(s@),
            Err(e) => !has_digit(s@) && e.line@ == s@,
        },
{
    match digit_span(s.as_str()) {
        Some((c1, c2)) => Ok(digit_pair_string(c1, c2)),
        None => Err(FormatError { line: s }),
    }
}

/// Some token (a literal digit or a spelled-out word) occurs in `s`
/// starting at position `i`.
pub open spec fn token_at_pos(s: Seq<char>, i: int) -> bool {
    exists|k: int| 0 <= k < token_count() && occurs_at(s, k, i)
}

/// The line holds at least one token of the spelled-digit mode.
pub open spec fn has_token(s: Seq<char>) -> bool {
    exists|i: int| token_at_pos(s, i)
}

/// Position `i` is the leftmost starting position of any token in the line.
pub open spec fn is_first_token_pos(s: Seq<char>, i: int) -> bool {
    &&& token_at_pos(s, i)
    &&& forall|j: int| j < i ==> !token_at_pos(s, j)
}

/// Position `i` is the rightmost starting position of any token in the line.
pub open spec fn is_last_token_pos(s: Seq<char>, i: int) -> bool {
    &&& token_at_pos(s, i)
    &&& forall|j: int| j > i ==> !token_at_pos(s, j)
}

/// The leftmost starting position of any token in the line.
pub open spec fn first_token_pos(s: Seq<char>) -> int {
    choose|i: int| is_first_token_pos(s, i)
}

/// The rightmost starting position of any token in the line.
pub open spec fn last_token_pos(s: Seq<char>) -> int {
    choose|i: int| is_last_token_pos(s, i)
}

/// The token occurring in `s` at position `i` (unique by
/// `lemma_token_at_pos_unique`).
pub open spec fn token_kind_at(s: Seq<char>, i: int) -> int {
    choose|k: int| 0 <= k < token_count() && occurs_at(s, k, i)
}

/// The digit value of the leftmost token of the line.
pub open spec fn first_token_value(s: Seq<char>) -> int {
    token_value(token_kind_at(s, first_token_pos(s)))
}

/// The digit value of the rightmost token of the line.
pub open spec fn last_token_value(s: Seq<char>) -> int {
    token_value(token_kind_at(s, last_token_pos(s)))
}

/// The two characters that the spelled-digit mode extracts from the line:
/// the digit character of its leftmost token followed by the digit
/// character of its rightmost token.
pub open spec fn mode_b_chars(s: Seq<char>) -> Seq<char> {
    seq![digit_char(first_token_value(s)), digit_char(last_token_value(s))]
}

/// The combined numeric value of the spelled-digit extraction: ten times
/// the value of the leftmost token plus the value of the rightmost token.
pub open spec fn mode_b_value(s: Seq<char>) -> int {
    10 * first_token_value(s) + last_token_value(s)
}

/// A position that is the leftmost token position is the position the
/// specification names.
pub proof fn lemma_first_token_pos_is(s: Seq<char>, i: int)
    requires
        is_first_token_pos(s, i),
    ensures
        first_token_pos(s) == i,
{
    let j = first_token_pos(s);
    assert(is_first_token_pos(s, j));
}

/// See `lemma_first_token_pos_is`.
pub proof fn lemma_last_token_pos_is(s: Seq<char>, i: int)
    requires
        is_last_token_pos(s, i),
    ensures
        last_token_pos(s) == i,
{
    let j = last_token_pos(s);
    assert(is_last_token_pos(s, j));
}

/// The token occurring at a given position is unique, so the token the
/// specification names at that position is the one found there.
pub proof fn lemma_token_kind_at_is(s: Seq<char>, i: int, k: int)
    requires
        0 <= k < token_count(),
        occurs_at(s, k, i),
    ensures
        token_kind_at(s, i) == k,
{
    let k2 = token_kind_at(s, i);
    assert(0 <= k2 < token_count() && occurs_at(s, k2, i));
    lemma_token_at_pos_unique(s, i, k, k2);
}

/// The spelled-digit interpretation of a fixed line is unique: any two
/// positions that both qualify as the leftmost token position coincide,
/// the tokens found there coincide, and likewise on the right. The
/// extraction is a deterministic, pure function of the line.
pub proof fn lemma_mode_b_deterministic(
    s: Seq<char>,
    i1: int,
    i2: int,
    k1: int,
    k2: int,
)
    requires
        is_first_token_pos(s, i1),
        is_first_token_pos(s, i2),
        0 <= k1 < token_count(),
        0 <= k2 < token_count(),
        occurs_at(s, k1, i1),
        occurs_at(s, k2, i2),
    ensures
        i1 == i2,
        k1 == k2,
{
    lemma_first_token_pos_is(s, i1);
    lemma_first_token_pos_is(s, i2);
    lemma_token_at_pos_unique(s, i1, k1, k2);
}

/// The characters of token pattern number `k`.
fn pattern_chars(k: u8) -> (r: Vec<char>)
    requires
        k < 18,
    ensures
        r@ == token_pattern(k as int),
{
    let mut v: Vec<char> = Vec::new();
    if k == 0 {
        v.push('1');
    } else if k == 1 {
        v.push('2');
    } else if k == 2 {
        v.push('3');
    } else if k == 3 {
        v.push('4');
    } else if k == 4 {
        v.push('5');
    } else if k == 5 {
        v.push('6');
    } else if k == 6 {
        v.push('7');
    } else if k == 7 {
        v.push('8');
    } else if k == 8 {
        v.push('9');
    } else if k == 9 {
        v.push('o');
        v.push('n');
        v.push('e');
    } else if k == 10 {
        v.push('t');
        v.push('w');
        v.push('o');
    } else if k == 11 {
        v.push('t');
        v.push('h');
        v.push('r');
        v.push('e');
        v.push('e');
    } else if k == 12 {
        v.push('f');
        v.push('o');
        v.push('u');
        v.push('r');
    } else if k == 13 {
        v.push('f');
        v.push('i');
        v.push('v');
        v.push('e');
    } else if k == 14 {
        v.push('s');
        v.push('i');
        v.push('x');
    } else if k == 15 {
        v.push('s');
        v.push('e');
        v.push('v');
        v.push('e');
        v.push('n');
    } else if k == 16 {
        v.push('e');
        v.push('i');
        v.push('g');
        v.push('h');
        v.push('t');
    } else {
        v.push('n');
        v.push('i');
        v.push('n');
        v.push('e');
    }
    proof {
        assert(v@ =~= token_pattern(k as int));
    }
    v
}

/// Whether the characters of `p` occur in `s` starting at position `i`.
fn chars_match_at(s: &str, len: usize, i: usize, p: &Vec<char>) -> (b: bool)
    requires
        len == s@.len(),
        i <= len,
    ensures
        b == pattern_at(s@, p@, i as int),
{
    if len - i < p.len() {
        return false;
    }
    let mut j: usize = 0;
    while j < p.len()
        invariant
            j <= p@.len(),
            i + p@.len() <= len,
            len == s@.len(),
            forall|m: int| 0 <= m < j ==> s@[i + m] == p@[m],
        decreases p@.len() - j,
    {
        let c = s.get_char(i + j);
        if c != p[j] {
            proof {
                assert(s@.subrange(i as int, i as int + p@.len() as int)[j as int] == s@[
                    i + j
                ]);
            }
            return false;
        }
        j = j + 1;
    }
    proof {
        assert(s@.subrange(i as int, i as int + p@.len() as int) =~= p@);
    }
    true
}

/// The value of the token occurring at position `i` of the line, if any.
fn token_at(s: &str, len: usize, i: usize) -> (r: Option<u8>)
    requires
        len == s@.len(),
        i <= len,
    ensures
        match r {
            Some(v) => 1 <= v <= 9 && exists|k: int|
                0 <= k < token_count() && occurs_at(s@, k, i as int) && token_value(k)
                    == v as int,
            None => !token_at_pos(s@, i as int),
        },
{
    let mut k: u8 = 0;
    while k < 18
        invariant
            k <= 18,
            len == s@.len(),
            i <= len,
            forall|k2: int| 0 <= k2 < k ==> !occurs_at(s@, k2, i as int),
        decreases 18 - k,
    {
        let p = pattern_chars(k);
        if chars_match_at(s, len, i, &p) {
            let v: u8 = if k < 9 {
                k + 1
            } else {
                k - 8
            };
            proof {
                assert(occurs_at(s@, k as int, i as int) && token_value(k as int)
                    == v as int);
            }
            return Some(v);
        }
        k = k + 1;
    }
    None
}

/// The leftmost token of the line, as its starting position and value,
/// if the line holds any token.
fn first_token(s: &str, len: usize) -> (r: Option<(usize, u8)>)
    requires
        len == s@.len(),
    ensures
        match r {
            Some(p) => is_first_token_pos(s@, p.0 as int) && exists|k: int|
                0 <= k < token_count() && occurs_at(s@, k, p.0 as int) && token_value(k)
                    == p.1 as int,
            None => !has_token(s@),
        },
{
    let mut i: usize = 0;
    while i < len
        invariant
            i <= len,
            len == s@.len(),
            forall|j: int| 0 <= j < i ==> !token_at_pos(s@, j),
        decreases len - i,
    {
        match token_at(s, len, i) {
            Some(v) => {
                return Some((i, v));
            },
            None => {},
        }
        i = i + 1;
    }
    proof {
        lemma_no_token_beyond(s@);
        assert(!has_token(s@));
    }
    None
}

/// The rightmost token of the line, as its starting position and value,
/// if the line holds any token.
fn last_token(s: &str, len: usize) -> (r: Option<(usize, u8)>)
    requires
        len == s@.len(),
    ensures
        match r {
            Some(p) => is_last_token_pos(s@, p.0 as int) && exists|k: int|
                0 <= k < token_count() && occurs_at(s@, k, p.0 as int) && token_value(k)
                    == p.1 as int,
            None => !has_token(s@),
        },
{
    proof {
        lemma_no_token_beyond(s@);
    }
    let mut i: usize = len;
    while i > 0
        invariant
            i <= len,
            len == s@.len(),
            forall|j: int| j >= i ==> !token_at_pos(s@, j),
        decreases i,
    {
        i = i - 1;
        match token_at(s, len, i) {
            Some(v) => {
                return Some((i, v));
            },
            None => {},
        }
    }
    None
}

/// No token starts at or beyond the end of the line, nor before its start:
/// every pattern is at least one character long.
proof fn lemma_no_token_beyond(s: Seq<char>)
    ensures
        forall|j: int| j >= s.len() || j < 0 ==> !token_at_pos(s, j),
{
    lemma_pattern_lens();
    assert forall|j: int| j >= s.len() || j < 0 implies !token_at_pos(s, j) by {
        assert forall|k: int| 0 <= k < token_count() implies !occurs_at(s, k, j) by {
            assert(token_pattern(k).len() >= 1);
        }
    }
}

/// The values of the leftmost and the rightmost token of the line, if the
/// line holds any token.
pub(crate) fn token_span(s: &str) -> (r: Option<(u8, u8)>)
    ensures
        r is Some <==> has_token(s@),
        match r {
            Some(p) => {
                &&& p.0 as int == first_token_value(s@)
                &&& p.1 as int == last_token_value(s@)
                &&& 1 <= p.0 <= 9
                &&& 1 <= p.1 <= 9
            },
            None => !has_token(s@),
        },
{
    let len = s.unicode_len();
    let first = first_token(s, len);
    match first {
        None => None,
        Some((fi, fv)) => {
            let last = last_token(s, len);
            match last {
                None => {
                    // the forward scan found a token, so the backward scan must too
                    proof {
                        assert(has_token(s@));
                    }
                    None
                },
                Some((li, lv)) => {
                    proof {
                        lemma_first_token_pos_is(s@, fi as int);
                        lemma_last_token_pos_is(s@, li as int);
                        let kf = choose|k: int|
                            0 <= k < token_count() && occurs_at(s@, k, fi as int)
                                && token_value(k) == fv as int;
                        lemma_token_kind_at_is(s@, fi as int, kf);
                        let kl = choose|k: int|
                            0 <= k < token_count() && occurs_at(s@, k, li as int)
                                && token_value(k) == lv as int;
                        lemma_token_kind_at_is(s@, li as int, kl);
                    }
                    Some((fv, lv))
                },
            }
        },
    }
}

/// The one-character string slice holding the digit character of value `v`.
fn value_str(v: u8) -> (r: &'static str)
    requires
        1 <= v <= 9,
    ensures
        r@ == seq![digit_char(v as int)],
{
    match v {
        1 => {
            proof {
                reveal_strlit("1");
            }
            "1"
        },
        2 => {
            proof {
                reveal_strlit("2");
            }
            "2"
        },
        3 => {
            proof {
                reveal_strlit("3");
            }
            "3"
        },
        4 => {
            proof {
                reveal_strlit("4");
            }
            "4"
        },
        5 => {
            proof {
                reveal_strlit("5");
            }
            "5"
        },
        6 => {
            proof {
                reveal_strlit("6");
            }
            "6"
        },
        7 => {
            proof {
                reveal_strlit("7");
            }
            "7"
        },
        8 => {
            proof {
                reveal_strlit("8");
            }
            "8"
        },
        _ => {
            proof {
                reveal_strlit("9");
            }
            "9"
        },
    }
}

/// The two-character string holding the digit characters of values `v1`
/// and `v2`.
fn value_pair_string(v1: u8, v2: u8) -> (r: String)
    requires
        1 <= v1 <= 9,
        1 <= v2 <= 9,
    ensures
        r@ == seq![digit_char(v1 as int), digit_char(v2 as int)],
{
    let first = value_str(v1);
    let second = value_str(v2);
    let r = String::from_str(first).concat(second);
    proof {
        assert(r@ =~= seq![digit_char(v1 as int), digit_char(v2 as int)]);
    }
    r
}

/// Spelled-digit extraction: the two-character string made of the digit
/// character of the leftmost token and the digit character of the
/// rightmost token of the line, where a token is a literal digit `'1'`
/// through `'9'` or a spelled-out word "one" through "nine" and every
/// occurrence counts, overlapping ones included; or a `FormatError`
/// carrying the line when no token occurs in it at all.
pub fn first_and_last_number(s: String) -> (r: Result<String, FormatError>)
    ensures
        match r {
            Ok(t) => has_token(s@) && t@ == mode_b_chars(s@),
            Err(e) => !has_token(s@) && e.line@ == s@,
        },
{
    match token_span(s.as_str()) {
        Some((v1, v2)) => Ok(value_pair_string(v1, v2)),
        None => Err(FormatError { line: s }),
    }
}

/// The spelled-out words "one" through "nine" map to the one-character
/// strings "1" through "9"; any other string maps to itself.
pub open spec fn spelled_map(s: Seq<char>) -> Seq<char> {
    if s == token_pattern(9) {
        seq!['1']
    } else if s == token_pattern(10) {
        seq!['2']
    } else if s == token_pattern(11) {
        seq!['3']
    } else if s == token_pattern(12) {
        seq!['4']
    } else if s == token_pattern(13) {
        seq!['5']
    } else if s == token_pattern(14) {
        seq!['6']
    } else if s == token_pattern(15) {
        seq!['7']
    } else if s == token_pattern(16) {
        seq!['8']
    } else if s == token_pattern(17) {
        seq!['9']
    } else {
        s
    }
}

/// The digit string for a spelled-out word "one" through "nine", and any
/// other string unchanged.
pub fn spelled_to_digit(s: &str) -> (r: &str)
    ensures
        r@ == spelled_map(s@),
{
    let len = s.unicode_len();
    let mut k: u8 = 9;
    while k < 18
        invariant
            9 <= k <= 18,
            len == s@.len(),
            forall|k2: int| 9 <= k2 < k ==> s@ != token_pattern(k2),
        decreases 18 - k,
    {
        let p = pattern_chars(k);
        if p.len() == len && chars_match_at(s, len, 0, &p) {
            proof {
                assert(s@.subrange(0, len as int) =~= s@);
                assert(s@ == token_pattern(k as int));
            }
            return value_str(k - 8);
        }
        proof {
            if s@ == token_pattern(k as int) {
                assert(s@.subrange(0, len as int) =~= s@);
                assert(pattern_at(s@, p@, 0));
            }
        }
        k = k + 1;
    }
    s
}

} // verus!
