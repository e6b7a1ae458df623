//! The recognized digit tokens: literal digit characters and the spelled-out
//! words "one" through "nine", together with where a token occurs in a line.

use vstd::prelude::*;

verus! {

/// A literal decimal digit character, `'0'` through `'9'`.
pub open spec fn is_digit_char(c: char) -> bool {
    '0' as int <= c as int && c as int <= '9' as int
}

/// Numeric value of a decimal digit character.
pub open spec fn digit_val(c: char) -> int {
    c as int - '0' as int
}

/// The decimal digit character with value `v`, for `v` in `0..=9`.
pub open spec fn digit_char(v: int) -> char {
    if v == 0 {
        '0'
    } else if v == 1 {
        '1'
    } else if v == 2 {
        '2'
    } else if v == 3 {
        '3'
    } else if v == 4 {
        '4'
    } else if v == 5 {
        '5'
    } else if v == 6 {
        '6'
    } else if v == 7 {
        '7'
    } else if v == 8 {
        '8'
    } else {
        '9'
    }
}

/// How many token patterns the spelled-digit mode recognizes: the literal
/// digits "1" through "9" followed by the words "one" through "nine".
pub open spec fn token_count() -> int {
    18
}

/// The pattern of token number `k`: tokens `0..9` are the literal digit
/// characters `'1'` through `'9'`, tokens `9..18` the words "one" through
/// "nine".
pub open spec fn token_pattern(k: int) -> Seq<char> {
    if k == 0 {
        seq!['1']
    } else if k == 1 {
        seq!['2']
    } else if k == 2 {
        seq!['3']
    } else if k == 3 {
        seq!['4']
    } else if k == 4 {
        seq!['5']
    } else if k == 5 {
        seq!['6']
    } else if k == 6 {
        seq!['7']
    } else if k == 7 {
        seq!['8']
    } else if k == 8 {
        seq!['9']
    } else if k == 9 {
        seq!['o', 'n', 'e']
    } else if k == 10 {
        seq!['t', 'w', 'o']
    } else if k == 11 {
        seq!['t', 'h', 'r', 'e', 'e']
    } else if k == 12 {
        seq!['f', 'o', 'u', 'r']
    } else if k == 13 {
        seq!['f', 'i', 'v', 'e']
    } else if k == 14 {
        seq!['s', 'i', 'x']
    } else if k == 15 {
        seq!['s', 'e', 'v', 'e', 'n']
    } else if k == 16 {
        seq!['e', 'i', 'g', 'h', 't']
    } else {
        seq!['n', 'i', 'n', 'e']
    }
}

/// The digit value, `1..=9`, that token number `k` stands for.
pub open spec fn token_value(k: int) -> int {
    if k < 9 {
        k + 1
    } else {
        k - 8
    }
}

/// Pattern `p` occurs in `s` starting at position `i`.
pub open spec fn pattern_at(s: Seq<char>, p: Seq<char>, i: int) -> bool {
    0 <= i && i + p.len() <= s.len() && s.subrange(i, i + p.len() as int) == p
}

/// Token number `k` occurs in `s` starting at position `i`.
pub open spec fn occurs_at(s: Seq<char>, k: int, i: int) -> bool {
    pattern_at(s, token_pattern(k), i)
}

/// Every token pattern is between one and five characters long.
pub proof fn lemma_pattern_lens()
    ensures
        forall|k: int|
            0 <= k < token_count() ==> 1 <= #[trigger] token_pattern(k).len() <= 5,
{
}

/// No two distinct tokens occur at the same position of the same line:
/// no token pattern is a prefix of another, so the line's characters at
/// that position determine the token.
pub proof fn lemma_token_at_pos_unique(s: Seq<char>, i: int, k1: int, k2: int)
    requires
        0 <= k1 < token_count(),
        0 <= k2 < token_count(),
        occurs_at(s, k1, i),
        occurs_at(s, k2, i),
    ensures
        k1 == k2,
{
    let p1 = token_pattern(k1);
    let p2 = token_pattern(k2);
    assert forall|j: int| 0 <= j < p1.len() implies p1[j] == s[i + j] by {
        assert(s.subrange(i, i + p1.len() as int)[j] == s[i + j]);
    }
    assert forall|j: int| 0 <= j < p2.len() implies p2[j] == s[i + j] by {
        assert(s.subrange(i, i + p2.len() as int)[j] == s[i + j]);
    }
    assert(p1[0] == s[i]);
    assert(p2[0] == s[i]);
    assert(p1.len() >= 2 ==> p1[1] == s[i + 1]);
    assert(p2.len() >= 2 ==> p2[1] == s[i + 1]);
    assert(k1 == k2);
}

} // verus!
