use vstd::prelude::*;

verus! {

// The version pattern that specifiers are searched with:
//
//     \d+ \. \d+ \. \d+ ( - [0-9A-Za-z.-]+ )? ( \+ [0-9A-Za-z.-]+ )?
//
// `\d` is a Unicode decimal digit (general category `Nd`). A search returns
// the leftmost match, and at that position every repetition and every
// optional part takes as much as it can: no later part of the pattern can
// fail, so the greedy choice is the one a backtracking search finds first.

/// Unicode general category `Nd` (decimal number), Unicode 16.0.
pub open spec fn is_decimal_digit(c: char) -> bool {
    let u = c as u32;
    ||| 0x30 <= u <= 0x39
    ||| 0x660 <= u <= 0x669
    ||| 0x6F0 <= u <= 0x6F9
    ||| 0x7C0 <= u <= 0x7C9
    ||| 0x966 <= u <= 0x96F
    ||| 0x9E6 <= u <= 0x9EF
    ||| 0xA66 <= u <= 0xA6F
    ||| 0xAE6 <= u <= 0xAEF
    ||| 0xB66 <= u <= 0xB6F
    ||| 0xBE6 <= u <= 0xBEF
    ||| 0xC66 <= u <= 0xC6F
    ||| 0xCE6 <= u <= 0xCEF
    ||| 0xD66 <= u <= 0xD6F
    ||| 0xDE6 <= u <= 0xDEF
    ||| 0xE50 <= u <= 0xE59
    ||| 0xED0 <= u <= 0xED9
    ||| 0xF20 <= u <= 0xF29
    ||| 0x1040 <= u <= 0x1049
    ||| 0x1090 <= u <= 0x1099
    ||| 0x17E0 <= u <= 0x17E9
    ||| 0x1810 <= u <= 0x1819
    ||| 0x1946 <= u <= 0x194F
    ||| 0x19D0 <= u <= 0x19D9
    ||| 0x1A80 <= u <= 0x1A89
    ||| 0x1A90 <= u <= 0x1A99
    ||| 0x1B50 <= u <= 0x1B59
    ||| 0x1BB0 <= u <= 0x1BB9
    ||| 0x1C40 <= u <= 0x1C49
    ||| 0x1C50 <= u <= 0x1C59
    ||| 0xA620 <= u <= 0xA629
    ||| 0xA8D0 <= u <= 0xA8D9
    ||| 0xA900 <= u <= 0xA909
    ||| 0xA9D0 <= u <= 0xA9D9
    ||| 0xA9F0 <= u <= 0xA9F9
    ||| 0xAA50 <= u <= 0xAA59
    ||| 0xABF0 <= u <= 0xABF9
    ||| 0xFF10 <= u <= 0xFF19
    ||| 0x104A0 <= u <= 0x104A9
    ||| 0x10D30 <= u <= 0x10D39
    ||| 0x10D40 <= u <= 0x10D49
    ||| 0x11066 <= u <= 0x1106F
    ||| 0x110F0 <= u <= 0x110F9
    ||| 0x11136 <= u <= 0x1113F
    ||| 0x111D0 <= u <= 0x111D9
    ||| 0x112F0 <= u <= 0x112F9
    ||| 0x11450 <= u <= 0x11459
    ||| 0x114D0 <= u <= 0x114D9
    ||| 0x11650 <= u <= 0x11659
    ||| 0x116C0 <= u <= 0x116C9
    ||| 0x116D0 <= u <= 0x116E3
    ||| 0x11730 <= u <= 0x11739
    ||| 0x118E0 <= u <= 0x118E9
    ||| 0x11950 <= u <= 0x11959
    ||| 0x11BF0 <= u <= 0x11BF9
    ||| 0x11C50 <= u <= 0x11C59
    ||| 0x11D50 <= u <= 0x11D59
    ||| 0x11DA0 <= u <= 0x11DA9
    ||| 0x11F50 <= u <= 0x11F59
    ||| 0x16130 <= u <= 0x16139
    ||| 0x16A60 <= u <= 0x16A69
    ||| 0x16AC0 <= u <= 0x16AC9
    ||| 0x16B50 <= u <= 0x16B59
    ||| 0x16D70 <= u <= 0x16D79
    ||| 0x1CCF0 <= u <= 0x1CCF9
    ||| 0x1D7CE <= u <= 0x1D7FF
    ||| 0x1E140 <= u <= 0x1E149
    ||| 0x1E2F0 <= u <= 0x1E2F9
    ||| 0x1E4F0 <= u <= 0x1E4F9
    ||| 0x1E5F1 <= u <= 0x1E5FA
    ||| 0x1E950 <= u <= 0x1E959
    ||| 0x1FBF0 <= u <= 0x1FBF9
}

pub fn decimal_digit(c: char) -> (r: bool)
    ensures
        r == is_decimal_digit(c),
{
    let u = c as u32;
    (0x30 <= u && u <= 0x39) ||
        (0x660 <= u && u <= 0x669) ||
        (0x6F0 <= u && u <= 0x6F9) ||
        (0x7C0 <= u && u <= 0x7C9) ||
        (0x966 <= u && u <= 0x96F) ||
        (0x9E6 <= u && u <= 0x9EF) ||
        (0xA66 <= u && u <= 0xA6F) ||
        (0xAE6 <= u && u <= 0xAEF) ||
        (0xB66 <= u && u <= 0xB6F) ||
        (0xBE6 <= u && u <= 0xBEF) ||
        (0xC66 <= u && u <= 0xC6F) ||
        (0xCE6 <= u && u <= 0xCEF) ||
        (0xD66 <= u && u <= 0xD6F) ||
        (0xDE6 <= u && u <= 0xDEF) ||
        (0xE50 <= u && u <= 0xE59) ||
        (0xED0 <= u && u <= 0xED9) ||
        (0xF20 <= u && u <= 0xF29) ||
        (0x1040 <= u && u <= 0x1049) ||
        (0x1090 <= u && u <= 0x1099) ||
        (0x17E0 <= u && u <= 0x17E9) ||
        (0x1810 <= u && u <= 0x1819) ||
        (0x1946 <= u && u <= 0x194F) ||
        (0x19D0 <= u && u <= 0x19D9) ||
        (0x1A80 <= u && u <= 0x1A89) ||
        (0x1A90 <= u && u <= 0x1A99) ||
        (0x1B50 <= u && u <= 0x1B59) ||
        (0x1BB0 <= u && u <= 0x1BB9) ||
        (0x1C40 <= u && u <= 0x1C49) ||
        (0x1C50 <= u && u <= 0x1C59) ||
        (0xA620 <= u && u <= 0xA629) ||
        (0xA8D0 <= u && u <= 0xA8D9) ||
        (0xA900 <= u && u <= 0xA909) ||
        (0xA9D0 <= u && u <= 0xA9D9) ||
        (0xA9F0 <= u && u <= 0xA9F9) ||
        (0xAA50 <= u && u <= 0xAA59) ||
        (0xABF0 <= u && u <= 0xABF9) ||
        (0xFF10 <= u && u <= 0xFF19) ||
        (0x104A0 <= u && u <= 0x104A9) ||
        (0x10D30 <= u && u <= 0x10D39) ||
        (0x10D40 <= u && u <= 0x10D49) ||
        (0x11066 <= u && u <= 0x1106F) ||
        (0x110F0 <= u && u <= 0x110F9) ||
        (0x11136 <= u && u <= 0x1113F) ||
        (0x111D0 <= u && u <= 0x111D9) ||
        (0x112F0 <= u && u <= 0x112F9) ||
        (0x11450 <= u && u <= 0x11459) ||
        (0x114D0 <= u && u <= 0x114D9) ||
        (0x11650 <= u && u <= 0x11659) ||
        (0x116C0 <= u && u <= 0x116C9) ||
        (0x116D0 <= u && u <= 0x116E3) ||
        (0x11730 <= u && u <= 0x11739) ||
        (0x118E0 <= u && u <= 0x118E9) ||
        (0x11950 <= u && u <= 0x11959) ||
        (0x11BF0 <= u && u <= 0x11BF9) ||
        (0x11C50 <= u && u <= 0x11C59) ||
        (0x11D50 <= u && u <= 0x11D59) ||
        (0x11DA0 <= u && u <= 0x11DA9) ||
        (0x11F50 <= u && u <= 0x11F59) ||
        (0x16130 <= u && u <= 0x16139) ||
        (0x16A60 <= u && u <= 0x16A69) ||
        (0x16AC0 <= u && u <= 0x16AC9) ||
        (0x16B50 <= u && u <= 0x16B59) ||
        (0x16D70 <= u && u <= 0x16D79) ||
        (0x1CCF0 <= u && u <= 0x1CCF9) ||
        (0x1D7CE <= u && u <= 0x1D7FF) ||
        (0x1E140 <= u && u <= 0x1E149) ||
        (0x1E2F0 <= u && u <= 0x1E2F9) ||
        (0x1E4F0 <= u && u <= 0x1E4F9) ||
        (0x1E5F1 <= u && u <= 0x1E5FA) ||
        (0x1E950 <= u && u <= 0x1E959) ||
        (0x1FBF0 <= u && u <= 0x1FBF9)
}

/// A character of a pre-release or build part: `[0-9A-Za-z.-]`.
pub open spec fn is_identifier_char(c: char) -> bool {
    ||| '0' <= c <= '9'
    ||| 'A' <= c <= 'Z'
    ||| 'a' <= c <= 'z'
    ||| c == '.'
    ||| c == '-'
}

pub fn identifier_char(c: char) -> (r: bool)
    ensures
        r == is_identifier_char(c),
{
    ('0' <= c && c <= '9') || ('A' <= c && c <= 'Z') || ('a' <= c && c <= 'z') || c == '.' || c
        == '-'
}

/// The end of the longest run of decimal digits that starts at `i`.
pub open spec fn digit_run_end(s: Seq<char>, i: int) -> int
    decreases s.len() - i,
{
    if 0 <= i < s.len() && is_decimal_digit(s[i]) {
        digit_run_end(s, i + 1)
    } else {
        i
    }
}

/// The end of the longest run of identifier characters that starts at `i`.
pub open spec fn identifier_run_end(s: Seq<char>, i: int) -> int
    decreases s.len() - i,
{
    if 0 <= i < s.len() && is_identifier_char(s[i]) {
        identifier_run_end(s, i + 1)
    } else {
        i
    }
}

/// Where an optional part `marker [0-9A-Za-z.-]+` that may start at `i`
/// ends: after it if it is there, at `i` if it is not.
pub open spec fn optional_part_end(s: Seq<char>, i: int, marker: char) -> int {
    if 0 <= i && i + 1 < s.len() && s[i] == marker && is_identifier_char(s[i + 1]) {
        identifier_run_end(s, i + 1)
    } else {
        i
    }
}

/// The end of the match that starts at `i`, if the pattern matches there.
pub open spec fn match_end_at(s: Seq<char>, i: int) -> Option<int> {
    let a = digit_run_end(s, i);
    if 0 <= i && a > i && a < s.len() && s[a] == '.' {
        let b = digit_run_end(s, a + 1);
        if b > a + 1 && b < s.len() && s[b] == '.' {
            let c = digit_run_end(s, b + 1);
            if c > b + 1 {
                Some(optional_part_end(s, optional_part_end(s, c, '-'), '+'))
            } else {
                None
            }
        } else {
            None
        }
    } else {
        None
    }
}

/// The first match that starts at `i` or later, as `(start, end)`.
pub open spec fn first_match_from(s: Seq<char>, i: int) -> Option<(int, int)>
    decreases s.len() - i,
{
    if i < 0 || i >= s.len() {
        None
    } else {
        match match_end_at(s, i) {
            Some(e) => Some((i, e)),
            None => first_match_from(s, i + 1),
        }
    }
}

/// The leftmost match of the version pattern in `s`, as `(start, end)`.
pub open spec fn first_version_span(s: Seq<char>) -> Option<(int, int)> {
    first_match_from(s, 0)
}


fn digit_run(s: &[char], i: usize) -> (r: usize)
    requires
        i <= s@.len(),
    ensures
        r == digit_run_end(s@, i as int),
        i <= r <= s@.len(),
{
    let mut j = i;
    while j < s.len() && decimal_digit(s[j])
        invariant
            i <= j <= s@.len(),
            digit_run_end(s@, i as int) == digit_run_end(s@, j as int),
        decreases s@.len() - j,
    {
        j = j + 1;
    }
    j
}

fn identifier_run(s: &[char], i: usize) -> (r: usize)
    requires
        i <= s@.len(),
    ensures
        r == identifier_run_end(s@, i as int),
        i <= r <= s@.len(),
{
    let mut j = i;
    while j < s.len() && identifier_char(s[j])
        invariant
            i <= j <= s@.len(),
            identifier_run_end(s@, i as int) == identifier_run_end(s@, j as int),
        decreases s@.len() - j,
    {
        j = j + 1;
    }
    j
}

fn optional_part(s: &[char], i: usize, marker: char) -> (r: usize)
    requires
        i <= s@.len(),
    ensures
        r == optional_part_end(s@, i as int, marker),
        i <= r <= s@.len(),
{
    if i < s.len() && i + 1 < s.len() && s[i] == marker && identifier_char(s[i + 1]) {
        identifier_run(s, i + 1)
    } else {
        i
    }
}

/// The end of the match that starts at `i`, if the pattern matches there.
pub fn match_at(s: &[char], i: usize) -> (r: Option<usize>)
    requires
        i <= s@.len(),
    ensures
        match r {
            Some(e) => match_end_at(s@, i as int) == Some(e as int) && i < e <= s@.len(),
            None => match_end_at(s@, i as int) is None,
        },
{
    let a = digit_run(s, i);
    if a > i && a < s.len() && s[a] == '.' {
        let b = digit_run(s, a + 1);
        if b > a + 1 && b < s.len() && s[b] == '.' {
            let c = digit_run(s, b + 1);
            if c > b + 1 {
                let d = optional_part(s, c, '-');
                return Some(optional_part(s, d, '+'));
            }
        }
    }
    None
}

/// The leftmost match of the version pattern in `s`, as `(start, end)`
/// character positions.
pub fn find_version_span(s: &[char]) -> (r: Option<(usize, usize)>)
    ensures
        match r {
            Some((b, e)) => first_version_span(s@) == Some((b as int, e as int)) && b < e
                <= s@.len(),
            None => first_version_span(s@) is None,
        },
{
    let mut i: usize = 0;
    while i < s.len()
        invariant
            i <= s@.len(),
            first_version_span(s@) == first_match_from(s@, i as int),
        decreases s@.len() - i,
    {
        match match_at(s, i) {
            Some(e) => {
                return Some((i, e));
            },
            None => {},
        }
        i = i + 1;
    }
    None
}

proof fn lemma_digit_run_end_bounds(s: Seq<char>, i: int)
    requires
        0 <= i <= s.len(),
    ensures
        i <= digit_run_end(s, i) <= s.len(),
    decreases s.len() - i,
{
    if i < s.len() && is_decimal_digit(s[i]) {
        lemma_digit_run_end_bounds(s, i + 1);
    }
}

proof fn lemma_identifier_run_end_bounds(s: Seq<char>, i: int)
    requires
        0 <= i <= s.len(),
    ensures
        i <= identifier_run_end(s, i) <= s.len(),
    decreases s.len() - i,
{
    if i < s.len() && is_identifier_char(s[i]) {
        lemma_identifier_run_end_bounds(s, i + 1);
    }
}

/// A match that starts at `i` ends after `i` and within `s`.
pub proof fn lemma_match_end_bounds(s: Seq<char>, i: int)
    requires
        0 <= i < s.len(),
        match_end_at(s, i) is Some,
    ensures
        i < match_end_at(s, i)->0 <= s.len(),
{
    lemma_digit_run_end_bounds(s, i);
    let a = digit_run_end(s, i);
    lemma_digit_run_end_bounds(s, a + 1);
    let b = digit_run_end(s, a + 1);
    lemma_digit_run_end_bounds(s, b + 1);
    let c = digit_run_end(s, b + 1);
    let d = optional_part_end(s, c, '-');
    if 0 <= c && c + 1 < s.len() && s[c] == '-' && is_identifier_char(s[c + 1]) {
        lemma_identifier_run_end_bounds(s, c + 1);
    }
    if 0 <= d && d + 1 < s.len() && s[d] == '+' && is_identifier_char(s[d + 1]) {
        lemma_identifier_run_end_bounds(s, d + 1);
    }
}

/// A match that `first_version_span` reports is a match, and no match
/// starts before it.
pub proof fn lemma_first_version_span_is_leftmost(s: Seq<char>)
    ensures
        match first_version_span(s) {
            Some((b, e)) => match_end_at(s, b) == Some(e) && forall|k: int|
                0 <= k < b ==> (#[trigger] match_end_at(s, k)) is None,
            None => forall|k: int| 0 <= k < s.len() ==> (#[trigger] match_end_at(s, k)) is None,
        },
{
    lemma_first_match_from(s, 0);
}

proof fn lemma_first_match_from(s: Seq<char>, i: int)
    requires
        0 <= i,
    ensures
        match first_match_from(s, i) {
            Some((b, e)) => i <= b && match_end_at(s, b) == Some(e) && forall|k: int|
                i <= k < b ==> (#[trigger] match_end_at(s, k)) is None,
            None => forall|k: int| i <= k < s.len() ==> (#[trigger] match_end_at(s, k)) is None,
        },
    decreases s.len() - i,
{
    if i < s.len() && match_end_at(s, i) is None {
        lemma_first_match_from(s, i + 1);
    }
}

/// A run of decimal digits from `i` to `j`, followed by something else or
/// by the end, is the longest run that starts at `i`.
pub proof fn lemma_digit_run_end_at(s: Seq<char>, i: int, j: int)
    requires
        0 <= i <= j <= s.len(),
        forall|k: int| i <= k < j ==> is_decimal_digit(#[trigger] s[k]),
        j < s.len() ==> !is_decimal_digit(s[j]),
    ensures
        digit_run_end(s, i) == j,
    decreases j - i,
{
    if i < j {
        lemma_digit_run_end_at(s, i + 1, j);
    }
}

/// A run of identifier characters from `i` to `j`, followed by something
/// else or by the end, is the longest run that starts at `i`.
pub proof fn lemma_identifier_run_end_at(s: Seq<char>, i: int, j: int)
    requires
        0 <= i <= j <= s.len(),
        forall|k: int| i <= k < j ==> is_identifier_char(#[trigger] s[k]),
        j < s.len() ==> !is_identifier_char(s[j]),
    ensures
        identifier_run_end(s, i) == j,
    decreases j - i,
{
    if i < j {
        lemma_identifier_run_end_at(s, i + 1, j);
    }
}

/// Where no match starts from `k` up to `b` and one starts at `b`, the
/// first match from `k` is the one at `b`.
pub proof fn lemma_first_match_at(s: Seq<char>, k: int, b: int, e: int)
    requires
        0 <= k <= b < s.len(),
        forall|j: int| k <= j < b ==> (#[trigger] match_end_at(s, j)) is None,
        match_end_at(s, b) == Some(e),
    ensures
        first_match_from(s, k) == Some((b, e)),
    decreases b - k,
{
    if k < b {
        lemma_first_match_at(s, k + 1, b, e);
    }
}

} // verus!
