//! The token grammar of the language: character classes and token shapes
//! for words, numeric literals, content hashes and namespace paths.

use vstd::prelude::*;
use vstd::string::StrSliceExecFns;
use vstd::string::StringSliceAdditionalSpecFns;

verus! {

broadcast use vstd::string::group_string_axioms;

/// Whitespace: space, tab, line feed, carriage return, vertical tab or form
/// feed.
pub open spec fn is_ws_char(c: char) -> bool {
    c == ' ' || c == '\t' || c == '\n' || c == '\r' || c == '\u{b}' || c == '\u{c}'
}

/// First character of a word: a lowercase letter.
pub open spec fn is_word_start_char(c: char) -> bool {
    'a' <= c <= 'z'
}

/// Continuation character of a word: a lowercase letter, digit or dash.
pub open spec fn is_word_char(c: char) -> bool {
    'a' <= c <= 'z' || '0' <= c <= '9' || c == '-'
}

/// A decimal digit.
pub open spec fn is_digit_char(c: char) -> bool {
    '0' <= c <= '9'
}

/// A binary digit.
pub open spec fn is_bin_digit_char(c: char) -> bool {
    c == '0' || c == '1'
}

/// A hexadecimal digit in either case.
pub open spec fn is_hex_digit_char(c: char) -> bool {
    '0' <= c <= '9' || 'a' <= c <= 'f' || 'A' <= c <= 'F'
}

/// A character that continues an identifier-like token around the cursor:
/// letters, digits, dash, dot or quote mark.
pub open spec fn is_trigger_char(c: char) -> bool {
    'a' <= c <= 'z' || 'A' <= c <= 'Z' || '0' <= c <= '9' || c == '-' || c == '.' || c == '\''
}

/// A trigger character extended with path separators, used for the prefix
/// replaced by an import hash completion.
pub open spec fn is_path_trigger_char(c: char) -> bool {
    is_trigger_char(c) || c == '/' || c == '\\'
}

/// A word: a lowercase letter followed by lowercase letters, digits or
/// dashes.
pub open spec fn is_word(s: Seq<char>) -> bool {
    s.len() >= 1 && is_word_start_char(s[0]) && forall|i: int|
        1 <= i < s.len() ==> is_word_char(#[trigger] s[i])
}

/// A hex literal: `0x` followed by one or more hex digits.
pub open spec fn is_hex_literal(s: Seq<char>) -> bool {
    s.len() >= 3 && s[0] == '0' && s[1] == 'x' && forall|i: int|
        2 <= i < s.len() ==> is_hex_digit_char(#[trigger] s[i])
}

/// A binary literal: `0b` followed by one or more binary digits.
pub open spec fn is_binary_literal(s: Seq<char>) -> bool {
    s.len() >= 3 && s[0] == '0' && s[1] == 'b' && forall|i: int|
        2 <= i < s.len() ==> is_bin_digit_char(#[trigger] s[i])
}

/// A plain decimal integer: one or more digits.
pub open spec fn is_integer_literal(s: Seq<char>) -> bool {
    s.len() >= 1 && forall|i: int| 0 <= i < s.len() ==> is_digit_char(#[trigger] s[i])
}

/// A scientific literal: mantissa digits, `e`, then exponent digits, each
/// part non-empty.
pub open spec fn is_sci_literal(s: Seq<char>) -> bool {
    exists|k: int|
        1 <= k <= s.len() - 2 && #[trigger] s[k] == 'e' && is_integer_literal(s.subrange(0, k))
            && is_integer_literal(s.subrange(k + 1, s.len() as int))
}

/// Checks a single character for a class given by its spec predicate.
pub fn check_ws_char(c: char) -> (r: bool)
    ensures
        r == is_ws_char(c),
{
    c == ' ' || c == '\t' || c == '\n' || c == '\r' || c == '\u{b}' || c == '\u{c}'
}

pub fn check_word_start_char(c: char) -> (r: bool)
    ensures
        r == is_word_start_char(c),
{
    'a' <= c && c <= 'z'
}

pub fn check_word_char(c: char) -> (r: bool)
    ensures
        r == is_word_char(c),
{
    ('a' <= c && c <= 'z') || ('0' <= c && c <= '9') || c == '-'
}

pub fn check_digit_char(c: char) -> (r: bool)
    ensures
        r == is_digit_char(c),
{
    '0' <= c && c <= '9'
}

pub fn check_bin_digit_char(c: char) -> (r: bool)
    ensures
        r == is_bin_digit_char(c),
{
    c == '0' || c == '1'
}

pub fn check_hex_digit_char(c: char) -> (r: bool)
    ensures
        r == is_hex_digit_char(c),
{
    ('0' <= c && c <= '9') || ('a' <= c && c <= 'f') || ('A' <= c && c <= 'F')
}

pub fn check_trigger_char(c: char) -> (r: bool)
    ensures
        r == is_trigger_char(c),
{
    ('a' <= c && c <= 'z') || ('A' <= c && c <= 'Z') || ('0' <= c && c <= '9') || c == '-' || c
        == '.' || c == '\''
}

pub fn check_path_trigger_char(c: char) -> (r: bool)
    ensures
        r == is_path_trigger_char(c),
{
    check_trigger_char(c) || c == '/' || c == '\\'
}

/// Checks a whole ASCII string for the word shape.
pub fn check_word(s: &str) -> (r: bool)
    requires
        s.is_ascii(),
    ensures
        r == is_word(s@),
{
    let len = s.unicode_len();
    if len == 0 {
        return false;
    }
    if !check_word_start_char(s.get_char(0)) {
        return false;
    }
    let mut i: usize = 1;
    while i < len
        invariant
            s.is_ascii(),
            len == s@.len(),
            1 <= i <= len,
            is_word_start_char(s@[0]),
            forall|j: int| 1 <= j < i ==> is_word_char(#[trigger] s@[j]),
        decreases len - i,
    {
        if !check_word_char(s.get_char(i)) {
            return false;
        }
        i += 1;
    }
    true
}

/// Checks a whole ASCII string for the hex-literal shape.
pub fn check_hex_literal(s: &str) -> (r: bool)
    requires
        s.is_ascii(),
    ensures
        r == is_hex_literal(s@),
{
    let len = s.unicode_len();
    if len < 3 {
        return false;
    }
    if s.get_char(0) != '0' || s.get_char(1) != 'x' {
        return false;
    }
    let mut i: usize = 2;
    while i < len
        invariant
            s.is_ascii(),
            len == s@.len(),
            2 <= i <= len,
            s@[0] == '0' && s@[1] == 'x',
            forall|j: int| 2 <= j < i ==> is_hex_digit_char(#[trigger] s@[j]),
        decreases len - i,
    {
        if !check_hex_digit_char(s.get_char(i)) {
            return false;
        }
        i += 1;
    }
    true
}

/// Checks a whole ASCII string for the binary-literal shape.
pub fn check_binary_literal(s: &str) -> (r: bool)
    requires
        s.is_ascii(),
    ensures
        r == is_binary_literal(s@),
{
    let len = s.unicode_len();
    if len < 3 {
        return false;
    }
    if s.get_char(0) != '0' || s.get_char(1) != 'b' {
        return false;
    }
    let mut i: usize = 2;
    while i < len
        invariant
            s.is_ascii(),
            len == s@.len(),
            2 <= i <= len,
            s@[0] == '0' && s@[1] == 'b',
            forall|j: int| 2 <= j < i ==> is_bin_digit_char(#[trigger] s@[j]),
        decreases len - i,
    {
        if !check_bin_digit_char(s.get_char(i)) {
            return false;
        }
        i += 1;
    }
    true
}

/// Checks a whole ASCII string for the plain-integer shape.
pub fn check_integer_literal(s: &str) -> (r: bool)
    requires
        s.is_ascii(),
    ensures
        r == is_integer_literal(s@),
{
    let len = s.unicode_len();
    if len == 0 {
        return false;
    }
    let mut i: usize = 0;
    while i < len
        invariant
            s.is_ascii(),
            len == s@.len(),
            0 <= i <= len,
            forall|j: int| 0 <= j < i ==> is_digit_char(#[trigger] s@[j]),
        decreases len - i,
    {
        if !check_digit_char(s.get_char(i)) {
            return false;
        }
        i += 1;
    }
    true
}

/// The digit runs around a scientific literal's `e`, spelled out charwise.
proof fn lemma_sci_parts(s: Seq<char>, k: int)
    requires
        1 <= k <= s.len() - 2,
        is_integer_literal(s.subrange(0, k)),
        is_integer_literal(s.subrange(k + 1, s.len() as int)),
    ensures
        forall|j: int| 0 <= j < k ==> is_digit_char(#[trigger] s[j]),
        forall|j: int| k + 1 <= j < s.len() ==> is_digit_char(#[trigger] s[j]),
{
    assert forall|j: int| 0 <= j < k implies is_digit_char(#[trigger] s[j]) by {
        assert(is_digit_char(s.subrange(0, k)[j]));
    }
    assert forall|j: int| k + 1 <= j < s.len() implies is_digit_char(#[trigger] s[j]) by {
        assert(is_digit_char(s.subrange(k + 1, s.len() as int)[j - k - 1]));
    }
}

/// Digit runs around a single `e` make a scientific literal.
proof fn lemma_sci_make(s: Seq<char>, k: int)
    requires
        1 <= k <= s.len() - 2,
        s[k] == 'e',
        forall|j: int| 0 <= j < k ==> is_digit_char(#[trigger] s[j]),
        forall|j: int| k + 1 <= j < s.len() ==> is_digit_char(#[trigger] s[j]),
    ensures
        is_integer_literal(s.subrange(0, k)),
        is_integer_literal(s.subrange(k + 1, s.len() as int)),
        is_sci_literal(s),
{
    assert forall|j: int| 0 <= j < k implies is_digit_char(#[trigger] s.subrange(0, k)[j]) by {
        assert(s.subrange(0, k)[j] == s[j]);
    }
    let tail = s.subrange(k + 1, s.len() as int);
    assert forall|j: int| 0 <= j < tail.len() implies is_digit_char(#[trigger] tail[j]) by {
        assert(tail[j] == s[j + k + 1]);
    }
}

/// Checks a whole ASCII string for the scientific shape, locating the `e`.
pub fn check_sci_literal(s: &str) -> (r: Option<usize>)
    requires
        s.is_ascii(),
    ensures
        match r {
            Some(k) => 1 <= k <= s@.len() - 2 && s@[k as int] == 'e' && is_integer_literal(
                s@.subrange(0, k as int),
            ) && is_integer_literal(s@.subrange(k as int + 1, s@.len() as int)) && is_sci_literal(
                s@,
            ),
            None => !is_sci_literal(s@),
        },
{
    let len = s.unicode_len();
    let mut i: usize = 0;
    // scan the mantissa digits
    while i < len && check_digit_char(s.get_char(i))
        invariant
            s.is_ascii(),
            len == s@.len(),
            0 <= i <= len,
            forall|j: int| 0 <= j < i ==> is_digit_char(#[trigger] s@[j]),
        decreases len - i,
    {
        i += 1;
    }
    if i == 0 || i >= len || s.get_char(i) != 'e' || i + 1 >= len {
        proof {
            if is_sci_literal(s@) {
                let k = choose|k: int|
                    1 <= k <= s@.len() - 2 && #[trigger] s@[k] == 'e' && is_integer_literal(
                        s@.subrange(0, k),
                    ) && is_integer_literal(s@.subrange(k + 1, s@.len() as int));
                lemma_sci_parts(s@, k);
                if i < k {
                    assert(is_digit_char(s@[i as int]));
                }
                if k < i {
                    assert(is_digit_char(s@[k]));
                }
            }
        }
        return None;
    }
    let ghost k = i as int;
    let mut j: usize = i + 1;
    while j < len && check_digit_char(s.get_char(j))
        invariant
            s.is_ascii(),
            len == s@.len(),
            i + 1 <= j <= len,
            1 <= i < len && s@[i as int] == 'e',
            forall|m: int| 0 <= m < i ==> is_digit_char(#[trigger] s@[m]),
            forall|m: int| i + 1 <= m < j ==> is_digit_char(#[trigger] s@[m]),
        decreases len - j,
    {
        j += 1;
    }
    if j < len {
        proof {
            if is_sci_literal(s@) {
                let k2 = choose|k2: int|
                    1 <= k2 <= s@.len() - 2 && #[trigger] s@[k2] == 'e' && is_integer_literal(
                        s@.subrange(0, k2),
                    ) && is_integer_literal(s@.subrange(k2 + 1, s@.len() as int));
                lemma_sci_parts(s@, k2);
                if k2 > i {
                    assert(is_digit_char(s@[i as int]));
                }
                if k2 < i {
                    assert(is_digit_char(s@[k2]));
                }
                assert(is_digit_char(s@[j as int]));
            }
        }
        return None;
    }
    proof {
        lemma_sci_make(s@, k);
    }
    Some(i)
}

} // verus!
