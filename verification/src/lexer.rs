//! Lexical primitives: token extraction with exact source offsets,
//! in-place redaction that preserves the line structure, and trimming with
//! accounting, so every later pass can map its findings back to absolute
//! offsets in the original text.

use vstd::prelude::*;
use vstd::string::StrSliceExecFns;
use vstd::string::StringExecFns;
use vstd::string::StringSliceAdditionalSpecFns;
use vstd::utf8::is_ascii_chars;
use crate::ast::{Offsets, ParsedItem};
use crate::error::Error;
use crate::patterns::{is_ws_char, check_ws_char};

verus! {

broadcast use vstd::string::group_string_axioms;

/// A token pattern the lexical primitives split on.
#[derive(Debug, Clone, Copy, PartialEq, Eq, Structural)]
pub enum TokenPattern {
    /// A maximal run of whitespace characters.
    WhitespaceRun,
    /// A single dot, the namespace path separator.
    Dot,
}

/// Length of the whitespace run of `t` starting at offset `i`.
pub open spec fn ws_run_len(t: Seq<char>, i: int) -> nat
    decreases t.len() - i,
{
    if 0 <= i < t.len() && is_ws_char(t[i]) {
        1 + ws_run_len(t, i + 1)
    } else {
        0
    }
}

proof fn lemma_ws_run_len_bound(t: Seq<char>, i: int)
    requires
        0 <= i <= t.len(),
    ensures
        ws_run_len(t, i) <= t.len() - i,
    decreases t.len() - i,
{
    if i < t.len() && is_ws_char(t[i]) {
        lemma_ws_run_len_bound(t, i + 1);
    }
}

/// Length of the match of `p` at offset `i` of `t`, zero when `p` does not
/// match there.
pub open spec fn pattern_match_len(t: Seq<char>, p: TokenPattern, i: int) -> nat {
    match p {
        TokenPattern::WhitespaceRun => ws_run_len(t, i),
        TokenPattern::Dot => if 0 <= i < t.len() && t[i] == '.' {
            1nat
        } else {
            0nat
        },
    }
}

proof fn lemma_pattern_match_len_bound(t: Seq<char>, p: TokenPattern, i: int)
    requires
        0 <= i <= t.len(),
    ensures
        pattern_match_len(t, p, i) <= t.len() - i,
{
    lemma_ws_run_len_bound(t, i);
}

/// The non-overlapping matches of `p` in `t` from offset `i` on, leftmost
/// first, as half-open offset pairs.
pub open spec fn match_spans_from(t: Seq<char>, p: TokenPattern, i: int) -> Seq<(int, int)>
    decreases t.len() - i,
    when 0 <= i
    via match_spans_from_decreases
{
    if i >= t.len() {
        Seq::empty()
    } else {
        let l = pattern_match_len(t, p, i);
        if l > 0 {
            seq![(i, i + l)] + match_spans_from(t, p, i + l)
        } else {
            match_spans_from(t, p, i + 1)
        }
    }
}

#[via_fn]
proof fn match_spans_from_decreases(t: Seq<char>, p: TokenPattern, i: int) {
    if 0 <= i < t.len() {
        lemma_pattern_match_len_bound(t, p, i);
    }
}

/// All the non-overlapping matches of `p` in `t`, leftmost first.
pub open spec fn match_spans(t: Seq<char>, p: TokenPattern) -> Seq<(int, int)> {
    match_spans_from(t, p, 0)
}

/// The spans between consecutive members of `spans` relative to the window
/// `[a, b)`, including the (possibly empty) spans before the first member
/// and after the last one.
pub open spec fn gap_spans_over(spans: Seq<(int, int)>, a: int, b: int) -> Seq<(int, int)> {
    Seq::new(
        spans.len() + 1,
        |i: int|
            (
                if i == 0 {
                    a
                } else {
                    spans[i - 1].1
                },
                if i == spans.len() {
                    b
                } else {
                    spans[i].0
                },
            ),
    )
}

/// The spans `exclusive_parse` yields for `t` and `p` when empty end spans
/// are retained.
pub open spec fn exclusive_spans(t: Seq<char>, p: TokenPattern) -> Seq<(int, int)> {
    gap_spans_over(match_spans(t, p), 0, t.len() as int)
}

/// Every span lies in `[lo, hi)`-order: within bounds, non-empty, and no
/// later span starts before an earlier one ends.
pub open spec fn spans_wf(spans: Seq<(int, int)>, lo: int, hi: int) -> bool {
    &&& forall|j: int| 0 <= j < spans.len() ==> lo <= (#[trigger] spans[j]).0 < spans[j].1 <= hi
    &&& forall|j: int| 0 <= j < spans.len() - 1 ==> (#[trigger] spans[j]).1 <= spans[j + 1].0
}

proof fn lemma_match_spans_wf(t: Seq<char>, p: TokenPattern, i: int)
    requires
        0 <= i <= t.len(),
    ensures
        spans_wf(match_spans_from(t, p, i), i, t.len() as int),
    decreases t.len() - i,
{
    if i < t.len() {
        let l = pattern_match_len(t, p, i);
        lemma_pattern_match_len_bound(t, p, i);
        if l > 0 {
            lemma_match_spans_wf(t, p, i + l);
            let rest = match_spans_from(t, p, i + l);
            let all = match_spans_from(t, p, i);
            assert(all == seq![(i, i + l)] + rest);
            assert forall|j: int|
                0 <= j < all.len() implies i <= (#[trigger] all[j]).0 < all[j].1 <= t.len() by {
                if j > 0 {
                    assert(all[j] == rest[j - 1]);
                }
            }
            assert forall|j: int|
                0 <= j < all.len() - 1 implies (#[trigger] all[j]).1 <= all[j + 1].0 by {
                if j > 0 {
                    assert(all[j] == rest[j - 1]);
                    assert(all[j + 1] == rest[j]);
                }
            }
        } else {
            lemma_match_spans_wf(t, p, i + 1);
        }
    }
}

/// Every span `exclusive_parse` keeps with empty ends retained lies
/// within the text, start before end.
pub proof fn lemma_exclusive_spans_bounds(t: Seq<char>, p: TokenPattern)
    ensures
        forall|j: int|
            0 <= j < exclusive_spans(t, p).len() ==> 0 <= (#[trigger] exclusive_spans(t, p)[j]).0
                <= exclusive_spans(t, p)[j].1 <= t.len(),
{
    lemma_match_spans_wf(t, p, 0);
    let spans = match_spans(t, p);
    let g = exclusive_spans(t, p);
    assert forall|j: int|
        0 <= j < g.len() implies 0 <= (#[trigger] g[j]).0 <= g[j].1 <= t.len() by {
        if j > 0 {
            assert(spans[j - 1].0 < spans[j - 1].1 <= t.len());
        }
        if j < spans.len() {
            assert(0 <= spans[j].0 < spans[j].1 <= t.len());
        }
        if 0 < j < spans.len() {
            assert(spans[j - 1].1 <= spans[j].0);
        }
    }
}

/// Every span `exclusive_parse` keeps lies within the text, start before
/// end, whether or not empty end spans are retained.
pub proof fn lemma_kept_gap_spans_bounds(t: Seq<char>, p: TokenPattern, include_empty_ends: bool)
    ensures
        forall|j: int|
            0 <= j < kept_gap_spans(t, p, include_empty_ends).len() ==> 0 <= (#[trigger] kept_gap_spans(
                t,
                p,
                include_empty_ends,
            )[j]).0 <= kept_gap_spans(t, p, include_empty_ends)[j].1 <= t.len(),
{
    lemma_exclusive_spans_bounds(t, p);
    let g = exclusive_spans(t, p);
    let kept = kept_gap_spans(t, p, include_empty_ends);
    assert forall|j: int|
        0 <= j < kept.len() implies 0 <= (#[trigger] kept[j]).0 <= kept[j].1 <= t.len() by {
        if include_empty_ends {
            assert(kept[j] == g[j]);
        } else {
            let g1 = if g[g.len() - 1].0 == g[g.len() - 1].1 {
                g.drop_last()
            } else {
                g
            };
            if g1.len() > 0 && g1[0].0 == g1[0].1 {
                assert(kept[j] == g1[j + 1]);
            } else {
                assert(kept[j] == g1[j]);
            }
        }
    }
}

/// Length of the match of `p` at offset `i` of `text`.
fn match_len_at(text: &str, p: TokenPattern, i: usize) -> (l: usize)
    requires
        text.is_ascii(),
        i <= text@.len(),
    ensures
        l == pattern_match_len(text@, p, i as int),
        i + l <= text@.len(),
{
    proof {
        lemma_pattern_match_len_bound(text@, p, i as int);
    }
    let len = text.unicode_len();
    match p {
        TokenPattern::Dot => {
            if i < len && text.get_char(i) == '.' {
                1
            } else {
                0
            }
        },
        TokenPattern::WhitespaceRun => {
            let mut j = i;
            while j < len && check_ws_char(text.get_char(j))
                invariant
                    text.is_ascii(),
                    len == text@.len(),
                    i <= j <= len,
                    ws_run_len(text@, i as int) == j - i + ws_run_len(text@, j as int),
                decreases len - j,
            {
                j += 1;
            }
            j - i
        },
    }
}

/// Extracts every match of `p` in `text` as a `ParsedItem`, with bounds
/// shifted by `offset`.
pub fn inclusive_parse(text: &str, pattern: TokenPattern, offset: usize) -> (r: Vec<ParsedItem>)
    requires
        text.is_ascii(),
        text@.len() + offset <= usize::MAX,
    ensures
        r@.len() == match_spans(text@, pattern).len(),
        forall|j: int|
            0 <= j < r@.len() ==> {
                let (a, b) = #[trigger] match_spans(text@, pattern)[j];
                &&& r@[j].1.start == a + offset
                &&& r@[j].1.end == b + offset
                &&& r@[j].0@ == text@.subrange(a, b)
            },
{
    let len = text.unicode_len();
    let mut r: Vec<ParsedItem> = Vec::new();
    let mut i: usize = 0;
    let ghost full = match_spans(text@, pattern);
    proof {
        lemma_match_spans_wf(text@, pattern, 0);
    }
    while i < len
        invariant
            text.is_ascii(),
            len == text@.len(),
            len + offset <= usize::MAX,
            0 <= i <= len,
            full == match_spans(text@, pattern),
            full =~= r@.map_values(
                |item: ParsedItem| (item.1.start - offset, item.1.end - offset),
            ) + match_spans_from(text@, pattern, i as int),
            forall|j: int|
                0 <= j < r@.len() ==> {
                    let (a, b) = #[trigger] full[j];
                    &&& r@[j].1.start == a + offset
                    &&& r@[j].1.end == b + offset
                    &&& r@[j].0@ == text@.subrange(a, b)
                },
        decreases len - i,
    {
        let l = match_len_at(text, pattern, i);
        if l > 0 {
            let piece = text.substring_ascii(i, i + l);
            let item = ParsedItem(
                String::from_str(piece),
                Offsets { start: i + offset, end: i + l + offset },
            );
            let ghost old_r = r@;
            r.push(item);
            proof {
                assert(match_spans_from(text@, pattern, i as int) == seq![
                    (i as int, i + l),
                ] + match_spans_from(text@, pattern, i + l));
                assert(r@.map_values(
                    |item: ParsedItem| (item.1.start - offset, item.1.end - offset),
                ) =~= old_r.map_values(
                    |item: ParsedItem| (item.1.start - offset, item.1.end - offset),
                ).push((i as int, i + l)));
                assert(full =~= r@.map_values(
                    |item: ParsedItem| (item.1.start - offset, item.1.end - offset),
                ) + match_spans_from(text@, pattern, i + l));
                assert(full[old_r.len() as int] == (i as int, i + l));
            }
            i += l;
        } else {
            proof {
                assert(match_spans_from(text@, pattern, i as int) == match_spans_from(
                    text@,
                    pattern,
                    i + 1,
                ));
            }
            i += 1;
        }
    }
    proof {
        assert(match_spans_from(text@, pattern, len as int) =~= Seq::<(int, int)>::empty());
        assert(full =~= r@.map_values(
            |item: ParsedItem| (item.1.start - offset, item.1.end - offset),
        ));
    }
    r
}

/// The gap spans kept by `exclusive_parse`: all of them when
/// `include_empty_ends` is set, and otherwise all but an empty leading or
/// trailing one.
pub open spec fn kept_gap_spans(t: Seq<char>, p: TokenPattern, include_empty_ends: bool) -> Seq<
    (int, int),
> {
    let g = exclusive_spans(t, p);
    if include_empty_ends {
        g
    } else {
        let g1 = if g[g.len() - 1].0 == g[g.len() - 1].1 {
            g.drop_last()
        } else {
            g
        };
        if g1.len() > 0 && g1[0].0 == g1[0].1 {
            g1.drop_first()
        } else {
            g1
        }
    }
}

/// Extracts the spans of `text` between matches of `p` as `ParsedItem`s,
/// with bounds shifted by `offset`; `include_empty_ends` keeps a zero-width
/// leading or trailing span.
#[verifier::rlimit(50)]
pub fn exclusive_parse(
    text: &str,
    pattern: TokenPattern,
    offset: usize,
    include_empty_ends: bool,
) -> (r: Vec<ParsedItem>)
    requires
        text.is_ascii(),
        text@.len() + offset <= usize::MAX,
    ensures
        r@.len() == kept_gap_spans(text@, pattern, include_empty_ends).len(),
        forall|j: int|
            0 <= j < r@.len() ==> {
                let (a, b) = #[trigger] kept_gap_spans(text@, pattern, include_empty_ends)[j];
                &&& r@[j].1.start == a + offset
                &&& r@[j].1.end == b + offset
                &&& r@[j].0@ == text@.subrange(a, b)
            },
{
    let len = text.unicode_len();
    let matches = inclusive_parse(text, pattern, 0);
    let ghost spans = match_spans(text@, pattern);
    let ghost gaps = gap_spans_over(spans, 0, text@.len() as int);
    proof {
        lemma_match_spans_wf(text@, pattern, 0);
    }
    let n = matches.len();
    let mut r: Vec<ParsedItem> = Vec::new();
    let mut i: usize = 0;
    while i < n
        invariant
            text.is_ascii(),
            len == text@.len(),
            len + offset <= usize::MAX,
            0 <= i <= n,
            n == matches@.len(),
            n == spans.len(),
            spans == match_spans(text@, pattern),
            gaps == gap_spans_over(spans, 0, text@.len() as int),
            spans_wf(spans, 0, len as int),
            forall|j: int|
                0 <= j < n ==> {
                    let (a, b) = #[trigger] spans[j];
                    &&& matches@[j].1.start == a
                    &&& matches@[j].1.end == b
                },
            r@.len() == i,
            forall|j: int|
                0 <= j < i ==> {
                    let (a, b) = #[trigger] gaps[j];
                    &&& r@[j].1.start == a + offset
                    &&& r@[j].1.end == b + offset
                    &&& r@[j].0@ == text@.subrange(a, b)
                },
        decreases n - i,
    {
        let a = if i == 0 {
            0
        } else {
            matches[i - 1].1.end
        };
        let b = matches[i].1.start;
        proof {
            if i == 0 {
                assert(0 <= spans[0].0 < spans[0].1 <= len);
            } else {
                assert(spans[i - 1].0 < spans[i - 1].1 <= len);
                assert(spans[i - 1].1 <= spans[i as int].0);
                assert(spans[i as int].0 < spans[i as int].1 <= len);
            }
        }
        assert(a <= b && b <= len);
        let piece = text.substring_ascii(a, b);
        r.push(ParsedItem(String::from_str(piece), Offsets { start: a + offset, end: b + offset }));
        i += 1;
    }
    // the (possibly empty) span after the last match
    let a = if n == 0 {
        0
    } else {
        matches[n - 1].1.end
    };
    proof {
        if n > 0 {
            assert(spans[n - 1].0 < spans[n - 1].1 <= len);
        }
    }
    let piece = text.substring_ascii(a, len);
    r.push(ParsedItem(String::from_str(piece), Offsets { start: a + offset, end: len + offset }));
    if include_empty_ends {
        return r;
    }
    // drop an empty trailing gap, then an empty leading one
    let ghost g = gaps;
    let last = r.len() - 1;
    if r[last].1.start == r[last].1.end {
        r.pop();
    }
    if r.len() > 0 && r[0].1.start == r[0].1.end {
        r.remove(0);
    }
    proof {
        let g1 = if g[g.len() - 1].0 == g[g.len() - 1].1 {
            g.drop_last()
        } else {
            g
        };
        let g2 = if g1.len() > 0 && g1[0].0 == g1[0].1 {
            g1.drop_first()
        } else {
            g1
        };
        assert(kept_gap_spans(text@, pattern, false) == g2);
        assert(r@.len() == g2.len());
    }
    r
}

/// Interleaves two span sequences starting with `x`: `x[0], y[0], x[1], ...`
pub open spec fn interleave_spans(x: Seq<(int, int)>, y: Seq<(int, int)>) -> Seq<(int, int)>
    decreases x.len() + y.len(),
{
    if x.len() == 0 {
        y
    } else {
        seq![x[0]] + interleave_spans(y, x.drop_first())
    }
}

/// Concatenation of the pieces of `t` that `spans` selects, in order.
pub open spec fn concat_spans(t: Seq<char>, spans: Seq<(int, int)>) -> Seq<char>
    decreases spans.len(),
{
    if spans.len() == 0 {
        Seq::empty()
    } else {
        t.subrange(spans[0].0, spans[0].1) + concat_spans(t, spans.drop_first())
    }
}

/// `spans` tile `[a, b)`: the first starts at `a`, the last ends at `b`,
/// and each one ends where the next begins.
pub open spec fn spans_tile(spans: Seq<(int, int)>, a: int, b: int) -> bool {
    if spans.len() == 0 {
        a == b
    } else {
        &&& spans[0].0 == a
        &&& spans[spans.len() - 1].1 == b
        &&& forall|j: int| 0 <= j < spans.len() ==> (#[trigger] spans[j]).0 <= spans[j].1
        &&& forall|j: int| 0 <= j < spans.len() - 1 ==> (#[trigger] spans[j]).1 == spans[j + 1].0
    }
}

proof fn lemma_tiling_concat(t: Seq<char>, spans: Seq<(int, int)>, a: int, b: int)
    requires
        spans_tile(spans, a, b),
        0 <= a,
        b <= t.len(),
    ensures
        a <= b,
        concat_spans(t, spans) == t.subrange(a, b),
    decreases spans.len(),
{
    if spans.len() == 0 {
        assert(concat_spans(t, spans) =~= t.subrange(a, b));
    } else {
        let rest = spans.drop_first();
        let m = spans[0].1;
        assert(spans_tile(rest, m, b)) by {
            if rest.len() > 0 {
                assert(spans[0].1 == spans[1].0);
                assert(rest[rest.len() - 1] == spans[spans.len() - 1]);
                assert forall|j: int|
                    0 <= j < rest.len() implies (#[trigger] rest[j]).0 <= rest[j].1 by {
                    assert(rest[j] == spans[j + 1]);
                }
                assert forall|j: int|
                    0 <= j < rest.len() - 1 implies (#[trigger] rest[j]).1 == rest[j + 1].0 by {
                    assert(rest[j] == spans[j + 1]);
                    assert(rest[j + 1] == spans[j + 2]);
                }
            }
        }
        lemma_tiling_concat(t, rest, m, b);
        assert(concat_spans(t, spans) =~= t.subrange(a, b)) by {
            assert(concat_spans(t, spans) == t.subrange(a, m) + concat_spans(t, rest));
        }
    }
}

/// What redaction does to one character: whitespace is kept verbatim, any
/// other character becomes a single space.
pub open spec fn filled_char(c: char) -> char {
    if is_ws_char(c) {
        c
    } else {
        ' '
    }
}

/// Appends `text[from..to]` to `out` with every non-whitespace character
/// replaced by a space.
fn append_filled(out: &mut String, text: &str, from: usize, to: usize)
    requires
        text.is_ascii(),
        from <= to <= text@.len(),
    ensures
        final(out)@ == old(out)@ + text@.subrange(from as int, to as int).map_values(
            |c: char| filled_char(c),
        ),
{
    let ghost base = out@;
    let mut i = from;
    while i < to
        invariant
            text.is_ascii(),
            from <= i <= to <= text@.len(),
            out@ =~= base + text@.subrange(from as int, i as int).map_values(
                |c: char| filled_char(c),
            ),
        decreases to - i,
    {
        let c = text.get_char(i);
        push_filled(out, c);
        proof {
            assert(text@.subrange(from as int, i + 1) =~= text@.subrange(from as int, i as int)
                .push(text@[i as int]));
            assert(text@.subrange(from as int, i + 1).map_values(|c: char| filled_char(c))
                =~= text@.subrange(from as int, i as int).map_values(
                |c: char| filled_char(c),
            ).push(filled_char(text@[i as int])));
        }
        i += 1;
    }
}

/// Appends the redacted form of one character to `out`.
fn push_filled(out: &mut String, c: char)
    ensures
        final(out)@ =~= old(out)@.push(filled_char(c)),
{
    if c == '\t' {
        out.append("\t");
        proof {
            reveal_strlit("\t");
            assert("\t"@ =~= seq!['\t']);
        }
    } else if c == '\n' {
        out.append("\n");
        proof {
            reveal_strlit("\n");
            assert("\n"@ =~= seq!['\n']);
        }
    } else if c == '\r' {
        out.append("\r");
        proof {
            reveal_strlit("\r");
            assert("\r"@ =~= seq!['\r']);
        }
    } else if c == '\u{b}' {
        out.append("\u{b}");
        proof {
            reveal_strlit("\u{b}");
            assert("\u{b}"@ =~= seq!['\u{b}']);
        }
    } else if c == '\u{c}' {
        out.append("\u{c}");
        proof {
            reveal_strlit("\u{c}");
            assert("\u{c}"@ =~= seq!['\u{c}']);
        }
    } else {
        // a space either way: a space is kept, anything else is redacted
        out.append(" ");
        proof {
            reveal_strlit(" ");
            assert(" "@ =~= seq![' ']);
        }
    }
}

/// Redacts the characters of `text` inside `position`: every non-whitespace
/// character of the range becomes a space, every whitespace character and
/// everything outside the range stays, so text length and line structure
/// are unchanged. Fails without touching the text when the range reaches
/// beyond its end.
pub fn fill_in(text: &mut String, position: Offsets) -> (r: Result<(), Error>)
    requires
        old(text).is_ascii(),
    ensures
        match r {
            Ok(()) => {
                &&& position.start <= position.end <= old(text)@.len()
                &&& final(text)@.len() == old(text)@.len()
                &&& forall|i: int|
                    0 <= i < old(text)@.len() ==> final(text)@[i] == (
                    if position.start <= i < position.end {
                        filled_char(old(text)@[i])
                    } else {
                        old(text)@[i]
                    })
                &&& final(text).is_ascii()
            },
            Err(e) => {
                &&& e == Error::OutOfCharBoundary
                &&& !(position.start <= position.end <= old(text)@.len())
                &&& final(text)@ == old(text)@
            },
        },
{
    let len = text.as_str().unicode_len();
    if position.start > position.end || position.end > len {
        return Err(Error::OutOfCharBoundary);
    }
    let ghost t = text@;
    let mut out = String::from_str(text.as_str().substring_ascii(0, position.start));
    append_filled(&mut out, text.as_str(), position.start, position.end);
    out.append(text.as_str().substring_ascii(position.end, len));
    proof {
        lemma_fill_result(t, out@, position.start as int, position.end as int);
    }
    *text = out;
    Ok(())
}

/// Redacts the characters of `text` outside `position`, keeping the range
/// itself and all whitespace verbatim; the dual of `fill_in`. Fails without
/// touching the text when either bound reaches beyond its end.
pub fn fill_out(text: &mut String, position: Offsets) -> (r: Result<(), Error>)
    requires
        old(text).is_ascii(),
    ensures
        match r {
            Ok(()) => {
                &&& position.start <= old(text)@.len()
                &&& position.end <= old(text)@.len()
                &&& final(text)@.len() == old(text)@.len()
                &&& forall|i: int|
                    0 <= i < old(text)@.len() ==> final(text)@[i] == (
                    if position.start <= i < position.end {
                        old(text)@[i]
                    } else {
                        filled_char(old(text)@[i])
                    })
                &&& final(text).is_ascii()
            },
            Err(e) => {
                &&& e == Error::OutOfCharBoundary
                &&& !(position.start <= old(text)@.len() && position.end <= old(text)@.len())
                &&& final(text)@ == old(text)@
            },
        },
{
    let len = text.as_str().unicode_len();
    if position.start > len || position.end > len {
        return Err(Error::OutOfCharBoundary);
    }
    let ghost t = text@;
    if position.start <= position.end {
        let mut out = String::new();
        append_filled(&mut out, text.as_str(), 0, position.start);
        out.append(text.as_str().substring_ascii(position.start, position.end));
        append_filled(&mut out, text.as_str(), position.end, len);
        proof {
            lemma_fill_out_result(t, out@, position.start as int, position.end as int);
        }
        *text = out;
    } else {
        // an inverted range keeps nothing: everything is redacted
        let mut out = String::new();
        append_filled(&mut out, text.as_str(), 0, len);
        proof {
            assert(out@ =~= Seq::<char>::empty() + t.subrange(0, t.len() as int).map_values(
                |c: char| filled_char(c),
            ));
            assert(t.subrange(0, t.len() as int) =~= t);
            assert forall|i: int| 0 <= i < t.len() implies out@[i] == filled_char(t[i]) by {}
            lemma_filled_ascii(t, out@);
        }
        *text = out;
    }
    Ok(())
}

/// Charwise reading of the three-piece concatenation `fill_in` builds.
proof fn lemma_fill_result(t: Seq<char>, out: Seq<char>, a: int, b: int)
    requires
        0 <= a <= b <= t.len(),
        out == t.subrange(0, a) + t.subrange(a, b).map_values(|c: char| filled_char(c))
            + t.subrange(b, t.len() as int),
    ensures
        out.len() == t.len(),
        forall|i: int|
            0 <= i < t.len() ==> out[i] == (
            if a <= i < b {
                filled_char(t[i])
            } else {
                t[i]
            }),
        is_ascii_chars(t) ==> is_ascii_chars(out),
{
    assert forall|i: int|
        0 <= i < t.len() implies out[i] == (
        if a <= i < b {
            filled_char(t[i])
        } else {
            t[i]
        }) by {
        if a <= i < b {
            assert(out[i] == t.subrange(a, b).map_values(|c: char| filled_char(c))[i - a]);
        }
    }
    if is_ascii_chars(t) {
        lemma_filled_ascii(t, out);
    }
}

/// Charwise reading of the three-piece concatenation `fill_out` builds.
proof fn lemma_fill_out_result(t: Seq<char>, out: Seq<char>, a: int, b: int)
    requires
        0 <= a <= b <= t.len(),
        out == t.subrange(0, a).map_values(|c: char| filled_char(c)) + t.subrange(a, b)
            + t.subrange(b, t.len() as int).map_values(|c: char| filled_char(c)),
    ensures
        out.len() == t.len(),
        forall|i: int|
            0 <= i < t.len() ==> out[i] == (
            if a <= i < b {
                t[i]
            } else {
                filled_char(t[i])
            }),
        is_ascii_chars(t) ==> is_ascii_chars(out),
{
    assert forall|i: int|
        0 <= i < t.len() implies out[i] == (
        if a <= i < b {
            t[i]
        } else {
            filled_char(t[i])
        }) by {
        if i < a {
            assert(out[i] == t.subrange(0, a).map_values(|c: char| filled_char(c))[i]);
        } else if i >= b {
            assert(out[i] == t.subrange(b, t.len() as int).map_values(
                |c: char| filled_char(c),
            )[i - b]);
        }
    }
    if is_ascii_chars(t) {
        lemma_filled_ascii(t, out);
    }
}

/// A text whose characters each come from an ASCII text, either verbatim
/// or as a space, is itself ASCII.
proof fn lemma_filled_ascii(t: Seq<char>, out: Seq<char>)
    requires
        is_ascii_chars(t),
        out.len() == t.len(),
        forall|i: int| 0 <= i < out.len() ==> out[i] == t[i] || out[i] == filled_char(t[i]),
    ensures
        is_ascii_chars(out),
{
    assert forall|i: int| 0 <= i < out.len() implies '\0' <= #[trigger] out[i] <= '\u{7f}' by {
        assert('\0' <= t[i] <= '\u{7f}');
    }
}

/// Length of the whitespace run that ends `t`.
pub open spec fn ws_suffix_len(t: Seq<char>) -> nat
    decreases t.len(),
{
    if t.len() > 0 && is_ws_char(t[t.len() - 1]) {
        1 + ws_suffix_len(t.drop_last())
    } else {
        0
    }
}

/// The text with its leading and trailing whitespace runs removed.
pub open spec fn spec_trimmed(s: Seq<char>) -> Seq<char> {
    if ws_run_len(s, 0) == s.len() {
        Seq::empty()
    } else {
        s.subrange(ws_run_len(s, 0) as int, s.len() - ws_suffix_len(s))
    }
}

/// Trims leading and trailing whitespace from `s`, reporting how many
/// characters were removed from each end so callers can re-derive absolute
/// offsets.
pub fn tracked_trim<'a>(s: &'a str) -> (r: (&'a str, usize, usize))
    requires
        s.is_ascii(),
    ensures
        r.0@ == spec_trimmed(s@),
        r.1 == ws_run_len(s@, 0),
        r.2 == ws_suffix_len(s@),
        r.1 == s@.len() ==> r.0@ == Seq::<char>::empty(),
        r.1 < s@.len() ==> r.1 + r.2 <= s@.len() && r.0@ == s@.subrange(
            r.1 as int,
            s@.len() - r.2,
        ),
        r.0.is_ascii(),
{
    let len = s.unicode_len();
    let mut i: usize = 0;
    while i < len && check_ws_char(s.get_char(i))
        invariant
            s.is_ascii(),
            len == s@.len(),
            0 <= i <= len,
            ws_run_len(s@, 0) == i + ws_run_len(s@, i as int),
            forall|m: int| 0 <= m < i ==> is_ws_char(#[trigger] s@[m]),
        decreases len - i,
    {
        i += 1;
    }
    proof {
        assert(s@.take(len as int) =~= s@);
    }
    let mut j: usize = len;
    while j > 0 && check_ws_char(s.get_char(j - 1))
        invariant
            s.is_ascii(),
            len == s@.len(),
            0 <= j <= len,
            ws_suffix_len(s@) == (len - j) + ws_suffix_len(s@.take(j as int)),
            forall|m: int| j <= m < len ==> is_ws_char(#[trigger] s@[m]),
        decreases j,
    {
        proof {
            let tj = s@.take(j as int);
            assert(tj[tj.len() - 1] == s@[j - 1]);
            assert(tj.drop_last() =~= s@.take(j - 1));
        }
        j -= 1;
    }
    proof {
        if j > 0 {
            let tj = s@.take(j as int);
            assert(tj[tj.len() - 1] == s@[j - 1]);
            assert(ws_suffix_len(tj) == 0);
        }
        if i < len {
            assert(!is_ws_char(s@[i as int]));
            if j <= i {
                assert(is_ws_char(s@[i as int]));
            }
        }
    }
    if i >= len {
        let empty = s.substring_ascii(len, len);
        proof {
            assert(empty@ =~= Seq::<char>::empty());
        }
        (empty, i, len - j)
    } else {
        (s.substring_ascii(i, j), i, len - j)
    }
}

/// Every span of a well-formed sequence after the first begins at or after
/// the first one's end.
proof fn lemma_span_after_first(spans: Seq<(int, int)>, lo: int, hi: int, j: int)
    requires
        spans_wf(spans, lo, hi),
        1 <= j < spans.len(),
    ensures
        spans[0].1 <= spans[j].0,
    decreases j,
{
    if j > 1 {
        lemma_span_after_first(spans, lo, hi, j - 1);
    }
}

/// Interleaving the gaps of well-formed `spans` over `[a, b)` with `spans`
/// itself yields a tiling of `[a, b)`.
proof fn lemma_interleave_tile(spans: Seq<(int, int)>, a: int, b: int)
    requires
        spans_wf(spans, a, b),
        a <= b,
    ensures
        spans_tile(interleave_spans(gap_spans_over(spans, a, b), spans), a, b),
    decreases spans.len(),
{
    let g = gap_spans_over(spans, a, b);
    let full = interleave_spans(g, spans);
    if spans.len() == 0 {
        assert(g =~= seq![(a, b)]);
        assert(g[0] == (a, b));
        assert(g.drop_first() =~= Seq::<(int, int)>::empty());
        assert(full == seq![g[0]] + interleave_spans(spans, g.drop_first()));
        assert(interleave_spans(spans, g.drop_first()) == g.drop_first());
        assert(full =~= seq![(a, b)]);
    } else {
        let rest = spans.drop_first();
        let a2 = spans[0].1;
        assert(spans_wf(rest, a2, b)) by {
            assert forall|j: int|
                0 <= j < rest.len() implies a2 <= (#[trigger] rest[j]).0 < rest[j].1 <= b by {
                assert(rest[j] == spans[j + 1]);
                lemma_span_after_first(spans, a, b, j + 1);
            }
            assert forall|j: int|
                0 <= j < rest.len() - 1 implies (#[trigger] rest[j]).1 <= rest[j + 1].0 by {
                assert(rest[j] == spans[j + 1]);
                assert(rest[j + 1] == spans[j + 2]);
            }
        }
        lemma_interleave_tile(rest, a2, b);
        let tail = interleave_spans(gap_spans_over(rest, a2, b), rest);
        assert(g.drop_first() =~= gap_spans_over(rest, a2, b));
        assert(full == seq![g[0]] + interleave_spans(spans, g.drop_first()));
        assert(interleave_spans(spans, g.drop_first()) == seq![spans[0]] + interleave_spans(
            g.drop_first(),
            rest,
        ));
        assert(interleave_spans(g.drop_first(), rest) == tail);
        assert(full =~= seq![g[0], spans[0]] + tail);
        assert(tail.len() > 0);
        assert(spans_tile(full, a, b)) by {
            assert(full[0] == g[0]);
            assert(full[1] == spans[0]);
            assert(g[0] == (a, spans[0].0));
            assert(full[full.len() - 1] == tail[tail.len() - 1]);
            assert(tail[0].0 == a2) by {
                assert(tail[0] == gap_spans_over(rest, a2, b)[0]);
            }
            assert(full[full.len() - 1].1 == b);
            assert forall|j: int|
                0 <= j < full.len() implies (#[trigger] full[j]).0 <= full[j].1 by {
                if j >= 2 {
                    assert(full[j] == tail[j - 2]);
                    if j - 2 < tail.len() - 1 {
                        assert(tail[j - 2].1 == tail[j - 1].0);
                        assert(tail[j - 2].0 <= tail[j - 2].1);
                    } else {
                        assert(tail[j - 2].0 <= tail[j - 2].1);
                    }
                }
            }
            assert forall|j: int|
                0 <= j < full.len() - 1 implies (#[trigger] full[j]).1 == full[j + 1].0 by {
                if j == 0 {
                } else if j == 1 {
                    assert(full[2] == tail[0]);
                } else {
                    assert(full[j] == tail[j - 2]);
                    assert(full[j + 1] == tail[j - 1]);
                }
            }
        }
    }
}

/// Splitting by a pattern partitions the source: the spans that
/// `exclusive_parse` keeps with empty ends retained, interleaved in order
/// with the spans `inclusive_parse` extracts for the same pattern,
/// reconstruct the original text exactly.
pub proof fn lemma_parse_partition(t: Seq<char>, p: TokenPattern)
    ensures
        concat_spans(t, interleave_spans(exclusive_spans(t, p), match_spans(t, p))) == t,
{
    lemma_match_spans_wf(t, p, 0);
    lemma_interleave_tile(match_spans(t, p), 0, t.len() as int);
    lemma_tiling_concat(
        t,
        interleave_spans(exclusive_spans(t, p), match_spans(t, p)),
        0,
        t.len() as int,
    );
    assert(t.subrange(0, t.len() as int) =~= t);
}

} // verus!
