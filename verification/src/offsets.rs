//! Bidirectional conversion between a flat offset into an ASCII text buffer
//! and a zero-based (line, character) pair.
//!
//! A line start is the first offset of a non-empty text, or any offset short
//! of the end that directly follows a newline; a trailing newline therefore
//! does not open an extra empty line. `position_at` clamps its offset into
//! `[0, len]`, and `offset_at` clamps the line into the available range and
//! the character into the line's span, so both total functions agree on a
//! round trip.

use vstd::prelude::*;
use vstd::string::StrSliceExecFns;
use vstd::string::StringSliceAdditionalSpecFns;

verus! {

broadcast use vstd::string::group_string_axioms;

/// A zero-based (line, character) position in a text buffer.
#[derive(Debug, Clone, Copy, PartialEq, Eq, Structural)]
pub struct Position {
    pub line: u32,
    pub character: u32,
}

/// True when offset `o` begins a line of `t`.
pub open spec fn is_line_start(t: Seq<char>, o: int) -> bool {
    0 <= o < t.len() && (o == 0 || t[o - 1] == '\n')
}

/// Number of line starts of `t` at offsets in `[0, o]`.
pub open spec fn starts_le(t: Seq<char>, o: int) -> nat
    decreases o + 1,
{
    if o < 0 {
        0
    } else {
        starts_le(t, o - 1) + (if is_line_start(t, o) {
            1nat
        } else {
            0nat
        })
    }
}

/// Number of lines of `t`; the empty text has none.
pub open spec fn num_lines(t: Seq<char>) -> nat {
    starts_le(t, t.len() - 1)
}

/// Offset of the first line start of `t` at or after `o` once `l` earlier
/// starts have been skipped, or the text length when no such start exists.
pub open spec fn start_of_line_from(t: Seq<char>, o: int, l: int) -> int
    decreases t.len() - o,
{
    if o < 0 || o >= t.len() {
        t.len() as int
    } else if is_line_start(t, o) {
        if l <= 0 {
            o
        } else {
            start_of_line_from(t, o + 1, l - 1)
        }
    } else {
        start_of_line_from(t, o + 1, l)
    }
}

/// Offset at which line `l` of `t` begins, or the text length when `t` has
/// no line `l`.
pub open spec fn start_of_line(t: Seq<char>, l: int) -> int {
    start_of_line_from(t, 0, l)
}

/// The (line, character) pair that `position_at` assigns to `offset`: the
/// offset is clamped into `[0, len]`, the line is the last one starting at
/// or before it, and the character is the distance from that line's start.
pub open spec fn spec_position_at(t: Seq<char>, offset: int) -> (int, int) {
    let o = if offset > t.len() {
        t.len() as int
    } else {
        offset
    };
    if t.len() == 0 {
        (0, 0)
    } else {
        let l = starts_le(t, o) - 1;
        (l, o - start_of_line(t, l))
    }
}

/// The offset that `offset_at` assigns to a (line, character) pair: the
/// text length when the line is out of range, and otherwise the character
/// clamped into the line's span.
pub open spec fn spec_offset_at(t: Seq<char>, line: int, character: int) -> int {
    if line >= num_lines(t) {
        t.len() as int
    } else {
        let s = start_of_line(t, line);
        let nxt = if line + 1 < num_lines(t) {
            start_of_line(t, line + 1)
        } else {
            t.len() as int
        };
        if s + character > nxt {
            nxt
        } else {
            s + character
        }
    }
}

/// The line index that `line_number` assigns to `pos`: the line of the
/// clamped offset, and line 0 for the empty text.
pub open spec fn spec_line_number(t: Seq<char>, pos: int) -> int {
    spec_position_at(t, pos).0
}

proof fn lemma_starts_le_mono(t: Seq<char>, a: int, b: int)
    requires
        a <= b,
    ensures
        starts_le(t, a) <= starts_le(t, b),
    decreases b - a,
{
    if a < b {
        lemma_starts_le_mono(t, a, b - 1);
    }
}

proof fn lemma_starts_le_clamp(t: Seq<char>, o: int)
    requires
        o >= t.len() - 1,
    ensures
        starts_le(t, o) == num_lines(t),
    decreases o - t.len() + 1,
{
    if o > t.len() - 1 {
        lemma_starts_le_clamp(t, o - 1);
    }
}

proof fn lemma_starts_le_bound(t: Seq<char>, o: int)
    ensures
        o >= -1 ==> starts_le(t, o) <= o + 1,
        starts_le(t, o) <= t.len(),
    decreases o + 1,
{
    if o >= 0 {
        lemma_starts_le_bound(t, o - 1);
    }
    if o >= t.len() {
        lemma_starts_le_clamp(t, o);
        if t.len() > 0 {
            lemma_starts_le_bound(t, t.len() - 1);
        }
    }
}

/// Two distinct line starts are counted differently, so a start is pinned
/// down by its count.
proof fn lemma_start_count_inj(t: Seq<char>, a: int, b: int)
    requires
        is_line_start(t, a),
        is_line_start(t, b),
        starts_le(t, a) == starts_le(t, b),
    ensures
        a == b,
{
    if a < b {
        lemma_starts_le_mono(t, a, b - 1);
        assert(starts_le(t, b) == starts_le(t, b - 1) + 1);
    } else if b < a {
        lemma_starts_le_mono(t, b, a - 1);
        assert(starts_le(t, a) == starts_le(t, a - 1) + 1);
    }
}

/// A growth of the count over `(a, b]` pins a line start inside `(a, b]`.
proof fn lemma_start_between(t: Seq<char>, a: int, b: int) -> (x: int)
    requires
        a <= b,
        starts_le(t, a) < starts_le(t, b),
    ensures
        a < x <= b,
        is_line_start(t, x),
    decreases b - a,
{
    if is_line_start(t, b) && starts_le(t, a) == starts_le(t, b) - 1 {
        b
    } else {
        if is_line_start(t, b) {
            lemma_start_between(t, a, b - 1)
        } else {
            lemma_start_between(t, a, b - 1)
        }
    }
}

/// What the scan underlying `start_of_line_from` returns: either the text
/// length, or a line start whose count exceeds the count before `o` by
/// `l + 1`.
proof fn lemma_start_of_line_from(t: Seq<char>, o: int, l: int)
    requires
        0 <= o <= t.len(),
        0 <= l,
    ensures
        ({
            let s = start_of_line_from(t, o, l);
            s == t.len() || (o <= s < t.len() && is_line_start(t, s) && starts_le(t, s)
                == starts_le(t, o - 1) + l + 1)
        }),
    decreases t.len() - o,
{
    if o < t.len() {
        if is_line_start(t, o) {
            if l > 0 {
                lemma_start_of_line_from(t, o + 1, l - 1);
            }
        } else {
            lemma_start_of_line_from(t, o + 1, l);
        }
    }
}

/// When line `l` exists the scan finds it: the result is a proper offset,
/// not the text length.
proof fn lemma_start_of_line_from_exists(t: Seq<char>, o: int, l: int)
    requires
        0 <= o <= t.len(),
        0 <= l,
        starts_le(t, o - 1) + l + 1 <= num_lines(t),
    ensures
        start_of_line_from(t, o, l) < t.len(),
    decreases t.len() - o,
{
    if o >= t.len() {
        lemma_starts_le_clamp(t, o - 1);
    } else {
        if is_line_start(t, o) {
            if l > 0 {
                lemma_start_of_line_from_exists(t, o + 1, l - 1);
            }
        } else {
            lemma_start_of_line_from_exists(t, o + 1, l);
        }
    }
}

/// Line `l` of `t`, when it exists, begins at a line start counted `l + 1`.
proof fn lemma_start_of_line(t: Seq<char>, l: int)
    requires
        0 <= l < num_lines(t),
    ensures
        ({
            let s = start_of_line(t, l);
            0 <= s < t.len() && is_line_start(t, s) && starts_le(t, s) == l + 1
        }),
{
    lemma_start_of_line_from(t, 0, l);
    lemma_start_of_line_from_exists(t, 0, l);
}

/// The start of the line containing a clamped offset `o` lies at or before
/// `o`, and the next line (when there is one) begins strictly after `o`.
proof fn lemma_line_of_offset(t: Seq<char>, o: int)
    requires
        t.len() > 0,
        0 <= o <= t.len(),
    ensures
        1 <= starts_le(t, o) <= num_lines(t),
        ({
            let l = starts_le(t, o) - 1;
            let s = start_of_line(t, l);
            s <= o && is_line_start(t, s) && starts_le(t, s) == l + 1 && (l + 1 < num_lines(t)
                ==> start_of_line(t, l + 1) > o)
        }),
{
    assert(is_line_start(t, 0));
    lemma_starts_le_mono(t, 0, o);
    if o >= t.len() - 1 {
        lemma_starts_le_clamp(t, o);
    } else {
        lemma_starts_le_mono(t, o, t.len() - 1);
    }
    let l = starts_le(t, o) - 1;
    lemma_start_of_line(t, l);
    let s = start_of_line(t, l);
    if s > o {
        lemma_starts_le_mono(t, o, s - 1);
        assert(starts_le(t, s) == starts_le(t, s - 1) + 1);
    }
    if l + 1 < num_lines(t) {
        lemma_start_of_line(t, l + 1);
        let s2 = start_of_line(t, l + 1);
        if s2 <= o {
            lemma_starts_le_mono(t, s2, o);
        }
    }
}

/// Mapping an in-range offset to a position and back returns the same
/// offset.
pub proof fn lemma_position_offset_round_trip(t: Seq<char>, o: int)
    requires
        0 <= o <= t.len(),
    ensures
        ({
            let (line, character) = spec_position_at(t, o);
            spec_offset_at(t, line, character) == o
        }),
{
    if t.len() == 0 {
        assert(num_lines(t) == 0);
    } else {
        lemma_line_of_offset(t, o);
    }
}

/// Offsets of every line start of `text`, in increasing order.
fn line_offsets(text: &str) -> (r: Vec<usize>)
    requires
        text.is_ascii(),
    ensures
        r@.len() == num_lines(text@),
        forall|j: int|
            0 <= j < r@.len() ==> is_line_start(text@, #[trigger] r@[j] as int) && starts_le(
                text@,
                r@[j] as int,
            ) == j + 1,
        forall|j: int, k: int| 0 <= j < k < r@.len() ==> r@[j] < r@[k],
        text@.len() > 0 ==> r@.len() > 0 && r@[0] == 0,
{
    let bytes = text.as_bytes_vec();
    let len = bytes.len();
    let mut r: Vec<usize> = Vec::new();
    let mut i: usize = 0;
    while i < len
        invariant
            text.is_ascii(),
            bytes@ == text.spec_bytes(),
            bytes@.len() == text@.len(),
            len == bytes@.len(),
            0 <= i <= len,
            r@.len() == starts_le(text@, i - 1),
            forall|j: int|
                0 <= j < r@.len() ==> is_line_start(text@, #[trigger] r@[j] as int) && starts_le(
                    text@,
                    r@[j] as int,
                ) == j + 1,
            forall|j: int| 0 <= j < r@.len() ==> r@[j] < i,
            forall|j: int, k: int| 0 <= j < k < r@.len() ==> r@[j] < r@[k],
            text@.len() > 0 && i > 0 ==> r@.len() > 0 && r@[0] == 0,
        decreases len - i,
    {
        if i == 0 || bytes[i - 1] == 10 {
            assert(is_line_start(text@, i as int));
            r.push(i);
        } else {
            assert(!is_line_start(text@, i as int));
        }
        i += 1;
    }
    proof {
        if text@.len() > 0 {
            lemma_starts_le_clamp(t_view(text), len as int - 1);
        }
    }
    r
}

/// View helper so proof blocks can name the text's character sequence.
spec fn t_view(text: &str) -> Seq<char> {
    text@
}

/// Converts a flat offset into a (line, character) position, clamping the
/// offset into `[0, len]`.
pub fn position_at(text: &str, offset: usize) -> (p: Position)
    requires
        text.is_ascii(),
        text@.len() <= u32::MAX,
    ensures
        (p.line as int, p.character as int) == spec_position_at(text@, offset as int),
{
    proof {
        assert(text.spec_bytes().len() == text@.len());
    }
    let len = text.len();
    let o = if offset < len {
        offset
    } else {
        len
    };
    let lo = line_offsets(text);
    if lo.len() == 0 {
        return Position { line: 0, character: o as u32 };
    }
    let ghost t = text@;
    let mut low: usize = 0;
    let mut high: usize = lo.len();
    while low < high
        invariant
            0 <= low <= high <= lo@.len(),
            o <= t.len() <= u32::MAX,
            forall|j: int, k: int| 0 <= j < k < lo@.len() ==> lo@[j] < lo@[k],
            forall|j: int| 0 <= j < lo@.len() ==> is_line_start(t, #[trigger] lo@[j] as int),
            forall|j: int| 0 <= j < low ==> lo@[j] <= o,
            forall|j: int| high <= j < lo@.len() ==> lo@[j] > o,
        decreases high - low,
    {
        let mid = low + (high - low) / 2;
        if lo[mid] > o {
            assert(forall|j: int|
                mid <= j < lo@.len() ==> lo@[j] >= lo@[mid as int]);
            high = mid;
        } else {
            assert(forall|j: int| 0 <= j < mid ==> lo@[j] <= lo@[mid as int]);
            low = mid + 1;
        }
    }
    assert(low >= 1) by {
        if low == 0 {
            assert(lo@[0] > o);
        }
    }
    let line = low - 1;
    proof {
        lemma_line_of_offset(t, o as int);
        // the scanned vector holds the very start the spec speaks of
        assert(starts_le(t, o as int) == low) by {
            let c = starts_le(t, o as int);
            lemma_starts_le_mono(t, lo@[line as int] as int, o as int);
            if c > low {
                let x = lemma_start_between(t, lo@[line as int] as int, o as int);
                lemma_starts_le_mono(t, x, o as int);
                if o as int <= t.len() - 1 {
                    lemma_starts_le_mono(t, o as int, t.len() - 1);
                } else {
                    lemma_starts_le_clamp(t, o as int);
                }
                let k = starts_le(t, x) - 1;
                lemma_starts_le_mono(t, x, o as int);
                assert(0 <= k < lo@.len());
                lemma_start_count_inj(t, lo@[k] as int, x);
                assert(lo@[k] == x);
                assert(k >= low ==> lo@[k] > o);
                assert(forall|j: int, kk: int|
                    0 <= j < kk < lo@.len() ==> lo@[j] < lo@[kk]);
                if k < line {
                    assert(lo@[k] < lo@[line as int]);
                }
            }
        }
        lemma_start_count_inj(t, lo@[line as int] as int, start_of_line(t, line as int));
        lemma_starts_le_bound(t, t.len() - 1);
        assert(line < num_lines(t));
    }
    Position { line: line as u32, character: (o - lo[line]) as u32 }
}

/// Converts a (line, character) position into a flat offset, clamping the
/// line into the available range and the character into the line's span.
pub fn offset_at(text: &str, position: &Position) -> (r: usize)
    requires
        text.is_ascii(),
        text@.len() <= usize::MAX,
    ensures
        r as int == spec_offset_at(text@, position.line as int, position.character as int),
        r <= text@.len(),
{
    proof {
        assert(text.spec_bytes().len() == text@.len());
    }
    let len = text.len();
    let lo = line_offsets(text);
    let ghost t = text@;
    let line = position.line as usize;
    if line >= lo.len() {
        return len;
    }
    assert(is_line_start(t, lo@[line as int] as int));
    assert(line + 1 < lo@.len() ==> lo@[line as int] < lo@[line as int + 1]);
    proof {
        lemma_start_of_line(t, line as int);
        lemma_start_count_inj(t, lo@[line as int] as int, start_of_line(t, line as int));
        if line as int + 1 < num_lines(t) {
            lemma_start_of_line(t, line as int + 1);
            lemma_start_count_inj(
                t,
                lo@[line as int + 1] as int,
                start_of_line(t, line as int + 1),
            );
        }
    }
    let line_offset = lo[line];
    let next_line_offset = if line + 1 < lo.len() {
        lo[line + 1]
    } else {
        len
    };
    let character = position.character as usize;
    if character > next_line_offset - line_offset {
        next_line_offset
    } else {
        line_offset + character
    }
}

/// Line index of the line containing the clamped offset `pos`.
pub fn line_number(text: &str, pos: usize) -> (r: usize)
    requires
        text.is_ascii(),
        text@.len() <= u32::MAX,
    ensures
        r as int == spec_line_number(text@, pos as int),
{
    let p = position_at(text, pos);
    p.line as usize
}

} // verus!
