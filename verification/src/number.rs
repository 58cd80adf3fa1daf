//! Canonicalizes numeric literal tokens (hex, binary, scientific decimal,
//! plain decimal) into a fixed-width 256-bit unsigned integer, with exact
//! decimal-digit expansion for scientific notation rather than floating
//! point rounding.

use vstd::prelude::*;
use vstd::arithmetic::div_mod::lemma_fundamental_div_mod;
use vstd::arithmetic::power::pow;
use vstd::string::StrSliceExecFns;
use crate::error::Error;
use crate::patterns::{
    is_digit_char, is_bin_digit_char, is_hex_digit_char, is_binary_literal, is_hex_literal,
    is_integer_literal, is_sci_literal, check_binary_literal, check_hex_literal,
    check_integer_literal, check_sci_literal, check_digit_char, check_bin_digit_char,
    check_hex_digit_char,
};

verus! {

/// The base one limb contributes: two to the sixty-fourth.
pub open spec fn limb_base() -> int {
    0x10000000000000000int
}

/// The first value that does not fit 256 bits: two to the 256th.
pub open spec fn uint256_bound() -> int {
    0x10000000000000000000000000000000000000000000000000000000000000000int
}

/// A 256-bit unsigned integer as four 64-bit limbs, least significant
/// first.
#[derive(Debug, Clone, Copy, PartialEq, Eq, Structural)]
pub struct Uint256 {
    pub limb0: u64,
    pub limb1: u64,
    pub limb2: u64,
    pub limb3: u64,
}

impl Uint256 {
    /// The integer a value stands for.
    pub open spec fn value(self) -> int {
        self.limb0 + 0x10000000000000000int * self.limb1
            + 0x100000000000000000000000000000000int * self.limb2
            + 0x1000000000000000000000000000000000000000000000000int * self.limb3
    }

    /// The zero value.
    pub fn zero() -> (r: Uint256)
        ensures
            r.value() == 0,
    {
        Uint256 { limb0: 0, limb1: 0, limb2: 0, limb3: 0 }
    }

    /// Embeds a 64-bit value.
    pub fn from_u64(x: u64) -> (r: Uint256)
        ensures
            r.value() == x,
    {
        Uint256 { limb0: x, limb1: 0, limb2: 0, limb3: 0 }
    }

    /// Computes `self * m + a`, or reports that the result does not fit
    /// 256 bits.
    pub fn mul_add(self, m: u64, a: u64) -> (r: Option<Uint256>)
        ensures
            match r {
                Some(v) => v.value() == self.value() * m + a && 0 <= v.value() < uint256_bound(),
                None => self.value() * m + a >= uint256_bound(),
            },
    {
        let b: u128 = 0x10000000000000000;
        proof {
            assert((self.limb0 as int) * (m as int) <= 0xfffffffffffffffe0000000000000001) by (nonlinear_arith)
                requires
                    self.limb0 <= 0xffffffffffffffff,
                    m <= 0xffffffffffffffff,
            ;
            assert((self.limb1 as int) * (m as int) <= 0xfffffffffffffffe0000000000000001) by (nonlinear_arith)
                requires
                    self.limb1 <= 0xffffffffffffffff,
                    m <= 0xffffffffffffffff,
            ;
            assert((self.limb2 as int) * (m as int) <= 0xfffffffffffffffe0000000000000001) by (nonlinear_arith)
                requires
                    self.limb2 <= 0xffffffffffffffff,
                    m <= 0xffffffffffffffff,
            ;
            assert((self.limb3 as int) * (m as int) <= 0xfffffffffffffffe0000000000000001) by (nonlinear_arith)
                requires
                    self.limb3 <= 0xffffffffffffffff,
                    m <= 0xffffffffffffffff,
            ;
        }
        let t0: u128 = (self.limb0 as u128) * (m as u128) + (a as u128);
        let r0: u64 = (t0 % b) as u64;
        let c0: u64 = (t0 / b) as u64;
        let t1: u128 = (self.limb1 as u128) * (m as u128) + (c0 as u128);
        let r1: u64 = (t1 % b) as u64;
        let c1: u64 = (t1 / b) as u64;
        let t2: u128 = (self.limb2 as u128) * (m as u128) + (c1 as u128);
        let r2: u64 = (t2 % b) as u64;
        let c2: u64 = (t2 / b) as u64;
        let t3: u128 = (self.limb3 as u128) * (m as u128) + (c2 as u128);
        let r3: u64 = (t3 % b) as u64;
        let c3: u64 = (t3 / b) as u64;
        proof {
            lemma_fundamental_div_mod(t0 as int, b as int);
            lemma_fundamental_div_mod(t1 as int, b as int);
            lemma_fundamental_div_mod(t2 as int, b as int);
            lemma_fundamental_div_mod(t3 as int, b as int);
            assert(r0 + 0x10000000000000000int * r1 + 0x100000000000000000000000000000000int * r2
                + 0x1000000000000000000000000000000000000000000000000int * r3
                + 0x10000000000000000000000000000000000000000000000000000000000000000int * c3 == (
            self.limb0 + 0x10000000000000000int * self.limb1
                + 0x100000000000000000000000000000000int * self.limb2
                + 0x1000000000000000000000000000000000000000000000000int * self.limb3) * m
                + a) by (nonlinear_arith)
                requires
                    t0 == (self.limb0 as int) * (m as int) + a,
                    t0 == 0x10000000000000000int * (c0 as int) + r0,
                    t1 == (self.limb1 as int) * (m as int) + c0,
                    t1 == 0x10000000000000000int * (c1 as int) + r1,
                    t2 == (self.limb2 as int) * (m as int) + c1,
                    t2 == 0x10000000000000000int * (c2 as int) + r2,
                    t3 == (self.limb3 as int) * (m as int) + c2,
                    t3 == 0x10000000000000000int * (c3 as int) + r3,
            ;
        }
        if c3 != 0 {
            None
        } else {
            Some(Uint256 { limb0: r0, limb1: r1, limb2: r2, limb3: r3 })
        }
    }
}

/// Numeric value of one digit character in any base up to 16.
pub open spec fn digit_val(c: char) -> int {
    if '0' <= c <= '9' {
        c as int - '0' as int
    } else if 'a' <= c <= 'f' {
        c as int - 'a' as int + 10
    } else if 'A' <= c <= 'F' {
        c as int - 'A' as int + 10
    } else {
        0
    }
}

/// Value of a digit string read in the given base, most significant digit
/// first.
pub open spec fn digits_val(s: Seq<char>, base: int) -> int
    decreases s.len(),
{
    if s.len() == 0 {
        0
    } else {
        digits_val(s.drop_last(), base) * base + digit_val(s.last())
    }
}

proof fn lemma_digits_val_nonneg(s: Seq<char>, base: int)
    requires
        base >= 1,
        forall|i: int| 0 <= i < s.len() ==> digit_val(#[trigger] s[i]) >= 0,
    ensures
        digits_val(s, base) >= 0,
    decreases s.len(),
{
    if s.len() > 0 {
        lemma_digits_val_nonneg(s.drop_last(), base);
        assert(digits_val(s.drop_last(), base) * base >= 0) by (nonlinear_arith)
            requires
                digits_val(s.drop_last(), base) >= 0,
                base >= 1,
        ;
        assert(digit_val(s.last()) >= 0);
    }
}

/// Reading more digits never shrinks the value.
proof fn lemma_digits_val_prefix(s: Seq<char>, base: int, i: int)
    requires
        base >= 1,
        0 <= i <= s.len(),
        forall|j: int| 0 <= j < s.len() ==> digit_val(#[trigger] s[j]) >= 0,
    ensures
        digits_val(s.take(i), base) <= digits_val(s, base),
    decreases s.len(),
{
    if i == s.len() {
        assert(s.take(i) =~= s);
    } else {
        let head = s.drop_last();
        assert(forall|j: int| 0 <= j < head.len() ==> digit_val(#[trigger] head[j]) >= 0);
        lemma_digits_val_prefix(head, base, i);
        assert(head.take(i) =~= s.take(i));
        lemma_digits_val_nonneg(head, base);
        assert(digits_val(head, base) * base >= digits_val(head, base)) by (nonlinear_arith)
            requires
                digits_val(head, base) >= 0,
                base >= 1,
        ;
    }
}

/// Converts one digit character to its numeric value.
fn digit_of(c: char) -> (d: u8)
    requires
        is_hex_digit_char(c),
    ensures
        d as int == digit_val(c),
        d < 16,
{
    if '0' <= c && c <= '9' {
        ((c as u32) - 48) as u8
    } else if 'a' <= c && c <= 'f' {
        ((c as u32) - 97 + 10) as u8
    } else {
        ((c as u32) - 65 + 10) as u8
    }
}

/// Accumulates the digit run `s[from..to]` in the given base into a
/// 256-bit value, or reports overflow.
fn parse_digits(s: &str, from: usize, to: usize, base: u64) -> (r: Result<Uint256, Error>)
    requires
        s.is_ascii(),
        from < to <= s@.len(),
        2 <= base <= 16,
        forall|m: int|
            from <= m < to ==> is_hex_digit_char(#[trigger] s@[m]) && digit_val(s@[m]) < base,
    ensures
        match r {
            Ok(v) => 0 <= v.value() < uint256_bound() && v.value() == digits_val(
                s@.subrange(from as int, to as int),
                base as int,
            ),
            Err(e) => e == Error::NumberOverflow && digits_val(
                s@.subrange(from as int, to as int),
                base as int,
            ) >= uint256_bound(),
        },
{
    let ghost full = s@.subrange(from as int, to as int);
    let mut v = Uint256::zero();
    let mut i = from;
    while i < to
        invariant
            s.is_ascii(),
            from <= i <= to <= s@.len(),
            2 <= base <= 16,
            full == s@.subrange(from as int, to as int),
            forall|m: int|
                from <= m < to ==> is_hex_digit_char(#[trigger] s@[m]) && digit_val(s@[m]) < base,
            0 <= v.value() < uint256_bound(),
            v.value() == digits_val(s@.subrange(from as int, i as int), base as int),
        decreases to - i,
    {
        let c = s.get_char(i);
        let d = digit_of(c);
        let ghost pre = s@.subrange(from as int, i as int);
        let ghost ext = s@.subrange(from as int, i + 1);
        proof {
            assert(ext.drop_last() =~= pre);
            assert(ext.last() == s@[i as int]);
        }
        match v.mul_add(base, d as u64) {
            Some(next) => {
                v = next;
            },
            None => {
                proof {
                    assert(digits_val(ext, base as int) >= uint256_bound());
                    assert(ext =~= full.take(i + 1 - from));
                    assert(forall|j: int|
                        0 <= j < full.len() ==> digit_val(#[trigger] full[j]) >= 0);
                    lemma_digits_val_prefix(full, base as int, i + 1 - from);
                }
                return Err(Error::NumberOverflow);
            },
        }
        i += 1;
    }
    Ok(v)
}

/// The digit run of a prefixed literal: the text after `0x`/`0b` when the
/// prefix with the given tag is there, the whole text otherwise.
pub open spec fn strip_prefix(s: Seq<char>, tag: char) -> Seq<char> {
    if s.len() >= 2 && s[0] == '0' && s[1] == tag {
        s.skip(2)
    } else {
        s
    }
}

/// Every character is a hex digit.
pub open spec fn all_hex_digits(s: Seq<char>) -> bool {
    forall|i: int| 0 <= i < s.len() ==> is_hex_digit_char(#[trigger] s[i])
}

/// Every character is a binary digit.
pub open spec fn all_bin_digits(s: Seq<char>) -> bool {
    forall|i: int| 0 <= i < s.len() ==> is_bin_digit_char(#[trigger] s[i])
}

/// Parses a hex digit string, with or without its `0x` prefix, as a
/// 256-bit value.
pub fn hex_to_u256(val: &str) -> (r: Result<Uint256, Error>)
    requires
        val.is_ascii(),
    ensures
        match r {
            Ok(v) => {
                &&& strip_prefix(val@, 'x').len() > 0
                &&& all_hex_digits(strip_prefix(val@, 'x'))
                &&& 0 <= v.value() < uint256_bound()
                &&& v.value() == digits_val(strip_prefix(val@, 'x'), 16)
            },
            Err(e) => {
                &&& (e == Error::InvalidNumber || e == Error::NumberOverflow)
                &&& e == Error::InvalidNumber ==> !(strip_prefix(val@, 'x').len() > 0
                    && all_hex_digits(strip_prefix(val@, 'x')))
                &&& e == Error::NumberOverflow ==> strip_prefix(val@, 'x').len() > 0
                    && all_hex_digits(strip_prefix(val@, 'x')) && digits_val(
                    strip_prefix(val@, 'x'),
                    16,
                ) >= uint256_bound()
            },
        },
{
    let len = val.unicode_len();
    let from: usize = if len >= 2 && val.get_char(0) == '0' && val.get_char(1) == 'x' {
        2
    } else {
        0
    };
    let ghost ds = strip_prefix(val@, 'x');
    proof {
        assert(ds =~= val@.subrange(from as int, len as int));
    }
    if from >= len {
        return Err(Error::InvalidNumber);
    }
    let mut i = from;
    while i < len
        invariant
            val.is_ascii(),
            from <= i <= len,
            len == val@.len(),
            ds == strip_prefix(val@, 'x'),
            ds == val@.subrange(from as int, len as int),
            forall|m: int| from <= m < i ==> is_hex_digit_char(#[trigger] val@[m]),
        decreases len - i,
    {
        if !check_hex_digit_char(val.get_char(i)) {
            proof {
                assert(ds[i - from] == val@[i as int]);
                assert(!is_hex_digit_char(ds[i - from]));
                assert(!all_hex_digits(ds));
            }
            return Err(Error::InvalidNumber);
        }
        i += 1;
    }
    proof {
        assert(forall|m: int|
            from <= m < len ==> is_hex_digit_char(#[trigger] val@[m]) && digit_val(val@[m]) < 16);
        assert(all_hex_digits(ds)) by {
            assert(forall|j: int| 0 <= j < ds.len() ==> ds[j] == val@[j + from]);
        }
    }
    parse_digits(val, from, len, 16)
}

/// Parses a binary digit string, with or without its `0b` prefix, as a
/// 256-bit value.
pub fn binary_to_u256(value: &str) -> (r: Result<Uint256, Error>)
    requires
        value.is_ascii(),
    ensures
        match r {
            Ok(v) => {
                &&& strip_prefix(value@, 'b').len() > 0
                &&& all_bin_digits(strip_prefix(value@, 'b'))
                &&& 0 <= v.value() < uint256_bound()
                &&& v.value() == digits_val(strip_prefix(value@, 'b'), 2)
            },
            Err(e) => {
                &&& (e == Error::InvalidNumber || e == Error::NumberOverflow)
                &&& e == Error::InvalidNumber ==> !(strip_prefix(value@, 'b').len() > 0
                    && all_bin_digits(strip_prefix(value@, 'b')))
                &&& e == Error::NumberOverflow ==> strip_prefix(value@, 'b').len() > 0
                    && all_bin_digits(strip_prefix(value@, 'b')) && digits_val(
                    strip_prefix(value@, 'b'),
                    2,
                ) >= uint256_bound()
            },
        },
{
    let len = value.unicode_len();
    let from: usize = if len >= 2 && value.get_char(0) == '0' && value.get_char(1) == 'b' {
        2
    } else {
        0
    };
    let ghost ds = strip_prefix(value@, 'b');
    proof {
        assert(ds =~= value@.subrange(from as int, len as int));
    }
    if from >= len {
        return Err(Error::InvalidNumber);
    }
    let mut i = from;
    while i < len
        invariant
            value.is_ascii(),
            from <= i <= len,
            len == value@.len(),
            ds == strip_prefix(value@, 'b'),
            ds == value@.subrange(from as int, len as int),
            forall|m: int| from <= m < i ==> is_bin_digit_char(#[trigger] value@[m]),
        decreases len - i,
    {
        if !check_bin_digit_char(value.get_char(i)) {
            proof {
                assert(ds[i - from] == value@[i as int]);
                assert(!is_bin_digit_char(ds[i - from]));
                assert(!all_bin_digits(ds));
            }
            return Err(Error::InvalidNumber);
        }
        i += 1;
    }
    proof {
        assert(forall|m: int|
            from <= m < len ==> is_hex_digit_char(#[trigger] value@[m]) && digit_val(value@[m])
                < 2);
        assert(all_bin_digits(ds)) by {
            assert(forall|j: int| 0 <= j < ds.len() ==> ds[j] == value@[j + from]);
        }
    }
    parse_digits(value, from, len, 2)
}

/// Index of the first `e` in `s`, or the length when there is none.
pub open spec fn first_e_index(s: Seq<char>) -> int
    decreases s.len(),
{
    if s.len() == 0 {
        0
    } else if s[0] == 'e' {
        0
    } else {
        1 + first_e_index(s.drop_first())
    }
}

/// Value of a scientific literal: the mantissa digits followed by as many
/// zero digits as the exponent names, as exact decimal expansion.
pub open spec fn sci_value(s: Seq<char>) -> int {
    let k = first_e_index(s);
    digits_val(s.take(k), 10) * pow(10, digits_val(s.skip(k + 1), 10) as nat)
}

proof fn lemma_first_e(s: Seq<char>, k: int)
    requires
        0 <= k < s.len(),
        s[k] == 'e',
        forall|j: int| 0 <= j < k ==> s[j] != 'e',
    ensures
        first_e_index(s) == k,
    decreases k,
{
    if k > 0 {
        let rest = s.drop_first();
        assert(forall|j: int| 0 <= j < k - 1 ==> #[trigger] rest[j] == s[j + 1]);
        lemma_first_e(rest, k - 1);
    }
}

proof fn lemma_pow2_256()
    ensures
        pow(2, 256) == uint256_bound(),
{
    vstd::arithmetic::power2::lemma2_to64();
    vstd::arithmetic::power2::lemma_pow2(64);
    assert(pow(2, 64) == 0x10000000000000000int);
    vstd::arithmetic::power::lemma_pow_adds(2, 64, 64);
    assert(pow(2, 128) == 0x100000000000000000000000000000000int);
    vstd::arithmetic::power::lemma_pow_adds(2, 128, 128);
}

proof fn lemma_pow10_ge_pow2(e: nat)
    ensures
        pow(10, e) >= pow(2, e),
        pow(10, e) >= 1,
    decreases e,
{
    if e == 0 {
        vstd::arithmetic::power::lemma_pow0(10);
        vstd::arithmetic::power::lemma_pow0(2);
    } else {
        lemma_pow10_ge_pow2((e - 1) as nat);
        vstd::arithmetic::power::lemma_pow_positive(2, (e - 1) as nat);
        assert(pow(10, e) == 10 * pow(10, (e - 1) as nat)) by {
            reveal(pow);
        }
        assert(pow(2, e) == 2 * pow(2, (e - 1) as nat)) by {
            reveal(pow);
        }
        assert(10 * pow(10, (e - 1) as nat) >= 2 * pow(2, (e - 1) as nat)) by (nonlinear_arith)
            requires
                pow(10, (e - 1) as nat) >= pow(2, (e - 1) as nat),
                pow(2, (e - 1) as nat) >= 1,
        ;
    }
}

/// A 256-bit value times ten to an exponent of at least 256 does not fit
/// 256 bits, whenever the value is at least one.
proof fn lemma_big_exponent_overflows(m: int, e: int)
    requires
        m >= 1,
        e >= 256,
    ensures
        m * pow(10, e as nat) >= uint256_bound(),
{
    lemma_pow2_256();
    lemma_pow10_ge_pow2(256);
    if e > 256 {
        vstd::arithmetic::power::lemma_pow_increases(10, 256, e as nat);
    }
    assert(m * pow(10, e as nat) >= pow(10, e as nat)) by (nonlinear_arith)
        requires
            m >= 1,
            pow(10, e as nat) >= 1,
    ;
}

/// Parses a scientific literal (`<digits>e<digits>`) as a 256-bit value by
/// exact decimal expansion.
pub fn e_to_u256(value: &str) -> (r: Result<Uint256, Error>)
    requires
        value.is_ascii(),
    ensures
        match r {
            Ok(v) => {
                &&& is_sci_literal(value@)
                &&& 0 <= v.value() < uint256_bound()
                &&& v.value() == sci_value(value@)
            },
            Err(e) => {
                &&& (e == Error::InvalidNumber || e == Error::NumberOverflow)
                &&& e == Error::InvalidNumber ==> !is_sci_literal(value@)
                &&& e == Error::NumberOverflow ==> is_sci_literal(value@) && sci_value(value@)
                    >= uint256_bound()
            },
        },
{
    let len = value.unicode_len();
    let k = match check_sci_literal(value) {
        Some(k) => k,
        None => {
            return Err(Error::InvalidNumber);
        },
    };
    proof {
        assert(forall|j: int| 0 <= j < k ==> is_digit_char(#[trigger] value@.subrange(0, k as int)[j]));
        assert forall|j: int| 0 <= j < k implies value@[j] != 'e' by {
            assert(is_digit_char(value@.subrange(0, k as int)[j]));
        }
        lemma_first_e(value@, k as int);
        assert forall|m: int| 0 <= m < k implies is_hex_digit_char(#[trigger] value@[m])
            && digit_val(value@[m]) < 10 by {
            assert(is_digit_char(value@.subrange(0, k as int)[m]));
        }
        assert(value@.take(k as int) == value@.subrange(0, k as int));
    }
    let m = match parse_digits(value, 0, k, 10) {
        Ok(m) => m,
        Err(_) => {
            proof {
                let mv = digits_val(value@.take(k as int), 10);
                let ev = digits_val(value@.skip(k + 1), 10);
                assert forall|j: int| 0 <= j < value@.skip(k + 1).len() implies digit_val(
                    #[trigger] value@.skip(k + 1)[j],
                ) >= 0 by {}
                lemma_digits_val_nonneg(value@.skip(k + 1), 10);
                vstd::arithmetic::power::lemma_pow_positive(10, ev as nat);
                assert(mv * pow(10, ev as nat) >= mv) by (nonlinear_arith)
                    requires
                        mv >= uint256_bound(),
                        pow(10, ev as nat) >= 1,
                ;
            }
            return Err(Error::NumberOverflow);
        },
    };
    let ghost mv = digits_val(value@.take(k as int), 10);
    let ghost exp_digits = value@.subrange(k + 1, len as int);
    let ghost ev = digits_val(exp_digits, 10);
    proof {
        assert(exp_digits == value@.skip(k + 1));
        assert forall|j: int| 0 <= j < exp_digits.len() implies is_digit_char(
            #[trigger] exp_digits[j],
        ) by {
            assert(is_integer_literal(value@.subrange(k + 1, value@.len() as int)));
        }
        lemma_digits_val_nonneg(exp_digits, 10);
    }
    if m.limb0 == 0 && m.limb1 == 0 && m.limb2 == 0 && m.limb3 == 0 {
        // zero stays zero under any number of appended zero digits
        proof {
            assert(0 * pow(10, ev as nat) == 0) by (nonlinear_arith);
        }
        return Ok(Uint256::zero());
    }
    // read the exponent, capping once it is already far beyond overflow
    let mut e_acc: u64 = 0;
    let mut big = false;
    let mut i = k + 1;
    while i < len
        invariant
            value.is_ascii(),
            k + 1 <= i <= len,
            len == value@.len(),
            exp_digits == value@.subrange(k + 1, len as int),
            forall|j: int| 0 <= j < exp_digits.len() ==> is_digit_char(#[trigger] exp_digits[j]),
            !big ==> e_acc <= 5129 && e_acc == digits_val(
                value@.subrange(k + 1, i as int),
                10,
            ),
            big ==> digits_val(value@.subrange(k + 1, i as int), 10) > 512,
        decreases len - i,
    {
        if big {
            proof {
                let pre = value@.subrange(k + 1, i as int);
                let ext = value@.subrange(k + 1, i + 1);
                assert(ext.drop_last() =~= pre);
                assert(ext.last() == value@[i as int]);
                assert(ext.last() == exp_digits[i - k - 1]);
                lemma_digits_val_nonneg(pre, 10);
                assert(digits_val(pre, 10) * 10 > 5120) by (nonlinear_arith)
                    requires
                        digits_val(pre, 10) > 512,
                ;
            }
            i += 1;
            continue ;
        }
        let c = value.get_char(i);
        proof {
            assert(exp_digits[i - k - 1] == value@[i as int]);
            assert(is_digit_char(value@[i as int]));
        }
        let d = digit_of(c);
        proof {
            let pre = value@.subrange(k + 1, i as int);
            let ext = value@.subrange(k + 1, i + 1);
            assert(ext.drop_last() =~= pre);
            assert(ext.last() == value@[i as int]);
        }
        if e_acc > 512 {
            big = true;
            proof {
                let pre = value@.subrange(k + 1, i as int);
                assert(digits_val(pre, 10) * 10 >= 5130) by (nonlinear_arith)
                    requires
                        digits_val(pre, 10) >= 513,
                ;
                assert(digit_val(value@[i as int]) >= 0);
            }
        } else {
            e_acc = e_acc * 10 + (d as u64);
        }
        i += 1;
    }
    proof {
        assert(value@.subrange(k + 1, len as int) == exp_digits);
    }
    if big {
        proof {
            assert(ev > 512);
            lemma_big_exponent_overflows(m.value(), ev);
        }
        return Err(Error::NumberOverflow);
    }
    // multiply the mantissa by ten, exponent many times
    let ghost e = e_acc as int;
    let mut v = m;
    let mut j: u64 = 0;
    proof {
        vstd::arithmetic::power::lemma_pow0(10);
        assert(mv * 1 == mv) by (nonlinear_arith);
    }
    while j < e_acc
        invariant
            0 <= j <= e_acc,
            e == e_acc as int,
            ev == e,
            mv == m.value(),
            is_sci_literal(value@),
            first_e_index(value@) == k as int,
            mv == digits_val(value@.take(k as int), 10),
            ev == digits_val(value@.skip(k + 1), 10),
            1 <= m.value() < uint256_bound(),
            0 <= v.value() < uint256_bound(),
            v.value() == mv * pow(10, j as nat),
        decreases e_acc - j,
    {
        match v.mul_add(10, 0) {
            Some(next) => {
                proof {
                    vstd::arithmetic::power::lemma_pow_adds(10, j as nat, 1);
                    vstd::arithmetic::power::lemma_pow1(10);
                    assert(mv * pow(10, (j + 1) as nat) == (mv * pow(10, j as nat)) * 10)
                        by (nonlinear_arith)
                        requires
                            pow(10, (j + 1) as nat) == pow(10, j as nat) * pow(10, 1),
                            pow(10, 1) == 10,
                    ;
                }
                v = next;
            },
            None => {
                proof {
                    vstd::arithmetic::power::lemma_pow_adds(10, j as nat, (e - j) as nat);
                    vstd::arithmetic::power::lemma_pow_increases(10, 1, (e - j) as nat);
                    vstd::arithmetic::power::lemma_pow1(10);
                    vstd::arithmetic::power::lemma_pow_positive(10, j as nat);
                    assert(mv * pow(10, e as nat) >= (mv * pow(10, j as nat)) * 10)
                        by (nonlinear_arith)
                        requires
                            pow(10, e as nat) == pow(10, j as nat) * pow(10, (e - j) as nat),
                            pow(10, (e - j) as nat) >= 10,
                            mv * pow(10, j as nat) >= 0,
                            mv >= 0,
                            pow(10, j as nat) >= 0,
                    ;
                }
                return Err(Error::NumberOverflow);
            },
        }
        j += 1;
    }
    Ok(v)
}

/// The canonical numeric reading of a literal token, classified in the
/// priority order binary, scientific, plain decimal, hex; `None` when the
/// token matches none of the four shapes.
pub open spec fn spec_numeric_value(s: Seq<char>) -> Option<int> {
    if is_binary_literal(s) {
        Some(digits_val(s.skip(2), 2))
    } else if is_sci_literal(s) {
        Some(sci_value(s))
    } else if is_integer_literal(s) {
        Some(digits_val(s, 10))
    } else if is_hex_literal(s) {
        Some(digits_val(s.skip(2), 16))
    } else {
        None
    }
}

/// Canonicalizes a literal token into a 256-bit unsigned integer,
/// classifying it as binary, scientific, plain decimal or hex, in that
/// priority order.
pub fn to_u256(value: &str) -> (r: Result<Uint256, Error>)
    requires
        value.is_ascii(),
    ensures
        match r {
            Ok(v) => {
                &&& spec_numeric_value(value@) == Some(v.value())
                &&& 0 <= v.value() < uint256_bound()
            },
            Err(e) => {
                &&& (e == Error::InvalidNumber || e == Error::NumberOverflow)
                &&& e == Error::InvalidNumber ==> spec_numeric_value(value@) is None
                &&& e == Error::NumberOverflow ==> spec_numeric_value(value@) is Some
                    && spec_numeric_value(value@)->0 >= uint256_bound()
            },
        },
{
    let len = value.unicode_len();
    if check_binary_literal(value) {
        proof {
            assert(strip_prefix(value@, 'b') == value@.skip(2));
            assert(all_bin_digits(value@.skip(2))) by {
                assert(forall|j: int|
                    0 <= j < value@.skip(2).len() ==> value@.skip(2)[j] == #[trigger] value@[j
                        + 2]);
            }
        }
        binary_to_u256(value)
    } else if check_sci_literal(value).is_some() {
        e_to_u256(value)
    } else if check_integer_literal(value) {
        proof {
            assert(forall|m: int|
                0 <= m < len ==> is_hex_digit_char(#[trigger] value@[m]) && digit_val(value@[m])
                    < 10);
            assert(value@.subrange(0, len as int) == value@);
        }
        parse_digits(value, 0, len, 10)
    } else if check_hex_literal(value) {
        proof {
            assert(strip_prefix(value@, 'x') == value@.skip(2));
            assert(all_hex_digits(value@.skip(2))) by {
                assert(forall|j: int|
                    0 <= j < value@.skip(2).len() ==> value@.skip(2)[j] == #[trigger] value@[j
                        + 2]);
            }
        }
        hex_to_u256(value)
    } else {
        Err(Error::InvalidNumber)
    }
}

/// The limb representation is canonical: two values standing for the same
/// integer are limb-for-limb equal. With the parsing contracts, which pin
/// each result's integer down, parsing a literal twice therefore yields
/// the identical value.
pub proof fn lemma_uint256_value_injective(a: Uint256, b: Uint256)
    requires
        a.value() == b.value(),
    ensures
        a == b,
{
    let base = 0x10000000000000000int;
    let a1 = a.limb1 + 0x10000000000000000int * a.limb2
        + 0x100000000000000000000000000000000int * a.limb3;
    let b1 = b.limb1 + 0x10000000000000000int * b.limb2
        + 0x100000000000000000000000000000000int * b.limb3;
    assert(a.value() == base * a1 + a.limb0) by (nonlinear_arith)
        requires
            a1 == a.limb1 + 0x10000000000000000int * a.limb2
                + 0x100000000000000000000000000000000int * a.limb3,
            a.value() == a.limb0 + 0x10000000000000000int * a.limb1
                + 0x100000000000000000000000000000000int * a.limb2
                + 0x1000000000000000000000000000000000000000000000000int * a.limb3,
            base == 0x10000000000000000int,
    ;
    assert(b.value() == base * b1 + b.limb0) by (nonlinear_arith)
        requires
            b1 == b.limb1 + 0x10000000000000000int * b.limb2
                + 0x100000000000000000000000000000000int * b.limb3,
            b.value() == b.limb0 + 0x10000000000000000int * b.limb1
                + 0x100000000000000000000000000000000int * b.limb2
                + 0x1000000000000000000000000000000000000000000000000int * b.limb3,
            base == 0x10000000000000000int,
    ;
    vstd::arithmetic::div_mod::lemma_fundamental_div_mod_converse(
        a.value(),
        base,
        a1,
        a.limb0 as int,
    );
    vstd::arithmetic::div_mod::lemma_fundamental_div_mod_converse(
        b.value(),
        base,
        b1,
        b.limb0 as int,
    );
    assert(a.limb0 == b.limb0);
    assert(a1 == b1);
    let a2 = a.limb2 + 0x10000000000000000int * a.limb3;
    let b2 = b.limb2 + 0x10000000000000000int * b.limb3;
    assert(a1 == base * a2 + a.limb1) by (nonlinear_arith)
        requires
            a2 == a.limb2 + 0x10000000000000000int * a.limb3,
            a1 == a.limb1 + 0x10000000000000000int * a.limb2
                + 0x100000000000000000000000000000000int * a.limb3,
            base == 0x10000000000000000int,
    ;
    assert(b1 == base * b2 + b.limb1) by (nonlinear_arith)
        requires
            b2 == b.limb2 + 0x10000000000000000int * b.limb3,
            b1 == b.limb1 + 0x10000000000000000int * b.limb2
                + 0x100000000000000000000000000000000int * b.limb3,
            base == 0x10000000000000000int,
    ;
    vstd::arithmetic::div_mod::lemma_fundamental_div_mod_converse(a1, base, a2, a.limb1 as int);
    vstd::arithmetic::div_mod::lemma_fundamental_div_mod_converse(b1, base, b2, b.limb1 as int);
    assert(a.limb1 == b.limb1);
    assert(a2 == b2);
    vstd::arithmetic::div_mod::lemma_fundamental_div_mod_converse(
        a2,
        base,
        a.limb3 as int,
        a.limb2 as int,
    );
    vstd::arithmetic::div_mod::lemma_fundamental_div_mod_converse(
        b2,
        base,
        b.limb3 as int,
        b.limb2 as int,
    );
    assert(a.limb2 == b.limb2);
    assert(a.limb3 == b.limb3);
}

} // verus!
