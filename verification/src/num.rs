//! Exact decimal numbers for signal scaling. A DBC file writes factors,
//! offsets and ranges as decimal literals; holding them as a mantissa and a
//! decimal scale keeps every value from the file exact and lets the scaling
//! arithmetic of the decoder be verified, where binary floating point could
//! not be.

use vstd::prelude::*;
use crate::text::is_digit;
use crate::text::spec_digits;
use crate::text::spec_digits_padded;
use crate::text::push_digits;
use crate::text::push_digits_padded;

verus! {

/// Ten to the power `e`.
pub open spec fn pow10(e: nat) -> nat
    decreases e,
{
    if e == 0 {
        1
    } else {
        10 * pow10((e - 1) as nat)
    }
}

pub proof fn lemma_pow10_pos(e: nat)
    ensures
        pow10(e) >= 1,
    decreases e,
{
    if e > 0 {
        lemma_pow10_pos((e - 1) as nat);
    }
}

pub proof fn lemma_pow10_adds(a: nat, b: nat)
    ensures
        pow10(a + b) == pow10(a) * pow10(b),
    decreases a,
{
    if a == 0 {
        assert(pow10(0) == 1);
        assert(pow10(a + b) == pow10(b));
    } else {
        lemma_pow10_adds((a - 1) as nat, b);
        let x = pow10((a - 1) as nat);
        let y = pow10(b);
        assert(a + b >= 1 && ((a + b - 1) as nat) == ((a - 1) as nat) + b);
        assert(pow10(a + b) == 10 * pow10((a + b - 1) as nat));
        assert(pow10((a + b - 1) as nat) == x * y);
        assert(pow10(a) == 10 * x);
        assert(10 * (x * y) == (10 * x) * y) by (nonlinear_arith);
        assert(pow10(a + b) == pow10(a) * pow10(b));
    }
}

pub proof fn lemma_pow10_le(a: nat, b: nat)
    requires
        a <= b,
    ensures
        pow10(a) <= pow10(b),
    decreases b,
{
    if a < b {
        lemma_pow10_le(a, (b - 1) as nat);
        lemma_pow10_pos((b - 1) as nat);
    }
}

/// The concrete powers of ten the contracts and overflow arguments lean on.
pub proof fn lemma_pow10_vals()
    ensures
        pow10(0) == 1,
        pow10(1) == 10,
        pow10(2) == 100,
        pow10(3) == 1000,
        pow10(9) == 1_000_000_000,
        pow10(18) == 1_000_000_000_000_000_000,
        pow10(19) == 10_000_000_000_000_000_000,
        pow10(27) == 1_000_000_000_000_000_000_000_000_000,
        pow10(28) == 10_000_000_000_000_000_000_000_000_000,
        pow10(37) == 10_000_000_000_000_000_000_000_000_000_000_000_000,
{
    reveal_with_fuel(pow10, 40);
}

/// A decimal number `mantissa / 10^scale`, exact as written in a DBC file.
#[derive(Debug, Clone, Copy, PartialEq, Eq, Structural)]
pub struct Dec {
    /// Signed digits of the number, without the decimal point.
    pub mantissa: i64,
    /// How many of the mantissa's low digits lie behind the decimal point.
    pub scale: u32,
}

impl Dec {
    /// Well-formed decimals keep at most nine fractional digits and nine
    /// significant digits, which keeps all scaling arithmetic inside
    /// 128-bit integers.
    pub open spec fn wf(self) -> bool {
        self.scale <= 9 && -1_000_000_000 < self.mantissa < 1_000_000_000
    }

    /// The value of the decimal, scaled by ten to the ninth: an integer
    /// for every well-formed decimal, so that decimals of different scales
    /// compare exactly.
    pub open spec fn scaled9(self) -> int {
        self.mantissa * pow10((9 - self.scale) as nat)
    }

    /// The integer `n` as a decimal.
    pub fn from_int(n: i64) -> (r: Dec)
        requires
            -1_000_000_000 < n < 1_000_000_000,
        ensures
            r == (Dec { mantissa: n, scale: 0 }),
            r.wf(),
    {
        Dec { mantissa: n, scale: 0 }
    }

    /// Whether the decimal denotes zero.
    pub fn is_zero(&self) -> (r: bool)
        ensures
            r == (self.mantissa == 0),
    {
        self.mantissa == 0
    }
}

/// Ten to the power `e`, as a 64-bit integer.
pub fn pow10_u64(e: u32) -> (r: u64)
    requires
        e <= 18,
    ensures
        r as nat == pow10(e as nat),
        r >= 1,
{
    proof {
        lemma_pow10_vals();
    }
    let mut r: u64 = 1;
    let mut i: u32 = 0;
    while i < e
        invariant
            i <= e <= 18,
            r >= 1,
            r as nat == pow10(i as nat),
        decreases e - i,
    {
        proof {
            lemma_pow10_le(i as nat + 1, 18);
            lemma_pow10_vals();
        }
        r = r * 10;
        i = i + 1;
    }
    r
}

/// Ten to the power `e`, as a 128-bit integer.
pub fn pow10_i128(e: u32) -> (r: i128)
    requires
        e <= 37,
    ensures
        r as nat == pow10(e as nat),
        r >= 1,
{
    proof {
        lemma_pow10_vals();
    }
    let mut r: i128 = 1;
    let mut i: u32 = 0;
    while i < e
        invariant
            i <= e <= 37,
            r >= 1,
            r as nat == pow10(i as nat),
        decreases e - i,
    {
        proof {
            lemma_pow10_le(i as nat + 1, 37);
            lemma_pow10_vals();
        }
        r = r * 10;
        i = i + 1;
    }
    r
}

/// Scan of the integer digits of a decimal literal, the digits read so far
/// in `acc`: digits until a decimal point or the end, then fraction digits.
/// A literal fails when a byte is not a digit (or a single point), when it
/// holds no digit at all, when it has more than nine fraction digits, or
/// when its digits exceed nine significant places.
pub open spec fn scan_int_digits(s: Seq<u8>, i: nat, acc: nat, seen: bool) -> Option<(nat, nat)>
    decreases s.len() - i,
{
    if i >= s.len() {
        if seen {
            Some((acc, 0))
        } else {
            None
        }
    } else if s[i as int] == 46 {
        scan_frac_digits(s, i + 1, acc, seen, 0)
    } else if is_digit(s[i as int]) {
        if (acc * 10 + (s[i as int] - 48) as nat) < 1_000_000_000 {
            scan_int_digits(s, i + 1, acc * 10 + (s[i as int] - 48) as nat, true)
        } else {
            None
        }
    } else {
        None
    }
}

/// Scan of the fraction digits of a decimal literal; `fr` counts them.
pub open spec fn scan_frac_digits(s: Seq<u8>, i: nat, acc: nat, seen: bool, fr: nat) -> Option<
    (nat, nat),
>
    decreases s.len() - i,
{
    if i >= s.len() {
        if seen {
            Some((acc, fr))
        } else {
            None
        }
    } else if is_digit(s[i as int]) {
        if fr < 9 && (acc * 10 + (s[i as int] - 48) as nat) < 1_000_000_000 {
            scan_frac_digits(s, i + 1, acc * 10 + (s[i as int] - 48) as nat, true, fr + 1)
        } else {
            None
        }
    } else {
        None
    }
}

/// What parsing a decimal literal yields: an optional sign, then digits
/// with at most one decimal point among them.
pub open spec fn parse_dec_spec(s: Seq<u8>) -> Option<Dec> {
    if s.len() == 0 {
        None
    } else if s[0] == 45 {
        match scan_int_digits(s, 1, 0, false) {
            Some((m, f)) => Some(Dec { mantissa: (-(m as int)) as i64, scale: f as u32 }),
            None => None,
        }
    } else if s[0] == 43 {
        match scan_int_digits(s, 1, 0, false) {
            Some((m, f)) => Some(Dec { mantissa: m as i64, scale: f as u32 }),
            None => None,
        }
    } else {
        match scan_int_digits(s, 0, 0, false) {
            Some((m, f)) => Some(Dec { mantissa: m as i64, scale: f as u32 }),
            None => None,
        }
    }
}

/// Every scan result is a magnitude of at most nine digits and a scale of
/// at most nine.
proof fn lemma_scan_bounds(s: Seq<u8>, i: nat, acc: nat, seen: bool)
    requires
        acc < 1_000_000_000,
        i <= s.len(),
    ensures
        match scan_int_digits(s, i, acc, seen) {
            Some((m, f)) => m < 1_000_000_000 && f <= 9,
            None => true,
        },
    decreases s.len() - i,
{
    if i < s.len() {
        if s[i as int] == 46 {
            lemma_scan_frac_bounds(s, i + 1, acc, seen, 0);
        } else if is_digit(s[i as int]) && (acc * 10 + (s[i as int] - 48) as nat) < 1_000_000_000 {
            lemma_scan_bounds(s, i + 1, acc * 10 + (s[i as int] - 48) as nat, true);
        }
    }
}

proof fn lemma_scan_frac_bounds(s: Seq<u8>, i: nat, acc: nat, seen: bool, fr: nat)
    requires
        acc < 1_000_000_000,
        fr <= 9,
        i <= s.len(),
    ensures
        match scan_frac_digits(s, i, acc, seen, fr) {
            Some((m, f)) => m < 1_000_000_000 && f <= 9,
            None => true,
        },
    decreases s.len() - i,
{
    if i < s.len() {
        if is_digit(s[i as int]) && fr < 9 && (acc * 10 + (s[i as int] - 48) as nat) < 1_000_000_000 {
            lemma_scan_frac_bounds(s, i + 1, acc * 10 + (s[i as int] - 48) as nat, true, fr + 1);
        }
    }
}

fn scan_int_exec(s: &[u8], i: usize, acc: u64, seen: bool) -> (r: Option<(u64, u32)>)
    requires
        i <= s@.len(),
        acc < 1_000_000_000,
    ensures
        match r {
            Some((m, f)) => scan_int_digits(s@, i as nat, acc as nat, seen) == Some(
                (m as nat, f as nat),
            ) && m < 1_000_000_000 && f <= 9,
            None => scan_int_digits(s@, i as nat, acc as nat, seen) is None,
        },
    decreases s@.len() - i,
{
    if i >= s.len() {
        if seen {
            Some((acc, 0))
        } else {
            None
        }
    } else {
        let b = s[i];
        if b == 46 {
            scan_frac_exec(s, i + 1, acc, seen, 0)
        } else if 48 <= b && b <= 57 {
            let d: u64 = (b - 48) as u64;
            if acc * 10 + d < 1_000_000_000 {
                scan_int_exec(s, i + 1, acc * 10 + d, true)
            } else {
                None
            }
        } else {
            None
        }
    }
}

fn scan_frac_exec(s: &[u8], i: usize, acc: u64, seen: bool, fr: u32) -> (r: Option<(u64, u32)>)
    requires
        i <= s@.len(),
        acc < 1_000_000_000,
        fr <= 9,
    ensures
        match r {
            Some((m, f)) => scan_frac_digits(s@, i as nat, acc as nat, seen, fr as nat) == Some(
                (m as nat, f as nat),
            ) && m < 1_000_000_000 && f <= 9,
            None => scan_frac_digits(s@, i as nat, acc as nat, seen, fr as nat) is None,
        },
    decreases s@.len() - i,
{
    if i >= s.len() {
        if seen {
            Some((acc, fr))
        } else {
            None
        }
    } else {
        let b = s[i];
        if 48 <= b && b <= 57 {
            let d: u64 = (b - 48) as u64;
            if fr < 9 && acc * 10 + d < 1_000_000_000 {
                scan_frac_exec(s, i + 1, acc * 10 + d, true, fr + 1)
            } else {
                None
            }
        } else {
            None
        }
    }
}

/// Parse a decimal literal such as `0.1`, `-40`, or `+6553.5`. The result
/// is always well formed; literals with more than nine significant or nine
/// fractional digits are rejected.
pub fn parse_dec(s: &[u8]) -> (r: Option<Dec>)
    ensures
        r == parse_dec_spec(s@),
        r matches Some(d) ==> d.wf(),
{
    if s.len() == 0 {
        return None;
    }
    let b0 = s[0];
    let (neg, start): (bool, usize) = if b0 == 45 {
        (true, 1)
    } else if b0 == 43 {
        (false, 1)
    } else {
        (false, 0)
    };
    match scan_int_exec(s, start, 0, false) {
        Some((m, f)) => {
            let mantissa: i64 = if neg {
                -(m as i64)
            } else {
                m as i64
            };
            Some(Dec { mantissa, scale: f })
        },
        None => None,
    }
}

/// How a decimal is written back to DBC text: an optional minus sign, the
/// integer digits, and, for a fractional scale, a point and exactly
/// `scale` fraction digits.
pub open spec fn render_dec_spec(d: Dec) -> Seq<u8> {
    let mag = (if d.mantissa < 0 {
        -(d.mantissa as int)
    } else {
        d.mantissa as int
    }) as nat;
    let sign: Seq<u8> = if d.mantissa < 0 {
        seq![45u8]
    } else {
        Seq::empty()
    };
    if d.scale == 0 {
        sign + spec_digits(mag)
    } else {
        sign + spec_digits(mag / pow10(d.scale as nat)) + seq![46u8] + spec_digits_padded(
            mag % pow10(d.scale as nat),
            d.scale as nat,
        )
    }
}

/// Append the textual form of a decimal.
pub fn render_dec(d: &Dec, out: &mut Vec<u8>)
    requires
        d.wf(),
    ensures
        final(out)@ == old(out)@ + render_dec_spec(*d),
{
    let mag: u64 = if d.mantissa < 0 {
        (-(d.mantissa)) as u64
    } else {
        d.mantissa as u64
    };
    if d.mantissa < 0 {
        out.push(45);
    }
    if d.scale == 0 {
        push_digits(mag, out);
        proof {
            assert(final(out)@ == old(out)@ + render_dec_spec(*d));
        }
    } else {
        let p = pow10_u64(d.scale);
        push_digits(mag / p, out);
        out.push(46);
        push_digits_padded(mag % p, d.scale, out);
        proof {
            assert(final(out)@ == old(out)@ + render_dec_spec(*d));
        }
    }
}

} // verus!

verus! {

/// A physical value produced by decoding: `mantissa / 10^scale`, held in a
/// 128-bit mantissa so that every raw sample scaled by well-formed factor
/// and offset fits exactly.
#[derive(Debug, Clone, Copy, PartialEq, Eq, Structural)]
pub struct Physical {
    /// Signed digits of the value, without the decimal point.
    pub mantissa: i128,
    /// How many of the mantissa's low digits lie behind the decimal point.
    pub scale: u32,
}

/// The larger of two scales.
pub open spec fn scale_max(a: u32, b: u32) -> u32 {
    if a > b {
        a
    } else {
        b
    }
}

/// Apply linear scaling to a raw sample, exactly:
/// `physical = raw * factor + offset`, carried out on the common decimal
/// scale of factor and offset.
pub fn scale_raw(raw: i128, factor: &Dec, offset: &Dec) -> (r: Physical)
    requires
        factor.wf(),
        offset.wf(),
        -0x1_0000_0000_0000_0000 <= raw <= 0x1_0000_0000_0000_0000,
    ensures
        r.scale == scale_max(factor.scale, offset.scale),
        r.mantissa == raw * factor.mantissa * pow10((scale_max(factor.scale, offset.scale)
            - factor.scale) as nat) + offset.mantissa * pow10(
            (scale_max(factor.scale, offset.scale) - offset.scale) as nat,
        ),
{
    let s: u32 = if factor.scale > offset.scale {
        factor.scale
    } else {
        offset.scale
    };
    let p1: i128 = pow10_i128(s - factor.scale);
    let p2: i128 = pow10_i128(s - offset.scale);
    proof {
        lemma_pow10_vals();
        lemma_pow10_le((s - factor.scale) as nat, 9);
        lemma_pow10_le((s - offset.scale) as nat, 9);
    }
    proof {
        assert((-0x1_0000_0000_0000_0000 as int) * 0x3b9aca00 <= raw * (factor.mantissa as int)
            <= (0x1_0000_0000_0000_0000 as int) * 0x3b9aca00) by (nonlinear_arith)
            requires
                -0x1_0000_0000_0000_0000 <= raw <= 0x1_0000_0000_0000_0000,
                -1_000_000_000 < factor.mantissa < 1_000_000_000,
        ;
    }
    let t1: i128 = raw * (factor.mantissa as i128);
    proof {
        assert((-0x1_0000_0000_0000_0000 as int) * 0x3b9aca00 * 0x3b9aca00 <= t1 * (p1 as int)
            <= (0x1_0000_0000_0000_0000 as int) * 0x3b9aca00 * 0x3b9aca00) by (nonlinear_arith)
            requires
                (-0x1_0000_0000_0000_0000 as int) * 0x3b9aca00 <= t1
                    <= (0x1_0000_0000_0000_0000 as int) * 0x3b9aca00,
                1 <= p1 <= 0x3b9aca00,
        ;
    }
    let t1p: i128 = t1 * p1;
    proof {
        assert(t1p == raw * factor.mantissa * p1) by (nonlinear_arith)
            requires
                t1p == t1 * p1,
                t1 == raw * (factor.mantissa as i128),
        ;
        assert((-0x3b9aca00 as int) * 0x3b9aca00 <= (offset.mantissa as int) * (p2 as int)
            <= (0x3b9aca00 as int) * 0x3b9aca00) by (nonlinear_arith)
            requires
                -1_000_000_000 < offset.mantissa < 1_000_000_000,
                1 <= p2 <= 0x3b9aca00,
        ;
    }
    let t2: i128 = (offset.mantissa as i128) * p2;
    Physical { mantissa: t1p + t2, scale: s }
}

/// The absolute value of an integer.
pub open spec fn abs_int(x: int) -> int {
    if x < 0 {
        -x
    } else {
        x
    }
}

/// The quotient of `n` and `d`, truncated toward zero, as integer division
/// of the magnitudes with the sign reattached.
pub open spec fn trunc_div(n: int, d: int) -> int {
    if (n < 0) == (d < 0) {
        abs_int(n) / abs_int(d)
    } else {
        -(abs_int(n) / abs_int(d))
    }
}

/// Invert linear scaling, exactly: `raw = (value - offset) / factor` on a
/// common decimal scale, the quotient truncated toward zero as a float
/// cast to an integer truncates.
pub fn unscale(value: &Dec, factor: &Dec, offset: &Dec) -> (r: i128)
    requires
        value.wf(),
        factor.wf(),
        offset.wf(),
        factor.mantissa != 0,
    ensures
        r == trunc_div(
            value.mantissa * pow10((offset.scale + factor.scale) as nat) - offset.mantissa
                * pow10((value.scale + factor.scale) as nat),
            factor.mantissa * pow10((value.scale + offset.scale) as nat),
        ),
{
    proof {
        lemma_pow10_vals();
        lemma_pow10_le((offset.scale + factor.scale) as nat, 18);
        lemma_pow10_le((value.scale + factor.scale) as nat, 18);
        lemma_pow10_le((value.scale + offset.scale) as nat, 18);
    }
    let pa: i128 = pow10_i128(offset.scale + factor.scale);
    let pb: i128 = pow10_i128(value.scale + factor.scale);
    let pc: i128 = pow10_i128(value.scale + offset.scale);
    proof {
        assert((-0x3b9aca00 as int) * 0xde0b6b3a7640000 <= (value.mantissa as int) * (pa as int)
            <= (0x3b9aca00 as int) * 0xde0b6b3a7640000) by (nonlinear_arith)
            requires
                -1_000_000_000 < value.mantissa < 1_000_000_000,
                1 <= pa <= 0xde0b6b3a7640000,
        ;
        assert((-0x3b9aca00 as int) * 0xde0b6b3a7640000 <= (offset.mantissa as int) * (pb as int)
            <= (0x3b9aca00 as int) * 0xde0b6b3a7640000) by (nonlinear_arith)
            requires
                -1_000_000_000 < offset.mantissa < 1_000_000_000,
                1 <= pb <= 0xde0b6b3a7640000,
        ;
        assert((-0x3b9aca00 as int) * 0xde0b6b3a7640000 <= (factor.mantissa as int) * (pc as int)
            <= (0x3b9aca00 as int) * 0xde0b6b3a7640000 && (factor.mantissa as int) * (pc as int)
            != 0) by (nonlinear_arith)
            requires
                -1_000_000_000 < factor.mantissa < 1_000_000_000,
                factor.mantissa != 0,
                1 <= pc <= 0xde0b6b3a7640000,
        ;
    }
    let ta: i128 = (value.mantissa as i128) * pa;
    let tb: i128 = (offset.mantissa as i128) * pb;
    let d: i128 = (factor.mantissa as i128) * pc;
    let n: i128 = ta - tb;
    let na: u128 = if n < 0 {
        (-n) as u128
    } else {
        n as u128
    };
    let da: u128 = if d < 0 {
        (-d) as u128
    } else {
        d as u128
    };
    let q: u128 = na / da;
    proof {
        assert(na == abs_int(n as int) && da == abs_int(d as int));
        assert(q == abs_int(n as int) / abs_int(d as int));
        vstd::arithmetic::div_mod::lemma_div_nonincreasing(na as int, da as int);
        vstd::arithmetic::div_mod::lemma_div_is_ordered_by_denominator(na as int, 1, da as int);
    }
    if (n < 0) != (d < 0) {
        -(q as i128)
    } else {
        q as i128
    }
}

} // verus!
