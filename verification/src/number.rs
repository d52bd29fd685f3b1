//! Numeric literals, held as the bit pattern of an IEEE-754 binary64 value.
//!
//! The engine only ever asks integer questions of a literal: is it a whole
//! number, what integer does it truncate to, is one literal twice another.
//! All of them are answered on the bit pattern with integer arithmetic.

use vstd::arithmetic::power2::*;
use vstd::prelude::*;

verus! {

/// A binary64 literal, identified by its bit pattern. Two literals are equal
/// when their bit patterns are, so `0.0` and `-0.0` are different literals.
#[derive(Clone, Copy, Debug, PartialEq, Eq, Hash, Structural)]
pub struct Number {
    /// The IEEE-754 binary64 encoding of the value.
    pub bits: u64,
}

/// Bit pattern of `1.0`.
pub const ONE_BITS: u64 = 0x3ff0_0000_0000_0000;

/// Bit pattern of the largest value below `2.0`.
pub const BELOW_TWO_BITS: u64 = 0x3fff_ffff_ffff_ffff;

/// Bit pattern of positive infinity.
pub const INFINITY_BITS: u64 = 0x7ff0_0000_0000_0000;

/// Weight of one step of the exponent field.
pub const EXPONENT_STEP: u64 = 0x0010_0000_0000_0000;

/// Is the sign bit set?
pub open spec fn is_negative(bits: u64) -> bool {
    bits >= 0x8000_0000_0000_0000
}

/// The biased exponent field.
pub open spec fn exponent_field(bits: u64) -> int {
    (bits as int / 0x0010_0000_0000_0000) % 2048
}

/// The fraction field.
pub open spec fn fraction_field(bits: u64) -> int {
    bits as int % 0x0010_0000_0000_0000
}

/// Neither infinite nor NaN.
pub open spec fn is_finite(bits: u64) -> bool {
    exponent_field(bits) != 2047
}

/// Not a number.
pub open spec fn is_nan(bits: u64) -> bool {
    exponent_field(bits) == 2047 && fraction_field(bits) != 0
}

/// Integer significand of a finite value: the value's magnitude is
/// `significand * 2^(scale)`.
pub open spec fn significand(bits: u64) -> int {
    if exponent_field(bits) == 0 {
        fraction_field(bits)
    } else {
        fraction_field(bits) + 0x0010_0000_0000_0000
    }
}

/// Power of two that scales the significand.
pub open spec fn scale(bits: u64) -> int {
    (if exponent_field(bits) == 0 {
        1
    } else {
        exponent_field(bits)
    }) - 1075
}

/// Magnitude of a finite value, rounded toward zero.
pub open spec fn whole_magnitude(bits: u64) -> int {
    if scale(bits) >= 0 {
        significand(bits) * pow2(scale(bits) as nat)
    } else {
        significand(bits) / (pow2((-scale(bits)) as nat) as int)
    }
}

/// A finite value rounded toward zero.
pub open spec fn truncated(bits: u64) -> int {
    if is_negative(bits) {
        -whole_magnitude(bits)
    } else {
        whole_magnitude(bits)
    }
}

/// A finite value without fractional part.
pub open spec fn is_whole(bits: u64) -> bool {
    is_finite(bits) && (scale(bits) >= 0 || significand(bits) % (pow2((-scale(bits)) as nat) as int)
        == 0)
}

/// The integer that a literal denotes, if it denotes one.
pub open spec fn whole_value(bits: u64) -> Option<int> {
    if is_whole(bits) {
        Some(truncated(bits))
    } else {
        None
    }
}

/// `x` brought into `lo ..= hi`.
pub open spec fn clamped(x: int, lo: int, hi: int) -> int {
    if x < lo {
        lo
    } else if x > hi {
        hi
    } else {
        x
    }
}

/// Conversion to an integer range: NaN is 0, everything else is truncated
/// toward zero and clamped to the range (infinities land on its ends).
pub open spec fn saturated(bits: u64, lo: int, hi: int) -> int {
    if is_nan(bits) {
        clamped(0, lo, hi)
    } else if !is_finite(bits) {
        if is_negative(bits) {
            lo
        } else {
            hi
        }
    } else {
        clamped(truncated(bits), lo, hi)
    }
}

/// The literal as a signed 64-bit integer.
pub open spec fn as_i64(bits: u64) -> i64 {
    saturated(bits, i64::MIN as int, i64::MAX as int) as i64
}

/// The literal as a signed 32-bit integer.
pub open spec fn as_i32(bits: u64) -> i32 {
    saturated(bits, i32::MIN as int, i32::MAX as int) as i32
}

/// Does `double` lie within one machine epsilon of twice the positive whole
/// number `base`, when both the doubling and the difference are rounded to
/// binary64? Doubling moves the exponent field up by one and overflows to
/// infinity from the top exponent on; besides the exact double only the
/// neighbour below `2.0` is that close, and a NaN is never found to be apart.
pub open spec fn is_twice(double: u64, base: u64) -> bool {
    ||| is_nan(double)
    ||| exponent_field(base) < 2046 && double == base + EXPONENT_STEP
    ||| exponent_field(base) == 2046 && double == INFINITY_BITS
    ||| base == ONE_BITS && double == BELOW_TWO_BITS
}

proof fn lemma_pow2_53()
    ensures
        pow2(52) == 0x0010_0000_0000_0000,
        pow2(53) == 0x0020_0000_0000_0000,
        pow2(63) == 0x8000_0000_0000_0000,
        pow2(64) == 0x1_0000_0000_0000_0000,
        pow2(10) == 1024,
        pow2(11) == 2048,
{
    lemma2_to64();
    lemma2_to64_rest();
}

/// The significand never needs more than 53 bits.
proof fn lemma_significand_bound(bits: u64)
    ensures
        0 <= significand(bits) < 0x0020_0000_0000_0000,
        0 <= exponent_field(bits) < 2048,
        is_finite(bits) && exponent_field(bits) != 0 ==> significand(bits) >= 0x0010_0000_0000_0000,
{
}

/// A shift by more than 52 places leaves nothing of a significand.
proof fn lemma_small_quotient(s: int, k: nat)
    requires
        0 <= s < 0x0020_0000_0000_0000,
        k >= 53,
    ensures
        s / (pow2(k) as int) == 0,
        s % (pow2(k) as int) == s,
{
    lemma_pow2_53();
    lemma_pow2_pos(k);
    if k > 53 {
        lemma_pow2_strictly_increases(53, k);
    }
    vstd::arithmetic::div_mod::lemma_basic_div(s, pow2(k) as int);
    vstd::arithmetic::div_mod::lemma_small_mod(s as nat, pow2(k) as nat);
}

/// Scaling a normal significand up by 11 or more leaves the 63-bit range.
proof fn lemma_large_product(s: int, k: nat)
    requires
        s >= 0x0010_0000_0000_0000,
        k >= 11,
    ensures
        s * pow2(k) >= 0x8000_0000_0000_0000,
{
    lemma_pow2_53();
    if k > 11 {
        lemma_pow2_strictly_increases(11, k);
    }
    assert(s * pow2(k) >= 0x0010_0000_0000_0000 * 2048) by (nonlinear_arith)
        requires
            s >= 0x0010_0000_0000_0000,
            pow2(k) >= 2048,
    ;
}

impl Number {
    /// The literal with the given encoding.
    pub fn from_bits(bits: u64) -> (r: Number)
        ensures
            r.bits == bits,
    {
        Number { bits }
    }

    fn split(self) -> (r: (u64, u64))
        ensures
            r.0 == exponent_field(self.bits),
            r.1 == fraction_field(self.bits),
    {
        ((self.bits / 0x0010_0000_0000_0000) % 2048, self.bits % 0x0010_0000_0000_0000)
    }

    /// Magnitude rounded toward zero, or `None` when it needs more than 63
    /// bits.
    fn magnitude(self) -> (r: Option<u64>)
        requires
            is_finite(self.bits),
        ensures
            match r {
                Some(m) => m == whole_magnitude(self.bits) && m < 0x8000_0000_0000_0000,
                None => whole_magnitude(self.bits) >= 0x8000_0000_0000_0000,
            },
    {
        let (e, f): (u64, u64) = self.split();
        let s: u64 = if e == 0 { f } else { f + 0x0010_0000_0000_0000 };
        let e1: u64 = if e == 0 { 1 } else { e };
        proof {
            lemma_significand_bound(self.bits);
            lemma_pow2_53();
        }
        if e1 >= 1075 {
            let k: u64 = e1 - 1075;
            if k >= 11 {
                proof {
                    lemma_large_product(s as int, k as nat);
                }
                return None;
            }
            proof {
                if k < 10 {
                    lemma_pow2_strictly_increases(k as nat, 10);
                }
                assert(s * pow2(k as nat) < 0x8000_0000_0000_0000) by (nonlinear_arith)
                    requires
                        0 <= s < 0x0020_0000_0000_0000,
                        0 <= pow2(k as nat) <= 1024,
                ;
                vstd::bits::lemma_u64_shl_is_mul(s, k);
            }
            Some(s << k)
        } else {
            let k: u64 = 1075 - e1;
            if k >= 53 {
                proof {
                    lemma_small_quotient(s as int, k as nat);
                }
                return Some(0);
            }
            proof {
                vstd::bits::lemma_u64_shr_is_div(s, k);
                lemma_pow2_pos(k as nat);
                vstd::arithmetic::div_mod::lemma_div_is_ordered_by_denominator(
                    s as int,
                    1,
                    pow2(k as nat) as int,
                );
            }
            Some(s >> k)
        }
    }

    /// Truncation toward zero into the signed 64-bit range.
    pub fn to_i64(self) -> (r: i64)
        ensures
            r == as_i64(self.bits),
    {
        let (e, f): (u64, u64) = self.split();
        let negative: bool = self.bits >= 0x8000_0000_0000_0000;
        if e == 2047 {
            if f != 0 {
                0
            } else if negative {
                i64::MIN
            } else {
                i64::MAX
            }
        } else {
            match self.magnitude() {
                Some(m) => {
                    if negative {
                        -(m as i64)
                    } else {
                        m as i64
                    }
                },
                None => {
                    if negative {
                        i64::MIN
                    } else {
                        i64::MAX
                    }
                },
            }
        }
    }

    /// Truncation toward zero into the signed 32-bit range.
    pub fn to_i32(self) -> (r: i32)
        ensures
            r == as_i32(self.bits),
    {
        let wide: i64 = self.to_i64();
        if wide < -0x8000_0000 {
            i32::MIN
        } else if wide > 0x7fff_ffff {
            i32::MAX
        } else {
            wide as i32
        }
    }

    /// Does the literal denote a whole number?
    pub fn is_whole_number(self) -> (r: bool)
        ensures
            r == is_whole(self.bits),
    {
        let (e, f): (u64, u64) = self.split();
        if e == 2047 {
            return false;
        }
        let s: u64 = if e == 0 { f } else { f + 0x0010_0000_0000_0000 };
        let e1: u64 = if e == 0 { 1 } else { e };
        proof {
            lemma_significand_bound(self.bits);
            lemma_pow2_53();
        }
        if e1 >= 1075 {
            return true;
        }
        let k: u64 = 1075 - e1;
        if k >= 53 {
            proof {
                lemma_small_quotient(s as int, k as nat);
            }
            return s == 0;
        }
        proof {
            if k < 53 {
                lemma_pow2_strictly_increases(k as nat, 53);
            }
            lemma_pow2_pos(k as nat);
            assert(1 * pow2(k as nat) <= u64::MAX);
            vstd::bits::lemma_u64_shl_is_mul(1, k);
        }
        s % (1u64 << k) == 0
    }

    /// Does the literal denote exactly the integer `k`?
    pub fn equals_int(self, k: i64) -> (r: bool)
        requires
            -0x8000_0000_0000_0000 < k < 0x7fff_ffff_ffff_ffff,
        ensures
            r == (whole_value(self.bits) == Some(k as int)),
    {
        self.is_whole_number() && self.to_i64() == k
    }

    /// Does this literal count as twice `base`?
    pub fn is_twice_of(self, base: Number) -> (r: bool)
        ensures
            r == is_twice(self.bits, base.bits),
    {
        let (e, f): (u64, u64) = self.split();
        if e == 2047 && f != 0 {
            return true;
        }
        let (be, _bf): (u64, u64) = base.split();
        if be < 2046 && base.bits < 0xfff0_0000_0000_0000 && self.bits == base.bits + EXPONENT_STEP {
            return true;
        }
        if be == 2046 && self.bits == INFINITY_BITS {
            return true;
        }
        base.bits == ONE_BITS && self.bits == BELOW_TWO_BITS
    }
}

} // verus!
