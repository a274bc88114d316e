//! Single-precision numbers by their bits, and the conversions into them from
//! the other formats that checkpoints store.

use vstd::arithmetic::power2::{lemma_pow2_adds, lemma_pow2_pos, lemma_pow2_strictly_increases, pow2};
use vstd::prelude::*;

use crate::rounding::{nearest_even, round_even, Rounded};

verus! {

/// A single-precision (32-bit) floating-point number, given by its bits.
#[derive(Clone, Copy, Debug, PartialEq, Eq, Structural)]
pub struct Single {
    pub bits: u32,
}

/// The bits of positive infinity.
pub const INFINITY: u32 = 0x7f80_0000;

/// The weight of the sign bit.
pub const SIGN: u32 = 0x8000_0000;

impl Single {
    /// The bits without the sign.
    pub open spec fn magnitude(self) -> int {
        if self.bits >= SIGN {
            self.bits - SIGN
        } else {
            self.bits as int
        }
    }

    /// The number is negative, or a negative zero.
    pub open spec fn negative(self) -> bool {
        self.bits >= SIGN
    }

    /// The bits stand for no number.
    pub open spec fn is_nan(self) -> bool {
        self.magnitude() > INFINITY
    }

    /// The biased exponent.
    pub open spec fn exponent(self) -> int {
        self.magnitude() / 0x80_0000
    }

    /// The significand, as a whole number: the value of a finite number is this
    /// times two to the power `scale`.
    pub open spec fn significand(self) -> int {
        if self.exponent() == 0 {
            self.magnitude()
        } else {
            0x80_0000 + self.magnitude() % 0x80_0000
        }
    }

    /// The power of two that goes with the significand.
    pub open spec fn scale(self) -> int {
        if self.exponent() == 0 {
            -149
        } else {
            self.exponent() - 150
        }
    }

    /// The bits without the sign.
    pub fn unsigned_bits(self) -> (bits: u32)
        ensures
            bits == self.magnitude(),
    {
        if self.bits >= SIGN {
            self.bits - SIGN
        } else {
            self.bits
        }
    }
}

/// The number whose `bfloat16` bits are given: the same number, with sixteen
/// zero bits below.
pub fn from_bfloat16(bits: u16) -> (value: Single)
    ensures
        value.bits == bits * 0x1_0000,
{
    Single { bits: bits as u32 * 0x1_0000 }
}

/// The biased exponent of half-precision bits.
pub open spec fn half_exponent(bits: u16) -> int {
    (bits as int / 1024) % 32
}

/// The stored fraction of half-precision bits.
pub open spec fn half_fraction(bits: u16) -> int {
    bits as int % 1024
}

/// `value` is the number that half-precision `bits` stand for: the same sign;
/// the same value for a finite number; an infinity for an infinity; a quiet NaN
/// with the same lower fraction bits for a NaN.
pub open spec fn widens(bits: u16, value: Single) -> bool {
    let e = half_exponent(bits);
    let f = half_fraction(bits);
    &&& value.negative() <==> bits >= 0x8000
    &&& e == 31 && f == 0 ==> value.magnitude() == INFINITY
    &&& e == 31 && f > 0 ==> value.magnitude() == INFINITY + 0x40_0000 + (f % 512) * 0x2000
    &&& 0 < e < 31 ==> value.magnitude() == (e + 112) * 0x80_0000 + f * 0x2000
    &&& e == 0 && f == 0 ==> value.magnitude() == 0
    &&& e == 0 && f > 0 ==> 103 <= value.exponent() <= 112 && value.significand() == f * pow2(
        (126 - value.exponent()) as nat,
    )
}

/// The number that half-precision bits stand for.
pub fn from_half(bits: u16) -> (value: Single)
    ensures
        widens(bits, value),
{
    let e: u32 = (bits as u32 / 1024) % 32;
    let f: u32 = bits as u32 % 1024;
    let unsigned: u32 = if e == 31 {
        if f == 0 {
            INFINITY
        } else {
            INFINITY + 0x40_0000 + (f % 512) * 0x2000
        }
    } else if e > 0 {
        (e + 112) * 0x80_0000 + f * 0x2000
    } else if f == 0 {
        0
    } else {
        widen_subnormal(f)
    };
    let sign: u32 = if bits >= 0x8000 {
        SIGN
    } else {
        0
    };
    Single { bits: sign + unsigned }
}

fn widen_subnormal(f: u32) -> (bits: u32)
    requires
        0 < f < 1024,
    ensures
        103 <= bits / 0x80_0000 <= 112,
        0x80_0000 + bits % 0x80_0000 == f * pow2((126 - bits / 0x80_0000) as nat),
{
    let mut significand: u32 = f * 0x2000;
    let mut e: u32 = 113;
    proof {
        vstd::arithmetic::power2::lemma2_to64();
    }
    while significand < 0x80_0000
        invariant
            0 < f < 1024,
            103 <= e <= 113,
            e == 113 ==> significand < 0x80_0000,
            significand < 0x100_0000,
            significand == f * pow2((126 - e) as nat),
            pow2(23) == 0x80_0000,
        decreases e,
    {
        proof {
            let unit = pow2((126 - e) as nat) as int;
            lemma_pow2_adds((126 - e) as nat, 1);
            vstd::arithmetic::power2::lemma2_to64();
            assert(f * (unit * 2) == 2 * (f * unit)) by (nonlinear_arith);
            assert(f * unit >= unit) by (nonlinear_arith)
                requires
                    f >= 1,
                    unit >= 0,
            ;
            assert(e > 103);
        }
        significand = significand * 2;
        e = e - 1;
    }
    e * 0x80_0000 + (significand - 0x80_0000)
}

/// The bits of the single-precision number nearest to the finite positive
/// double-precision number with the biased exponent `e` and the stored fraction
/// `f`; ties go to the even one, and what is too large becomes infinite.
pub open spec fn narrowed_finite(e: int, f: int) -> int {
    let significand = 0x10_0000_0000_0000 + f;
    if e == 0 {
        0
    } else if e < 897 {
        nearest_even(significand, pow2((926 - e) as nat) as int)
    } else {
        let bits = (e - 897) * 0x80_0000 + nearest_even(significand, 0x2000_0000);
        if bits < INFINITY {
            bits
        } else {
            INFINITY as int
        }
    }
}

/// The magnitude bits of the single-precision number for double-precision
/// magnitude bits: the nearest one for a finite number, infinity for infinity,
/// and a quiet NaN with the leading fraction bits for a NaN.
pub open spec fn narrowed(magnitude: int) -> int {
    let e = magnitude / 0x10_0000_0000_0000;
    let f = magnitude % 0x10_0000_0000_0000;
    if e == 2047 && f == 0 {
        INFINITY as int
    } else if e == 2047 {
        INFINITY + 0x40_0000 + (f / 0x2000_0000) % 0x40_0000
    } else {
        narrowed_finite(e, f)
    }
}

/// Rounding something below half a unit gives zero.
proof fn lemma_rounds_to_zero(n: int, d: int)
    requires
        0 <= n,
        2 * n < d,
    ensures
        nearest_even(n, d) == 0,
{
    assert(n / d == 0 && n % d == n) by (nonlinear_arith)
        requires
            0 <= n < d,
    ;
}

/// The single-precision number nearest to the double-precision number whose
/// bits are given.
pub fn from_double(bits: u64) -> (value: Single)
    ensures
        value.negative() <==> bits >= 0x8000_0000_0000_0000,
        value.magnitude() == narrowed((bits % 0x8000_0000_0000_0000) as int),
{
    let magnitude: u64 = bits % 0x8000_0000_0000_0000;
    let e: u64 = magnitude / 0x10_0000_0000_0000;
    let f: u64 = magnitude % 0x10_0000_0000_0000;
    let unsigned: u32 = if e == 2047 {
        if f == 0 {
            INFINITY
        } else {
            INFINITY + 0x40_0000 + ((f / 0x2000_0000) % 0x40_0000) as u32
        }
    } else {
        narrow_finite(e, f)
    };
    let sign: u32 = if bits >= 0x8000_0000_0000_0000 {
        SIGN
    } else {
        0
    };
    Single { bits: sign + unsigned }
}

fn narrow_finite(e: u64, f: u64) -> (bits: u32)
    requires
        e < 2047,
        f < 0x10_0000_0000_0000,
    ensures
        bits == narrowed_finite(e as int, f as int),
        bits <= INFINITY,
{
    let significand: u128 = 0x10_0000_0000_0000 + f as u128;
    if e == 0 {
        return 0;
    }
    if e < 897 {
        if e < 872 {
            proof {
                vstd::arithmetic::power2::lemma2_to64_rest();
                if e < 871 {
                    lemma_pow2_strictly_increases(55, (926 - e) as nat);
                }
                lemma_rounds_to_zero(significand as int, pow2((926 - e) as nat) as int);
            }
            return 0;
        }
        let mut unit: u128 = 0x4000_0000;
        let mut k: u64 = 896;
        proof {
            vstd::arithmetic::power2::lemma2_to64();
            vstd::arithmetic::power2::lemma2_to64_rest();
        }
        while k > e
            invariant
                e <= k <= 896,
                e >= 872,
                unit == pow2((926 - k) as nat),
                unit <= pow2(54),
                pow2(54) == 0x40_0000_0000_0000,
            decreases k,
        {
            proof {
                lemma_pow2_adds((926 - k) as nat, 1);
                vstd::arithmetic::power2::lemma2_to64();
                if k > 873 {
                    lemma_pow2_strictly_increases((926 - k + 1) as nat, 54);
                }
            }
            unit = unit * 2;
            k = k - 1;
        }
        proof {
            assert(926 - e >= 30);
            if 926 - e > 30 {
                lemma_pow2_strictly_increases(30, (926 - e) as nat);
            }
            assert(unit >= 0x4000_0000);
            crate::rounding::lemma_even_bound(significand as int, unit as int, 0x80_0000);
        }
        return round_even(significand, unit) as u32;
    }
    proof {
        crate::rounding::lemma_even_bound(significand as int, 0x2000_0000, 0x100_0000);
    }
    let kept: u128 = round_even(significand, 0x2000_0000);
    let raised: u128 = (e - 897) as u128 * 0x80_0000 + kept;
    if raised < INFINITY as u128 {
        raised as u32
    } else {
        INFINITY
    }
}

/// A significand times a power of two, as a fraction.
pub open spec fn scaled(significand: int, places: int) -> (int, int) {
    if places >= 0 {
        (significand * pow2(places as nat), 1)
    } else {
        (significand, pow2((-places) as nat) as int)
    }
}

/// The magnitude of a finite number as a fraction.
pub open spec fn fraction(value: Single) -> (int, int) {
    scaled(value.significand(), value.scale())
}

/// Two fractions are equal.
pub open spec fn same_value(a: (int, int), b: (int, int)) -> bool {
    a.0 * b.1 == b.0 * a.1
}

/// Doubling the significand makes up for one place less.
proof fn lemma_doubled(significand: int, places: int)
    ensures
        same_value(scaled(2 * significand, places - 1), scaled(significand, places)),
        scaled(significand, places).1 >= 1,
        scaled(2 * significand, places - 1).1 >= 1,
{
    vstd::arithmetic::power2::lemma2_to64();
    if places >= 1 {
        lemma_pow2_adds((places - 1) as nat, 1);
        let p = pow2((places - 1) as nat) as int;
        assert((2 * significand) * p == significand * (p * 2)) by (nonlinear_arith);
    } else {
        lemma_pow2_adds((-places) as nat, 1);
        lemma_pow2_pos((-places) as nat);
        lemma_pow2_pos((1 - places) as nat);
        let p = pow2((-places) as nat) as int;
        assert((2 * significand) * p == significand * (p * 2)) by (nonlinear_arith);
        if places == 0 {
            assert(significand * 1 == significand);
        }
    }
}

/// Equality of fractions is transitive.
proof fn lemma_same_value(a: (int, int), b: (int, int), c: (int, int))
    requires
        same_value(a, b),
        same_value(b, c),
        b.1 >= 1,
    ensures
        same_value(a, c),
{
    assert(a.0 * c.1 == c.0 * a.1) by (nonlinear_arith)
        requires
            a.0 * b.1 == b.0 * a.1,
            b.0 * c.1 == c.0 * b.1,
            b.1 >= 1,
    ;
}

/// The single-precision number with the given sign and the magnitude of a
/// rounded one.
pub fn from_rounded(negative: bool, rounded: &Rounded) -> (value: Single)
    requires
        rounded.significand <= 0x100_0000,
        rounded.unit == pow2(rounded.places as nat),
        rounded.places <= 90,
    ensures
        value.negative() == negative,
        rounded.significand == 0 ==> value.magnitude() == 0,
        rounded.significand > 0 ==> 1 <= value.exponent() <= 254 && same_value(
            fraction(value),
            rounded.value(),
        ),
{
    let sign: u32 = if negative {
        SIGN
    } else {
        0
    };
    let mut significand: u32 = rounded.significand as u32;
    if significand == 0 {
        return Single { bits: sign };
    }
    let mut places: i32 = if rounded.coarse {
        rounded.places as i32
    } else {
        -(rounded.places as i32)
    };
    let ghost target = rounded.value();
    proof {
        lemma_pow2_pos(rounded.places as nat);
        let start = scaled(significand as int, places as int);
        vstd::arithmetic::power2::lemma2_to64();
        assert(same_value(start, target)) by {
            if rounded.places == 0 {
                assert(significand * 1 == significand);
            }
        }
    }
    if significand == 0x100_0000 {
        proof {
            lemma_doubled(0x80_0000, places + 1);
            lemma_flipped(scaled(0x100_0000, places as int), scaled(0x80_0000, places + 1));
            lemma_same_value(
                scaled(0x80_0000, places + 1),
                scaled(0x100_0000, places as int),
                target,
            );
        }
        significand = 0x80_0000;
        places = places + 1;
    }
    let ghost first = places;
    let ghost mut passes: int = 0;
    while significand < 0x80_0000
        invariant
            0 < significand < 0x100_0000,
            -90 <= first <= 91,
            places == first - passes,
            0 <= passes <= 23,
            passes > 0 ==> significand >= pow2(passes as nat),
            same_value(scaled(significand as int, places as int), target),
            target.1 >= 1,
        decreases 0x100_0000 - significand,
    {
        proof {
            lemma_doubled(significand as int, places as int);
            lemma_same_value(
                scaled(2 * significand, places - 1),
                scaled(significand as int, places as int),
                target,
            );
            vstd::arithmetic::power2::lemma2_to64();
            lemma_pow2_adds(passes as nat, 1);
            if passes == 23 {
                assert(significand >= 0x80_0000);
            }
        }
        significand = significand * 2;
        places = places - 1;
        proof {
            passes = passes + 1;
        }
    }
    let exponent: u32 = (places + 150) as u32;
    let unsigned: u32 = exponent * 0x80_0000 + (significand - 0x80_0000);
    let value = Single { bits: sign + unsigned };
    assert(value.magnitude() == unsigned);
    assert(value.exponent() == exponent);
    assert(value.significand() == significand);
    value
}

/// Equality of fractions is symmetric.
proof fn lemma_flipped(a: (int, int), b: (int, int))
    requires
        same_value(a, b),
    ensures
        same_value(b, a),
{
}

} // verus!
