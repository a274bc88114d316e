//! Binary floating-point arithmetic on exact fractions.
//!
//! A fraction is a pair of whole numbers, numerator and denominator. A format
//! with `p` significant bits is given by its limit, two to the power `p`.

use vstd::arithmetic::power2::pow2;
use vstd::prelude::*;

verus! {

/// Two to the power of the significant bits of a single-precision number.
pub const SINGLE: u128 = 0x100_0000;

/// Two to the power of the significant bits of a double-precision number.
pub const DOUBLE: u128 = 0x20_0000_0000_0000;

/// The whole number nearest to `n / d`, the even one of two that are equally
/// near.
pub open spec fn nearest_even(n: int, d: int) -> int {
    let q = n / d;
    let r = n % d;
    if 2 * r < d || (2 * r == d && q % 2 == 0) {
        q
    } else {
        q + 1
    }
}

/// The whole number nearest to `n / d`, the larger one of two that are equally
/// near.
pub open spec fn nearest_up(n: int, d: int) -> int {
    (2 * n + d) / (2 * d)
}

/// The power of two by which `n / d` exceeds the numbers below `limit`.
pub open spec fn coarse(n: int, d: int, limit: int) -> int
    decreases n / d,
    when d > 0 && limit > 0
{
    if n < d * limit {
        1
    } else {
        proof {
            lemma_halved(n, d, limit);
        }
        2 * coarse(n, 2 * d, limit)
    }
}

/// Doubling the denominator of a fraction of at least `limit` makes its whole part
/// smaller.
pub proof fn lemma_halved(n: int, d: int, limit: int)
    requires
        d > 0,
        limit > 0,
        n >= d * limit,
    ensures
        0 <= n / (2 * d) < n / d,
{
    assert(n >= d) by (nonlinear_arith)
        requires
            n >= d * limit,
            d > 0,
            limit > 0,
    ;
    assert(0 <= n / (2 * d) < n / d) by (nonlinear_arith)
        requires
            n >= d,
            d > 0,
    ;
}

/// The power of two by which `n / d` falls short of half of `limit`.
pub open spec fn fine(n: int, d: int, limit: int) -> int
    decreases d * limit - n,
{
    if n <= 0 || 2 * n >= d * limit {
        1
    } else {
        2 * fine(2 * n, d, limit)
    }
}

/// The floating-point number nearest to `n / d`, as a fraction, in a format
/// with the given limit and an unbounded exponent; ties go to the even
/// significand.
pub open spec fn nearest(n: int, d: int, limit: int) -> (int, int) {
    if n >= d * limit {
        let unit = coarse(n, d, limit);
        (nearest_even(n, d * unit) * unit, 1)
    } else {
        let unit = fine(n, d, limit);
        (nearest_even(n * unit, d), unit)
    }
}

/// `nearest_even` computed.
pub fn round_even(n: u128, d: u128) -> (q: u128)
    requires
        0 < d < 0x4000_0000_0000_0000_0000_0000_0000_0000,
    ensures
        q == nearest_even(n as int, d as int),
{
    let q: u128 = n / d;
    let r: u128 = n % d;
    if 2 * r < d || (2 * r == d && q % 2 == 0) {
        q
    } else {
        assert(q < u128::MAX) by (nonlinear_arith)
            requires
                q == n / d,
                r == n % d,
                2 * r >= d,
                d > 0,
                n <= u128::MAX,
        ;
        q + 1
    }
}

/// `nearest_up` computed.
pub fn round_up(n: u128, d: u128) -> (q: u128)
    requires
        n < 0x4000_0000_0000_0000_0000_0000_0000_0000,
        0 < d < 0x4000_0000_0000_0000_0000_0000_0000_0000,
    ensures
        q == nearest_up(n as int, d as int),
{
    (2 * n + d) / (2 * d)
}

/// The significand that `nearest` finds for a fraction below `limit` stays
/// within the format, and its unit is positive.
pub proof fn lemma_fine(n: int, d: int, limit: int)
    requires
        0 < n,
        0 < d,
        0 < limit,
        n < d * limit,
    ensures
        fine(n, d, limit) >= 1,
        n * fine(n, d, limit) < d * limit,
        2 * (n * fine(n, d, limit)) >= d * limit,
    decreases d * limit - n,
{
    if 2 * n < d * limit {
        lemma_fine(2 * n, d, limit);
        let unit = fine(2 * n, d, limit);
        assert((2 * n) * unit == n * (2 * unit)) by (nonlinear_arith);
    } else {
        assert(n * 1 == n);
    }
}

/// The unit that `nearest` finds for a fraction of at least `limit`.
pub proof fn lemma_coarse(n: int, d: int, limit: int)
    requires
        0 < d,
        0 < limit,
        d * limit <= n,
    ensures
        coarse(n, d, limit) >= 2,
        n < (d * coarse(n, d, limit)) * limit,
        (d * coarse(n, d, limit)) * limit <= 2 * n,
    decreases n / d,
{
    assert((2 * d) * limit == 2 * (d * limit)) by (nonlinear_arith);
    let half = coarse(n, 2 * d, limit);
    if n < (2 * d) * limit {
        assert(half == 1);
        assert(d * 2 == 2 * d);
    } else {
        lemma_halved(n, d, limit);
        lemma_coarse(n, 2 * d, limit);
        assert((2 * d) * half == d * (2 * half)) by (nonlinear_arith);
    }
}

/// A rounded number: `significand` times a unit that is a power of two where the
/// number is coarse, and divided by it otherwise.
pub struct Rounded {
    pub significand: u128,
    pub unit: u128,
    /// The power of two that the unit is.
    pub places: u32,
    pub coarse: bool,
}

impl Rounded {
    /// The rounded number as a fraction.
    pub open spec fn value(self) -> (int, int) {
        if self.coarse {
            (self.significand * self.unit, 1)
        } else {
            (self.significand as int, self.unit as int)
        }
    }
}

/// `nearest` computed, with the unit that was found.
pub fn round_scaled(n: u128, d: u128, limit: u128) -> (r: Rounded)
    requires
        n < 0x1000_0000_0000_0000_0000_0000_0000_0000,
        0 < d,
        2 <= limit,
        d * limit < 0x1000_0000_0000_0000_0000_0000_0000_0000,
    ensures
        r.value() == nearest(n as int, d as int, limit as int),
        r.unit == pow2(r.places as nat),
        r.unit >= 1,
        r.coarse == (n >= d * limit),
        r.places <= 128,
        r.significand <= limit,
        !r.coarse && n > 0 ==> r.unit * n < d * limit,
        r.coarse ==> (r.significand * r.unit) * d <= 2 * n && (d * r.unit) * limit <= 2 * n,
        r.coarse ==> r.significand * r.unit < 0x4000_0000_0000_0000_0000_0000_0000_0000,
        n > 0 ==> r.significand >= 1,
        n == 0 ==> r.places == 0 && r.significand == 0,
{
    assert(d <= d * limit) by (nonlinear_arith)
        requires
            2 <= limit,
            0 < d,
    ;
    let mut unit: u128 = 1;
    let mut places: u32 = 0;
    proof {
        vstd::arithmetic::power2::lemma2_to64();
    }
    if n >= d * limit {
        let mut wide: u128 = d;
        assert(d * 1 == d);
        while n >= wide * limit
            invariant
                n < 0x1000_0000_0000_0000_0000_0000_0000_0000,
                0 < d,
                2 <= limit,
                1 <= unit,
                unit <= wide,
                unit == pow2(places as nat),
                places <= 126,
                places > 0 ==> 2 * unit <= 2 * n,
                wide == d * unit,
                wide * limit <= 2 * n || unit == 1,
                wide * limit < 0x2000_0000_0000_0000_0000_0000_0000_0000,
                coarse(n as int, d as int, limit as int) == unit * coarse(
                    n as int,
                    wide as int,
                    limit as int,
                ),
            decreases n / wide,
        {
            proof {
                lemma_halved(n as int, wide as int, limit as int);
                let ghost rest = coarse(n as int, 2 * wide, limit as int);
                assert(unit * (2 * rest) == (2 * unit) * rest) by (nonlinear_arith);
                assert((2 * wide) * limit == 2 * (wide * limit)) by (nonlinear_arith);
                assert(d * (2 * unit) == 2 * (d * unit)) by (nonlinear_arith);
                assert(2 * wide <= wide * limit) by (nonlinear_arith)
                    requires
                        2 <= limit,
                        0 < wide,
                ;
                lemma_places(unit, places);
                vstd::arithmetic::power2::lemma_pow2_adds(places as nat, 1);
                vstd::arithmetic::power2::lemma2_to64();
            }
            wide = 2 * wide;
            unit = 2 * unit;
            places = places + 1;
        }
        assert(wide <= wide * limit) by (nonlinear_arith)
            requires
                2 <= limit,
                0 < wide,
        ;
        let kept: u128 = round_even(n, wide);
        assert(unit * 1 == unit);
        proof {
            lemma_coarse(n as int, d as int, limit as int);
            lemma_scaled_back(n as int, d as int, unit as int, limit as int, kept as int);
            lemma_even_bound(n as int, wide as int, limit as int);
        }
        Rounded { significand: kept, unit, places, coarse: true }
    } else {
        let mut scaled: u128 = n;
        assert(n * 1 == n);
        while scaled > 0 && 2 * scaled < d * limit
            invariant
                n < d * limit,
                d * limit < 0x1000_0000_0000_0000_0000_0000_0000_0000,
                1 <= unit,
                unit == pow2(places as nat),
                places <= 126,
                n > 0 ==> unit <= scaled,
                n == 0 ==> unit == 1 && scaled == 0 && places == 0,
                scaled == n * unit,
                scaled < d * limit,
                fine(n as int, d as int, limit as int) == unit * fine(
                    scaled as int,
                    d as int,
                    limit as int,
                ),
            decreases d * limit - scaled,
        {
            proof {
                let ghost rest = fine(2 * scaled, d as int, limit as int);
                assert(unit * (2 * rest) == (2 * unit) * rest) by (nonlinear_arith);
                assert(n * (2 * unit) == 2 * (n * unit)) by (nonlinear_arith);
                lemma_places(unit, places);
                vstd::arithmetic::power2::lemma_pow2_adds(places as nat, 1);
                vstd::arithmetic::power2::lemma2_to64();
            }
            scaled = 2 * scaled;
            unit = 2 * unit;
            places = places + 1;
        }
        assert(unit * 1 == unit);
        let kept: u128 = round_even(scaled, d);
        proof {
            assert(kept <= limit) by {
                lemma_even_bound(scaled as int, d as int, limit as int);
            }
            assert(unit * n == n * unit) by (nonlinear_arith);
            if n == 0 {
                assert(0int / d as int == 0 && 0int % d as int == 0) by (nonlinear_arith)
                    requires
                        d > 0,
                ;
            }
            if n > 0 {
                assert(scaled as int / d as int >= 1) by (nonlinear_arith)
                    requires
                        2 * scaled >= d * limit,
                        limit >= 2,
                        d > 0,
                ;
            }
        }
        Rounded { significand: kept, unit, places, coarse: false }
    }
}

/// A smaller power of two has fewer places.
pub proof fn lemma_fewer_places(places: nat, bound: nat)
    requires
        pow2(places) < pow2(bound),
    ensures
        places < bound,
{
    if places > bound {
        vstd::arithmetic::power2::lemma_pow2_strictly_increases(bound, places);
    }
}

/// A power of two below two to the power 124 has fewer than 124 places.
proof fn lemma_places(unit: u128, places: u32)
    requires
        unit == pow2(places as nat),
        unit < 0x1000_0000_0000_0000_0000_0000_0000_0000,
    ensures
        places < 124,
{
    vstd::arithmetic::power2::lemma2_to64();
    vstd::arithmetic::power2::lemma2_to64_rest();
    vstd::arithmetic::power2::lemma_pow2_adds(62, 62);
    if places > 124 {
        vstd::arithmetic::power2::lemma_pow2_strictly_increases(124, places as nat);
    }
}

/// `nearest` computed: a numerator and a denominator.
pub fn round_to(n: u128, d: u128, limit: u128) -> (fraction: (u128, u128))
    requires
        n < 0x1000_0000_0000_0000_0000_0000_0000_0000,
        0 < d,
        2 <= limit,
        d * limit < 0x1000_0000_0000_0000_0000_0000_0000_0000,
    ensures
        (fraction.0 as int, fraction.1 as int) == nearest(n as int, d as int, limit as int),
        fraction.1 >= 1,
        fraction.0 < 0x4000_0000_0000_0000_0000_0000_0000_0000,
        n < d * limit ==> fraction.0 <= limit,
        n < d * limit && n > 0 ==> fraction.1 * n < d * limit,
        n >= d * limit ==> fraction.0 * d <= 2 * n,
        n > 0 ==> fraction.0 >= 1,
{
    let r = round_scaled(n, d, limit);
    assert(limit <= d * limit) by (nonlinear_arith)
        requires
            2 <= limit,
            0 < d,
    ;
    if r.coarse {
        assert(n > 0 ==> r.significand * r.unit >= 1) by (nonlinear_arith)
            requires
                n > 0 ==> r.significand >= 1,
                r.unit >= 1,
        ;
        (r.significand * r.unit, 1)
    } else {
        (r.significand, r.unit)
    }
}

/// Rounding a fraction below a whole number does not go past that number.
pub proof fn lemma_even_bound(n: int, d: int, limit: int)
    requires
        0 <= n < d * limit,
        0 < d,
    ensures
        0 <= nearest_even(n, d) <= limit,
{
    assert(0 <= n / d < limit) by (nonlinear_arith)
        requires
            0 <= n < d * limit,
            0 < d,
    ;
}

proof fn lemma_scaled_back(n: int, d: int, unit: int, limit: int, kept: int)
    requires
        0 <= n < 0x1000_0000_0000_0000_0000_0000_0000_0000,
        2 <= unit,
        1 <= d,
        2 <= limit,
        (d * unit) * limit <= 2 * n,
        n < (d * unit) * limit,
        kept == nearest_even(n, d * unit),
    ensures
        1 <= kept * unit,
        kept * unit < 0x4000_0000_0000_0000_0000_0000_0000_0000,
        (kept * unit) * d <= 2 * n,
{
    let w = d * unit;
    assert(2 * w <= 2 * n && unit <= w && w > 0) by (nonlinear_arith)
        requires
            w == d * unit,
            w * limit <= 2 * n,
            1 <= d,
            2 <= unit,
            2 <= limit,
    ;
    let q = n / w;
    assert(1 <= q && q * w <= n) by (nonlinear_arith)
        requires
            q == n / w,
            0 < w <= n,
    ;
    assert((q + 1) * w == q * w + w) by (nonlinear_arith);
    assert(kept * w <= (q + 1) * w) by (nonlinear_arith)
        requires
            kept <= q + 1,
            w > 0,
    ;
    assert((kept * unit) * d == kept * w) by (nonlinear_arith)
        requires
            w == d * unit,
    ;
    assert(kept * unit <= (kept * unit) * d) by (nonlinear_arith)
        requires
            d >= 1,
            kept >= 1,
            unit >= 2,
    ;
    assert(1 <= kept * unit) by (nonlinear_arith)
        requires
            kept >= 1,
            unit >= 2,
    ;
}

/// Rounding does not carry a fraction past a whole number above it.
pub proof fn lemma_at_most(n: int, d: int, limit: int, bound: int)
    requires
        0 <= n < d * limit,
        0 < d,
        2 <= limit,
        n <= d * bound,
    ensures
        nearest(n, d, limit).0 <= bound * nearest(n, d, limit).1,
        nearest_up(nearest(n, d, limit).0, nearest(n, d, limit).1) <= bound,
        nearest(n, d, limit).0 >= 0,
        nearest(n, d, limit).1 >= 1,
{
    let unit = fine(n, d, limit);
    if n > 0 {
        lemma_fine(n, d, limit);
    }
    let m = nearest_even(n * unit, d);
    assert(0 <= n * unit <= d * (bound * unit)) by (nonlinear_arith)
        requires
            0 <= n <= d * bound,
            unit >= 1,
    ;
    let x = n * unit;
    let b = bound * unit;
    let q = x / d;
    let r = x % d;
    assert(x == q * d + r && 0 <= r < d && 0 <= q) by (nonlinear_arith)
        requires
            q == x / d,
            r == x % d,
            d > 0,
            x >= 0,
    ;
    assert(q <= b && (q == b ==> r == 0)) by (nonlinear_arith)
        requires
            x == q * d + r,
            0 <= r < d,
            x <= d * b,
    ;
    lemma_up_at_most(m, unit, bound);
}

proof fn lemma_up_at_most(m: int, unit: int, bound: int)
    requires
        0 <= m <= bound * unit,
        unit >= 1,
    ensures
        nearest_up(m, unit) <= bound,
{
    assert((2 * m + unit) / (2 * unit) <= bound) by (nonlinear_arith)
        requires
            m <= bound * unit,
            unit >= 1,
    ;
}

/// Rounding does not carry a fraction below a whole number under it.
pub proof fn lemma_at_least(n: int, d: int, limit: int, bound: int)
    requires
        0 < d,
        2 <= limit,
        limit % 2 == 0,
        0 < bound <= limit,
        n >= d * bound,
    ensures
        nearest_up(nearest(n, d, limit).0, nearest(n, d, limit).1) >= bound,
{
    if n >= d * limit {
        lemma_coarse(n, d, limit);
        let unit = coarse(n, d, limit);
        let w = d * unit;
        let half = limit / 2;
        assert(n / w >= half && w > 0) by (nonlinear_arith)
            requires
                w == d * unit,
                d > 0,
                unit >= 2,
                w * limit <= 2 * n,
                limit == 2 * half,
        ;
        let m = nearest_even(n, w);
        assert(m * unit >= limit) by (nonlinear_arith)
            requires
                m >= half,
                limit == 2 * half,
                unit >= 2,
                half >= 1,
        ;
        lemma_up_at_least(m * unit, 1, bound);
    } else {
        assert(n > 0) by (nonlinear_arith)
            requires
                n >= d * bound,
                d > 0,
                bound > 0,
        ;
        lemma_fine(n, d, limit);
        let unit = fine(n, d, limit);
        let x = n * unit;
        let b = bound * unit;
        assert(x / d >= b) by (nonlinear_arith)
            requires
                x == n * unit,
                b == bound * unit,
                n >= d * bound,
                d > 0,
                unit >= 1,
        ;
        lemma_up_at_least(nearest_even(x, d), unit, bound);
    }
}

proof fn lemma_up_at_least(m: int, unit: int, bound: int)
    requires
        m >= bound * unit,
        unit >= 1,
    ensures
        nearest_up(m, unit) >= bound,
{
    assert((2 * m + unit) / (2 * unit) >= bound) by (nonlinear_arith)
        requires
            m >= bound * unit,
            unit >= 1,
    ;
}

/// A fraction of at most a quarter rounds to zero.
pub proof fn lemma_vanishes(n: int, d: int, limit: int)
    requires
        0 <= n,
        0 < d,
        16 <= limit,
        4 * n <= d,
    ensures
        nearest_up(nearest(n, d, limit).0, nearest(n, d, limit).1) == 0,
{
    assert(n < d * limit) by (nonlinear_arith)
        requires
            0 <= n,
            4 * n <= d,
            16 <= limit,
            0 < d,
    ;
    if n == 0 {
        assert(0int / d == 0 && 0int % d == 0) by (nonlinear_arith)
            requires
                d > 0,
        ;
        assert(nearest(n, d, limit) == (0int, 1int));
        assert(nearest_up(0, 1) == 0);
    } else {
        lemma_fine(n, d, limit);
        let unit = fine(n, d, limit);
        let x = n * unit;
        assert(unit >= 2 * limit) by (nonlinear_arith)
            requires
                2 * x >= d * limit,
                x == n * unit,
                4 * n <= d,
                n > 0,
                limit >= 16,
                unit >= 1,
        ;
        let q = x / d;
        assert(0 <= 4 * q <= unit) by (nonlinear_arith)
            requires
                q == x / d,
                x == n * unit,
                4 * n <= d,
                n > 0,
                unit >= 1,
                d > 0,
        ;
        let m = nearest_even(x, d);
        assert((2 * m + unit) / (2 * unit) == 0) by (nonlinear_arith)
            requires
                0 <= m <= q + 1,
                0 <= 4 * q <= unit,
                unit >= 32,
        ;
        assert(nearest(n, d, limit) == (m, unit));
        assert(nearest_up(m, unit) == 0);
    }
}

/// A positive fraction of at most one is rounded by at most half a unit, and the
/// units are at least as fine as those next to one.
pub proof fn lemma_near(n: int, d: int, limit: int)
    requires
        0 < n <= d,
        2 <= limit,
    ensures
        nearest(n, d, limit).0 >= 0,
        2 * nearest(n, d, limit).1 >= limit,
        -d <= 2 * (nearest(n, d, limit).0 * d - n * nearest(n, d, limit).1) <= d,
{
    assert(n < d * limit) by (nonlinear_arith)
        requires
            0 < n <= d,
            2 <= limit,
    ;
    lemma_fine(n, d, limit);
    let unit = fine(n, d, limit);
    let x = n * unit;
    let q = x / d;
    let r = x % d;
    assert(x == q * d + r && 0 <= r < d && 0 <= q) by (nonlinear_arith)
        requires
            q == x / d,
            r == x % d,
            d > 0,
            x == n * unit,
            n > 0,
            unit >= 1,
    ;
    assert((q + 1) * d == q * d + d) by (nonlinear_arith);
    assert(2 * unit >= limit) by (nonlinear_arith)
        requires
            2 * (n * unit) >= d * limit,
            0 < n <= d,
            unit >= 1,
            limit >= 2,
    ;
}

} // verus!
