//! How close a rounded number is to the one that it stands for, and what follows for times
//! and tempos.

use vstd::arithmetic::power2::{lemma2_to64, lemma_pow2_pos, pow2};
use vstd::prelude::*;

use crate::rounding::{
    coarse, fine, lemma_coarse, lemma_fine, nearest, nearest_even, nearest_up, DOUBLE, SINGLE,
};
use crate::single::{fraction, same_value, Single};
use crate::text_to_midi::tempo::tempo_single;
use crate::text_to_midi::timing::{
    beat_ticks, beat_value, clamped_tempo, grid_of, midi_ticks, span_ticks, tempo_microseconds,
};

verus! {

/// No whole number is nearer to a fraction than the one that it is rounded to, and of two that
/// are as near it is the even one.
pub proof fn lemma_nearest_whole(n: int, d: int)
    requires
        d > 0,
    ensures
        -d <= 2 * (nearest_even(n, d) * d - n) <= d,
        2 * (nearest_even(n, d) * d - n) == d || 2 * (nearest_even(n, d) * d - n) == -d
            ==> nearest_even(n, d) % 2 == 0,
        forall|k: int| n == #[trigger] (k * d) ==> nearest_even(n, d) == k,
{
    let q = n / d;
    let r = n % d;
    vstd::arithmetic::div_mod::lemma_fundamental_div_mod(n, d);
    vstd::arithmetic::div_mod::lemma_mod_bound(n, d);
    assert((q + 1) * d == q * d + d) by (nonlinear_arith);
    assert(d * q == q * d) by (nonlinear_arith);
    assert forall|k: int| n == #[trigger] (k * d) implies nearest_even(n, d) == k by {
        assert(q == k && r == 0) by {
            vstd::arithmetic::div_mod::lemma_fundamental_div_mod_converse(n, d, k, 0);
        }
    }
}

/// The whole number that a fraction is rounded up to is the nearest, and the larger of two that
/// are as near.
pub proof fn lemma_nearest_up(n: int, d: int)
    requires
        d > 0,
    ensures
        -d <= 2 * (n - nearest_up(n, d) * d) < d,
        forall|k: int| n == #[trigger] (k * d) ==> nearest_up(n, d) == k,
{
    let q = nearest_up(n, d);
    vstd::arithmetic::div_mod::lemma_fundamental_div_mod(2 * n + d, 2 * d);
    vstd::arithmetic::div_mod::lemma_mod_bound(2 * n + d, 2 * d);
    assert((2 * d) * q == 2 * (q * d)) by (nonlinear_arith);
    assert forall|k: int| n == #[trigger] (k * d) implies q == k by {
        assert(2 * n + d == (2 * d) * k + d) by (nonlinear_arith)
            requires
                n == k * d,
        ;
        vstd::arithmetic::div_mod::lemma_fundamental_div_mod_converse(2 * n + d, 2 * d, k, d);
    }
}

/// A fraction is rounded to so many significant places that the error is at most its part of
/// one to `limit`.
pub proof fn lemma_nearest_close(n: int, d: int, limit: int)
    requires
        n > 0,
        d > 0,
        limit >= 2,
    ensures
        nearest(n, d, limit).1 >= 1,
        nearest(n, d, limit).0 >= 0,
        -(n * nearest(n, d, limit).1) <= limit * (nearest(n, d, limit).0 * d - n * nearest(
            n,
            d,
            limit,
        ).1) <= n * nearest(n, d, limit).1,
{
    let (m, u) = nearest(n, d, limit);
    if n >= d * limit {
        let unit = coarse(n, d, limit);
        lemma_coarse(n, d, limit);
        let e = d * unit;
        assert(e > 0) by (nonlinear_arith)
            requires
                e == d * unit,
                d > 0,
                unit >= 2,
        ;
        lemma_nearest_whole(n, e);
        let k = nearest_even(n, e);
        assert(m == k * unit);
        assert(m * d == k * e) by (nonlinear_arith)
            requires
                m == k * unit,
                e == d * unit,
        ;
        let x = m * d - n;
        assert(n * u == n);
        assert(-n <= limit * x <= n) by (nonlinear_arith)
            requires
                -e <= 2 * x <= e,
                e * limit <= 2 * n,
                limit >= 2,
        ;
        assert(k >= 0) by (nonlinear_arith)
            requires
                -e <= 2 * (k * e - n) <= e,
                n > 0,
                e > 0,
        ;
        assert(m >= 0) by (nonlinear_arith)
            requires
                m == k * unit,
                k >= 0,
                unit >= 2,
        ;
    } else {
        let unit = fine(n, d, limit);
        lemma_fine(n, d, limit);
        lemma_nearest_whole(n * unit, d);
        let x = m * d - n * unit;
        let y = n * unit;
        assert(-y <= limit * x <= y) by (nonlinear_arith)
            requires
                -d <= 2 * x <= d,
                2 * y >= d * limit,
                limit >= 2,
        ;
        assert(m >= 0) by (nonlinear_arith)
            requires
                -d <= 2 * (m * d - y) <= d,
                y > 0,
                d > 0,
        ;
    }
}

/// A whole number below the limit is kept as it is.
pub proof fn lemma_nearest_exact(n: int, d: int, limit: int, k: int)
    requires
        d > 0,
        limit >= 2,
        0 <= k < limit,
        n == k * d,
    ensures
        nearest(n, d, limit).1 >= 1,
        nearest(n, d, limit).0 == k * nearest(n, d, limit).1,
{
    if k == 0 {
        assert(n == 0);
        assert(0 * d == 0);
        assert(n < d * limit) by (nonlinear_arith)
            requires
                n == 0,
                d > 0,
                limit >= 2,
        ;
        assert(fine(n, d, limit) == 1);
        lemma_nearest_whole(0, d);
        assert(n * 1 == 0 * d);
    } else {
        assert(n > 0) by (nonlinear_arith)
            requires
                n == k * d,
                k > 0,
                d > 0,
        ;
        assert(n < d * limit) by (nonlinear_arith)
            requires
                n == k * d,
                k < limit,
                d > 0,
        ;
        let unit = fine(n, d, limit);
        lemma_fine(n, d, limit);
        assert(n * unit == (k * unit) * d) by (nonlinear_arith)
            requires
                n == k * d,
        ;
        lemma_nearest_whole(n * unit, d);
    }
}

/// The slowest and the fastest tempo are 20 and 400 beats in a minute.
pub proof fn lemma_tempo_limits(bpm: Single)
    ensures
        fraction(clamped_tempo(Single { bits: 0 })) == (20 * 0x8_0000int, 0x8_0000int),
        bpm.bits == 0 || bpm.bits >= 0x8000_0000 && bpm.bits <= 0xff80_0000 ==> clamped_tempo(bpm).bits
            == 0x41a0_0000,
        0x41a0_0000 <= bpm.bits <= 0x43c8_0000 ==> clamped_tempo(bpm) == bpm,
        bpm.bits < 0x41a0_0000 ==> clamped_tempo(bpm).bits == 0x41a0_0000,
        0x43c8_0000 < bpm.bits <= 0x7f80_0000 ==> clamped_tempo(bpm).bits == 0x43c8_0000,
        fraction(Single { bits: 0x43c8_0000 }) == (400 * 0x8000int, 0x8000int),
{
    lemma2_to64();
    let slow = Single { bits: 0x41a0_0000 };
    let fast = Single { bits: 0x43c8_0000 };
    assert(slow.exponent() == 131);
    assert(slow.significand() == 0xa0_0000);
    assert(fast.exponent() == 135);
    assert(fast.significand() == 0xc8_0000);
}

proof fn lemma_in_range(bpm: Single)
    requires
        0x41a0_0000 <= bpm.bits <= 0x43c8_0000,
    ensures
        fraction(bpm).0 > 0,
        fraction(bpm).1 > 0,
        20 * fraction(bpm).1 <= fraction(bpm).0 <= 400 * fraction(bpm).1,
{
    lemma2_to64();
    let e = bpm.exponent();
    assert(131 <= e <= 135);
    if e == 131 {
        assert(fraction(bpm).1 == 0x8_0000);
    } else if e == 132 {
        assert(fraction(bpm).1 == 0x4_0000);
    } else if e == 133 {
        assert(fraction(bpm).1 == 0x2_0000);
    } else if e == 134 {
        assert(fraction(bpm).1 == 0x1_0000);
    } else {
        assert(fraction(bpm).1 == 0x8000);
    }
}

/// What is rounded twice, first to many places and then to a whole number, is within three
/// quarters of what it stands for, where that is not too large for the places.
proof fn lemma_twice_rounded(n: int, d: int, limit: int)
    requires
        n > 0,
        d > 0,
        limit >= 2,
        4 * n <= limit * d,
    ensures
        ({
            let (m, u) = nearest(n, d, limit);
            let q = nearest_up(m, u);
            -(3 * d) <= 4 * (q * d - n) <= 3 * d
        }),
{
    let (m, u) = nearest(n, d, limit);
    lemma_nearest_close(n, d, limit);
    let q = nearest_up(m, u);
    lemma_nearest_up(m, u);
    let a = m - q * u;
    let b = m * d - n * u;
    assert(4 * b <= d * u && -(d * u) <= 4 * b) by (nonlinear_arith)
        requires
            -(n * u) <= limit * b <= n * u,
            4 * n <= limit * d,
            limit >= 2,
            n > 0,
            d > 0,
            u >= 1,
    ;
    let x = q * d - n;
    assert(x * u == b - a * d) by (nonlinear_arith)
        requires
            a == m - q * u,
            b == m * d - n * u,
            x == q * d - n,
    ;
    let du = d * u;
    assert(-du <= 2 * (a * d) <= du) by (nonlinear_arith)
        requires
            -u <= 2 * a < u,
            d > 0,
            du == d * u,
    ;
    assert(-(3 * du) <= 4 * (x * u) <= 3 * du);
    assert(-(3 * d) <= 4 * x <= 3 * d) by (nonlinear_arith)
        requires
            -(3 * du) <= 4 * (x * u) <= 3 * du,
            du == d * u,
            d > 0,
            u >= 1,
    ;
}

/// The microseconds of a quarter note are sixty million over the beats in a minute, within
/// three quarters of one, for every tempo from 20 to 400.
pub proof fn lemma_quarter_time(bpm: Single)
    requires
        0x41a0_0000 <= bpm.bits <= 0x43c8_0000,
    ensures
        ({
            let (n, d) = fraction(bpm);
            let us = tempo_microseconds(bpm);
            -(3 * n) <= 4 * (us * n - 60_000_000 * d) <= 3 * n
        }),
{
    lemma_in_range(bpm);
    let (n, d) = fraction(bpm);
    assert(4 * (60_000_000 * d) <= 0x100_0000 * n);
    lemma_twice_rounded(60_000_000 * d, n, SINGLE as int);
}

/// Where sixty million over the tempo is a whole number, the quarter note takes just as many
/// microseconds.
pub proof fn lemma_quarter_time_exact(bpm: Single, us: int)
    requires
        0x41a0_0000 <= bpm.bits <= 0x43c8_0000,
        us * fraction(bpm).0 == 60_000_000 * fraction(bpm).1,
    ensures
        tempo_microseconds(bpm) == us,
{
    lemma_in_range(bpm);
    let (n, d) = fraction(bpm);
    assert(0 <= us < SINGLE) by (nonlinear_arith)
        requires
            us * n == 60_000_000 * d,
            20 * d <= n,
            n > 0,
            d > 0,
            SINGLE == 0x100_0000,
    ;
    lemma_nearest_exact(60_000_000 * d, n, SINGLE as int, us);
    let q = nearest(60_000_000 * d, n, SINGLE as int);
    lemma_nearest_up(q.0, q.1);
    assert(q.0 == us * q.1);
}

/// A time in hundredths of a second becomes 480 ticks for each quarter note that passes, the
/// nearest number of them, give or take a thirty-second of a tick; nought stays nought.
pub proof fn lemma_ticks_close(time: u32, tempo_us: u32)
    requires
        tempo_us > 0,
        time < 0x100_0000,
    ensures
        -(34 * tempo_us) <= 64 * (midi_ticks(time, tempo_us) * tempo_us - 4_800_000 * time) <= 34
            * tempo_us,
        midi_ticks(0, tempo_us) == 0,
{
    let t = tempo_us as int;
    let a = time as int;
    let factor = nearest(4_800_000, t, DOUBLE as int);
    lemma_nearest_close(4_800_000, t, DOUBLE as int);
    let (p, q) = factor;
    let zero = nearest(0 * p, q, DOUBLE as int);
    lemma_nearest_exact(0, q, DOUBLE as int, 0);
    assert(0 * p == 0);
    lemma_nearest_up(zero.0, zero.1);
    assert(zero.0 == 0 * zero.1);
    assert(midi_ticks(0, tempo_us) == 0);
    if a > 0 {
        lemma_factor(a, t, p, q);
    }
}

proof fn lemma_factor(a: int, t: int, p: int, q: int)
    requires
        0 < a < 0x100_0000,
        0 < t <= u32::MAX,
        q >= 1,
        p >= 0,
        -(4_800_000 * q) <= DOUBLE * (p * t - 4_800_000 * q) <= 4_800_000 * q,
    ensures
        ({
            let ticks = nearest(a * p, q, DOUBLE as int);
            let k = nearest_up(ticks.0, ticks.1);
            -(34 * t) <= 64 * (k * t - 4_800_000 * a) <= 34 * t
        }),
{
    let big = DOUBLE as int;
    let n = a * p;
    let e = p * t - 4_800_000 * q;
    assert(p > 0) by (nonlinear_arith)
        requires
            -(4_800_000 * q) <= big * (p * t - 4_800_000 * q),
            big == 0x20_0000_0000_0000,
            q >= 1,
            p >= 0,
    ;
    assert(n > 0) by (nonlinear_arith)
        requires
            n == a * p,
            a > 0,
            p > 0,
    ;
    // n / q is below 2^24 * 4.8e6 * (1 + 2^-53), which is far below a quarter of the limit.
    assert(p <= 5_000_000 * q) by (nonlinear_arith)
        requires
            big * (p * t - 4_800_000 * q) <= 4_800_000 * q,
            big == 0x20_0000_0000_0000,
            q >= 1,
            p > 0,
            t >= 1,
    ;
    assert(4 * n <= big * q) by (nonlinear_arith)
        requires
            n == a * p,
            0 < a < 0x100_0000,
            0 < p <= 5_000_000 * q,
            big == 0x20_0000_0000_0000,
    ;
    let (m, u) = nearest(n, q, big);
    lemma_nearest_close(n, q, big);
    let k = nearest_up(m, u);
    lemma_nearest_up(m, u);
    let b = m * q - n * u;
    // 64 * b is at most q * u in magnitude.
    assert(64 * n <= big * q) by (nonlinear_arith)
        requires
            n == a * p,
            0 < a < 0x100_0000,
            0 < p <= 5_000_000 * q,
            big == 0x20_0000_0000_0000,
    ;
    assert(-(q * u) <= 64 * b <= q * u) by (nonlinear_arith)
        requires
            -(n * u) <= big * b <= n * u,
            64 * n <= big * q,
            big > 0,
            n > 0,
            q >= 1,
            u >= 1,
    ;
    let c = m - k * u;
    // k * q = n + (b - c * q) / u
    let y = k * q - n;
    assert(y * u == b - c * q) by (nonlinear_arith)
        requires
            y == k * q - n,
            b == m * q - n * u,
            c == m - k * u,
    ;
    let qu = q * u;
    assert(-qu <= 2 * (c * q) <= qu) by (nonlinear_arith)
        requires
            -u <= 2 * c < u,
            q >= 1,
            qu == q * u,
    ;
    assert(-(33 * qu) <= 64 * (y * u) <= 33 * qu);
    assert(-(33 * q) <= 64 * y <= 33 * q) by (nonlinear_arith)
        requires
            -(33 * qu) <= 64 * (y * u) <= 33 * qu,
            qu == q * u,
            u >= 1,
    ;
    // k * t * q - 4_800_000 * a * q = y * t + a * e
    let x = k * t - 4_800_000 * a;
    assert(x * q == y * t + a * e) by (nonlinear_arith)
        requires
            x == k * t - 4_800_000 * a,
            y == k * q - a * p,
            e == p * t - 4_800_000 * q,
            n == a * p,
            y == k * q - n,
    ;
    assert(-(q) <= 64 * (a * e) <= q) by (nonlinear_arith)
        requires
            -(4_800_000 * q) <= big * e <= 4_800_000 * q,
            big == 0x20_0000_0000_0000,
            0 < a < 0x100_0000,
            q >= 1,
    ;
    assert(-(33 * (q * t)) <= 64 * (y * t) <= 33 * (q * t)) by (nonlinear_arith)
        requires
            -(33 * q) <= 64 * y <= 33 * q,
            t >= 1,
    ;
    assert(q <= q * t) by (nonlinear_arith)
        requires
            q >= 1,
            t >= 1,
    ;
    assert(-(34 * (q * t)) <= 64 * (x * q) <= 34 * (q * t));
    assert(-(34 * t) <= 64 * x <= 34 * t) by (nonlinear_arith)
        requires
            -(34 * (q * t)) <= 64 * (x * q) <= 34 * (q * t),
            q >= 1,
            t >= 1,
    ;
}

/// The length of a sequence is a hundred ticks for every second, within three quarters of one,
/// up to 9,999.
pub proof fn lemma_length_close(seconds: Single)
    requires
        seconds.bits < 0x7f80_0000,
    ensures
        ({
            let (n, d) = fraction(seconds);
            let ticks = span_ticks(seconds);
            &&& 100 * n <= 9_998 * d ==> -(3 * d) <= 4 * (ticks * d - 100 * n) <= 3 * d
            &&& 100 * n >= 10_000 * d ==> ticks == 9_999
            &&& 0 <= ticks <= 9_999
        }),
        span_ticks(Single { bits: 0x7f80_0000 }) == 9_999,
{
    let (n, d) = fraction(seconds);
    lemma_fraction_pos(seconds);
    let limit = SINGLE as int;
    let ticks = nearest(100 * n, d, limit);
    let whole = nearest_up(ticks.0, ticks.1);
    if n == 0 {
        lemma_nearest_exact(0, d, limit, 0);
        lemma_nearest_up(ticks.0, ticks.1);
        assert(ticks.0 == 0 * ticks.1);
        assert(0 * d == 0);
    } else {
        lemma_nearest_close(100 * n, d, limit);
        lemma_nearest_up(ticks.0, ticks.1);
        if 100 * n <= 10_000 * d {
            assert(4 * (100 * n) <= limit * d) by (nonlinear_arith)
                requires
                    100 * n <= 10_000 * d,
                    limit == 0x100_0000,
                    d > 0,
            ;
            lemma_twice_rounded(100 * n, d, limit);
            assert(whole < 10_001) by (nonlinear_arith)
                requires
                    4 * (whole * d - 100 * n) <= 3 * d,
                    100 * n <= 10_000 * d,
                    d > 0,
            ;
            if 100 * n <= 9_998 * d {
                assert(whole < 9_999) by (nonlinear_arith)
                    requires
                        4 * (whole * d - 100 * n) <= 3 * d,
                        100 * n <= 9_998 * d,
                        d > 0,
                ;
            }
        }
        if 100 * n >= 10_000 * d {
            crate::rounding::lemma_at_least(100 * n, d, limit, 10_000);
        }
        assert(whole >= 0) by (nonlinear_arith)
            requires
                -ticks.1 <= 2 * (ticks.0 - whole * ticks.1) < ticks.1,
                ticks.0 >= 0,
                ticks.1 >= 1,
        ;
    }
}

proof fn lemma_fraction_pos(value: Single)
    ensures
        fraction(value).0 >= 0,
        fraction(value).1 >= 1,
{
    if value.scale() >= 0 {
        lemma_pow2_pos(value.scale() as nat);
        let s = value.significand();
        let p = pow2(value.scale() as nat) as int;
        assert(s * p >= 0) by (nonlinear_arith)
            requires
                s >= 0,
                p > 0,
        ;
    } else {
        lemma_pow2_pos((-value.scale()) as nat);
    }
}

/// A beat is a quarter note, but half of one for eighths and two for halves.
pub proof fn lemma_beats(denominator: u8)
    ensures
        denominator == 8 ==> beat_value(denominator) == (1int, 2int),
        denominator == 2 ==> beat_value(denominator) == (2int, 1int),
        denominator != 8 && denominator != 2 ==> beat_value(denominator) == (1int, 1int),
{
}

/// A product with a factor that was rounded, rounded twice itself, is the nearest whole number
/// to what it stands for, give or take a thirty-second.
proof fn lemma_chain(a: int, count: int, t: int, c: int, p: int, q: int)
    requires
        a >= 1,
        count >= 1,
        t >= 1,
        c >= 1,
        q >= 1,
        p >= 0,
        128 * (a * count) <= DOUBLE,
        -(count * q) <= DOUBLE * (p * t - count * q) <= count * q,
    ensures
        ({
            let ticks = nearest(a * p, q * c, DOUBLE as int);
            let k = nearest_up(ticks.0, ticks.1);
            -(34 * (t * c)) <= 64 * (k * (t * c) - count * a) <= 34 * (t * c)
        }),
{
    let big = DOUBLE as int;
    let n = a * p;
    let w = q * c;
    let e = p * t - count * q;
    assert(p > 0) by (nonlinear_arith)
        requires
            -(count * q) <= big * (p * t - count * q),
            big == 0x20_0000_0000_0000,
            q >= 1,
            count >= 1,
            p >= 0,
    ;
    assert(p <= 2 * (count * q)) by (nonlinear_arith)
        requires
            big * (p * t - count * q) <= count * q,
            big == 0x20_0000_0000_0000,
            q >= 1,
            count >= 1,
            p > 0,
            t >= 1,
    ;
    assert(n > 0) by (nonlinear_arith)
        requires
            n == a * p,
            a > 0,
            p > 0,
    ;
    assert(w >= q) by (nonlinear_arith)
        requires
            w == q * c,
            q >= 1,
            c >= 1,
    ;
    assert(n <= 2 * ((a * count) * q)) by (nonlinear_arith)
        requires
            n == a * p,
            a >= 1,
            p <= 2 * (count * q),
    ;
    let ac = a * count;
    assert(64 * n <= big * w) by (nonlinear_arith)
        requires
            n <= 2 * (ac * q),
            128 * ac <= big,
            w >= q,
            q >= 1,
            ac >= 0,
    ;
    let (m, u) = nearest(n, w, big);
    lemma_nearest_close(n, w, big);
    let k = nearest_up(m, u);
    lemma_nearest_up(m, u);
    let b = m * w - n * u;
    assert(-(w * u) <= 64 * b <= w * u) by (nonlinear_arith)
        requires
            -(n * u) <= big * b <= n * u,
            64 * n <= big * w,
            big > 0,
            n > 0,
            w >= 1,
            u >= 1,
    ;
    let r = m - k * u;
    let y = k * w - n;
    assert(y * u == b - r * w) by (nonlinear_arith)
        requires
            y == k * w - n,
            b == m * w - n * u,
            r == m - k * u,
    ;
    let wu = w * u;
    assert(-wu <= 2 * (r * w) <= wu) by (nonlinear_arith)
        requires
            -u <= 2 * r < u,
            w >= 1,
            wu == w * u,
    ;
    assert(-(33 * wu) <= 64 * (y * u) <= 33 * wu);
    assert(-(33 * w) <= 64 * y <= 33 * w) by (nonlinear_arith)
        requires
            -(33 * wu) <= 64 * (y * u) <= 33 * wu,
            wu == w * u,
            u >= 1,
    ;
    let x = k * (t * c) - count * a;
    assert(y * t == (k * w) * t - (a * p) * t) by (nonlinear_arith)
        requires
            y == k * w - a * p,
    ;
    assert((k * w) * t == (k * (t * c)) * q) by (nonlinear_arith)
        requires
            w == q * c,
    ;
    assert(a * e == (a * p) * t - (count * a) * q) by (nonlinear_arith)
        requires
            e == p * t - count * q,
    ;
    assert(x * q == (k * (t * c)) * q - (count * a) * q) by (nonlinear_arith)
        requires
            x == k * (t * c) - count * a,
    ;
    assert(x * q == y * t + a * e);
    assert(-q <= 64 * (a * e) <= q) by (nonlinear_arith)
        requires
            -(count * q) <= big * e <= count * q,
            128 * (a * count) <= big,
            big == 0x20_0000_0000_0000,
            a >= 1,
            count >= 1,
            q >= 1,
    ;
    let wt = w * t;
    assert(-(33 * wt) <= 64 * (y * t) <= 33 * wt) by (nonlinear_arith)
        requires
            -(33 * w) <= 64 * y <= 33 * w,
            t >= 1,
            wt == w * t,
    ;
    assert(q <= wt) by (nonlinear_arith)
        requires
            w >= q,
            q >= 1,
            t >= 1,
            wt == w * t,
    ;
    assert(-(34 * wt) <= 64 * (x * q) <= 34 * wt);
    let tc = t * c;
    assert(wt == tc * q) by (nonlinear_arith)
        requires
            wt == (q * c) * t,
            tc == t * c,
    ;
    assert(tc >= 1) by (nonlinear_arith)
        requires
            tc == t * c,
            t >= 1,
            c >= 1,
    ;
    assert(-(34 * tc) <= 64 * x <= 34 * tc) by (nonlinear_arith)
        requires
            -(34 * (tc * q)) <= 64 * (x * q) <= 34 * (tc * q),
            q >= 1,
            tc >= 1,
    ;
}

/// A beat takes six thousand hundredths of a second over the beats in a minute, or the nearest
/// number of them, give or take a thirty-second: half of that where the beat is an eighth,
/// and twice that where it is a half.
pub proof fn lemma_beat_time(bpm: Single, denominator: u8, seconds: Single)
    requires
        0x41a0_0000 <= bpm.bits <= 0x43c8_0000,
    ensures
        ({
            let (n, d) = fraction(bpm);
            let step = grid_of(bpm, denominator, seconds).step as int;
            &&& denominator == 8 ==> -(68 * n) <= 64 * (2 * (step * n) - 6_000 * d) <= 68 * n
            &&& denominator == 2 ==> -(34 * n) <= 64 * (step * n - 12_000 * d) <= 34 * n
            &&& denominator != 8 && denominator != 2 ==> -(34 * n) <= 64 * (step * n - 6_000 * d)
                <= 34 * n
        }),
        grid_of(bpm, denominator, seconds).length == span_ticks(seconds),
{
    lemma_in_range(bpm);
    lemma_small_unit(bpm);
    let (n, d) = fraction(bpm);
    let big = DOUBLE as int;
    let (p, q) = nearest(60 * d, n, big);
    lemma_nearest_close(60 * d, n, big);
    let (b0, b1) = beat_value(denominator);
    let a = 100 * b0;
    assert(128 * (a * (60 * d)) <= big) by (nonlinear_arith)
        requires
            a == 100 || a == 200,
            0 < d <= 0x8_0000,
            big == 0x20_0000_0000_0000,
    ;
    lemma_chain(a, 60 * d, n, b1, p, q);
    assert(p * b0 * 100 == a * p) by (nonlinear_arith)
        requires
            a == 100 * b0,
    ;
    let (m, u) = nearest(a * p, q * b1, big);
    assert(beat_ticks(bpm, denominator) == Some((m, u)));
    let k = nearest_up(m, u);
    assert(p > 0) by (nonlinear_arith)
        requires
            -((60 * d) * q) <= big * (p * n - (60 * d) * q),
            big == 0x20_0000_0000_0000,
            q >= 1,
            d > 0,
            p >= 0,
    ;
    assert(a * p > 0) by (nonlinear_arith)
        requires
            a > 0,
            p > 0,
    ;
    assert(q * b1 > 0) by (nonlinear_arith)
        requires
            q >= 1,
            b1 >= 1,
    ;
    lemma_nearest_close(a * p, q * b1, big);
    lemma_nearest_up(m, u);
    let tc = n * b1;
    // A beat is seven ticks at least.
    assert((60 * d) * a >= 7 * tc) by (nonlinear_arith)
        requires
            n <= 400 * d,
            d > 0,
            tc == n * b1,
            b1 == 2 && a == 100 || b1 == 1 && a >= 100,
    ;
    assert(tc >= 1) by (nonlinear_arith)
        requires
            tc == n * b1,
            n > 0,
            b1 >= 1,
    ;
    assert(k >= 2) by (nonlinear_arith)
        requires
            -(34 * tc) <= 64 * (k * tc - (60 * d) * a),
            (60 * d) * a >= 7 * tc,
            tc >= 1,
    ;
    assert(m >= u) by (nonlinear_arith)
        requires
            -u <= 2 * (m - k * u),
            k >= 2,
            u >= 1,
    ;
    assert(k <= 601) by (nonlinear_arith)
        requires
            64 * (k * tc - (60 * d) * a) <= 34 * tc,
            (60 * d) * a <= 600 * tc,
            tc >= 1,
    ;
    assert((60 * d) * a <= 600 * tc) by (nonlinear_arith)
        requires
            20 * d <= n,
            d > 0,
            tc == n * b1,
            b1 >= 1,
            a <= 200,
    ;
    let step = grid_of(bpm, denominator, seconds).step as int;
    assert(step == k);
    if denominator == 8 {
        assert(k * (n * 2) == 2 * (k * n)) by (nonlinear_arith);
        assert((60 * d) * 100 == 6_000 * d) by (nonlinear_arith);
    } else if denominator == 2 {
        assert(n * 1 == n);
        assert((60 * d) * 200 == 12_000 * d) by (nonlinear_arith);
    } else {
        assert(n * 1 == n);
        assert((60 * d) * 100 == 6_000 * d) by (nonlinear_arith);
    }
    lemma_length_small(seconds);
}

/// A sequence has as many beats as go into its length, and no more, give or take a thousandth
/// of a beat.
pub proof fn lemma_beat_count(bpm: Single, denominator: u8, seconds: Single, ticks: (int, int))
    requires
        beat_ticks(bpm, denominator) == Some(ticks),
        ticks.0 >= ticks.1 >= 1,
    ensures
        ({
            let grid = grid_of(bpm, denominator, seconds);
            -(1_001 * ticks.0) < 1_000 * (grid.steps * ticks.0 - grid.length * ticks.1) < ticks.0
        }),
{
    let (m, u) = ticks;
    let big = DOUBLE as int;
    let length = span_ticks(seconds);
    lemma_length_small(seconds);
    let n = length * u;
    let (x, y) = nearest(n, m, big);
    if length == 0 {
        assert(n == 0) by (nonlinear_arith)
            requires
                n == length * u,
                length == 0,
        ;
        lemma_nearest_exact(0, m, big, 0);
        assert(0 * m == 0);
        assert(x == 0 * y);
        assert(x / y == 0) by (nonlinear_arith)
            requires
                x == 0,
                y >= 1,
        ;
        assert(0 * ticks.0 == 0 && 0 * ticks.1 == 0);
    } else {
        assert(n > 0) by (nonlinear_arith)
            requires
                n == length * u,
                length > 0,
                u >= 1,
        ;
        lemma_nearest_close(n, m, big);
        let steps = x / y;
        vstd::arithmetic::div_mod::lemma_fundamental_div_mod(x, y);
        vstd::arithmetic::div_mod::lemma_mod_bound(x, y);
        assert(y * steps == steps * y) by (nonlinear_arith);
        assert((steps + 1) * y == steps * y + y) by (nonlinear_arith);
        let b = x * m - n * y;
        let my = m * y;
        assert(n <= 9_999 * m) by (nonlinear_arith)
            requires
                n == length * u,
                0 <= length <= 9_999,
                1 <= u <= m,
        ;
        assert(-my < 1_000 * b < my) by (nonlinear_arith)
            requires
                -(n * y) <= big * b <= n * y,
                n <= 9_999 * m,
                big == 0x20_0000_0000_0000,
                my == m * y,
                m >= 1,
                y >= 1,
        ;
        let s = steps * m - n;
        assert(s * y <= b) by (nonlinear_arith)
            requires
                s == steps * m - n,
                b == x * m - n * y,
                steps * y <= x,
                m >= 1,
        ;
        assert((s + m) * y > b) by (nonlinear_arith)
            requires
                s == steps * m - n,
                b == x * m - n * y,
                (steps + 1) * y > x,
                m >= 1,
        ;
        assert(1_000 * s < m) by (nonlinear_arith)
            requires
                s * y <= b,
                1_000 * b < my,
                my == m * y,
                y >= 1,
        ;
        assert(1_000 * (s + m) > -m) by (nonlinear_arith)
            requires
                (s + m) * y > b,
                1_000 * b > -my,
                my == m * y,
                y >= 1,
        ;
        assert(0 <= steps) by (nonlinear_arith)
            requires
                (steps + 1) * y > x,
                x >= 0,
                y >= 1,
        ;
        assert(steps <= 10_000) by (nonlinear_arith)
            requires
                1_000 * (steps * m - n) < m,
                n <= 9_999 * m,
                m >= 1,
        ;
    }
}

proof fn lemma_length_small(seconds: Single)
    ensures
        0 <= span_ticks(seconds) <= 9_999,
{
    if !seconds.is_nan() && !seconds.negative() && seconds.bits != 0x7f80_0000 {
        lemma_length_close(seconds);
    }
}

proof fn lemma_small_unit(bpm: Single)
    requires
        0x41a0_0000 <= bpm.bits <= 0x43c8_0000,
    ensures
        fraction(bpm).1 <= 0x8_0000,
{
    lemma2_to64();
    let e = bpm.exponent();
    assert(131 <= e <= 135);
    if e == 131 {
        assert(fraction(bpm).1 == 0x8_0000);
    } else if e == 132 {
        assert(fraction(bpm).1 == 0x4_0000);
    } else if e == 133 {
        assert(fraction(bpm).1 == 0x2_0000);
    } else if e == 134 {
        assert(fraction(bpm).1 == 0x1_0000);
    } else {
        assert(fraction(bpm).1 == 0x8000);
    }
}

/// The tempo that a whole number of beats in a minute stands for is just that number, kept
/// between 20 and 400.
pub proof fn lemma_whole_tempo(n: int)
    ensures
        20 <= n <= 400 ==> same_value(fraction(tempo_single(n, 1)), (n, 1)),
        n < 20 ==> tempo_single(n, 1).bits == 0x41a0_0000,
        n > 400 ==> tempo_single(n, 1).bits == 0x43c8_0000,
{
    lemma2_to64();
    if 20 <= n < 400 {
        let (unit, base) = crate::text_to_midi::tempo::binade(n, 1);
        assert(nearest_even(n * unit, 1) == n * unit);
        let value = tempo_single(n, 1);
        assert(0x80_0000 <= n * unit < 0x100_0000) by (nonlinear_arith)
            requires
                20 <= n < 32 && unit == 0x8_0000 || 32 <= n < 64 && unit == 0x4_0000 || 64 <= n < 128
                    && unit == 0x2_0000 || 128 <= n < 256 && unit == 0x1_0000 || 256 <= n < 400
                    && unit == 0x8000,
        ;
        assert(value.bits == base + n * unit - 0x80_0000);
        assert(value.significand() == n * unit);
        assert(fraction(value) == (n * unit, unit));
        assert((n * unit) * 1 == n * unit);
    } else if n == 400 {
        lemma_tempo_limits(Single { bits: 0 });
        assert(tempo_single(n, 1).bits == 0x43c8_0000);
        assert((400 * 0x8000int) * 1 == 400 * 0x8000int);
    }
}

/// A tempo that is given as a fraction is rounded to the nearest number of single precision.
pub proof fn lemma_fraction_tempo(n: int, d: int)
    requires
        d >= 1,
        20 * d <= n < 400 * d,
    ensures
        exists|k: int, unit: int|
            {
                &&& #[trigger] same_value(fraction(tempo_single(n, d)), (k, unit))
                &&& unit >= 0x8000
                &&& -d <= 2 * (k * d - n * unit) <= d
            },
{
    lemma2_to64();
    let (unit, base) = crate::text_to_midi::tempo::binade(n, d);
    let k = nearest_even(n * unit, d);
    lemma_nearest_whole(n * unit, d);
    assert(0x80_0000 * d <= n * unit < 0x100_0000 * d) by (nonlinear_arith)
        requires
            d >= 1,
            20 * d <= n < 32 * d && unit == 0x8_0000 || 32 * d <= n < 64 * d && unit == 0x4_0000
                || 64 * d <= n < 128 * d && unit == 0x2_0000 || 128 * d <= n < 256 * d && unit
                == 0x1_0000 || 256 * d <= n < 400 * d && unit == 0x8000,
    ;
    assert(0x80_0000 <= k <= 0x100_0000) by (nonlinear_arith)
        requires
            -d <= 2 * (k * d - n * unit) <= d,
            0x80_0000 * d <= n * unit < 0x100_0000 * d,
            d >= 1,
    ;
    if unit == 0x8000 {
        assert(k < 0x100_0000) by (nonlinear_arith)
            requires
                -d <= 2 * (k * d - n * unit) <= d,
                n < 400 * d,
                unit == 0x8000,
                d >= 1,
        ;
    }
    let value = tempo_single(n, d);
    assert(value.bits == base + k - 0x80_0000);
    if k < 0x100_0000 {
        assert(value.significand() == k);
        assert(fraction(value) == (k, unit));
        assert(k * unit == k * unit);
    } else {
        assert(value.significand() == 0x80_0000);
        let half = unit / 2;
        assert(fraction(value) == (0x80_0000int, half));
        assert(unit == 0x8_0000 || unit == 0x4_0000 || unit == 0x2_0000 || unit == 0x1_0000);
        assert(unit == 2 * half);
        assert(0x80_0000 * unit == k * half) by (nonlinear_arith)
            requires
                unit == 2 * half,
                k == 0x100_0000,
        ;
    }
    assert(same_value(fraction(value), (k, unit)));
}

/// Where the tempo is no number, a beat is a tick, a quarter takes no time, and all that is not
/// at the start is beyond all ticks; a length that is none is nought.
pub proof fn lemma_no_tempo(bpm: Single, denominator: u8, seconds: Single, time: u32)
    requires
        bpm.is_nan(),
    ensures
        grid_of(bpm, denominator, seconds).step == 1,
        grid_of(bpm, denominator, seconds).steps == grid_of(bpm, denominator, seconds).length,
        tempo_microseconds(bpm) == 0,
        midi_ticks(0, 0) == 0,
        time > 0 ==> midi_ticks(time, 0) == u64::MAX,
        seconds.is_nan() || seconds.negative() ==> span_ticks(seconds) == 0,
{
    lemma_length_small(seconds);
    let length = span_ticks(seconds);
    let big = DOUBLE as int;
    lemma_nearest_exact(length, 1, big, length);
    let steps = nearest(length * 1, 1, big);
    assert(length * 1 == length);
    assert(steps.0 / steps.1 == length) by (nonlinear_arith)
        requires
            steps.0 == length * steps.1,
            steps.1 >= 1,
    ;
    lemma_nearest_up(1, 1);
    assert(1 == 1 * 1);
}

} // verus!
