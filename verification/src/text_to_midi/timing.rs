//! Tempo, ticks and steps: the floating-point arithmetic of musical time, on
//! exact fractions.

use vstd::arithmetic::power2::{lemma_pow2_adds, lemma_pow2_pos, lemma_pow2_strictly_increases, pow2};
use vstd::prelude::*;

use crate::rounding::{
    lemma_at_least, lemma_at_most, lemma_vanishes, nearest, nearest_up, round_to, round_up, DOUBLE,
    SINGLE,
};
use crate::single::{fraction, Single, INFINITY};

verus! {

/// The bits of the slowest tempo, 20 beats per minute.
pub const SLOWEST: u32 = 0x41a0_0000;

/// The bits of the fastest tempo, 400 beats per minute.
pub const FASTEST: u32 = 0x43c8_0000;

/// A tempo brought into the range from the slowest to the fastest. What is no
/// number stays as it is.
pub open spec fn clamped_tempo(bpm: Single) -> Single {
    if bpm.is_nan() {
        bpm
    } else if bpm.negative() || bpm.bits < SLOWEST {
        Single { bits: SLOWEST }
    } else if bpm.bits > FASTEST {
        Single { bits: FASTEST }
    } else {
        bpm
    }
}

/// Brings a tempo into range.
pub fn clamp_tempo(bpm: Single) -> (clamped: Single)
    ensures
        clamped == clamped_tempo(bpm),
{
    let magnitude: u32 = bpm.unsigned_bits();
    if magnitude > INFINITY {
        bpm
    } else if bpm.bits >= 0x8000_0000 || bpm.bits < SLOWEST {
        Single { bits: SLOWEST }
    } else if bpm.bits > FASTEST {
        Single { bits: FASTEST }
    } else {
        bpm
    }
}

/// Two to the power `k`.
fn power(k: u32) -> (p: u128)
    requires
        k <= 100,
    ensures
        p == pow2(k as nat),
        1 <= p <= pow2(100),
{
    let mut p: u128 = 1;
    let mut i: u32 = 0;
    proof {
        vstd::arithmetic::power2::lemma2_to64();
        lemma_hundred();
    }
    while i < k
        invariant
            i <= k <= 100,
            p == pow2(i as nat),
            pow2(100) == 0x10_0000_0000_0000_0000_0000_0000,
            1 <= p <= pow2(100),
        decreases k - i,
    {
        proof {
            lemma_pow2_adds(i as nat, 1);
            vstd::arithmetic::power2::lemma2_to64();
            lemma_pow2_pos((i + 1) as nat);
            if i + 1 < 100 {
                lemma_pow2_strictly_increases((i + 1) as nat, 100);
            }
        }
        p = p * 2;
        i += 1;
    }
    p
}

proof fn lemma_hundred()
    ensures
        pow2(100) == 0x10_0000_0000_0000_0000_0000_0000,
{
    vstd::arithmetic::power2::lemma2_to64();
    vstd::arithmetic::power2::lemma2_to64_rest();
    lemma_pow2_adds(50, 50);
}

/// The fraction of a tempo in range: between 20 and 400.
fn tempo_fraction(bpm: Single) -> (f: (u128, u128))
    requires
        SLOWEST <= bpm.bits <= FASTEST,
    ensures
        (f.0 as int, f.1 as int) == fraction(bpm),
        0x80_0000 <= f.0 < 0x100_0000,
        0x8000 <= f.1 <= 0x8_0000,
        20 * f.1 <= f.0 <= 400 * f.1,
{
    proof {
        vstd::arithmetic::power2::lemma2_to64();
    }
    let e: u32 = bpm.bits / 0x80_0000;
    let significand: u128 = (0x80_0000 + bpm.bits % 0x80_0000) as u128;
    let unit: u128 = power(150 - e);
    (significand, unit)
}

/// The microseconds per quarter note at a tempo: sixty million divided by the
/// tempo in single precision, rounded to a whole number. A tempo that is no
/// number gives zero.
pub open spec fn tempo_microseconds(bpm: Single) -> int {
    let clamped = clamped_tempo(bpm);
    if clamped.is_nan() {
        0
    } else {
        let (n, d) = fraction(clamped);
        let quotient = nearest(60_000_000 * d, n, SINGLE as int);
        nearest_up(quotient.0, quotient.1)
    }
}

/// Converts a tempo into microseconds per quarter note.
pub fn tempo_us_from_bpm(bpm: Single) -> (us: u32)
    ensures
        us == tempo_microseconds(bpm),
        us <= 3_000_000,
        !bpm.is_nan() ==> us >= 150_000,
{
    let clamped = clamp_tempo(bpm);
    if clamped.unsigned_bits() > INFINITY {
        return 0;
    }
    let (n, d) = tempo_fraction(clamped);
    let ghost top = 60_000_000 * d;
    proof {
        assert(top <= n * 3_000_000);
        assert(top >= n * 150_000);
        lemma_at_most(top, n as int, SINGLE as int, 3_000_000);
        lemma_at_least(top, n as int, SINGLE as int, 150_000);
    }
    let (m, unit) = round_to(60_000_000 * d, n, SINGLE);
    assert(unit < 0x4000_0000_0000_0000_0000_0000_0000_0000) by (nonlinear_arith)
        requires
            unit * top < n * SINGLE,
            top >= 1,
            n < 0x100_0000,
            SINGLE == 0x100_0000,
    ;
    round_up(m, unit) as u32
}

/// The MIDI ticks of a span of 10 ms ticks at a tempo, in double precision: the
/// ticks per span, 480 times ten thousand divided by the tempo; their product
/// with the count, rounded to a whole number. At the tempo zero any span but an
/// empty one is endless.
pub open spec fn midi_ticks(amt_ticks: u32, tempo_us: u32) -> int {
    if tempo_us == 0 {
        if amt_ticks == 0 {
            0
        } else {
            u64::MAX as int
        }
    } else {
        let factor = nearest(4_800_000, tempo_us as int, DOUBLE as int);
        let ticks = nearest(amt_ticks * factor.0, factor.1, DOUBLE as int);
        nearest_up(ticks.0, ticks.1)
    }
}

/// Converts 10 ms ticks into absolute MIDI ticks for a given tempo.
pub fn amt_ticks_to_midi_ticks(amt_ticks: u32, tempo_us: u32) -> (ticks: u64)
    ensures
        ticks == midi_ticks(amt_ticks, tempo_us),
{
    if tempo_us == 0 {
        return if amt_ticks == 0 {
            0
        } else {
            0xffff_ffff_ffff_ffff
        };
    }
    let tempo: u128 = tempo_us as u128;
    proof {
        assert(4_800_000 < tempo * DOUBLE) by (nonlinear_arith)
            requires
                tempo >= 1,
                DOUBLE == 0x20_0000_0000_0000,
        ;
        assert(4_800_000 <= tempo * 4_800_000) by (nonlinear_arith)
            requires
                tempo >= 1,
        ;
        lemma_at_most(4_800_000, tempo as int, DOUBLE as int, 4_800_000);
    }
    let (f, unit) = round_to(4_800_000, tempo, DOUBLE);
    let count: u128 = amt_ticks as u128;
    proof {
        assert(unit < 0x8000_0000_0000_0000) by (nonlinear_arith)
            requires
                unit * 4_800_000 < tempo * DOUBLE,
                tempo <= 0xffff_ffff,
                DOUBLE == 0x20_0000_0000_0000,
        ;
        assert(count * f <= 0xffff_ffff * 0x20_0000_0000_0000) by (nonlinear_arith)
            requires
                0 <= count <= 0xffff_ffff,
                0 <= f <= 0x20_0000_0000_0000,
        ;
        assert(unit * DOUBLE < 0x1000_0000_0000_0000_0000_0000_0000_0000) by (nonlinear_arith)
            requires
                unit < 0x8000_0000_0000_0000,
                DOUBLE == 0x20_0000_0000_0000,
        ;
        assert(count * f <= unit * (count * 4_800_000)) by (nonlinear_arith)
            requires
                f <= 4_800_000 * unit,
                count >= 0,
        ;
    }
    let (m, scale) = round_to(count * f, unit, DOUBLE);
    proof {
        let n = count * f;
        let bound = count * 4_800_000;
        assert(bound <= 0xffff_ffff * 4_800_000);
        if n < unit * DOUBLE {
            lemma_at_most(n as int, unit as int, DOUBLE as int, bound as int);
            if n > 0 {
                assert(scale < 0x1000_0000_0000_0000_0000_0000_0000_0000) by (nonlinear_arith)
                    requires
                        scale * n < unit * DOUBLE,
                        n >= 1,
                        unit * DOUBLE < 0x1000_0000_0000_0000_0000_0000_0000_0000,
                ;
            }
        } else {
            assert(m <= 2 * bound) by (nonlinear_arith)
                requires
                    m * unit <= 2 * n,
                    n <= unit * bound,
                    unit >= 1,
            ;
            assert(nearest_up(m as int, 1) == m);
        }
    }
    round_up(m, scale) as u64
}

/// The greatest span of a sequence in 10 ms ticks.
pub const LONGEST: u32 = 9_999;

/// The 10 ms ticks of a span in seconds: a hundred times the span in single
/// precision, rounded to a whole number, and at most `LONGEST`. A negative span
/// is empty, and so is one that is no number.
pub open spec fn span_ticks(seconds: Single) -> int {
    if seconds.is_nan() || seconds.negative() {
        0
    } else if seconds.bits == INFINITY {
        LONGEST as int
    } else {
        let (n, d) = fraction(seconds);
        let ticks = nearest(100 * n, d, SINGLE as int);
        let whole = nearest_up(ticks.0, ticks.1);
        if whole < LONGEST {
            whole
        } else {
            LONGEST as int
        }
    }
}

/// Converts a span in seconds into 10 ms ticks.
pub fn length_ticks(seconds: Single) -> (ticks: u32)
    ensures
        ticks == span_ticks(seconds),
        ticks <= LONGEST,
{
    if seconds.unsigned_bits() > INFINITY || seconds.bits >= 0x8000_0000 {
        return 0;
    }
    if seconds.bits == INFINITY {
        return LONGEST;
    }
    let e: u32 = seconds.bits / 0x80_0000;
    let ghost n = fraction(seconds).0;
    let ghost d = fraction(seconds).1;
    proof {
        vstd::arithmetic::power2::lemma2_to64();
        lemma_hundred();
        lemma_pow2_pos(if seconds.scale() >= 0 {
            seconds.scale() as nat
        } else {
            (-seconds.scale()) as nat
        });
    }
    if e >= 134 {
        proof {
            if seconds.scale() >= 0 {
                let unit = pow2(seconds.scale() as nat) as int;
                assert(100 * (seconds.significand() * unit) >= 9_999) by (nonlinear_arith)
                    requires
                        seconds.significand() >= 0x80_0000,
                        unit >= 1,
                ;
            } else {
                if -seconds.scale() < 16 {
                    lemma_pow2_strictly_increases((-seconds.scale()) as nat, 16);
                }
                assert(100 * n >= d * 9_999);
            }
            lemma_at_least(100 * n, d, SINGLE as int, 9_999);
        }
        return LONGEST;
    }
    if e < 100 {
        proof {
            vstd::arithmetic::power2::lemma2_to64_rest();
            if -seconds.scale() > 50 {
                lemma_pow2_strictly_increases(50, (-seconds.scale()) as nat);
            }
            lemma_vanishes(100 * n, d, SINGLE as int);
        }
        return 0;
    }
    let significand: u128 = (0x80_0000 + seconds.bits % 0x80_0000) as u128;
    let unit: u128 = power(150 - e);
    proof {
        if 150 - e < 50 {
            lemma_pow2_strictly_increases((150 - e) as nat, 50);
        }
        vstd::arithmetic::power2::lemma2_to64_rest();
        if 150 - e > 17 {
            lemma_pow2_strictly_increases(17, (150 - e) as nat);
        }
        assert(unit >= 0x2_0000);
        lemma_at_most(100 * n, d, SINGLE as int, 12_800);
    }
    let (m, scale) = round_to(100 * significand, unit, SINGLE);
    assert(scale < 0x1000_0000_0000_0000_0000_0000_0000_0000) by (nonlinear_arith)
        requires
            scale * (100 * significand) < unit * SINGLE,
            significand >= 1,
            unit <= 0x4_0000_0000_0000,
            SINGLE == 0x100_0000,
    ;
    let whole: u32 = round_up(m, scale) as u32;
    if whole < LONGEST {
        whole
    } else {
        LONGEST
    }
}

/// How many quarter notes a beat is, for the lower number of a time signature:
/// a fraction. Eighth and half notes have grids of their own.
pub open spec fn beat_value(denominator: u8) -> (int, int) {
    if denominator == 8 {
        (1, 2)
    } else if denominator == 2 {
        (2, 1)
    } else {
        (1, 1)
    }
}

/// The 10 ms ticks per beat at a tempo, in double precision: sixty divided by
/// the tempo, times the beat, times a hundred. `None` where the tempo is no
/// number.
pub open spec fn beat_ticks(bpm: Single, denominator: u8) -> Option<(int, int)> {
    if bpm.is_nan() {
        None
    } else {
        let (n, d) = fraction(bpm);
        let quarter = nearest(60 * d, n, DOUBLE as int);
        let beat = beat_value(denominator);
        Some(nearest(quarter.0 * beat.0 * 100, quarter.1 * beat.1, DOUBLE as int))
    }
}

/// Where the beats of a sequence fall.
#[derive(Clone, Copy, Debug, PartialEq, Eq, Structural)]
pub struct Grid {
    /// The length of the sequence in 10 ms ticks.
    pub length: u32,
    /// How many whole beats the sequence has.
    pub steps: u32,
    /// The 10 ms ticks per beat, as a whole number.
    pub step: u32,
}

/// The grid of a sequence: the whole beats in its length, a beat being at least
/// one tick long, and the beat rounded to whole ticks.
pub open spec fn grid_of(bpm: Single, denominator: u8, seconds: Single) -> Grid {
    let length = span_ticks(seconds);
    let beat = match beat_ticks(bpm, denominator) {
        Some(ticks) => if ticks.0 < ticks.1 {
            (1, 1)
        } else {
            ticks
        },
        None => (1, 1),
    };
    let steps = nearest(length * beat.1, beat.0, DOUBLE as int);
    let whole = nearest_up(beat.0, beat.1);
    Grid {
        length: length as u32,
        steps: (steps.0 / steps.1) as u32,
        step: (if whole < 1 {
            1
        } else {
            whole
        }) as u32,
    }
}

/// Computes a beat in 10 ms ticks.
fn beat_step_ticks(bpm: Single, denominator: u8) -> (beat: (u128, u128))
    requires
        SLOWEST <= bpm.bits <= FASTEST,
    ensures
        beat_ticks(bpm, denominator) == Some((beat.0 as int, beat.1 as int)),
        1 <= beat.1 < 0x200_0000_0000_0000_0000_0000_0000,
        1 <= beat.0 <= DOUBLE,
        beat.0 <= 600 * beat.1,
{
    let (n, d) = tempo_fraction(bpm);
    let top: u128 = 60 * d;
    proof {
        lemma_at_most(top as int, n as int, DOUBLE as int, 3);
        assert(n * DOUBLE <= 0x100_0000 * DOUBLE) by (nonlinear_arith)
            requires
                n <= 0x100_0000,
                DOUBLE >= 0,
        ;
    }
    let (q, unit) = round_to(top, n, DOUBLE);
    assert(unit < 0x200_0000_0000_0000) by (nonlinear_arith)
        requires
            unit * top < n * DOUBLE,
            top >= 60 * 0x8000,
            n < 0x100_0000,
            DOUBLE == 0x20_0000_0000_0000,
    ;
    let (a, b): (u128, u128) = if denominator == 8 {
        (1, 2)
    } else if denominator == 2 {
        (2, 1)
    } else {
        (1, 1)
    };
    let over: u128 = q * a * 100;
    let under: u128 = unit * b;
    proof {
        assert(under * DOUBLE < 0x1000_0000_0000_0000_0000_0000_0000_0000) by (nonlinear_arith)
            requires
                under <= 0x400_0000_0000_0000,
                DOUBLE == 0x20_0000_0000_0000,
        ;
        assert(over <= under * 600) by (nonlinear_arith)
            requires
                over == q * a * 100,
                under == unit * b,
                q <= 3 * unit,
                1 <= a <= 2,
                b >= 1,
        ;
        assert(over < under * DOUBLE) by (nonlinear_arith)
            requires
                over <= under * 600,
                under >= 1,
                DOUBLE == 0x20_0000_0000_0000,
        ;
        lemma_at_most(over as int, under as int, DOUBLE as int, 600);
    }
    let beat = round_to(over, under, DOUBLE);
    assert(beat.1 < 0x200_0000_0000_0000_0000_0000_0000) by (nonlinear_arith)
        requires
            beat.1 * over < under * DOUBLE,
            over >= 100,
            under <= 0x400_0000_0000_0000,
            DOUBLE == 0x20_0000_0000_0000,
    ;
    beat
}

/// Lays out the beats of a sequence.
pub fn beat_grid(bpm: Single, denominator: u8, seconds: Single) -> (grid: Grid)
    requires
        bpm.is_nan() || SLOWEST <= bpm.bits <= FASTEST,
    ensures
        grid == grid_of(bpm, denominator, seconds),
        grid.length <= LONGEST,
        1 <= grid.step <= 600,
        grid.steps <= grid.length,
{
    let length: u32 = length_ticks(seconds);
    let mut beat: (u128, u128) = (1, 1);
    if bpm.unsigned_bits() <= INFINITY {
        let ticks = beat_step_ticks(bpm, denominator);
        if ticks.0 >= ticks.1 {
            beat = ticks;
        }
    }
    assert(0 <= length * beat.1 <= 9_999 * 0x200_0000_0000_0000_0000_0000_0000) by (
    nonlinear_arith)
        requires
            0 <= length <= 9_999,
            0 <= beat.1 <= 0x200_0000_0000_0000_0000_0000_0000,
    ;
    let over: u128 = length as u128 * beat.1;
    proof {
        assert(beat.0 * DOUBLE <= DOUBLE * DOUBLE) by (nonlinear_arith)
            requires
                beat.0 <= DOUBLE,
                DOUBLE >= 0,
        ;
        assert(DOUBLE * DOUBLE == 0x400_0000_0000_0000_0000_0000_0000);
        assert(over <= beat.0 * length) by (nonlinear_arith)
            requires
                over == length * beat.1,
                beat.1 <= beat.0,
        ;
        assert(over < beat.0 * DOUBLE) by (nonlinear_arith)
            requires
                over <= beat.0 * length,
                length <= 9_999,
                beat.0 >= 1,
                DOUBLE == 0x20_0000_0000_0000,
        ;
        lemma_at_most(over as int, beat.0 as int, DOUBLE as int, length as int);
    }
    let (m, unit) = round_to(over, beat.0, DOUBLE);
    assert(m / unit <= length) by (nonlinear_arith)
        requires
            m <= length * unit,
            unit >= 1,
    ;
    let steps: u32 = (m / unit) as u32;
    proof {
        lemma_whole_beat(beat.0 as int, beat.1 as int);
    }
    let whole: u32 = round_up(beat.0, beat.1) as u32;
    let step: u32 = if whole < 1 {
        1
    } else {
        whole
    };
    Grid { length, steps, step }
}

proof fn lemma_whole_beat(n: int, d: int)
    requires
        1 <= d,
        1 <= n <= 600 * d,
    ensures
        0 <= nearest_up(n, d) <= 600,
{
    assert(0 <= (2 * n + d) / (2 * d) <= 600) by (nonlinear_arith)
        requires
            1 <= d,
            1 <= n <= 600 * d,
    ;
}

} // verus!
