//! The timesteps of the diffusion sampler.

use vstd::prelude::*;

use crate::rounding::{
    fine, lemma_fewer_places, lemma_near, nearest, round_scaled, round_to, SINGLE,
};
use crate::single::{fraction, from_rounded, same_value, Single};

verus! {

/// Schedule of the distilled model, by the bits: eight uniform steps, shifted by
/// the factor three, from 1 down to 0.3.
pub const TURBO_TIMESTEPS: [u32; 8] = [
    0x3f80_0000,
    0x3f74_5d17,
    0x3f66_6666,
    0x3f55_5555,
    0x3f40_0000,
    0x3f24_9249,
    0x3f00_0000,
    0x3e99_999a,
];

/// Number of steps of the fine-tuned model.
pub const SFT_STEPS: usize = 50;

/// `value` is one less `index / 50`, each operation in single precision.
pub open spec fn is_sft_step(index: int, value: Single) -> bool {
    let ratio = nearest(index, 50, SINGLE as int);
    &&& !value.negative()
    &&& 1 <= value.exponent() <= 254
    &&& same_value(fraction(value), nearest(ratio.1 - ratio.0, ratio.1, SINGLE as int))
}

/// How far the ratio of a step is from `index / 50`.
proof fn lemma_ratio(index: int)
    requires
        0 <= index < 50,
    ensures
        ({
            let (a, b) = nearest(index, 50, SINGLE as int);
            &&& 0 <= a < b
            &&& index == 0 ==> a == 0 && b == 1
            &&& index > 0 ==> 2 * b >= SINGLE
            &&& -50 <= 2 * (50 * a - index * b) <= 50
        }),
{
    let (a, b) = nearest(index, 50, SINGLE as int);
    if index == 0 {
        assert(fine(0, 50, SINGLE as int) == 1);
    } else {
        lemma_near(index, 50, SINGLE as int);
        assert(a * 50 == 50 * a);
        assert(50 * a < 50 * b) by (nonlinear_arith)
            requires
                2 * (50 * a - index * b) <= 50,
                2 * b >= 0x100_0000,
                index <= 49,
        ;
    }
}

/// A step of the fine-tuned model.
fn sft_timestep(index: usize) -> (value: Single)
    requires
        index < SFT_STEPS,
    ensures
        is_sft_step(index as int, value),
{
    let (x, y) = round_to(index as u128, 50, SINGLE);
    proof {
        lemma_ratio(index as int);
        assert(y <= 50 * 0x100_0000) by {
            if index > 0 {
                assert(y <= 50 * 0x100_0000) by (nonlinear_arith)
                    requires
                        y * index < 50 * SINGLE,
                        index >= 1,
                        SINGLE == 0x100_0000,
                ;
            }
        }
        assert(y * SINGLE <= 50 * 0x100_0000 * 0x100_0000) by (nonlinear_arith)
            requires
                0 <= y <= 50 * 0x100_0000,
                SINGLE == 0x100_0000,
        ;
    }
    let apart: u128 = y - x;
    let rounded = round_scaled(apart, y, SINGLE);
    proof {
        vstd::arithmetic::power2::lemma2_to64();
        vstd::arithmetic::power2::lemma2_to64_rest();
        assert(apart < y * SINGLE) by (nonlinear_arith)
            requires
                apart <= y,
                y >= 1,
                SINGLE == 0x100_0000,
        ;
        assert(rounded.unit < 0x100_0000_0000_0000) by (nonlinear_arith)
            requires
                rounded.unit * apart < y * SINGLE,
                apart >= 1,
                y * SINGLE <= 50 * 0x100_0000 * 0x100_0000,
        ;
        lemma_fewer_places(rounded.places as nat, 56);
    }
    from_rounded(false, &rounded)
}

/// The timesteps of the fine-tuned model: fifty uniform steps from 1 down to
/// 0.02.
pub fn sft_timesteps() -> (steps: Vec<Single>)
    ensures
        steps@.len() == SFT_STEPS,
        forall|i: int| 0 <= i < steps@.len() ==> is_sft_step(i, #[trigger] steps@[i]),
{
    let mut steps: Vec<Single> = Vec::new();
    let mut index: usize = 0;
    while index < SFT_STEPS
        invariant
            index <= SFT_STEPS,
            steps@.len() == index,
            forall|i: int| 0 <= i < steps@.len() ==> is_sft_step(i, #[trigger] steps@[i]),
        decreases SFT_STEPS - index,
    {
        steps.push(sft_timestep(index));
        index += 1;
    }
    steps
}

/// The timesteps of a model: those of the distilled one, or of the fine-tuned one.
pub fn timesteps(is_turbo: bool) -> (steps: Vec<Single>)
    ensures
        is_turbo ==> steps@.len() == 8 && forall|i: int|
            0 <= i < 8 ==> (#[trigger] steps@[i]).bits == TURBO_TIMESTEPS@[i],
        !is_turbo ==> steps@.len() == SFT_STEPS && forall|i: int|
            0 <= i < steps@.len() ==> is_sft_step(i, #[trigger] steps@[i]),
{
    if !is_turbo {
        return sft_timesteps();
    }
    let mut steps: Vec<Single> = Vec::new();
    let mut index: usize = 0;
    while index < 8
        invariant
            index <= 8,
            steps@.len() == index,
            forall|i: int| 0 <= i < index ==> (#[trigger] steps@[i]).bits == TURBO_TIMESTEPS@[i],
        decreases 8 - index,
    {
        steps.push(Single { bits: TURBO_TIMESTEPS[index] });
        index += 1;
    }
    steps
}

/// The first fraction is below the second.
pub open spec fn is_below(a: (int, int), b: (int, int)) -> bool {
    a.0 * b.1 < b.0 * a.1
}

/// A step of the fine-tuned model is within a five-thousandth of one less
/// `index / 50`.
proof fn lemma_sft_step(index: int, value: Single)
    requires
        0 <= index < 50,
        is_sft_step(index, value),
    ensures
        fraction(value).1 >= 1,
        ({
            let (c, e) = fraction(value);
            &&& 100 * (50 * c) <= (100 * (50 - index) + 1) * e
            &&& 100 * (50 * c) >= (100 * (50 - index) - 1) * e
        }),
{
    let (a, b) = nearest(index, 50, SINGLE as int);
    lemma_ratio(index);
    lemma_near(b - a, b, SINGLE as int);
    let (c, e) = nearest(b - a, b, SINGLE as int);
    let slack = c * b - (b - a) * e;
    let shift = 50 * a - index * b;
    assert((50 * c - (50 - index) * e) * b == 50 * slack - e * shift) by (nonlinear_arith)
        requires
            slack == c * b - (b - a) * e,
            shift == 50 * a - index * b,
    ;
    let gap = 50 * c - (50 - index) * e;
    assert(-(25 * e) <= e * shift <= 25 * e) by (nonlinear_arith)
        requires
            -50 <= 2 * shift <= 50,
            e >= 0,
    ;
    assert(100 * gap <= e && -(100 * gap) <= e) by {
        if index == 0 {
            assert(gap * 1 == gap);
            assert(shift == 0);
            assert(e * 0 == 0);
        } else {
            assert(100 * gap <= e && -(100 * gap) <= e) by (nonlinear_arith)
                requires
                    gap * b <= 25 * b + 25 * e,
                    -(gap * b) <= 25 * b + 25 * e,
                    2 * b >= 0x100_0000,
                    2 * e >= 0x100_0000,
            ;
        }
    }
    vstd::arithmetic::power2::lemma_pow2_pos((-value.scale()) as nat);
    let (x, y) = fraction(value);
    assert(y >= 1);
    assert(100 * (50 * c) <= (100 * (50 - index) + 1) * e && 100 * (50 * c) >= (100 * (50 - index)
        - 1) * e) by (nonlinear_arith)
        requires
            100 * gap <= e,
            -(100 * gap) <= e,
            gap == 50 * c - (50 - index) * e,
    ;
    assert(100 * (50 * x) <= (100 * (50 - index) + 1) * y) by (nonlinear_arith)
        requires
            100 * (50 * c) <= (100 * (50 - index) + 1) * e,
            x * e == c * y,
            e >= 1,
            y >= 1,
    ;
    assert(100 * (50 * x) >= (100 * (50 - index) - 1) * y) by (nonlinear_arith)
        requires
            100 * (50 * c) >= (100 * (50 - index) - 1) * e,
            x * e == c * y,
            e >= 1,
            y >= 1,
    ;
}

/// The steps of the fine-tuned model descend.
pub proof fn lemma_sft_descends(i: int, j: int, earlier: Single, later: Single)
    requires
        0 <= i < j < SFT_STEPS,
        is_sft_step(i, earlier),
        is_sft_step(j, later),
    ensures
        is_below(fraction(later), fraction(earlier)),
{
    lemma_sft_step(i, earlier);
    lemma_sft_step(j, later);
    let (a, b) = fraction(earlier);
    let (c, d) = fraction(later);
    assert(c * b < a * d) by (nonlinear_arith)
        requires
            100 * (50 * c) <= (100 * (50 - j) + 1) * d,
            100 * (50 * a) >= (100 * (50 - i) - 1) * b,
            b >= 1,
            d >= 1,
            i < j,
    ;
}


/// The schedule of the distilled model: the shifted step `3 t / (1 + 2 t)` of each
/// `t` of eight uniform ones, in single precision.
pub proof fn lemma_turbo_shifted(index: int)
    requires
        0 <= index < 8,
    ensures
        same_value(
            fraction(Single { bits: TURBO_TIMESTEPS@[index] }),
            nearest(3 * (8 - index), 24 - 2 * index, SINGLE as int),
        ),
{
    reveal_with_fuel(fine, 27);
    vstd::arithmetic::power2::lemma2_to64();
    let value = Single { bits: TURBO_TIMESTEPS@[index] };
    let limit = SINGLE as int;
    if index == 0 {
        assert(fine(24, 24, limit) == 0x800000);
        assert(nearest(24, 24, limit) == (0x800000int, 0x800000int));
        assert(fraction(value) == (0x800000int, 0x800000int));
    } else if index == 1 {
        assert(fine(21, 22, limit) == 0x1000000);
        assert(nearest(21, 22, limit) == (0xf45d17int, 0x1000000int));
        assert(fraction(value) == (0xf45d17int, 0x1000000int));
    } else if index == 2 {
        assert(fine(18, 20, limit) == 0x1000000);
        assert(nearest(18, 20, limit) == (0xe66666int, 0x1000000int));
        assert(fraction(value) == (0xe66666int, 0x1000000int));
    } else if index == 3 {
        assert(fine(15, 18, limit) == 0x1000000);
        assert(nearest(15, 18, limit) == (0xd55555int, 0x1000000int));
        assert(fraction(value) == (0xd55555int, 0x1000000int));
    } else if index == 4 {
        assert(fine(12, 16, limit) == 0x1000000);
        assert(nearest(12, 16, limit) == (0xc00000int, 0x1000000int));
        assert(fraction(value) == (0xc00000int, 0x1000000int));
    } else if index == 5 {
        assert(fine(9, 14, limit) == 0x1000000);
        assert(nearest(9, 14, limit) == (0xa49249int, 0x1000000int));
        assert(fraction(value) == (0xa49249int, 0x1000000int));
    } else if index == 6 {
        assert(fine(6, 12, limit) == 0x1000000);
        assert(nearest(6, 12, limit) == (0x800000int, 0x1000000int));
        assert(fraction(value) == (0x800000int, 0x1000000int));
    } else {
        assert(fine(3, 10, limit) == 0x2000000);
        assert(nearest(3, 10, limit) == (0x99999aint, 0x2000000int));
        assert(fraction(value) == (0x99999aint, 0x2000000int));
    }
}

/// The numerator of a step of the distilled model over two to the power 25.
spec fn turbo_numerator(index: int) -> int {
    if index == 0 {
        0x200_0000
    } else if index == 7 {
        TURBO_TIMESTEPS@[index] - 0x3e00_0000
    } else {
        2 * (TURBO_TIMESTEPS@[index] - 0x3e80_0000)
    }
}

proof fn lemma_turbo_fraction(index: int)
    requires
        0 <= index < 8,
    ensures
        ({
            let (n, d) = fraction(Single { bits: TURBO_TIMESTEPS@[index] });
            d >= 1 && n * 0x200_0000 == turbo_numerator(index) * d
        }),
{
    vstd::arithmetic::power2::lemma2_to64();
    let value = Single { bits: TURBO_TIMESTEPS@[index] };
    let (n, d) = fraction(value);
    if index == 0 {
        assert(n == 0x80_0000 && d == 0x80_0000);
    } else if index == 7 {
        assert(n == turbo_numerator(index) && d == 0x200_0000);
    } else {
        assert(2 * n == turbo_numerator(index) && d == 0x100_0000);
    }
}

/// The steps of the distilled model descend.
pub proof fn lemma_turbo_descends(i: int, j: int)
    requires
        0 <= i < j < 8,
    ensures
        is_below(
            fraction(Single { bits: TURBO_TIMESTEPS@[j] }),
            fraction(Single { bits: TURBO_TIMESTEPS@[i] }),
        ),
{
    lemma_turbo_fraction(i);
    lemma_turbo_fraction(j);
    let (a, b) = fraction(Single { bits: TURBO_TIMESTEPS@[i] });
    let (c, d) = fraction(Single { bits: TURBO_TIMESTEPS@[j] });
    let m = turbo_numerator(i);
    let n = turbo_numerator(j);
    assert(n < m);
    assert(n * (d * b) < m * (d * b)) by (nonlinear_arith)
        requires
            n < m,
            b >= 1,
            d >= 1,
    ;
    assert(c * b < a * d) by (nonlinear_arith)
        requires
            n * (d * b) < m * (d * b),
            c * 0x200_0000 == n * d,
            a * 0x200_0000 == m * b,
    ;
}

} // verus!
