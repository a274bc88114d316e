//! Finite scalar quantization of the audio tokenizer.
//!
//! A code is an index into a codebook of 64000 entries, written in mixed radix
//! with the levels 8, 8, 8, 5, 5 and 5, the least significant first.

use vstd::prelude::*;

use crate::rounding::{lemma_fewer_places, nearest, round_scaled, round_to, SINGLE};
use crate::single::{fraction, from_rounded, same_value, Single};

verus! {

/// Levels per code dimension.
pub const FSQ_LEVELS: [u32; 6] = [8, 8, 8, 5, 5, 5];

/// The weights of the dimensions, the least significant first.
pub const FSQ_BASIS: [u32; 6] = [1, 8, 64, 512, 2560, 12800];

/// Total number of codes.
pub const FSQ_CODEBOOK_SIZE: u32 = 64000;

/// Number of dimensions of a code.
pub const FSQ_CODE_DIM: usize = 6;

/// The digits of an index: `(index / basis) % levels` in each dimension.
pub open spec fn digits(index: int) -> Seq<u32> {
    seq![
        (index % 8) as u32,
        ((index / 8) % 8) as u32,
        ((index / 64) % 8) as u32,
        ((index / 512) % 5) as u32,
        ((index / 2560) % 5) as u32,
        ((index / 12800) % 5) as u32,
    ]
}

/// The index that digits spell.
pub open spec fn spelled(digits: Seq<u32>) -> int {
    digits[0] + 8 * digits[1] + 64 * digits[2] + 512 * digits[3] + 2560 * digits[4] + 12800
        * digits[5]
}

/// Every digit is below the levels of its dimension.
pub open spec fn are_digits(digits: Seq<u32>) -> bool {
    &&& digits.len() == 6
    &&& digits[0] < 8
    &&& digits[1] < 8
    &&& digits[2] < 8
    &&& digits[3] < 5
    &&& digits[4] < 5
    &&& digits[5] < 5
}

/// Decomposes a code index (0..64000) into per-dimension level indices.
pub fn index_to_level_indices(index: u32) -> (level_indices: [u32; 6])
    ensures
        level_indices@ == digits(index as int),
        are_digits(level_indices@),
{
    let level_indices: [u32; 6] = [
        (index / FSQ_BASIS[0]) % FSQ_LEVELS[0],
        (index / FSQ_BASIS[1]) % FSQ_LEVELS[1],
        (index / FSQ_BASIS[2]) % FSQ_LEVELS[2],
        (index / FSQ_BASIS[3]) % FSQ_LEVELS[3],
        (index / FSQ_BASIS[4]) % FSQ_LEVELS[4],
        (index / FSQ_BASIS[5]) % FSQ_LEVELS[5],
    ];
    assert(level_indices@ =~= digits(index as int));
    level_indices
}

/// The digits of a code spell it back.
pub proof fn lemma_digits_spell(index: int)
    requires
        0 <= index < FSQ_CODEBOOK_SIZE,
    ensures
        are_digits(digits(index)),
        spelled(digits(index)) == index,
{
    let a = index / 8;
    let b = a / 8;
    let c = b / 8;
    let d = c / 5;
    let e = d / 5;
    assert(index / 64 == b);
    assert(index / 512 == c);
    assert(index / 2560 == d);
    assert(index / 12800 == e);
}

/// Digits spell a code that has those digits: codes and digits are in one-to-one
/// correspondence.
pub proof fn lemma_spelled_digits(list: Seq<u32>)
    requires
        are_digits(list),
    ensures
        0 <= spelled(list) < FSQ_CODEBOOK_SIZE,
        digits(spelled(list)) == list,
{
    let index = spelled(list);
    let after1 = list[1] + 8 * list[2] + 64 * list[3] + 320 * list[4] + 1600 * list[5];
    let after2 = list[2] + 8 * list[3] + 40 * list[4] + 200 * list[5];
    let after3 = list[3] + 5 * list[4] + 25 * list[5];
    let after4 = list[4] + 5 * list[5];
    assert(index == list[0] + 8 * after1);
    assert(after1 == list[1] + 8 * after2);
    assert(after2 == list[2] + 8 * after3);
    assert(after3 == list[3] + 5 * after4);
    assert(index / 8 == after1);
    assert(index / 64 == after2);
    assert(index / 512 == after3);
    assert(index / 2560 == after4);
    assert(index / 12800 == list[5]);
    assert(digits(index) =~= list);
}

/// `value` is the code value of a level index: twice the index divided by the
/// steps between the levels, less one, each operation in single precision.
pub open spec fn is_level_value(index: u32, steps: int, value: Single) -> bool {
    let whole = nearest(index as int, 1, SINGLE as int);
    let ratio = nearest(2 * whole.0, steps * whole.1, SINGLE as int);
    let apart = if ratio.0 < ratio.1 {
        ratio.1 - ratio.0
    } else {
        ratio.0 - ratio.1
    };
    let result = nearest(apart, ratio.1, SINGLE as int);
    &&& value.negative() <==> ratio.0 < ratio.1
    &&& if result.0 == 0 {
        value.magnitude() == 0
    } else {
        same_value(fraction(value), result)
    }
}

/// The steps between the levels of a dimension.
pub open spec fn level_steps(dimension: int) -> int {
    if dimension < 3 {
        7
    } else {
        4
    }
}

/// Every value is that of the level index in its place.
pub open spec fn are_level_values(indices: Seq<u32>, values: Seq<Single>) -> bool {
    values.len() == 6 && forall|d: int|
        0 <= d < 6 ==> is_level_value(indices[d], level_steps(d), #[trigger] values[d])
}

/// The code value of a level index.
fn level_value(index: u32, steps: u128) -> (value: Single)
    requires
        steps == 7 || steps == 4,
    ensures
        is_level_value(index, steps as int, value),
{
    let (a, b) = round_to(index as u128, 1, SINGLE);
    proof {
        if index == 0 {
            assert(crate::rounding::fine(0, 1, SINGLE as int) == 1);
        } else if index < SINGLE {
            assert(b < 0x100_0000) by (nonlinear_arith)
                requires
                    b * index < 1 * SINGLE,
                    index >= 1,
                    SINGLE == 0x100_0000,
            ;
        }
        assert(a <= 0x2_0000_0000);
        assert(b <= 0x100_0000);
        assert((steps * b) * SINGLE <= (7 * 0x100_0000) * 0x100_0000) by (nonlinear_arith)
            requires
                0 <= steps <= 7,
                0 <= b <= 0x100_0000,
                SINGLE == 0x100_0000,
        ;
    }
    let under: u128 = steps * b;
    let (x, y) = round_to(2 * a, under, SINGLE);
    proof {
        assert(y <= 7 * 0x1_0000_0000_0000) by {
            if a > 0 {
                if 2 * a < under * SINGLE {
                    assert(y <= 7 * 0x1_0000_0000_0000) by (nonlinear_arith)
                        requires
                            y * (2 * a) < under * SINGLE,
                            a >= 1,
                            under * SINGLE <= (7 * 0x100_0000) * 0x100_0000,
                    ;
                }
            } else {
                assert(crate::rounding::fine(0, under as int, SINGLE as int) == 1);
            }
        }
        if 2 * a >= under * SINGLE {
            assert(x <= 0x8_0000_0000) by (nonlinear_arith)
                requires
                    x * under <= 2 * (2 * a),
                    under >= 1,
                    a <= 0x2_0000_0000,
            ;
        }
        assert(y * SINGLE <= 7 * 0x1_0000_0000_0000 * 0x100_0000) by (nonlinear_arith)
            requires
                0 <= y <= 7 * 0x1_0000_0000_0000,
                SINGLE == 0x100_0000,
        ;
    }
    let below: bool = x < y;
    let apart: u128 = if below {
        y - x
    } else {
        x - y
    };
    let rounded = round_scaled(apart, y, SINGLE);
    proof {
        vstd::arithmetic::power2::lemma2_to64();
        vstd::arithmetic::power2::lemma2_to64_rest();
        vstd::arithmetic::power2::lemma_pow2_adds(40, 40);
        if apart > 0 {
            if !rounded.coarse {
                assert(rounded.unit < 0x1_0000_0000_0000_0000_0000) by (nonlinear_arith)
                    requires
                        rounded.unit * apart < y * SINGLE,
                        apart >= 1,
                        y * SINGLE <= 7 * 0x1_0000_0000_0000 * 0x100_0000,
                ;
            } else {
                assert(rounded.unit < 0x1_0000_0000_0000_0000_0000) by (nonlinear_arith)
                    requires
                        (y * rounded.unit) * SINGLE <= 2 * apart,
                        y >= 1,
                        SINGLE == 0x100_0000,
                        apart <= 0x8_0000_0000 + 7 * 0x1_0000_0000_0000,
                        rounded.unit >= 1,
                ;
            }
            lemma_fewer_places(rounded.places as nat, 80);
        }
    }
    let value = from_rounded(below, &rounded);
    assert(rounded.significand == 0 <==> rounded.value().0 == 0) by (nonlinear_arith)
        requires
            rounded.unit >= 1,
            rounded.value().0 == rounded.significand || rounded.value().0 == rounded.significand
                * rounded.unit,
    ;
    value
}

/// Maps per-dimension level indices to continuous code values: for level indices
/// in range, between -1 and 1.
pub fn level_values(level_indices: &[u32; 6]) -> (values: [Single; 6])
    ensures
        are_level_values(level_indices@, values@),
{
    let values: [Single; 6] = [
        level_value(level_indices[0], 7),
        level_value(level_indices[1], 7),
        level_value(level_indices[2], 7),
        level_value(level_indices[3], 4),
        level_value(level_indices[4], 4),
        level_value(level_indices[5], 4),
    ];
    values
}

/// An index brought into the codebook.
pub open spec fn clamped_code(index: i64) -> int {
    if index < 0 {
        0
    } else if index >= FSQ_CODEBOOK_SIZE {
        FSQ_CODEBOOK_SIZE - 1
    } else {
        index as int
    }
}

/// The code values of a list of code indices, six for each. An index out of the
/// codebook stands for the nearest one in it.
pub fn decode_indices(indices: &[i64]) -> (codes: Vec<Single>)
    ensures
        codes@.len() == 6 * indices@.len(),
        forall|i: int|
            0 <= i < indices@.len() ==> are_level_values(
                digits(clamped_code(#[trigger] indices@[i])),
                codes@.subrange(6 * i, 6 * i + 6),
            ),
{
    let mut codes: Vec<Single> = Vec::new();
    let mut n: usize = 0;
    while n < indices.len()
        invariant
            n <= indices@.len(),
            codes@.len() == 6 * n,
            forall|i: int|
                0 <= i < n ==> are_level_values(
                    digits(clamped_code(#[trigger] indices@[i])),
                    codes@.subrange(6 * i, 6 * i + 6),
                ),
        decreases indices@.len() - n,
    {
        let raw: i64 = indices[n];
        let index: u32 = if raw < 0 {
            0
        } else if raw >= 64000 {
            63999
        } else {
            raw as u32
        };
        let level_indices = index_to_level_indices(index);
        let values = level_values(&level_indices);
        let ghost before = codes@;
        let mut d: usize = 0;
        while d < 6
            invariant
                d <= 6,
                before.len() == 6 * n,
                codes@ == before + values@.take(d as int),
            decreases 6 - d,
        {
            codes.push(values[d]);
            d += 1;
            assert(codes@ =~= before + values@.take(d as int));
        }
        proof {
            assert(codes@.subrange(6 * n as int, 6 * n + 6) =~= values@);
            assert forall|i: int| 0 <= i < n implies are_level_values(
                digits(clamped_code(#[trigger] indices@[i])),
                codes@.subrange(6 * i, 6 * i + 6),
            ) by {
                assert(codes@.subrange(6 * i, 6 * i + 6) =~= before.subrange(6 * i, 6 * i + 6));
            }
        }
        n += 1;
    }
    codes
}

} // verus!
