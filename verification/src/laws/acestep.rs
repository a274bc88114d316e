//! Codes, schedules, masks, layouts and candidates of the text-to-audio model.

use vstd::arithmetic::power2::{lemma_pow2_pos, pow2};
use vstd::prelude::*;

use crate::acestep::config::{DecoderStage, OobleckVaeConfig};
use crate::acestep::fsq::{
    clamped_code, digits, is_level_value, level_steps, spelled, FSQ_CODEBOOK_SIZE,
};
use crate::acestep::layout::{
    comes_first, grid, lemma_pack_stable, may_attend, pack_order, packed_masks, packed_row,
    packed_rows, patch_padding, row_masks, row_source, valid_count,
};
use crate::acestep::lm::{
    first_code, first_or_last, is_cold, is_drawn, is_ranking, is_whole, kept_count, logit_keys,
    samplable, tempo_text, whole_part, SamplingConfig,
};
use crate::acestep::pipeline::uniform_numerator;
use crate::acestep::ranking::{order_key, ranks};
use crate::acestep::schedule::is_sft_step;
use crate::acestep::vocab::{added_tokens, code_named, maps_after};
use crate::json::{json_items, json_member, json_number, json_string};
use crate::laws::rounding::{lemma_nearest_close, lemma_nearest_exact, lemma_nearest_whole};
use crate::laws::text::lemma_reads_back;
use crate::rounding::{nearest, SINGLE};
use crate::single::{fraction, same_value, Single};
use crate::text::{decimal, signed_decimal, unsigned_number};

verus! {

/// A code is spelled by six digits, three out of eight and three out of five, the first one
/// counting least, and no other digits spell it.
pub proof fn lemma_code_digits(index: int, list: Seq<u32>)
    requires
        0 <= index < 64_000,
    ensures
        ({
            let d = digits(index);
            &&& d.len() == 6
            &&& d[0] < 8 && d[1] < 8 && d[2] < 8 && d[3] < 5 && d[4] < 5 && d[5] < 5
            &&& index == d[0] + 8 * (d[1] + 8 * (d[2] + 8 * (d[3] + 5 * (d[4] + 5 * d[5]))))
        }),
        list.len() == 6 && list[0] < 8 && list[1] < 8 && list[2] < 8 && list[3] < 5 && list[4] < 5
            && list[5] < 5 && index == list[0] + 8 * (list[1] + 8 * (list[2] + 8 * (list[3] + 5 * (
        list[4] + 5 * list[5])))) ==> digits(index) == list,
        FSQ_CODEBOOK_SIZE == 64_000,
{
    if list.len() == 6 && list[0] < 8 && list[1] < 8 && list[2] < 8 && list[3] < 5 && list[4] < 5
        && list[5] < 5 && index == list[0] + 8 * (list[1] + 8 * (list[2] + 8 * (list[3] + 5 * (
    list[4] + 5 * list[5])))) {
        assert(digits(index) =~= list);
    }
}

/// Codes outside the book are brought to its nearest end.
pub proof fn lemma_code_range(index: i64)
    ensures
        0 <= index < 64_000 ==> clamped_code(index) == index,
        index < 0 ==> clamped_code(index) == 0,
        index >= 64_000 ==> clamped_code(index) == 63_999,
        level_steps(0) == 7 && level_steps(1) == 7 && level_steps(2) == 7,
        level_steps(3) == 4 && level_steps(4) == 4 && level_steps(5) == 4,
{
}

/// A digit stands for a number between minus one and one, evenly spread: nought for minus one,
/// and the last one for one.
pub proof fn lemma_level_values(index: u32, steps: int, value: Single)
    requires
        steps == 7 || steps == 4,
        index <= steps,
        is_level_value(index, steps, value),
    ensures
        value.negative() <==> 2 * index < steps,
        2 * index == steps ==> value.bits == 0,
        2 * index != steps ==> {
            let (n, d) = fraction(value);
            let apart = if 2 * index < steps {
                steps - 2 * index
            } else {
                2 * index - steps
            };
            -d <= 1000 * (n * steps - apart * d) <= d
        },
{
    let i = index as int;
    let limit = SINGLE as int;
    let (w, v) = nearest(i, 1, limit);
    lemma_nearest_exact(i, 1, limit, i);
    assert(i == i * 1);
    assert(w == i * v);
    let (a, b) = nearest(2 * w, steps * v, limit);
    let sv = steps * v;
    assert(sv >= 4) by (nonlinear_arith)
        requires
            sv == steps * v,
            v >= 1,
            steps >= 4,
    ;
    if i == 0 {
        assert(2 * w == 0) by (nonlinear_arith)
            requires
                w == i * v,
                i == 0,
        ;
        lemma_nearest_exact(0, sv, limit, 0);
        assert(0 * sv == 0);
        assert(a == 0 * b);
        assert(a == 0);
        lemma_ratio_error(0, steps, a, b, value);
    } else {
        assert(2 * w > 0) by (nonlinear_arith)
            requires
                w == i * v,
                i > 0,
                v >= 1,
        ;
        lemma_nearest_close(2 * w, sv, limit);
        let x = steps * a - 2 * i * b;
        assert(a * sv - 2 * w * b == x * v) by (nonlinear_arith)
            requires
                sv == steps * v,
                w == i * v,
                x == steps * a - 2 * i * b,
        ;
        assert((2 * w) * b == (2 * i * b) * v) by (nonlinear_arith)
            requires
                w == i * v,
        ;
        assert(-(2 * i * b) <= limit * x <= 2 * i * b) by (nonlinear_arith)
            requires
                -((2 * i * b) * v) <= limit * (x * v) <= (2 * i * b) * v,
                v >= 1,
        ;
        if 2 * i == steps {
            assert(2 * w == 1 * sv) by (nonlinear_arith)
                requires
                    w == i * v,
                    sv == steps * v,
                    2 * i == steps,
            ;
            lemma_nearest_exact(2 * w, sv, limit, 1);
            assert(a == 1 * b);
        }
        lemma_ratio_error(i, steps, a, b, value);
    }
}

proof fn lemma_ratio_error(i: int, steps: int, a: int, b: int, value: Single)
    requires
        steps == 7 || steps == 4,
        0 <= i <= steps,
        b >= 1,
        a >= 0,
        2 * i == steps ==> a == b,
        -(2 * i * b) <= SINGLE * (steps * a - 2 * i * b) <= 2 * i * b,
        value.negative() <==> a < b,
        ({
            let apart = if a < b {
                b - a
            } else {
                a - b
            };
            let result = nearest(apart, b, SINGLE as int);
            if result.0 == 0 {
                value.magnitude() == 0
            } else {
                same_value(fraction(value), result)
            }
        }),
    ensures
        value.negative() <==> 2 * i < steps,
        2 * i == steps ==> value.bits == 0,
        2 * i != steps ==> {
            let (n, d) = fraction(value);
            let apart = if 2 * i < steps {
                steps - 2 * i
            } else {
                2 * i - steps
            };
            -d <= 1000 * (n * steps - apart * d) <= d
        },
{
    let limit = SINGLE as int;
    let x = steps * a - 2 * i * b;
    assert(-(14 * b) <= limit * x <= 14 * b) by (nonlinear_arith)
        requires
            -(2 * i * b) <= limit * x <= 2 * i * b,
            0 <= i <= 7,
            b >= 1,
    ;
    if 2 * i == steps {
        lemma_nearest_exact(0, b, limit, 0);
        assert(0 * b == 0);
        let result = nearest(0, b, limit);
        assert(result.0 == 0 * result.1);
    } else {
        let apart = if a < b {
            b - a
        } else {
            a - b
        };
        let far = if 2 * i < steps {
            steps - 2 * i
        } else {
            2 * i - steps
        };
        assert((a < b) <==> (2 * i < steps)) by (nonlinear_arith)
            requires
                x == steps * a - 2 * i * b,
                -(14 * b) <= limit * x <= 14 * b,
                limit == 0x100_0000,
                b >= 1,
                steps == 7 || steps == 4,
                0 <= i <= steps,
                2 * i != steps,
        ;
        assert(steps * apart - far * b == x || steps * apart - far * b == -x) by (nonlinear_arith)
            requires
                x == steps * a - 2 * i * b,
                (a < b && apart == b - a && far == steps - 2 * i) || (a >= b && apart == a - b
                    && far == 2 * i - steps),
        ;
        assert(apart > 0) by (nonlinear_arith)
            requires
                steps * apart - far * b == x || steps * apart - far * b == -x,
                -(14 * b) <= limit * x <= 14 * b,
                limit == 0x100_0000,
                far >= 1,
                b >= 1,
                steps >= 4,
        ;
        let (c, e) = nearest(apart, b, limit);
        lemma_nearest_close(apart, b, limit);
        assert(apart <= 2 * b) by (nonlinear_arith)
            requires
                steps * apart - far * b == x || steps * apart - far * b == -x,
                -(14 * b) <= limit * x <= 14 * b,
                limit == 0x100_0000,
                0 <= far <= steps,
                b >= 1,
                steps >= 4,
        ;
        let y = c * b - apart * e;
        assert(-(2 * (b * e)) <= limit * y <= 2 * (b * e)) by (nonlinear_arith)
            requires
                -(apart * e) <= limit * y <= apart * e,
                0 < apart <= 2 * b,
                e >= 1,
                b >= 1,
        ;
        let z = c * steps - far * e;
        assert(z * b == steps * y + (steps * apart - far * b) * e) by (nonlinear_arith)
            requires
                z == c * steps - far * e,
                y == c * b - apart * e,
        ;
        let t = steps * apart - far * b;
        let be = b * e;
        assert(-(14 * be) <= limit * (t * e) <= 14 * be) by (nonlinear_arith)
            requires
                -(14 * b) <= limit * t <= 14 * b,
                e >= 1,
                be == b * e,
        ;
        assert(-(28 * be) <= limit * (z * b) <= 28 * be) by (nonlinear_arith)
            requires
                z * b == steps * y + t * e,
                -(2 * be) <= limit * y <= 2 * be,
                -(14 * be) <= limit * (t * e) <= 14 * be,
                0 < steps <= 7,
        ;
        assert(-(28 * e) <= limit * z <= 28 * e) by (nonlinear_arith)
            requires
                -(28 * be) <= limit * (z * b) <= 28 * be,
                be == b * e,
                b >= 1,
        ;
        assert(c > 0) by (nonlinear_arith)
            requires
                z == c * steps - far * e,
                -(28 * e) <= limit * z,
                limit == 0x100_0000,
                far >= 1,
                e >= 1,
                0 < steps <= 7,
        ;
        let (n, d) = fraction(value);
        assert(n * e == c * d);
        lemma_unit(value);
        let q = n * steps - far * d;
        assert(q * e == z * d) by (nonlinear_arith)
            requires
                q == n * steps - far * d,
                z == c * steps - far * e,
                n * e == c * d,
        ;
        assert(-d <= 1000 * q <= d) by (nonlinear_arith)
            requires
                q * e == z * d,
                -(28 * e) <= limit * z <= 28 * e,
                limit == 0x100_0000,
                e >= 1,
                d >= 1,
        ;
    }
}

proof fn lemma_unit(value: Single)
    ensures
        fraction(value).1 >= 1,
{
    if value.scale() < 0 {
        lemma_pow2_pos((-value.scale()) as nat);
    }
}

/// The steps of the fine-tuned model go down evenly from one: each is as far from the end as
/// there are steps left, out of fifty.
pub proof fn lemma_even_steps(index: int, value: Single)
    requires
        0 <= index < 50,
        is_sft_step(index, value),
    ensures
        ({
            let (n, d) = fraction(value);
            -d <= 1000 * (50 * n - (50 - index) * d) <= d
        }),
        !value.negative(),
{
    let limit = SINGLE as int;
    let (a, b) = nearest(index, 50, limit);
    if index == 0 {
        lemma_nearest_exact(0, 50, limit, 0);
        assert(a == 0 * b);
    } else {
        lemma_nearest_close(index, 50, limit);
    }
    assert(b >= 1);
    let x = 50 * a - index * b;
    assert(-(50 * b) <= limit * x <= 50 * b) by (nonlinear_arith)
        requires
            -(index * b) <= limit * x <= index * b || (a == 0 && index == 0),
            x == 50 * a - index * b,
            0 <= index < 50,
            b >= 1,
    ;
    let apart = b - a;
    assert(50 * apart - (50 - index) * b == -x) by (nonlinear_arith)
        requires
            apart == b - a,
            x == 50 * a - index * b,
    ;
    assert(0 < apart <= b) by (nonlinear_arith)
        requires
            50 * apart - (50 - index) * b == -x,
            -(50 * b) <= limit * x <= 50 * b,
            limit == 0x100_0000,
            0 <= index < 50,
            apart == b - a,
            a >= 0,
            b >= 1,
    ;
    let (c, e) = nearest(apart, b, limit);
    lemma_nearest_close(apart, b, limit);
    let y = c * b - apart * e;
    let z = 50 * c - (50 - index) * e;
    let t = 50 * apart - (50 - index) * b;
    assert(z * b == 50 * y + t * e) by (nonlinear_arith)
        requires
            z == 50 * c - (50 - index) * e,
            y == c * b - apart * e,
            t == 50 * apart - (50 - index) * b,
    ;
    let be = b * e;
    assert(-be <= limit * y <= be) by (nonlinear_arith)
        requires
            -(apart * e) <= limit * y <= apart * e,
            0 < apart <= b,
            e >= 1,
            be == b * e,
    ;
    assert(-(50 * be) <= limit * (t * e) <= 50 * be) by (nonlinear_arith)
        requires
            t == -x,
            -(50 * b) <= limit * x <= 50 * b,
            e >= 1,
            be == b * e,
    ;
    assert(limit * (z * b) == 50 * (limit * y) + limit * (t * e)) by (nonlinear_arith)
        requires
            z * b == 50 * y + t * e,
    ;
    assert(-(100 * e) <= limit * z <= 100 * e) by (nonlinear_arith)
        requires
            -(100 * be) <= limit * (z * b) <= 100 * be,
            be == b * e,
            b >= 1,
    ;
    let (n, d) = fraction(value);
    lemma_unit(value);
    assert(n * e == c * d);
    let q = 50 * n - (50 - index) * d;
    assert(q * e == z * d) by (nonlinear_arith)
        requires
            q == 50 * n - (50 - index) * d,
            z == 50 * c - (50 - index) * e,
            n * e == c * d,
    ;
    assert(-d <= 1000 * q <= d) by (nonlinear_arith)
        requires
            q * e == z * d,
            -(100 * e) <= limit * z <= 100 * e,
            limit == 0x100_0000,
            e >= 1,
            d >= 1,
    ;
}

/// A mask is laid out row by row.
pub proof fn lemma_mask_cells(rows: int, cols: int, cell: spec_fn(int, int) -> bool, row: int, col: int)
    requires
        0 <= row < rows,
        0 <= col < cols,
    ensures
        grid(rows, cols, cell).len() == rows * cols,
        0 <= row * cols + col < rows * cols,
        grid(rows, cols, cell)[row * cols + col] == cell(row, col),
{
    let k = row * cols + col;
    assert(0 <= k < rows * cols) by (nonlinear_arith)
        requires
            k == row * cols + col,
            0 <= row < rows,
            0 <= col < cols,
    ;
    vstd::arithmetic::div_mod::lemma_fundamental_div_mod_converse(k, cols, row, col);
}

/// What is attended to: where there is a window, nothing farther away than it, in either
/// direction, and where there is padding, nothing of the same sequence that is padded.
pub proof fn lemma_attended(
    batch: int,
    len: int,
    window: Option<usize>,
    padding: Option<Seq<i64>>,
    row: int,
    col: int,
)
    requires
        0 <= batch,
        0 <= row < len,
        0 <= col < len,
    ensures
        may_attend(len, window, padding, batch * len + row, col) <==> {
            &&& window matches Some(w) ==> col - w <= row <= col + w
            &&& padding matches Some(mask) ==> mask[batch * len + col] != 0
        },
{
    vstd::arithmetic::div_mod::lemma_fundamental_div_mod_converse(
        batch * len + row,
        len,
        batch,
        row,
    );
}

/// What is put at the end so that patches come out even is less than a patch.
pub proof fn lemma_patches(len: int, patch: int)
    requires
        len >= 0,
        patch > 0,
    ensures
        0 <= patch_padding(len, patch) < patch,
        (len + patch_padding(len, patch)) % patch == 0,
{
    let rest = len % patch;
    vstd::arithmetic::div_mod::lemma_fundamental_div_mod(len, patch);
    vstd::arithmetic::div_mod::lemma_mod_bound(len, patch);
    let q = len / patch;
    if rest != 0 {
        assert(patch * q + patch == (q + 1) * patch + 0) by (nonlinear_arith);
        vstd::arithmetic::div_mod::lemma_fundamental_div_mod_converse(
            len + patch - rest,
            patch,
            q + 1,
            0,
        );
    }
}

/// The entries that are valid are counted: none where there are none, and one more for each.
pub proof fn lemma_valid_entries(a: Seq<i64>, b: Seq<i64>, m: int, n: int)
    requires
        m == a.len(),
        0 <= n <= b.len(),
    ensures
        valid_count(a + b, m + n) == valid_count(a, m) + valid_count(b, n),
        0 <= valid_count(b, n) <= n,
        (forall|i: int| 0 <= i < n ==> #[trigger] b[i] > 0) ==> valid_count(b, n) == n,
        (forall|i: int| 0 <= i < n ==> #[trigger] b[i] <= 0) ==> valid_count(b, n) == 0,
    decreases n,
{
    if n > 0 {
        lemma_valid_entries(a, b, m, n - 1);
        assert((a + b)[m + n - 1] == b[n - 1]);
    } else {
        lemma_valid_same(a + b, a, m);
    }
}

proof fn lemma_valid_same(a: Seq<i64>, b: Seq<i64>, n: int)
    requires
        n <= a.len(),
        n <= b.len(),
        forall|i: int| 0 <= i < n ==> #[trigger] a[i] == b[i],
    ensures
        valid_count(a, n) == valid_count(b, n),
    decreases n,
{
    if n > 0 {
        lemma_valid_same(a, b, n - 1);
    }
}

/// The masks of two sequences that are packed into one: as many ones as there are valid
/// entries in either, and then noughts, row by row.
pub proof fn lemma_packed_masks(
    mask1: Seq<i64>,
    mask2: Seq<i64>,
    len1: int,
    len2: int,
    batch: int,
    b: int,
    i: int,
)
    requires
        len1 >= 0,
        len2 >= 0,
        0 <= b < batch,
        0 <= i < len1 + len2,
    ensures
        packed_masks(mask1, mask2, len1, len2, batch).len() == batch * (len1 + len2),
        0 <= b * (len1 + len2) + i < batch * (len1 + len2),
        packed_masks(mask1, mask2, len1, len2, batch)[b * (len1 + len2) + i] == (if i < valid_count(
            mask1.subrange(b * len1, b * len1 + len1) + mask2.subrange(b * len2, b * len2 + len2),
            len1 + len2,
        ) {
            1i64
        } else {
            0i64
        }),
    decreases batch,
{
    let len = len1 + len2;
    lemma_packed_masks_len(mask1, mask2, len1, len2, batch);
    lemma_packed_masks_len(mask1, mask2, len1, len2, batch - 1);
    assert(batch * len == (batch - 1) * len + len) by (nonlinear_arith);
    if b < batch - 1 {
        lemma_packed_masks(mask1, mask2, len1, len2, batch - 1, b, i);
    } else {
        assert(0 <= (batch - 1) * len) by (nonlinear_arith)
            requires
                batch >= 1,
                len >= 0,
        ;
    }
}

proof fn lemma_packed_masks_len(mask1: Seq<i64>, mask2: Seq<i64>, len1: int, len2: int, batch: int)
    requires
        len1 >= 0,
        len2 >= 0,
        batch >= 0,
    ensures
        packed_masks(mask1, mask2, len1, len2, batch).len() == batch * (len1 + len2),
    decreases batch,
{
    if batch > 0 {
        lemma_packed_masks_len(mask1, mask2, len1, len2, batch - 1);
        let len = len1 + len2;
        assert(batch * len == (batch - 1) * len + len) by (nonlinear_arith);
    } else {
        assert(0 * (len1 + len2) == 0);
    }
}

/// Each place of a packed row holds the whole vector of the entry that is put there: one of the
/// first sequence where its place is before the end of that, and else one of the second.
pub proof fn lemma_packed_row<T>(
    hidden1: Seq<T>,
    hidden2: Seq<T>,
    len1: int,
    len2: int,
    dim: int,
    b: int,
    order: Seq<usize>,
    n: int,
    k: int,
    j: int,
)
    requires
        0 <= k < n <= order.len(),
        0 <= j < dim,
        0 <= b,
        len1 >= 0,
        len2 >= 0,
        forall|i: int| 0 <= i < n ==> #[trigger] order[i] < len1 + len2,
        hidden1.len() >= ((b + 1) * len1) * dim,
        hidden2.len() >= ((b + 1) * len2) * dim,
    ensures
        packed_row(hidden1, hidden2, len1, len2, dim, b, order, n).len() == n * dim,
        0 <= k * dim + j < n * dim,
        packed_row(hidden1, hidden2, len1, len2, dim, b, order, n)[k * dim + j] == (if order[k]
            < len1 {
            hidden1[(b * len1 + order[k]) * dim + j]
        } else {
            hidden2[(b * len2 + order[k] - len1) * dim + j]
        }),
    decreases n,
{
    let old = order[n - 1] as int;
    let source = row_source(hidden1, hidden2, len1, len2, dim, b, old);
    lemma_inside_row(b, len1, dim, old, hidden1.len() as int);
    lemma_inside_row(b, len2, dim, old - len1, hidden2.len() as int);
    assert(order[n - 1] < len1 + len2);
    assert(source.len() == dim);
    assert(n * dim == (n - 1) * dim + dim) by (nonlinear_arith);
    assert(0 <= k * dim) by (nonlinear_arith)
        requires
            0 <= k,
            0 < dim,
    ;
    lemma_packed_row_len(hidden1, hidden2, len1, len2, dim, b, order, n - 1);
    if k < n - 1 {
        lemma_packed_row(hidden1, hidden2, len1, len2, dim, b, order, n - 1, k, j);
    }
}

proof fn lemma_packed_row_len<T>(
    hidden1: Seq<T>,
    hidden2: Seq<T>,
    len1: int,
    len2: int,
    dim: int,
    b: int,
    order: Seq<usize>,
    n: int,
)
    requires
        0 <= n <= order.len(),
        0 < dim,
        0 <= b,
        len1 >= 0,
        len2 >= 0,
        forall|i: int| 0 <= i < n ==> #[trigger] order[i] < len1 + len2,
        hidden1.len() >= ((b + 1) * len1) * dim,
        hidden2.len() >= ((b + 1) * len2) * dim,
    ensures
        packed_row(hidden1, hidden2, len1, len2, dim, b, order, n).len() == n * dim,
    decreases n,
{
    if n > 0 {
        let old = order[n - 1] as int;
        assert(order[n - 1] < len1 + len2);
        lemma_inside_row(b, len1, dim, old, hidden1.len() as int);
        lemma_inside_row(b, len2, dim, old - len1, hidden2.len() as int);
        lemma_packed_row_len(hidden1, hidden2, len1, len2, dim, b, order, n - 1);
        assert(n * dim == (n - 1) * dim + dim) by (nonlinear_arith);
    } else {
        assert(0 * dim == 0);
    }
}

proof fn lemma_inside_row(b: int, len: int, dim: int, place: int, size: int)
    requires
        0 <= b,
        0 < dim,
        len >= 0,
        size >= ((b + 1) * len) * dim,
    ensures
        0 <= place < len ==> 0 <= (b * len + place) * dim && (b * len + place) * dim + dim <= size,
{
    if 0 <= place < len {
        assert(0 <= b * len) by (nonlinear_arith)
            requires
                0 <= b,
                0 <= len,
        ;
        assert((b + 1) * len == b * len + len) by (nonlinear_arith);
        let p = b * len + place;
        let q = (b + 1) * len;
        assert(0 <= p * dim && p * dim + dim <= q * dim) by (nonlinear_arith)
            requires
                0 <= p < q,
                0 < dim,
        ;
    }
}

/// Valid entries come before the others, and among entries of the same mark the earlier one
/// comes first.
pub proof fn lemma_order_of_entries(masks: Seq<i64>, x: usize, y: usize)
    ensures
        masks[x as int] > masks[y as int] ==> comes_first(masks, x, y),
        masks[x as int] == masks[y as int] ==> (comes_first(masks, x, y) <==> x < y),
        masks[x as int] < masks[y as int] ==> !comes_first(masks, x, y),
{
}

/// What may be sampled: the stop token and everything from the first code on, each once; a
/// vocabulary without a stop token is sampled whole.
pub proof fn lemma_samplable(count: int, base: Option<u32>, id: usize)
    requires
        0 <= count <= usize::MAX,
        base matches Some(first) ==> 151_645 < first <= count,
    ensures
        count > 151_645 ==> (samplable(count, base).contains(id) <==> id == 151_645 || (match base {
            Some(first) => first as int,
            None => 151_646,
        }) <= id < count),
        count <= 151_645 ==> (samplable(count, base).contains(id) <==> id < count),
        samplable(count, base).no_duplicates(),
        count > 151_645 ==> samplable(count, base)[0] == 151_645,
        forall|i: int, j: int|
            1 <= i < j < samplable(count, base).len() ==> #[trigger] samplable(count, base)[i]
                < #[trigger] samplable(count, base)[j],
{
    let list = samplable(count, base);
    let first = first_code(base);
    if count > 151_645 {
        if list.contains(id) {
            let k = choose|k: int| 0 <= k < list.len() && list[k] == id;
            assert(k > 0 ==> list[k] == first + k - 1);
        }
        if id == 151_645 {
            assert(list[0] == id);
        } else if first <= id < count {
            assert(list[id - first + 1] == id);
        }
    } else if id < count {
        assert(list[id as int] == id);
    }
}

/// A draw is made from one candidate where the choice is greedy, and else from as many as the
/// limit says, where there is one and there are so many.
pub proof fn lemma_kept(sampling: SamplingConfig, count: int)
    requires
        count >= 1,
    ensures
        sampling.top_k == 1 ==> kept_count(sampling, count) == 1,
        sampling.temperature.bits < 0x3a83_126f ==> kept_count(sampling, count) == 1,
        is_cold(sampling.temperature) ==> kept_count(sampling, count) == 1,
        !is_cold(sampling.temperature) && sampling.top_k != 1 ==> kept_count(
            sampling,
            count,
        ) == (if sampling.top_k == 0 || sampling.top_k > count {
            count
        } else {
            sampling.top_k as int
        }),
{
}

/// Numbers are ordered by what they are: of two of the same sign the one that is farther from
/// nought is the larger or, where they are negative, the smaller, and every negative one is
/// smaller than every other.
pub proof fn lemma_number_order(a: Single, b: Single)
    ensures
        a.bits < b.bits < 0x8000_0000 ==> order_key(a) < order_key(b),
        0x8000_0000 <= a.bits < b.bits ==> order_key(a) > order_key(b),
        a.bits >= 0x8000_0000 && b.bits < 0x8000_0000 ==> order_key(a) < order_key(b),
{
}

/// A tempo that is a whole number is written as that number, and any other one as it is
/// displayed.
pub proof fn lemma_tempo_is_written(value: Single, text: Seq<char>, n: int)
    requires
        0 <= n <= i64::MAX,
        value.magnitude() < 0x7f80_0000,
    ensures
        same_value(fraction(value), (n, 1)) ==> tempo_text(value, text) == signed_decimal(
            if value.negative() {
                -n
            } else {
                n
            },
        ),
        (forall|k: int| !#[trigger] same_value(fraction(value), (k, 1))) ==> tempo_text(value, text)
            == text,
        forall|other: Single|
            other.magnitude() >= 0x7f80_0000 ==> #[trigger] tempo_text(other, text) == text,
{
    let (m, d) = fraction(value);
    lemma_unit(value);
    let s = value.significand();
    if value.scale() >= 0 {
        assert(d == 1);
        assert(same_value((m, d), (m, 1)));
        assert(is_whole(value));
        if same_value(fraction(value), (n, 1)) {
            assert(m * 1 == n * 1);
            assert(whole_part(value) == if value.negative() {
                -n
            } else {
                n
            });
        }
    } else {
        let p = pow2((-value.scale()) as nat) as int;
        assert(m == s && d == p);
        if same_value((m, d), (n, 1)) {
            assert(s == n * p);
            vstd::arithmetic::div_mod::lemma_fundamental_div_mod_converse(s, p, n, 0);
            assert(is_whole(value));
            assert(s / p == n);
            assert(whole_part(value) == if value.negative() {
                -n
            } else {
                n
            });
        }
        if s % p == 0 {
            vstd::arithmetic::div_mod::lemma_fundamental_div_mod(s, p);
            let k = s / p;
            assert(s * 1 == k * p) by (nonlinear_arith)
                requires
                    s == p * k + 0,
            ;
            assert(same_value((m, d), (k, 1)));
        }
    }
}

/// A token stands for a code where its text is the number of the code between its marks.
pub proof fn lemma_code_tokens(n: nat)
    ensures
        n <= u32::MAX ==> code_named("<|audio_code_"@ + decimal(n) + "|>"@) == Some(n as u32),
        n > u32::MAX ==> code_named("<|audio_code_"@ + decimal(n) + "|>"@) is None,
{
    let head = "<|audio_code_"@;
    let tail = "|>"@;
    let text = head + decimal(n) + tail;
    let rest = decimal(n) + tail;
    assert(text =~= head + rest);
    assert(text.take(head.len() as int) =~= head);
    assert(text.skip(head.len() as int) =~= rest);
    assert(rest.skip(rest.len() - tail.len()) =~= tail);
    assert(rest.take(rest.len() - tail.len()) =~= decimal(n));
    lemma_reads_back(n, u32::MAX as int);
}

/// What stands between the marks is read as a number of 32 bits.
pub proof fn lemma_between_marks(middle: Seq<char>)
    ensures
        code_named("<|audio_code_"@ + middle + "|>"@) == (match unsigned_number(
            middle,
            u32::MAX as int,
        ) {
            Some(n) => Some(n as u32),
            None => None,
        }),
{
    let head = "<|audio_code_"@;
    let tail = "|>"@;
    let text = head + middle + tail;
    let rest = middle + tail;
    assert(text =~= head + rest);
    assert(text.take(head.len() as int) =~= head);
    assert(text.skip(head.len() as int) =~= rest);
    assert(rest.skip(rest.len() - tail.len()) =~= tail);
    assert(rest.take(rest.len() - tail.len()) =~= middle);
}

/// A text without these marks stands for no code.
pub proof fn lemma_other_tokens(text: Seq<char>)
    requires
        forall|middle: Seq<char>| text != #[trigger] ("<|audio_code_"@ + middle + "|>"@),
    ensures
        code_named(text) is None,
{
    let head = "<|audio_code_"@;
    let tail = "|>"@;
    if code_named(text) is Some {
        let rest = text.skip(head.len() as int);
        let middle = rest.take(rest.len() - tail.len());
        assert(rest =~= middle + tail);
        assert(text =~= head + rest);
        assert(text =~= head + middle + tail);
    }
}

/// One more token for a code maps the two to each other and leaves the other codes and tokens
/// as they were; any other token changes nothing.
pub proof fn lemma_token_added(
    tokens: Seq<(Option<Seq<char>>, Option<u64>)>,
    content: Seq<char>,
    id: u64,
)
    requires
        maps_after(tokens, tokens.len() as int) is Ok,
    ensures
        ({
            let before = maps_after(tokens, tokens.len() as int)->Ok_0;
            let after = maps_after(
                tokens.push((Some(content), Some(id))),
                tokens.len() as int + 1,
            );
            match code_named(content) {
                Some(code) => if id <= u32::MAX {
                    &&& after is Ok
                    &&& after->Ok_0.code_to_token == before.code_to_token.insert(code, id as u32)
                    &&& after->Ok_0.token_to_code == before.token_to_code.insert(id as u32, code)
                } else {
                    after is Err
                },
                None => after == maps_after(tokens, tokens.len() as int),
            }
        }),
        maps_after(tokens, 0) is Ok,
        maps_after(tokens, 0)->Ok_0.code_to_token.dom().is_empty(),
        maps_after(tokens, 0)->Ok_0.token_to_code.dom().is_empty(),
{
    lemma_maps_same(tokens.push((Some(content), Some(id))), tokens, tokens.len() as int);
    assert(maps_after(tokens, 0)->Ok_0.code_to_token.dom() =~= Set::empty());
    assert(maps_after(tokens, 0)->Ok_0.token_to_code.dom() =~= Set::empty());
}

proof fn lemma_maps_same(
    a: Seq<(Option<Seq<char>>, Option<u64>)>,
    b: Seq<(Option<Seq<char>>, Option<u64>)>,
    n: int,
)
    requires
        n <= a.len(),
        n <= b.len(),
        forall|i: int| 0 <= i < n ==> #[trigger] a[i] == b[i],
    ensures
        maps_after(a, n) == maps_after(b, n),
    decreases n,
{
    if n > 0 {
        lemma_maps_same(a, b, n - 1);
    }
}

/// A uniform number is the word that it is made from, out of two to the power 64, within two
/// parts in two to the power 53, and neither nought nor one.
pub proof fn lemma_uniform(word: u64)
    ensures
        -2_048 <= uniform_numerator(word) * 1_024 - word <= 2_048 || uniform_numerator(word)
            == 0x3f_ffff_ffff_fffc,
        uniform_numerator(word) == 0x3f_ffff_ffff_fffc ==> word >= 0xffff_ffff_ffff_e000,
        0 < uniform_numerator(word) < 0x40_0000_0000_0000,
        word < 0x8000_0000_0000_0000 ==> uniform_numerator(word) == 2 * (word as int / 2_048) + 1,
        0x8000_0000_0000_0000 <= word < 0xffff_ffff_ffff_e000 ==> uniform_numerator(word) == 2 * (
        word as int / 2_048 + (word as int / 2_048) % 2),
{
    assert(word >> 11u64 == word / 2_048) by (bit_vector);
    let top = (word >> 11u64) as int;
    lemma_nearest_whole(2 * top + 1, 2);
}

/// The stages of the decoder go through the ratios backwards: each takes the channels that the
/// one before it gives, doubles its stride for the kernel and halves it, rounded up, for the
/// padding.
pub proof fn lemma_stages(config: OobleckVaeConfig, stage: DecoderStage, index: int)
    requires
        0 <= index < config.downsampling_ratios@.len(),
        config.is_stage(index, stage),
    ensures
        ({
            let place = config.downsampling_ratios@.len() - 1 - index;
            &&& stage.stride == config.downsampling_ratios@[place]
            &&& stage.kernel == 2 * stage.stride
            &&& 2 * stage.padding - 1 <= stage.stride <= 2 * stage.padding
            &&& stage.in_channels == config.decoder_channels * config.channel_multiples@[place]
            &&& place > 0 ==> stage.out_channels == config.decoder_channels
                * config.channel_multiples@[place - 1]
            &&& place == 0 ==> stage.out_channels == config.decoder_channels
        }),
{
}

/// A draw falls on the first candidate that uses it up, and on the last one where none does.
pub proof fn lemma_draw(candidates: Seq<usize>, used_up: Seq<bool>, token: u32, k: int)
    requires
        is_drawn(candidates, used_up, token),
        candidates.len() == used_up.len(),
        0 <= k < candidates.len(),
    ensures
        used_up[k] && (forall|i: int| 0 <= i < k ==> !#[trigger] used_up[i]) ==> token
            == candidates[k] as u32,
        (forall|i: int| 0 <= i < used_up.len() ==> !#[trigger] used_up[i]) ==> token
            == candidates.last() as u32,
{
    let at = choose|at: int| #[trigger]
        first_or_last(used_up, at) && at < candidates.len() && candidates[at] as u32 == token;
    if used_up[k] && (forall|i: int| 0 <= i < k ==> !#[trigger] used_up[i]) {
        if at < k {
            assert(!used_up[at]);
            assert(at == used_up.len() - 1);
        }
        if at > k {
            assert(!used_up[k]);
        }
    }
    if forall|i: int| 0 <= i < used_up.len() ==> !#[trigger] used_up[i] {
        assert(!used_up[at]);
    }
}

/// A list is cut behind the first place where the flag is set, and kept whole where none is.
pub proof fn lemma_cut(flags: Seq<bool>, last: int, k: int)
    requires
        first_or_last(flags, last),
        0 <= k < flags.len(),
    ensures
        flags[k] && (forall|i: int| 0 <= i < k ==> !#[trigger] flags[i]) ==> last == k,
        (forall|i: int| 0 <= i < flags.len() ==> !#[trigger] flags[i]) ==> last == flags.len() - 1,
{
    if flags[k] && (forall|i: int| 0 <= i < k ==> !#[trigger] flags[i]) {
        if last < k {
            assert(!flags[last]);
        }
        if last > k {
            assert(!flags[k]);
        }
    }
    if forall|i: int| 0 <= i < flags.len() ==> !#[trigger] flags[i] {
        assert(!flags[last]);
    }
}

/// What is ranked are all the candidates, each once, the most likely first.
pub proof fn lemma_ranked(logits: Seq<Single>, ids: Seq<usize>, ranked: Seq<usize>, i: int, j: int)
    requires
        is_ranking(logits, ids, ranked),
        0 <= i < j < ranked.len(),
        ids.len() <= usize::MAX,
    ensures
        ranked.len() == ids.len(),
        ids.contains(ranked[i]),
        order_key(logits[ranked[i] as int]) >= order_key(logits[ranked[j] as int]),
{
    let keys = logit_keys(logits, ids);
    let order = choose|order: Seq<usize>|
        #![trigger ranks(keys, 0, ids.len() as int, order)]
        ranks(keys, 0, ids.len() as int, order) && ranked == order.map_values(
            |p: usize| ids[p as int],
        );
    assert(comes_first(keys, order[i], order[j]));
    assert(ranked[i] == ids[order[i] as int]);
    assert(ranked[j] == ids[order[j] as int]);
    assert(keys[order[i] as int] == order_key(logits[ranked[i] as int]));
    assert(keys[order[j] as int] == order_key(logits[ranked[j] as int]));
}

/// A temperature below nought is cold, whatever it is, unless it is no number.
pub proof fn lemma_cold(temperature: Single)
    ensures
        0x8000_0000 <= temperature.bits <= 0xff80_0000 ==> is_cold(temperature),
        temperature.bits < 0x3a83_126f ==> is_cold(temperature),
        0x3a83_126f <= temperature.bits < 0x8000_0000 ==> !is_cold(temperature),
        temperature.bits > 0xff80_0000 ==> !is_cold(temperature),
{
}

/// The tokens that are added to a vocabulary are those that are listed, each with its text and
/// its id.
pub proof fn lemma_added_tokens(value: Seq<char>, found: Seq<char>, entries: Seq<Seq<char>>, i: int)
    requires
        json_member(value, "added_tokens"@) == Some(found),
        json_items(found) == Some(entries),
        0 <= i < entries.len(),
    ensures
        added_tokens(value).len() == entries.len(),
        json_member(entries[i], "content"@) matches Some(text) ==> added_tokens(value)[i].0
            == json_string(text),
        json_member(entries[i], "content"@) is None ==> added_tokens(value)[i].0 is None,
        json_member(entries[i], "id"@) matches Some(id) ==> added_tokens(value)[i].1 == json_number(
            id,
        ),
        json_member(entries[i], "id"@) is None ==> added_tokens(value)[i].1 is None,
{
}

/// A packed batch is its packed rows, one behind the other: each row holds the entries of both
/// sequences in the order in which their masks put them.
pub proof fn lemma_packed_batch<T>(
    hidden1: Seq<T>,
    hidden2: Seq<T>,
    mask1: Seq<i64>,
    mask2: Seq<i64>,
    len1: int,
    len2: int,
    dim: int,
    batch: int,
    b: int,
    k: int,
    j: int,
)
    requires
        0 <= b < batch,
        0 <= k < len1 + len2,
        0 <= j < dim,
        0 <= len1,
        0 <= len2,
        len1 + len2 <= usize::MAX,
        mask1.len() == batch * len1,
        mask2.len() == batch * len2,
        hidden1.len() == (batch * len1) * dim,
        hidden2.len() == (batch * len2) * dim,
    ensures
        ({
            let len = len1 + len2;
            let masks = mask1.subrange(b * len1, b * len1 + len1) + mask2.subrange(
                b * len2,
                b * len2 + len2,
            );
            let place = pack_order(masks, len)[k] as int;
            let all = packed_rows(hidden1, hidden2, mask1, mask2, len1, len2, dim, batch);
            &&& all.len() == batch * (len * dim)
            &&& 0 <= b * (len * dim) + (k * dim + j) < all.len()
            &&& all[b * (len * dim) + (k * dim + j)] == (if place < len1 {
                hidden1[(b * len1 + place) * dim + j]
            } else {
                hidden2[(b * len2 + place - len1) * dim + j]
            })
        }),
{
    lemma_packed_batch_upto(
        hidden1,
        hidden2,
        mask1,
        mask2,
        len1,
        len2,
        dim,
        batch,
        batch,
        b,
        k,
        j,
    );
}

proof fn lemma_row_order(mask1: Seq<i64>, mask2: Seq<i64>, len1: int, len2: int, batch: int, b: int)
    requires
        0 <= b < batch,
        0 <= len1,
        0 <= len2,
        len1 + len2 <= usize::MAX,
        mask1.len() == batch * len1,
        mask2.len() == batch * len2,
    ensures
        ({
            let masks = row_masks(mask1, mask2, len1, len2, b);
            &&& masks.len() == len1 + len2
            &&& pack_order(masks, len1 + len2).len() == len1 + len2
            &&& forall|i: int|
                0 <= i < len1 + len2 ==> #[trigger] pack_order(masks, len1 + len2)[i] < len1 + len2
        }),
{
    lemma_row_fits(b, batch, len1);
    lemma_row_fits(b, batch, len2);
    lemma_pack_stable(row_masks(mask1, mask2, len1, len2, b), len1 + len2);
}

proof fn lemma_row_fits(b: int, batch: int, len: int)
    requires
        0 <= b < batch,
        0 <= len,
    ensures
        0 <= b * len,
        b * len + len <= batch * len,
        (b + 1) * len <= batch * len,
{
    assert(0 <= b * len && b * len + len <= batch * len && (b + 1) * len <= batch * len)
        by (nonlinear_arith)
        requires
            0 <= b < batch,
            0 <= len,
    ;
}

proof fn lemma_row_size(b: int, batch: int, len: int, dim: int)
    requires
        0 <= b < batch,
        0 <= len,
        0 < dim,
    ensures
        ((b + 1) * len) * dim <= (batch * len) * dim,
{
    lemma_row_fits(b, batch, len);
    let p = (b + 1) * len;
    let q = batch * len;
    assert(p * dim <= q * dim) by (nonlinear_arith)
        requires
            p <= q,
            0 < dim,
    ;
}

proof fn lemma_packed_batch_upto<T>(
    hidden1: Seq<T>,
    hidden2: Seq<T>,
    mask1: Seq<i64>,
    mask2: Seq<i64>,
    len1: int,
    len2: int,
    dim: int,
    batch: int,
    n: int,
    b: int,
    k: int,
    j: int,
)
    requires
        0 <= b < n <= batch,
        0 <= k < len1 + len2,
        0 <= j < dim,
        0 <= len1,
        0 <= len2,
        len1 + len2 <= usize::MAX,
        mask1.len() == batch * len1,
        mask2.len() == batch * len2,
        hidden1.len() == (batch * len1) * dim,
        hidden2.len() == (batch * len2) * dim,
    ensures
        ({
            let len = len1 + len2;
            let masks = row_masks(mask1, mask2, len1, len2, b);
            let place = pack_order(masks, len)[k] as int;
            let all = packed_rows(hidden1, hidden2, mask1, mask2, len1, len2, dim, n);
            &&& all.len() == n * (len * dim)
            &&& 0 <= b * (len * dim) + (k * dim + j) < all.len()
            &&& all[b * (len * dim) + (k * dim + j)] == (if place < len1 {
                hidden1[(b * len1 + place) * dim + j]
            } else {
                hidden2[(b * len2 + place - len1) * dim + j]
            })
        }),
    decreases n,
{
    let len = len1 + len2;
    let size = len * dim;
    let masks = row_masks(mask1, mask2, len1, len2, n - 1);
    let order = pack_order(masks, len);
    lemma_row_order(mask1, mask2, len1, len2, batch, n - 1);
    lemma_row_size(n - 1, batch, len1, dim);
    lemma_row_size(n - 1, batch, len2, dim);
    let before = packed_rows(hidden1, hidden2, mask1, mask2, len1, len2, dim, n - 1);
    let row = packed_row(hidden1, hidden2, len1, len2, dim, n - 1, order, len);
    lemma_packed_row(hidden1, hidden2, len1, len2, dim, n - 1, order, len, k, j);
    assert(n * size == (n - 1) * size + size) by (nonlinear_arith);
    assert(0 <= b * size) by (nonlinear_arith)
        requires
            0 <= b,
            size == len * dim,
            len >= 0,
            dim > 0,
    ;
    if b < n - 1 {
        lemma_packed_batch_upto(
            hidden1,
            hidden2,
            mask1,
            mask2,
            len1,
            len2,
            dim,
            batch,
            n - 1,
            b,
            k,
            j,
        );
    } else if n > 1 {
        lemma_packed_batch_upto(
            hidden1,
            hidden2,
            mask1,
            mask2,
            len1,
            len2,
            dim,
            batch,
            n - 1,
            0,
            k,
            j,
        );
    } else {
        assert(0 * size == 0);
        assert(before.len() == 0);
    }
}

} // verus!
