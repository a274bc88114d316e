//! Host-side tensor layouts: attention masks, packed sequences, tiled latents
//! and interleaved audio, as flat row-major lists.

use vstd::prelude::*;

verus! {

/// A flat list of `rows * cols` cells, given by what stands in each.
pub open spec fn grid(rows: int, cols: int, cell: spec_fn(int, int) -> bool) -> Seq<bool> {
    Seq::new((rows * cols) as nat, |k: int| cell(k / cols, k % cols))
}

/// Where a cell stands in a flat list.
proof fn lemma_cell(row: int, col: int, cols: int)
    requires
        0 <= col < cols,
        0 <= row,
    ensures
        (row * cols + col) / cols == row,
        (row * cols + col) % cols == col,
{
    vstd::arithmetic::div_mod::lemma_fundamental_div_mod_converse(
        row * cols + col,
        cols,
        row,
        col,
    );
}

/// The cells of a row come before those of the next one.
proof fn lemma_next_row(row: int, cols: int)
    ensures
        (row + 1) * cols == row * cols + cols,
{
    assert((row + 1) * cols == row * cols + cols) by (nonlinear_arith);
}

/// Two positions are at most `window` apart.
pub open spec fn is_near(row: int, col: int, window: int) -> bool {
    row - col <= window && col - row <= window
}

/// The positions that a bidirectional sliding window makes visible: those at most
/// `window` apart.
pub fn sliding_window_mask(seq_len: usize, window: usize) -> (visible: Vec<bool>)
    ensures
        visible@ == grid(
            seq_len as int,
            seq_len as int,
            |row: int, col: int| is_near(row, col, window as int),
        ),
{
    let ghost cell = |row: int, col: int| is_near(row, col, window as int);
    let mut visible: Vec<bool> = Vec::new();
    let mut row: usize = 0;
    assert(visible@ =~= grid(0, seq_len as int, cell));
    while row < seq_len
        invariant
            row <= seq_len,
            cell == |row: int, col: int| is_near(row, col, window as int),
            visible@ == grid(row as int, seq_len as int, cell),
        decreases seq_len - row,
    {
        let ghost start = row * seq_len;
        let mut col: usize = 0;
        while col < seq_len
            invariant
                row < seq_len,
                col <= seq_len,
                cell == |row: int, col: int| is_near(row, col, window as int),
                start == row * seq_len,
                visible@ == Seq::new(
                    (start + col) as nat,
                    |k: int| cell(k / seq_len as int, k % seq_len as int),
                ),
            decreases seq_len - col,
        {
            proof {
                lemma_cell(row as int, col as int, seq_len as int);
            }
            let apart: usize = if row > col {
                row - col
            } else {
                col - row
            };
            visible.push(apart <= window);
            col += 1;
            assert(visible@ =~= Seq::new(
                (start + col) as nat,
                |k: int| cell(k / seq_len as int, k % seq_len as int),
            ));
        }
        proof {
            lemma_next_row(row as int, seq_len as int);
        }
        row += 1;
    }
    visible
}

/// The keys that a query may not see: those after its own position. Query row
/// `row` stands at the position `offset + row`.
pub fn incremental_causal_mask(query_len: usize, key_len: usize, offset: usize) -> (hidden: Vec<
    bool,
>)
    ensures
        hidden@ == grid(
            query_len as int,
            key_len as int,
            |row: int, col: int| col > offset + row,
        ),
{
    let ghost cell = |row: int, col: int| col > offset + row;
    let mut hidden: Vec<bool> = Vec::new();
    let mut row: usize = 0;
    assert(hidden@ =~= grid(0, key_len as int, cell));
    while row < query_len
        invariant
            row <= query_len,
            cell == |row: int, col: int| col > offset + row,
            hidden@ == grid(row as int, key_len as int, cell),
        decreases query_len - row,
    {
        let ghost start = row * key_len;
        let mut col: usize = 0;
        while col < key_len
            invariant
                row < query_len,
                col <= key_len,
                cell == |row: int, col: int| col > offset + row,
                start == row * key_len,
                start >= 0,
                hidden@ == Seq::new(
                    (start + col) as nat,
                    |k: int| cell(k / key_len as int, k % key_len as int),
                ),
            decreases key_len - col,
        {
            proof {
                lemma_cell(row as int, col as int, key_len as int);
            }
            hidden.push(col > offset && col - offset > row);
            col += 1;
            assert(hidden@ =~= Seq::new(
                (start + col) as nat,
                |k: int| cell(k / key_len as int, k % key_len as int),
            ));
        }
        proof {
            lemma_next_row(row as int, key_len as int);
        }
        row += 1;
    }
    hidden
}

/// The keys that a query may not see: those after itself.
pub fn causal_mask(seq_len: usize) -> (hidden: Vec<bool>)
    ensures
        hidden@ == grid(seq_len as int, seq_len as int, |row: int, col: int| col > row),
{
    let hidden = incremental_causal_mask(seq_len, seq_len, 0);
    assert(hidden@ =~= grid(seq_len as int, seq_len as int, |row: int, col: int| col > row));
    hidden
}

/// Row `b * seq_len + i` of an attention mask for a batch: query `i` of sequence
/// `b` may attend to key `col` where it is in the window, if there is one, and
/// not padding, if some is marked.
pub open spec fn may_attend(
    seq_len: int,
    window: Option<usize>,
    padding: Option<Seq<i64>>,
    row: int,
    col: int,
) -> bool {
    &&& window is Some ==> is_near(row % seq_len, col, window->0 as int)
    &&& padding is Some ==> padding->0[(row / seq_len) * seq_len + col] != 0
}

/// A list that may be missing.
pub open spec fn list_view(list: Option<&[i64]>) -> Option<Seq<i64>> {
    match list {
        Some(list) => Some(list@),
        None => None,
    }
}

/// The query and key pairs of a batch that may attend to each other.
pub fn attention_mask(
    batch: usize,
    seq_len: usize,
    sliding_window: Option<usize>,
    padding: Option<&[i64]>,
) -> (visible: Vec<bool>)
    requires
        padding is Some ==> padding->0@.len() == batch * seq_len,
    ensures
        visible@ == grid(
            batch * seq_len,
            seq_len as int,
            |row: int, col: int|
                may_attend(seq_len as int, sliding_window, list_view(padding), row, col),
        ),
{
    let ghost keys = list_view(padding);
    let ghost cell = |row: int, col: int|
        may_attend(seq_len as int, sliding_window, keys, row, col);
    let mut visible: Vec<bool> = Vec::new();
    let mut b: usize = 0;
    assert(0 * seq_len == 0);
    assert(visible@ =~= grid(0, seq_len as int, cell));
    while b < batch
        invariant
            b <= batch,
            keys == list_view(padding),
            padding is Some ==> padding->0@.len() == batch * seq_len,
            cell == |row: int, col: int|
                may_attend(seq_len as int, sliding_window, keys, row, col),
            visible@ == grid(b * seq_len, seq_len as int, cell),
        decreases batch - b,
    {
        let mut i: usize = 0;
        while i < seq_len
            invariant
                b < batch,
                i <= seq_len,
                keys == list_view(padding),
                padding is Some ==> padding->0@.len() == batch * seq_len,
                cell == |row: int, col: int|
                    may_attend(seq_len as int, sliding_window, keys, row, col),
                visible@ == grid(b * seq_len + i, seq_len as int, cell),
            decreases seq_len - i,
        {
            let ghost row = b * seq_len + i;
            let ghost start = row * seq_len;
            let mut j: usize = 0;
            proof {
                lemma_cell(b as int, i as int, seq_len as int);
                assert(0 <= row) by (nonlinear_arith)
                    requires
                        row == b * seq_len + i,
                        0 <= b,
                        0 <= seq_len,
                        0 <= i,
                ;
                assert(0 <= start) by (nonlinear_arith)
                    requires
                        start == row * seq_len,
                        0 <= row,
                        0 <= seq_len,
                ;
            }
            while j < seq_len
                invariant
                    b < batch,
                    i < seq_len,
                    j <= seq_len,
                    row == b * seq_len + i,
                    row / seq_len as int == b,
                    row % seq_len as int == i,
                    row >= 0,
                    start == row * seq_len,
                    start >= 0,
                    keys == list_view(padding),
                    padding is Some ==> padding->0@.len() == batch * seq_len,
                    cell == |row: int, col: int|
                        may_attend(seq_len as int, sliding_window, keys, row, col),
                    visible@ == Seq::new(
                        (start + j) as nat,
                        |k: int| cell(k / seq_len as int, k % seq_len as int),
                    ),
                decreases seq_len - j,
            {
                proof {
                    lemma_cell(row, j as int, seq_len as int);
                }
                let apart: usize = if i > j {
                    i - j
                } else {
                    j - i
                };
                let within: bool = match sliding_window {
                    Some(window) => apart <= window,
                    None => true,
                };
                let valid: bool = match padding {
                    Some(mask) => {
                        assert(0 <= b * seq_len && b * seq_len + j < batch * seq_len) by (
                        nonlinear_arith)
                            requires
                                0 <= b < batch,
                                0 <= j < seq_len,
                        ;
                        let len: usize = mask.len();
                        mask[b * seq_len + j] != 0
                    },
                    None => true,
                };
                visible.push(within && valid);
                j += 1;
                assert(visible@ =~= Seq::new(
                    (start + j) as nat,
                    |k: int| cell(k / seq_len as int, k % seq_len as int),
                ));
            }
            proof {
                lemma_next_row(row, seq_len as int);
            }
            i += 1;
        }
        proof {
            lemma_next_row(b as int, seq_len as int);
        }
        b += 1;
    }
    visible
}

/// Attention within a window goes both ways.
pub proof fn lemma_window_symmetric(row: int, col: int, window: int)
    ensures
        is_near(row, col, window) == is_near(col, row, window),
{
}

/// How many frames of padding bring a sequence to whole patches.
pub open spec fn patch_padding(seq_len: int, patch_size: int) -> int {
    let rest = seq_len % patch_size;
    if rest == 0 {
        0
    } else {
        patch_size - rest
    }
}

/// The frames of padding that bring a sequence to whole patches.
pub fn padding_for_patches(seq_len: usize, patch_size: usize) -> (pad: usize)
    requires
        patch_size > 0,
    ensures
        pad == patch_padding(seq_len as int, patch_size as int),
        pad < patch_size,
        (seq_len + pad) % patch_size as int == 0,
{
    let rest: usize = seq_len % patch_size;
    proof {
        let q = seq_len as int / patch_size as int;
        vstd::arithmetic::div_mod::lemma_fundamental_div_mod(seq_len as int, patch_size as int);
        if rest == 0 {
            assert(seq_len + 0 == seq_len);
        } else {
            lemma_next_row(q, patch_size as int);
            assert(seq_len + (patch_size - rest) == (q + 1) * patch_size) by (nonlinear_arith)
                requires
                    seq_len == patch_size * q + rest,
                    (q + 1) * patch_size == q * patch_size + patch_size,
            ;
            vstd::arithmetic::div_mod::lemma_mod_multiples_basic(q + 1, patch_size as int);
        }
    }
    if rest == 0 {
        0
    } else {
        patch_size - rest
    }
}

/// How a sequence is brought to a length.
#[derive(Clone, Copy, Debug, PartialEq, Eq, Structural)]
pub enum Fit {
    /// It has that length.
    Keep,
    /// It is cut to that length.
    Crop(usize),
    /// So much is added at its end.
    Pad(usize),
}

/// How a sequence of `length` is brought to `target`.
pub fn fit_length(length: usize, target: usize) -> (fit: Fit)
    ensures
        fit == (if length > target {
            Fit::Crop(target)
        } else if length < target {
            Fit::Pad((target - length) as usize)
        } else {
            Fit::Keep
        }),
{
    if length > target {
        Fit::Crop(target)
    } else if length < target {
        Fit::Pad(target - length)
    } else {
        Fit::Keep
    }
}

/// The first `n` frames of a latent that repeats without end. A frame has `dim`
/// numbers, and the latent `len` frames.
pub open spec fn tiled<T>(data: Seq<T>, len: int, dim: int, n: int) -> Seq<T>
    decreases n,
{
    if n <= 0 {
        Seq::empty()
    } else {
        let frame = (n - 1) % len;
        tiled(data, len, dim, n - 1) + data.subrange(frame * dim, frame * dim + dim)
    }
}

/// A frame lies within its latent.
proof fn lemma_frame(frame: int, len: int, dim: int)
    requires
        0 <= frame < len,
        0 <= dim,
    ensures
        0 <= frame * dim,
        frame * dim + dim <= len * dim,
{
    assert(0 <= frame * dim && frame * dim + dim <= len * dim) by (nonlinear_arith)
        requires
            0 <= frame < len,
            0 <= dim,
    ;
}

/// Repeats the frames of a latent and crops them to exactly `frames` frames.
pub fn tile_frames<T: Copy>(data: &[T], len: usize, dim: usize, frames: usize) -> (out: Vec<T>)
    requires
        len > 0,
        data@.len() == len * dim,
    ensures
        out@ == tiled(data@, len as int, dim as int, frames as int),
        out@.len() == frames * dim,
{
    let total: usize = data.len();
    let mut out: Vec<T> = Vec::new();
    let mut n: usize = 0;
    assert(0 * dim == 0);
    while n < frames
        invariant
            n <= frames,
            len > 0,
            total == data@.len(),
            total == len * dim,
            out@ == tiled(data@, len as int, dim as int, n as int),
            out@.len() == n * dim,
        decreases frames - n,
    {
        let frame: usize = n % len;
        proof {
            lemma_frame(frame as int, len as int, dim as int);
            lemma_next_row(n as int, dim as int);
        }
        let start: usize = frame * dim;
        let ghost before = out@;
        copy_into(&mut out, data, start, dim);
        n += 1;
    }
    out
}

/// Appends `count` numbers from `start` on.
fn copy_into<T: Copy>(out: &mut Vec<T>, data: &[T], start: usize, count: usize)
    requires
        start + count <= data@.len(),
    ensures
        final(out)@ == old(out)@ + data@.subrange(start as int, start + count),
{
    let ghost before = out@;
    let total: usize = data.len();
    let mut k: usize = 0;
    assert(data@.subrange(start as int, start as int) =~= Seq::empty());
    assert(out@ =~= before + data@.subrange(start as int, start as int));
    while k < count
        invariant
            k <= count,
            start + count <= total,
            total == data@.len(),
            out@ == before + data@.subrange(start as int, start + k),
        decreases count - k,
    {
        out.push(data[start + k]);
        k += 1;
        assert(out@ =~= before + data@.subrange(start as int, start + k));
    }
}

/// A frame of a tiled latent is the frame of the latent that it repeats.
pub proof fn lemma_tiled_frame<T>(data: Seq<T>, len: int, dim: int, n: int, frame: int)
    requires
        len > 0,
        dim >= 0,
        data.len() == len * dim,
        0 <= frame < n,
    ensures
        tiled(data, len, dim, n).len() == n * dim,
        frame * dim + dim <= n * dim,
        tiled(data, len, dim, n).subrange(frame * dim, frame * dim + dim) == data.subrange(
            (frame % len) * dim,
            (frame % len) * dim + dim,
        ),
    decreases n,
{
    let before = tiled(data, len, dim, n - 1);
    let all = tiled(data, len, dim, n);
    lemma_frame((n - 1) % len, len, dim);
    lemma_next_row(n - 1, dim);
    lemma_frame(frame, n, dim);
    if frame < n - 1 {
        lemma_tiled_frame(data, len, dim, n - 1, frame);
        lemma_frame(frame, n - 1, dim);
        assert(all.subrange(frame * dim, frame * dim + dim) =~= before.subrange(
            frame * dim,
            frame * dim + dim,
        ));
    } else {
        if n > 1 {
            lemma_tiled_frame(data, len, dim, n - 1, n - 2);
        } else {
            assert(0 * dim == 0);
        }
        assert(all.subrange(frame * dim, frame * dim + dim) =~= data.subrange(
            (frame % len) * dim,
            (frame % len) * dim + dim,
        ));
    }
}

/// Turns channel-major audio into frame-major (interleaved) samples.
pub fn interleave_channel_major<T: Copy>(
    channel_major: &[T],
    channels: usize,
    frames: usize,
) -> (interleaved: Vec<T>)
    requires
        channel_major@.len() == channels * frames,
    ensures
        interleaved@ == Seq::new(
            channel_major@.len(),
            |k: int|
                channel_major@[(k % channels as int) * frames + k / channels as int],
        ),
{
    let total: usize = channel_major.len();
    let ghost source = |k: int|
        channel_major@[(k % channels as int) * frames + k / channels as int];
    let mut out: Vec<T> = Vec::new();
    let mut frame: usize = 0;
    assert(0 * channels == 0);
    while frame < frames
        invariant
            frame <= frames,
            total == channel_major@.len(),
            total == channels * frames,
            source == |k: int|
                channel_major@[(k % channels as int) * frames + k / channels as int],
            out@ == Seq::new((frame * channels) as nat, source),
        decreases frames - frame,
    {
        let ghost start = frame * channels;
        let mut channel: usize = 0;
        while channel < channels
            invariant
                frame < frames,
                channel <= channels,
                total == channel_major@.len(),
                total == channels * frames,
                start == frame * channels,
                source == |k: int|
                    channel_major@[(k % channels as int) * frames + k / channels as int],
                out@ == Seq::new((start + channel) as nat, source),
            decreases channels - channel,
        {
            proof {
                lemma_cell(frame as int, channel as int, channels as int);
                assert(0 <= channel * frames && channel * frames + frame < channels * frames) by (
                nonlinear_arith)
                    requires
                        0 <= channel < channels,
                        0 <= frame < frames,
                ;
                assert(0 <= start) by (nonlinear_arith)
                    requires
                        start == frame * channels,
                        0 <= frame,
                        0 <= channels,
                ;
            }
            out.push(channel_major[channel * frames + frame]);
            channel += 1;
            assert(out@ =~= Seq::new((start + channel) as nat, source));
        }
        proof {
            lemma_next_row(frame as int, channels as int);
        }
        frame += 1;
    }
    assert(frames * channels == channels * frames) by (nonlinear_arith);
    out
}

/// The masks of a row of a batch: those of its first part and those of its
/// second part.
pub open spec fn row_masks(
    mask1: Seq<i64>,
    mask2: Seq<i64>,
    len1: int,
    len2: int,
    b: int,
) -> Seq<i64> {
    mask1.subrange(b * len1, b * len1 + len1) + mask2.subrange(b * len2, b * len2 + len2)
}

/// The position `i` put into a list of positions, after everything with a mask
/// that is at least as large.
pub open spec fn put_position(masks: Seq<i64>, list: Seq<usize>, i: usize) -> Seq<usize>
    decreases list.len(),
{
    if list.len() == 0 || masks[list.last() as int] >= masks[i as int] {
        list.push(i)
    } else {
        put_position(masks, list.drop_last(), i).push(list.last())
    }
}

/// The first `n` positions, those with larger masks first; equal masks keep their
/// order.
pub open spec fn pack_order(masks: Seq<i64>, n: int) -> Seq<usize>
    decreases n,
{
    if n <= 0 {
        Seq::empty()
    } else {
        put_position(masks, pack_order(masks, n - 1), (n - 1) as usize)
    }
}

/// How many of the first `n` masks are positive.
pub open spec fn valid_count(masks: Seq<i64>, n: int) -> int
    decreases n,
{
    if n <= 0 {
        0
    } else if masks[n - 1] > 0 {
        valid_count(masks, n - 1) + 1
    } else {
        valid_count(masks, n - 1)
    }
}

/// The numbers at the position `old` of a row.
pub open spec fn row_source<T>(
    hidden1: Seq<T>,
    hidden2: Seq<T>,
    len1: int,
    len2: int,
    dim: int,
    b: int,
    old: int,
) -> Seq<T> {
    if old < len1 {
        hidden1.subrange((b * len1 + old) * dim, (b * len1 + old) * dim + dim)
    } else {
        hidden2.subrange((b * len2 + old - len1) * dim, (b * len2 + old - len1) * dim + dim)
    }
}

/// The numbers of a row at the first `n` positions of an order.
pub open spec fn packed_row<T>(
    hidden1: Seq<T>,
    hidden2: Seq<T>,
    len1: int,
    len2: int,
    dim: int,
    b: int,
    order: Seq<usize>,
    n: int,
) -> Seq<T>
    decreases n,
{
    if n <= 0 {
        Seq::empty()
    } else {
        packed_row(hidden1, hidden2, len1, len2, dim, b, order, n - 1) + row_source(
            hidden1,
            hidden2,
            len1,
            len2,
            dim,
            b,
            order[n - 1] as int,
        )
    }
}

/// The first `b` rows of a packed batch, with the positions of larger masks
/// first.
pub open spec fn packed_rows<T>(
    hidden1: Seq<T>,
    hidden2: Seq<T>,
    mask1: Seq<i64>,
    mask2: Seq<i64>,
    len1: int,
    len2: int,
    dim: int,
    b: int,
) -> Seq<T>
    decreases b,
{
    if b <= 0 {
        Seq::empty()
    } else {
        let masks = row_masks(mask1, mask2, len1, len2, b - 1);
        packed_rows(hidden1, hidden2, mask1, mask2, len1, len2, dim, b - 1) + packed_row(
            hidden1,
            hidden2,
            len1,
            len2,
            dim,
            b - 1,
            pack_order(masks, len1 + len2),
            len1 + len2,
        )
    }
}

/// The masks of the first `b` rows of a packed batch: one for as many positions
/// as had a positive mask, and zero for the others.
pub open spec fn packed_masks(
    mask1: Seq<i64>,
    mask2: Seq<i64>,
    len1: int,
    len2: int,
    b: int,
) -> Seq<i64>
    decreases b,
{
    if b <= 0 {
        Seq::empty()
    } else {
        let count = valid_count(row_masks(mask1, mask2, len1, len2, b - 1), len1 + len2);
        packed_masks(mask1, mask2, len1, len2, b - 1) + Seq::new(
            (len1 + len2) as nat,
            |i: int|
                if i < count {
                    1i64
                } else {
                    0i64
                },
        )
    }
}

/// Putting a position into a list adds that position and changes nothing else.
proof fn lemma_put_position(masks: Seq<i64>, list: Seq<usize>, i: usize)
    ensures
        put_position(masks, list, i).len() == list.len() + 1,
        put_position(masks, list, i).to_multiset() == list.to_multiset().insert(i),
        forall|k: int|
            0 <= k < put_position(masks, list, i).len() ==> list.contains(
                #[trigger] put_position(masks, list, i)[k],
            ) || put_position(masks, list, i)[k] == i,
    decreases list.len(),
{
    broadcast use vstd::seq_lib::group_to_multiset_ensures;

    let after = put_position(masks, list, i);
    if list.len() == 0 || masks[list.last() as int] >= masks[i as int] {
        assert forall|k: int| 0 <= k < after.len() implies list.contains(#[trigger] after[k])
            || after[k] == i by {
            if k < list.len() {
                assert(list[k] == after[k]);
            }
        }
    } else {
        let front = list.drop_last();
        lemma_put_position(masks, front, i);
        assert(list =~= front.push(list.last()));
        assert(after.to_multiset() =~= list.to_multiset().insert(i));
        assert forall|k: int| 0 <= k < after.len() implies list.contains(#[trigger] after[k])
            || after[k] == i by {
            if k < after.len() - 1 {
                let x = put_position(masks, front, i)[k];
                if x != i {
                    let j = choose|j: int| 0 <= j < front.len() && front[j] == x;
                    assert(list[j] == x);
                }
            } else {
                assert(list[list.len() - 1] == after[k]);
            }
        }
    }
}

/// The order has as many positions as there are, and each of them is one.
proof fn lemma_order(masks: Seq<i64>, n: int)
    requires
        0 <= n <= masks.len(),
        n <= usize::MAX,
    ensures
        pack_order(masks, n).len() == n,
        forall|k: int| 0 <= k < n ==> #[trigger] pack_order(masks, n)[k] < n,
    decreases n,
{
    if n > 0 {
        lemma_order(masks, n - 1);
        let before = pack_order(masks, n - 1);
        lemma_put_position(masks, before, (n - 1) as usize);
        let all = pack_order(masks, n);
        assert forall|k: int| 0 <= k < n implies #[trigger] all[k] < n by {
            if all[k] != (n - 1) as usize {
                let j = choose|j: int| 0 <= j < before.len() && before[j] == all[k];
                assert(before[j] < n - 1);
            }
        }
    }
}

/// Packing lists every position once. It keeps the order of larger masks first, and
/// never moves a position past another with the same mask.
pub proof fn lemma_pack_stable(masks: Seq<i64>, n: int)
    requires
        0 <= n <= masks.len(),
        n <= usize::MAX,
    ensures
        is_packed(masks, pack_order(masks, n)),
        pack_order(masks, n).len() == n,
        forall|k: int| 0 <= k < n ==> #[trigger] pack_order(masks, n)[k] < n,
        pack_order(masks, n).no_duplicates(),
    decreases n,
{
    lemma_order(masks, n);
    if n > 0 {
        lemma_pack_stable(masks, n - 1);
        lemma_order(masks, n - 1);
        lemma_put_packed(masks, pack_order(masks, n - 1), (n - 1) as usize);
        lemma_order(masks, n);
    }
}

/// Of two positions, the one with the larger mask comes first, and of two with
/// the same mask the earlier one.
pub open spec fn is_packed(masks: Seq<i64>, order: Seq<usize>) -> bool {
    forall|a: int, b: int|
        0 <= a < b < order.len() ==> comes_first(masks, #[trigger] order[a], #[trigger] order[b])
}

/// The position `x` belongs before the position `y`.
pub open spec fn comes_first(masks: Seq<i64>, x: usize, y: usize) -> bool {
    masks[x as int] > masks[y as int] || (masks[x as int] == masks[y as int] && x < y)
}

proof fn lemma_put_packed(masks: Seq<i64>, list: Seq<usize>, i: usize)
    requires
        is_packed(masks, list),
        forall|k: int| 0 <= k < list.len() ==> #[trigger] list[k] < i,
    ensures
        is_packed(masks, put_position(masks, list, i)),
    decreases list.len(),
{
    let after = put_position(masks, list, i);
    if list.len() == 0 || masks[list.last() as int] >= masks[i as int] {
        assert forall|a: int, b: int| 0 <= a < b < after.len() implies comes_first(
            masks,
            #[trigger] after[a],
            #[trigger] after[b],
        ) by {
            if b == list.len() {
                assert(list[a] < i);
                if a < list.len() - 1 {
                    assert(comes_first(masks, list[a], list[list.len() - 1]));
                }
            } else {
                assert(comes_first(masks, list[a], list[b]));
            }
        }
    } else {
        let front = list.drop_last();
        assert forall|a: int, b: int| 0 <= a < b < front.len() implies comes_first(
            masks,
            #[trigger] front[a],
            #[trigger] front[b],
        ) by {
            assert(comes_first(masks, list[a], list[b]));
        }
        lemma_put_packed(masks, front, i);
        lemma_put_position(masks, front, i);
        let middle = put_position(masks, front, i);
        assert forall|a: int, b: int| 0 <= a < b < after.len() implies comes_first(
            masks,
            #[trigger] after[a],
            #[trigger] after[b],
        ) by {
            if b == middle.len() {
                let x = middle[a];
                if x != i {
                    let j = choose|j: int| 0 <= j < front.len() && front[j] == x;
                    assert(comes_first(masks, list[j], list[list.len() - 1]));
                }
            } else {
                assert(comes_first(masks, middle[a], middle[b]));
            }
        }
    }
}

/// Puts a position into a list of positions.
fn insert_position(masks: &Vec<i64>, list: &mut Vec<usize>, i: usize)
    requires
        i < masks@.len(),
        forall|k: int| 0 <= k < old(list)@.len() ==> #[trigger] old(list)@[k] < masks@.len(),
    ensures
        final(list)@ == put_position(masks@, old(list)@, i),
{
    let mut at: usize = list.len();
    let ghost whole = list@;
    let ghost mut tail: Seq<usize> = Seq::empty();
    assert(whole.take(at as int) =~= whole);
    assert(put_position(masks@, whole, i) =~= put_position(masks@, whole.take(at as int), i)
        + tail);
    while at > 0 && masks[list[at - 1]] < masks[i]
        invariant
            at <= list@.len(),
            list@ == whole,
            i < masks@.len(),
            forall|k: int| 0 <= k < whole.len() ==> #[trigger] whole[k] < masks@.len(),
            tail == whole.skip(at as int),
            put_position(masks@, whole, i) == put_position(masks@, whole.take(at as int), i)
                + tail,
        decreases at,
    {
        proof {
            let front = whole.take(at as int);
            assert(front.last() == whole[at - 1]);
            assert(front.drop_last() =~= whole.take(at - 1));
            tail = whole.skip(at - 1);
            assert(put_position(masks@, whole.take(at - 1), i).push(whole[at - 1]) + whole.skip(
                at as int,
            ) =~= put_position(masks@, whole.take(at - 1), i) + tail);
        }
        at -= 1;
    }
    proof {
        if at > 0 {
            assert(whole.take(at as int).last() == whole[at - 1]);
        }
        assert(whole.insert(at as int, i) =~= whole.take(at as int).push(i) + tail);
    }
    list.insert(at, i);
}

/// Concatenates two batches of sequences with their masks along the sequence
/// dimension, and sorts each row so that positions with larger masks come first,
/// keeping the order within equal masks. The new mask marks as many positions of
/// a row as had a positive mask.
///
/// `hidden1` is `[batch, len1, dim]`, `hidden2` is `[batch, len2, dim]`, and the
/// masks are `[batch, len1]` and `[batch, len2]`.
#[verifier::rlimit(40)]
pub fn pack_sequences<T: Copy>(
    hidden1: &[T],
    hidden2: &[T],
    mask1: &[i64],
    mask2: &[i64],
    batch: usize,
    len1: usize,
    len2: usize,
    dim: usize,
) -> (r: (Vec<T>, Vec<i64>))
    requires
        hidden1@.len() == (batch * len1) * dim,
        hidden2@.len() == (batch * len2) * dim,
        mask1@.len() == batch * len1,
        mask2@.len() == batch * len2,
        len1 + len2 <= usize::MAX,
    ensures
        r.0@ == packed_rows(
            hidden1@,
            hidden2@,
            mask1@,
            mask2@,
            len1 as int,
            len2 as int,
            dim as int,
            batch as int,
        ),
        r.1@ == packed_masks(mask1@, mask2@, len1 as int, len2 as int, batch as int),
{
    let len: usize = len1 + len2;
    let mut packed: Vec<T> = Vec::new();
    let mut new_mask: Vec<i64> = Vec::new();
    let mut b: usize = 0;
    while b < batch
        invariant
            b <= batch,
            len == len1 + len2,
            hidden1@.len() == (batch * len1) * dim,
            hidden2@.len() == (batch * len2) * dim,
            mask1@.len() == batch * len1,
            mask2@.len() == batch * len2,
            packed@ == packed_rows(
                hidden1@,
                hidden2@,
                mask1@,
                mask2@,
                len1 as int,
                len2 as int,
                dim as int,
                b as int,
            ),
            new_mask@ == packed_masks(mask1@, mask2@, len1 as int, len2 as int, b as int),
        decreases batch - b,
    {
        let masks = gather_masks(mask1, mask2, batch, len1, len2, b);
        let mut order: Vec<usize> = Vec::new();
        let mut count: usize = 0;
        let mut i: usize = 0;
        while i < len
            invariant
                i <= len,
                masks@.len() == len,
                count <= i,
                count == valid_count(masks@, i as int),
                order@ == pack_order(masks@, i as int),
                forall|k: int| 0 <= k < order@.len() ==> #[trigger] order@[k] < len,
            decreases len - i,
        {
            if masks[i] > 0 {
                count += 1;
            }
            insert_position(&masks, &mut order, i);
            i += 1;
            proof {
                lemma_order(masks@, i as int);
            }
        }
        proof {
            lemma_order(masks@, len as int);
        }
        append_row(hidden1, hidden2, batch, len1, len2, dim, b, &order, &mut packed);
        append_mask(&mut new_mask, len, count);
        b += 1;
    }
    (packed, new_mask)
}

/// The masks of a row.
fn gather_masks(
    mask1: &[i64],
    mask2: &[i64],
    batch: usize,
    len1: usize,
    len2: usize,
    b: usize,
) -> (masks: Vec<i64>)
    requires
        mask1@.len() == batch * len1,
        mask2@.len() == batch * len2,
        b < batch,
    ensures
        masks@ == row_masks(mask1@, mask2@, len1 as int, len2 as int, b as int),
        masks@.len() == len1 + len2,
{
    let total1: usize = mask1.len();
    let total2: usize = mask2.len();
    proof {
        lemma_frame(b as int, batch as int, len1 as int);
        lemma_frame(b as int, batch as int, len2 as int);
    }
    let mut masks: Vec<i64> = Vec::new();
    copy_into(&mut masks, mask1, b * len1, len1);
    copy_into(&mut masks, mask2, b * len2, len2);
    assert(masks@ =~= row_masks(mask1@, mask2@, len1 as int, len2 as int, b as int));
    masks
}

/// Appends the numbers of a row in the given order.
fn append_row<T: Copy>(
    hidden1: &[T],
    hidden2: &[T],
    batch: usize,
    len1: usize,
    len2: usize,
    dim: usize,
    b: usize,
    order: &Vec<usize>,
    packed: &mut Vec<T>,
)
    requires
        hidden1@.len() == (batch * len1) * dim,
        hidden2@.len() == (batch * len2) * dim,
        len1 + len2 <= usize::MAX,
        b < batch,
        order@.len() == len1 + len2,
        forall|k: int| 0 <= k < order@.len() ==> #[trigger] order@[k] < len1 + len2,
    ensures
        final(packed)@ == old(packed)@ + packed_row(
            hidden1@,
            hidden2@,
            len1 as int,
            len2 as int,
            dim as int,
            b as int,
            order@,
            len1 + len2,
        ),
{
    let ghost before = packed@;
    let total1: usize = hidden1.len();
    let total2: usize = hidden2.len();
    let len: usize = len1 + len2;
    let mut n: usize = 0;
    assert(packed@ =~= before + Seq::<T>::empty());
    while n < len
        invariant
            n <= len,
            len == len1 + len2,
            total1 == hidden1@.len(),
            total2 == hidden2@.len(),
            total1 == (batch * len1) * dim,
            total2 == (batch * len2) * dim,
            b < batch,
            order@.len() == len,
            forall|k: int| 0 <= k < order@.len() ==> #[trigger] order@[k] < len1 + len2,
            packed@ == before + packed_row(
                hidden1@,
                hidden2@,
                len1 as int,
                len2 as int,
                dim as int,
                b as int,
                order@,
                n as int,
            ),
        decreases len - n,
    {
        let old_pos: usize = order[n];
        let ghost so_far = packed@;
        if dim == 0 {
            proof {
                assert(forall|x: int| #[trigger] (x * 0) == 0);
                let source = row_source(
                    hidden1@,
                    hidden2@,
                    len1 as int,
                    len2 as int,
                    dim as int,
                    b as int,
                    old_pos as int,
                );
                assert(source =~= Seq::empty());
                assert(so_far + source =~= so_far);
            }
        } else if old_pos < len1 {
            proof {
                lemma_place(b as int, batch as int, len1 as int, dim as int, old_pos as int);
            }
            copy_into(packed, hidden1, (b * len1 + old_pos) * dim, dim);
        } else {
            let second: usize = old_pos - len1;
            proof {
                lemma_place(b as int, batch as int, len2 as int, dim as int, second as int);
            }
            copy_into(packed, hidden2, (b * len2 + second) * dim, dim);
        }
        n += 1;
        assert(packed@ =~= before + packed_row(
            hidden1@,
            hidden2@,
            len1 as int,
            len2 as int,
            dim as int,
            b as int,
            order@,
            n as int,
        ));
    }
}

/// A position of a row lies within its batch.
proof fn lemma_place(b: int, batch: int, len: int, dim: int, position: int)
    requires
        0 <= b < batch,
        0 <= position < len,
        0 < dim,
    ensures
        0 <= b * len,
        b * len <= batch * len,
        0 <= (b * len + position) * dim,
        b * len + position <= (b * len + position) * dim,
        (b * len + position) * dim + dim <= (batch * len) * dim,
        batch * len <= (batch * len) * dim,
{
    lemma_frame(b, batch, len);
    lemma_frame(b * len + position, batch * len, dim);
    let x = b * len + position;
    assert(x <= x * dim) by (nonlinear_arith)
        requires
            0 <= x,
            0 < dim,
    ;
    let y = batch * len;
    assert(y <= y * dim) by (nonlinear_arith)
        requires
            0 <= y,
            0 < dim,
    ;
}

/// Appends the mask of a row.
fn append_mask(new_mask: &mut Vec<i64>, len: usize, count: usize)
    ensures
        final(new_mask)@ == old(new_mask)@ + Seq::new(
            len as nat,
            |i: int|
                if i < count {
                    1i64
                } else {
                    0i64
                },
        ),
{
    let ghost before = new_mask@;
    let ghost value = |i: int|
        if i < count {
            1i64
        } else {
            0i64
        };
    let mut i: usize = 0;
    assert(new_mask@ =~= before + Seq::new(0, value));
    while i < len
        invariant
            i <= len,
            value == |i: int|
                if i < count {
                    1i64
                } else {
                    0i64
                },
            new_mask@ == before + Seq::new(i as nat, value),
        decreases len - i,
    {
        new_mask.push(
            if i < count {
                1
            } else {
                0
            },
        );
        i += 1;
        assert(new_mask@ =~= before + Seq::new(i as nat, value));
    }
}

} // verus!
