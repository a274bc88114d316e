//! Masks, packed sequences, tiled latents and interleaved audio.

use maolan_generate::acestep::layout::{
    attention_mask, causal_mask, fit_length, incremental_causal_mask, interleave_channel_major,
    pack_sequences, padding_for_patches, sliding_window_mask, tile_frames, Fit,
};
use maolan_generate::acestep::pipeline::TIMBRE_REFERENCE_FRAMES;

#[test]
fn sliding_window_mask_band_pattern() {
    let visible = sliding_window_mask(5, 2);
    assert_eq!(visible.len(), 25);
    for row in 0..5usize {
        for col in 0..5usize {
            let expected = row.abs_diff(col) <= 2;
            assert_eq!(visible[row * 5 + col], expected, "mask[{row}][{col}] should be {expected}");
        }
    }
}

#[test]
fn a_window_is_symmetric() {
    let visible = sliding_window_mask(9, 3);
    for row in 0..9 {
        for col in 0..9 {
            assert_eq!(visible[row * 9 + col], visible[col * 9 + row]);
        }
    }
}

#[test]
fn causal_masks_hide_what_comes_later() {
    assert_eq!(
        causal_mask(3),
        vec![false, true, true, false, false, true, false, false, false]
    );
    assert_eq!(
        incremental_causal_mask(2, 4, 2),
        vec![false, false, false, true, false, false, false, false]
    );
    assert_eq!(incremental_causal_mask(3, 3, 0), causal_mask(3));
}

#[test]
fn attention_masks_combine_window_and_padding() {
    assert_eq!(attention_mask(1, 2, None, None), vec![true; 4]);
    assert_eq!(
        attention_mask(1, 3, Some(1), None),
        vec![true, true, false, true, true, true, false, true, true]
    );
    let padding = [1i64, 1, 0, 1, 0, 0];
    let both = attention_mask(2, 3, Some(1), Some(&padding));
    let expected: Vec<bool> = (0..2usize)
        .flat_map(|b| {
            (0..3usize).flat_map(move |row| {
                (0..3usize).map(move |col| row.abs_diff(col) <= 1 && padding[b * 3 + col] != 0)
            })
        })
        .collect();
    assert_eq!(both, expected);
}

#[test]
fn odd_lengths_are_padded_to_patches() {
    assert_eq!(padding_for_patches(9, 2), 1);
    assert_eq!(padding_for_patches(10, 2), 0);
    assert_eq!(padding_for_patches(10, 4), 2);
}

#[test]
fn lengths_are_cut_padded_or_kept() {
    assert!(matches!(fit_length(10, 7), Fit::Crop(7)));
    assert!(matches!(fit_length(7, 10), Fit::Pad(3)));
    assert!(matches!(fit_length(7, 7), Fit::Keep));
}

#[test]
fn pack_sequences_stable_sorts_valid_first() {
    let hidden1 = [10.0, 20.0, 30.0, 60.0, 70.0, 80.0];
    let hidden2 = [40.0, 50.0, 90.0, 100.0];
    let mask1 = [1, 0, 1, 0, 1, 0];
    let mask2 = [0, 1, 1, 0];
    let (packed, new_mask) = pack_sequences(&hidden1, &hidden2, &mask1, &mask2, 2, 3, 2, 1);
    assert_eq!(
        packed,
        vec![10.0, 30.0, 50.0, 20.0, 40.0, 70.0, 90.0, 60.0, 80.0, 100.0]
    );
    assert_eq!(new_mask, vec![1, 1, 1, 0, 0, 1, 1, 0, 0, 0]);
}

#[test]
fn packed_rows_keep_their_values_together() {
    let hidden1 = [1, 2, 3, 4];
    let hidden2 = [5, 6];
    let (packed, mask) = pack_sequences(&hidden1, &hidden2, &[0, 1], &[1], 1, 2, 1, 2);
    assert_eq!(packed, vec![3, 4, 5, 6, 1, 2]);
    assert_eq!(mask, vec![1, 1, 0]);
}

#[test]
fn tile_frames_tiles_and_crops() {
    let data = [
        1.0, 10.0, 100.0, 1000.0, 2.0, 20.0, 200.0, 2000.0, 3.0, 30.0, 300.0, 3000.0,
    ];
    let tiled = tile_frames(&data, 3, 4, 7);
    assert_eq!(tiled.len(), 7 * 4);
    for frame in 0..7 {
        let source = frame % 3;
        assert_eq!(tiled[frame * 4], (source + 1) as f64);
    }

    let cropped = tile_frames(&data, 3, 4, 2);
    assert_eq!(cropped.len(), 2 * 4);
    assert_eq!(cropped[0], 1.0);
    assert_eq!(cropped[4], 2.0);

    assert_eq!(tile_frames(&data, 3, 4, 3).len(), 3 * 4);
}

#[test]
fn silence_latent_slice_and_timbre_reference_tile() {
    let data = [
        1.0, 2.0, 3.0, 4.0, 5.0, 6.0, 7.0, 8.0, 9.0, 10.0, 11.0, 12.0,
    ];
    let sliced = tile_frames(&data, 3, 4, 5);
    assert_eq!(sliced.len(), 5 * 4);
    assert_eq!(&sliced[0..4], &[1.0, 2.0, 3.0, 4.0]);
    assert_eq!(&sliced[12..16], &[1.0, 2.0, 3.0, 4.0]);
    assert_eq!(&sliced[16..20], &[5.0, 6.0, 7.0, 8.0]);

    let reference = tile_frames(&data, 3, 4, TIMBRE_REFERENCE_FRAMES);
    assert_eq!(reference.len(), TIMBRE_REFERENCE_FRAMES * 4);
    let last = &reference[(TIMBRE_REFERENCE_FRAMES - 1) * 4..];
    assert_eq!(last, &[9.0, 10.0, 11.0, 12.0]);
}

#[test]
fn channels_are_interleaved_frame_by_frame() {
    assert_eq!(interleave_channel_major(&[1, 2, 3, 11, 12, 13], 2, 3), vec![1, 11, 2, 12, 3, 13]);
}
