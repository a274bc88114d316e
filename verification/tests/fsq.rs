//! Codes of the finite scalar quantizer.

use maolan_generate::acestep::fsq::{
    decode_indices, index_to_level_indices, level_values, FSQ_BASIS, FSQ_CODEBOOK_SIZE, FSQ_LEVELS,
};

fn values_of(indices: &[u32; 6]) -> Vec<f32> {
    level_values(indices).iter().map(|value| f32::from_bits(value.bits)).collect()
}

#[test]
fn index_zero_maps_to_all_zero_levels() {
    assert_eq!(index_to_level_indices(0), [0; 6]);
}

#[test]
fn max_index_maps_to_max_levels() {
    assert_eq!(index_to_level_indices(FSQ_CODEBOOK_SIZE - 1), [7, 7, 7, 4, 4, 4]);
}

#[test]
fn mid_range_indices_decompose_correctly() {
    assert_eq!(index_to_level_indices(1), [1, 0, 0, 0, 0, 0]);
    assert_eq!(index_to_level_indices(8), [0, 1, 0, 0, 0, 0]);
    assert_eq!(index_to_level_indices(73), [1, 1, 1, 0, 0, 0]);
    assert_eq!(index_to_level_indices(12800), [0, 0, 0, 0, 0, 1]);
    let index = 2 * 12800 + 3 * 2560 + 4 * 512 + 5 * 64 + 6 * 8 + 7;
    assert_eq!(index_to_level_indices(index), [7, 6, 5, 4, 3, 2]);
}

#[test]
fn level_values_edges() {
    assert_eq!(values_of(&[0; 6]), vec![-1.0; 6]);
    assert_eq!(values_of(&[7, 7, 7, 4, 4, 4]), vec![1.0; 6]);
}

#[test]
fn level_values_midpoints() {
    let values = values_of(&[4, 0, 0, 0, 0, 0]);
    assert!((values[0] - 1.0 / 7.0).abs() < 1e-6);
    let values = values_of(&[0, 0, 0, 2, 0, 0]);
    assert_eq!(values[3], 0.0);
    let values = values_of(&[0, 0, 0, 0, 1, 0]);
    assert_eq!(values[4], -0.5);
}

#[test]
fn level_values_agree_with_machine_arithmetic() {
    for level in (0u32..2000).chain([16_777_215, 16_777_217, 33_554_435, 4_294_967_295]) {
        let values = level_values(&[level; 6]);
        for dim in 0..6 {
            let expected = level as f32 * 2.0 / (FSQ_LEVELS[dim] - 1) as f32 - 1.0;
            assert_eq!(values[dim].bits, expected.to_bits(), "level {level} of dimension {dim}");
        }
    }
}

#[test]
fn digits_spell_the_code_back() {
    for code in (0..FSQ_CODEBOOK_SIZE).step_by(37) {
        let digits = index_to_level_indices(code);
        let spelled: u32 = digits.iter().zip(FSQ_BASIS.iter()).map(|(d, b)| d * b).sum();
        assert_eq!(spelled, code);
    }
}

#[test]
fn indices_out_of_the_codebook_are_clamped() {
    let bits = |indices: &[i64]| -> Vec<u32> {
        decode_indices(indices).iter().map(|value| value.bits).collect()
    };
    assert_eq!(bits(&[-5]), bits(&[0]));
    assert_eq!(bits(&[64_000]), bits(&[63_999]));
    assert_eq!(bits(&[i64::MAX]), vec![1.0f32.to_bits(); 6]);
    assert_eq!(bits(&[0, 12_345, 63_999]).len(), 18);
}
