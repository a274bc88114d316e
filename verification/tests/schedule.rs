//! Timesteps of the sampler.

use maolan_generate::acestep::schedule::{sft_timesteps, timesteps, TURBO_TIMESTEPS};

fn floats(bits: &[u32]) -> Vec<f32> {
    bits.iter().map(|bits| f32::from_bits(*bits)).collect()
}

#[test]
fn default_schedule_has_eight_descending_steps() {
    let steps = floats(&TURBO_TIMESTEPS);
    assert_eq!(steps.len(), 8);
    assert_eq!(steps[0], 1.0);
    assert_eq!(steps[7], 0.3);
    assert!(steps.windows(2).all(|w| w[0] > w[1]));
}

#[test]
fn turbo_steps_are_shifted_eighths() {
    for (i, step) in floats(&TURBO_TIMESTEPS).iter().enumerate() {
        let t = (8 - i) as f64 / 8.0;
        assert_eq!(*step, (3.0 * t / (1.0 + 2.0 * t)) as f32);
    }
}

#[test]
fn sft_steps_agree_with_machine_arithmetic() {
    let steps: Vec<f32> = sft_timesteps().iter().map(|s| f32::from_bits(s.bits)).collect();
    assert_eq!(steps.len(), 50);
    for (i, step) in steps.iter().enumerate() {
        assert_eq!(*step, 1.0 - i as f32 / 50.0);
    }
    assert_eq!(steps[0], 1.0);
    assert!(steps.windows(2).all(|w| w[0] > w[1]));
}

#[test]
fn the_variant_chooses_the_schedule() {
    let turbo: Vec<u32> = timesteps(true).iter().map(|s| s.bits).collect();
    assert_eq!(turbo, TURBO_TIMESTEPS.to_vec());
    assert_eq!(timesteps(false).len(), 50);
}
