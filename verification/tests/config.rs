//! Configurations of the models.

use maolan_generate::acestep::config::{
    AceStepConfig, DecoderStage, OobleckVaeConfig, Qwen3Config, DEFAULT_MAX_POSITION_EMBEDDINGS,
    DEFAULT_RMS_NORM_EPS, DEFAULT_ROPE_THETA,
};

fn turbo_config() -> AceStepConfig {
    AceStepConfig {
        hidden_size: 2048,
        intermediate_size: 6144,
        num_hidden_layers: 24,
        num_attention_heads: 16,
        num_key_value_heads: 8,
        head_dim: 128,
        rms_norm_eps: 1e-6f64.to_bits(),
        rope_theta: 1_000_000.0f64.to_bits(),
        sliding_window: 128,
        in_channels: 192,
        audio_acoustic_hidden_dim: 64,
        patch_size: 2,
        text_hidden_dim: 1024,
        num_lyric_encoder_hidden_layers: 8,
        num_timbre_encoder_hidden_layers: 4,
        timbre_fix_frame: 750,
        pool_window_size: 5,
        num_attention_pooler_hidden_layers: 2,
        fsq_dim: 2048,
        fsq_input_levels: vec![8, 8, 8, 5, 5, 5],
        vocab_size: 64003,
        layer_types: (0..24)
            .map(|i| if i % 2 == 0 { "sliding_attention" } else { "full_attention" }.to_string())
            .collect(),
        is_turbo: true,
    }
}

fn vae_config(multiples: Vec<usize>, ratios: Vec<usize>, channels: usize) -> OobleckVaeConfig {
    OobleckVaeConfig {
        decoder_input_channels: 64,
        decoder_channels: channels,
        channel_multiples: multiples,
        downsampling_ratios: ratios,
        audio_channels: 2,
        sampling_rate: 48_000,
    }
}

#[test]
fn sliding_layers_alternate() {
    let config = turbo_config();
    assert!(config.is_sliding_layer(0));
    assert!(!config.is_sliding_layer(1));
    assert!(config.is_sliding_layer(22));
    assert!(!config.is_sliding_layer(23));
    assert!(!config.is_sliding_layer(24));
}

#[test]
fn head_width_follows_where_it_is_not_given() {
    let mut config = Qwen3Config {
        hidden_size: 1024,
        intermediate_size: 3072,
        num_hidden_layers: 28,
        num_attention_heads: 16,
        num_key_value_heads: 8,
        head_dim: 128,
        rms_norm_eps: DEFAULT_RMS_NORM_EPS,
        rope_theta: DEFAULT_ROPE_THETA,
        vocab_size: 151_669,
        max_position_embeddings: DEFAULT_MAX_POSITION_EMBEDDINGS,
        tie_word_embeddings: true,
    };
    assert_eq!(config.head_dim(), 128);
    config.head_dim = 0;
    assert_eq!(config.head_dim(), 64);
}

#[test]
fn defaults_are_what_their_bits_say() {
    assert_eq!(f64::from_bits(DEFAULT_RMS_NORM_EPS), 1e-6);
    assert_eq!(f64::from_bits(DEFAULT_ROPE_THETA), 1_000_000.0);
    assert_eq!(DEFAULT_MAX_POSITION_EMBEDDINGS, 32768);
}

#[test]
fn hop_length_is_the_product_of_the_ratios() {
    let config = vae_config(vec![1, 2, 4, 8, 16], vec![2, 4, 4, 6, 10], 128);
    assert_eq!(config.hop_length(), 1920);
    assert_eq!(vae_config(vec![], vec![], 1).hop_length(), 1);
}

#[test]
fn decoder_stages_reverse_the_ratios() {
    let config = vae_config(vec![1, 2], vec![2, 3], 8);
    assert_eq!(config.top_channels(), 16);
    assert_eq!(
        config.decoder_stages(),
        vec![
            DecoderStage { in_channels: 16, out_channels: 8, stride: 3, kernel: 6, padding: 2 },
            DecoderStage { in_channels: 8, out_channels: 8, stride: 2, kernel: 4, padding: 1 },
        ]
    );
}

#[test]
fn adjacent_decoder_stages_fit() {
    let config = vae_config(vec![1, 2, 4, 8, 16], vec![2, 4, 4, 6, 10], 128);
    let stages = config.decoder_stages();
    let strides: Vec<usize> = stages.iter().map(|stage| stage.stride).collect();
    assert_eq!(strides, vec![10, 6, 4, 4, 2]);
    assert_eq!(stages[0].in_channels, 2048);
    assert!(stages.windows(2).all(|w| w[0].out_channels == w[1].in_channels));
    assert_eq!(stages[4].out_channels, 128);
}
