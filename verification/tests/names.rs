//! Tensor names and the selection of checkpoint files.

use maolan_generate::convert::checkpoint::select_shards;
use maolan_generate::convert::names::{
    map_condition, map_dit, map_name, map_qwen3, map_vae, tensor_path, Component,
};

#[test]
fn qwen3_mapping_strips_model_prefix_and_skips_lm_head() {
    assert_eq!(
        map_qwen3("model.layers.0.self_attn.q_proj.weight").as_deref(),
        Some("layers.0.self_attn.q_proj.weight")
    );
    assert_eq!(map_qwen3("embed_tokens.weight").as_deref(), Some("embed_tokens.weight"));
    assert_eq!(map_qwen3("model.norm.weight").as_deref(), Some("norm.weight"));
    assert_eq!(map_qwen3("lm_head.weight"), None);
    assert_eq!(map_qwen3("model.lm_head.weight"), None);
}

#[test]
fn dit_mapping_renames_decoder_tree() {
    assert_eq!(map_dit("decoder.proj_in.1.weight").as_deref(), Some("proj_in.conv.weight"));
    assert_eq!(map_dit("decoder.proj_out.1.bias").as_deref(), Some("proj_out.conv.bias"));
    assert_eq!(
        map_dit("decoder.time_embed.linear_1.weight").as_deref(),
        Some("time_embed.linear_1.weight")
    );
    assert_eq!(
        map_dit("decoder.time_embed_r.time_proj.bias").as_deref(),
        Some("time_embed_r.time_proj.bias")
    );
    assert_eq!(
        map_dit("decoder.condition_embedder.weight").as_deref(),
        Some("condition_embedder.weight")
    );
    assert_eq!(
        map_dit("decoder.layers.23.scale_shift_table").as_deref(),
        Some("layers.23.scale_shift_table")
    );
    assert_eq!(map_dit("decoder.norm_out.weight").as_deref(), Some("norm_out.weight"));
    assert_eq!(map_dit("decoder.scale_shift_table").as_deref(), Some("scale_shift_table"));
    assert_eq!(map_dit("encoder.text_projector.weight"), None);
    assert_eq!(map_dit("null_condition_emb"), None);
}

#[test]
fn condition_mapping_drops_dead_tensors() {
    assert_eq!(
        map_condition("encoder.text_projector.weight").as_deref(),
        Some("text_projector.weight")
    );
    assert_eq!(
        map_condition("encoder.lyric_encoder.embed_tokens.bias").as_deref(),
        Some("lyric_encoder.embed_tokens.bias")
    );
    assert_eq!(
        map_condition("encoder.timbre_encoder.layers.3.mlp.gate_proj.weight").as_deref(),
        Some("timbre_encoder.layers.3.mlp.gate_proj.weight")
    );
    assert_eq!(map_condition("encoder.timbre_encoder.special_token"), None);
    assert_eq!(
        map_condition("detokenizer.special_tokens").as_deref(),
        Some("detokenizer.special_tokens")
    );
    assert_eq!(
        map_condition("tokenizer.quantizer.project_in.weight").as_deref(),
        Some("quantizer.project_in.weight")
    );
    assert_eq!(
        map_condition("tokenizer.quantizer.project_out.bias").as_deref(),
        Some("quantizer.project_out.bias")
    );
    assert_eq!(map_condition("tokenizer.audio_acoustic_proj.weight"), None);
    assert_eq!(map_condition("tokenizer.attention_pooler.weight"), None);
    assert_eq!(map_condition("null_condition_emb"), None);
    assert_eq!(map_condition("decoder.layers.0.self_attn.q_proj.weight"), None);
}

#[test]
fn vae_mapping_strips_decoder_prefix() {
    assert_eq!(
        map_vae("decoder.block.0.conv_t1.weight_v").as_deref(),
        Some("block.0.conv_t1.weight_v")
    );
    assert_eq!(map_vae("decoder.conv1.weight_g").as_deref(), Some("conv1.weight_g"));
    assert_eq!(map_vae("decoder.snake1.alpha").as_deref(), Some("snake1.alpha"));
    assert_eq!(map_vae("decoder.conv2.weight_v").as_deref(), Some("conv2.weight_v"));
    assert_eq!(
        map_vae("decoder.block.4.res_unit3.conv2.bias").as_deref(),
        Some("block.4.res_unit3.conv2.bias")
    );
    assert_eq!(map_vae("encoder.conv1.weight_v"), None);
    assert_eq!(map_vae("quant_conv.weight"), None);
    assert_eq!(map_vae("post_quant_conv.weight"), None);
}

#[test]
fn components_have_names() {
    for component in [
        Component::TextEncoder,
        Component::Lm,
        Component::Dit,
        Component::Condition,
        Component::Vae,
        Component::Silence,
    ] {
        assert_eq!(Component::parse(component.name()), Some(component));
    }
    assert_eq!(Component::TextEncoder.name(), "text-encoder");
    assert_eq!(Component::parse("encoder"), None);
}

#[test]
fn a_tensor_belongs_to_one_of_dit_and_condition() {
    for name in ["decoder.proj_in.1.weight", "encoder.text_projector.weight", "null_condition_emb"] {
        let both = map_name(Component::Dit, name).is_some() && map_name(Component::Condition, name).is_some();
        assert!(!both);
    }
    assert_eq!(map_name(Component::Lm, "model.a").as_deref(), Some("a"));
    assert_eq!(map_name(Component::TextEncoder, "lm_head.weight"), None);
    assert_eq!(map_name(Component::Vae, "decoder.a").as_deref(), Some("a"));
}

#[test]
fn tensor_paths_are_cut_at_dots() {
    let (segments, containers) = tensor_path("layers.0.norm.weight");
    assert_eq!(segments, vec!["layers", "0", "norm", "weight"]);
    assert_eq!(containers, vec!["layers", "0", "norm"]);
    let (segments, containers) = tensor_path("silence_latent");
    assert_eq!(segments, vec!["silence_latent"]);
    assert!(containers.is_empty());
}

#[test]
fn shards_are_selected_and_sorted() {
    let names: Vec<String> = [
        "model-00002-of-00002.safetensors",
        "config.json",
        ".safetensors",
        "model-00001-of-00002.safetensors",
        "model.safetensors.index.json",
        "a.safetensors",
        "notes.safetensors2",
    ]
    .iter()
    .map(|name| name.to_string())
    .collect();
    assert_eq!(select_shards(&names), vec![5, 3, 0]);
    assert!(select_shards(&vec![]).is_empty());
}
