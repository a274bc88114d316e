//! The composing language model, and tokenizers.

use maolan_generate::single::Single;
use maolan_generate::text_to_midi::hf_settings::{GPT_SPLIT, LLAMA_SPLIT, QWEN_SPLIT};
use maolan_generate::text_to_midi::hf_tokenizer::{
    frame_ids, HfTokenizer, HfTokenizerError, LONG_TEXT,
};
use maolan_generate::text_to_midi::midi_llm::{
    build_disallowed_mask, check_model_files, midi_file_of, midi_llama_config,
    missing_tensors_message, music_tokens, prompt_tokens, remap_name, text_prompt, MidiLlmConfig,
    MissingFile, MIDI_BOS_TOKEN, MIDI_TOKEN_COUNT, MIDI_TOKEN_END, MIDI_TOKEN_START,
    MIDI_VOCAB_SIZE,
};
use maolan_generate::text_to_midi::tiktoken_convert::{
    convert_hf_tokenizer_to_tiktoken, should_convert, tiktoken_line, TiktokenError,
};

#[test]
fn midi_token_constants_match_discussion() {
    assert_eq!(MIDI_TOKEN_START, 128_256);
    assert_eq!(MIDI_TOKEN_COUNT, 55_026);
    assert_eq!(MIDI_TOKEN_END, 183_282);
    assert_eq!(MIDI_BOS_TOKEN, 183_282);
    assert_eq!(MIDI_VOCAB_SIZE, 183_286);
}

#[test]
fn disallowed_mask_blocks_text_tokens() {
    let data = build_disallowed_mask(MIDI_TOKEN_START, MIDI_VOCAB_SIZE);
    assert_eq!(data.len(), MIDI_VOCAB_SIZE as usize);
    assert!(data[MIDI_TOKEN_START as usize - 1]);
    assert!(!data[MIDI_TOKEN_START as usize]);
    assert!(!data[MIDI_VOCAB_SIZE as usize - 1]);
    assert_eq!(build_disallowed_mask(5, 2), vec![true, true]);
}

#[test]
fn midi_llama_config_has_extended_vocab() {
    let config = midi_llama_config(&MidiLlmConfig {
        tokenizer_path: "/dummy/tokenizer.model".to_string(),
        ..Default::default()
    });
    assert_eq!(config.vocab_size, MIDI_VOCAB_SIZE as usize);
    assert_eq!(config.d_model, 2048);
    assert_eq!(config.num_hidden_layers, 16);
    assert_eq!(config.num_attention_heads, 32);
    assert_eq!(config.num_key_value_heads, Some(8));
    assert_eq!(config.tokenizer, "/dummy/tokenizer.model");
    assert_eq!(f64::from_bits(config.norm_eps), 1e-5);
    assert_eq!(f32::from_bits(config.rope_theta.bits), 500_000.0);
    assert_eq!(f32::from_bits(config.rope_scale_factor.bits), 32.0);
    assert_eq!(config.max_seq_len, 4096);
}

#[test]
fn default_generation_parameters() {
    let config = MidiLlmConfig::default();
    assert_eq!(config.max_tokens, 1024);
    assert_eq!(f32::from_bits(config.temperature.bits), 1.0);
    assert_eq!(f32::from_bits(config.top_p.bits), 0.98);
    assert_eq!(config.seed, 0);
    assert!(config.tokenizer_path.is_empty());
}

#[test]
fn missing_model_files() {
    assert!(check_model_files(true, true).is_ok());
    assert_eq!(check_model_files(false, false), Err(MissingFile::Tokenizer));
    assert_eq!(check_model_files(true, false), Err(MissingFile::Checkpoint));
    assert_eq!(MissingFile::Tokenizer.message("a/b"), "missing tokenizer file a/b");
    assert_eq!(MissingFile::Checkpoint.message("c"), "missing checkpoint file c");
}

#[test]
fn tensors_are_renamed() {
    let pairs = [
        ("model.embed_tokens.weight", "tok_embeddings.weight"),
        ("lm_head.weight", "output.weight"),
        ("model.norm.weight", "norm.gamma"),
        ("model.layers.0.input_layernorm.weight", "layers.0.attention_norm.gamma"),
        ("model.layers.15.post_attention_layernorm.weight", "layers.15.ffn_norm.gamma"),
        ("model.layers.3.self_attn.q_proj.weight", "layers.3.attention.wq.weight"),
        ("model.layers.3.self_attn.k_proj.weight", "layers.3.attention.wk.weight"),
        ("model.layers.3.self_attn.v_proj.weight", "layers.3.attention.wv.weight"),
        ("model.layers.3.self_attn.o_proj.weight", "layers.3.attention.wo.weight"),
        ("model.layers.10.mlp.gate_proj.weight", "layers.10.feed_forward.swiglu.linear_inner.weight"),
        ("model.layers.10.mlp.up_proj.weight", "layers.10.feed_forward.swiglu.linear_outer.weight"),
        ("model.layers.10.mlp.down_proj.weight", "layers.10.feed_forward.w2.weight"),
        ("model.layers.x.mlp.down_proj.weight", "model.layers.x.mlp.down_proj.weight"),
        ("model.layers.1.mlp.down_proj.", "model.layers.1.mlp.down_proj."),
        ("model.layers.1.input_layernorm.bias", "model.layers.1.input_layernorm.bias"),
        ("model.embed_tokens.a\nb", "model.embed_tokens.a\nb"),
        ("model.norm.weight2", "model.norm.weight2"),
        ("rope.freqs", "rope.freqs"),
    ];
    for (name, expected) in pairs {
        assert_eq!(remap_name(name), expected);
        assert_eq!(remap_name(expected), expected);
    }
}

#[test]
fn missing_tensors_are_told() {
    assert_eq!(
        missing_tensors_message(&vec!["a".to_string(), "b.c".to_string()]),
        "MIDI-LLM checkpoint is missing required tensors: a, b.c"
    );
}

#[test]
fn generated_tokens_become_a_file() {
    let generated = vec![
        MIDI_TOKEN_START,
        MIDI_TOKEN_START + 10_050,
        MIDI_TOKEN_START + 11_060,
        5,
        MIDI_TOKEN_START,
    ];
    assert_eq!(music_tokens(&generated), vec![0, 10_050, 11_060, 0, 0]);
    let bytes = midi_file_of(&generated, Single { bits: 120.0f32.to_bits() }, None).expect("a file");
    let smf = midly::Smf::parse(&bytes).expect("a MIDI file");
    let ons = smf.tracks[0]
        .iter()
        .filter(|event| {
            matches!(
                event.kind,
                midly::TrackEventKind::Midi { message: midly::MidiMessage::NoteOn { .. }, .. }
            )
        })
        .count();
    assert_eq!(ons, 1);
}

const WORDS: &str = r#"{
    "version": "1.0",
    "truncation": null,
    "padding": null,
    "added_tokens": [
        {"id": 3, "content": "<|begin_of_text|>", "single_word": false, "lstrip": false,
         "rstrip": false, "normalized": false, "special": true},
        {"id": 4, "content": "<|end_of_text|>", "single_word": false, "lstrip": false,
         "rstrip": false, "normalized": false, "special": true}
    ],
    "normalizer": null,
    "pre_tokenizer": {"type": "WhitespaceSplit"},
    "post_processor": null,
    "decoder": null,
    "model": {"type": "WordLevel", "vocab": {"low": 0, "high": 1, "?": 2}, "unk_token": "?"}
}"#;

const TEXT: &str = r#"{"Sequence": {"id": "A", "type_id": 0}}"#;

#[test]
fn texts_are_framed() {
    let tokenizer = HfTokenizer::new(WORDS).expect("a tokenizer");
    assert_eq!((tokenizer.bos_id(), tokenizer.eos_id()), (3, 4));
    assert_eq!(tokenizer.stop_ids(), vec![4]);
    assert_eq!(tokenizer.encode("high low", false, false), Some(vec![1, 0]));
    assert_eq!(tokenizer.encode("high low", true, false), Some(vec![3, 1, 0]));
    assert_eq!(tokenizer.encode("high low", true, true), Some(vec![3, 1, 0, 4]));
    assert_eq!(tokenizer.encode("", false, true), Some(vec![4]));
    assert_eq!(tokenizer.decode(vec![3, 0, 1, 4]), "low high");
    assert_eq!(frame_ids(vec![7], 1, 2, true, true), vec![1, 7, 2]);
}

#[test]
fn contradictory_settings_are_refused() {
    let swap = |from: &str, to: &str| {
        let text = WORDS.replace(from, to);
        assert_ne!(text, WORDS);
        HfTokenizer::new(&text)
    };
    let cut = |stride: &str| {
        format!(
            r#""truncation": {{"direction": "Right", "max_length": 3, "strategy": "LongestFirst", "stride": {stride}}}"#
        )
    };
    let frame = |pieces: &str| {
        format!(
            r#""post_processor": {{"type": "Sequence", "processors": [{{"type": "TemplateProcessing",
               "single": [{pieces}], "pair": [{TEXT}],
               "special_tokens": {{"?": {{"id": "?", "ids": [2], "tokens": ["?"]}}}}}}]}}"#
        )
    };
    let marked = format!(r#"{{"SpecialToken": {{"id": "?", "type_id": 0}}}}, {TEXT}"#);
    let framed = swap(r#""post_processor": null"#, &frame(&marked)).expect("a tokenizer");
    assert_eq!(framed.encode("high", false, false), Some(vec![1]));
    let letters = swap(
        r#""pre_tokenizer": {"type": "WhitespaceSplit"}"#,
        r#""pre_tokenizer": {"type": "FixedLength", "length": 3}"#,
    );
    assert_eq!(letters.expect("a tokenizer").encode("lowlow", false, false), Some(vec![0, 0]));
    let short = swap(r#""truncation": null"#, &cut("2")).expect("a tokenizer");
    assert_eq!(short.encode("low low low low", false, false), Some(vec![0, 0, 0]));
    for (from, to) in [
        (r#""truncation": null"#, cut("3").as_str()),
        (r#""padding": null"#, r#""padding": {"strategy": {"Fixed": 8}}"#),
        (r#""normalizer": null"#, r#""normalizer": {"type": "Precompiled", "precompiled_charsmap": ""}"#),
        (r#""decoder": null"#, r#""decoder": {"type": "Strip", "content": "l", "start": 0, "stop": 1}"#),
        (r#""decoder": null"#, r#""decoder": {"type": "BPEDecoder", "suffix": "</w>"}"#),
        (
            r#""decoder": null"#,
            r#""decoder": {"type": "Replace", "pattern": {"Regex": "^(?:a+)+$"}, "content": "b"}"#,
        ),
        (
            r#""decoder": null"#,
            r#""decoder": {"type": "Replace", "pattern": {"String": "a"}, "content": "aa"}"#,
        ),
        (
            r#""normalizer": null"#,
            r#""normalizer": {"type": "Replace", "pattern": {"Regex": "^(?:a+)+$"}, "content": "b"}"#,
        ),
        (r#""normalizer": null"#, r#""normalizer": {"type": "Strip", "strip_left": true, "strip_right": true}"#),
        (
            r#""pre_tokenizer": {"type": "WhitespaceSplit"}"#,
            r#""pre_tokenizer": {"type": "Split", "pattern": {"Regex": "^(?:a+)+$"},
               "behavior": "Isolated", "invert": false}"#,
        ),
        (
            r#""pre_tokenizer": {"type": "WhitespaceSplit"}"#,
            r#""pre_tokenizer": {"type": "Sequence", "pretokenizers":
               [{"type": "ByteLevel"}, {"type": "ByteLevel"}]}"#,
        ),
        (
            r#""pre_tokenizer": {"type": "WhitespaceSplit"}"#,
            r#""pre_tokenizer": {"type": "FixedLength", "length": 0}"#,
        ),
        (r#""post_processor": null"#, frame(r#"{"Sequence": {"id": "B", "type_id": 0}}"#).as_str()),
        (r#""post_processor": null"#, frame(r#"{"SpecialToken": {"id": "?", "type_id": 0}}"#).as_str()),
        (r#""post_processor": null"#, frame(&format!("{TEXT}, {TEXT}")).as_str()),
        (
            r#""normalizer": null"#,
            r#""normalizer": {"type": "Sequence", "normalizers": [{"type": "Sequence", "normalizers": []}]}"#,
        ),
        (
            r#""model": {"type": "WordLevel", "vocab": {"low": 0, "high": 1, "?": 2}, "unk_token": "?"}"#,
            r###""model": {"type": "BPE", "vocab": {"a": 0, "b": 1, "ab": 2}, "merges": [["a", "b"]],
               "continuing_subword_prefix": "##"}"###,
        ),
    ] {
        assert!(matches!(swap(from, to), Err(HfTokenizerError::Unusable)), "{to}");
    }
    let strip = r#""decoder": {"type": "Sequence", "decoders": [{"type": "Strip", "content": "l", "start": 1, "stop": 0}]}"#;
    let stripped = swap(r#""decoder": null"#, strip).expect("a tokenizer");
    assert_eq!(stripped.decode(vec![0, 0]), "owow");
    let joined = r#""decoder": {"type": "Replace", "pattern": {"String": "l"}, "content": ""}"#;
    let joined = swap(r#""decoder": null"#, joined).expect("a tokenizer");
    assert_eq!(joined.decode(vec![0, 1]), "owhigh");
    let lower = r#""normalizer": {"type": "Sequence", "normalizers": [{"type": "Lowercase"}]}"#;
    let lowered = swap(r#""normalizer": null"#, lower).expect("a tokenizer");
    assert_eq!(lowered.encode("LOW", false, false), Some(vec![0]));
}

#[test]
fn taken_spaces_are_not_taken_again() {
    let with = |line: (bool, bool), space: (bool, bool)| {
        let token = |content: &str, sides: (bool, bool)| {
            format!(
                r#"{{"id": 9, "content": "{content}", "single_word": false, "lstrip": {},
                   "rstrip": {}, "normalized": false, "special": true}},"#,
                sides.0, sides.1
            )
        };
        let added = format!("\"added_tokens\": [{}{}", token("\\n", line), token(" ", space));
        HfTokenizer::new(&WORDS.replace("\"added_tokens\": [", &added))
    };
    assert!(matches!(with((false, true), (true, false)), Err(HfTokenizerError::Unusable)));
    assert!(matches!(with((true, false), (true, true)), Err(HfTokenizerError::Unusable)));
    for (line, space, ids) in [
        ((false, true), (true, true), vec![0, 3, 1]),
        ((true, false), (true, false), vec![0, 3, 4, 4, 1]),
        ((true, true), (false, true), vec![0, 3, 4, 4, 1]),
    ] {
        let tokenizer = with(line, space).expect("a tokenizer");
        assert_eq!(tokenizer.encode("low\n  high", false, false), Some(ids), "{line:?} {space:?}");
    }
}

#[test]
fn repeated_settings_count_once() {
    let bad = r###""model": {"type": "BPE", "continuing_subword_prefix": "##",
        "vocab": {"a": 0, "b": 1}, "merges": [["a", "b"]]},
        "model": {"type": "WordLevel""###;
    let text = WORDS.replace(r#""model": {"type": "WordLevel""#, bad);
    assert_ne!(text, WORDS);
    let tokenizer = HfTokenizer::new(&text).expect("a tokenizer");
    assert_eq!(tokenizer.encode("high low", false, false), Some(vec![1, 0]));
    for broken in [r#"{"decoder": {"#, "{\"decoder\": ", "no json", "[]", "{}"] {
        assert!(matches!(HfTokenizer::new(broken), Err(HfTokenizerError::Load(_))), "{broken}");
    }
}

#[test]
fn known_patterns_split() {
    let with = |pattern: &str| {
        let pattern = pattern.replace('\\', "\\\\");
        let split = format!(
            r#""pre_tokenizer": {{"type": "Sequence", "pretokenizers": [{{"type": "Split",
               "pattern": {{"Regex": "{pattern}"}}, "behavior": "Isolated", "invert": false}},
               {{"type": "ByteLevel", "add_prefix_space": false, "trim_offsets": true,
               "use_regex": false}}]}}"#
        );
        HfTokenizer::new(&WORDS.replace(r#""pre_tokenizer": {"type": "WhitespaceSplit"}"#, &split))
    };
    for pattern in [LLAMA_SPLIT, QWEN_SPLIT, GPT_SPLIT] {
        let tokenizer = with(pattern).expect("a tokenizer");
        assert_eq!(tokenizer.encode("low, high", false, false), Some(vec![0, 2, 2]));
        let spaces = " ".repeat(LONG_TEXT - 2);
        let ids = tokenizer.encode(&format!("{spaces}x"), false, false).expect("ids");
        assert_eq!(ids, vec![2, 2]);
    }
    assert!(matches!(with("x*"), Err(HfTokenizerError::Unusable)));
    let words = HfTokenizer::new(WORDS).expect("a tokenizer");
    assert_eq!(words.encode(&"a".repeat(LONG_TEXT), false, false), None);
    assert_eq!(words.encode(&"a".repeat(LONG_TEXT - 1), false, false), Some(vec![2]));
}

#[test]
fn prompts_end_with_the_cue() {
    assert_eq!(
        text_prompt("upbeat jazz"),
        "You are a world-class composer. Please compose some music according to the following description: upbeat jazz "
    );
    let tokenizer = HfTokenizer::new(WORDS).expect("a tokenizer");
    let tokens = prompt_tokens(&tokenizer, "low").expect("tokens");
    assert_eq!(tokens[0], 3);
    assert_eq!(&tokens[tokens.len() - 2..], &[0, MIDI_BOS_TOKEN]);
}

#[test]
fn tokenizers_without_marks_are_refused() {
    match HfTokenizer::new("{") {
        Err(error) => {
            assert!(matches!(error, HfTokenizerError::Load(_)));
            assert!(error.message().starts_with("failed to load Hugging Face tokenizer: "));
        }
        Ok(_) => panic!("no tokenizer"),
    }
    let no_begin = WORDS.replace("<|begin_of_text|>", "<|begin|>");
    match HfTokenizer::new(&no_begin) {
        Err(error) => assert_eq!(error.message(), "missing <|begin_of_text|> special token"),
        Ok(_) => panic!("no mark of the beginning"),
    }
    let no_end = WORDS.replace("<|end_of_text|>", "<|end|>");
    match HfTokenizer::new(&no_end) {
        Err(error) => assert_eq!(error.message(), "missing <|end_of_text|> special token"),
        Ok(_) => panic!("no mark of the end"),
    }
}

const SMALL: &str = r#"{
    "version": "1.0",
    "truncation": null,
    "padding": null,
    "added_tokens": [],
    "pre_tokenizer": {
        "type": "Sequence",
        "pretokenizers": [
            {
                "type": "Split",
                "pattern": { "Regex": "\\p{L}+|\\p{N}+|[^\\s\\p{L}\\p{N}]+" },
                "behavior": "Isolated",
                "invert": false
            }
        ]
    },
    "decoder": { "type": "ByteLevel", "add_prefix_space": false, "trim_offsets": false, "use_regex": false },
    "model": {
        "type": "BPE",
        "dropout": null,
        "unk_token": null,
        "continuing_subword_prefix": null,
        "end_of_word_suffix": null,
        "fuse_unk": false,
        "byte_fallback": false,
        "ignore_merges": true,
        "vocab": { "<|endoftext|>": 0, "a": 1, "b": 2, "c": 3, "ab": 4 },
        "merges": []
    }
}"#;

#[test]
fn converter_rejects_too_small_vocab() {
    assert!(convert_hf_tokenizer_to_tiktoken(SMALL).is_err());
    assert!(matches!(
        convert_hf_tokenizer_to_tiktoken(SMALL),
        Err(TiktokenError::SmallVocab(5))
    ));
    assert!(matches!(convert_hf_tokenizer_to_tiktoken("{"), Err(TiktokenError::Load(_))));
}

#[test]
fn tokens_are_listed_in_base64() {
    assert_eq!(tiktoken_line(b"", 0), " 0\n");
    assert_eq!(tiktoken_line(b"f", 7), "Zg== 7\n");
    assert_eq!(tiktoken_line(b"fo", 127_999), "Zm8= 127999\n");
    assert_eq!(tiktoken_line(b"foobar", 12), "Zm9vYmFy 12\n");
    assert_eq!(tiktoken_line(&[0xff, 0xfe, 0xfb, 0xef, 0x00], 3), "//777wA= 3\n");
}

#[test]
fn conversions_are_made_when_needed() {
    assert!(should_convert(None, Some(1)));
    assert!(should_convert(Some(1), None));
    assert!(should_convert(Some(1), Some(2)));
    assert!(!should_convert(Some(2), Some(2)));
    assert!(!should_convert(Some(3), Some(2)));
}
