//! What surrounds the models of a clip.

use maolan_generate::acestep::lm::{build_uncond_codes_prompt, Tempo};
use maolan_generate::acestep::pipeline::{
    build_dit_text_prompt, build_metas_block, caption_tokens, close_tokens, expected_codes,
    latent_frames_for_duration, lyric_tokens, missing_message, pad_or_truncate_codes, parse_codes,
    plan_codes, splitmix64_next, uniform01_open, AceStepModelPaths, AceStepVariant,
    GenerateMetadata, INSTRUMENTAL_LYRIC_PROMPT,
};
use maolan_generate::acestep::vocab::ENDOFTEXT_ID;
use maolan_generate::single::Single;
use maolan_generate::token_limits::{LONGEST_ADDED, LONGEST_TOKEN};
use maolan_generate::tokenizer::{EncodeError, LoadError, TextTokenizer, Vocabulary, BRIEF_ROOM, SHORT_ROOM};

const LETTERS: &str = r#"{
    "added_tokens": [],
    "pre_tokenizer": {"type": "ByteLevel", "add_prefix_space": false, "trim_offsets": false,
                      "use_regex": true},
    "decoder": {"type": "ByteLevel", "add_prefix_space": false, "trim_offsets": false,
                "use_regex": false},
    "model": {"type": "BPE", "ignore_merges": false,
              "vocab": {"a": 0, "b": 1, "ab": 2}, "merges": ["a b"]}
}"#;

fn tempo(value: f32, text: &str) -> Option<Tempo<'_>> {
    Some(Tempo { value: Single { bits: value.to_bits() }, text })
}

#[test]
fn metas_block_matches_official_format() {
    assert_eq!(
        build_metas_block(tempo(120.0, "120"), Some("A minor"), Some("4/4"), 10),
        "- bpm: 120\n- timesignature: 4/4\n- keyscale: A minor\n- duration: 10 seconds\n"
    );
    assert_eq!(
        build_metas_block(None, None, None, 30),
        "- bpm: N/A\n- timesignature: N/A\n- keyscale: N/A\n- duration: 30 seconds\n"
    );
    assert_eq!(
        build_metas_block(tempo(128.5, "128.5"), None, Some("6/8"), 5),
        "- bpm: 128.5\n- timesignature: 6/8\n- keyscale: N/A\n- duration: 5 seconds\n"
    );
}

#[test]
fn dit_text_prompt_matches_official_sft_format() {
    let metas = build_metas_block(tempo(120.0, "120"), Some("A minor"), Some("4/4"), 10);
    assert_eq!(
        build_dit_text_prompt("dark techno", &metas),
        "# Instruction\nGenerate audio semantic tokens based on the given conditions:\n\n# Caption\ndark techno\n\n# Metas\n- bpm: 120\n- timesignature: 4/4\n- keyscale: A minor\n- duration: 10 seconds\n<|endoftext|>\n"
    );
}

#[test]
fn instrumental_lyric_prompt_matches_official_format() {
    assert_eq!(
        INSTRUMENTAL_LYRIC_PROMPT,
        "# Languages\nunknown\n\n# Lyric\n[Instrumental]<|endoftext|>"
    );
}

#[test]
fn latent_frame_count_math() {
    assert_eq!(latent_frames_for_duration(0), 5, "minimum of 5 frames");
    assert_eq!(latent_frames_for_duration(100), 5);
    assert_eq!(latent_frames_for_duration(1000), 25);
    assert_eq!(latent_frames_for_duration(30_000), 750);
    assert_eq!(latent_frames_for_duration(1020), 26);
}

#[test]
fn pad_or_truncate_codes_behaviour() {
    assert_eq!(pad_or_truncate_codes(vec![], 3), vec![0, 0, 0]);
    assert_eq!(pad_or_truncate_codes(vec![7, 9], 4), vec![7, 9, 9, 9]);
    assert_eq!(pad_or_truncate_codes(vec![1, 2, 3, 4], 2), vec![1, 2]);
    assert_eq!(pad_or_truncate_codes(vec![5], 1), vec![5]);
}

#[test]
fn a_clip_has_at_least_one_code() {
    assert_eq!(expected_codes(0), 1);
    assert_eq!(expected_codes(999), 1);
    assert_eq!(expected_codes(1000), 5);
    assert_eq!(expected_codes(30_999), 150);
}

#[test]
fn variants_and_their_files() {
    assert_eq!(AceStepVariant::default(), AceStepVariant::Turbo);
    assert_eq!(AceStepVariant::Turbo.prefix(), "");
    assert_eq!(AceStepVariant::Sft.prefix(), "sft-");
    assert_eq!(
        AceStepModelPaths::required_relative_files(AceStepVariant::Turbo),
        vec![
            "qwen3-encoder.bpk",
            "qwen3_config.json",
            "tokenizer.json",
            "acestep-vae.bpk",
            "vae_config.json",
            "silence_latent.bpk",
            "acestep-lm.bpk",
            "lm_config.json",
            "lm_tokenizer.json",
            "acestep-dit.bpk",
            "dit_config.json",
            "acestep-condition.bpk",
        ]
    );
    let sft = AceStepModelPaths::required_relative_files(AceStepVariant::Sft);
    assert_eq!(sft[5], "silence_latent.bpk");
    assert_eq!(sft[6], "sft-acestep-lm.bpk");
    assert_eq!(sft[11], "sft-acestep-condition.bpk");
}

#[test]
fn missing_files_are_told() {
    let paths = AceStepModelPaths::resolve(&[true; 12], AceStepVariant::Sft).expect("all there");
    assert_eq!(paths.tokenizer_json, "tokenizer.json");
    assert_eq!(paths.lm_tokenizer, "sft-lm_tokenizer.json");
    assert_eq!(paths.dit_config, "sft-dit_config.json");
    let mut present = [true; 12];
    present[2] = false;
    present[8] = false;
    let missing = AceStepModelPaths::resolve(&present, AceStepVariant::Turbo).expect_err("two missing");
    assert_eq!(missing, vec!["tokenizer.json", "lm_tokenizer.json"]);
    assert_eq!(
        missing_message("/models", &missing),
        "ACE-Step model directory /models is missing required files: tokenizer.json, lm_tokenizer.json"
    );
}

#[test]
fn tokens_are_cut_and_closed() {
    assert_eq!(close_tokens(vec![1, 2, 3], 2), vec![1, 2, ENDOFTEXT_ID]);
    assert_eq!(close_tokens(vec![1, 2, 3], 3), vec![1, 2, 3, ENDOFTEXT_ID]);
    assert_eq!(close_tokens(vec![], 3), vec![ENDOFTEXT_ID]);
}

#[test]
fn prompts_are_tokenized() {
    let tokenizer = TextTokenizer::from_json(LETTERS).expect("a tokenizer");
    let vocabulary = Vocabulary::from_json(LETTERS).expect("a vocabulary");
    assert_eq!(vocabulary.vocab_size(), 3);
    assert_eq!(vocabulary.token_to_bytes(2), b"ab");
    assert!(matches!(Vocabulary::from_json("[]"), Err(LoadError::Refused(_))));
    assert_eq!(tokenizer.encode("ab"), Some(vec![2]));
    let metadata = GenerateMetadata::default();
    let tokens = caption_tokens(&tokenizer, "ab", &metadata, 30_000).expect("tokens");
    let prompt = build_dit_text_prompt("ab", &build_metas_block(None, None, None, 30));
    assert_eq!(tokens, close_tokens(tokenizer.encode(&prompt).expect("ids"), 256));
    assert_eq!(tokens.last(), Some(&ENDOFTEXT_ID));
    let long = "ab ".repeat(1000);
    assert_eq!(
        caption_tokens(&tokenizer, &long, &metadata, 30_000).map(|tokens| tokens.len()),
        Some(257)
    );
    let longer = "ab ".repeat(30_000);
    assert_eq!(
        caption_tokens(&tokenizer, &longer, &metadata, 30_000).map(|tokens| tokens.len()),
        Some(257)
    );
    let room = SHORT_ROOM as usize;
    assert_eq!(caption_tokens(&tokenizer, &"é".repeat(room / 12), &metadata, 30_000), None);
    assert!(tokenizer.encode(&"é".repeat(room / 12)).is_some());
    assert!(tokenizer.encode(&"é".repeat(room / 12 + 1)).is_none());
    let plain = tokenizer.encode(&"a".repeat(room * 2)).expect("ids");
    assert_eq!(plain, vec![0; room * 2]);
    let brief = "ab ".repeat(BRIEF_ROOM as usize / 9);
    assert_eq!(tokenizer.encode(&brief), tokenizer.encode(&brief));
    assert_eq!(
        lyric_tokens(&tokenizer),
        close_tokens(tokenizer.encode(INSTRUMENTAL_LYRIC_PROMPT).expect("ids"), 2048)
    );
    assert!(matches!(TextTokenizer::from_json("[]"), Err(LoadError::Refused(_))));
}

#[test]
fn tokenizers_with_gaps_are_refused() {
    for text in [
        r#"{"model":{"type":"BPE","vocab":{"a":0,"b":5,"ab":6},"merges":["a b"]}}"#,
        r#"{"model":{"type":"BPE","vocab":{"a":0,"b":0,"ab":1},"merges":["a b"]}}"#,
        r#"{"model":{"type":"BPE","vocab":{"a":0,"b":"1","ab":2},"merges":["a b"]}}"#,
        r#"{"model":{"type":"BPE","vocab":{"a":0,"b":1,"ab":2,"":3},"merges":["a b"]}}"#,
        r#"{"model":{"type":"Unigram","vocab":[["a"],["b",-1.0]]}}"#,
        r#"{"model":{"type":"Unigram","vocab":[["a","x"],["b",-1.0]]}}"#,
    ] {
        assert!(matches!(TextTokenizer::from_json(text), Err(LoadError::Unusable)), "{text}");
    }
    let scored = r#"{"model":{"type":"Unigram","vocab":[["a",0.5],["b",-1.0]]}}"#;
    assert!(TextTokenizer::from_json(scored).is_ok());
    let words = r#"{"model":{"type":"WordPiece","vocab":{"a":0,"b":5},"unk_token":"a"}}"#;
    assert!(TextTokenizer::from_json(words).is_ok());
}

#[test]
fn tokenizers_that_cut_twice_are_refused() {
    let letters = |first: &str| {
        format!(
            r#"{{"pre_tokenizer":{first},"model":{{"type":"BPE","vocab":{{"a":0,"b":1,"ab":2}},"merges":["a b"]}}}}"#
        )
    };
    let marks = r#"{"type":"Metaspace","replacement":"_"}"#;
    let bytes = r#"{"type":"ByteLevel"}"#;
    assert!(TextTokenizer::from_json(&letters(marks)).is_ok());
    assert!(TextTokenizer::from_json(&letters(bytes)).is_ok());
    let both = format!(r#"{{"type":"Sequence","pretokenizers":[{marks},{bytes}]}}"#);
    assert!(matches!(TextTokenizer::from_json(&letters(&both)), Err(LoadError::Unusable)));
    let ruled = letters(bytes);
    let marked = ruled.replacen('{', r#"{"normalizer":{"type":"Replace","pattern":{"String":" "},"content":"_"},"#, 1);
    assert!(matches!(TextTokenizer::from_json(&marked), Err(LoadError::Unusable)));
}

#[test]
fn tokenizers_with_patterns_are_refused() {
    let letters = |first: &str| {
        format!(
            r#"{{"pre_tokenizer":{first},"model":{{"type":"BPE","vocab":{{"a":0,"b":1,"ab":2}},"merges":["a b"]}}}}"#
        )
    };
    let split = r#"{"type":"Split","pattern":{"Regex":"x*"}}"#;
    let list = |steps: &str| format!(r#"{{"type":"Sequence","pretokenizers":[{steps}]}}"#);
    for first in [split.to_string(), list(split)] {
        assert!(matches!(TextTokenizer::from_json(&letters(&first)), Err(LoadError::Unusable)));
    }
    let bytes = list(&format!(r#"{split},{{"type":"ByteLevel"}}"#));
    let tokenizer = TextTokenizer::from_json(&letters(&bytes)).expect("a tokenizer");
    assert_eq!(tokenizer.encode("ab"), Some(vec![2]));
    let text = letters(r#"{"type":"Split","pattern":{"String":" "}}"#);
    assert!(TextTokenizer::from_json(&text).is_ok());
}

#[test]
fn tokenizers_with_long_tokens_are_refused() {
    let with = |token: &str, added: &str| {
        TextTokenizer::from_json(&format!(
            r#"{{"normalizer":{{"type":"NFC"}},
               "added_tokens":[{{"content":"{added}","normalized":true}}],
               "model":{{"type":"BPE","vocab":{{"a":0,"b":1,"{token}":2}},"merges":[]}}}}"#
        ))
    };
    let note = "\u{1d160}";
    assert!(with(&note.repeat(LONGEST_TOKEN), &note.repeat(LONGEST_ADDED)).is_ok());
    assert!(matches!(with(&"x".repeat(LONGEST_TOKEN + 1), "y"), Err(LoadError::Unusable)));
    assert!(matches!(with("x", &"y".repeat(LONGEST_ADDED + 1)), Err(LoadError::Unusable)));
    assert!(matches!(with("x", &"y".repeat(1_000_000)), Err(LoadError::Unusable)));
    let scored = format!(
        r#"{{"model":{{"type":"Unigram","vocab":[["a",0.5],["{}",-1.0]]}}}}"#,
        "x".repeat(LONGEST_TOKEN + 1)
    );
    assert!(matches!(TextTokenizer::from_json(&scored), Err(LoadError::Unusable)));
}

#[test]
fn tables_are_refused_where_marks_are_put() {
    let with = |first: &str| {
        TextTokenizer::from_json(&format!(
            r#"{{"normalizer":{first},"pre_tokenizer":{{"type":"Metaspace","replacement":"_"}},
               "model":{{"type":"Unigram","vocab":[["a",0.5],["b",-1.0]]}}}}"#
        ))
    };
    assert!(with(r#"{"type":"NFC"}"#).is_ok());
    for first in [
        r#"{"type":"Precompiled","precompiled_charsmap":""}"#,
        r#"{"type":"Lowercase"}"#,
        r#"{"type":"Sequence","normalizers":[{"type":"Precompiled"}]}"#,
        r#"{"type":"Sequence","normalizers":[{"type":"Sequence","normalizers":[]}]}"#,
    ] {
        assert!(matches!(with(first), Err(LoadError::Unusable)), "{first}");
    }
}

#[test]
fn a_plan_holds_prompts_and_budget() {
    let metadata = GenerateMetadata {
        bpm: tempo(90.0, "90"),
        key_scale: Some("C major"),
        time_signature: None,
    };
    let plan = plan_codes(LETTERS, "ab", &metadata, 10_500, 3).expect("a plan");
    assert_eq!(
        plan.cot_block,
        "<think>\nbpm: 90\ncaption: ab\nduration: 10\nkeyscale: C major\nlanguage: unknown\n</think>"
    );
    assert!(plan.prompt.contains("# Caption\nab\n\n# Lyric\n[Instrumental]\n"));
    assert!(plan.prompt.ends_with("</think>\n\n"));
    assert_eq!(plan.sampling.max_new_tokens, 50);
    assert_eq!(plan.sampling.seed, 3);
    let tokenizer = TextTokenizer::from_json(LETTERS).expect("a tokenizer");
    assert_eq!(Some(plan.prompt_ids), tokenizer.encode(&plan.prompt));
    assert_eq!(plan.uncond_ids, tokenizer.encode(&build_uncond_codes_prompt()));
    assert!(plan.uncond_ids.is_some());
    assert!(matches!(
        plan_codes("", "ab", &metadata, 10_500, 3),
        Err(EncodeError::Load(LoadError::Refused(_)))
    ));
    assert!(matches!(
        plan_codes(LETTERS, &"é".repeat(6_000), &metadata, 10_500, 3),
        Err(EncodeError::LongText)
    ));
}

#[test]
fn code_lists_pass_over_what_is_no_code() {
    assert_eq!(parse_codes("1,2,3"), vec![1, 2, 3]);
    assert_eq!(parse_codes(" 7 ,x,\u{2003}8\t,,4294967296,+9,-1"), vec![7, 8, 9]);
    assert_eq!(parse_codes(""), Vec::<u32>::new());
}

#[test]
fn splitmix_words() {
    let mut state = 0u64;
    assert_eq!(splitmix64_next(&mut state), 0xe220_a839_7b1d_cdaf);
    assert_eq!(splitmix64_next(&mut state), 0x6e78_9e6a_a1b9_65f4);
    assert_eq!(splitmix64_next(&mut state), 0x06c4_5d18_8009_454f);
    assert_eq!(state, 0x9e37_79b9_7f4a_7c15u64.wrapping_mul(3));
}

#[test]
fn uniform_numbers_agree_with_machine_arithmetic() {
    for seed in [0u64, 1, 42, u64::MAX] {
        let mut words = seed;
        let mut state = seed;
        for _ in 0..2000 {
            let word = splitmix64_next(&mut words);
            let mantissa = (word >> 11) as f64;
            let expected = ((mantissa + 0.5) / ((1_u64 << 53) as f64))
                .clamp(f64::MIN_POSITIVE, 1.0 - f64::EPSILON);
            let numerator = uniform01_open(&mut state);
            assert_eq!(numerator as f64 / (1u64 << 54) as f64, expected);
            assert_eq!(state, words);
        }
    }
}

#[test]
fn seeds_diverge() {
    let draw = |seed: u64| -> Vec<u64> {
        let mut state = seed;
        (0..24).map(|_| uniform01_open(&mut state)).collect()
    };
    assert_eq!(draw(42), draw(42));
    assert_ne!(draw(42), draw(7));
}
