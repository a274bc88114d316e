//! The planner of audio codes.

use maolan_generate::acestep::lm::{
    build_codes_prompt, build_cot_block, build_uncond_codes_prompt, code_count_for_duration,
    cut_nucleus, drawn_token, format_tempo, sample_candidates, tokenize_prompt, CodeRun, RunAction,
    SamplingConfig, Tempo, DEFAULT_CFG_SCALE, DEFAULT_TEMPERATURE, DEFAULT_TOP_P,
};
use maolan_generate::acestep::vocab::{
    parse_audio_code_content, AddedToken, AudioCodeVocab, VocabError, ENDOFTEXT_ID, IM_END_ID,
    MAX_AUDIO_CODE,
};
use maolan_generate::single::Single;
use maolan_generate::tokenizer::EncodeError;

const MIN_TOKENIZER: &str = r#"{
    "version": "1.0",
    "truncation": null,
    "padding": null,
    "added_tokens": [
        {"id": 3, "content": "<|endoftext|>", "single_word": false, "lstrip": false,
         "rstrip": false, "normalized": false, "special": true},
        {"id": 4, "content": "<|im_start|>", "single_word": false, "lstrip": false,
         "rstrip": false, "normalized": false, "special": true},
        {"id": 5, "content": "<|im_end|>", "single_word": false, "lstrip": false,
         "rstrip": false, "normalized": false, "special": true},
        {"id": 6, "content": "<|audio_code_0|>", "single_word": false, "lstrip": false,
         "rstrip": false, "normalized": false, "special": true},
        {"id": 7, "content": "<|audio_code_1|>", "single_word": false, "lstrip": false,
         "rstrip": false, "normalized": false, "special": true},
        {"id": 8, "content": "<|audio_code_42|>", "single_word": false, "lstrip": false,
         "rstrip": false, "normalized": false, "special": true}
    ],
    "normalizer": null,
    "pre_tokenizer": {"type": "ByteLevel", "add_prefix_space": false, "trim_offsets": false,
                      "use_regex": true},
    "post_processor": null,
    "decoder": {"type": "ByteLevel", "add_prefix_space": false, "trim_offsets": false,
                "use_regex": false},
    "model": {
        "type": "BPE",
        "dropout": null,
        "unk_token": null,
        "continuing_subword_prefix": null,
        "end_of_word_suffix": null,
        "fuse_unk": false,
        "byte_fallback": false,
        "ignore_merges": false,
        "vocab": {"a": 0, "b": 1, "ab": 2},
        "merges": ["a b"]
    }
}"#;

fn tempo(value: f32, text: &str) -> Option<Tempo<'_>> {
    Some(Tempo { value: Single { bits: value.to_bits() }, text })
}

#[test]
fn cot_block_all_fields() {
    let block = build_cot_block(
        "epic orchestral score",
        tempo(120.0, "120"),
        Some("C major"),
        Some("4/4"),
        30,
    );
    assert_eq!(
        block,
        "<think>\n\
         bpm: 120\n\
         caption: epic orchestral score\n\
         duration: 30\n\
         keyscale: C major\n\
         language: unknown\n\
         timesignature: 4/4\n\
         </think>"
    );
}

#[test]
fn cot_block_missing_bpm() {
    let block = build_cot_block("lofi beat", None, Some("A minor"), Some("4/4"), 10);
    assert!(!block.contains("bpm:"));
    assert_eq!(
        block,
        "<think>\n\
         caption: lofi beat\n\
         duration: 10\n\
         keyscale: A minor\n\
         language: unknown\n\
         timesignature: 4/4\n\
         </think>"
    );
}

#[test]
fn cot_block_keeps_time_signature_verbatim() {
    let block = build_cot_block("piano", None, None, Some("4/4"), 5);
    assert!(block.contains("timesignature: 4/4\n"));
    let block = build_cot_block("waltz", None, None, Some("6/8"), 5);
    assert!(block.contains("timesignature: 6/8"));
    let block = build_cot_block("march", tempo(128.5, "128.5"), None, Some("3/4"), 5);
    assert!(block.contains("timesignature: 3/4\n"));
    assert!(block.contains("bpm: 128.5"));
}

#[test]
fn whole_tempos_are_written_as_whole_numbers() {
    let values = [
        0.0f32,
        -0.0,
        1.0,
        -1.0,
        120.0,
        -300.0,
        0.5,
        128.5,
        1.0e-40,
        16_777_215.0,
        16_777_216.0,
        8_388_607.5,
        1.0e10,
        9.0e18,
        -9.0e18,
        9.223_372e18,
        1.0e20,
        -9.223_372e18,
        -1.0e30,
        f32::MAX,
        f32::MIN,
        f32::INFINITY,
        f32::NEG_INFINITY,
        f32::NAN,
    ];
    for value in values {
        let shown = format!("{value}");
        let expected = if value.fract() == 0.0 { format!("{}", value as i64) } else { shown.clone() };
        let written = format_tempo(&Tempo { value: Single { bits: value.to_bits() }, text: &shown });
        assert_eq!(written, expected);
    }
}

#[test]
fn codes_prompt_byte_exact() {
    let cot = "<think>\ncaption: calm piano\nlanguage: instrumental\n</think>";
    let prompt = build_codes_prompt("calm piano", cot);
    let expected = "<|im_start|>system\n\
         # Instruction\n\
         Generate audio semantic tokens based on the given conditions:\n\
         \n\
         <|im_end|>\n\
         <|im_start|>user\n\
         # Caption\n\
         calm piano\n\
         \n\
         # Lyric\n\
         [Instrumental]\n\
         <|im_end|>\n\
         <|im_start|>assistant\n\
         <think>\n\
         caption: calm piano\n\
         language: instrumental\n\
         </think>\n\
         \n";
    assert_eq!(prompt, expected);
}

#[test]
fn uncond_prompt_byte_exact() {
    let expected = "<|im_start|>system\n\
         # Instruction\n\
         Generate audio semantic tokens based on the given conditions:\n\
         \n\
         <|im_end|>\n\
         <|im_start|>user\n\
         <|im_end|>\n\
         <|im_start|>assistant\n\
         <think>\n\
         \n\
         </think>\n\
         \n";
    assert_eq!(build_uncond_codes_prompt(), expected);
}

#[test]
fn audio_code_vocab_from_tokenizer_json() {
    let vocab = AudioCodeVocab::from_tokenizer_json(MIN_TOKENIZER).expect("should parse");
    assert_eq!(vocab.len(), 3);
    assert!(!vocab.is_empty());
    assert_eq!(vocab.code_token_id(0), Some(6));
    assert_eq!(vocab.code_token_id(1), Some(7));
    assert_eq!(vocab.code_token_id(42), Some(8));
    assert_eq!(vocab.code_token_id(7), None);
    assert_eq!(vocab.token_id_to_code(7), Some(1));
    assert_eq!(vocab.token_id_to_code(101), None);
    assert_eq!(AudioCodeVocab::IM_END_ID, 151_645);
    assert_eq!(AudioCodeVocab::ENDOFTEXT_ID, 151_643);
    assert_eq!((IM_END_ID, ENDOFTEXT_ID, MAX_AUDIO_CODE), (151_645, 151_643, 63_999));
}

#[test]
fn vocab_passes_over_what_is_no_code() {
    let json = r#"{"added_tokens": [
        {"content": "<|audio_code_5|>", "id": 9},
        {"content": "<|audio_code_6|>"},
        {"id": 10},
        {"content": 3, "id": 11},
        {"content": "<|audio_code_x|>", "id": 12},
        {"content": "<|audio_code_7|>", "id": -1},
        "nothing"
    ]}"#;
    let vocab = AudioCodeVocab::from_tokenizer_json(json).expect("should parse");
    assert_eq!(vocab.len(), 1);
    assert_eq!(vocab.token_id_to_code(9), Some(5));
    assert!(AudioCodeVocab::from_tokenizer_json("{}").expect("no tokens").is_empty());
    assert!(AudioCodeVocab::from_tokenizer_json(r#"{"added_tokens": 1}"#).expect("no array").is_empty());
}

#[test]
fn vocab_errors() {
    assert!(matches!(
        AudioCodeVocab::from_tokenizer_json("{"),
        Err(VocabError::Json(_))
    ));
    let json = r#"{"added_tokens": [{"content": "<|audio_code_5|>", "id": 4294967296}]}"#;
    match AudioCodeVocab::from_tokenizer_json(json) {
        Err(VocabError::IdOutOfRange(content)) => assert_eq!(content, "<|audio_code_5|>"),
        _ => panic!("an id of 33 bits must be refused"),
    }
    let tokens = vec![AddedToken { content: Some("<|audio_code_1|>".to_string()), id: Some(2) }];
    let vocab = AudioCodeVocab::from_added_tokens(&tokens).expect("one token");
    assert_eq!(vocab.code_token_id(1), Some(2));
}

#[test]
fn code_contents_are_decimal() {
    assert_eq!(parse_audio_code_content("<|audio_code_63999|>"), Some(63_999));
    assert_eq!(parse_audio_code_content("<|audio_code_+7|>"), Some(7));
    assert_eq!(parse_audio_code_content("<|audio_code_4294967295|>"), Some(u32::MAX));
    assert_eq!(parse_audio_code_content("<|audio_code_4294967296|>"), None);
    assert_eq!(parse_audio_code_content("<|audio_code_|>"), None);
    assert_eq!(parse_audio_code_content("<|audio_code_1"), None);
    assert_eq!(parse_audio_code_content("audio_code_1|>"), None);
}

#[test]
fn tokenize_prompt_maps_special_token_strings() {
    let ids = tokenize_prompt(MIN_TOKENIZER, "<|im_start|>a<|im_end|>").expect("should tokenize");
    assert_eq!(ids, vec![4, 0, 5]);
}

#[test]
fn tokenize_prompt_refuses_what_is_no_tokenizer() {
    assert!(tokenize_prompt("{", "a").is_err());
    assert!(tokenize_prompt("{}", "a").is_err());
    assert!(matches!(
        tokenize_prompt(MIN_TOKENIZER, &"é".repeat(6_000)),
        Err(EncodeError::LongText)
    ));
}

#[test]
fn five_codes_per_second() {
    assert_eq!(code_count_for_duration(0), 0);
    assert_eq!(code_count_for_duration(30), 150);
}

#[test]
fn default_sampling() {
    let sampling = SamplingConfig::new(12, 42);
    assert_eq!(f32::from_bits(DEFAULT_TEMPERATURE), 0.85);
    assert_eq!(f32::from_bits(DEFAULT_TOP_P), 0.9);
    assert_eq!(f32::from_bits(DEFAULT_CFG_SCALE), 2.0);
    assert_eq!(sampling.temperature.bits, DEFAULT_TEMPERATURE);
    assert_eq!(sampling.top_p.bits, DEFAULT_TOP_P);
    assert_eq!(sampling.cfg_scale.bits, DEFAULT_CFG_SCALE);
    assert_eq!((sampling.max_new_tokens, sampling.top_k, sampling.seed), (12, 0, 42));
    assert!(sampling.is_guided());
    assert!(!sampling.is_greedy());
}

#[test]
fn guidance_and_greed_compare_as_the_machine_does() {
    let values = [
        0.0f32, -0.0, 1.0, -1.0, 1.000_000_1, 0.999_999_9, 2.0, 1e-3, 0.000_999, 0.001_001, 1e-40,
        f32::INFINITY, f32::NEG_INFINITY, f32::NAN, -f32::NAN,
    ];
    for value in values {
        let mut sampling = SamplingConfig::new(1, 0);
        sampling.cfg_scale = Single { bits: value.to_bits() };
        assert_eq!(sampling.is_guided(), value > 1.0, "guided by {value}");
        sampling.temperature = Single { bits: value.to_bits() };
        assert_eq!(sampling.is_greedy(), value < 1e-3, "greedy at {value}");
        sampling.top_k = 1;
        assert!(sampling.is_greedy());
        sampling.top_p = Single { bits: value.to_bits() };
        assert_eq!(sampling.has_nucleus(), value < 1.0, "nucleus at {value}");
    }
}

fn singles(values: &[f32]) -> Vec<Single> {
    values.iter().map(|value| Single { bits: value.to_bits() }).collect()
}

#[test]
fn candidates_of_a_small_vocabulary() {
    let logits = singles(&[0.5, 2.0, -1.0, 2.0, f32::NEG_INFINITY]);
    let mut sampling = SamplingConfig::new(1, 0);
    assert_eq!(sample_candidates(&logits, Some(1), &sampling), vec![1, 3, 0, 2, 4]);
    sampling.top_k = 2;
    assert_eq!(sample_candidates(&logits, Some(1), &sampling), vec![1, 3]);
    sampling.top_k = 9;
    assert_eq!(sample_candidates(&logits, Some(1), &sampling).len(), 5);
    sampling.temperature = Single { bits: 0 };
    assert_eq!(sample_candidates(&logits, Some(1), &sampling), vec![1]);
}

#[test]
fn candidates_of_the_full_vocabulary_are_the_stop_token_and_the_codes() {
    let base = IM_END_ID as usize + 24;
    let mut values = vec![9.0f32; base + 3];
    values[IM_END_ID as usize] = 1.0;
    values[base] = 0.0;
    values[base + 1] = 3.0;
    values[base + 2] = -0.0;
    let sampling = SamplingConfig::new(1, 0);
    let kept = sample_candidates(&singles(&values), Some(base as u32), &sampling);
    assert_eq!(kept, vec![base + 1, IM_END_ID as usize, base, base + 2]);
    let all = sample_candidates(&singles(&values), None, &sampling);
    assert_eq!(all.len(), values.len() - IM_END_ID as usize);
    assert_eq!(all[0], IM_END_ID as usize + 1);
}

#[test]
fn candidates_are_ranked_by_the_total_order() {
    let values: Vec<f32> = (0..500u32)
        .map(|i| f32::from_bits(i.wrapping_mul(2_654_435_761)))
        .collect();
    let mut expected: Vec<usize> = (0..values.len()).collect();
    expected.sort_by(|&a, &b| values[b].total_cmp(&values[a]));
    assert_eq!(sample_candidates(&singles(&values), Some(0), &SamplingConfig::new(1, 0)), expected);
}

#[test]
fn nucleus_ends_where_the_threshold_is_reached() {
    let candidates = [7usize, 3, 9, 1];
    assert_eq!(cut_nucleus(&candidates, &[false, true, false, true]), vec![7, 3]);
    assert_eq!(cut_nucleus(&candidates, &[true, true, true, true]), vec![7]);
    assert_eq!(cut_nucleus(&candidates, &[false; 4]), vec![7, 3, 9, 1]);
}

#[test]
fn draw_falls_on_the_candidate_that_uses_it_up() {
    let candidates = [7usize, 3, 9, 1];
    assert_eq!(drawn_token(&candidates, &[false, false, true, true]), 9);
    assert_eq!(drawn_token(&candidates, &[true, false, false, false]), 7);
    assert_eq!(drawn_token(&candidates, &[false; 4]), 1);
}

#[test]
fn draws_are_the_stop_token_or_codes() {
    let base = IM_END_ID as usize + 24;
    let mut values = vec![9.0f32; base + 3];
    values[IM_END_ID as usize] = 1.0;
    let sampling = SamplingConfig::new(1, 0);
    let candidates = sample_candidates(&singles(&values), Some(base as u32), &sampling);
    for keep in 1..=candidates.len() {
        for at in 0..keep {
            let mut reached = vec![false; candidates.len()];
            reached[keep - 1] = true;
            let kept = cut_nucleus(&candidates, &reached);
            assert_eq!(kept.len(), keep);
            let mut used_up = vec![false; keep];
            used_up[at] = true;
            let token = drawn_token(&kept, &used_up);
            assert!(token == IM_END_ID || token >= base as u32);
        }
    }
}

fn tiny_vocab() -> AudioCodeVocab {
    let mut vocab = AudioCodeVocab::default();
    for code in 0..8u32 {
        vocab.insert(code, code + 1);
    }
    vocab
}

fn run_with(seed: u64, calls: &mut Vec<(usize, usize)>) -> Vec<u32> {
    let prompt: Vec<u32> = vec![10, 11, 12, 13];
    let sampling = SamplingConfig::new(12, seed);
    let vocab = tiny_vocab();
    let mut run = CodeRun::start(sampling.max_new_tokens);
    let mut state = seed;
    loop {
        match run.action() {
            RunAction::Sample(step) => {
                calls.push((step, sampling.max_new_tokens));
                state = state.wrapping_mul(6_364_136_223_846_793_005).wrapping_add(prompt[step % 4] as u64);
                let token = (state >> 33) as u32 % 16;
                assert_eq!(run.accept(token, &vocab), Some(step));
            }
            RunAction::Finish(done) => {
                calls.push((done, sampling.max_new_tokens));
                return run.codes;
            }
        }
    }
}

#[test]
fn generate_codes_deterministic_and_bounded() {
    let mut calls = Vec::new();
    let first = run_with(42, &mut calls);
    let second = run_with(42, &mut Vec::new());
    assert_eq!(first, second, "same seed must reproduce the same codes");
    assert!(first.len() <= 12, "cannot exceed the token budget");
    assert!(first.iter().all(|&c| c < 8), "codes stay in the toy vocab");
    assert!(!calls.is_empty(), "progress callback should fire");
    assert!(calls.iter().all(|&(_, total)| total == 12));
    assert_eq!(calls.last(), Some(&(12, 12)), "budget-bound run completes");

    let third = run_with(7, &mut Vec::new());
    assert!(third.len() <= 12);
}

#[test]
fn a_run_stops_at_the_stop_token() {
    let vocab = tiny_vocab();
    let mut run = CodeRun::start(5);
    assert_eq!(run.accept(3, &vocab), Some(0));
    assert_eq!(run.accept(100, &vocab), Some(1));
    assert_eq!(run.accept(IM_END_ID, &vocab), None);
    assert_eq!(run.action(), RunAction::Finish(2));
    assert_eq!(run.codes, vec![2]);
    assert_eq!(CodeRun::start(0).action(), RunAction::Finish(0));
}
