//! What surrounds the models of an instrumental clip: the files that they are
//! loaded from, the prompts, the tokens and the codes that they are given, and
//! the seeded noise that diffusion starts from.

use vstd::prelude::*;

use crate::acestep::lm::{
    build_codes_prompt, build_cot_block, build_uncond_codes_prompt, code_count_for_duration,
    cot_block, format_tempo, optional_tempo, optional_text, SamplingConfig, Tempo,
    AUDIO_CODES_PER_SECOND, DEFAULT_CFG_SCALE, DEFAULT_TEMPERATURE, DEFAULT_TOP_P, PROMPT_HEAD,
    PROMPT_LYRIC, UNCOND_PROMPT,
};
use crate::acestep::vocab::ENDOFTEXT_ID;
use crate::rounding::nearest_even;
use crate::single::Single;
use crate::text::{
    decimal, decimal_text, list_texts, listed, owned, parse_unsigned, pieces, split, trim, trimmed,
    unsigned_number, views,
};
use crate::tokenizer::{encodes, is_short, lemma_room, tokenizer_in, EncodeError, TextTokenizer};

verus! {

/// Number of 25 Hz latent frames used as the timbre reference.
pub const TIMBRE_REFERENCE_FRAMES: usize = 750;

/// Most tokens of the caption branch.
pub const MAX_TEXT_TOKENS: usize = 256;

/// Most tokens of the lyric branch.
pub const MAX_LYRIC_TOKENS: usize = 2048;

/// The instruction that goes with audio codes.
pub const DIT_INSTRUCTION: &'static str =
    "Generate audio semantic tokens based on the given conditions:";

/// Prompt of the lyric branch for instrumental tracks.
pub const INSTRUMENTAL_LYRIC_PROMPT: &'static str =
    "# Languages\nunknown\n\n# Lyric\n[Instrumental]<|endoftext|>";

/// Which model variant to load from a model directory.
#[derive(Clone, Copy, Debug, PartialEq, Eq, Structural)]
pub enum AceStepVariant {
    /// Distilled model, eight steps.
    Turbo,
    /// Fine-tuned model, fifty steps.
    Sft,
}

impl Default for AceStepVariant {
    fn default() -> (variant: AceStepVariant)
        ensures
            variant is Turbo,
    {
        AceStepVariant::Turbo
    }
}

impl AceStepVariant {
    /// What the names of the files of a variant begin with.
    pub open spec fn prefix_text(self) -> Seq<char> {
        match self {
            AceStepVariant::Turbo => ""@,
            AceStepVariant::Sft => "sft-"@,
        }
    }

    /// What the names of the files of a variant begin with.
    pub fn prefix(self) -> (prefix: &'static str)
        ensures
            prefix@ == self.prefix_text(),
    {
        match self {
            AceStepVariant::Turbo => "",
            AceStepVariant::Sft => "sft-",
        }
    }
}

/// Model files, relative to the model directory. Some are shared by the variants;
/// the others bear the prefix of the variant.
#[derive(Clone, Debug)]
pub struct AceStepModelPaths {
    /// Text encoder weights.
    pub text_encoder_bpk: String,
    /// Text encoder config.
    pub text_encoder_config: String,
    /// Planner weights.
    pub lm_bpk: String,
    /// Planner config.
    pub lm_config: String,
    /// Planner tokenizer, which holds the audio codes.
    pub lm_tokenizer: String,
    /// Diffusion weights.
    pub dit_bpk: String,
    /// Diffusion config, shared with the condition stack.
    pub dit_config: String,
    /// Condition stack weights.
    pub condition_bpk: String,
    /// Decoder weights.
    pub vae_bpk: String,
    /// Decoder config.
    pub vae_config: String,
    /// The latent of silence.
    pub silence_latent_bpk: String,
    /// Text encoder tokenizer.
    pub tokenizer_json: String,
}

/// Names of the model files of a variant: six that the variants share, and six
/// that bear the prefix of the variant.
pub open spec fn required_files(variant: AceStepVariant) -> Seq<Seq<char>> {
    let prefix = variant.prefix_text();
    seq![
        "qwen3-encoder.bpk"@,
        "qwen3_config.json"@,
        "tokenizer.json"@,
        "acestep-vae.bpk"@,
        "vae_config.json"@,
        "silence_latent.bpk"@,
        prefix + "acestep-lm.bpk"@,
        prefix + "lm_config.json"@,
        prefix + "lm_tokenizer.json"@,
        prefix + "acestep-dit.bpk"@,
        prefix + "dit_config.json"@,
        prefix + "acestep-condition.bpk"@,
    ]
}

/// Those of the first `n` names whose file is not there.
pub open spec fn missing_names(names: Seq<Seq<char>>, present: Seq<bool>, n: int) -> Seq<Seq<char>>
    decreases n,
{
    if n <= 0 {
        Seq::empty()
    } else if present[n - 1] {
        missing_names(names, present, n - 1)
    } else {
        missing_names(names, present, n - 1).push(names[n - 1])
    }
}

/// A name with the prefix of a variant.
fn prefixed(variant: AceStepVariant, name: &str) -> (full: String)
    ensures
        full@ == variant.prefix_text() + name@,
{
    let mut full = owned(variant.prefix());
    full.append(name);
    full
}

impl AceStepModelPaths {
    /// The files are those of a variant, each in its place.
    pub open spec fn are_files_of(&self, variant: AceStepVariant) -> bool {
        let names = required_files(variant);
        &&& self.text_encoder_bpk@ == names[0]
        &&& self.text_encoder_config@ == names[1]
        &&& self.tokenizer_json@ == names[2]
        &&& self.vae_bpk@ == names[3]
        &&& self.vae_config@ == names[4]
        &&& self.silence_latent_bpk@ == names[5]
        &&& self.lm_bpk@ == names[6]
        &&& self.lm_config@ == names[7]
        &&& self.lm_tokenizer@ == names[8]
        &&& self.dit_bpk@ == names[9]
        &&& self.dit_config@ == names[10]
        &&& self.condition_bpk@ == names[11]
    }

    /// Model files required inside the model directory, relative to its root.
    pub fn required_relative_files(variant: AceStepVariant) -> (files: Vec<String>)
        ensures
            views(files@) == required_files(variant),
    {
        let mut files: Vec<String> = Vec::new();
        files.push(owned("qwen3-encoder.bpk"));
        files.push(owned("qwen3_config.json"));
        files.push(owned("tokenizer.json"));
        files.push(owned("acestep-vae.bpk"));
        files.push(owned("vae_config.json"));
        files.push(owned("silence_latent.bpk"));
        files.push(prefixed(variant, "acestep-lm.bpk"));
        files.push(prefixed(variant, "lm_config.json"));
        files.push(prefixed(variant, "lm_tokenizer.json"));
        files.push(prefixed(variant, "acestep-dit.bpk"));
        files.push(prefixed(variant, "dit_config.json"));
        files.push(prefixed(variant, "acestep-condition.bpk"));
        assert(views(files@) =~= required_files(variant));
        files
    }

    /// The files of a variant, given for each of the required ones, in their
    /// order, whether it is there; the names of the missing ones where there are
    /// any.
    pub fn resolve(present: &[bool; 12], variant: AceStepVariant) -> (r: Result<
        AceStepModelPaths,
        Vec<String>,
    >)
        ensures
            match r {
                Ok(paths) => paths.are_files_of(variant) && forall|i: int|
                    0 <= i < 12 ==> #[trigger] present@[i],
                Err(missing) => views(missing@) == missing_names(
                    required_files(variant),
                    present@,
                    12,
                ) && missing@.len() > 0,
            },
    {
        let files = AceStepModelPaths::required_relative_files(variant);
        let mut missing: Vec<String> = Vec::new();
        let mut i: usize = 0;
        assert(views(missing@) =~= missing_names(required_files(variant), present@, 0));
        while i < 12
            invariant
                i <= 12,
                views(files@) == required_files(variant),
                views(missing@) == missing_names(required_files(variant), present@, i as int),
                missing@.len() == 0 ==> forall|k: int| 0 <= k < i ==> #[trigger] present@[k],
            decreases 12 - i,
        {
            assert(files@.len() == required_files(variant).len());
            assert(views(files@)[i as int] == files@[i as int]@);
            if !present[i] {
                let ghost before = missing@;
                missing.push(owned(files[i].as_str()));
                assert(views(missing@) =~= views(before).push(files@[i as int]@));
            }
            i += 1;
        }
        if missing.len() > 0 {
            return Err(missing);
        }
        Ok(
            AceStepModelPaths {
                text_encoder_bpk: owned("qwen3-encoder.bpk"),
                text_encoder_config: owned("qwen3_config.json"),
                lm_bpk: prefixed(variant, "acestep-lm.bpk"),
                lm_config: prefixed(variant, "lm_config.json"),
                lm_tokenizer: prefixed(variant, "lm_tokenizer.json"),
                dit_bpk: prefixed(variant, "acestep-dit.bpk"),
                dit_config: prefixed(variant, "dit_config.json"),
                condition_bpk: prefixed(variant, "acestep-condition.bpk"),
                vae_bpk: owned("acestep-vae.bpk"),
                vae_config: owned("vae_config.json"),
                silence_latent_bpk: owned("silence_latent.bpk"),
                tokenizer_json: owned("tokenizer.json"),
            },
        )
    }
}

/// What is said of a model directory that lacks files.
pub fn missing_message(model_dir: &str, missing: &Vec<String>) -> (message: String)
    ensures
        message@ == "ACE-Step model directory "@ + model_dir@ + " is missing required files: "@
            + listed(views(missing@)),
{
    let mut message = owned("ACE-Step model directory ");
    message.append(model_dir);
    message.append(" is missing required files: ");
    message.append(list_texts(missing).as_str());
    message
}

/// Metadata describing one generated audio clip.
#[derive(Clone, Copy, Debug, PartialEq, Eq, Structural)]
pub struct GenerateAudioMeta {
    /// Audio channel count.
    pub channels: usize,
    /// Total samples per channel.
    pub frames: usize,
    /// Sample rate of the decoded audio.
    pub sample_rate_hz: u32,
    /// Number of sampler steps that were run.
    pub steps: usize,
    /// Number of caption tokens fed to the text encoder.
    pub prompt_tokens: usize,
}

/// Optional musical conditions of one request.
#[derive(Clone, Copy, Debug)]
pub struct GenerateMetadata<'a> {
    /// Tempo in beats per minute.
    pub bpm: Option<Tempo<'a>>,
    /// Musical key, e.g. "A minor".
    pub key_scale: Option<&'a str>,
    /// Time signature formatted as "N/D", e.g. "4/4".
    pub time_signature: Option<&'a str>,
}

impl<'a> Default for GenerateMetadata<'a> {
    fn default() -> (metadata: GenerateMetadata<'a>)
        ensures
            metadata.bpm is None,
            metadata.key_scale is None,
            metadata.time_signature is None,
    {
        GenerateMetadata { bpm: None, key_scale: None, time_signature: None }
    }
}

/// A text, or what stands for a missing one.
pub open spec fn or_missing(text: Option<Seq<char>>) -> Seq<char> {
    match text {
        Some(text) => text,
        None => "N/A"@,
    }
}

/// The metadata block: always four lines, with "N/A" for missing values.
pub open spec fn metas_block(
    bpm: Option<Seq<char>>,
    key_scale: Option<Seq<char>>,
    time_signature: Option<Seq<char>>,
    duration_s: nat,
) -> Seq<char> {
    "- bpm: "@ + or_missing(bpm) + "\n- timesignature: "@ + or_missing(time_signature)
        + "\n- keyscale: "@ + or_missing(key_scale) + "\n- duration: "@ + decimal(duration_s)
        + " seconds\n"@
}

/// The text of a value, or what stands for a missing one.
fn text_or_missing<'a>(text: Option<&'a str>) -> (shown: &'a str)
    ensures
        shown@ == or_missing(optional_text(text)),
{
    match text {
        Some(text) => text,
        None => "N/A",
    }
}

/// The metadata block of the caption branch.
pub fn build_metas_block(
    bpm: Option<Tempo>,
    key_scale: Option<&str>,
    time_signature: Option<&str>,
    duration_s: usize,
) -> (block: String)
    ensures
        block@ == metas_block(
            optional_tempo(bpm),
            optional_text(key_scale),
            optional_text(time_signature),
            duration_s as nat,
        ),
{
    let tempo = match bpm {
        Some(tempo) => format_tempo(&tempo),
        None => owned("N/A"),
    };
    let mut block = owned("- bpm: ");
    block.append(tempo.as_str());
    block.append("\n- timesignature: ");
    block.append(text_or_missing(time_signature));
    block.append("\n- keyscale: ");
    block.append(text_or_missing(key_scale));
    block.append("\n- duration: ");
    block.append(decimal_text(duration_s as u64).as_str());
    block.append(" seconds\n");
    block
}

/// The prompt of the caption branch.
pub open spec fn dit_text_prompt(caption: Seq<char>, metas: Seq<char>) -> Seq<char> {
    "# Instruction\n"@ + DIT_INSTRUCTION@ + "\n\n# Caption\n"@ + caption + "\n\n# Metas\n"@ + metas
        + "<|endoftext|>\n"@
}

/// The prompt of the caption branch, for the text encoder.
pub fn build_dit_text_prompt(caption: &str, metas_block: &str) -> (prompt: String)
    ensures
        prompt@ == dit_text_prompt(caption@, metas_block@),
{
    let mut prompt = owned("# Instruction\n");
    prompt.append(DIT_INSTRUCTION);
    prompt.append("\n\n# Caption\n");
    prompt.append(caption);
    prompt.append("\n\n# Metas\n");
    prompt.append(metas_block);
    prompt.append("<|endoftext|>\n");
    prompt
}

/// Tokens cut to a limit, with the end-of-text token after them.
pub open spec fn closed(ids: Seq<u32>, limit: int) -> Seq<u32> {
    if ids.len() <= limit {
        ids.push(ENDOFTEXT_ID)
    } else {
        ids.take(limit).push(ENDOFTEXT_ID)
    }
}

/// Cuts tokens to a limit and puts the end-of-text token after them.
pub fn close_tokens(ids: Vec<u32>, limit: usize) -> (closed_ids: Vec<u32>)
    ensures
        closed_ids@ == closed(ids@, limit as int),
{
    let mut kept = ids;
    if kept.len() > limit {
        kept.truncate(limit);
    }
    kept.push(ENDOFTEXT_ID);
    assert(kept@ =~= closed(ids@, limit as int));
    kept
}

/// `tokens` are those of a prompt, cut to a limit, with the end-of-text token after
/// them.
pub open spec fn is_closed_prompt(
    rules: Seq<u8>,
    prompt: Seq<char>,
    limit: int,
    tokens: Seq<u32>,
) -> bool {
    exists|ids: Seq<u32>|
        #[trigger] encodes(rules, prompt, ids) && tokens == closed(ids, limit)
}

/// The prompt of the caption branch of a request.
pub open spec fn caption_prompt(
    caption: Seq<char>,
    metadata: GenerateMetadata,
    duration_ms: usize,
) -> Seq<char> {
    dit_text_prompt(
        caption,
        metas_block(
            optional_tempo(metadata.bpm),
            optional_text(metadata.key_scale),
            optional_text(metadata.time_signature),
            (duration_ms / 1000) as nat,
        ),
    )
}

/// The tokens of the caption branch of a request; nothing where the prompt is too
/// long.
pub fn caption_tokens(
    tokenizer: &TextTokenizer,
    caption: &str,
    metadata: &GenerateMetadata,
    duration_ms: usize,
) -> (tokens: Option<Vec<u32>>)
    ensures
        tokens is Some <==> is_short(caption_prompt(caption@, *metadata, duration_ms)),
        tokens is Some ==> is_closed_prompt(
            tokenizer.cut(),
            caption_prompt(caption@, *metadata, duration_ms),
            MAX_TEXT_TOKENS as int,
            tokens->0@,
        ),
{
    let metas = build_metas_block(
        metadata.bpm,
        metadata.key_scale,
        metadata.time_signature,
        duration_ms / 1000,
    );
    let prompt = build_dit_text_prompt(caption, metas.as_str());
    match tokenizer.encode(prompt.as_str()) {
        Some(ids) => {
            assert(encodes(tokenizer.cut(), prompt@, ids@));
            Some(close_tokens(ids, MAX_TEXT_TOKENS))
        },
        None => None,
    }
}

/// The tokens of the lyric branch of an instrumental track.
pub fn lyric_tokens(tokenizer: &TextTokenizer) -> (tokens: Vec<u32>)
    ensures
        is_closed_prompt(
            tokenizer.cut(),
            INSTRUMENTAL_LYRIC_PROMPT@,
            MAX_LYRIC_TOKENS as int,
            tokens@,
        ),
{
    proof {
        reveal_strlit("# Languages\nunknown\n\n# Lyric\n[Instrumental]<|endoftext|>");
        lemma_room(INSTRUMENTAL_LYRIC_PROMPT@);
    }
    let ids = match tokenizer.encode(INSTRUMENTAL_LYRIC_PROMPT) {
        Some(ids) => ids,
        None => Vec::new(),
    };
    assert(encodes(tokenizer.cut(), INSTRUMENTAL_LYRIC_PROMPT@, ids@));
    close_tokens(ids, MAX_LYRIC_TOKENS)
}

/// What a run of the planner is given.
#[derive(Debug)]
pub struct CodePlan {
    pub cot_block: String,
    pub prompt: String,
    pub prompt_ids: Vec<u32>,
    /// The tokens of the unconditional prompt, where guidance takes part.
    pub uncond_ids: Option<Vec<u32>>,
    pub sampling: SamplingConfig,
}

/// The thoughts that the planner is given for a request.
pub open spec fn planned_thoughts(
    caption: Seq<char>,
    metadata: GenerateMetadata,
    duration_ms: usize,
) -> Seq<char> {
    cot_block(
        caption,
        optional_tempo(metadata.bpm),
        optional_text(metadata.key_scale),
        optional_text(metadata.time_signature),
        (duration_ms / 1000) as nat,
    )
}

/// The prompt that the planner is given for a request.
pub open spec fn planned_prompt(
    caption: Seq<char>,
    metadata: GenerateMetadata,
    duration_ms: usize,
) -> Seq<char> {
    PROMPT_HEAD@ + caption + PROMPT_LYRIC@ + planned_thoughts(caption, metadata, duration_ms)
        + "\n\n"@
}

/// Prepares a run of the planner from the text of its `tokenizer.json`: the
/// prompts, their tokens, and the sampling, whose budget is the number of codes that
/// the duration takes.
pub fn plan_codes(
    tokenizer_json: &str,
    caption: &str,
    metadata: &GenerateMetadata,
    duration_ms: usize,
    seed: u64,
) -> (r: Result<CodePlan, EncodeError>)
    ensures
        match tokenizer_in(tokenizer_json@) {
            Some((_, rules)) => if is_short(planned_prompt(caption@, *metadata, duration_ms)) {
                &&& r is Ok
                &&& r->Ok_0.cot_block@ == planned_thoughts(caption@, *metadata, duration_ms)
                &&& r->Ok_0.prompt@ == planned_prompt(caption@, *metadata, duration_ms)
                &&& encodes(rules, r->Ok_0.prompt@, r->Ok_0.prompt_ids@)
                &&& r->Ok_0.uncond_ids is Some
                &&& encodes(rules, UNCOND_PROMPT@, r->Ok_0.uncond_ids->0@)
                &&& r->Ok_0.sampling == (SamplingConfig {
                    max_new_tokens: (duration_ms / 1000 * AUDIO_CODES_PER_SECOND) as usize,
                    temperature: (Single { bits: DEFAULT_TEMPERATURE }),
                    top_p: (Single { bits: DEFAULT_TOP_P }),
                    top_k: 0,
                    cfg_scale: (Single { bits: DEFAULT_CFG_SCALE }),
                    seed,
                })
            } else {
                r matches Err(EncodeError::LongText)
            },
            None => r matches Err(EncodeError::Load(_)),
        },
{
    let tokenizer = match TextTokenizer::from_json(tokenizer_json) {
        Ok(tokenizer) => tokenizer,
        Err(error) => {
            return Err(EncodeError::Load(error));
        },
    };
    let duration_s: usize = duration_ms / 1000;
    let cot_block = build_cot_block(
        caption,
        metadata.bpm,
        metadata.key_scale,
        metadata.time_signature,
        duration_s,
    );
    let prompt = build_codes_prompt(caption, cot_block.as_str());
    let prompt_ids = match tokenizer.encode(prompt.as_str()) {
        Some(ids) => ids,
        None => {
            return Err(EncodeError::LongText);
        },
    };
    let sampling = SamplingConfig::new(code_count_for_duration(duration_s), seed);
    proof {
        reveal_strlit(
            "<|im_start|>system\n# Instruction\nGenerate audio semantic tokens based on the given conditions:\n\n<|im_end|>\n<|im_start|>user\n<|im_end|>\n<|im_start|>assistant\n<think>\n\n</think>\n\n",
        );
        lemma_room(UNCOND_PROMPT@);
    }
    let uncond_ids = if sampling.is_guided() {
        tokenizer.encode(build_uncond_codes_prompt().as_str())
    } else {
        None
    };
    Ok(CodePlan { cot_block, prompt, prompt_ids, uncond_ids, sampling })
}

/// The codes that the parts of a list spell. Parts that spell none are passed
/// over.
pub open spec fn listed_codes(parts: Seq<Seq<char>>) -> Seq<u32>
    decreases parts.len(),
{
    if parts.len() == 0 {
        Seq::empty()
    } else {
        let before = listed_codes(parts.drop_last());
        match unsigned_number(trimmed(parts.last()), u32::MAX as int) {
            Some(code) => before.push(code as u32),
            None => before,
        }
    }
}

/// Reads codes given as a comma-separated list.
pub fn parse_codes(list: &str) -> (codes: Vec<u32>)
    ensures
        codes@ == listed_codes(pieces(list@, ',')),
{
    let parts = split(list, ',');
    let mut codes: Vec<u32> = Vec::new();
    let mut i: usize = 0;
    assert(views(parts@).take(0) =~= Seq::<Seq<char>>::empty());
    while i < parts.len()
        invariant
            i <= parts@.len(),
            codes@ == listed_codes(views(parts@).take(i as int)),
        decreases parts@.len() - i,
    {
        proof {
            let longer = views(parts@).take(i + 1);
            assert(longer.drop_last() =~= views(parts@).take(i as int));
            assert(longer.last() == parts@[i as int]@);
        }
        let core = trim(parts[i].as_str());
        if let Some(code) = parse_unsigned(core.as_slice(), 0xffff_ffff) {
            codes.push(code as u32);
        }
        i += 1;
    }
    assert(views(parts@).take(i as int) =~= views(parts@));
    codes
}

/// Latent frame count, at 25 Hz, for a clip of `duration_ms` milliseconds: rounded,
/// at least 5 frames.
pub fn latent_frames_for_duration(duration_ms: usize) -> (frames: usize)
    requires
        duration_ms * 25 + 500 <= usize::MAX,
    ensures
        frames == (if duration_ms * 25 + 500 < 5000 {
            5
        } else {
            (duration_ms * 25 + 500) / 1000
        }),
{
    let frames: usize = (duration_ms * 25 + 500) / 1000;
    if frames < 5 {
        5
    } else {
        frames
    }
}

/// Codes brought to exactly `expected` entries: short lists are padded with their
/// last code, or with zeros when empty, and long ones are cut.
pub open spec fn fitted(codes: Seq<u32>, expected: int) -> Seq<u32> {
    Seq::new(
        expected as nat,
        |i: int|
            if i < codes.len() {
                codes[i]
            } else if codes.len() > 0 {
                codes.last()
            } else {
                0
            },
    )
}

/// Brings the codes that the planner emitted to exactly `expected` entries.
pub fn pad_or_truncate_codes(codes: Vec<u32>, expected: usize) -> (kept: Vec<u32>)
    ensures
        kept@ == fitted(codes@, expected as int),
{
    let mut kept = codes;
    let count: usize = kept.len();
    if count < expected {
        let fill: u32 = if count > 0 {
            kept[count - 1]
        } else {
            0
        };
        kept.resize(expected, fill);
    } else {
        kept.truncate(expected);
    }
    assert(kept@ =~= fitted(codes@, expected as int));
    kept
}

/// The number of codes that a clip is decoded from: five for each whole second,
/// and one at least.
pub fn expected_codes(duration_ms: usize) -> (count: usize)
    ensures
        count == (if duration_ms < 1000 {
            1
        } else {
            duration_ms / 1000 * AUDIO_CODES_PER_SECOND
        }),
{
    let count: usize = code_count_for_duration(duration_ms / 1000);
    if count < 1 {
        1
    } else {
        count
    }
}

/// One step of the state of the noise generator.
pub open spec fn next_state(state: u64) -> u64 {
    ((state + 0x9e37_79b9_7f4a_7c15) % 0x1_0000_0000_0000_0000) as u64
}

/// The product of two words, without what overflows.
pub open spec fn low_product(a: u64, b: u64) -> u64 {
    ((a * b) % 0x1_0000_0000_0000_0000) as u64
}

/// The word that a state of the noise generator gives.
pub open spec fn mixed(state: u64) -> u64 {
    let a = low_product(state ^ (state >> 30u64), 0xbf58_476d_1ce4_e5b9);
    let b = low_product(a ^ (a >> 27u64), 0x94d0_49bb_1331_11eb);
    b ^ (b >> 31u64)
}

/// The next word of the noise generator.
pub fn splitmix64_next(state: &mut u64) -> (word: u64)
    ensures
        *final(state) == next_state(*old(state)),
        word == mixed(next_state(*old(state))),
{
    *state = state.wrapping_add(0x9e37_79b9_7f4a_7c15);
    let z: u64 = *state;
    let a: u64 = (z ^ (z >> 30u64)).wrapping_mul(0xbf58_476d_1ce4_e5b9);
    let b: u64 = (a ^ (a >> 27u64)).wrapping_mul(0x94d0_49bb_1331_11eb);
    b ^ (b >> 31u64)
}

/// A uniform number between zero and one, both left out, as a numerator over two
/// to the power 54: the middle of the 53-bit interval that a word falls into, in
/// double precision, and at most one less two to the power -52.
pub open spec fn uniform_numerator(word: u64) -> int {
    let top = (word >> 11u64) as int;
    let middle = if 2 * top + 1 < 0x20_0000_0000_0000 {
        2 * top + 1
    } else {
        2 * nearest_even(2 * top + 1, 2)
    };
    if middle > 0x3f_ffff_ffff_fffc {
        0x3f_ffff_ffff_fffc
    } else {
        middle
    }
}

/// The next uniform number of the noise generator, as a numerator over two to the
/// power 54.
pub fn uniform01_open(state: &mut u64) -> (numerator: u64)
    ensures
        *final(state) == next_state(*old(state)),
        numerator == uniform_numerator(mixed(next_state(*old(state)))),
        0 < numerator < 0x40_0000_0000_0000,
{
    let word: u64 = splitmix64_next(state);
    let top: u64 = word >> 11u64;
    assert(word >> 11u64 < 0x20_0000_0000_0000) by (bit_vector);
    let middle: u64 = if top < 0x10_0000_0000_0000 {
        2 * top + 1
    } else {
        2 * (top + top % 2)
    };
    if middle > 0x3f_ffff_ffff_fffc {
        0x3f_ffff_ffff_fffc
    } else {
        middle
    }
}

} // verus!
