//! The planner of audio codes: its prompts, its sampling, and the run that turns
//! sampled tokens into codes.
//!
//! - The chain-of-thought block is a `<think>...</think>` block with the keys
//!   `bpm`, `caption`, `duration`, `keyscale`, `language` and `timesignature` in
//!   that (sorted) order; only present keys are given. A whole tempo is written
//!   as a whole number, `language` is always `unknown`, and `timesignature` is
//!   kept verbatim ("4/4", "6/8", ...).
//! - The full prompt puts that block into the chat template, with the
//!   `# Lyric` section set to `[Instrumental]`.
//! - Sampling is restricted to the stop token and the audio codes, and stops at
//!   `<|im_end|>`.

use vstd::arithmetic::power2::{lemma_pow2_adds, lemma_pow2_pos, lemma_pow2_strictly_increases, pow2};
use vstd::prelude::*;

use crate::acestep::ranking::{order_key, rank_descending, ranks, total_order_key};
use crate::acestep::vocab::{AudioCodeVocab, CodeMaps, IM_END_ID};
use crate::single::{Single, INFINITY};
use crate::text::{decimal, decimal_text, owned, signed_decimal};
use crate::tokenizer::{encodes, is_short, tokenizer_in, EncodeError, TextTokenizer};

verus! {

/// Audio codes per second of audio.
pub const AUDIO_CODES_PER_SECOND: usize = 5;

/// The bits of the default sampling temperature, 0.85.
pub const DEFAULT_TEMPERATURE: u32 = 0x3f59_999a;

/// The bits of the default nucleus threshold, 0.9.
pub const DEFAULT_TOP_P: u32 = 0x3f66_6666;

/// The bits of the default guidance scale, 2.
pub const DEFAULT_CFG_SCALE: u32 = 0x4000_0000;

/// The bits of the number one.
pub const ONE: u32 = 0x3f80_0000;

/// Number of audio codes the planner should emit for `duration_s` seconds.
pub fn code_count_for_duration(duration_s: usize) -> (count: usize)
    requires
        duration_s * AUDIO_CODES_PER_SECOND <= usize::MAX,
    ensures
        count == duration_s * AUDIO_CODES_PER_SECOND,
{
    duration_s * AUDIO_CODES_PER_SECOND
}

/// A tempo: its value, and how the value is displayed.
#[derive(Clone, Copy, Debug)]
pub struct Tempo<'a> {
    pub value: Single,
    pub text: &'a str,
}

/// The number is finite and has no fractional part.
pub open spec fn is_whole(value: Single) -> bool {
    value.magnitude() < INFINITY && (value.scale() >= 0 || value.significand() % pow2(
        (-value.scale()) as nat,
    ) as int == 0)
}

/// A number without a fractional part as a whole number that is at most the
/// largest of 64 bits in magnitude.
pub open spec fn whole_part(value: Single) -> int {
    let magnitude = if value.scale() >= 0 {
        value.significand() * pow2(value.scale() as nat)
    } else {
        value.significand() / pow2((-value.scale()) as nat) as int
    };
    if value.negative() {
        if magnitude <= 0x8000_0000_0000_0000 {
            -magnitude
        } else {
            i64::MIN as int
        }
    } else {
        if magnitude <= i64::MAX {
            magnitude
        } else {
            i64::MAX as int
        }
    }
}

/// How a tempo is written in a prompt: a whole one as a whole number, and any
/// other one as it is displayed.
pub open spec fn tempo_text(value: Single, text: Seq<char>) -> Seq<char> {
    if is_whole(value) {
        signed_decimal(whole_part(value))
    } else {
        text
    }
}

/// The magnitude of a number without a fractional part, or two to the power 63
/// where it is larger; nothing for any other number.
fn whole_magnitude(value: Single) -> (whole: Option<u64>)
    ensures
        whole is Some <==> is_whole(value),
        whole is Some ==> {
            let magnitude = if value.scale() >= 0 {
                value.significand() * pow2(value.scale() as nat)
            } else {
                value.significand() / pow2((-value.scale()) as nat) as int
            };
            whole->0 == if magnitude <= 0x8000_0000_0000_0000 {
                magnitude
            } else {
                0x8000_0000_0000_0000
            }
        },
{
    let bits: u32 = value.unsigned_bits();
    if bits >= INFINITY {
        return None;
    }
    let e: u32 = bits / 0x80_0000;
    proof {
        vstd::arithmetic::power2::lemma2_to64();
        vstd::arithmetic::power2::lemma2_to64_rest();
    }
    if e < 127 {
        proof {
            let unit = pow2((-value.scale()) as nat) as int;
            let significand = value.significand();
            if -value.scale() > 24 {
                lemma_pow2_strictly_increases(24, (-value.scale()) as nat);
            }
            assert(0 <= significand < unit);
            assert(significand / unit == 0 && significand % unit == significand) by (
            nonlinear_arith)
                requires
                    0 <= significand < unit,
            ;
        }
        return if bits == 0 {
            Some(0)
        } else {
            None
        };
    }
    let significand: u64 = (0x80_0000 + bits % 0x80_0000) as u64;
    if e < 150 {
        let mut unit: u64 = 1;
        let mut k: u32 = 150;
        while k > e
            invariant
                127 <= e <= k <= 150,
                unit == pow2((150 - k) as nat),
                unit <= 0x80_0000,
                pow2(23) == 0x80_0000,
            decreases k,
        {
            proof {
                lemma_pow2_adds((150 - k) as nat, 1);
                vstd::arithmetic::power2::lemma2_to64();
                if 150 - k + 1 < 23 {
                    lemma_pow2_strictly_increases((150 - k + 1) as nat, 23);
                }
            }
            unit = unit * 2;
            k = k - 1;
        }
        proof {
            lemma_pow2_pos((150 - e) as nat);
            let u = unit as int;
            let s = significand as int;
            assert(s / u <= s) by (nonlinear_arith)
                requires
                    u >= 1,
                    s >= 0,
            ;
        }
        if significand % unit == 0 {
            Some(significand / unit)
        } else {
            None
        }
    } else if e >= 190 {
        proof {
            if e > 190 {
                lemma_pow2_strictly_increases(40, (e - 150) as nat);
            }
            let unit = pow2((e - 150) as nat) as int;
            let s = significand as int;
            assert(s * unit >= 0x8000_0000_0000_0000) by (nonlinear_arith)
                requires
                    s >= 0x80_0000,
                    unit >= 0x100_0000_0000,
            ;
        }
        Some(0x8000_0000_0000_0000)
    } else {
        let mut whole: u64 = significand;
        let mut k: u32 = 150;
        assert(significand * 1 == significand);
        while k < e
            invariant
                150 <= k <= e < 190,
                significand < 0x100_0000,
                whole == significand * pow2((k - 150) as nat),
                pow2((k - 150) as nat) <= 0x80_0000_0000,
                pow2(39) == 0x80_0000_0000,
                pow2(1) == 2,
            decreases e - k,
        {
            proof {
                lemma_pow2_adds((k - 150) as nat, 1);
                let unit = pow2((k - 150) as nat) as int;
                let s = significand as int;
                assert(s * (unit * 2) == 2 * (s * unit)) by (nonlinear_arith);
                if k - 150 + 1 < 39 {
                    lemma_pow2_strictly_increases((k - 150 + 1) as nat, 39);
                }
                assert(s * unit <= 0x100_0000 * 0x80_0000_0000) by (nonlinear_arith)
                    requires
                        0 <= s <= 0x100_0000,
                        0 <= unit <= 0x80_0000_0000,
                ;
                assert(unit * 2 <= 0x80_0000_0000);
                assert(s * unit <= 0x100_0000 * 0x40_0000_0000) by (nonlinear_arith)
                    requires
                        0 <= s <= 0x100_0000,
                        0 <= unit <= 0x40_0000_0000,
                ;
            }
            whole = whole * 2;
            k = k + 1;
        }
        proof {
            let unit = pow2((e - 150) as nat) as int;
            let s = significand as int;
            assert(s * unit < 0x100_0000 * 0x80_0000_0000) by (nonlinear_arith)
                requires
                    0 <= s < 0x100_0000,
                    0 < unit <= 0x80_0000_0000,
            ;
        }
        Some(whole)
    }
}

/// Writes a tempo as it stands in a prompt.
pub fn format_tempo(tempo: &Tempo) -> (text: String)
    ensures
        text@ == tempo_text(tempo.value, tempo.text@),
{
    match whole_magnitude(tempo.value) {
        None => owned(tempo.text),
        Some(magnitude) => {
            if tempo.value.bits >= 0x8000_0000 {
                if magnitude == 0 {
                    decimal_text(0)
                } else {
                    let mut text = String::new();
                    text.push('-');
                    text.append(decimal_text(magnitude).as_str());
                    assert(text@ =~= seq!['-'] + decimal(magnitude as nat));
                    text
                }
            } else if magnitude > 0x7fff_ffff_ffff_ffff {
                decimal_text(0x7fff_ffff_ffff_ffff)
            } else {
                decimal_text(magnitude)
            }
        },
    }
}

/// A line of a block, with its key, where there is a value for it.
pub open spec fn optional_line(key: Seq<char>, value: Option<Seq<char>>) -> Seq<char> {
    match value {
        Some(text) => key + text + "\n"@,
        None => Seq::empty(),
    }
}

/// The texts of optional conditions.
pub open spec fn optional_tempo(bpm: Option<Tempo>) -> Option<Seq<char>> {
    match bpm {
        Some(tempo) => Some(tempo_text(tempo.value, tempo.text@)),
        None => None,
    }
}

/// A text that may be missing.
pub open spec fn optional_text(text: Option<&str>) -> Option<Seq<char>> {
    match text {
        Some(text) => Some(text@),
        None => None,
    }
}

/// The chain-of-thought block: the present keys in sorted order, one on a line.
pub open spec fn cot_block(
    caption: Seq<char>,
    bpm: Option<Seq<char>>,
    key_scale: Option<Seq<char>>,
    time_signature: Option<Seq<char>>,
    duration_s: nat,
) -> Seq<char> {
    "<think>\n"@ + optional_line("bpm: "@, bpm) + "caption: "@ + caption + "\nduration: "@
        + decimal(duration_s) + "\n"@ + optional_line("keyscale: "@, key_scale)
        + "language: unknown\n"@ + optional_line("timesignature: "@, time_signature) + "</think>"@
}

/// Appends a line where there is a value for it.
fn append_line(block: &mut String, key: &str, value: Option<&str>)
    ensures
        final(block)@ == old(block)@ + optional_line(key@, optional_text(value)),
{
    let ghost before = block@;
    if let Some(text) = value {
        block.append(key);
        block.append(text);
        block.append("\n");
    }
    assert(block@ =~= before + optional_line(key@, optional_text(value)));
}

/// Builds the chain-of-thought block with sorted keys.
pub fn build_cot_block(
    caption: &str,
    bpm: Option<Tempo>,
    key_scale: Option<&str>,
    time_signature: Option<&str>,
    duration_s: usize,
) -> (block: String)
    ensures
        block@ == cot_block(
            caption@,
            optional_tempo(bpm),
            optional_text(key_scale),
            optional_text(time_signature),
            duration_s as nat,
        ),
{
    let mut block = owned("<think>\n");
    match bpm {
        Some(tempo) => {
            let text = format_tempo(&tempo);
            append_line(&mut block, "bpm: ", Some(text.as_str()));
        },
        None => {
            append_line(&mut block, "bpm: ", None);
        },
    }
    block.append("caption: ");
    block.append(caption);
    block.append("\nduration: ");
    block.append(decimal_text(duration_s as u64).as_str());
    block.append("\n");
    append_line(&mut block, "keyscale: ", key_scale);
    block.append("language: unknown\n");
    append_line(&mut block, "timesignature: ", time_signature);
    block.append("</think>");
    block
}

/// The unconditional prompt: an empty user turn and an empty `<think>` block.
pub const UNCOND_PROMPT: &'static str =
    "<|im_start|>system\n# Instruction\nGenerate audio semantic tokens based on the given conditions:\n\n<|im_end|>\n<|im_start|>user\n<|im_end|>\n<|im_start|>assistant\n<think>\n\n</think>\n\n";

/// The unconditional prompt for guidance during code generation.
pub fn build_uncond_codes_prompt() -> (prompt: String)
    ensures
        prompt@ == UNCOND_PROMPT@,
{
    owned(UNCOND_PROMPT)
}

/// The prompt up to the caption.
pub const PROMPT_HEAD: &'static str =
    "<|im_start|>system\n# Instruction\nGenerate audio semantic tokens based on the given conditions:\n\n<|im_end|>\n<|im_start|>user\n# Caption\n";

/// The prompt from the caption to the chain-of-thought block.
pub const PROMPT_LYRIC: &'static str =
    "\n\n# Lyric\n[Instrumental]\n<|im_end|>\n<|im_start|>assistant\n";

/// The full prompt of the planner: the chat template with the caption, the lyric
/// placeholder of instrumental tracks, and the assistant turn begun with the
/// chain-of-thought block.
pub fn build_codes_prompt(caption: &str, cot_block: &str) -> (prompt: String)
    ensures
        prompt@ == PROMPT_HEAD@ + caption@ + PROMPT_LYRIC@ + cot_block@ + "\n\n"@,
{
    let mut prompt = owned(PROMPT_HEAD);
    prompt.append(caption);
    prompt.append(PROMPT_LYRIC);
    prompt.append(cot_block);
    prompt.append("\n\n");
    prompt
}

/// Encodes a planner prompt with a tokenizer, given the text of its
/// `tokenizer.json`. No special tokens are added: the template spells them out.
pub fn tokenize_prompt(tokenizer_json: &str, text: &str) -> (r: Result<Vec<u32>, EncodeError>)
    ensures
        match tokenizer_in(tokenizer_json@) {
            Some((_, rules)) => if is_short(text@) {
                r is Ok && encodes(rules, text@, r->Ok_0@)
            } else {
                r matches Err(EncodeError::LongText)
            },
            None => r matches Err(EncodeError::Load(_)),
        },
{
    match TextTokenizer::from_json(tokenizer_json) {
        Ok(tokenizer) => match tokenizer.encode(text) {
            Some(ids) => Ok(ids),
            None => Err(EncodeError::LongText),
        },
        Err(error) => Err(EncodeError::Load(error)),
    }
}

/// Sampling knobs of a run.
#[derive(Clone, Copy, Debug, PartialEq, Eq, Structural)]
pub struct SamplingConfig {
    pub max_new_tokens: usize,
    pub temperature: Single,
    /// Nucleus sampling threshold; one disables it.
    pub top_p: Single,
    /// Top-k limit; 0 disables it.
    pub top_k: usize,
    /// Guidance scale; one disables the unconditional branch.
    pub cfg_scale: Single,
    pub seed: u64,
}

impl SamplingConfig {
    /// The default knobs: temperature 0.85, top-p 0.9, no top-k, guidance 2.
    pub fn new(max_new_tokens: usize, seed: u64) -> (config: SamplingConfig)
        ensures
            config == (SamplingConfig {
                max_new_tokens,
                temperature: (Single { bits: DEFAULT_TEMPERATURE }),
                top_p: (Single { bits: DEFAULT_TOP_P }),
                top_k: 0,
                cfg_scale: (Single { bits: DEFAULT_CFG_SCALE }),
                seed,
            }),
    {
        SamplingConfig {
            max_new_tokens,
            temperature: Single { bits: DEFAULT_TEMPERATURE },
            top_p: Single { bits: DEFAULT_TOP_P },
            top_k: 0,
            cfg_scale: Single { bits: DEFAULT_CFG_SCALE },
            seed,
        }
    }

    /// Whether guidance takes part: the scale is above one.
    pub fn is_guided(&self) -> (answer: bool)
        ensures
            answer == (!self.cfg_scale.negative() && ONE < self.cfg_scale.bits <= INFINITY),
    {
        self.cfg_scale.bits > ONE && self.cfg_scale.bits <= INFINITY
    }

    /// Whether the most likely token is taken without a draw: the temperature is
    /// below a thousandth, or the limit is one token.
    pub fn is_greedy(&self) -> (answer: bool)
        ensures
            answer == (self.top_k == 1 || is_cold(self.temperature)),
    {
        let bits: u32 = self.temperature.bits;
        self.top_k == 1 || (bits >= 0x8000_0000 && bits <= 0xff80_0000) || bits < THOUSANDTH
    }

    /// Whether the least likely candidates are cut off: the nucleus threshold is
    /// below one.
    pub fn has_nucleus(&self) -> (answer: bool)
        ensures
            answer == (!self.top_p.is_nan() && (self.top_p.negative() || self.top_p.bits < ONE)),
    {
        let bits: u32 = self.top_p.bits;
        (bits >= 0x8000_0000 && bits <= 0xff80_0000) || bits < ONE
    }
}

/// The bits of a thousandth.
pub const THOUSANDTH: u32 = 0x3a83_126f;

/// The temperature is a number below a thousandth.
pub open spec fn is_cold(temperature: Single) -> bool {
    !temperature.is_nan() && (temperature.negative() || temperature.bits < THOUSANDTH)
}

/// The first id that may be sampled besides the stop token.
pub open spec fn first_code(code_base: Option<u32>) -> int {
    match code_base {
        Some(base) => base as int,
        None => IM_END_ID + 1,
    }
}

/// The token ids that may be sampled, before they are ranked: the stop token and
/// everything from the first code on. A vocabulary too small to have the stop
/// token is sampled as a whole.
pub open spec fn samplable(count: int, code_base: Option<u32>) -> Seq<usize> {
    if count > IM_END_ID {
        seq![IM_END_ID as usize] + Seq::new(
            (count - first_code(code_base)) as nat,
            |i: int| (first_code(code_base) + i) as usize,
        )
    } else {
        Seq::new(count as nat, |i: int| i as usize)
    }
}

/// The keys by which token ids are ranked.
pub open spec fn logit_keys(logits: Seq<Single>, ids: Seq<usize>) -> Seq<i64> {
    ids.map_values(|id: usize| order_key(logits[id as int]))
}

/// `ranked` are the samplable ids, the most likely first; ids that are equally
/// likely keep their order.
pub open spec fn is_ranking(logits: Seq<Single>, ids: Seq<usize>, ranked: Seq<usize>) -> bool {
    exists|order: Seq<usize>|
        #![trigger ranks(logit_keys(logits, ids), 0, ids.len() as int, order)]
        ranks(logit_keys(logits, ids), 0, ids.len() as int, order) && ranked == order.map_values(
            |p: usize| ids[p as int],
        )
}

/// Ranks the token ids that may be sampled.
fn rank_candidates(logits: &[Single], code_base: Option<u32>) -> (ranked: Vec<usize>)
    requires
        first_code(code_base) <= logits@.len(),
    ensures
        is_ranking(logits@, samplable(logits@.len() as int, code_base), ranked@),
        ranked@.len() == samplable(logits@.len() as int, code_base).len(),
{
    let count: usize = logits.len();
    let ghost wanted = samplable(count as int, code_base);
    let mut ids: Vec<usize> = Vec::new();
    let mut keys: Vec<i64> = Vec::new();
    let stop: usize = IM_END_ID as usize;
    let mut next: usize = 0;
    if count > stop {
        ids.push(stop);
        keys.push(total_order_key(logits[stop]));
        next = match code_base {
            Some(base) => base as usize,
            None => stop + 1,
        };
    }
    let ghost first = ids@.len() as int;
    let ghost base = next as int;
    while next < count
        invariant
            count == logits@.len(),
            base <= next,
            next <= count || next == base,
            first == (if count > IM_END_ID {
                1int
            } else {
                0int
            }),
            ids@.len() == first + next - base,
            first == 1 ==> ids@[0] == IM_END_ID as usize,
            forall|i: int| first <= i < ids@.len() ==> #[trigger] ids@[i] == base + i - first,
            forall|i: int| 0 <= i < ids@.len() ==> #[trigger] ids@[i] < count,
            keys@ == logit_keys(logits@, ids@),
        decreases count - next,
    {
        let ghost before = ids@;
        ids.push(next);
        keys.push(total_order_key(logits[next]));
        assert(keys@ =~= logit_keys(logits@, ids@));
        next += 1;
    }
    assert(ids@ =~= wanted);
    let order = rank_descending(&keys);
    let mut ranked: Vec<usize> = Vec::new();
    let mut k: usize = 0;
    while k < order.len()
        invariant
            k <= order@.len(),
            ranks(keys@, 0, keys@.len() as int, order@),
            keys@.len() == ids@.len(),
            ranked@ == order@.map_values(|p: usize| ids@[p as int]).take(k as int),
        decreases order@.len() - k,
    {
        ranked.push(ids[order[k]]);
        k += 1;
        assert(ranked@ =~= order@.map_values(|p: usize| ids@[p as int]).take(k as int));
    }
    assert(ranked@ =~= order@.map_values(|p: usize| ids@[p as int]));
    assert(ranks(logit_keys(logits@, ids@), 0, ids@.len() as int, order@));
    ranked
}

/// How many of the ranked ids a draw is made from: one for a greedy choice, and
/// otherwise all of them, or as many as the top-k limit says.
pub open spec fn kept_count(sampling: SamplingConfig, count: int) -> int {
    if sampling.top_k == 1 || is_cold(sampling.temperature) {
        1
    } else if sampling.top_k == 0 || sampling.top_k >= count {
        count
    } else {
        sampling.top_k as int
    }
}

/// `kept` are as many of the ranked ids as a draw is made from.
pub open spec fn is_sample(
    logits: Seq<Single>,
    ids: Seq<usize>,
    sampling: SamplingConfig,
    kept: Seq<usize>,
) -> bool {
    exists|ranked: Seq<usize>|
        {
            &&& #[trigger] is_ranking(logits, ids, ranked)
            &&& ranked.len() >= 1
            &&& kept == ranked.take(kept_count(sampling, ranked.len() as int))
        }
}

/// The token ids that a token is drawn from, the most likely first: of those that
/// may be sampled the ones that the limit keeps, and the most likely one alone
/// where the choice is greedy.
pub fn sample_candidates(
    logits: &[Single],
    code_base: Option<u32>,
    sampling: &SamplingConfig,
) -> (kept: Vec<usize>)
    requires
        first_code(code_base) <= logits@.len(),
        logits@.len() > 0,
    ensures
        is_sample(logits@, samplable(logits@.len() as int, code_base), *sampling, kept@),
{
    let mut kept = rank_candidates(logits, code_base);
    let ghost ranked = kept@;
    let count: usize = if sampling.is_greedy() {
        1
    } else if sampling.top_k == 0 || sampling.top_k >= kept.len() {
        kept.len()
    } else {
        sampling.top_k
    };
    kept.truncate(count);
    assert(kept@ =~= ranked.take(kept_count(*sampling, ranked.len() as int)));
    assert(is_ranking(logits@, samplable(logits@.len() as int, code_base), ranked));
    kept
}

/// The first of the ranked ids has the largest logit of those that may be
/// sampled: what a greedy choice takes.
pub proof fn lemma_first_is_largest(logits: Seq<Single>, ids: Seq<usize>, ranked: Seq<usize>)
    requires
        is_ranking(logits, ids, ranked),
        0 < ids.len() <= usize::MAX,
    ensures
        ranked.len() > 0,
        ids.contains(ranked[0]),
        forall|i: int|
            0 <= i < ids.len() ==> order_key(logits[#[trigger] ids[i] as int]) <= order_key(
                logits[ranked[0] as int],
            ),
{
    let keys = logit_keys(logits, ids);
    let order = choose|order: Seq<usize>|
        #![trigger ranks(keys, 0, ids.len() as int, order)]
        ranks(keys, 0, ids.len() as int, order) && ranked == order.map_values(
            |p: usize| ids[p as int],
        );
    assert forall|i: int| 0 <= i < ids.len() implies order_key(
        logits[#[trigger] ids[i] as int],
    ) <= order_key(logits[ranked[0] as int]) by {
        assert(order.contains(i as usize));
        let k = choose|k: int| 0 <= k < order.len() && order[k] == i as usize;
        assert(keys[order[0] as int] >= keys[order[k] as int]);
    }
}

/// `at` is the first place where the flag is set, or the last place of all where
/// none is.
pub open spec fn first_or_last(flags: Seq<bool>, at: int) -> bool {
    &&& 0 <= at < flags.len()
    &&& flags[at] || at == flags.len() - 1
    &&& forall|i: int| 0 <= i < at ==> !#[trigger] flags[i]
}

/// Finds the first place where the flag is set, or the last place of all.
fn find_first_or_last(flags: &[bool]) -> (at: usize)
    requires
        flags@.len() > 0,
    ensures
        first_or_last(flags@, at as int),
{
    let mut at: usize = 0;
    while at < flags.len() - 1 && !flags[at]
        invariant
            at < flags@.len(),
            forall|i: int| 0 <= i < at ==> !#[trigger] flags@[i],
        decreases flags@.len() - at,
    {
        at += 1;
    }
    at
}

/// The candidates that the nucleus threshold keeps: those up to the first one
/// with which the weights so far reach the threshold, and all of them where none
/// does. The flags say of each candidate whether it is reached there.
pub fn cut_nucleus(candidates: &[usize], reached: &[bool]) -> (kept: Vec<usize>)
    requires
        candidates@.len() > 0,
        reached@.len() == candidates@.len(),
    ensures
        first_or_last(reached@, kept@.len() - 1),
        kept@ == candidates@.take(kept@.len() as int),
{
    let last: usize = find_first_or_last(reached);
    assert(last < reached.len());
    let end: usize = last + 1;
    let mut kept: Vec<usize> = Vec::new();
    let mut i: usize = 0;
    while i < end
        invariant
            i <= end <= candidates@.len(),
            kept@ == candidates@.take(i as int),
        decreases end - i,
    {
        kept.push(candidates[i]);
        i += 1;
        assert(kept@ =~= candidates@.take(i as int));
    }
    kept
}

/// The token that a draw falls on: the first candidate whose weight, taken off the
/// draw after those before it, uses it up, and the last one where none does. The
/// flags say of each candidate whether the draw is used up there.
pub fn drawn_token(candidates: &[usize], used_up: &[bool]) -> (token: u32)
    requires
        candidates@.len() > 0,
        used_up@.len() == candidates@.len(),
    ensures
        is_drawn(candidates@, used_up@, token),
{
    let at: usize = find_first_or_last(used_up);
    candidates[at] as u32
}

/// `token` is the candidate on which the draw falls.
pub open spec fn is_drawn(candidates: Seq<usize>, used_up: Seq<bool>, token: u32) -> bool {
    exists|at: int| #[trigger]
        first_or_last(used_up, at) && at < candidates.len() && candidates[at] as u32 == token
}

/// Only the stop token and tokens from the first code on are ever drawn, whatever
/// the weights are, where the vocabulary has them.
pub proof fn lemma_draw_is_samplable(
    logits: Seq<Single>,
    code_base: Option<u32>,
    sampling: SamplingConfig,
    candidates: Seq<usize>,
    keep: int,
    used_up: Seq<bool>,
    token: u32,
)
    requires
        IM_END_ID < logits.len() <= usize::MAX,
        logits.len() <= u32::MAX + 1,
        first_code(code_base) <= logits.len(),
        is_sample(logits, samplable(logits.len() as int, code_base), sampling, candidates),
        0 < keep <= candidates.len(),
        is_drawn(candidates.take(keep), used_up, token),
    ensures
        token == IM_END_ID || first_code(code_base) <= token < logits.len(),
{
    let ids = samplable(logits.len() as int, code_base);
    let ranked = choose|ranked: Seq<usize>|
        {
            &&& #[trigger] is_ranking(logits, ids, ranked)
            &&& ranked.len() >= 1
            &&& candidates == ranked.take(kept_count(sampling, ranked.len() as int))
        };
    let keys = logit_keys(logits, ids);
    let order = choose|order: Seq<usize>|
        #![trigger ranks(keys, 0, ids.len() as int, order)]
        ranks(keys, 0, ids.len() as int, order) && ranked == order.map_values(
            |p: usize| ids[p as int],
        );
    let at = choose|at: int| #[trigger]
        first_or_last(used_up, at) && at < candidates.take(keep).len() && candidates.take(
            keep,
        )[at] as u32 == token;
    assert(ranked[at] == candidates[at]);
    assert(0 <= order[at] < ids.len());
    assert(ids[order[at] as int] == ranked[at]);
    assert(ranked[at] as u32 == token);
}

/// What a run has to do next.
#[derive(Clone, Copy, Debug, PartialEq, Eq, Structural)]
pub enum RunAction {
    /// Sample a token; so many steps are done.
    Sample(usize),
    /// Stop; so many steps were completed.
    Finish(usize),
}

/// A run of the planner: the codes so far, the steps done, and whether the stop
/// token was sampled.
#[derive(Debug)]
pub struct CodeRun {
    pub codes: Vec<u32>,
    pub steps: usize,
    pub budget: usize,
    pub stopped: bool,
}

/// The codes that the first `n` sampled tokens stand for. Tokens that stand for
/// none are passed over.
pub open spec fn codes_of(tokens: Seq<u32>, token_to_code: Map<u32, u32>, n: int) -> Seq<u32>
    decreases n,
{
    if n <= 0 {
        Seq::empty()
    } else {
        let before = codes_of(tokens, token_to_code, n - 1);
        if token_to_code.contains_key(tokens[n - 1]) {
            before.push(token_to_code[tokens[n - 1]])
        } else {
            before
        }
    }
}

impl CodeRun {
    /// The run has sampled the tokens `tokens`, none of which was the stop token
    /// but the one after them, where it has stopped.
    pub open spec fn follows(&self, tokens: Seq<u32>, maps: CodeMaps) -> bool {
        &&& self.steps == tokens.len()
        &&& self.steps <= self.budget
        &&& self.codes@ == codes_of(tokens, maps.token_to_code, tokens.len() as int)
        &&& !tokens.contains(IM_END_ID)
    }

    /// A run that may sample `budget` tokens.
    pub fn start(budget: usize) -> (run: CodeRun)
        ensures
            run.codes@ == Seq::<u32>::empty(),
            run.steps == 0,
            run.budget == budget,
            !run.stopped,
            forall|maps: CodeMaps| #[trigger] run.follows(Seq::empty(), maps),
    {
        CodeRun { codes: Vec::new(), steps: 0, budget, stopped: false }
    }

    /// What the run has to do next: it ends at the stop token, or with its
    /// budget.
    pub fn action(&self) -> (action: RunAction)
        ensures
            action == (if self.stopped || self.steps >= self.budget {
                RunAction::Finish(self.steps)
            } else {
                RunAction::Sample(self.steps)
            }),
    {
        if self.stopped || self.steps >= self.budget {
            RunAction::Finish(self.steps)
        } else {
            RunAction::Sample(self.steps)
        }
    }

    /// Takes a sampled token: the stop token ends the run, and every other one is
    /// fed back, at the place after the prompt that is the number of steps done
    /// before it; one that stands for a code adds it.
    pub fn accept(&mut self, token: u32, vocab: &AudioCodeVocab) -> (feed: Option<usize>)
        requires
            !old(self).stopped,
            old(self).steps < old(self).budget,
        ensures
            final(self).budget == old(self).budget,
            token == IM_END_ID ==> feed is None && final(self).stopped && final(self).codes@
                == old(self).codes@ && final(self).steps == old(self).steps,
            token != IM_END_ID ==> feed == Some(old(self).steps) && !final(self).stopped
                && final(self).steps == old(self).steps + 1 && final(self).codes@ == (if vocab@
                .token_to_code.contains_key(token) {
                old(self).codes@.push(vocab@.token_to_code[token])
            } else {
                old(self).codes@
            }),
            forall|tokens: Seq<u32>| #[trigger]
                old(self).follows(tokens, vocab@) ==> final(self).follows(
                    if token == IM_END_ID {
                        tokens
                    } else {
                        tokens.push(token)
                    },
                    vocab@,
                ),
    {
        let ghost maps = vocab@;
        let ghost before = *self;
        if token == IM_END_ID {
            self.stopped = true;
            return None;
        }
        let place: usize = self.steps;
        if let Some(code) = vocab.token_id_to_code(token) {
            self.codes.push(code);
        }
        self.steps = place + 1;
        proof {
            assert forall|tokens: Seq<u32>| #[trigger]
                before.follows(tokens, maps) implies self.follows(tokens.push(token), maps) by {
                let all = tokens.push(token);
                lemma_codes_prefix(tokens, all, maps.token_to_code, tokens.len() as int);
                assert(all[all.len() - 1] == token);
                assert(!all.contains(IM_END_ID)) by {
                    if all.contains(IM_END_ID) {
                        let i = choose|i: int| 0 <= i < all.len() && all[i] == IM_END_ID;
                        assert(tokens[i] == IM_END_ID);
                    }
                }
            }
        }
        Some(place)
    }
}

/// The codes of the first tokens depend on those tokens alone.
proof fn lemma_codes_prefix(a: Seq<u32>, b: Seq<u32>, map: Map<u32, u32>, n: int)
    requires
        0 <= n <= a.len(),
        n <= b.len(),
        forall|i: int| 0 <= i < n ==> #[trigger] a[i] == b[i],
    ensures
        codes_of(a, map, n) == codes_of(b, map, n),
    decreases n,
{
    if n > 0 {
        lemma_codes_prefix(a, b, map, n - 1);
    }
}

/// A run emits no more codes than its budget, and only codes of the vocabulary.
pub proof fn lemma_run_is_bounded(run: CodeRun, tokens: Seq<u32>, maps: CodeMaps)
    requires
        run.follows(tokens, maps),
    ensures
        run.codes@.len() <= run.budget,
        forall|i: int|
            0 <= i < run.codes@.len() ==> maps.token_to_code.contains_value(
                #[trigger] run.codes@[i],
            ),
{
    lemma_codes_bounded(tokens, maps.token_to_code, tokens.len() as int);
}

/// Two runs that sampled the same tokens under one vocabulary have the same codes,
/// whatever else their budgets allow.
pub proof fn lemma_run_is_determined(a: CodeRun, b: CodeRun, tokens: Seq<u32>, maps: CodeMaps)
    requires
        a.follows(tokens, maps),
        b.follows(tokens, maps),
    ensures
        a.codes@ == b.codes@,
        a.steps == b.steps,
{
}

proof fn lemma_codes_bounded(tokens: Seq<u32>, map: Map<u32, u32>, n: int)
    requires
        0 <= n <= tokens.len(),
    ensures
        codes_of(tokens, map, n).len() <= n,
        forall|i: int|
            0 <= i < codes_of(tokens, map, n).len() ==> map.contains_value(
                #[trigger] codes_of(tokens, map, n)[i],
            ),
    decreases n,
{
    if n > 0 {
        lemma_codes_bounded(tokens, map, n - 1);
        let before = codes_of(tokens, map, n - 1);
        let all = codes_of(tokens, map, n);
        assert forall|i: int| 0 <= i < all.len() implies map.contains_value(
            #[trigger] all[i],
        ) by {
            if i < before.len() {
                assert(all[i] == before[i]);
            } else {
                assert(map[tokens[n - 1]] == all[i]);
            }
        }
    }
}

} // verus!
