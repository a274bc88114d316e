//! The language model that composes: its extended vocabulary, its prompt, the
//! names of its tensors, and what its tokens stand for.

use vstd::prelude::*;

use crate::single::Single;
use crate::text::{
    chars_of, is_digit, list_texts, listed, owned, same_text, starts_with, string_of, strip_prefix,
    views,
};
use crate::text_to_midi::amt::{events_of, lemma_events_in_range, tokens_to_events, AmtEvent};
use crate::text_to_midi::hf_tokenizer::{outcome, HfTokenizer};
use crate::text_to_midi::midi::{ends_in_range, file_bytes, track, write_midi, TimeSignature, PPQ};

verus! {

/// Start of the music tokens in the extended vocabulary, after the text tokens.
pub const MIDI_TOKEN_START: u32 = 128_256;

/// Number of music tokens that the model is allowed to emit.
pub const MIDI_TOKEN_COUNT: u32 = 55_026;

/// End (exclusive) of the generated music tokens.
pub const MIDI_TOKEN_END: u32 = MIDI_TOKEN_START + MIDI_TOKEN_COUNT;

/// Total size of the extended vocabulary: text tokens, music tokens and four
/// special tokens.
pub const MIDI_VOCAB_SIZE: u32 = 183_286;

/// The token after the text prompt that cues the model to start generating music
/// tokens.
pub const MIDI_BOS_TOKEN: u32 = MIDI_TOKEN_START + 55_026;

/// What comes before the description in a prompt.
pub const SYSTEM_PROMPT: &'static str =
    "You are a world-class composer. Please compose some music according to the following description: ";

/// The repository that the model is fetched from.
pub const MIDI_LLM_REPO_ID: &'static str = "slseanwu/MIDI-LLM_Llama-3.2-1B";

/// Name of the tokenizer file.
pub const TOKENIZER_FILENAME: &'static str = "tokenizer.json";

/// Name of the checkpoint file.
pub const SAFETENSORS_FILENAME: &'static str = "model.safetensors";

/// Name of the configuration file.
pub const CONFIG_FILENAME: &'static str = "config.json";

/// Generation parameters.
#[derive(Clone, Debug)]
pub struct MidiLlmConfig {
    /// Path to the `tokenizer.json` file.
    pub tokenizer_path: String,
    /// Path to the `model.safetensors` checkpoint.
    pub checkpoint_path: String,
    /// Maximum number of music tokens to generate.
    pub max_tokens: usize,
    /// Sampling temperature.
    pub temperature: Single,
    /// Nucleus sampling threshold.
    pub top_p: Single,
    /// Seed of the sampler.
    pub seed: u64,
    /// Maximum number of tokens that the model attends to.
    pub max_seq_len: usize,
}

impl Default for MidiLlmConfig {
    /// No paths, 1024 tokens, temperature 1, top-p 0.98, seed 0, 4096 positions.
    fn default() -> (config: MidiLlmConfig)
        ensures
            config.tokenizer_path@ == Seq::<char>::empty(),
            config.checkpoint_path@ == Seq::<char>::empty(),
            config.max_tokens == 1024,
            config.temperature.bits == 0x3f80_0000,
            config.top_p.bits == 0x3f7a_e148,
            config.seed == 0,
            config.max_seq_len == 4096,
    {
        MidiLlmConfig {
            tokenizer_path: String::new(),
            checkpoint_path: String::new(),
            max_tokens: 1024,
            temperature: Single { bits: 0x3f80_0000 },
            top_p: Single { bits: 0x3f7a_e148 },
            seed: 0,
            max_seq_len: 4096,
        }
    }
}

/// A file of a model directory that is not there.
#[derive(Clone, Copy, Debug, PartialEq, Eq, Structural)]
pub enum MissingFile {
    Tokenizer,
    Checkpoint,
}

impl MissingFile {
    /// What is said of the missing file.
    pub open spec fn text(self) -> Seq<char> {
        match self {
            MissingFile::Tokenizer => "missing tokenizer file "@,
            MissingFile::Checkpoint => "missing checkpoint file "@,
        }
    }

    /// What is said of the missing file at a path.
    pub fn message(self, path: &str) -> (message: String)
        ensures
            message@ == self.text() + path@,
    {
        let mut message = match self {
            MissingFile::Tokenizer => owned("missing tokenizer file "),
            MissingFile::Checkpoint => owned("missing checkpoint file "),
        };
        message.append(path);
        message
    }
}

/// Whether a model directory has both files, given whether each is there. Of two
/// missing ones the tokenizer is told.
pub fn check_model_files(tokenizer: bool, checkpoint: bool) -> (r: Result<(), MissingFile>)
    ensures
        r is Ok <==> tokenizer && checkpoint,
        r is Err ==> r->Err_0 == (if !tokenizer {
            MissingFile::Tokenizer
        } else {
            MissingFile::Checkpoint
        }),
{
    if !tokenizer {
        Err(MissingFile::Tokenizer)
    } else if !checkpoint {
        Err(MissingFile::Checkpoint)
    } else {
        Ok(())
    }
}

/// Configuration of the language model.
#[derive(Clone, Debug)]
pub struct MidiLlamaConfig {
    pub hidden_size: usize,
    pub vocab_size: usize,
    pub tokenizer: String,
    pub d_model: usize,
    pub num_hidden_layers: usize,
    pub num_attention_heads: usize,
    pub num_key_value_heads: Option<usize>,
    /// The bits of a double-precision number.
    pub norm_eps: u64,
    pub rope_theta: Single,
    pub rope_scale_factor: Single,
    pub max_seq_len: usize,
}

/// The Llama 3.2 1B configuration with the extended vocabulary.
pub fn midi_llama_config(config: &MidiLlmConfig) -> (llama: MidiLlamaConfig)
    ensures
        llama.hidden_size == 8192,
        llama.vocab_size == MIDI_VOCAB_SIZE,
        llama.tokenizer@ == config.tokenizer_path@,
        llama.d_model == 2048,
        llama.num_hidden_layers == 16,
        llama.num_attention_heads == 32,
        llama.num_key_value_heads == Some(8usize),
        llama.norm_eps == 0x3ee4_f8b5_88e3_68f1,
        llama.rope_theta.bits == 0x48f4_2400,
        llama.rope_scale_factor.bits == 0x4200_0000,
        llama.max_seq_len == config.max_seq_len,
{
    MidiLlamaConfig {
        hidden_size: 8192,
        vocab_size: MIDI_VOCAB_SIZE as usize,
        tokenizer: owned(config.tokenizer_path.as_str()),
        d_model: 2048,
        num_hidden_layers: 16,
        num_attention_heads: 32,
        num_key_value_heads: Some(8),
        norm_eps: 0x3ee4_f8b5_88e3_68f1,
        rope_theta: Single { bits: 0x48f4_2400 },
        rope_scale_factor: Single { bits: 0x4200_0000 },
        max_seq_len: config.max_seq_len,
    }
}

/// `tail` is something on one line.
pub open spec fn is_tail(tail: Seq<char>) -> bool {
    tail.len() > 0 && !tail.contains('\n')
}

/// `name` with `head` at its front replaced by `new`, where something on one line
/// follows it.
pub open spec fn moved(name: Seq<char>, head: Seq<char>, new: Seq<char>) -> Option<Seq<char>> {
    if starts_with(name, head) && is_tail(name.skip(head.len() as int)) {
        Some(new + name.skip(head.len() as int))
    } else {
        None
    }
}

/// The first of two names that is there.
pub open spec fn either(first: Option<Seq<char>>, second: Option<Seq<char>>) -> Option<Seq<char>> {
    if first is Some {
        first
    } else {
        second
    }
}

/// A name, where it is an expected one.
pub open spec fn swapped(name: Seq<char>, old_name: Seq<char>, new: Seq<char>) -> Option<Seq<char>> {
    if name == old_name {
        Some(new)
    } else {
        None
    }
}

/// The new name of a tensor within a layer; nothing for one that keeps its name.
pub open spec fn layer_part(name: Seq<char>) -> Option<Seq<char>> {
    either(
        swapped(name, "input_layernorm.weight"@, "attention_norm.gamma"@),
        either(
            swapped(name, "post_attention_layernorm.weight"@, "ffn_norm.gamma"@),
            either(
                moved(name, "self_attn.q_proj."@, "attention.wq."@),
                either(
                    moved(name, "self_attn.k_proj."@, "attention.wk."@),
                    either(
                        moved(name, "self_attn.v_proj."@, "attention.wv."@),
                        either(
                            moved(name, "self_attn.o_proj."@, "attention.wo."@),
                            either(
                                moved(
                                    name,
                                    "mlp.gate_proj."@,
                                    "feed_forward.swiglu.linear_inner."@,
                                ),
                                either(
                                    moved(
                                        name,
                                        "mlp.up_proj."@,
                                        "feed_forward.swiglu.linear_outer."@,
                                    ),
                                    moved(name, "mlp.down_proj."@, "feed_forward.w2."@),
                                ),
                            ),
                        ),
                    ),
                ),
            ),
        ),
    )
}

/// How many digits a text begins with.
pub open spec fn leading_digits(text: Seq<char>) -> int
    decreases text.len(),
{
    if text.len() > 0 && is_digit(text[0]) {
        1 + leading_digits(text.skip(1))
    } else {
        0
    }
}

/// The new name of a tensor of a layer, from what follows the name of the layers:
/// the number of the layer, and its name within the layer.
pub open spec fn layer_name(rest: Seq<char>) -> Option<Seq<char>> {
    let n = leading_digits(rest);
    if 0 < n < rest.len() && rest[n] == '.' {
        match layer_part(rest.skip(n + 1)) {
            Some(part) => Some("layers."@ + rest.take(n + 1) + part),
            None => None,
        }
    } else {
        None
    }
}

/// The name that the model has for a tensor of the checkpoint. Names that no rule
/// is for stay as they are.
pub open spec fn remapped(name: Seq<char>) -> Seq<char> {
    let renamed = either(
        moved(name, "model.embed_tokens."@, "tok_embeddings."@),
        either(
            moved(name, "lm_head."@, "output."@),
            either(
                swapped(name, "model.norm.weight"@, "norm.gamma"@),
                if starts_with(name, "model.layers."@) {
                    layer_name(name.skip("model.layers."@.len() as int))
                } else {
                    None
                },
            ),
        ),
    );
    match renamed {
        Some(renamed) => renamed,
        None => name,
    }
}

/// A name that was computed.
pub open spec fn optional_view(name: Option<String>) -> Option<Seq<char>> {
    match name {
        Some(name) => Some(name@),
        None => None,
    }
}

/// Whether something on one line is left.
fn check_tail(tail: &str) -> (answer: bool)
    ensures
        answer == is_tail(tail@),
{
    let chars = chars_of(tail);
    let mut i: usize = 0;
    while i < chars.len()
        invariant
            i <= chars@.len(),
            chars@ == tail@,
            forall|k: int| 0 <= k < i ==> #[trigger] chars@[k] != '\n',
        decreases chars@.len() - i,
    {
        if chars[i] == '\n' {
            assert(tail@.contains('\n'));
            return false;
        }
        i += 1;
    }
    chars.len() > 0
}

/// Replaces `head` at the front of a name, where something on one line follows.
fn move_name(name: &str, head: &str, new: &str) -> (renamed: Option<String>)
    ensures
        optional_view(renamed) == moved(name@, head@, new@),
{
    match strip_prefix(name, head) {
        Some(rest) => {
            if check_tail(rest.as_str()) {
                let mut renamed = owned(new);
                renamed.append(rest.as_str());
                Some(renamed)
            } else {
                None
            }
        },
        None => None,
    }
}

/// Replaces an expected name.
fn swap_name(name: &str, old_name: &str, new: &str) -> (renamed: Option<String>)
    ensures
        optional_view(renamed) == swapped(name@, old_name@, new@),
{
    if same_text(name, old_name) {
        Some(owned(new))
    } else {
        None
    }
}

/// The new name of a tensor within a layer.
fn rename_part(name: &str) -> (renamed: Option<String>)
    ensures
        optional_view(renamed) == layer_part(name@),
{
    let renamed = swap_name(name, "input_layernorm.weight", "attention_norm.gamma");
    if renamed.is_some() {
        return renamed;
    }
    let renamed = swap_name(name, "post_attention_layernorm.weight", "ffn_norm.gamma");
    if renamed.is_some() {
        return renamed;
    }
    let renamed = move_name(name, "self_attn.q_proj.", "attention.wq.");
    if renamed.is_some() {
        return renamed;
    }
    let renamed = move_name(name, "self_attn.k_proj.", "attention.wk.");
    if renamed.is_some() {
        return renamed;
    }
    let renamed = move_name(name, "self_attn.v_proj.", "attention.wv.");
    if renamed.is_some() {
        return renamed;
    }
    let renamed = move_name(name, "self_attn.o_proj.", "attention.wo.");
    if renamed.is_some() {
        return renamed;
    }
    let renamed = move_name(name, "mlp.gate_proj.", "feed_forward.swiglu.linear_inner.");
    if renamed.is_some() {
        return renamed;
    }
    let renamed = move_name(name, "mlp.up_proj.", "feed_forward.swiglu.linear_outer.");
    if renamed.is_some() {
        return renamed;
    }
    move_name(name, "mlp.down_proj.", "feed_forward.w2.")
}

/// How many digits a text begins with.
fn count_digits(chars: &Vec<char>) -> (n: usize)
    ensures
        n == leading_digits(chars@),
        n <= chars@.len(),
{
    let mut n: usize = 0;
    assert(chars@.skip(0) =~= chars@);
    while n < chars.len() && chars[n] >= '0' && chars[n] <= '9'
        invariant
            n <= chars@.len(),
            leading_digits(chars@) == n + leading_digits(chars@.skip(n as int)),
        decreases chars@.len() - n,
    {
        assert(chars@.skip(n as int).skip(1) =~= chars@.skip(n + 1));
        n += 1;
    }
    n
}

/// The new name of a tensor of a layer.
fn rename_layer(rest: &str) -> (renamed: Option<String>)
    ensures
        optional_view(renamed) == layer_name(rest@),
{
    let chars = chars_of(rest);
    let count: usize = chars.len();
    let n: usize = count_digits(&chars);
    if n == 0 || n >= count || chars[n] != '.' {
        return None;
    }
    let number = string_of(vstd::slice::slice_subrange(chars.as_slice(), 0, n + 1));
    let within = string_of(vstd::slice::slice_subrange(chars.as_slice(), n + 1, count));
    assert(number@ =~= rest@.take(n + 1));
    assert(within@ =~= rest@.skip(n + 1));
    match rename_part(within.as_str()) {
        Some(part) => {
            let mut renamed = owned("layers.");
            renamed.append(number.as_str());
            renamed.append(part.as_str());
            Some(renamed)
        },
        None => None,
    }
}

/// The name that the model has for a tensor of the checkpoint.
pub fn remap_name(name: &str) -> (renamed: String)
    ensures
        renamed@ == remapped(name@),
{
    if let Some(renamed) = move_name(name, "model.embed_tokens.", "tok_embeddings.") {
        return renamed;
    }
    if let Some(renamed) = move_name(name, "lm_head.", "output.") {
        return renamed;
    }
    if let Some(renamed) = swap_name(name, "model.norm.weight", "norm.gamma") {
        return renamed;
    }
    if let Some(rest) = strip_prefix(name, "model.layers.") {
        if let Some(renamed) = rename_layer(rest.as_str()) {
            return renamed;
        }
    }
    owned(name)
}

/// A text with another character at some place does not start with `head`.
proof fn lemma_no_start(text: Seq<char>, head: Seq<char>, i: int)
    requires
        0 <= i < head.len(),
        i < text.len(),
        text[i] != head[i],
    ensures
        !starts_with(text, head),
{
    if starts_with(text, head) {
        assert(text.take(head.len() as int)[i] == head[i]);
    }
}

/// A name of the model is not renamed again: the order in which the rules are
/// applied does not matter.
pub proof fn lemma_remap_settles(name: Seq<char>)
    ensures
        remapped(remapped(name)) == remapped(name),
{
    let new = remapped(name);
    reveal_strlit("model.embed_tokens.");
    reveal_strlit("lm_head.");
    reveal_strlit("model.norm.weight");
    reveal_strlit("model.layers.");
    reveal_strlit("tok_embeddings.");
    reveal_strlit("output.");
    reveal_strlit("norm.gamma");
    reveal_strlit("layers.");
    if new != name {
        assert(new.len() >= 2);
        assert(new[0] == 't' || new[0] == 'o' || new[0] == 'n' || (new[0] == 'l' && new[1] == 'a'));
        lemma_no_start(new, "model.embed_tokens."@, 0);
        lemma_no_start(new, "model.layers."@, 0);
        if new[0] == 'l' {
            lemma_no_start(new, "lm_head."@, 1);
        } else {
            lemma_no_start(new, "lm_head."@, 0);
        }
        assert("model.norm.weight"@[0] == 'm');
    }
}

/// What is said of a checkpoint that lacks tensors.
pub fn missing_tensors_message(missing: &Vec<String>) -> (message: String)
    ensures
        message@ == "MIDI-LLM checkpoint is missing required tensors: "@ + listed(views(missing@)),
{
    let mut message = owned("MIDI-LLM checkpoint is missing required tensors: ");
    message.append(list_texts(missing).as_str());
    message
}

/// The text prompt for a description.
pub fn text_prompt(prompt: &str) -> (text: String)
    ensures
        text@ == SYSTEM_PROMPT@ + prompt@ + " "@,
{
    let mut text = owned(SYSTEM_PROMPT);
    text.append(prompt);
    text.append(" ");
    text
}

/// The tokens are what the tokenizer may give for a text, with the mark of the
/// beginning, and the cue after it; nothing where it gives nothing.
pub open spec fn is_cued(
    tokenizer: HfTokenizer,
    text: Seq<char>,
    tokens: Option<Seq<u32>>,
) -> bool {
    exists|begun: Option<Seq<u32>>| #[trigger]
        tokenizer.may_give(text, true, false, begun) && tokens == (match begun {
            Some(ids) => Some(ids.push(MIDI_BOS_TOKEN)),
            None => None,
        })
}

/// The tokens that the model is given for a description: those of the text prompt,
/// with the mark of the beginning, and the cue; nothing where the text cannot be
/// encoded.
pub fn prompt_tokens(tokenizer: &HfTokenizer, prompt: &str) -> (tokens: Option<Vec<u32>>)
    ensures
        is_cued(*tokenizer, SYSTEM_PROMPT@ + prompt@ + " "@, outcome(tokens)),
{
    let text = text_prompt(prompt);
    let begun = tokenizer.encode(text.as_str(), true, false);
    assert(tokenizer.may_give(text@, true, false, outcome(begun)));
    match begun {
        Some(ids) => {
            let mut tokens = ids;
            tokens.push(MIDI_BOS_TOKEN);
            Some(tokens)
        },
        None => None,
    }
}

/// For each token of a vocabulary of `end` tokens, whether it comes before the
/// allowed ones, which begin at `start`.
pub fn build_disallowed_mask(start: u32, end: u32) -> (mask: Vec<bool>)
    ensures
        mask@ == Seq::new(end as nat, |i: int| i < start),
{
    let mut mask: Vec<bool> = Vec::new();
    let mut i: u32 = 0;
    while i < end
        invariant
            i <= end,
            mask@ == Seq::new(i as nat, |k: int| k < start),
        decreases end - i,
    {
        mask.push(i < start);
        i += 1;
        assert(mask@ =~= Seq::new(i as nat, |k: int| k < start));
    }
    mask
}

/// The music token that a token of the extended vocabulary is. One before the music
/// tokens stands for the first of them.
pub open spec fn music_token(token: u32) -> u32 {
    if token >= MIDI_TOKEN_START {
        (token - MIDI_TOKEN_START) as u32
    } else {
        0
    }
}

/// The music tokens of generated ones.
pub fn music_tokens(generated: &[u32]) -> (tokens: Vec<u32>)
    ensures
        tokens@ == generated@.map_values(|token: u32| music_token(token)),
{
    let mut tokens: Vec<u32> = Vec::new();
    let mut i: usize = 0;
    while i < generated.len()
        invariant
            i <= generated@.len(),
            tokens@ == generated@.take(i as int).map_values(|token: u32| music_token(token)),
        decreases generated@.len() - i,
    {
        tokens.push(generated[i].saturating_sub(MIDI_TOKEN_START));
        i += 1;
        assert(tokens@ =~= generated@.take(i as int).map_values(
            |token: u32| music_token(token),
        ));
    }
    assert(generated@.take(i as int) =~= generated@);
    tokens
}

/// The events of generated tokens.
pub open spec fn generated_events(generated: Seq<u32>) -> Seq<AmtEvent> {
    events_of(
        generated.map_values(|token: u32| music_token(token)),
        generated.len() as int / 3,
    )
}

/// The bytes of a MIDI file with the events of generated tokens.
pub fn midi_file_of(
    generated: &[u32],
    bpm: Single,
    time_signature: Option<TimeSignature>,
) -> (bytes: Option<Vec<u8>>)
    ensures
        match file_bytes(
            seq![track(generated_events(generated@), bpm, time_signature)],
            seq![0u16, PPQ],
        ) {
            Some(written) => bytes is Some && bytes->0@ == written,
            None => bytes is None,
        },
{
    let tokens = music_tokens(generated);
    let events = tokens_to_events(tokens.as_slice());
    proof {
        lemma_events_in_range(tokens@, tokens@.len() as int / 3);
        assert(ends_in_range(events@));
    }
    write_midi(events.as_slice(), bpm, time_signature)
}

} // verus!
