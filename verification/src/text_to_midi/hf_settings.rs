//! The settings in the text of a `tokenizer.json`, and which of them the
//! `tokenizers` crate can use on every text.

use vstd::prelude::*;

use crate::json::{
    flag, found_text, items, json_flag, json_items, json_member, json_number, json_says,
    json_string, json_under, json_values, member, number, says, string, under, value_text,
    value_texts, values,
};
use crate::text::{chars_of, has_prefix, pieces, split, starts_with, views};
use crate::token_limits::{check_tokens, tokens_fit};

verus! {

/// The value has parts of its own: it is an object or a list.
pub open spec fn has_parts(value: Seq<char>) -> bool {
    json_values(value) is Some || json_items(value) is Some
}

/// The right half of a merge starts with the prefix of the continuations: in a pair
/// of texts, or in one text around a space.
pub open spec fn continues(merge: Seq<char>, prefix: Seq<char>) -> bool {
    match json_items(merge) {
        Some(pair) => pair.len() == 2 ==> match json_string(pair[1]) {
            Some(right) => starts_with(right, prefix),
            None => true,
        },
        None => match json_string(merge) {
            Some(text) => pieces(text, ' ').len() == 2 ==> starts_with(
                pieces(text, ' ')[1],
                prefix,
            ),
            None => true,
        },
    }
}

/// Where continuations have a prefix, every merge keeps to it.
pub open spec fn merges_fit(value: Seq<char>) -> bool {
    let model = json_member(value, "model"@);
    let prefix = json_under(model, "continuing_subword_prefix"@);
    let merges = json_under(model, "merges"@);
    if prefix is Some && json_string(prefix->0) is Some && merges is Some && json_items(
        merges->0,
    ) is Some {
        forall|i: int|
            0 <= i < json_items(merges->0)->0.len() ==> continues(
                #[trigger] json_items(merges->0)->0[i],
                json_string(prefix->0)->0,
            )
    } else {
        true
    }
}

/// Texts are cut to a length, where one is given, with an overlap that is shorter.
pub open spec fn cut_fits(value: Seq<char>) -> bool {
    match json_member(value, "truncation"@) {
        Some(cut) => has_parts(cut) ==> {
            let length = json_under(Some(cut), "max_length"@);
            let overlap = json_under(Some(cut), "stride"@);
            &&& json_items(cut) is None
            &&& length is Some && json_number(length->0) is Some
            &&& overlap is Some && json_number(overlap->0) is Some
            &&& json_number(overlap->0)->0 < json_number(length->0)->0
        },
        None => true,
    }
}

/// A single text is not padded.
pub open spec fn is_unpadded(value: Seq<char>) -> bool {
    match json_member(value, "padding"@) {
        Some(padding) => has_parts(padding) ==> {
            let multiple = json_under(Some(padding), "pad_to_multiple_of"@);
            &&& json_items(padding) is None
            &&& json_says(json_under(Some(padding), "strategy"@), "BatchLongest"@)
            &&& multiple is Some ==> json_number(multiple->0) is None
        },
        None => true,
    }
}

/// A token that is added takes the spaces on that side of it with it.
pub open spec fn takes_spaces(token: Seq<char>, side: Seq<char>) -> bool {
    json_member(token, side) matches Some(found) && json_flag(found) == Some(true)
}

/// No token that takes the spaces on its left, and leaves those on its right, can stand
/// among spaces that another has taken.
pub open spec fn spaces_fit(value: Seq<char>) -> bool {
    let added = json_member(value, "added_tokens"@);
    added is Some && json_items(added->0) is Some ==> {
        let tokens = json_items(added->0)->0;
        ||| forall|i: int|
            0 <= i < tokens.len() ==> !takes_spaces(#[trigger] tokens[i], "rstrip"@)
        ||| forall|i: int|
            0 <= i < tokens.len() && takes_spaces(#[trigger] tokens[i], "lstrip"@)
                ==> takes_spaces(tokens[i], "rstrip"@)
    }
}

/// A part of a tokenizer that takes one step, or several in a row.
#[derive(Clone, Copy, Debug, PartialEq, Eq, Structural)]
pub enum Part {
    Normalizer,
    PreTokenizer,
    PostProcessor,
    Decoder,
}

impl Part {
    /// The key of the part.
    pub open spec fn key(self) -> Seq<char> {
        match self {
            Part::Normalizer => "normalizer"@,
            Part::PreTokenizer => "pre_tokenizer"@,
            Part::PostProcessor => "post_processor"@,
            Part::Decoder => "decoder"@,
        }
    }

    /// The key of the steps of a part that takes several.
    pub open spec fn steps_key(self) -> Seq<char> {
        match self {
            Part::Normalizer => "normalizers"@,
            Part::PreTokenizer => "pretokenizers"@,
            Part::PostProcessor => "processors"@,
            Part::Decoder => "decoders"@,
        }
    }

    /// Finds the key of the part.
    fn name(self) -> (key: &'static str)
        ensures
            key@ == self.key(),
    {
        match self {
            Part::Normalizer => "normalizer",
            Part::PreTokenizer => "pre_tokenizer",
            Part::PostProcessor => "post_processor",
            Part::Decoder => "decoder",
        }
    }

    /// Finds the key of the steps of a part that takes several.
    fn steps_name(self) -> (key: &'static str)
        ensures
            key@ == self.steps_key(),
    {
        match self {
            Part::Normalizer => "normalizers",
            Part::PreTokenizer => "pretokenizers",
            Part::PostProcessor => "processors",
            Part::Decoder => "decoders",
        }
    }
}

/// The piece of a template is the text itself.
pub open spec fn is_text_piece(piece: Seq<char>) -> bool {
    json_says(json_under(json_member(piece, "Sequence"@), "id"@), "A"@)
}

/// The piece of a template is no text.
pub open spec fn is_mark_piece(piece: Seq<char>) -> bool {
    json_member(piece, "Sequence"@) is None
}

/// A template for a single text holds it once, among marks.
pub open spec fn holds_text_once(pieces: Seq<Seq<char>>) -> bool {
    exists|at: int|
        0 <= at < pieces.len() && #[trigger] is_text_piece(pieces[at]) && forall|i: int|
            0 <= i < pieces.len() && i != at ==> is_mark_piece(#[trigger] pieces[i])
}

/// The steps that a part may take in a row.
pub const MOST_STEPS: usize = 8;

/// The pattern by which the tokenizers of Llama 3 split a text.
pub const LLAMA_SPLIT: &'static str =
    "(?i:'s|'t|'re|'ve|'m|'ll|'d)|[^\\r\\n\\p{L}\\p{N}]?\\p{L}+|\\p{N}{1,3}| ?[^\\s\\p{L}\\p{N}]+[\\r\\n]*|\\s*[\\r\\n]+|\\s+(?!\\S)|\\s+";

/// The pattern by which the tokenizers of Qwen split a text.
pub const QWEN_SPLIT: &'static str =
    "(?i:'s|'t|'re|'ve|'m|'ll|'d)|[^\\r\\n\\p{L}\\p{N}]?\\p{L}+|\\p{N}| ?[^\\s\\p{L}\\p{N}]+[\\r\\n]*|\\s*[\\r\\n]+|\\s+(?!\\S)|\\s+";

/// The pattern by which the tokenizers of GPT-2 split a text.
pub const GPT_SPLIT: &'static str =
    "'s|'t|'re|'ve|'m|'ll|'d| ?\\p{L}+| ?\\p{N}+| ?[^\\s\\p{L}\\p{N}]+|\\s+(?!\\S)|\\s+";

/// The pattern is a text that stands for itself.
pub open spec fn is_literal(pattern: Seq<char>) -> bool {
    let text = json_member(pattern, "String"@);
    &&& json_member(pattern, "Regex"@) is None
    &&& text is Some && json_string(text->0) is Some && json_string(text->0)->0.len() > 0
}

/// The pattern is one that looks at no character more than a few times.
pub open spec fn is_known(pattern: Seq<char>) -> bool {
    let written = json_member(pattern, "Regex"@);
    json_says(written, LLAMA_SPLIT@) || json_says(written, QWEN_SPLIT@) || json_says(
        written,
        GPT_SPLIT@,
    )
}

/// There is a text of no more than one character, and of no less than `least`.
pub open spec fn is_one_char(value: Option<Seq<char>>, least: int) -> bool {
    value is Some && json_string(value->0) is Some && least <= json_string(value->0)->0.len() <= 1
}

/// A step that turns a text into one that is empty only where the text is, and not much
/// longer than it: a normal form, lower case, a character in front, or a character
/// in the place of a text.
pub open spec fn keeps_text(step: Seq<char>) -> bool {
    let kind = json_member(step, "type"@);
    let pattern = json_member(step, "pattern"@);
    ||| json_says(kind, "NFC"@)
    ||| json_says(kind, "NFD"@)
    ||| json_says(kind, "NFKC"@)
    ||| json_says(kind, "NFKD"@)
    ||| json_says(kind, "Lowercase"@)
    ||| json_says(kind, "Prepend"@) && is_one_char(json_member(step, "prepend"@), 1)
    ||| json_says(kind, "Replace"@) && pattern is Some && is_literal(pattern->0) && is_one_char(
        json_member(step, "content"@),
        1,
    )
    ||| json_says(kind, "Sequence"@)
}

/// A step that splits a text: into pieces of some length, and by a text or by a
/// pattern that is known.
pub open spec fn splits_text(step: Seq<char>) -> bool {
    &&& json_member(step, "length"@) matches Some(length) ==> json_number(length) != Some(0u64)
    &&& json_member(step, "pattern"@) matches Some(pattern) ==> is_literal(pattern) || is_known(
        pattern,
    )
}

/// A step that frames a text: the text stands in it once.
pub open spec fn frames_text(step: Seq<char>) -> bool {
    json_member(step, "single"@) matches Some(single) ==> json_items(single) is Some
        && holds_text_once(json_items(single)->0)
}

/// A step that joins tokens: it needs no last token, takes nothing off an end, puts
/// nothing between characters, and replaces texts only, by one character or none.
pub open spec fn joins_tokens(step: Seq<char>) -> bool {
    &&& json_member(step, "suffix"@) is None
    &&& json_member(step, "word_delimiter_token"@) is None
    &&& !json_says(json_member(step, "type"@), "BPEDecoder"@)
    &&& !json_says(json_member(step, "type"@), "CTC"@)
    &&& json_member(step, "stop"@) matches Some(stop) ==> json_number(stop) == Some(0u64)
    &&& json_member(step, "pattern"@) matches Some(pattern) ==> is_literal(pattern)
        && is_one_char(json_member(step, "content"@), 0)
}

/// The settings of a step hold nothing that fails on some texts.
pub open spec fn is_clean(part: Part, step: Seq<char>) -> bool {
    json_values(step) is Some && match part {
        Part::Normalizer => keeps_text(step),
        Part::PreTokenizer => splits_text(step),
        Part::PostProcessor => frames_text(step),
        Part::Decoder => joins_tokens(step),
    }
}

/// A text is not taken for bytes twice.
pub open spec fn takes_bytes_once(steps: Seq<Seq<char>>) -> bool {
    forall|i: int, j: int|
        0 <= i < j < steps.len() ==> !(json_says(
            json_member(#[trigger] steps[i], "type"@),
            "ByteLevel"@,
        ) && json_says(json_member(#[trigger] steps[j], "type"@), "ByteLevel"@))
}

/// A few clean steps in a row.
pub open spec fn are_steps(part: Part, steps: Seq<Seq<char>>) -> bool {
    &&& steps.len() <= MOST_STEPS
    &&& takes_bytes_once(steps)
    &&& forall|i: int| 0 <= i < steps.len() ==> is_step(part, #[trigger] steps[i])
}

/// One clean step.
pub open spec fn is_step(part: Part, step: Seq<char>) -> bool {
    is_clean(part, step) && json_member(step, part.steps_key()) is None
}

/// A part takes one clean step, several, or none.
pub open spec fn part_fits(part: Part, value: Seq<char>) -> bool {
    match json_member(value, part.key()) {
        Some(found) => has_parts(found) ==> is_clean(part, found) && match json_member(
            found,
            part.steps_key(),
        ) {
            Some(steps) => json_items(steps) is Some && are_steps(part, json_items(steps)->0),
            None => true,
        },
        None => true,
    }
}

/// The value is that of a tokenizer that can be used, or of none.
pub open spec fn is_usable(value: Seq<char>) -> bool {
    &&& tokens_fit(value)
    &&& merges_fit(value)
    &&& cut_fits(value)
    &&& is_unpadded(value)
    &&& spaces_fit(value)
    &&& part_fits(Part::Normalizer, value)
    &&& part_fits(Part::PreTokenizer, value)
    &&& part_fits(Part::PostProcessor, value)
    &&& part_fits(Part::Decoder, value)
}

/// Whether a value has parts of its own.
fn check_parts(value: &serde_json::Value) -> (answer: bool)
    ensures
        answer == has_parts(value_text(*value)),
{
    values(value).is_some() || items(value).is_some()
}

/// Whether the right half of a merge starts with the prefix.
fn check_merge(merge: &serde_json::Value, prefix: &str) -> (fits: bool)
    ensures
        fits == continues(value_text(*merge), prefix@),
{
    match items(merge) {
        Some(pair) => {
            if pair.len() != 2 {
                return true;
            }
            assert(value_texts(pair@)[1] == value_text(pair@[1]));
            match string(&pair[1]) {
                Some(right) => has_prefix(right, prefix),
                None => true,
            }
        },
        None => match string(merge) {
            Some(text) => {
                let halves = split(text, ' ');
                assert(views(halves@).len() == halves@.len());
                if halves.len() != 2 {
                    return true;
                }
                assert(views(halves@)[1] == halves@[1]@);
                has_prefix(halves[1].as_str(), prefix)
            },
            None => true,
        },
    }
}

/// Whether every merge keeps to the prefix.
fn check_all_merges(merges: &Vec<serde_json::Value>, prefix: &str) -> (answer: bool)
    ensures
        answer == (forall|k: int|
            0 <= k < value_texts(merges@).len() ==> continues(
                #[trigger] value_texts(merges@)[k],
                prefix@,
            )),
{
    let ghost all = value_texts(merges@);
    let mut i: usize = 0;
    while i < merges.len()
        invariant
            i <= merges@.len(),
            all == value_texts(merges@),
            forall|k: int| 0 <= k < i ==> continues(#[trigger] all[k], prefix@),
        decreases merges@.len() - i,
    {
        assert(all[i as int] == value_text(merges@[i as int]));
        if !check_merge(&merges[i], prefix) {
            assert(!continues(all[i as int], prefix@));
            return false;
        }
        i += 1;
    }
    true
}

/// Whether every merge keeps to the prefix of the continuations.
fn check_merges(value: &serde_json::Value) -> (fits: bool)
    ensures
        fits == merges_fit(value_text(*value)),
{
    let model = member(value, "model");
    let prefix = match under(model, "continuing_subword_prefix") {
        Some(found) => match string(found) {
            Some(prefix) => prefix,
            None => {
                return true;
            },
        },
        None => {
            return true;
        },
    };
    let merges = match under(model, "merges") {
        Some(found) => match items(found) {
            Some(merges) => merges,
            None => {
                return true;
            },
        },
        None => {
            return true;
        },
    };
    check_all_merges(merges, prefix)
}

/// Whether texts are cut with an overlap that is shorter than what is left.
fn check_truncation(value: &serde_json::Value) -> (fits: bool)
    ensures
        fits == cut_fits(value_text(*value)),
{
    let cut = match member(value, "truncation") {
        Some(cut) => cut,
        None => {
            return true;
        },
    };
    if !check_parts(cut) {
        return true;
    }
    if items(cut).is_some() {
        return false;
    }
    match (under(Some(cut), "max_length"), under(Some(cut), "stride")) {
        (Some(length), Some(overlap)) => match (number(length), number(overlap)) {
            (Some(length), Some(overlap)) => overlap < length,
            _ => false,
        },
        _ => false,
    }
}

/// Whether a single text is not padded.
fn check_padding(value: &serde_json::Value) -> (fits: bool)
    ensures
        fits == is_unpadded(value_text(*value)),
{
    let padding = match member(value, "padding") {
        Some(padding) => padding,
        None => {
            return true;
        },
    };
    if !check_parts(padding) {
        return true;
    }
    if items(padding).is_some() || !says(under(Some(padding), "strategy"), "BatchLongest") {
        return false;
    }
    match under(Some(padding), "pad_to_multiple_of") {
        Some(multiple) => number(multiple).is_none(),
        None => true,
    }
}

/// Whether a token takes the spaces on a side of it.
fn check_side(token: &serde_json::Value, side: &str) -> (takes: bool)
    ensures
        takes == takes_spaces(value_text(*token), side@),
{
    match member(token, side) {
        Some(found) => match flag(found) {
            Some(set) => set,
            None => false,
        },
        None => false,
    }
}

/// Whether no token takes the spaces on its right.
fn check_no_right(tokens: &Vec<serde_json::Value>) -> (answer: bool)
    ensures
        answer == (forall|i: int|
            0 <= i < value_texts(tokens@).len() ==> !takes_spaces(
                #[trigger] value_texts(tokens@)[i],
                "rstrip"@,
            )),
{
    let ghost all = value_texts(tokens@);
    let mut i: usize = 0;
    while i < tokens.len()
        invariant
            i <= tokens@.len(),
            all == value_texts(tokens@),
            forall|k: int| 0 <= k < i ==> !takes_spaces(#[trigger] all[k], "rstrip"@),
        decreases tokens@.len() - i,
    {
        assert(all[i as int] == value_text(tokens@[i as int]));
        if check_side(&tokens[i], "rstrip") {
            assert(takes_spaces(all[i as int], "rstrip"@));
            return false;
        }
        i += 1;
    }
    true
}

/// Whether every token that takes the spaces on its left takes those on its right.
fn check_both_sides(tokens: &Vec<serde_json::Value>) -> (answer: bool)
    ensures
        answer == (forall|i: int|
            0 <= i < value_texts(tokens@).len() && takes_spaces(
                #[trigger] value_texts(tokens@)[i],
                "lstrip"@,
            ) ==> takes_spaces(value_texts(tokens@)[i], "rstrip"@)),
{
    let ghost all = value_texts(tokens@);
    let mut i: usize = 0;
    while i < tokens.len()
        invariant
            i <= tokens@.len(),
            all == value_texts(tokens@),
            forall|k: int|
                0 <= k < i && takes_spaces(#[trigger] all[k], "lstrip"@) ==> takes_spaces(
                    all[k],
                    "rstrip"@,
                ),
        decreases tokens@.len() - i,
    {
        assert(all[i as int] == value_text(tokens@[i as int]));
        if check_side(&tokens[i], "lstrip") && !check_side(&tokens[i], "rstrip") {
            assert(takes_spaces(all[i as int], "lstrip"@));
            return false;
        }
        i += 1;
    }
    true
}

/// Whether no token can stand among spaces that another has taken.
fn check_spaces(value: &serde_json::Value) -> (fit: bool)
    ensures
        fit == spaces_fit(value_text(*value)),
{
    match member(value, "added_tokens") {
        Some(added) => match items(added) {
            Some(tokens) => check_no_right(tokens) || check_both_sides(tokens),
            None => true,
        },
        None => true,
    }
}

/// Whether a template holds the text once, among marks.
fn check_template(pieces: &Vec<serde_json::Value>) -> (answer: bool)
    ensures
        answer == holds_text_once(value_texts(pieces@)),
{
    let ghost all = value_texts(pieces@);
    let mut found: bool = false;
    let ghost mut place: int = -1;
    let mut i: usize = 0;
    while i < pieces.len()
        invariant
            i <= pieces@.len(),
            all == value_texts(pieces@),
            all.len() == pieces@.len(),
            found ==> 0 <= place < i && is_text_piece(all[place]),
            forall|k: int|
                0 <= k < i && !(found && k == place) ==> is_mark_piece(#[trigger] all[k]),
        decreases pieces@.len() - i,
    {
        assert(all[i as int] == value_text(pieces@[i as int]));
        let sequence = member(&pieces[i], "Sequence");
        if sequence.is_some() {
            if found || !says(under(sequence, "id"), "A") {
                proof {
                    assert(!is_mark_piece(all[i as int]));
                    if holds_text_once(all) {
                        let at = choose|at: int|
                            0 <= at < all.len() && #[trigger] is_text_piece(all[at]) && forall|
                                k: int,
                            |
                                0 <= k < all.len() && k != at ==> is_mark_piece(#[trigger] all[k]);
                        assert(at == i);
                        if found {
                            assert(is_mark_piece(all[place]));
                        }
                    }
                }
                return false;
            }
            found = true;
            proof {
                place = i as int;
            }
        }
        i += 1;
    }
    proof {
        if found {
            assert(is_text_piece(all[place]));
            assert(holds_text_once(all));
        } else if holds_text_once(all) {
            let at = choose|at: int|
                0 <= at < all.len() && #[trigger] is_text_piece(all[at]) && forall|k: int|
                    0 <= k < all.len() && k != at ==> is_mark_piece(#[trigger] all[k]);
            assert(is_mark_piece(all[at]));
        }
    }
    found
}

/// Whether a pattern is a text that stands for itself.
fn check_literal(pattern: &serde_json::Value) -> (literal: bool)
    ensures
        literal == is_literal(value_text(*pattern)),
{
    if member(pattern, "Regex").is_some() {
        return false;
    }
    match member(pattern, "String") {
        Some(found) => match string(found) {
            Some(text) => chars_of(text).len() > 0,
            None => false,
        },
        None => false,
    }
}

/// Whether a pattern is one that looks at no character more than a few times.
fn check_known(pattern: &serde_json::Value) -> (known: bool)
    ensures
        known == is_known(value_text(*pattern)),
{
    let written = member(pattern, "Regex");
    says(written, LLAMA_SPLIT) || says(written, QWEN_SPLIT) || says(written, GPT_SPLIT)
}

/// Whether there is a text of no more than one character, and of no less than `least`.
fn check_one_char(value: Option<&serde_json::Value>, least: usize) -> (one: bool)
    ensures
        one == is_one_char(found_text(value), least as int),
{
    match value {
        Some(value) => match string(value) {
            Some(text) => {
                let length: usize = chars_of(text).len();
                least <= length && length <= 1
            },
            None => false,
        },
        None => false,
    }
}

/// Whether a step keeps a text from getting empty or much longer.
fn check_keeps(step: &serde_json::Value) -> (keeps: bool)
    ensures
        keeps == keeps_text(value_text(*step)),
{
    let kind = member(step, "type");
    let literal: bool = match member(step, "pattern") {
        Some(pattern) => check_literal(pattern),
        None => false,
    };
    says(kind, "NFC") || says(kind, "NFD") || says(kind, "NFKC") || says(kind, "NFKD") || says(
        kind,
        "Lowercase",
    ) || (says(kind, "Prepend") && check_one_char(member(step, "prepend"), 1)) || (says(
        kind,
        "Replace",
    ) && literal && check_one_char(member(step, "content"), 1)) || says(kind, "Sequence")
}

/// Whether a step splits a text into pieces of some length, and by a text or by a
/// pattern that is known.
fn check_splits(step: &serde_json::Value) -> (splits: bool)
    ensures
        splits == splits_text(value_text(*step)),
{
    if let Some(length) = member(step, "length") {
        if let Some(count) = number(length) {
            if count == 0 {
                return false;
            }
        }
    }
    match member(step, "pattern") {
        Some(pattern) => check_literal(pattern) || check_known(pattern),
        None => true,
    }
}

/// Whether a text stands once in the frame that a step puts around it.
fn check_frames(step: &serde_json::Value) -> (frames: bool)
    ensures
        frames == frames_text(value_text(*step)),
{
    match member(step, "single") {
        Some(single) => match items(single) {
            Some(pieces) => check_template(pieces),
            None => false,
        },
        None => true,
    }
}

/// Whether a step joins tokens without a look at the last of them or at an end.
fn check_joins(step: &serde_json::Value) -> (joins: bool)
    ensures
        joins == joins_tokens(value_text(*step)),
{
    let kind = member(step, "type");
    let stays: bool = match member(step, "stop") {
        Some(stop) => match number(stop) {
            Some(count) => count == 0,
            None => false,
        },
        None => true,
    };
    let replaces: bool = match member(step, "pattern") {
        Some(pattern) => check_literal(pattern) && check_one_char(member(step, "content"), 0),
        None => true,
    };
    stays && replaces && member(step, "suffix").is_none() && member(
        step,
        "word_delimiter_token",
    ).is_none() && !says(kind, "BPEDecoder") && !says(kind, "CTC")
}

/// Whether the settings of a step are clean.
fn check_clean(part: Part, step: &serde_json::Value) -> (clean: bool)
    ensures
        clean == is_clean(part, value_text(*step)),
{
    if values(step).is_none() {
        return false;
    }
    match part {
        Part::Normalizer => check_keeps(step),
        Part::PreTokenizer => check_splits(step),
        Part::PostProcessor => check_frames(step),
        Part::Decoder => check_joins(step),
    }
}

/// Whether a text is not taken for bytes twice.
fn check_bytes_once(steps: &Vec<serde_json::Value>) -> (once: bool)
    ensures
        once == takes_bytes_once(value_texts(steps@)),
{
    let ghost all = value_texts(steps@);
    let mut found: bool = false;
    let ghost mut place: int = -1;
    let mut i: usize = 0;
    while i < steps.len()
        invariant
            i <= steps@.len(),
            all == value_texts(steps@),
            all.len() == steps@.len(),
            found ==> 0 <= place < i && json_says(
                json_member(all[place], "type"@),
                "ByteLevel"@,
            ),
            forall|k: int|
                0 <= k < i && !(found && k == place) ==> !json_says(
                    json_member(#[trigger] all[k], "type"@),
                    "ByteLevel"@,
                ),
        decreases steps@.len() - i,
    {
        assert(all[i as int] == value_text(steps@[i as int]));
        if says(member(&steps[i], "type"), "ByteLevel") {
            if found {
                assert(!takes_bytes_once(all)) by {
                    assert(json_says(json_member(all[place], "type"@), "ByteLevel"@) && json_says(
                        json_member(all[i as int], "type"@),
                        "ByteLevel"@,
                    ));
                }
                return false;
            }
            found = true;
            proof {
                place = i as int;
            }
        }
        i += 1;
    }
    true
}

/// Whether every entry is one clean step.
fn check_each(part: Part, steps: &Vec<serde_json::Value>) -> (clean: bool)
    ensures
        clean == (forall|i: int|
            0 <= i < value_texts(steps@).len() ==> is_step(
                part,
                #[trigger] value_texts(steps@)[i],
            )),
{
    let ghost all = value_texts(steps@);
    let mut i: usize = 0;
    while i < steps.len()
        invariant
            i <= steps@.len(),
            all == value_texts(steps@),
            forall|k: int| 0 <= k < i ==> is_step(part, #[trigger] all[k]),
        decreases steps@.len() - i,
    {
        assert(all[i as int] == value_text(steps@[i as int]));
        if !check_clean(part, &steps[i]) || member(&steps[i], part.steps_name()).is_some() {
            assert(!is_step(part, all[i as int]));
            return false;
        }
        i += 1;
    }
    true
}

/// Whether there are a few clean steps in a row.
fn check_steps(part: Part, steps: &Vec<serde_json::Value>) -> (clean: bool)
    ensures
        clean == are_steps(part, value_texts(steps@)),
{
    assert(value_texts(steps@).len() == steps@.len());
    steps.len() <= MOST_STEPS && check_bytes_once(steps) && check_each(part, steps)
}

/// Whether a part takes one clean step, several, or none.
fn check_part(part: Part, value: &serde_json::Value) -> (fits: bool)
    ensures
        fits == part_fits(part, value_text(*value)),
{
    let found = match member(value, part.name()) {
        Some(found) => found,
        None => {
            return true;
        },
    };
    if !check_parts(found) {
        return true;
    }
    if !check_clean(part, found) {
        return false;
    }
    match member(found, part.steps_name()) {
        Some(listed) => match items(listed) {
            Some(steps) => check_steps(part, steps),
            None => false,
        },
        None => true,
    }
}

/// Whether a value is that of a tokenizer that can be used, or of none.
pub(crate) fn check_usable(value: &serde_json::Value) -> (usable: bool)
    ensures
        usable == is_usable(value_text(*value)),
{
    check_tokens(value) && check_merges(value) && check_truncation(value) && check_padding(value)
        && check_spaces(value) && check_part(Part::Normalizer, value)
        && check_part(Part::PreTokenizer, value) && check_part(Part::PostProcessor, value)
        && check_part(Part::Decoder, value)
}

} // verus!
