//! Which settings of a tokenizer are taken.

use vstd::prelude::*;

use crate::json::{
    json_flag, json_holds_kind, json_items, json_keys, json_member, json_says, json_string,
    json_under, json_value, json_values,
};
use crate::text_to_midi::hf_settings::{
    are_steps, cut_fits, holds_text_once, is_clean, is_known, is_literal, is_mark_piece, is_step,
    is_text_piece, is_unpadded, is_usable, merges_fit, part_fits, spaces_fit, takes_spaces, Part,
};
use crate::text_to_midi::hf_tokenizer::{read_contents, tokenizer_in};
use crate::token_limits::tokens_fit;
use crate::tokenizer::{are_dense, is_loadable, loaded, vocabulary_in};

verus! {

/// What is under a key is the member with that key, where there is a value at all, and a value
/// says a text where it is that text.
pub proof fn lemma_members(value: Seq<char>, key: Seq<char>, text: Seq<char>, entries: Seq<Seq<char>>, i: int)
    ensures
        json_under(Some(value), key) == json_member(value, key),
        json_under(None, key) is None,
        json_says(Some(value), text) <==> json_string(value) == Some(text),
        !json_says(None, text),
        0 <= i < entries.len() && json_says(json_member(entries[i], "type"@), text)
            ==> json_holds_kind(entries, text),
        entries.len() == 0 ==> !json_holds_kind(entries, text),
{
}

/// A value without settings of its own beside its model is that of a tokenizer that can be
/// used, where its tokens and its merges fit and its added tokens take no spaces.
pub proof fn lemma_bare_settings(value: Seq<char>)
    requires
        json_member(value, "truncation"@) is None,
        json_member(value, "padding"@) is None,
        json_member(value, "normalizer"@) is None,
        json_member(value, "pre_tokenizer"@) is None,
        json_member(value, "post_processor"@) is None,
        json_member(value, "decoder"@) is None,
        tokens_fit(value),
        merges_fit(value),
        spaces_fit(value),
    ensures
        is_usable(value),
{
}

/// What the value has for the parts decides, each part on its own.
pub proof fn lemma_parts_decide(value: Seq<char>)
    ensures
        is_usable(value) <==> tokens_fit(value) && merges_fit(value) && cut_fits(value)
            && is_unpadded(value) && spaces_fit(value) && part_fits(Part::Normalizer, value)
            && part_fits(Part::PreTokenizer, value) && part_fits(Part::PostProcessor, value)
            && part_fits(Part::Decoder, value),
        json_member(value, "truncation"@) is None ==> cut_fits(value),
        json_member(value, "padding"@) is None ==> is_unpadded(value),
        json_under(json_member(value, "model"@), "continuing_subword_prefix"@) is None
            ==> merges_fit(value),
{
}

/// Tokens fit where no token of the vocabulary has more than 256 characters and no added one
/// more than 80.
pub proof fn lemma_tokens_fit(value: Seq<char>, vocab: Seq<char>, added: Seq<char>)
    requires
        json_under(json_member(value, "model"@), "vocab"@) == Some(vocab),
        json_member(value, "added_tokens"@) == Some(added),
        json_keys(vocab) matches Some(tokens) ==> forall|i: int|
            0 <= i < tokens.len() ==> (#[trigger] tokens[i]).len() <= 256,
        json_items(vocab) is None,
        json_items(added) matches Some(entries) ==> forall|i: int|
            0 <= i < entries.len() ==> (json_member(
                #[trigger] entries[i],
                "content"@,
            ) matches Some(found) ==> (json_string(found) matches Some(text) ==> text.len() <= 80)),
    ensures
        tokens_fit(value),
{
}

/// A step that brings texts to a normal form or to lower case is taken, and so is one that puts
/// one character in front or in the place of a text.
pub proof fn lemma_normal_steps(step: Seq<char>, kind: Seq<char>)
    requires
        json_values(step) is Some,
        json_member(step, "normalizers"@) is None,
        json_member(step, "type"@) == Some(kind),
    ensures
        json_string(kind) == Some("NFC"@) || json_string(kind) == Some("NFD"@) || json_string(kind)
            == Some("NFKC"@) || json_string(kind) == Some("NFKD"@) || json_string(kind) == Some(
            "Lowercase"@,
        ) ==> is_step(Part::Normalizer, step),
        json_string(kind) == Some("Prepend"@) && (json_member(step, "prepend"@) matches Some(found)
            && (json_string(found) matches Some(text) && text.len() == 1)) ==> is_step(
            Part::Normalizer,
            step,
        ),
{
}

/// A step that splits texts by no pattern and into no pieces of a length is taken.
pub proof fn lemma_split_steps(step: Seq<char>)
    requires
        json_values(step) is Some,
        json_member(step, "pretokenizers"@) is None,
        json_member(step, "length"@) is None,
    ensures
        json_member(step, "pattern"@) is None ==> is_step(Part::PreTokenizer, step),
        json_member(step, "pattern"@) matches Some(pattern) && (is_literal(pattern) || is_known(
            pattern,
        )) ==> is_step(Part::PreTokenizer, step),
{
}

/// A step that joins tokens and has none of the settings that may fail is taken.
pub proof fn lemma_join_steps(step: Seq<char>)
    requires
        json_values(step) is Some,
        json_member(step, "decoders"@) is None,
        json_member(step, "suffix"@) is None,
        json_member(step, "word_delimiter_token"@) is None,
        json_member(step, "stop"@) is None,
        json_member(step, "pattern"@) is None,
        !json_says(json_member(step, "type"@), "BPEDecoder"@),
        !json_says(json_member(step, "type"@), "CTC"@),
    ensures
        is_step(Part::Decoder, step),
{
}

/// Up to eight such steps may follow each other, as long as no two of them take a text for
/// bytes.
pub proof fn lemma_steps_in_a_row(part: Part, steps: Seq<Seq<char>>)
    requires
        steps.len() <= 8,
        forall|i: int| 0 <= i < steps.len() ==> is_step(part, #[trigger] steps[i]),
        forall|i: int|
            0 <= i < steps.len() ==> !json_says(
                json_member(#[trigger] steps[i], "type"@),
                "ByteLevel"@,
            ),
    ensures
        are_steps(part, steps),
{
}

/// Added tokens that leave the spaces on their right where they are do not get into each
/// other's way.
pub proof fn lemma_spaces(value: Seq<char>, added: Seq<char>, tokens: Seq<Seq<char>>)
    requires
        json_member(value, "added_tokens"@) == Some(added),
        json_items(added) == Some(tokens),
        forall|i: int|
            0 <= i < tokens.len() ==> (json_member(
                #[trigger] tokens[i],
                "rstrip"@,
            ) matches Some(found) ==> json_flag(found) == Some(false)),
    ensures
        spaces_fit(value),
{
    assert forall|i: int| 0 <= i < tokens.len() implies !takes_spaces(
        #[trigger] tokens[i],
        "rstrip"@,
    ) by {}
}

/// A tokenizer is read from the value of its text where that can be used.
pub proof fn lemma_read(json: Seq<char>, value: Seq<char>)
    requires
        json_value(json) == Some(value),
    ensures
        is_usable(value) ==> tokenizer_in(json) == read_contents(value),
        !is_usable(value) ==> tokenizer_in(json) is None,
{
}

/// A vocabulary is read wherever it can be loaded, and from nothing else.
pub proof fn lemma_vocabulary_read(json: Seq<char>)
    ensures
        is_loadable(json) ==> vocabulary_in(json) == loaded(json),
        !is_loadable(json) ==> vocabulary_in(json) is None,
        json_value(json) is None ==> is_loadable(json),
{
}

/// A step that frames a text by no template is taken, and one that does where the text stands
/// in it once, among marks.
pub proof fn lemma_frame_steps(step: Seq<char>, pieces: Seq<Seq<char>>, at: int)
    requires
        json_values(step) is Some,
        json_member(step, "processors"@) is None,
    ensures
        json_member(step, "single"@) is None ==> is_step(Part::PostProcessor, step),
        json_member(step, "single"@) matches Some(single) && json_items(single) == Some(pieces) && 0
            <= at < pieces.len() && json_says(
            json_under(json_member(pieces[at], "Sequence"@), "id"@),
            "A"@,
        ) && (forall|i: int|
            0 <= i < pieces.len() && i != at ==> json_member(
                #[trigger] pieces[i],
                "Sequence"@,
            ) is None) ==> is_step(Part::PostProcessor, step),
{
    if json_member(step, "single"@) is Some && json_items(json_member(step, "single"@)->0) == Some(
        pieces,
    ) && 0 <= at < pieces.len() && json_says(
        json_under(json_member(pieces[at], "Sequence"@), "id"@),
        "A"@,
    ) && (forall|i: int|
        0 <= i < pieces.len() && i != at ==> json_member(#[trigger] pieces[i], "Sequence"@) is None) {
        assert(is_text_piece(pieces[at]));
        assert(forall|i: int|
            0 <= i < pieces.len() && i != at ==> is_mark_piece(#[trigger] pieces[i]));
        assert(holds_text_once(pieces));
    }
}

/// A part with one step that is taken, or without any, is taken.
pub proof fn lemma_part_is_taken(part: Part, value: Seq<char>, found: Seq<char>)
    ensures
        json_member(value, part.key()) is None ==> part_fits(part, value),
        json_member(value, part.key()) == Some(found) && is_step(part, found) ==> part_fits(
            part,
            value,
        ),
        json_member(value, part.key()) == Some(found) && json_values(found) is None && json_items(
            found,
        ) is None ==> part_fits(part, value),
        Part::Normalizer.key() == "normalizer"@,
        Part::PreTokenizer.key() == "pre_tokenizer"@,
        Part::PostProcessor.key() == "post_processor"@,
        Part::Decoder.key() == "decoder"@,
{
}

/// A part with several steps in a row is taken where each of them is.
pub proof fn lemma_row_is_taken(
    part: Part,
    value: Seq<char>,
    found: Seq<char>,
    listed: Seq<char>,
    steps: Seq<Seq<char>>,
)
    requires
        json_member(value, part.key()) == Some(found),
        is_clean(part, found),
        json_member(
            found,
            match part {
                Part::Normalizer => "normalizers"@,
                Part::PreTokenizer => "pretokenizers"@,
                Part::PostProcessor => "processors"@,
                Part::Decoder => "decoders"@,
            },
        ) == Some(listed),
        json_items(listed) == Some(steps),
        are_steps(part, steps),
    ensures
        part_fits(part, value),
{
}

/// A tokenizer whose tokens fit is loaded where it has no merges, no list of scored tokens and
/// no settings for cutting texts, and also with merges where its ids are dense.
pub proof fn lemma_loaded(json: Seq<char>, value: Seq<char>, vocab: Seq<char>, ids: Seq<Seq<char>>)
    requires
        json_value(json) == Some(value),
        tokens_fit(value),
        json_member(value, "pre_tokenizer"@) is None,
        json_under(json_member(value, "model"@), "vocab"@) == Some(vocab),
        json_items(vocab) is None,
    ensures
        json_under(json_member(value, "model"@), "merges"@) is None ==> is_loadable(json),
        json_values(vocab) == Some(ids) && are_dense(ids) && json_member(vocab, ""@) is None
            ==> is_loadable(json),
{
}

} // verus!
