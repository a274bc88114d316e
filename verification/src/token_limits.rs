//! How long the tokens of a `tokenizer.json` are.
//!
//! What is built from a token goes as deep as the token has bytes, so a token must not
//! be longer than any that is in use. One of the vocabulary has up to four bytes for a
//! character, and one that is added up to twelve, once it is normalized: neither goes
//! deeper than a thousand and twenty-four.

use vstd::prelude::*;

use crate::json::{
    found_text, items, json_items, json_keys, json_member, json_string, json_under, key_texts,
    keys, member, string, under, value_text, value_texts,
};
use crate::text::chars_of;

verus! {

/// The characters that a token of the vocabulary may have.
pub const LONGEST_TOKEN: usize = 256;

/// The characters that a token may have that is added to the vocabulary.
pub const LONGEST_ADDED: usize = 80;

/// What may be found is no text that is longer than this.
pub open spec fn may_be_token(value: Option<Seq<char>>, longest: int) -> bool {
    value is Some && json_string(value->0) is Some ==> json_string(value->0)->0.len() <= longest
}

/// The first item of an entry is no text that is too long for a token.
pub open spec fn starts_with_token(entry: Seq<char>) -> bool {
    match json_items(entry) {
        Some(parts) => parts.len() > 0 ==> may_be_token(Some(parts[0]), LONGEST_TOKEN as int),
        None => true,
    }
}

/// The tokens of a vocabulary, the keys of an object or the first items of a list, are
/// short enough.
pub open spec fn vocabulary_fits(vocab: Seq<char>) -> bool {
    &&& json_keys(vocab) matches Some(tokens) ==> forall|i: int|
        0 <= i < tokens.len() ==> (#[trigger] tokens[i]).len() <= LONGEST_TOKEN
    &&& json_items(vocab) matches Some(entries) ==> forall|i: int|
        0 <= i < entries.len() ==> starts_with_token(#[trigger] entries[i])
}

/// The tokens that are added to a vocabulary are short enough.
pub open spec fn added_fit(added: Seq<char>) -> bool {
    json_items(added) matches Some(entries) ==> forall|i: int|
        0 <= i < entries.len() ==> may_be_token(
            json_member(#[trigger] entries[i], "content"@),
            LONGEST_ADDED as int,
        )
}

/// Every token of a tokenizer is short enough.
pub open spec fn tokens_fit(value: Seq<char>) -> bool {
    let vocab = json_under(json_member(value, "model"@), "vocab"@);
    let added = json_member(value, "added_tokens"@);
    &&& vocab is Some ==> vocabulary_fits(vocab->0)
    &&& added is Some ==> added_fit(added->0)
}

/// Whether what may be found is no text that is longer than this.
fn check_found(value: Option<&serde_json::Value>, longest: usize) -> (fits: bool)
    ensures
        fits == may_be_token(found_text(value), longest as int),
{
    match value {
        Some(value) => match string(value) {
            Some(text) => chars_of(text).len() <= longest,
            None => true,
        },
        None => true,
    }
}

/// Whether every key is short enough for a token.
fn check_keys(tokens: &Vec<&str>) -> (fit: bool)
    ensures
        fit == (forall|i: int|
            0 <= i < key_texts(tokens@).len() ==> (#[trigger] key_texts(tokens@)[i]).len()
                <= LONGEST_TOKEN),
{
    let ghost all = key_texts(tokens@);
    let mut i: usize = 0;
    while i < tokens.len()
        invariant
            i <= tokens@.len(),
            all == key_texts(tokens@),
            forall|k: int| 0 <= k < i ==> (#[trigger] all[k]).len() <= LONGEST_TOKEN,
        decreases tokens@.len() - i,
    {
        assert(all[i as int] == tokens@[i as int]@);
        if chars_of(tokens[i]).len() > LONGEST_TOKEN {
            assert(all[i as int].len() > LONGEST_TOKEN);
            return false;
        }
        i += 1;
    }
    true
}

/// Whether the first item of an entry is no text that is too long for a token.
fn check_first(entry: &serde_json::Value) -> (fits: bool)
    ensures
        fits == starts_with_token(value_text(*entry)),
{
    match items(entry) {
        Some(parts) => {
            if parts.len() == 0 {
                return true;
            }
            assert(value_texts(parts@)[0] == value_text(parts@[0]));
            check_found(Some(&parts[0]), LONGEST_TOKEN)
        },
        None => true,
    }
}

/// Whether every entry starts with a text that is short enough for a token.
fn check_entries(entries: &Vec<serde_json::Value>) -> (fit: bool)
    ensures
        fit == (forall|i: int|
            0 <= i < value_texts(entries@).len() ==> starts_with_token(
                #[trigger] value_texts(entries@)[i],
            )),
{
    let ghost all = value_texts(entries@);
    let mut i: usize = 0;
    while i < entries.len()
        invariant
            i <= entries@.len(),
            all == value_texts(entries@),
            forall|k: int| 0 <= k < i ==> starts_with_token(#[trigger] all[k]),
        decreases entries@.len() - i,
    {
        assert(all[i as int] == value_text(entries@[i as int]));
        if !check_first(&entries[i]) {
            assert(!starts_with_token(all[i as int]));
            return false;
        }
        i += 1;
    }
    true
}

/// Whether the tokens of a vocabulary are short enough.
fn check_vocabulary(vocab: &serde_json::Value) -> (fit: bool)
    ensures
        fit == vocabulary_fits(value_text(*vocab)),
{
    if let Some(tokens) = keys(vocab) {
        if !check_keys(&tokens) {
            return false;
        }
    }
    match items(vocab) {
        Some(entries) => check_entries(entries),
        None => true,
    }
}

/// Whether every token that is added is short enough.
fn check_contents(entries: &Vec<serde_json::Value>) -> (fit: bool)
    ensures
        fit == (forall|i: int|
            0 <= i < value_texts(entries@).len() ==> may_be_token(
                json_member(#[trigger] value_texts(entries@)[i], "content"@),
                LONGEST_ADDED as int,
            )),
{
    let ghost all = value_texts(entries@);
    let mut i: usize = 0;
    while i < entries.len()
        invariant
            i <= entries@.len(),
            all == value_texts(entries@),
            forall|k: int|
                0 <= k < i ==> may_be_token(
                    json_member(#[trigger] all[k], "content"@),
                    LONGEST_ADDED as int,
                ),
        decreases entries@.len() - i,
    {
        assert(all[i as int] == value_text(entries@[i as int]));
        if !check_found(member(&entries[i], "content"), LONGEST_ADDED) {
            assert(!may_be_token(json_member(all[i as int], "content"@), LONGEST_ADDED as int));
            return false;
        }
        i += 1;
    }
    true
}

/// Whether every token of a tokenizer is short enough.
pub(crate) fn check_tokens(value: &serde_json::Value) -> (fit: bool)
    ensures
        fit == tokens_fit(value_text(*value)),
{
    if let Some(vocab) = under(member(value, "model"), "vocab") {
        if !check_vocabulary(vocab) {
            return false;
        }
    }
    match member(value, "added_tokens") {
        Some(added) => match items(added) {
            Some(entries) => check_contents(entries),
            None => true,
        },
        None => true,
    }
}

} // verus!
