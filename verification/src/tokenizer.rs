//! Tokenizers loaded from the text of a `tokenizer.json`, with the `tokie` crate.

use vstd::prelude::*;

use crate::json::{
    borrowed_texts, found_text, has_score, holds_kind, items, json_has_score, json_holds_kind,
    json_items, json_member, json_number, json_says, json_string, json_under, json_value,
    json_values, member, number, parse_json, says, string, under, value_text, value_texts, values,
};
use crate::text::chars_of;
use crate::token_limits::{check_tokens, tokens_fit};

verus! {

/// A tokenizer of the `tokie` crate.
#[verifier::external_type_specification]
#[verifier::external_body]
pub struct ExTokenizer(tokie::Tokenizer);

/// Why the `tokie` crate refuses a text.
#[verifier::external_type_specification]
#[verifier::external_body]
pub struct ExJsonLoadError(tokie::JsonLoadError);

/// The vocabulary of a tokenizer: the bytes of each token, by its id.
pub uninterp spec fn vocabulary(tokenizer: tokie::Tokenizer) -> Seq<Seq<u8>>;

/// The rules by which a tokenizer cuts a text into tokens.
pub uninterp spec fn rules(tokenizer: tokie::Tokenizer) -> Seq<u8>;

/// The vocabulary and the rules that `tokie::hf::from_json_str` finds in a text;
/// nothing where it refuses it.
pub uninterp spec fn loaded(json: Seq<char>) -> Option<(Seq<Seq<u8>>, Seq<u8>)>;

/// The ids are some that `tokie::Tokenizer::encode` may give for a text under some
/// rules, without special tokens around them. A long text is cut into one part for
/// each processor of the machine, so there may be several; which there are depends
/// on the rules and the text alone.
pub uninterp spec fn is_encoding(rules: Seq<u8>, text: Seq<char>, ids: Seq<u32>) -> bool;

/// The ids of a vocabulary are the numbers below its size, each once.
pub open spec fn are_dense(ids: Seq<Seq<char>>) -> bool {
    &&& ids.len() <= u32::MAX
    &&& forall|i: int|
        0 <= i < ids.len() ==> json_number(#[trigger] ids[i]) is Some && json_number(ids[i])->0
            < ids.len()
    &&& forall|i: int, j: int|
        0 <= i < j < ids.len() ==> json_number(#[trigger] ids[i]) != json_number(
            #[trigger] ids[j],
        )
}

/// An entry of a list of scored tokens: a text and a number.
pub open spec fn is_scored(entry: Seq<char>) -> bool {
    match json_items(entry) {
        Some(parts) => parts.len() >= 2 && json_string(parts[0]) is Some && json_has_score(
            parts[1],
        ),
        None => false,
    }
}

/// The tokenizer cuts words into pieces.
pub open spec fn cuts_words(value: Seq<char>) -> bool {
    let model = json_member(value, "model"@);
    ||| json_says(json_under(model, "type"@), "WordPiece"@)
    ||| json_says(json_under(json_member(value, "decoder"@), "type"@), "WordPiece"@)
}

/// The vocabulary of a tokenizer is complete: where tokens are merged, every id is in
/// it and no token is empty, and where they are scored, every token has its score.
pub open spec fn is_complete(value: Seq<char>) -> bool {
    let model = json_member(value, "model"@);
    let vocab = json_under(model, "vocab"@);
    let merges = json_under(model, "merges"@);
    let merged = merges is Some && json_items(merges->0) is Some && !cuts_words(value) && !json_says(
        json_under(model, "type"@),
        "Unigram"@,
    );
    &&& vocab is Some && merged ==> match json_values(vocab->0) {
        Some(ids) => are_dense(ids) && json_member(vocab->0, ""@) is None,
        None => true,
    }
    &&& vocab is Some ==> match json_items(vocab->0) {
        Some(entries) => forall|i: int|
            0 <= i < entries.len() ==> is_scored(#[trigger] entries[i]),
        None => true,
    }
}

/// The entries under a key, where there is a list of them.
pub open spec fn listed(value: Option<Seq<char>>, key: Seq<char>) -> Seq<Seq<char>> {
    let found = json_under(value, key);
    if found is Some && json_items(found->0) is Some {
        json_items(found->0)->0
    } else {
        Seq::empty()
    }
}

/// The step splits a text by a pattern of its own.
pub open spec fn has_pattern(step: Seq<char>) -> bool {
    let pattern = json_under(json_member(step, "pattern"@), "Regex"@);
    json_says(json_member(step, "type"@), "Split"@) && pattern is Some && json_string(
        pattern->0,
    ) is Some
}

/// Spaces are turned into marks before a text is cut: by the cut itself.
pub open spec fn cuts_at_marks(value: Seq<char>) -> bool {
    let cut = json_member(value, "pre_tokenizer"@);
    json_says(json_under(cut, "type"@), "Metaspace"@) || json_holds_kind(
        listed(cut, "pretokenizers"@),
        "Metaspace"@,
    )
}

/// Spaces are turned into marks before a text is cut: by a step that comes first.
pub open spec fn marks_first(value: Seq<char>) -> bool {
    let first = json_member(value, "normalizer"@);
    json_says(json_under(first, "type"@), "Replace"@) || json_holds_kind(
        listed(first, "normalizers"@),
        "Prepend"@,
    )
}

/// A text is cut by fixed rules: into bytes of words, or into pieces of them.
pub open spec fn cuts_by_rules(value: Seq<char>) -> bool {
    let cut = json_member(value, "pre_tokenizer"@);
    let model = json_member(value, "model"@);
    let merges = json_under(model, "merges"@);
    let prefix = json_under(model, "continuing_subword_prefix"@);
    let merged = merges is Some && json_items(merges->0) is Some;
    ||| json_says(json_under(cut, "type"@), "ByteLevel"@)
    ||| json_holds_kind(listed(cut, "pretokenizers"@), "ByteLevel"@)
    ||| cuts_words(value)
    ||| !merged && prefix is Some && json_string(prefix->0) is Some
}

/// A text is cut in one way only, and where it is cut by fixed rules its ASCII
/// characters stay what they are: marks do not come to stand in it first.
pub open spec fn cuts_once(value: Seq<char>) -> bool {
    cuts_by_rules(value) ==> !cuts_at_marks(value) && !marks_first(value)
}

/// A text is not cut by a pattern that the tokenizer brings along, unless the pattern
/// only tells which of the fixed rules to take.
pub open spec fn cuts_by_no_pattern(value: Seq<char>) -> bool {
    let cut = json_member(value, "pre_tokenizer"@);
    let entries = listed(cut, "pretokenizers"@);
    &&& cut is Some ==> !has_pattern(cut->0)
    &&& (exists|i: int| 0 <= i < entries.len() && has_pattern(#[trigger] entries[i]))
        ==> json_says(json_under(cut, "type"@), "Sequence"@) && json_holds_kind(
        entries,
        "ByteLevel"@,
    )
}

/// Where a text is cut at marks, no table and no folding makes it much longer first.
pub open spec fn stays_short(value: Seq<char>) -> bool {
    let first = json_member(value, "normalizer"@);
    let kind = json_under(first, "type"@);
    let entries = listed(first, "normalizers"@);
    cuts_at_marks(value) ==> {
        &&& !json_says(kind, "Precompiled"@)
        &&& !json_says(kind, "Lowercase"@)
        &&& !json_holds_kind(entries, "Precompiled"@)
        &&& !json_holds_kind(entries, "Sequence"@)
    }
}

/// The text is that of a tokenizer that can be loaded, or of none.
pub open spec fn is_loadable(json: Seq<char>) -> bool {
    match json_value(json) {
        Some(value) => is_complete(value) && tokens_fit(value) && stays_short(value),
        None => true,
    }
}

/// The text is that of a tokenizer that can be loaded and used, or of none.
pub open spec fn is_usable(json: Seq<char>) -> bool {
    &&& is_loadable(json)
    &&& match json_value(json) {
        Some(value) => cuts_once(value) && cuts_by_no_pattern(value),
        None => true,
    }
}

/// The vocabulary and the rules of the tokenizer in a text; nothing where there is
/// none that can be loaded.
pub open spec fn vocabulary_in(json: Seq<char>) -> Option<(Seq<Seq<u8>>, Seq<u8>)> {
    if is_loadable(json) {
        loaded(json)
    } else {
        None
    }
}

/// The vocabulary and the rules of the tokenizer in a text; nothing where there is
/// none that can be used.
pub open spec fn tokenizer_in(json: Seq<char>) -> Option<(Seq<Seq<u8>>, Seq<u8>)> {
    if is_usable(json) {
        loaded(json)
    } else {
        None
    }
}

/// The tokenizer is one that was found in a text and can be used.
pub open spec fn is_loaded(tokenizer: tokie::Tokenizer) -> bool {
    exists|json: Seq<char>| #[trigger]
        tokenizer_in(json) == Some((vocabulary(tokenizer), rules(tokenizer)))
}

/// `tokie::hf::from_json_str`: what is loaded, and whether anything is, depends on
/// the text alone. It takes the ids of merged tokens for places in the vocabulary,
/// and those of scored tokens for places among the scores, so a vocabulary that is
/// not complete is left out; so is one with an empty token to merge, which no text
/// runs out of. It goes as deep as a token is long, so long tokens are left out too,
/// with the tables that could make them so.
#[verifier::external_body]
pub(crate) fn load_tokenizer(json: &str) -> (r: Result<tokie::Tokenizer, tokie::JsonLoadError>)
    requires
        is_loadable(json@),
    ensures
        r is Ok <==> loaded(json@) is Some,
        r is Ok ==> (vocabulary(r->Ok_0), rules(r->Ok_0)) == loaded(json@)->0,
{
    tokie::hf::from_json_str(json)
}

/// The bytes that a text may take when it is normalized. Spaces may become marks of
/// three bytes. Other than ASCII, characters are composed, decomposed or folded to
/// lower case, which makes no more than twelve bytes of one; a table, or a folding that
/// makes more, comes with no tokenizer that can be used.
pub open spec fn room(text: Seq<char>) -> nat
    decreases text.len(),
{
    if text.len() == 0 {
        0
    } else if text.last() <= '\u{7f}' {
        room(text.drop_last()) + 3
    } else {
        room(text.drop_last()) + 12
    }
}

/// Every character takes room.
pub proof fn lemma_room(text: Seq<char>)
    ensures
        3 * text.len() <= room(text) <= 12 * text.len(),
    decreases text.len(),
{
    if text.len() > 0 {
        lemma_room(text.drop_last());
    }
}

/// The text is made of ASCII characters.
pub open spec fn is_plain(text: Seq<char>) -> bool {
    forall|i: int| 0 <= i < text.len() ==> #[trigger] text[i] <= '\u{7f}'
}

/// A text that takes less room than this stays below 64 KiB when it is normalized,
/// with the mark of three bytes that may come to stand in front of it.
pub const SHORT_ROOM: u128 = 65_533;

/// A text that takes less room than this stays below ten thousand bytes when it is
/// normalized, with the mark of three bytes that may come to stand in front of it.
pub const BRIEF_ROOM: u128 = 9_997;

/// A plain text of fewer characters than this can be counted through, mark by mark, in
/// thirty-two bits.
pub const PLAIN_LIMIT: usize = 0x4000_0000;

/// The text can be cut into tokens: wherever it is parted, it is not parted inside a
/// character.
pub open spec fn is_short(text: Seq<char>) -> bool {
    (is_plain(text) && text.len() < PLAIN_LIMIT) || room(text) < SHORT_ROOM
}

/// The text is so short that it is not parted at all.
pub open spec fn is_brief(text: Seq<char>) -> bool {
    room(text) < BRIEF_ROOM
}

/// Whether a text can be cut into tokens.
pub fn check_short(text: &str) -> (short: bool)
    ensures
        short == is_short(text@),
{
    let chars: Vec<char> = chars_of(text);
    let mut total: u128 = 0;
    let mut plain: bool = true;
    let mut i: usize = 0;
    while i < chars.len()
        invariant
            i <= chars@.len(),
            chars@ == text@,
            total == room(text@.take(i as int)),
            total <= 12 * i,
            plain == is_plain(text@.take(i as int)),
        decreases chars@.len() - i,
    {
        let ghost next = text@.take(i + 1);
        assert(next.drop_last() =~= text@.take(i as int));
        proof {
            if is_plain(next) {
                assert forall|k: int| 0 <= k < i implies #[trigger] text@.take(i as int)[k]
                    <= '\u{7f}' by {
                    assert(next[k] == text@.take(i as int)[k]);
                }
                assert(next[i as int] == chars@[i as int]);
            }
            if is_plain(text@.take(i as int)) && chars@[i as int] <= '\u{7f}' {
                assert forall|k: int| 0 <= k < next.len() implies #[trigger] next[k]
                    <= '\u{7f}' by {
                    if k < i {
                        assert(next[k] == text@.take(i as int)[k]);
                    }
                }
            }
        }
        if chars[i] <= '\u{7f}' {
            total = total + 3;
        } else {
            total = total + 12;
            plain = false;
        }
        i += 1;
    }
    assert(text@.take(i as int) =~= text@);
    (plain && chars.len() < PLAIN_LIMIT) || total < SHORT_ROOM
}

/// The encoding of a text under some rules, where it has one only.
pub open spec fn encoding(rules: Seq<u8>, text: Seq<char>) -> Seq<u32> {
    choose|ids: Seq<u32>| is_encoding(rules, text, ids)
}

/// The ids are an encoding of a text, and where the text is brief they are the
/// encoding.
pub open spec fn encodes(rules: Seq<u8>, text: Seq<char>, ids: Seq<u32>) -> bool {
    is_encoding(rules, text, ids) && (is_brief(text) ==> ids == encoding(rules, text))
}

/// The same rules cut the same brief text into the same tokens.
pub proof fn lemma_same_tokens(rules: Seq<u8>, text: Seq<char>, first: Seq<u32>, again: Seq<u32>)
    requires
        is_brief(text),
        encodes(rules, text, first),
        encodes(rules, text, again),
    ensures
        first == again,
{
}

/// `tokie::Tokenizer::encode` without special tokens: one of the encodings that the
/// text may have under the rules of the tokenizer, and the only one where the text is
/// brief: from ten thousand bytes on, a text or a piece of it is parted by the number of
/// processors. A text of 64 KiB or more that is cut by fixed rules may be parted
/// inside a character, so long texts that are not plain are left out, and so are
/// tokenizers that are not known to have been loaded from a usable text.
#[verifier::external_body]
pub(crate) fn encode_text(tokenizer: &tokie::Tokenizer, text: &str) -> (ids: Vec<u32>)
    requires
        is_loaded(*tokenizer),
        is_short(text@),
    ensures
        is_encoding(rules(*tokenizer), text@, ids@),
        is_brief(text@) ==> ids@ == encoding(rules(*tokenizer), text@),
{
    tokenizer.encode(text, false).ids
}

/// `tokie::Tokenizer::vocab_size`: the number of tokens in the vocabulary.
#[verifier::external_body]
pub(crate) fn vocab_size(tokenizer: &tokie::Tokenizer) -> (n: usize)
    ensures
        n == vocabulary(*tokenizer).len(),
{
    tokenizer.vocab_size()
}

/// `tokie::Tokenizer::token_to_bytes`: the bytes of a token of the vocabulary.
#[verifier::external_body]
pub(crate) fn token_bytes<'a>(tokenizer: &'a tokie::Tokenizer, id: u32) -> (bytes: &'a [u8])
    requires
        id < vocabulary(*tokenizer).len(),
    ensures
        bytes@ == vocabulary(*tokenizer)[id as int],
{
    tokenizer.token_to_bytes(id)
}

/// Whether the ids of a vocabulary are the numbers below its size, each once.
fn check_dense(ids: &Vec<&serde_json::Value>) -> (dense: bool)
    ensures
        dense == are_dense(borrowed_texts(ids@)),
{
    let ghost all = borrowed_texts(ids@);
    let count: usize = ids.len();
    if count as u64 > u32::MAX as u64 {
        return false;
    }
    let mut seen: Vec<bool> = Vec::new();
    while seen.len() < count
        invariant
            seen@.len() <= count,
            forall|k: int| 0 <= k < seen@.len() ==> !#[trigger] seen@[k],
        decreases count - seen@.len(),
    {
        seen.push(false);
    }
    let mut i: usize = 0;
    while i < count
        invariant
            i <= count,
            count == ids@.len(),
            count <= u32::MAX,
            seen@.len() == count,
            all == borrowed_texts(ids@),
            forall|j: int|
                0 <= j < i ==> json_number(#[trigger] all[j]) is Some && json_number(all[j])->0
                    < count && seen@[json_number(all[j])->0 as int],
            forall|k: int|
                0 <= k < count && #[trigger] seen@[k] ==> exists|j: int|
                    0 <= j < i && json_number(#[trigger] all[j]) == Some(k as u64),
            forall|a: int, b: int|
                0 <= a < b < i ==> json_number(#[trigger] all[a]) != json_number(
                    #[trigger] all[b],
                ),
        decreases count - i,
    {
        assert(all[i as int] == value_text(*ids@[i as int]));
        match number(ids[i]) {
            Some(id) => {
                if id >= count as u64 {
                    return false;
                }
                let place: usize = id as usize;
                if seen[place] {
                    proof {
                        let j = choose|j: int|
                            0 <= j < i && json_number(#[trigger] all[j]) == Some(place as u64);
                        assert(json_number(all[j]) == json_number(all[i as int]));
                    }
                    return false;
                }
                let ghost before = seen@;
                seen.set(place, true);
                proof {
                    assert forall|k: int| 0 <= k < count && #[trigger] seen@[k] implies exists|
                        j: int,
                    |
                        0 <= j < i + 1 && json_number(#[trigger] all[j]) == Some(k as u64) by {
                        if k == place {
                            assert(json_number(all[i as int]) == Some(k as u64));
                        } else {
                            assert(before[k]);
                        }
                    }
                }
            },
            None => {
                return false;
            },
        }
        i += 1;
    }
    true
}

/// Whether an entry of a list of scored tokens is a text and a number.
fn check_scored(entry: &serde_json::Value) -> (scored: bool)
    ensures
        scored == is_scored(value_text(*entry)),
{
    match items(entry) {
        Some(parts) => {
            if parts.len() < 2 {
                return false;
            }
            assert(value_texts(parts@)[0] == value_text(parts@[0]));
            assert(value_texts(parts@)[1] == value_text(parts@[1]));
            string(&parts[0]).is_some() && has_score(&parts[1])
        },
        None => false,
    }
}

/// Whether every entry of a list of scored tokens is a text and a number.
fn check_all_scored(entries: &Vec<serde_json::Value>) -> (scored: bool)
    ensures
        scored == (forall|i: int|
            0 <= i < value_texts(entries@).len() ==> is_scored(
                #[trigger] value_texts(entries@)[i],
            )),
{
    let ghost all = value_texts(entries@);
    let mut i: usize = 0;
    while i < entries.len()
        invariant
            i <= entries@.len(),
            all == value_texts(entries@),
            forall|k: int| 0 <= k < i ==> is_scored(#[trigger] all[k]),
        decreases entries@.len() - i,
    {
        assert(all[i as int] == value_text(entries@[i as int]));
        if !check_scored(&entries[i]) {
            return false;
        }
        i += 1;
    }
    true
}

/// Whether the tokenizer cuts words into pieces.
fn check_words(value: &serde_json::Value) -> (answer: bool)
    ensures
        answer == cuts_words(value_text(*value)),
{
    says(under(member(value, "model"), "type"), "WordPiece") || says(
        under(member(value, "decoder"), "type"),
        "WordPiece",
    )
}

/// Whether the vocabulary of a tokenizer is complete.
fn check_complete(value: &serde_json::Value) -> (complete: bool)
    ensures
        complete == is_complete(value_text(*value)),
{
    let model = member(value, "model");
    let vocab = match under(model, "vocab") {
        Some(vocab) => vocab,
        None => {
            return true;
        },
    };
    let listed: bool = match under(model, "merges") {
        Some(merges) => items(merges).is_some(),
        None => false,
    };
    if listed && !check_words(value) && !says(under(model, "type"), "Unigram") {
        if let Some(ids) = values(vocab) {
            if !check_dense(&ids) || member(vocab, "").is_some() {
                return false;
            }
        }
    }
    match items(vocab) {
        Some(entries) => check_all_scored(entries),
        None => true,
    }
}

/// Finds the entries under a key; `none` where there is no list of them.
fn list_under<'a>(
    value: Option<&'a serde_json::Value>,
    key: &str,
    none: &'a Vec<serde_json::Value>,
) -> (entries: &'a Vec<serde_json::Value>)
    requires
        none@.len() == 0,
    ensures
        value_texts(entries@) == listed(found_text(value), key@),
{
    assert(value_texts(none@) =~= Seq::empty());
    match under(value, key) {
        Some(found) => match items(found) {
            Some(entries) => entries,
            None => none,
        },
        None => none,
    }
}

/// Whether the step splits a text by a pattern of its own.
fn check_pattern(step: &serde_json::Value) -> (answer: bool)
    ensures
        answer == has_pattern(value_text(*step)),
{
    let written: bool = match under(member(step, "pattern"), "Regex") {
        Some(pattern) => string(pattern).is_some(),
        None => false,
    };
    written && says(member(step, "type"), "Split")
}

/// Whether one of the steps splits a text by a pattern of its own.
fn check_patterns(steps: &Vec<serde_json::Value>) -> (answer: bool)
    ensures
        answer == (exists|i: int|
            0 <= i < value_texts(steps@).len() && has_pattern(
                #[trigger] value_texts(steps@)[i],
            )),
{
    let ghost all = value_texts(steps@);
    let mut i: usize = 0;
    while i < steps.len()
        invariant
            i <= steps@.len(),
            all == value_texts(steps@),
            forall|k: int| 0 <= k < i ==> !has_pattern(#[trigger] all[k]),
        decreases steps@.len() - i,
    {
        assert(all[i as int] == value_text(steps@[i as int]));
        if check_pattern(&steps[i]) {
            assert(has_pattern(all[i as int]));
            return true;
        }
        i += 1;
    }
    false
}

/// Whether spaces are turned into marks by the cut itself.
fn check_marks(value: &serde_json::Value) -> (answer: bool)
    ensures
        answer == cuts_at_marks(value_text(*value)),
{
    let none: Vec<serde_json::Value> = Vec::new();
    let cut = member(value, "pre_tokenizer");
    says(under(cut, "type"), "Metaspace") || holds_kind(
        list_under(cut, "pretokenizers", &none),
        "Metaspace",
    )
}

/// Whether spaces are turned into marks by a step that comes first.
fn check_first_marks(value: &serde_json::Value) -> (answer: bool)
    ensures
        answer == marks_first(value_text(*value)),
{
    let none: Vec<serde_json::Value> = Vec::new();
    let first = member(value, "normalizer");
    says(under(first, "type"), "Replace") || holds_kind(
        list_under(first, "normalizers", &none),
        "Prepend",
    )
}

/// Whether a text is cut by fixed rules.
fn check_rules(value: &serde_json::Value) -> (answer: bool)
    ensures
        answer == cuts_by_rules(value_text(*value)),
{
    let none: Vec<serde_json::Value> = Vec::new();
    let cut = member(value, "pre_tokenizer");
    let model = member(value, "model");
    let merged: bool = match under(model, "merges") {
        Some(merges) => items(merges).is_some(),
        None => false,
    };
    let prefixed: bool = match under(model, "continuing_subword_prefix") {
        Some(prefix) => string(prefix).is_some(),
        None => false,
    };
    says(under(cut, "type"), "ByteLevel") || holds_kind(
        list_under(cut, "pretokenizers", &none),
        "ByteLevel",
    ) || check_words(value) || (!merged && prefixed)
}

/// Whether a text is cut in one way only.
fn check_cut(value: &serde_json::Value) -> (once: bool)
    ensures
        once == cuts_once(value_text(*value)),
{
    !check_rules(value) || (!check_marks(value) && !check_first_marks(value))
}

/// Whether a text is not cut by a pattern that the tokenizer brings along.
fn check_no_pattern(value: &serde_json::Value) -> (answer: bool)
    ensures
        answer == cuts_by_no_pattern(value_text(*value)),
{
    let none: Vec<serde_json::Value> = Vec::new();
    let cut = member(value, "pre_tokenizer");
    if let Some(cut) = cut {
        if check_pattern(cut) {
            return false;
        }
    }
    let entries = list_under(cut, "pretokenizers", &none);
    !check_patterns(entries) || (says(under(cut, "type"), "Sequence") && holds_kind(
        entries,
        "ByteLevel",
    ))
}

/// Whether a text that is cut at marks is not made much longer first.
fn check_length(value: &serde_json::Value) -> (answer: bool)
    ensures
        answer == stays_short(value_text(*value)),
{
    if !check_marks(value) {
        return true;
    }
    let none: Vec<serde_json::Value> = Vec::new();
    let first = member(value, "normalizer");
    let kind = under(first, "type");
    let entries = list_under(first, "normalizers", &none);
    !says(kind, "Precompiled") && !says(kind, "Lowercase") && !holds_kind(entries, "Precompiled")
        && !holds_kind(entries, "Sequence")
}

/// Whether a text is that of a tokenizer that can be loaded, or of none.
fn check_loadable(json: &str) -> (loadable: bool)
    ensures
        loadable == is_loadable(json@),
{
    match parse_json(json) {
        Ok(value) => check_complete(&value) && check_tokens(&value) && check_length(&value),
        Err(_) => true,
    }
}

/// Whether a text is that of a tokenizer that can be loaded and used, or of none.
fn check_usable(json: &str) -> (usable: bool)
    ensures
        usable == is_usable(json@),
{
    check_loadable(json) && match parse_json(json) {
        Ok(value) => check_cut(&value) && check_no_pattern(&value),
        Err(_) => true,
    }
}

/// Why there is no tokenizer in a text.
#[derive(Debug)]
pub enum LoadError {
    /// The text is refused.
    Refused(tokie::JsonLoadError),
    /// The tokenizer has gaps, an empty token or a long one in its vocabulary, or it
    /// cuts a text in two ways at once or by a pattern of its own.
    Unusable,
}

/// Why a text has no tokens.
#[derive(Debug)]
pub enum EncodeError {
    /// There is no tokenizer.
    Load(LoadError),
    /// The text is too long.
    LongText,
}

/// The vocabulary of a tokenizer.
pub struct Vocabulary {
    inner: tokie::Tokenizer,
}

impl Vocabulary {
    /// The bytes of each token, by its id.
    pub closed spec fn tokens(&self) -> Seq<Seq<u8>> {
        vocabulary(self.inner)
    }

    /// Loads a vocabulary from the text of a `tokenizer.json`.
    pub fn from_json(json: &str) -> (r: Result<Vocabulary, LoadError>)
        ensures
            match vocabulary_in(json@) {
                Some((tokens, _)) => r is Ok && r->Ok_0.tokens() == tokens,
                None => r is Err,
            },
            r matches Err(error) ==> (error is Unusable <==> !is_loadable(json@)),
    {
        if !check_loadable(json) {
            return Err(LoadError::Unusable);
        }
        match load_tokenizer(json) {
            Ok(inner) => Ok(Vocabulary { inner }),
            Err(cause) => Err(LoadError::Refused(cause)),
        }
    }

    /// The number of tokens.
    pub fn vocab_size(&self) -> (n: usize)
        ensures
            n == self.tokens().len(),
    {
        vocab_size(&self.inner)
    }

    /// The bytes of a token.
    pub fn token_to_bytes(&self, id: u32) -> (bytes: &[u8])
        requires
            id < self.tokens().len(),
        ensures
            bytes@ == self.tokens()[id as int],
    {
        token_bytes(&self.inner, id)
    }
}

/// A tokenizer.
pub struct TextTokenizer {
    inner: tokie::Tokenizer,
}

impl TextTokenizer {
    /// The rules by which texts are cut.
    pub closed spec fn cut(&self) -> Seq<u8> {
        rules(self.inner)
    }

    /// The tokenizer was found in a text.
    #[verifier::type_invariant]
    spec fn is_found(&self) -> bool {
        is_loaded(self.inner)
    }

    /// Loads a tokenizer from the text of a `tokenizer.json`.
    pub fn from_json(json: &str) -> (r: Result<TextTokenizer, LoadError>)
        ensures
            match tokenizer_in(json@) {
                Some((_, cut)) => r is Ok && r->Ok_0.cut() == cut,
                None => r is Err,
            },
            r matches Err(error) ==> (error is Unusable <==> !is_usable(json@)),
    {
        if !check_usable(json) {
            return Err(LoadError::Unusable);
        }
        match load_tokenizer(json) {
            Ok(inner) => {
                assert(tokenizer_in(json@) == Some((vocabulary(inner), rules(inner))));
                Ok(TextTokenizer { inner })
            },
            Err(cause) => Err(LoadError::Refused(cause)),
        }
    }

    /// The ids of a text; nothing where it is too long. No special tokens are added
    /// around it.
    pub fn encode(&self, text: &str) -> (ids: Option<Vec<u32>>)
        ensures
            ids is Some <==> is_short(text@),
            ids is Some ==> encodes(self.cut(), text@, ids->0@),
    {
        proof {
            use_type_invariant(self);
        }
        if !check_short(text) {
            return None;
        }
        Some(encode_text(&self.inner, text))
    }
}

} // verus!
