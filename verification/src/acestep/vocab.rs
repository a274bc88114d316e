//! The audio codes in the vocabulary of the planner: which token stands for
//! which code.

use std::collections::HashMap;

use vstd::prelude::*;

use crate::json::{
    items, json_items, json_member, json_number, json_string, json_value, member, number,
    parse_json, string, value_text, value_texts,
};
use crate::text::{
    chars_of, ends_with, has_suffix, owned, parse_unsigned, starts_with, strip_prefix,
    unsigned_number,
};

verus! {

broadcast use {vstd::std_specs::hash::group_hash_axioms, vstd::hash_map::group_hash_map_axioms};

/// `<|im_end|>`, the end-of-generation stop token of the planner.
pub const IM_END_ID: u32 = 151_645;

/// `<|endoftext|>`, the base end of sequence; not the planner's stop token.
pub const ENDOFTEXT_ID: u32 = 151_643;

/// Highest valid audio code index (`<|audio_code_63999|>`).
pub const MAX_AUDIO_CODE: u32 = 63_999;

/// The code that the text of a token names: the whole number between
/// `<|audio_code_` and `|>`.
pub open spec fn code_named(content: Seq<char>) -> Option<u32> {
    let head = "<|audio_code_"@;
    let tail = "|>"@;
    let rest = content.skip(head.len() as int);
    if starts_with(content, head) && ends_with(rest, tail) {
        match unsigned_number(rest.take(rest.len() - tail.len()), u32::MAX as int) {
            Some(n) => Some(n as u32),
            None => None,
        }
    } else {
        None
    }
}

/// Finds the code that the text of a token names.
pub fn parse_audio_code_content(content: &str) -> (code: Option<u32>)
    ensures
        code == code_named(content@),
{
    let rest = match strip_prefix(content, "<|audio_code_") {
        Some(rest) => rest,
        None => {
            return None;
        },
    };
    if !has_suffix(rest.as_str(), "|>") {
        return None;
    }
    let chars = chars_of(rest.as_str());
    proof {
        reveal_strlit("|>");
        assert("|>"@.len() == 2);
    }
    let digits = vstd::slice::slice_subrange(chars.as_slice(), 0, chars.len() - 2);
    assert(digits@ =~= rest@.take(rest@.len() - 2));
    match parse_unsigned(digits, 0xffff_ffff) {
        Some(n) => Some(n as u32),
        None => None,
    }
}

/// An entry of the added tokens of a tokenizer: its text and its id, where it has
/// them.
#[derive(Debug)]
pub struct AddedToken {
    pub content: Option<String>,
    pub id: Option<u64>,
}

/// What an `AddedToken` says.
pub open spec fn token_model(token: AddedToken) -> (Option<Seq<char>>, Option<u64>) {
    (
        match token.content {
            Some(content) => Some(content@),
            None => None,
        },
        token.id,
    )
}

/// What a list of added tokens says.
pub open spec fn token_models(tokens: Seq<AddedToken>) -> Seq<(Option<Seq<char>>, Option<u64>)> {
    tokens.map_values(|token: AddedToken| token_model(token))
}

/// The code and the id of an added token that stands for an audio code.
pub open spec fn code_entry(token: (Option<Seq<char>>, Option<u64>)) -> Option<(u32, u64)> {
    match token {
        (Some(content), Some(id)) => match code_named(content) {
            Some(code) => Some((code, id)),
            None => None,
        },
        _ => None,
    }
}

/// The code of an added token that stands for one.
pub open spec fn entry_code(token: (Option<Seq<char>>, Option<u64>)) -> u32 {
    let (code, _) = code_entry(token)->0;
    code
}

/// The id of an added token that stands for a code.
pub open spec fn entry_id(token: (Option<Seq<char>>, Option<u64>)) -> u64 {
    let (_, id) = code_entry(token)->0;
    id
}

/// The tokens of codes, and the codes of tokens.
#[verifier::ext_equal]
pub ghost struct CodeMaps {
    pub code_to_token: Map<u32, u32>,
    pub token_to_code: Map<u32, u32>,
}

/// The maps after the first `n` added tokens: a later token replaces an earlier
/// one for the same code, and a later code an earlier one for the same id. An id
/// that is too large is an error, and is named by the text of its token.
pub open spec fn maps_after(tokens: Seq<(Option<Seq<char>>, Option<u64>)>, n: int) -> Result<
    CodeMaps,
    Seq<char>,
>
    decreases n,
{
    if n <= 0 {
        Ok(CodeMaps { code_to_token: Map::empty(), token_to_code: Map::empty() })
    } else {
        match maps_after(tokens, n - 1) {
            Err(content) => Err(content),
            Ok(maps) => match code_entry(tokens[n - 1]) {
                None => Ok(maps),
                Some((code, id)) => if id > u32::MAX {
                    Err(tokens[n - 1].0->0)
                } else {
                    Ok(
                        CodeMaps {
                            code_to_token: maps.code_to_token.insert(code, id as u32),
                            token_to_code: maps.token_to_code.insert(id as u32, code),
                        },
                    )
                },
            },
        }
    }
}

/// Why a tokenizer was refused.
#[derive(Debug)]
pub enum VocabError {
    /// The text is no JSON.
    Json(serde_json::Error),
    /// The id of the token with this text is too large.
    IdOutOfRange(String),
}

/// Bidirectional map between `<|audio_code_N|>` token ids and code indices.
#[derive(Clone, Debug)]
pub struct AudioCodeVocab {
    code_to_token: HashMap<u32, u32>,
    token_to_code: HashMap<u32, u32>,
}

impl Default for AudioCodeVocab {
    /// A vocabulary without audio codes.
    fn default() -> (vocab: AudioCodeVocab)
        ensures
            vocab@ == (CodeMaps { code_to_token: Map::empty(), token_to_code: Map::empty() }),
    {
        AudioCodeVocab { code_to_token: HashMap::new(), token_to_code: HashMap::new() }
    }
}

impl AudioCodeVocab {
    /// The token that stops generation.
    pub const IM_END_ID: u32 = 151_645;

    /// The end-of-text token.
    pub const ENDOFTEXT_ID: u32 = 151_643;

    pub closed spec fn view(&self) -> CodeMaps {
        CodeMaps { code_to_token: self.code_to_token@, token_to_code: self.token_to_code@ }
    }

    /// Adds a code and the token that stands for it.
    pub fn insert(&mut self, code: u32, id: u32)
        ensures
            final(self)@ == (CodeMaps {
                code_to_token: old(self)@.code_to_token.insert(code, id),
                token_to_code: old(self)@.token_to_code.insert(id, code),
            }),
    {
        self.code_to_token.insert(code, id);
        self.token_to_code.insert(id, code);
    }

    /// The vocabulary of a list of added tokens.
    pub fn from_added_tokens(tokens: &Vec<AddedToken>) -> (r: Result<AudioCodeVocab, VocabError>)
        ensures
            match maps_after(token_models(tokens@), tokens@.len() as int) {
                Ok(maps) => r is Ok && r->Ok_0@ == maps,
                Err(content) => r matches Err(VocabError::IdOutOfRange(text)) && text@ == content,
            },
    {
        let ghost all = token_models(tokens@);
        let mut vocab = AudioCodeVocab::default();
        let mut i: usize = 0;
        while i < tokens.len()
            invariant
                i <= tokens@.len(),
                all == token_models(tokens@),
                all.len() == tokens@.len(),
                maps_after(all, i as int) == Ok::<CodeMaps, Seq<char>>(vocab@),
            decreases tokens@.len() - i,
        {
            assert(all[i as int] == token_model(tokens@[i as int]));
            if let (Some(content), Some(id)) = (&tokens[i].content, tokens[i].id) {
                if let Some(code) = parse_audio_code_content(content.as_str()) {
                    if id > 0xffff_ffff {
                        proof {
                            lemma_first_error(all, i + 1);
                        }
                        return Err(VocabError::IdOutOfRange(content.clone()));
                    }
                    vocab.insert(code, id as u32);
                }
            }
            i += 1;
        }
        Ok(vocab)
    }

    /// The vocabulary of the `added_tokens` array of a `tokenizer.json` text.
    pub fn from_tokenizer_json(text: &str) -> (r: Result<AudioCodeVocab, VocabError>)
        ensures
            match json_value(text@) {
                None => r matches Err(VocabError::Json(_)),
                Some(value) => {
                    let tokens = added_tokens(value);
                    match maps_after(tokens, tokens.len() as int) {
                        Ok(maps) => r is Ok && r->Ok_0@ == maps,
                        Err(content) => r matches Err(VocabError::IdOutOfRange(blamed)) && blamed@
                            == content,
                    }
                },
            },
    {
        let value = match parse_json(text) {
            Ok(value) => value,
            Err(error) => {
                return Err(VocabError::Json(error));
            },
        };
        let tokens = read_added_tokens(&value);
        AudioCodeVocab::from_added_tokens(&tokens)
    }

    /// Token id of `<|audio_code_N|>`, or `None` if unknown.
    pub fn code_token_id(&self, n: u32) -> (id: Option<u32>)
        ensures
            id is Some <==> self@.code_to_token.contains_key(n),
            id is Some ==> id->0 == self@.code_to_token[n],
    {
        match self.code_to_token.get(&n) {
            Some(id) => Some(*id),
            None => None,
        }
    }

    /// Code index N for the token id of `<|audio_code_N|>`, or `None` when `id`
    /// is not an audio-code token.
    pub fn token_id_to_code(&self, id: u32) -> (code: Option<u32>)
        ensures
            code is Some <==> self@.token_to_code.contains_key(id),
            code is Some ==> code->0 == self@.token_to_code[id],
    {
        match self.token_to_code.get(&id) {
            Some(code) => Some(*code),
            None => None,
        }
    }

    /// How many codes have a token.
    pub fn len(&self) -> (n: usize)
        ensures
            n == self@.code_to_token.len(),
    {
        self.code_to_token.len()
    }

    /// Whether no code has a token.
    pub fn is_empty(&self) -> (answer: bool)
        ensures
            answer == (self@.code_to_token.len() == 0),
    {
        self.code_to_token.is_empty()
    }
}

/// The text of a member that is one.
pub open spec fn text_member(value: Seq<char>, key: Seq<char>) -> Option<Seq<char>> {
    match json_member(value, key) {
        Some(found) => json_string(found),
        None => None,
    }
}

/// The number of a member that is one.
pub open spec fn number_member(value: Seq<char>, key: Seq<char>) -> Option<u64> {
    match json_member(value, key) {
        Some(found) => json_number(found),
        None => None,
    }
}

/// The added tokens of a tokenizer; none where the member is missing or is no
/// array.
pub open spec fn added_tokens(value: Seq<char>) -> Seq<(Option<Seq<char>>, Option<u64>)> {
    match json_member(value, "added_tokens"@) {
        None => Seq::empty(),
        Some(found) => match json_items(found) {
            None => Seq::empty(),
            Some(entries) => entries.map_values(
                |entry: Seq<char>|
                    (text_member(entry, "content"@), number_member(entry, "id"@)),
            ),
        },
    }
}

/// Reads the added tokens of a tokenizer.
fn read_added_tokens(value: &serde_json::Value) -> (tokens: Vec<AddedToken>)
    ensures
        token_models(tokens@) == added_tokens(value_text(*value)),
{
    let ghost wanted = added_tokens(value_text(*value));
    let mut tokens: Vec<AddedToken> = Vec::new();
    assert(token_models(tokens@) =~= Seq::empty());
    let found = match member(value, "added_tokens") {
        Some(found) => found,
        None => {
            return tokens;
        },
    };
    let entries = match items(found) {
        Some(entries) => entries,
        None => {
            return tokens;
        },
    };
    let ghost texts = value_texts(entries@);
    let mut i: usize = 0;
    while i < entries.len()
        invariant
            i <= entries@.len(),
            texts == value_texts(entries@),
            wanted == texts.map_values(
                |entry: Seq<char>|
                    (text_member(entry, "content"@), number_member(entry, "id"@)),
            ),
            token_models(tokens@) == wanted.take(i as int),
        decreases entries@.len() - i,
    {
        let entry = &entries[i];
        assert(texts[i as int] == value_text(entries@[i as int]));
        let content = match member(entry, "content") {
            Some(value) => match string(value) {
                Some(text) => Some(owned(text)),
                None => None,
            },
            None => None,
        };
        let id: Option<u64> = match member(entry, "id") {
            Some(value) => number(value),
            None => None,
        };
        let ghost before = tokens@;
        let token = AddedToken { content, id };
        let ghost model = token_model(token);
        tokens.push(token);
        assert(token_models(tokens@) =~= token_models(before).push(model));
        assert(wanted.take(i + 1) =~= wanted.take(i as int).push(wanted[i as int]));
        i += 1;
    }
    assert(wanted.take(i as int) =~= wanted);
    tokens
}

/// The error of a front part is the error of the whole.
proof fn lemma_first_error(tokens: Seq<(Option<Seq<char>>, Option<u64>)>, n: int)
    requires
        0 <= n <= tokens.len(),
        maps_after(tokens, n) is Err,
    ensures
        maps_after(tokens, tokens.len() as int) == maps_after(tokens, n),
    decreases tokens.len() - n,
{
    if n < tokens.len() {
        lemma_first_error(tokens, n + 1);
    }
}

/// No two of the tokens stand for one code or share an id.
pub open spec fn is_bijective(tokens: Seq<(Option<Seq<char>>, Option<u64>)>) -> bool {
    forall|i: int, j: int|
        #![trigger tokens[i], tokens[j]]
        0 <= i < j < tokens.len() && code_entry(tokens[i]) is Some && code_entry(tokens[j]) is Some
            ==> entry_code(tokens[i]) != entry_code(tokens[j]) && entry_id(tokens[i]) != entry_id(tokens[j])
}

/// The two maps undo each other.
pub open spec fn are_inverse(maps: CodeMaps) -> bool {
    &&& forall|code: u32|
        #[trigger] maps.code_to_token.contains_key(code) ==> maps.token_to_code.contains_key(
            maps.code_to_token[code],
        ) && maps.token_to_code[maps.code_to_token[code]] == code
    &&& forall|id: u32|
        #[trigger] maps.token_to_code.contains_key(id) ==> maps.code_to_token.contains_key(
            maps.token_to_code[id],
        ) && maps.code_to_token[maps.token_to_code[id]] == id
}

/// Where no two added tokens stand for one code or share an id, the code of the
/// token of a code is that code, and the token of the code of a token is that
/// token.
pub proof fn lemma_inverse(tokens: Seq<(Option<Seq<char>>, Option<u64>)>, n: int)
    requires
        is_bijective(tokens),
        0 <= n <= tokens.len(),
        maps_after(tokens, n) is Ok,
    ensures
        are_inverse(maps_after(tokens, n)->Ok_0),
{
    lemma_inverse_from(tokens, n);
}

proof fn lemma_inverse_from(tokens: Seq<(Option<Seq<char>>, Option<u64>)>, n: int)
    requires
        is_bijective(tokens),
        0 <= n <= tokens.len(),
        maps_after(tokens, n) is Ok,
    ensures
        are_inverse(maps_after(tokens, n)->Ok_0),
        forall|code: u32| #[trigger]
            maps_after(tokens, n)->Ok_0.code_to_token.contains_key(code) ==> exists|i: int|
                0 <= i < n && #[trigger] code_entry(tokens[i]) is Some && entry_code(tokens[i]) == code,
        forall|id: u32| #[trigger]
            maps_after(tokens, n)->Ok_0.token_to_code.contains_key(id) ==> exists|i: int|
                0 <= i < n && #[trigger] code_entry(tokens[i]) is Some && entry_id(tokens[i]) == id,
    decreases n,
{
    if n > 0 {
        lemma_inverse_from(tokens, n - 1);
        let before = maps_after(tokens, n - 1)->Ok_0;
        let after = maps_after(tokens, n)->Ok_0;
        if let Some((code, id)) = code_entry(tokens[n - 1]) {
            assert(!before.code_to_token.contains_key(code)) by {
                if before.code_to_token.contains_key(code) {
                    let i = choose|i: int|
                        0 <= i < n - 1 && #[trigger] code_entry(tokens[i]) is Some && entry_code(tokens[i]) == code;
                    assert(entry_code(tokens[i]) != entry_code(tokens[n - 1]));
                }
            }
            assert(!before.token_to_code.contains_key(id as u32)) by {
                if before.token_to_code.contains_key(id as u32) {
                    let i = choose|i: int|
                        0 <= i < n - 1 && #[trigger] code_entry(tokens[i]) is Some && entry_id(tokens[i]) == id as u32;
                    assert(entry_id(tokens[i]) != entry_id(tokens[n - 1]));
                }
            }
            assert(code_entry(tokens[n - 1]) is Some);
            assert forall|c: u32| #[trigger] after.code_to_token.contains_key(c) implies exists|
                i: int,
            |
                0 <= i < n && #[trigger] code_entry(tokens[i]) is Some && entry_code(tokens[i]) == c by {
                if c != code {
                    assert(before.code_to_token.contains_key(c));
                }
            }
            assert forall|t: u32| #[trigger] after.token_to_code.contains_key(t) implies exists|
                i: int,
            |
                0 <= i < n && #[trigger] code_entry(tokens[i]) is Some && entry_id(tokens[i]) == t by {
                if t != id as u32 {
                    assert(before.token_to_code.contains_key(t));
                }
            }
        }
    }
}

} // verus!
