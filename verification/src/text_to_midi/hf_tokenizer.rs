//! The tokenizer of the language model, with the `tokenizers` crate: it marks
//! where a text begins and ends.

use vstd::prelude::*;

use crate::json::{json_value, parse_json, value_text};
use crate::text::{chars_of, owned};
use crate::text_to_midi::hf_settings::{check_usable, is_usable};

verus! {

/// A tokenizer of the `tokenizers` crate.
#[verifier::external_type_specification]
#[verifier::external_body]
pub struct ExHfTokenizer(tokenizers::Tokenizer);

/// What a tokenizer was made from.
pub uninterp spec fn contents(tokenizer: tokenizers::Tokenizer) -> Seq<u8>;

/// What the `tokenizers` crate reads in a value; nothing where it refuses it.
pub uninterp spec fn read_contents(value: Seq<char>) -> Option<Seq<u8>>;

/// What a tokenizer is made from; nothing where the text has none that can be used.
pub open spec fn tokenizer_in(json: Seq<char>) -> Option<Seq<u8>> {
    match json_value(json) {
        Some(value) => if is_usable(value) {
            read_contents(value)
        } else {
            None
        },
        None => None,
    }
}

/// The tokenizer is one that was found in a value.
pub open spec fn is_read(tokenizer: tokenizers::Tokenizer) -> bool {
    exists|value: Seq<char>|
        is_usable(value) && #[trigger] read_contents(value) == Some(contents(tokenizer))
}

/// The id that `tokenizers::Tokenizer::token_to_id` finds for a token.
pub uninterp spec fn token_id(contents: Seq<u8>, token: Seq<char>) -> Option<u32>;

/// The outcome is one that `tokenizers::Tokenizer::encode` may have on a text,
/// without special tokens: ids, or nothing where it fails. A tokenizer with dropout
/// cuts a text by chance, so there may be several; which there are depends on the
/// tokenizer and the text alone.
pub uninterp spec fn may_encode(
    contents: Seq<u8>,
    text: Seq<char>,
    outcome: Option<Seq<u32>>,
) -> bool;

/// The token that each id of a tokenizer stands for. Where the text that it was
/// read from gives two tokens one id, a seeded hash decides between them.
pub uninterp spec fn lookup(tokenizer: tokenizers::Tokenizer) -> Seq<u8>;

/// The text that `tokenizers::Tokenizer::decode` makes of ids, without special
/// tokens; nothing where it fails.
pub uninterp spec fn decoded(contents: Seq<u8>, lookup: Seq<u8>, ids: Seq<u32>) -> Option<
    Seq<char>,
>;

/// `serde_json::from_value` into a `tokenizers::Tokenizer`, which reads a value as
/// `tokenizers::Tokenizer::from_file` reads the text of one: what is read depends on
/// the value alone. The error is what is said of it. The right half of a merge is cut by
/// the length of the prefix without a look at it, a table for normalization that cannot
/// be read is not reported, and scored tokens are kept as deep as they are long, so such
/// values are left out.
#[verifier::external_body]
pub(crate) fn read_tokenizer(value: serde_json::Value) -> (r: Result<
    tokenizers::Tokenizer,
    serde_json::Error,
>)
    requires
        is_usable(value_text(value)),
    ensures
        r is Ok <==> read_contents(value_text(value)) is Some,
        r is Ok ==> contents(r->Ok_0) == read_contents(value_text(value))->0,
{
    serde_json::from_value(value)
}

/// `serde_json::Error::to_string`: what is said of an error.
#[verifier::external_body]
pub(crate) fn said_of(error: &serde_json::Error) -> (said: String) {
    error.to_string()
}

/// `tokenizers::Tokenizer::token_to_id`: depends on the tokenizer and the token
/// alone.
#[verifier::external_body]
pub(crate) fn id_of(tokenizer: &tokenizers::Tokenizer, token: &str) -> (id: Option<u32>)
    ensures
        id == token_id(contents(*tokenizer), token@),
{
    tokenizer.token_to_id(token)
}

/// A text of this many characters is too long to be encoded.
pub const LONG_TEXT: usize = 100_000;

/// What came back of a call, as plain values.
pub open spec fn outcome(ids: Option<Vec<u32>>) -> Option<Seq<u32>> {
    match ids {
        Some(ids) => Some(ids@),
        None => None,
    }
}

/// `tokenizers::Tokenizer::encode` without special tokens, and its ids; nothing
/// where it fails. What comes back is one of the outcomes that the call may have on
/// this tokenizer and this text. Where there are several it is not said which: chance
/// decides, at times even on whether the call fails. Left out are tokenizers that cut
/// texts with an overlap as long as they are left or into pieces of no length, that
/// frame them by a template for two, that look for added tokens of which nothing is
/// left or among spaces that another has taken, and that split by any pattern: this
/// one was found in a value that can be used. The patterns that are known go back over a run of spaces, and the search
/// gives up after ten million steps back, so long texts are left out.
#[verifier::external_body]
pub(crate) fn ids_of(tokenizer: &tokenizers::Tokenizer, text: &str) -> (ids: Option<Vec<u32>>)
    requires
        is_read(*tokenizer),
        text@.len() < LONG_TEXT,
    ensures
        may_encode(contents(*tokenizer), text@, outcome(ids)),
{
    tokenizer.encode(text, false).ok().map(|encoding| encoding.get_ids().to_vec())
}

/// `tokenizers::Tokenizer::decode` without special tokens: depends on the tokenizer,
/// with the tokens that its ids stand for, and the ids alone. Decoders that need a last
/// token, take characters off the end of a token, or replace anything but a text are
/// left out: this tokenizer was found in a value that can be used.
#[verifier::external_body]
pub(crate) fn text_of(tokenizer: &tokenizers::Tokenizer, ids: &[u32]) -> (text: Option<String>)
    requires
        is_read(*tokenizer),
    ensures
        match decoded(contents(*tokenizer), lookup(*tokenizer), ids@) {
            Some(words) => text is Some && text->0@ == words,
            None => text is None,
        },
{
    tokenizer.decode(ids, true).ok()
}

/// Why there is no tokenizer in a text.
#[derive(Debug)]
pub enum HfTokenizerError {
    /// The text cannot be read; what is said of it.
    Load(String),
    /// The tokenizer has settings that contradict each other or that are not known to
    /// work on every text.
    Unusable,
    /// The token that marks the beginning is missing.
    NoBegin,
    /// The token that marks the end is missing.
    NoEnd,
}

impl HfTokenizerError {
    /// The message of an error.
    pub open spec fn text(&self) -> Seq<char> {
        match self {
            HfTokenizerError::Load(cause) => "failed to load Hugging Face tokenizer: "@ + cause@,
            HfTokenizerError::Unusable =>
                "failed to load Hugging Face tokenizer: its settings cannot be used"@,
            HfTokenizerError::NoBegin => "missing <|begin_of_text|> special token"@,
            HfTokenizerError::NoEnd => "missing <|end_of_text|> special token"@,
        }
    }

    /// The message of an error.
    pub fn message(&self) -> (message: String)
        ensures
            message@ == self.text(),
    {
        match self {
            HfTokenizerError::Load(cause) => {
                let mut message = owned("failed to load Hugging Face tokenizer: ");
                message.append(cause.as_str());
                message
            },
            HfTokenizerError::Unusable => owned(
                "failed to load Hugging Face tokenizer: its settings cannot be used",
            ),
            HfTokenizerError::NoBegin => owned("missing <|begin_of_text|> special token"),
            HfTokenizerError::NoEnd => owned("missing <|end_of_text|> special token"),
        }
    }
}

/// Tokenizer loaded from the text of a `tokenizer.json`.
pub struct HfTokenizer {
    tokenizer: tokenizers::Tokenizer,
    bos_id: u32,
    eos_id: u32,
}

/// Ids with the marks of the beginning and the end that are asked for.
pub open spec fn framed(
    ids: Seq<u32>,
    bos_id: u32,
    eos_id: u32,
    bos: bool,
    eos: bool,
) -> Seq<u32> {
    let begun = if bos {
        seq![bos_id] + ids
    } else {
        ids
    };
    if eos {
        begun.push(eos_id)
    } else {
        begun
    }
}

/// The ids that came back of a call, with the marks that are asked for; nothing
/// where nothing came back.
pub open spec fn framed_outcome(
    outcome: Option<Seq<u32>>,
    bos_id: u32,
    eos_id: u32,
    bos: bool,
    eos: bool,
) -> Option<Seq<u32>> {
    match outcome {
        Some(ids) => Some(framed(ids, bos_id, eos_id, bos, eos)),
        None => None,
    }
}

/// Puts the marks of the beginning and the end that are asked for around ids.
pub fn frame_ids(ids: Vec<u32>, bos_id: u32, eos_id: u32, bos: bool, eos: bool) -> (tokens: Vec<
    u32,
>)
    ensures
        tokens@ == framed(ids@, bos_id, eos_id, bos, eos),
{
    let mut tokens = ids;
    if bos {
        tokens.insert(0, bos_id);
        assert(tokens@ =~= seq![bos_id] + ids@);
    }
    if eos {
        tokens.push(eos_id);
    }
    tokens
}

impl HfTokenizer {
    /// What the tokenizer was made from.
    pub closed spec fn made_from(&self) -> Seq<u8> {
        contents(self.tokenizer)
    }

    /// The token that each id stands for.
    pub closed spec fn table(&self) -> Seq<u8> {
        lookup(self.tokenizer)
    }

    /// The id of the mark of the beginning.
    pub closed spec fn begin(&self) -> u32 {
        self.bos_id
    }

    /// The id of the mark of the end.
    pub closed spec fn end(&self) -> u32 {
        self.eos_id
    }

    /// The tokenizer was found in a text.
    #[verifier::type_invariant]
    spec fn is_found(&self) -> bool {
        is_read(self.tokenizer)
    }

    /// Loads a tokenizer from the text of a `tokenizer.json`. It must have both
    /// marks.
    pub fn new(json: &str) -> (r: Result<HfTokenizer, HfTokenizerError>)
        ensures
            match tokenizer_in(json@) {
                None => if json_value(json@) is Some && !is_usable(json_value(json@)->0) {
                    r matches Err(HfTokenizerError::Unusable)
                } else {
                    r matches Err(HfTokenizerError::Load(_))
                },
                Some(made) => match token_id(made, "<|begin_of_text|>"@) {
                    None => r matches Err(HfTokenizerError::NoBegin),
                    Some(begin) => match token_id(made, "<|end_of_text|>"@) {
                        None => r matches Err(HfTokenizerError::NoEnd),
                        Some(end) => r is Ok && r->Ok_0.made_from() == made && r->Ok_0.begin()
                            == begin && r->Ok_0.end() == end,
                    },
                },
            },
    {
        let value = match parse_json(json) {
            Ok(value) => value,
            Err(cause) => {
                return Err(HfTokenizerError::Load(said_of(&cause)));
            },
        };
        if !check_usable(&value) {
            return Err(HfTokenizerError::Unusable);
        }
        let tokenizer = match read_tokenizer(value) {
            Ok(tokenizer) => tokenizer,
            Err(cause) => {
                return Err(HfTokenizerError::Load(said_of(&cause)));
            },
        };
        let bos_id: u32 = match id_of(&tokenizer, "<|begin_of_text|>") {
            Some(id) => id,
            None => {
                return Err(HfTokenizerError::NoBegin);
            },
        };
        let eos_id: u32 = match id_of(&tokenizer, "<|end_of_text|>") {
            Some(id) => id,
            None => {
                return Err(HfTokenizerError::NoEnd);
            },
        };
        assert(read_contents(json_value(json@)->0) == Some(contents(tokenizer)));
        Ok(HfTokenizer { tokenizer, bos_id, eos_id })
    }

    /// The outside encoder may have such an outcome on the text that it gives these
    /// tokens, with the marks that are asked for; a text that is too long gives nothing.
    pub open spec fn may_give(
        &self,
        text: Seq<char>,
        bos: bool,
        eos: bool,
        tokens: Option<Seq<u32>>,
    ) -> bool {
        if text.len() < LONG_TEXT {
            exists|outcome: Option<Seq<u32>>| #[trigger]
                may_encode(self.made_from(), text, outcome) && tokens == framed_outcome(
                    outcome,
                    self.begin(),
                    self.end(),
                    bos,
                    eos,
                )
        } else {
            tokens is None
        }
    }

    /// The ids of a text, with the marks that are asked for; nothing where the
    /// text is too long or cannot be encoded.
    pub fn encode(&self, text: &str, bos: bool, eos: bool) -> (tokens: Option<Vec<u32>>)
        ensures
            self.may_give(text@, bos, eos, outcome(tokens)),
    {
        proof {
            use_type_invariant(self);
        }
        if chars_of(text).len() >= LONG_TEXT {
            return None;
        }
        let found = ids_of(&self.tokenizer, text);
        assert(may_encode(self.made_from(), text@, outcome(found)));
        match found {
            Some(ids) => Some(frame_ids(ids, self.bos_id, self.eos_id, bos, eos)),
            None => None,
        }
    }

    /// The text of ids, without special tokens; an empty one where they cannot be
    /// decoded.
    pub fn decode(&self, tokens: Vec<u32>) -> (text: String)
        ensures
            text@ == match decoded(self.made_from(), self.table(), tokens@) {
                Some(words) => words,
                None => Seq::empty(),
            },
    {
        proof {
            use_type_invariant(self);
        }
        match text_of(&self.tokenizer, tokens.as_slice()) {
            Some(text) => text,
            None => String::new(),
        }
    }

    /// The id of the mark of the beginning.
    pub fn bos_id(&self) -> (id: u32)
        ensures
            id == self.begin(),
    {
        self.bos_id
    }

    /// The id of the mark of the end.
    pub fn eos_id(&self) -> (id: u32)
        ensures
            id == self.end(),
    {
        self.eos_id
    }

    /// The ids at which a text ends: the mark of the end alone.
    pub fn stop_ids(&self) -> (ids: Vec<u32>)
        ensures
            ids@ == seq![self.end()],
    {
        let mut ids: Vec<u32> = Vec::new();
        ids.push(self.eos_id);
        assert(ids@ =~= seq![self.end()]);
        ids
    }
}

} // verus!
