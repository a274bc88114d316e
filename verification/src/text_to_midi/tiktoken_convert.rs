//! Conversion of a `tokenizer.json` into the tiktoken format, which lists the
//! base tokens: one line for each, with its bytes in base64 and its id.

use base64::Engine;
use vstd::prelude::*;

use crate::text::{decimal, decimal_text};
use crate::tokenizer::{vocabulary_in, LoadError, Vocabulary};

verus! {

/// Number of base text tokens in the Llama 3 vocabulary.
pub const LLAMA_BASE_VOCAB_SIZE: usize = 128_000;

/// The character of the base64 alphabet for six bits.
pub open spec fn letter(n: int) -> char {
    if n < 26 {
        ('A' as int + n) as char
    } else if n < 52 {
        ('a' as int + n - 26) as char
    } else if n < 62 {
        ('0' as int + n - 52) as char
    } else if n == 62 {
        '+'
    } else {
        '/'
    }
}

/// Bytes in base64: four characters for every three bytes, and `=` for what is
/// missing of the last three.
pub open spec fn base64_text(bytes: Seq<u8>) -> Seq<char>
    decreases bytes.len(),
{
    let a = bytes[0] as int;
    let b = bytes[1] as int;
    let c = bytes[2] as int;
    if bytes.len() == 0 {
        Seq::empty()
    } else if bytes.len() == 1 {
        seq![letter(a / 4), letter(a % 4 * 16), '=', '=']
    } else if bytes.len() == 2 {
        seq![letter(a / 4), letter(a % 4 * 16 + b / 16), letter(b % 16 * 4), '=']
    } else {
        seq![
            letter(a / 4),
            letter(a % 4 * 16 + b / 16),
            letter(b % 16 * 4 + c / 64),
            letter(c % 64),
        ] + base64_text(bytes.skip(3))
    }
}

/// `base64::Engine::encode` of `base64::engine::general_purpose::STANDARD`: the
/// standard alphabet, with padding. The text must fit into memory.
#[verifier::external_body]
pub(crate) fn to_base64(bytes: &[u8]) -> (text: String)
    requires
        bytes@.len() <= usize::MAX / 4,
    ensures
        text@ == base64_text(bytes@),
{
    base64::engine::general_purpose::STANDARD.encode(bytes)
}

/// Why a tokenizer cannot be converted.
#[derive(Debug)]
pub enum TiktokenError {
    /// There is no tokenizer in the text.
    Load(LoadError),
    /// The vocabulary has fewer tokens than the base vocabulary.
    SmallVocab(usize),
    /// The token with this id is too long.
    LongToken(usize),
}

/// The token with the given id is short enough.
pub open spec fn token_fits(vocabulary: Seq<Seq<u8>>, id: int) -> bool {
    vocabulary[id].len() <= usize::MAX / 4
}

/// The line of a token.
pub open spec fn token_line(bytes: Seq<u8>, id: nat) -> Seq<char> {
    base64_text(bytes) + " "@ + decimal(id) + "\n"@
}

/// The line of a token: its bytes in base64, and its id.
pub fn tiktoken_line(bytes: &[u8], id: usize) -> (line: String)
    requires
        bytes@.len() <= usize::MAX / 4,
    ensures
        line@ == token_line(bytes@, id as nat),
{
    let mut line = to_base64(bytes);
    line.append(" ");
    line.append(decimal_text(id as u64).as_str());
    line.append("\n");
    line
}

/// The lines of the first `n` tokens.
pub open spec fn token_lines(vocabulary: Seq<Seq<u8>>, n: int) -> Seq<char>
    decreases n,
{
    if n <= 0 {
        Seq::empty()
    } else {
        token_lines(vocabulary, n - 1) + token_line(vocabulary[n - 1], (n - 1) as nat)
    }
}

/// `r` is the base tokens of a vocabulary in the tiktoken format; nothing where the
/// vocabulary is too small, or where a token is too long, the first of which is
/// told.
pub open spec fn is_conversion(
    vocabulary: Seq<Seq<u8>>,
    r: Result<String, TiktokenError>,
) -> bool {
    if vocabulary.len() < LLAMA_BASE_VOCAB_SIZE {
        r matches Err(TiktokenError::SmallVocab(size)) && size == vocabulary.len()
    } else {
        match r {
            Ok(text) => {
                &&& text@ == token_lines(vocabulary, LLAMA_BASE_VOCAB_SIZE as int)
                &&& forall|i: int|
                    0 <= i < LLAMA_BASE_VOCAB_SIZE ==> #[trigger] token_fits(vocabulary, i)
            },
            Err(TiktokenError::LongToken(id)) => {
                &&& id < LLAMA_BASE_VOCAB_SIZE
                &&& !token_fits(vocabulary, id as int)
                &&& forall|i: int| 0 <= i < id ==> #[trigger] token_fits(vocabulary, i)
            },
            Err(_) => false,
        }
    }
}

/// Converts the text of a `tokenizer.json` into the tiktoken format.
///
/// Only the base tokens are listed. Added tokens are left to the caller.
pub fn convert_hf_tokenizer_to_tiktoken(tokenizer_json: &str) -> (r: Result<
    String,
    TiktokenError,
>)
    ensures
        match vocabulary_in(tokenizer_json@) {
            None => r matches Err(TiktokenError::Load(_)),
            Some((vocabulary, _)) => is_conversion(vocabulary, r),
        },
{
    let vocabulary = match Vocabulary::from_json(tokenizer_json) {
        Ok(vocabulary) => vocabulary,
        Err(error) => {
            return Err(TiktokenError::Load(error));
        },
    };
    let size: usize = vocabulary.vocab_size();
    if size < LLAMA_BASE_VOCAB_SIZE {
        return Err(TiktokenError::SmallVocab(size));
    }
    let mut text = String::new();
    let mut id: usize = 0;
    while id < LLAMA_BASE_VOCAB_SIZE
        invariant
            id <= LLAMA_BASE_VOCAB_SIZE <= vocabulary.tokens().len(),
            vocabulary_in(tokenizer_json@) is Some,
            vocabulary.tokens() == (vocabulary_in(tokenizer_json@)->0).0,
            text@ == token_lines(vocabulary.tokens(), id as int),
            forall|i: int| 0 <= i < id ==> #[trigger] token_fits(vocabulary.tokens(), i),
        decreases LLAMA_BASE_VOCAB_SIZE - id,
    {
        let bytes = vocabulary.token_to_bytes(id as u32);
        let length: usize = bytes.len();
        if length > usize::MAX / 4 {
            assert(!token_fits(vocabulary.tokens(), id as int));
            return Err(TiktokenError::LongToken(id));
        }
        text.append(tiktoken_line(bytes, id).as_str());
        assert(token_fits(vocabulary.tokens(), id as int));
        id += 1;
    }
    Ok(text)
}

/// Name of the converted file, next to `tokenizer.json`.
pub const TIKTOKEN_FILENAME: &'static str = "tokenizer.model";

/// Whether the converted file has to be made anew, given when either file was last
/// changed, for a file that is there: where one of them is missing, or where the
/// `tokenizer.json` is the newer one.
pub fn should_convert(model_time: Option<i128>, json_time: Option<i128>) -> (answer: bool)
    ensures
        answer == (model_time is None || json_time is None || json_time->0 > model_time->0),
{
    match model_time {
        Some(model) => match json_time {
            Some(json) => json > model,
            None => true,
        },
        None => true,
    }
}

} // verus!
