//! What the values of the library say: each as much as its parts, and each part in its place.

use vstd::arithmetic::power2::pow2;
use vstd::prelude::*;

use crate::acestep::fsq::{are_level_values, is_level_value, level_steps};
use crate::acestep::layout::list_view;
use crate::acestep::lm::{is_ranking, is_sample, kept_count, CodeRun, SamplingConfig};
use crate::acestep::vocab::{token_models, AddedToken, CodeMaps};
use crate::convert::archive::{entry_models, ZipEntry, ZipError, ZipFault};
use crate::convert::checkpoint::{
    contents, entry_end, file_tensors, header_text, is_listing, is_sorted, lists_lines, names_at,
    safetensors_file, tensor_line,
};
use crate::convert::decode::{DecodeError, DecodeFault, Format};
use crate::convert::names::is_name;
use crate::convert::options::{OptionsError, OptionsFault};
use crate::convert::pickle::{Fault, PickleError};
use crate::convert::torch::{TorchError, TorchFault};
use crate::json::{json_items, json_member, json_number, json_value, json_values};
use crate::single::{fraction, Single};
use crate::text::{text_before, views};
use crate::text_to_midi::hf_tokenizer::outcome;
use crate::text_to_midi::midi_llm::optional_view;
use crate::text_to_midi::words::char_views;

verus! {

/// A name that was computed is the one that it should be, and is missing just where that is.
pub proof fn lemma_names(computed: Option<String>, name: Option<Seq<char>>)
    ensures
        is_name(computed, name) <==> (computed is Some <==> name is Some) && (name is Some
            ==> computed->0@ == name->0),
        optional_view(computed) is Some <==> computed is Some,
        computed is Some ==> optional_view(computed) == Some(computed->0@),
{
}

/// Lists have as many parts as they seem to have, and these in their places.
pub proof fn lemma_lists(
    texts: Seq<String>,
    chars: Seq<Vec<char>>,
    buffers: Seq<Vec<u8>>,
    entries: Seq<ZipEntry>,
    tokens: Seq<AddedToken>,
    names: Seq<Seq<char>>,
    places: Seq<usize>,
    i: int,
)
    ensures
        views(texts).len() == texts.len(),
        0 <= i < texts.len() ==> views(texts)[i] == texts[i]@,
        char_views(chars).len() == chars.len(),
        0 <= i < chars.len() ==> char_views(chars)[i] == chars[i]@,
        contents(buffers).len() == buffers.len(),
        0 <= i < buffers.len() ==> contents(buffers)[i] == buffers[i]@,
        entry_models(entries).len() == entries.len(),
        0 <= i < entries.len() ==> entry_models(entries)[i] == entries[i]@,
        names_at(names, places).len() == places.len(),
        0 <= i < places.len() ==> names_at(names, places)[i] == names[places[i] as int],
        token_models(tokens).len() == tokens.len(),
        0 <= i < tokens.len() ==> token_models(tokens)[i].1 == tokens[i].id,
        0 <= i < tokens.len() && tokens[i].content is Some ==> token_models(tokens)[i].0 == Some(
            tokens[i].content->0@,
        ),
        0 <= i < tokens.len() && tokens[i].content is None ==> token_models(tokens)[i].0 is None,
{
}

/// What came back of a call, and a list that may be missing.
pub proof fn lemma_optional_lists(ids: Option<Vec<u32>>, list: Option<&[i64]>)
    ensures
        ids matches Some(found) ==> outcome(ids) == Some(found@),
        ids is None ==> outcome(ids) is None,
        list matches Some(found) ==> list_view(list) == Some(found@),
        list is None ==> list_view(list) is None,
{
}

/// The errors of the converter say what they are about.
pub proof fn lemma_errors(
    zip: ZipError,
    pickle: PickleError,
    decode: DecodeError,
    key: String,
    offset: usize,
)
    ensures
        TorchError::Directory(zip)@ == TorchFault::Directory(zip@),
        TorchError::Entry(zip)@ == TorchFault::Entry(zip@),
        TorchError::Pickle(pickle)@ == TorchFault::Pickle(pickle@),
        TorchError::NonzeroOffset(offset)@ == TorchFault::NonzeroOffset(offset),
        TorchError::NoStorage(key)@ == TorchFault::NoStorage(key@),
        TorchError::Decode(key, decode)@ == TorchFault::Decode(key@, decode@),
        TorchError::NoPickle@ == TorchFault::NoPickle,
        TorchError::NotATensor@ == TorchFault::NotATensor,
        DecodeError::UnsupportedDtype(key)@ == DecodeFault::UnsupportedDtype(key@),
        DecodeError::UnsupportedStorage(key)@ == DecodeFault::UnsupportedStorage(key@),
        OptionsError::UnknownArgument(key)@ == OptionsFault::UnknownArgument(key@),
        OptionsError::InvalidDimension(key)@ == OptionsFault::InvalidDimension(key@),
        OptionsError::UnsupportedComponent(key)@ == OptionsFault::UnsupportedComponent(key@),
        PickleError::InvalidLong(key)@ == Fault::InvalidLong(key@),
        ZipError::DataEnd(key)@ == ZipFault::DataEnd(key@),
        ZipError::CorruptLocalHeader(key)@ == ZipFault::CorruptLocalHeader(key@),
{
}

/// A number of single precision: its fraction behind a one, in units of two to the power of its
/// exponent less 150, or behind nought where its exponent is the lowest.
pub proof fn lemma_single_numbers(value: Single)
    ensures
        ({
            let rest = value.bits as int % 0x8000_0000;
            let e = rest / 0x80_0000;
            let f = rest % 0x80_0000;
            &&& value.negative() <==> value.bits >= 0x8000_0000
            &&& value.is_nan() <==> rest > 0x7f80_0000
            &&& value.magnitude() == rest
            &&& e == 0 ==> fraction(value) == (f, pow2(149) as int)
            &&& 0 < e < 150 ==> fraction(value) == (0x80_0000 + f, pow2((150 - e) as nat) as int)
            &&& e >= 150 ==> fraction(value) == (
                (0x80_0000 + f) * pow2((e - 150) as nat),
                1int,
            )
        }),
{
}

/// Names are in order: none comes before one that stands in front of it.
pub proof fn lemma_sorted(texts: Seq<Seq<char>>, i: int, j: int)
    requires
        is_sorted(texts),
        0 <= i < j < texts.len(),
    ensures
        !text_before(texts[j], texts[i]),
{
}

/// The values of a code are those of its digits, each with the levels of its place.
pub proof fn lemma_code_values(indices: Seq<u32>, values: Seq<Single>, d: int)
    requires
        are_level_values(indices, values),
        0 <= d < 6,
    ensures
        values.len() == 6,
        d < 3 ==> is_level_value(indices[d], 7, values[d]),
        d >= 3 ==> is_level_value(indices[d], 4, values[d]),
{
    assert(is_level_value(indices[d], level_steps(d), values[d]));
}

/// The candidates of a draw are the first of the ranked ones, as many as are kept.
pub proof fn lemma_candidates(
    logits: Seq<Single>,
    ids: Seq<usize>,
    sampling: SamplingConfig,
    kept: Seq<usize>,
)
    requires
        is_sample(logits, ids, sampling, kept),
    ensures
        exists|ranked: Seq<usize>| #[trigger]
            is_ranking(logits, ids, ranked) && kept == ranked.take(
                kept_count(sampling, ranked.len() as int),
            ),
{
}

/// Bytes are decoded where they come out even, and refused where they do not.
pub proof fn lemma_decoding(format: Format, data: Seq<u8>, r: Result<Vec<Single>, DecodeError>)
    requires
        format.decoding(data, r),
    ensures
        r is Ok <==> data.len() as int % format.width() == 0,
        r matches Ok(values) ==> format.decodes(data, values@),
        r matches Err(error) ==> error@ == format.fault(),
{
}

/// A file is read as it is where its header speaks of nothing beyond its end.
pub proof fn lemma_file_is_read(bytes: Seq<u8>, value: Seq<char>, entries: Seq<Seq<char>>)
    ensures
        header_text(bytes) is None ==> file_tensors(bytes) == safetensors_file(bytes),
        header_text(bytes) matches Some(text) && json_value(text) is None ==> file_tensors(bytes)
            == safetensors_file(bytes),
        header_text(bytes) matches Some(text) && json_value(text) == Some(value) && json_values(
            value,
        ) == Some(entries) && (forall|i: int|
            0 <= i < entries.len() ==> (entry_end(#[trigger] entries[i]) matches Some(end) ==> end
                <= bytes.len())) ==> file_tensors(bytes) == safetensors_file(bytes),
{
}

/// The data of an entry end where the second of its offsets says.
pub proof fn lemma_entry_end(entry: Seq<char>, offsets: Seq<char>, pair: Seq<Seq<char>>)
    requires
        json_member(entry, "data_offsets"@) == Some(offsets),
        json_items(offsets) == Some(pair),
        pair.len() == 2,
    ensures
        entry_end(entry) == json_number(pair[1]),
{
}

/// A listing has a line for every tensor of a file, and no other lines.
pub proof fn lemma_listing(
    file: Map<Seq<char>, (Seq<char>, Seq<usize>, Seq<u8>)>,
    lines: Seq<String>,
    name: Seq<char>,
)
    requires
        is_listing(file, lines),
        file.dom().contains(name),
    ensures
        exists|i: int| 0 <= i < lines.len() && (#[trigger] lines[i])@ == tensor_line(name, file[name]),
        forall|i: int|
            0 <= i < lines.len() ==> exists|other: Seq<char>| #[trigger]
                file.dom().contains(other) && (#[trigger] lines[i])@ == tensor_line(
                    other,
                    file[other],
                ),
{
    let names = choose|names: Seq<Seq<char>>| #[trigger] lists_lines(file, lines, names);
    assert(names.contains(name));
    let i = choose|i: int| 0 <= i < names.len() && names[i] == name;
    assert(lines[i]@ == tensor_line(names[i], file[names[i]]));
    assert forall|i: int| 0 <= i < lines.len() implies exists|other: Seq<char>| #[trigger]
        file.dom().contains(other) && (#[trigger] lines[i])@ == tensor_line(other, file[other]) by {
        assert(file.dom().contains(names[i]));
    }
}

/// A run has taken as many steps as it has sampled tokens, none of which was the stop token,
/// and not more than it may.
pub proof fn lemma_runs(run: CodeRun, tokens: Seq<u32>, maps: CodeMaps, i: int)
    requires
        run.follows(tokens, maps),
        0 <= i < tokens.len(),
    ensures
        run.steps == tokens.len(),
        run.steps <= run.budget,
        tokens[i] != 151_645,
{
    assert(tokens.contains(tokens[i]));
}

} // verus!
