//! Safetensors checkpoints: their tensors, renamed, decoded and sorted.

use vstd::prelude::*;

use crate::convert::decode::{
    decode_safetensor, dtype_format, has_count, product, DecodeError, DecodeFault,
};
use crate::convert::messages::{bracketed, list_line};
use crate::convert::names::{canonical, map_name, Component};
use crate::json::{
    borrowed_texts, items, json_items, json_member, json_number, json_value, json_values, member,
    number, parse_json, value_text, value_texts, values,
};
use crate::single::Single;
use crate::text::{
    ends_with, has_suffix, is_before, lemma_before_irreflexive, lemma_before_total,
    lemma_before_transitive, owned, same_text, text_before, text_strict, views,
};

verus! {

/// The error of the `safetensors` crate.
#[verifier::external_type_specification]
#[verifier::external_body]
pub struct ExSafeTensorError(safetensors::SafeTensorError);

/// A tensor of a checkpoint, as stored. The element type is given by its name.
pub struct RawTensor<'a> {
    pub name: String,
    pub dtype: String,
    pub shape: Vec<usize>,
    pub data: &'a [u8],
}

/// What `safetensors::SafeTensors::deserialize` finds in a file: for each tensor
/// name the name of the element type, the shape and the data; nothing where it
/// refuses the file.
pub uninterp spec fn safetensors_file(bytes: Seq<u8>) -> Option<
    Map<Seq<char>, (Seq<char>, Seq<usize>, Seq<u8>)>,
>;

/// The header of a file: the text of as many bytes as its first eight say.
pub open spec fn header_text(bytes: Seq<u8>) -> Option<Seq<char>> {
    if bytes.len() < 8 || bytes[4] != 0 || bytes[5] != 0 || bytes[6] != 0 || bytes[7] != 0 {
        None
    } else {
        let size = bytes[0] + 0x100 * bytes[1] + 0x1_0000 * bytes[2] + 0x100_0000 * bytes[3];
        let header = bytes.subrange(8, 8 + size);
        if 8 + size > bytes.len() || !vstd::utf8::valid_utf8(header) {
            None
        } else {
            Some(vstd::utf8::decode_utf8(header))
        }
    }
}

/// What an entry of the header says of its offsets: under their name, or in the
/// third place of a list.
pub open spec fn entry_offsets(entry: Seq<char>) -> Option<Seq<char>> {
    match json_member(entry, "data_offsets"@) {
        Some(offsets) => Some(offsets),
        None => match json_items(entry) {
            Some(parts) => if parts.len() == 3 {
                Some(parts[2])
            } else {
                None
            },
            None => None,
        },
    }
}

/// Where an entry of the header says that its data end.
pub open spec fn entry_end(entry: Seq<char>) -> Option<u64> {
    match entry_offsets(entry) {
        Some(offsets) => match json_items(offsets) {
            Some(pair) => if pair.len() == 2 {
                json_number(pair[1])
            } else {
                None
            },
            None => None,
        },
        None => None,
    }
}

/// No data end later than the file.
pub open spec fn header_fits(bytes: Seq<u8>) -> bool {
    match header_text(bytes) {
        Some(text) => match json_value(text) {
            Some(value) => match json_values(value) {
                Some(entries) => forall|i: int|
                    0 <= i < entries.len() ==> match entry_end(#[trigger] entries[i]) {
                        Some(end) => end <= bytes.len(),
                        None => true,
                    },
                None => true,
            },
            None => true,
        },
        None => true,
    }
}

/// What a file holds; nothing where it is refused.
pub open spec fn file_tensors(bytes: Seq<u8>) -> Option<
    Map<Seq<char>, (Seq<char>, Seq<usize>, Seq<u8>)>,
> {
    if header_fits(bytes) {
        safetensors_file(bytes)
    } else {
        None
    }
}

/// Reads the end of the data of an entry.
fn read_end(entry: &serde_json::Value) -> (end: Option<u64>)
    ensures
        end == entry_end(value_text(*entry)),
{
    let offsets = match member(entry, "data_offsets") {
        Some(offsets) => offsets,
        None => match items(entry) {
            Some(parts) => {
                if parts.len() != 3 {
                    return None;
                }
                assert(value_texts(parts@)[2] == value_text(parts@[2]));
                &parts[2]
            },
            None => {
                return None;
            },
        },
    };
    match items(offsets) {
        Some(pair) => {
            if pair.len() != 2 {
                return None;
            }
            assert(value_texts(pair@)[1] == value_text(pair@[1]));
            number(&pair[1])
        },
        None => None,
    }
}

/// Reads the header of a file.
fn read_header(bytes: &[u8]) -> (text: Option<String>)
    ensures
        match header_text(bytes@) {
            Some(header) => text is Some && text->0@ == header,
            None => text is None,
        },
{
    if bytes.len() < 8 || bytes[4] != 0 || bytes[5] != 0 || bytes[6] != 0 || bytes[7] != 0 {
        return None;
    }
    let size: u64 = bytes[0] as u64 + 0x100 * bytes[1] as u64 + 0x1_0000 * bytes[2] as u64
        + 0x100_0000 * bytes[3] as u64;
    let length: usize = bytes.len();
    if 8 + size > length as u64 {
        return None;
    }
    let end: usize = (8 + size) as usize;
    text_strict(vstd::slice::slice_subrange(bytes, 8, end))
}

/// Whether no data end later than the file.
fn check_header(bytes: &[u8]) -> (fits: bool)
    ensures
        fits == header_fits(bytes@),
{
    let text = match read_header(bytes) {
        Some(text) => text,
        None => {
            return true;
        },
    };
    let value = match parse_json(text.as_str()) {
        Ok(value) => value,
        Err(_) => {
            return true;
        },
    };
    let entries = match values(&value) {
        Some(entries) => entries,
        None => {
            return true;
        },
    };
    let length: usize = bytes.len();
    let ghost all = borrowed_texts(entries@);
    let mut i: usize = 0;
    while i < entries.len()
        invariant
            i <= entries@.len(),
            all == borrowed_texts(entries@),
            length == bytes@.len(),
            header_text(bytes@) is Some,
            json_value(header_text(bytes@)->0) is Some,
            json_values(json_value(header_text(bytes@)->0)->0) == Some(all),
            forall|k: int|
                0 <= k < i ==> match entry_end(#[trigger] all[k]) {
                    Some(end) => end <= length,
                    None => true,
                },
        decreases entries@.len() - i,
    {
        assert(all[i as int] == value_text(*entries@[i as int]));
        if let Some(end) = read_end(entries[i]) {
            if end > length as u64 {
                assert(entry_end(all[i as int]) is Some);
                return false;
            }
        }
        i += 1;
    }
    true
}

/// `list` holds the tensors of `file`, each once, in any order.
pub open spec fn lists_file(
    list: Seq<RawTensor>,
    file: Map<Seq<char>, (Seq<char>, Seq<usize>, Seq<u8>)>,
) -> bool {
    &&& forall|i: int|
        0 <= i < list.len() ==> file.contains_key((#[trigger] list[i]).name@) && file[list[i].name@]
            == (list[i].dtype@, list[i].shape@, list[i].data@)
    &&& forall|i: int, j: int|
        0 <= i < j < list.len() ==> (#[trigger] list[i]).name@ != (#[trigger] list[j]).name@
    &&& forall|name: Seq<char>|
        file.contains_key(name) ==> exists|i: int|
            0 <= i < list.len() && (#[trigger] list[i]).name@ == name
}

/// `safetensors::SafeTensors::deserialize` and `tensors`: which tensors a file
/// holds depends on its bytes alone, and so does whether it is refused. Every
/// tensor is listed once; the order is that of a hash map, and is left open. The end
/// of the data is added to the size of the header without a check, so a header with
/// an end beyond the file is left out.
#[verifier::external_body]
fn parse_safetensors<'a>(bytes: &'a [u8]) -> (r: Result<
    Vec<RawTensor<'a>>,
    safetensors::SafeTensorError,
>)
    requires
        header_fits(bytes@),
    ensures
        r is Ok <==> safetensors_file(bytes@) is Some,
        r is Ok ==> lists_file(r->Ok_0@, safetensors_file(bytes@)->0),
{
    let parsed = safetensors::SafeTensors::deserialize(bytes)?;
    Ok(
        parsed.tensors().into_iter().map(
            |(name, view)|
                RawTensor {
                    name,
                    dtype: format!("{:?}", view.dtype()),
                    shape: view.shape().to_vec(),
                    data: view.data(),
                },
        ).collect(),
    )
}

/// Why a file was refused.
#[derive(Debug)]
pub enum FileError {
    /// The file cannot be parsed.
    Parse(safetensors::SafeTensorError),
    /// The header speaks of data beyond the end of the file.
    Incomplete,
}

/// Reads the tensors of a file.
fn read_file<'a>(bytes: &'a [u8]) -> (r: Result<Vec<RawTensor<'a>>, FileError>)
    ensures
        r is Ok <==> file_tensors(bytes@) is Some,
        r is Ok ==> lists_file(r->Ok_0@, file_tensors(bytes@)->0),
        r matches Err(error) ==> (error is Incomplete <==> !header_fits(bytes@)),
{
    if !check_header(bytes) {
        return Err(FileError::Incomplete);
    }
    match parse_safetensors(bytes) {
        Ok(list) => Ok(list),
        Err(cause) => Err(FileError::Parse(cause)),
    }
}

/// A tensor ready to be written.
#[derive(Debug)]
pub struct ConvertedTensor {
    pub name: String,
    pub shape: Vec<usize>,
    pub data: Vec<Single>,
}

/// Why a checkpoint was refused.
#[derive(Debug)]
pub enum CheckpointError {
    /// The file at this place cannot be parsed.
    Parse(usize, FileError),
    /// The data of this tensor cannot be decoded.
    Decode(String, DecodeError),
    /// The tensor has a shape, but another number of elements.
    WrongCount(String, Vec<usize>, usize),
    /// Several tensors have this canonical name.
    Collision(String),
}

/// The files of a checkpoint.
pub open spec fn contents(buffers: Seq<Vec<u8>>) -> Seq<Seq<u8>> {
    buffers.map_values(|buffer: Vec<u8>| buffer@)
}

/// The tensor `key.1` of the file `key.0`.
pub open spec fn stored(files: Seq<Seq<u8>>, key: (int, Seq<char>)) -> (
    Seq<char>,
    Seq<usize>,
    Seq<u8>,
) {
    file_tensors(files[key.0])->0[key.1]
}

/// `key` names a tensor of one of the files.
pub open spec fn is_stored(files: Seq<Seq<u8>>, key: (int, Seq<char>)) -> bool {
    0 <= key.0 < files.len() && file_tensors(files[key.0]) is Some && file_tensors(
        files[key.0],
    )->0.contains_key(key.1)
}

/// `key` names a tensor that the component keeps.
pub open spec fn is_kept(component: Component, files: Seq<Seq<u8>>, key: (int, Seq<char>)) -> bool {
    is_stored(files, key) && canonical(component, key.1) is Some
}

/// `key` names a tensor that the component leaves out.
pub open spec fn is_skipped(
    component: Component,
    files: Seq<Seq<u8>>,
    key: (int, Seq<char>),
) -> bool {
    is_stored(files, key) && canonical(component, key.1) is None
}

/// The stored tensor has a supported element type, a whole number of elements,
/// and as many of them as its shape says.
pub open spec fn is_decodable(tensor: (Seq<char>, Seq<usize>, Seq<u8>)) -> bool {
    match dtype_format(tensor.0) {
        None => false,
        Some(format) => tensor.2.len() as int == product(tensor.1) * format.width(),
    }
}

/// The converted tensor is the stored one, under its canonical name.
pub open spec fn converts(
    component: Component,
    files: Seq<Seq<u8>>,
    key: (int, Seq<char>),
    tensor: ConvertedTensor,
) -> bool {
    let raw = stored(files, key);
    &&& is_kept(component, files, key)
    &&& canonical(component, key.1) == Some(tensor.name@)
    &&& tensor.shape@ == raw.1
    &&& tensor.data@.len() == product(raw.1)
    &&& dtype_format(raw.0) is Some
    &&& dtype_format(raw.0)->0.decodes(raw.2, tensor.data@)
}

/// Every file can be parsed.
pub open spec fn all_parse(files: Seq<Seq<u8>>) -> bool {
    forall|f: int| 0 <= f < files.len() ==> file_tensors(#[trigger] files[f]) is Some
}

/// Every tensor that is kept can be decoded.
pub open spec fn all_decode(component: Component, files: Seq<Seq<u8>>) -> bool {
    forall|key: (int, Seq<char>)| #[trigger]
        is_kept(component, files, key) ==> is_decodable(stored(files, key))
}

/// No two tensors that are kept have the same canonical name.
pub open spec fn no_collision(component: Component, files: Seq<Seq<u8>>) -> bool {
    forall|a: (int, Seq<char>), b: (int, Seq<char>)|
        #[trigger] is_kept(component, files, a) && #[trigger] is_kept(component, files, b) && a != b
            ==> canonical(component, a.1) != canonical(component, b.1)
}

/// The checkpoint can be converted.
pub open spec fn is_convertible(component: Component, files: Seq<Seq<u8>>) -> bool {
    all_parse(files) && all_decode(component, files) && no_collision(component, files)
}

/// The names of the converted tensors.
pub open spec fn tensor_names(tensors: Seq<ConvertedTensor>) -> Seq<Seq<char>> {
    tensors.map_values(|tensor: ConvertedTensor| tensor.name@)
}

/// No text comes before an earlier one.
pub open spec fn is_sorted(texts: Seq<Seq<char>>) -> bool {
    forall|i: int, j: int|
        0 <= i < j < texts.len() ==> !text_before(#[trigger] texts[j], #[trigger] texts[i])
}

/// Every text comes before the later ones.
pub open spec fn is_strictly_sorted(texts: Seq<Seq<char>>) -> bool {
    forall|i: int, j: int|
        0 <= i < j < texts.len() ==> text_before(#[trigger] texts[i], #[trigger] texts[j])
}

/// `tensors` are the kept tensors, converted; `keys` tells where each comes
/// from.
pub open spec fn lists_kept(
    component: Component,
    files: Seq<Seq<u8>>,
    tensors: Seq<ConvertedTensor>,
    keys: Seq<(int, Seq<char>)>,
) -> bool {
    &&& keys.len() == tensors.len()
    &&& keys.no_duplicates()
    &&& forall|i: int|
        0 <= i < keys.len() ==> converts(component, files, #[trigger] keys[i], tensors[i])
    &&& forall|key: (int, Seq<char>)| #[trigger]
        is_kept(component, files, key) ==> keys.contains(key)
}

/// `names` are the names of the tensors that are left out; `keys` tells where
/// each comes from.
pub open spec fn lists_skipped(
    component: Component,
    files: Seq<Seq<u8>>,
    names: Seq<String>,
    keys: Seq<(int, Seq<char>)>,
) -> bool {
    &&& keys.len() == names.len()
    &&& keys.no_duplicates()
    &&& forall|i: int|
        0 <= i < keys.len() ==> is_skipped(component, files, #[trigger] keys[i]) && names[i]@
            == keys[i].1
    &&& forall|key: (int, Seq<char>)| #[trigger]
        is_skipped(component, files, key) ==> keys.contains(key)
}

/// Putting a text before the first one that it comes before keeps a list
/// sorted.
proof fn lemma_insert_sorted(texts: Seq<Seq<char>>, at: int, text: Seq<char>)
    requires
        is_sorted(texts),
        0 <= at <= texts.len(),
        forall|i: int| 0 <= i < at ==> !text_before(text, #[trigger] texts[i]),
        at < texts.len() ==> text_before(text, texts[at]),
    ensures
        is_sorted(texts.insert(at, text)),
{
    let after = texts.insert(at, text);
    assert forall|i: int, j: int| 0 <= i < j < after.len() implies !text_before(
        #[trigger] after[j],
        #[trigger] after[i],
    ) by {
        if i == at {
            let later = texts[j - 1];
            if text_before(later, text) {
                lemma_before_transitive(later, text, texts[at]);
                lemma_before_irreflexive(later);
                assert(j - 1 > at ==> !text_before(texts[j - 1], texts[at]));
            }
        } else if j == at {
            assert(after[i] == texts[i]);
        } else {
            let p = if i < at {
                i
            } else {
                i - 1
            };
            let q = if j < at {
                j
            } else {
                j - 1
            };
            assert(after[i] == texts[p] && after[j] == texts[q]);
        }
    }
}

/// A sorted list whose neighbours differ is strictly sorted.
proof fn lemma_neighbours(texts: Seq<Seq<char>>)
    requires
        is_sorted(texts),
        forall|i: int| 0 < i < texts.len() ==> texts[i - 1] != #[trigger] texts[i],
    ensures
        is_strictly_sorted(texts),
{
    assert forall|i: int, j: int| 0 <= i < j < texts.len() implies text_before(
        #[trigger] texts[i],
        #[trigger] texts[j],
    ) by {
        lemma_chain(texts, i, j);
    }
}

proof fn lemma_chain(texts: Seq<Seq<char>>, i: int, j: int)
    requires
        is_sorted(texts),
        forall|k: int| 0 < k < texts.len() ==> texts[k - 1] != #[trigger] texts[k],
        0 <= i < j < texts.len(),
    ensures
        text_before(texts[i], texts[j]),
    decreases j - i,
{
    assert(texts[j - 1] != texts[j]);
    lemma_before_total(texts[j - 1], texts[j]);
    assert(!text_before(texts[j], texts[j - 1]));
    if i < j - 1 {
        lemma_chain(texts, i, j - 1);
        lemma_before_transitive(texts[i], texts[j - 1], texts[j]);
    }
}

/// An entry put into a list is in it, and so is everything else.
proof fn lemma_insert_contains<A>(list: Seq<A>, at: int, item: A)
    requires
        0 <= at <= list.len(),
    ensures
        list.insert(at, item).contains(item),
        forall|x: A| list.contains(x) ==> #[trigger] list.insert(at, item).contains(x),
        list.no_duplicates() && !list.contains(item) ==> list.insert(at, item).no_duplicates(),
{
    let after = list.insert(at, item);
    assert(after[at] == item);
    assert forall|x: A| list.contains(x) implies #[trigger] after.contains(x) by {
        let i = choose|i: int| 0 <= i < list.len() && list[i] == x;
        if i < at {
            assert(after[i] == x);
        } else {
            assert(after[i + 1] == x);
        }
    }
    if list.no_duplicates() && !list.contains(item) {
        assert forall|i: int, j: int|
            0 <= i < after.len() && 0 <= j < after.len() && i != j implies after[i] != after[j] by {
            let p = if i < at {
                i
            } else {
                i - 1
            };
            let q = if j < at {
                j
            } else {
                j - 1
            };
            if i != at {
                assert(after[i] == list[p]);
            }
            if j != at {
                assert(after[j] == list[q]);
            }
        }
    }
}

/// Where a text belongs in a sorted list of names.
fn place_for_name(names: &Vec<String>, text: &str) -> (at: usize)
    requires
        is_sorted(views(names@)),
    ensures
        at <= names@.len(),
        is_sorted(views(names@).insert(at as int, text@)),
{
    let ghost texts = views(names@);
    let mut at: usize = 0;
    while at < names.len() && !is_before(text, names[at].as_str())
        invariant
            at <= names@.len(),
            texts == views(names@),
            is_sorted(texts),
            forall|i: int| 0 <= i < at ==> !text_before(text@, #[trigger] texts[i]),
        decreases names@.len() - at,
    {
        at += 1;
    }
    proof {
        lemma_insert_sorted(texts, at as int, text@);
    }
    at
}

/// Where a tensor of the given name belongs in a list sorted by name.
fn place_for_tensor(tensors: &Vec<ConvertedTensor>, text: &str) -> (at: usize)
    requires
        is_sorted(tensor_names(tensors@)),
    ensures
        at <= tensors@.len(),
        is_sorted(tensor_names(tensors@).insert(at as int, text@)),
{
    let ghost texts = tensor_names(tensors@);
    let mut at: usize = 0;
    while at < tensors.len() && !is_before(text, tensors[at].name.as_str())
        invariant
            at <= tensors@.len(),
            texts == tensor_names(tensors@),
            is_sorted(texts),
            forall|i: int| 0 <= i < at ==> !text_before(text@, #[trigger] texts[i]),
        decreases tensors@.len() - at,
    {
        at += 1;
    }
    proof {
        lemma_insert_sorted(texts, at as int, text@);
    }
    at
}

/// `key` names a tensor of a file before `f`, or one of the first `j` tensors of
/// the file `f`.
spec fn is_seen(f: int, list: Seq<RawTensor>, j: int, key: (int, Seq<char>)) -> bool {
    key.0 < f || (key.0 == f && exists|i: int|
        0 <= i < j && (#[trigger] list[i]).name@ == key.1)
}

/// The tensors seen so far that are kept have been converted.
spec fn converted_so_far(
    component: Component,
    files: Seq<Seq<u8>>,
    f: int,
    list: Seq<RawTensor>,
    j: int,
    tensors: Seq<ConvertedTensor>,
    keys: Seq<(int, Seq<char>)>,
) -> bool {
    &&& keys.len() == tensors.len()
    &&& keys.no_duplicates()
    &&& is_sorted(tensor_names(tensors))
    &&& forall|i: int|
        0 <= i < keys.len() ==> converts(component, files, #[trigger] keys[i], tensors[i])
            && is_seen(f, list, j, keys[i])
    &&& forall|key: (int, Seq<char>)| #[trigger]
        is_kept(component, files, key) && is_seen(f, list, j, key) ==> keys.contains(key)
}

/// The tensors seen so far that are left out have been noted.
spec fn skipped_so_far(
    component: Component,
    files: Seq<Seq<u8>>,
    f: int,
    list: Seq<RawTensor>,
    j: int,
    names: Seq<String>,
    keys: Seq<(int, Seq<char>)>,
) -> bool {
    &&& keys.len() == names.len()
    &&& keys.no_duplicates()
    &&& is_sorted(views(names))
    &&& forall|i: int|
        0 <= i < keys.len() ==> is_skipped(component, files, #[trigger] keys[i]) && names[i]@
            == keys[i].1 && is_seen(f, list, j, keys[i])
    &&& forall|key: (int, Seq<char>)| #[trigger]
        is_skipped(component, files, key) && is_seen(f, list, j, key) ==> keys.contains(key)
}

/// Converts one stored tensor under its canonical name.
fn convert_tensor(raw: &RawTensor, name: String) -> (r: Result<ConvertedTensor, CheckpointError>)
    ensures
        is_decodable((raw.dtype@, raw.shape@, raw.data@)) ==> r is Ok && r->Ok_0.name@ == name@
            && r->Ok_0.shape@ == raw.shape@ && r->Ok_0.data@.len() == product(raw.shape@)
            && dtype_format(raw.dtype@)->0.decodes(raw.data@, r->Ok_0.data@),
        !is_decodable((raw.dtype@, raw.shape@, raw.data@)) ==> r is Err && is_tensor_error(
            r->Err_0,
            raw.name@,
            (raw.dtype@, raw.shape@, raw.data@),
        ),
{
    let data = match decode_safetensor(raw.dtype.as_str(), raw.data) {
        Ok(data) => data,
        Err(error) => {
            proof {
                if dtype_format(raw.dtype@) is Some {
                    let w = dtype_format(raw.dtype@)->0.width();
                    let n = product(raw.shape@);
                    if raw.data@.len() == n * w {
                        assert((n * w) % w == 0) by (nonlinear_arith)
                            requires
                                w > 0,
                        ;
                    }
                }
            }
            return Err(CheckpointError::Decode(raw.name.clone(), error));
        },
    };
    proof {
        let w = dtype_format(raw.dtype@)->0.width();
        let n = product(raw.shape@);
        let m = data@.len() as int;
        assert(m * w == n * w <==> m == n) by (nonlinear_arith)
            requires
                w > 0,
        ;
    }
    let shape = vstd::slice::slice_to_vec(raw.shape.as_slice());
    if !has_count(shape.as_slice(), data.len()) {
        return Err(CheckpointError::WrongCount(raw.name.clone(), shape, data.len()));
    }
    Ok(ConvertedTensor { name, shape, data })
}

/// The error blames the stored tensor of the given name: for its element type, for
/// data that are no whole number of elements, or for the number of them.
pub open spec fn is_tensor_error(
    error: CheckpointError,
    name: Seq<char>,
    tensor: (Seq<char>, Seq<usize>, Seq<u8>),
) -> bool {
    match dtype_format(tensor.0) {
        None => error matches CheckpointError::Decode(blamed, cause) && blamed@ == name && cause@
            == DecodeFault::UnsupportedDtype(tensor.0),
        Some(format) => if tensor.2.len() as int % format.width() != 0 {
            error matches CheckpointError::Decode(blamed, cause) && blamed@ == name && cause@
                == format.fault()
        } else {
            error matches CheckpointError::WrongCount(blamed, shape, count) && blamed@ == name
                && shape@ == tensor.1 && count * format.width() == tensor.2.len()
        },
    }
}

/// The file can be parsed, and every tensor of it that is kept can be decoded.
pub open spec fn passes(component: Component, files: Seq<Seq<u8>>, f: int) -> bool {
    &&& file_tensors(files[f]) is Some
    &&& forall|key: (int, Seq<char>)|
        #[trigger] is_kept(component, files, key) && key.0 == f ==> is_decodable(
            stored(files, key),
        )
}

/// The files before this one can be parsed, and what is kept of them decoded.
pub open spec fn passes_until(component: Component, files: Seq<Seq<u8>>, f: int) -> bool {
    forall|g: int| 0 <= g < f ==> #[trigger] passes(component, files, g)
}

/// Several tensors that are kept have this canonical name.
pub open spec fn collides(component: Component, files: Seq<Seq<u8>>, name: Seq<char>) -> bool {
    exists|a: (int, Seq<char>), b: (int, Seq<char>)|
        #[trigger] is_kept(component, files, a) && #[trigger] is_kept(component, files, b) && a != b
            && canonical(component, a.1) == Some(name) && canonical(component, b.1) == Some(name)
}

/// The error names the reason for which the checkpoint cannot be converted: what is
/// wrong with the first file that does not pass, or, where all pass, the first name
/// that several tensors have.
pub open spec fn is_reason(
    component: Component,
    files: Seq<Seq<u8>>,
    error: CheckpointError,
) -> bool {
    match error {
        CheckpointError::Parse(f, cause) => {
            &&& f < files.len()
            &&& passes_until(component, files, f as int)
            &&& file_tensors(files[f as int]) is None
            &&& cause is Incomplete <==> !header_fits(files[f as int])
        },
        CheckpointError::Collision(name) => {
            &&& passes_until(component, files, files.len() as int)
            &&& collides(component, files, name@)
            &&& forall|other: Seq<char>| #[trigger]
                collides(component, files, other) ==> !text_before(other, name@)
        },
        _ => exists|key: (int, Seq<char>)| #[trigger]
            is_kept(component, files, key) && !is_decodable(stored(files, key)) && is_tensor_error(
                error,
                key.1,
                stored(files, key),
            ) && passes_until(component, files, key.0),
    }
}

/// Converts a safetensors checkpoint, given the bytes of its files: its tensors
/// under their canonical names and sorted by them, and the sorted names of the
/// tensors that the component leaves out.
///
/// A checkpoint is refused where a file cannot be parsed, where the data of a
/// tensor cannot be decoded, or where two tensors get the same name. Which of
/// several undecodable tensors of one file is blamed is left open.
#[verifier::rlimit(60)]
#[verifier::spinoff_prover]
pub fn convert_safetensors(component: Component, buffers: &Vec<Vec<u8>>) -> (r: Result<
    (Vec<ConvertedTensor>, Vec<String>),
    CheckpointError,
>)
    requires
        component != Component::Silence,
    ensures
        r is Ok <==> is_convertible(component, contents(buffers@)),
        r matches Ok((tensors, skipped)) ==> {
            &&& is_strictly_sorted(tensor_names(tensors@))
            &&& is_sorted(views(skipped@))
            &&& exists|keys: Seq<(int, Seq<char>)>| #[trigger]
                lists_kept(component, contents(buffers@), tensors@, keys)
            &&& exists|keys: Seq<(int, Seq<char>)>| #[trigger]
                lists_skipped(component, contents(buffers@), skipped@, keys)
        },
        r matches Err(error) ==> is_reason(component, contents(buffers@), error),
{
    let ghost files = contents(buffers@);
    let mut converted: Vec<ConvertedTensor> = Vec::new();
    let mut skipped: Vec<String> = Vec::new();
    let ghost mut kept_keys: Seq<(int, Seq<char>)> = Seq::empty();
    let ghost mut skipped_keys: Seq<(int, Seq<char>)> = Seq::empty();
    let ghost none: Seq<RawTensor> = Seq::empty();
    let mut f: usize = 0;
    while f < buffers.len()
        invariant
            component != Component::Silence,
            f <= buffers@.len(),
            files == contents(buffers@),
            none.len() == 0,
            passes_until(component, files, f as int),
            forall|key: (int, Seq<char>)|
                #[trigger] is_kept(component, files, key) && key.0 < f ==> is_decodable(
                    stored(files, key),
                ),
            converted_so_far(component, files, f as int, none, 0, converted@, kept_keys),
            skipped_so_far(component, files, f as int, none, 0, skipped@, skipped_keys),
        decreases buffers@.len() - f,
    {
        assert(files[f as int] == buffers@[f as int]@);
        let list = match read_file(buffers[f].as_slice()) {
            Ok(list) => list,
            Err(error) => {
                return Err(CheckpointError::Parse(f, error));
            },
        };
        let mut j: usize = 0;
        while j < list.len()
            invariant
                component != Component::Silence,
                f < buffers@.len(),
                files == contents(buffers@),
                files.len() == buffers@.len(),
                j <= list@.len(),
                passes_until(component, files, f as int),
                file_tensors(files[f as int]) is Some,
                lists_file(list@, file_tensors(files[f as int])->0),
                forall|key: (int, Seq<char>)|
                    #[trigger] is_kept(component, files, key) && is_seen(
                        f as int,
                        list@,
                        j as int,
                        key,
                    ) ==> is_decodable(stored(files, key)),
                converted_so_far(
                    component,
                    files,
                    f as int,
                    list@,
                    j as int,
                    converted@,
                    kept_keys,
                ),
                skipped_so_far(
                    component,
                    files,
                    f as int,
                    list@,
                    j as int,
                    skipped@,
                    skipped_keys,
                ),
            decreases list@.len() - j,
        {
            let raw = &list[j];
            let ghost key = (f as int, raw.name@);
            assert(list@[j as int].name@ == key.1);
            assert(is_stored(files, key));
            assert(stored(files, key) == (raw.dtype@, raw.shape@, raw.data@));
            assert(!is_seen(f as int, list@, j as int, key));
            proof {
                lemma_seen_next(f as int, list@, j as int);
            }
            match map_name(component, raw.name.as_str()) {
                None => {
                    let at: usize = place_for_name(&skipped, raw.name.as_str());
                    let ghost before = skipped@;
                    let ghost old_keys = skipped_keys;
                    skipped.insert(at, raw.name.clone());
                    proof {
                        skipped_keys = skipped_keys.insert(at as int, key);
                        assert(views(skipped@) =~= views(before).insert(at as int, key.1));
                        assert(!old_keys.contains(key));
                        lemma_insert_contains(old_keys, at as int, key);
                        assert forall|i: int| 0 <= i < skipped_keys.len() implies is_skipped(
                            component,
                            files,
                            #[trigger] skipped_keys[i],
                        ) && skipped@[i]@ == skipped_keys[i].1 && is_seen(
                            f as int,
                            list@,
                            j + 1,
                            skipped_keys[i],
                        ) by {
                            if i < at {
                                assert(skipped_keys[i] == old_keys[i]);
                            } else if i > at {
                                assert(skipped_keys[i] == old_keys[i - 1]);
                            }
                        }
                    }
                },
                Some(name) => {
                    let at: usize = place_for_tensor(&converted, name.as_str());
                    let ghost text = name@;
                    assert(is_kept(component, files, key));
                    let tensor = match convert_tensor(raw, name) {
                        Ok(tensor) => tensor,
                        Err(error) => {
                            return Err(error);
                        },
                    };
                    let ghost before = converted@;
                    let ghost old_keys = kept_keys;
                    let ghost item = tensor;
                    converted.insert(at, tensor);
                    proof {
                        assert(converts(component, files, key, item));
                        kept_keys = kept_keys.insert(at as int, key);
                        assert(tensor_names(converted@) =~= tensor_names(before).insert(
                            at as int,
                            text,
                        ));
                        assert(!old_keys.contains(key));
                        lemma_insert_contains(old_keys, at as int, key);
                        assert forall|i: int| 0 <= i < kept_keys.len() implies converts(
                            component,
                            files,
                            #[trigger] kept_keys[i],
                            converted@[i],
                        ) && is_seen(f as int, list@, j + 1, kept_keys[i]) by {
                            if i < at {
                                assert(kept_keys[i] == old_keys[i]);
                            } else if i > at {
                                assert(kept_keys[i] == old_keys[i - 1]);
                            }
                        }
                    }
                },
            }
            j += 1;
        }
        proof {
            lemma_file_done(files, f as int, list@);
            assert(passes(component, files, f as int));
            assert(passes_until(component, files, f + 1));
        }
        f += 1;
    }
    proof {
        assert forall|key: (int, Seq<char>)| #[trigger] is_kept(component, files, key) implies is_seen(
            f as int,
            none,
            0,
            key,
        ) by {}
        assert forall|key: (int, Seq<char>)| #[trigger]
            is_skipped(component, files, key) implies is_seen(f as int, none, 0, key) by {}
        assert forall|g: int| 0 <= g < files.len() implies file_tensors(
            #[trigger] files[g],
        ) is Some by {
            assert(passes(component, files, g));
        }
    }
    let ghost texts = tensor_names(converted@);
    let mut k: usize = 1;
    while k < converted.len()
        invariant
            1 <= k,
            texts == tensor_names(converted@),
            is_sorted(texts),
            files == contents(buffers@),
            lists_kept(component, files, converted@, kept_keys),
            lists_skipped(component, files, skipped@, skipped_keys),
            is_sorted(views(skipped@)),
            passes_until(component, files, files.len() as int),
            all_parse(files),
            all_decode(component, files),
            forall|i: int| 0 < i < k && i < texts.len() ==> texts[i - 1] != #[trigger] texts[i],
        decreases converted@.len() - k,
    {
        if same_text(converted[k - 1].name.as_str(), converted[k].name.as_str()) {
            proof {
                let a = kept_keys[k - 1];
                let b = kept_keys[k as int];
                assert(converts(component, files, a, converted@[k - 1]));
                assert(converts(component, files, b, converted@[k as int]));
                assert(is_kept(component, files, a) && is_kept(component, files, b) && a != b);
                assert(collides(component, files, texts[k as int]));
                lemma_first_collision(component, files, converted@, kept_keys, k as int);
            }
            return Err(CheckpointError::Collision(converted[k].name.clone()));
        }
        k += 1;
    }
    proof {
        lemma_neighbours(texts);
        lemma_distinct_names(component, files, converted@, kept_keys);
    }
    Ok((converted, skipped))
}

/// One more tensor of a file is seen.
proof fn lemma_seen_next(f: int, list: Seq<RawTensor>, j: int)
    requires
        0 <= j < list.len(),
    ensures
        forall|key: (int, Seq<char>)| #[trigger]
            is_seen(f, list, j + 1, key) <==> is_seen(f, list, j, key) || key == (
                f,
                list[j].name@,
            ),
{
    assert forall|key: (int, Seq<char>)| #[trigger] is_seen(f, list, j + 1, key) implies is_seen(
        f,
        list,
        j,
        key,
    ) || key == (f, list[j].name@) by {}
    assert forall|key: (int, Seq<char>)|
        is_seen(f, list, j, key) || key == (f, list[j].name@) implies #[trigger] is_seen(
        f,
        list,
        j + 1,
        key,
    ) by {
        if key == (f, list[j].name@) {
            assert(list[j].name@ == key.1);
        }
    }
}

/// With the last tensor of a file, the file is seen.
proof fn lemma_file_done(files: Seq<Seq<u8>>, f: int, list: Seq<RawTensor>)
    requires
        0 <= f < files.len(),
        file_tensors(files[f]) is Some,
        lists_file(list, file_tensors(files[f])->0),
    ensures
        forall|key: (int, Seq<char>)| #[trigger]
            is_stored(files, key) ==> (is_seen(f, list, list.len() as int, key) <==> is_seen(
                f + 1,
                Seq::<RawTensor>::empty(),
                0,
                key,
            )),
        forall|key: (int, Seq<char>)| #[trigger]
            is_seen(f + 1, Seq::<RawTensor>::empty(), 0, key) <==> key.0 <= f,
{
    assert forall|key: (int, Seq<char>)| #[trigger] is_stored(files, key) implies (is_seen(
        f,
        list,
        list.len() as int,
        key,
    ) <==> is_seen(f + 1, Seq::<RawTensor>::empty(), 0, key)) by {
        if key.0 == f {
            assert(file_tensors(files[f])->0.contains_key(key.1));
        }
    }
}

/// Where the converted names are strictly sorted, no two kept tensors share one.
proof fn lemma_distinct_names(
    component: Component,
    files: Seq<Seq<u8>>,
    tensors: Seq<ConvertedTensor>,
    keys: Seq<(int, Seq<char>)>,
)
    requires
        lists_kept(component, files, tensors, keys),
        is_strictly_sorted(tensor_names(tensors)),
    ensures
        no_collision(component, files),
{
    let texts = tensor_names(tensors);
    assert forall|a: (int, Seq<char>), b: (int, Seq<char>)|
        #[trigger] is_kept(component, files, a) && #[trigger] is_kept(component, files, b) && a
            != b implies canonical(component, a.1) != canonical(component, b.1) by {
        let i = choose|i: int| 0 <= i < keys.len() && keys[i] == a;
        let j = choose|j: int| 0 <= j < keys.len() && keys[j] == b;
        assert(keys.contains(a) && keys.contains(b));
        assert(converts(component, files, keys[i], tensors[i]));
        assert(converts(component, files, keys[j], tensors[j]));
        assert(texts[i] == tensors[i].name@ && texts[j] == tensors[j].name@);
        lemma_before_irreflexive(texts[i]);
        if i < j {
            assert(text_before(texts[i], texts[j]));
        } else {
            assert(text_before(texts[j], texts[i]));
        }
    }
}

/// Where the neighbours before it differ, the name that stands twice is the first that
/// several tensors have.
proof fn lemma_first_collision(
    component: Component,
    files: Seq<Seq<u8>>,
    tensors: Seq<ConvertedTensor>,
    keys: Seq<(int, Seq<char>)>,
    k: int,
)
    requires
        lists_kept(component, files, tensors, keys),
        is_sorted(tensor_names(tensors)),
        0 < k < tensors.len(),
        forall|i: int|
            0 < i < k ==> tensor_names(tensors)[i - 1] != #[trigger] tensor_names(tensors)[i],
        tensor_names(tensors)[k - 1] == tensor_names(tensors)[k],
    ensures
        forall|other: Seq<char>| #[trigger]
            collides(component, files, other) ==> !text_before(other, tensor_names(tensors)[k]),
{
    let texts = tensor_names(tensors);
    assert forall|other: Seq<char>| #[trigger] collides(component, files, other) implies !text_before(
        other,
        texts[k],
    ) by {
        let (a, b) = choose|a: (int, Seq<char>), b: (int, Seq<char>)|
            #[trigger] is_kept(component, files, a) && #[trigger] is_kept(component, files, b) && a
                != b && canonical(component, a.1) == Some(other) && canonical(component, b.1)
                == Some(other);
        assert(keys.contains(a) && keys.contains(b));
        let i = choose|i: int| 0 <= i < keys.len() && keys[i] == a;
        let j = choose|j: int| 0 <= j < keys.len() && keys[j] == b;
        assert(converts(component, files, keys[i], tensors[i]));
        assert(converts(component, files, keys[j], tensors[j]));
        assert(texts[i] == other && texts[j] == other);
        let p = if i < j {
            i
        } else {
            j
        };
        let q = if i < j {
            j
        } else {
            i
        };
        if p + 1 < k {
            assert(texts[p] != texts[p + 1]);
            lemma_before_total(texts[p], texts[p + 1]);
            assert(!text_before(texts[p + 1], texts[p]));
            assert(!text_before(texts[q], texts[p + 1]));
        }
        lemma_before_irreflexive(other);
        if p > k {
            assert(!text_before(texts[p], texts[k]));
        }
    }
}

/// The line for a stored tensor: the name, the element type and the shape.
pub open spec fn tensor_line(
    name: Seq<char>,
    tensor: (Seq<char>, Seq<usize>, Seq<u8>),
) -> Seq<char> {
    name + "\t"@ + tensor.0 + "\t"@ + bracketed(tensor.1)
}

/// `lines` are those of the tensors of a file, each once, in any order; `names`
/// tells which tensor each is for.
pub open spec fn lists_lines(
    file: Map<Seq<char>, (Seq<char>, Seq<usize>, Seq<u8>)>,
    lines: Seq<String>,
    names: Seq<Seq<char>>,
) -> bool {
    &&& names.len() == lines.len()
    &&& names.no_duplicates()
    &&& forall|i: int|
        0 <= i < names.len() ==> file.contains_key(#[trigger] names[i]) && lines[i]@ == tensor_line(
            names[i],
            file[names[i]],
        )
    &&& forall|name: Seq<char>| file.contains_key(name) ==> #[trigger] names.contains(name)
}

/// `lines` are those of the tensors of a file, each once, in any order.
pub open spec fn is_listing(
    file: Map<Seq<char>, (Seq<char>, Seq<usize>, Seq<u8>)>,
    lines: Seq<String>,
) -> bool {
    exists|names: Seq<Seq<char>>| #[trigger] lists_lines(file, lines, names)
}

/// Lists the tensors of a checkpoint file, one on a line.
pub fn list_safetensors(bytes: &[u8]) -> (r: Result<Vec<String>, CheckpointError>)
    ensures
        match file_tensors(bytes@) {
            Some(file) => r is Ok && is_listing(file, r->Ok_0@),
            None => r matches Err(CheckpointError::Parse(0, _)),
        },
{
    let list = match read_file(bytes) {
        Ok(list) => list,
        Err(cause) => {
            return Err(CheckpointError::Parse(0, cause));
        },
    };
    let ghost file = file_tensors(bytes@)->0;
    let ghost mut names: Seq<Seq<char>> = Seq::empty();
    let mut lines: Vec<String> = Vec::new();
    let mut i: usize = 0;
    while i < list.len()
        invariant
            i <= list@.len(),
            lists_file(list@, file),
            names == Seq::new(i as nat, |k: int| list@[k].name@),
            lines@.len() == i,
            forall|k: int|
                0 <= k < i ==> (#[trigger] lines@[k])@ == tensor_line(names[k], file[names[k]]),
        decreases list@.len() - i,
    {
        let line = list_line(list[i].name.as_str(), list[i].dtype.as_str(), list[i].shape.as_slice());
        lines.push(line);
        proof {
            names = names.push(list@[i as int].name@);
        }
        i += 1;
        assert(names =~= Seq::new(i as nat, |k: int| list@[k].name@));
    }
    proof {
        assert forall|name: Seq<char>| file.contains_key(name) implies #[trigger] names.contains(
            name,
        ) by {
            let k = choose|k: int| 0 <= k < list@.len() && (#[trigger] list@[k]).name@ == name;
            assert(names[k] == name);
        }
        assert(lists_lines(file, lines@, names));
        assert(is_listing(file, lines@));
    }
    Ok(lines)
}

/// A file of this name is a checkpoint: something, and then the extension.
pub open spec fn is_shard(name: Seq<char>) -> bool {
    ends_with(name, ".safetensors"@) && name.len() > ".safetensors"@.len()
}

/// The names at some places of a list.
pub open spec fn names_at(names: Seq<Seq<char>>, places: Seq<usize>) -> Seq<Seq<char>> {
    places.map_values(|place: usize| names[place as int])
}

/// Whether a file of this name is a checkpoint.
fn check_shard(name: &str) -> (answer: bool)
    ensures
        answer == is_shard(name@),
{
    let found = has_suffix(name, ".safetensors");
    assert(name@.skip(0) =~= name@);
    found && !same_text(name, ".safetensors")
}

/// Which of the files of a directory make up a checkpoint, given their names:
/// their places, sorted by the names.
pub fn select_shards(names: &Vec<String>) -> (places: Vec<usize>)
    ensures
        is_sorted(names_at(views(names@), places@)),
        places@.no_duplicates(),
        forall|place: usize| #[trigger]
            places@.contains(place) <==> place < names@.len() && is_shard(
                names@[place as int]@,
            ),
{
    let mut places: Vec<usize> = Vec::new();
    let mut texts: Vec<String> = Vec::new();
    let ghost all = views(names@);
    let mut i: usize = 0;
    while i < names.len()
        invariant
            i <= names@.len(),
            all == views(names@),
            is_sorted(views(texts@)),
            views(texts@) == names_at(all, places@),
            places@.no_duplicates(),
            forall|place: usize| #[trigger]
                places@.contains(place) <==> place < i && is_shard(names@[place as int]@),
        decreases names@.len() - i,
    {
        let ghost before = places@;
        let ghost shorter = texts@;
        if check_shard(names[i].as_str()) {
            let at: usize = place_for_name(&texts, names[i].as_str());
            assert(views(texts@).len() == places@.len());
            texts.insert(at, owned(names[i].as_str()));
            places.insert(at, i);
            proof {
                assert(!before.contains(i));
                assert(views(texts@) =~= views(shorter).insert(at as int, names@[i as int]@));
                assert(names_at(all, places@) =~= names_at(all, before).insert(
                    at as int,
                    all[i as int],
                ));
                lemma_insert_contains(before, at as int, i);
                assert forall|place: usize| #[trigger]
                    places@.contains(place) implies before.contains(place) || place == i by {
                    let k = choose|k: int| 0 <= k < places@.len() && places@[k] == place;
                    if k < at {
                        assert(before[k] == place);
                    } else if k > at {
                        assert(before[k - 1] == place);
                    }
                }
            }
        }
        i += 1;
    }
    places
}

} // verus!
