//! `torch.save` archives that hold a single tensor, and the silence latent.

use vstd::prelude::*;

use crate::convert::archive::{
    directory, entry_models, entry_range, zip_entries, zip_entry_data, EntryModel, ZipEntry,
    ZipError, ZipFault,
};
use crate::convert::decode::{
    decode_torch_storage, f32_bytes_to_vec, has_count, product, storage_format, DecodeError,
    DecodeFault, Format,
};
use crate::convert::pickle::{
    outcome, Fault, Machine, Pickle, PickleError, PickleReader, TensorModel, TorchTensorSpec, PickleModel,
};
use crate::single::Single;
use crate::text::{ends_with, has_suffix, owned};

verus! {

/// Why a `torch.save` archive was refused.
#[derive(Debug)]
pub enum TorchError {
    /// The archive has no readable directory.
    Directory(ZipError),
    /// The data of an entry cannot be read.
    Entry(ZipError),
    /// The archive has no pickle stream.
    NoPickle,
    Pickle(PickleError),
    /// The stream leaves something other than a single tensor.
    NotATensor,
    NonzeroOffset(usize),
    /// The archive has no data for this storage key.
    NoStorage(String),
    /// The data for this storage key cannot be decoded.
    Decode(String, DecodeError),
    /// So many elements were found for this shape.
    WrongCount(usize, Vec<usize>),
}

/// The mathematical model of a `TorchError`.
pub ghost enum TorchFault {
    Directory(ZipFault),
    Entry(ZipFault),
    NoPickle,
    Pickle(Fault),
    NotATensor,
    NonzeroOffset(usize),
    NoStorage(Seq<char>),
    Decode(Seq<char>, DecodeFault),
    WrongCount(int, Seq<usize>),
}

impl TorchError {
    pub open spec fn view(&self) -> TorchFault {
        match self {
            TorchError::Directory(error) => TorchFault::Directory(error@),
            TorchError::Entry(error) => TorchFault::Entry(error@),
            TorchError::NoPickle => TorchFault::NoPickle,
            TorchError::Pickle(error) => TorchFault::Pickle(error@),
            TorchError::NotATensor => TorchFault::NotATensor,
            TorchError::NonzeroOffset(offset) => TorchFault::NonzeroOffset(*offset),
            TorchError::NoStorage(key) => TorchFault::NoStorage(key@),
            TorchError::Decode(key, error) => TorchFault::Decode(key@, error@),
            TorchError::WrongCount(count, shape) => TorchFault::WrongCount(*count as int, shape@),
        }
    }
}

/// The first entry whose name ends with `tail`.
pub open spec fn first_entry(entries: Seq<EntryModel>, tail: Seq<char>) -> Option<EntryModel>
    decreases entries.len(),
{
    if entries.len() == 0 {
        None
    } else if ends_with(entries[0].name, tail) {
        Some(entries[0])
    } else {
        first_entry(entries.skip(1), tail)
    }
}

/// The data of the first entry whose name ends with `tail`; `missing` where there
/// is none.
pub open spec fn entry_data(
    bytes: Seq<u8>,
    entries: Seq<EntryModel>,
    tail: Seq<char>,
    missing: TorchFault,
) -> Result<Seq<u8>, TorchFault> {
    match first_entry(entries, tail) {
        None => Err(missing),
        Some(entry) => match entry_range(bytes, entry) {
            Err(fault) => Err(TorchFault::Entry(fault)),
            Ok((start, end)) => Ok(bytes.subrange(start, end)),
        },
    }
}

/// The tensor that the pickle stream of the archive describes.
pub open spec fn archive_tensor(bytes: Seq<u8>) -> Result<(Seq<EntryModel>, TensorModel), TorchFault> {
    match directory(bytes) {
        Err(fault) => Err(TorchFault::Directory(fault)),
        Ok(entries) => match entry_data(bytes, entries, "data.pkl"@, TorchFault::NoPickle) {
            Err(fault) => Err(fault),
            Ok(stream) => match outcome(stream, Machine::start()) {
                Err(fault) => Err(TorchFault::Pickle(fault)),
                Ok(PickleModel::Tensor(tensor)) => if tensor.storage_offset != 0 {
                    Err(TorchFault::NonzeroOffset(tensor.storage_offset))
                } else {
                    Ok((entries, tensor))
                },
                Ok(_) => Err(TorchFault::NotATensor),
            },
        },
    }
}

/// The tensor in the archive, the format of its elements and their bytes.
pub open spec fn archive_storage(bytes: Seq<u8>) -> Result<
    (TensorModel, Format, Seq<u8>),
    TorchFault,
> {
    match archive_tensor(bytes) {
        Err(fault) => Err(fault),
        Ok((entries, tensor)) => match entry_data(
            bytes,
            entries,
            "/data/"@ + tensor.storage_key,
            TorchFault::NoStorage(tensor.storage_key),
        ) {
            Err(fault) => Err(fault),
            Ok(data) => match storage_format(tensor.storage_type) {
                None => Err(
                    TorchFault::Decode(
                        tensor.storage_key,
                        DecodeFault::UnsupportedStorage(tensor.storage_type),
                    ),
                ),
                Some(format) => if data.len() as int % format.width() != 0 {
                    Err(TorchFault::Decode(tensor.storage_key, format.fault()))
                } else if data.len() as int / format.width() != product(tensor.shape) {
                    Err(
                        TorchFault::WrongCount(
                            data.len() as int / format.width(),
                            tensor.shape,
                        ),
                    )
                } else {
                    Ok((tensor, format, data))
                },
            },
        },
    }
}

/// The data of the first entry whose name ends with `tail`.
fn find_entry<'a, 'b>(entries: &'b Vec<ZipEntry>, tail: &str) -> (found: Option<&'b ZipEntry>)
    ensures
        match first_entry(entry_models(entries@), tail@) {
            Some(entry) => found is Some && found->0@ == entry,
            None => found is None,
        },
{
    let ghost all = entry_models(entries@);
    let mut i: usize = 0;
    assert(all.skip(0) =~= all);
    while i < entries.len()
        invariant
            i <= entries@.len(),
            all == entry_models(entries@),
            first_entry(all, tail@) == first_entry(all.skip(i as int), tail@),
        decreases entries@.len() - i,
    {
        assert(all.skip(i as int)[0] == entries@[i as int]@);
        assert(all.skip(i as int).skip(1) =~= all.skip(i + 1));
        if has_suffix(entries[i].name.as_str(), tail) {
            return Some(&entries[i]);
        }
        i += 1;
    }
    None
}

/// Reads a `torch.save` archive that holds a single tensor: the tensor, and its
/// elements as single-precision numbers.
pub fn read_torch_save(bytes: &[u8]) -> (r: Result<(TorchTensorSpec, Vec<Single>), TorchError>)
    ensures
        match archive_storage(bytes@) {
            Ok((tensor, format, data)) => {
                &&& r is Ok
                &&& r->Ok_0.0@ == tensor
                &&& format.decodes(data, r->Ok_0.1@)
                &&& r->Ok_0.1@.len() == product(tensor.shape)
            },
            Err(fault) => r is Err && r->Err_0@ == fault,
        },
{
    let entries = match zip_entries(bytes) {
        Ok(entries) => entries,
        Err(error) => {
            return Err(TorchError::Directory(error));
        },
    };
    let pickle_entry = match find_entry(&entries, "data.pkl") {
        Some(entry) => entry,
        None => {
            return Err(TorchError::NoPickle);
        },
    };
    let stream = match zip_entry_data(bytes, pickle_entry) {
        Ok(stream) => stream,
        Err(error) => {
            return Err(TorchError::Entry(error));
        },
    };
    let value = match PickleReader::new(stream).run() {
        Ok(value) => value,
        Err(error) => {
            return Err(TorchError::Pickle(error));
        },
    };
    let tensor = match value {
        Pickle::Tensor(tensor) => tensor,
        _ => {
            return Err(TorchError::NotATensor);
        },
    };
    if tensor.storage_offset != 0 {
        return Err(TorchError::NonzeroOffset(tensor.storage_offset));
    }
    let mut suffix = owned("/data/");
    suffix.append(tensor.storage_key.as_str());
    let data_entry = match find_entry(&entries, suffix.as_str()) {
        Some(entry) => entry,
        None => {
            return Err(TorchError::NoStorage(tensor.storage_key));
        },
    };
    let storage = match zip_entry_data(bytes, data_entry) {
        Ok(storage) => storage,
        Err(error) => {
            return Err(TorchError::Entry(error));
        },
    };
    let values = match decode_torch_storage(tensor.storage_type.as_str(), storage) {
        Ok(values) => values,
        Err(error) => {
            return Err(TorchError::Decode(tensor.storage_key, error));
        },
    };
    proof {
        let format = storage_format(tensor.storage_type@)->0;
        let n = values@.len() as int;
        let w = format.width();
        assert(n * w == storage@.len());
        assert((n * w) / w == n && (n * w) % w == 0) by (nonlinear_arith)
            requires
                w > 0,
        ;
    }
    if !has_count(tensor.shape.as_slice(), values.len()) {
        return Err(TorchError::WrongCount(values.len(), tensor.shape));
    }
    Ok((tensor, values))
}

/// A tensor as a shape and its elements in row-major order.
#[derive(Debug)]
pub struct Latent {
    pub shape: Vec<usize>,
    pub data: Vec<Single>,
}

/// The shape is that of one channel-major latent with sixty-four channels.
pub open spec fn is_channel_major(shape: Seq<usize>) -> bool {
    shape.len() == 3 && shape[0] == 1 && shape[1] == 64
}

/// `after` is the latent that the runtime loads for the stored `shape` and
/// `data`: a channel-major `[1, 64, S]` latent is transposed into the time-major
/// `[1, S, 64]`, and every other one is left as it is.
pub open spec fn is_time_major(shape: Seq<usize>, data: Seq<Single>, after: Latent) -> bool {
    if is_channel_major(shape) {
        let frames = shape[2] as int;
        &&& after.shape@ == seq![1usize, shape[2], 64usize]
        &&& after.data@.len() == data.len()
        &&& forall|frame: int, channel: int|
            #![trigger after.data@[frame * 64 + channel]]
            0 <= frame < frames && 0 <= channel < 64 ==> after.data@[frame * 64 + channel]
                == data[channel * frames + frame]
    } else {
        after.shape@ == shape && after.data@ == data
    }
}

/// The elements of a tensor with three dimensions.
proof fn lemma_product_of_three(a: usize, b: usize, c: usize)
    ensures
        product(seq![a, b, c]) == (a * b) * c,
{
    let three = seq![a, b, c];
    let two = three.drop_last();
    let one = two.drop_last();
    assert(one.drop_last() =~= Seq::empty());
    assert(product(one.drop_last()) == 1);
    assert(product(one) == product(one.drop_last()) * a);
    assert(product(two) == product(one) * b);
    assert(product(three) == product(two) * c);
}

/// Brings the silence latent into the layout of the pipeline.
pub fn time_major(shape: Vec<usize>, data: Vec<Single>) -> (after: Latent)
    requires
        data@.len() == product(shape@),
    ensures
        is_time_major(shape@, data@, after),
        after.data@.len() == product(after.shape@),
{
    if shape.len() != 3 || shape[0] != 1 || shape[1] != 64 {
        return Latent { shape, data };
    }
    let frames: usize = shape[2];
    proof {
        assert(shape@ =~= seq![1usize, 64usize, frames]);
        lemma_product_of_three(1, 64, frames);
        lemma_product_of_three(1, frames, 64);
    }
    let total: usize = data.len();
    let mut out: Vec<Single> = Vec::new();
    let mut frame: usize = 0;
    while frame < frames
        invariant
            frame <= frames,
            total == 64 * frames,
            data@.len() == total,
            out@.len() == frame * 64,
            forall|f: int, c: int|
                #![trigger out@[f * 64 + c]]
                0 <= f < frame && 0 <= c < 64 ==> out@[f * 64 + c] == data@[c * frames + f],
        decreases frames - frame,
    {
        let mut channel: usize = 0;
        while channel < 64
            invariant
                frame < frames,
                channel <= 64,
                total == 64 * frames,
                data@.len() == total,
                out@.len() == frame * 64 + channel,
                forall|f: int, c: int|
                    #![trigger out@[f * 64 + c]]
                    0 <= f < frame && 0 <= c < 64 ==> out@[f * 64 + c] == data@[c * frames + f],
                forall|c: int|
                    #![trigger out@[frame * 64 + c]]
                    0 <= c < channel ==> out@[frame * 64 + c] == data@[c * frames + frame],
            decreases 64 - channel,
        {
            proof {
                assert(channel * frames + frame < 64 * frames) by (nonlinear_arith)
                    requires
                        0 <= channel <= 63,
                        0 <= frame < frames,
                ;
                assert(channel * frames <= channel * frames + frame);
                assert(0 <= channel * frames) by (nonlinear_arith)
                    requires
                        0 <= channel,
                        0 <= frames,
                ;
            }
            out.push(data[channel * frames + frame]);
            channel += 1;
        }
        frame += 1;
    }
    let mut shape_out: Vec<usize> = Vec::new();
    shape_out.push(1);
    shape_out.push(frames);
    shape_out.push(64);
    assert(shape_out@ =~= seq![1usize, frames, 64usize]);
    Latent { shape: shape_out, data: out }
}

/// Why a raw silence latent was refused.
#[derive(Debug)]
pub enum RawError {
    Decode(DecodeError),
    /// So many elements were found for this shape.
    WrongCount(usize, Vec<usize>),
}

/// Reads a raw silence latent: little-endian single-precision numbers, as many
/// as `shape` holds.
pub fn read_raw_silence(bytes: &[u8], shape: Vec<usize>) -> (r: Result<Latent, RawError>)
    ensures
        bytes@.len() as int % 4 != 0 ==> (r matches Err(RawError::Decode(error)) && error@
            == DecodeFault::NotSingles),
        bytes@.len() as int % 4 == 0 && bytes@.len() as int / 4 != product(shape@) ==> (
        r matches Err(RawError::WrongCount(count, given)) && count == bytes@.len() as int / 4
            && given@ == shape@),
        bytes@.len() as int == 4 * product(shape@) ==> r is Ok && exists|values: Seq<Single>|
            #[trigger] Format::Single.decodes(bytes@, values) && is_time_major(
                shape@,
                values,
                r->Ok_0,
            ),
{
    let values = match f32_bytes_to_vec(bytes) {
        Ok(values) => values,
        Err(error) => {
            return Err(RawError::Decode(error));
        },
    };
    if !has_count(shape.as_slice(), values.len()) {
        return Err(RawError::WrongCount(values.len(), shape));
    }
    assert(Format::Single.decodes(bytes@, values@));
    Ok(time_major(shape, values))
}

} // verus!
