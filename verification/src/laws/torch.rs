//! What is read of a saved tensor, of its numbers, and of the latent of silence.

use vstd::arithmetic::power2::{lemma2_to64, lemma_pow2_adds, lemma_pow2_pos, pow2};
use vstd::prelude::*;

use crate::convert::archive::{
    can_store, directory, lemma_archive_round_trip, stored_archive, stored_entry, word32,
    EntryModel, StoredFile, ZipFault,
};
use crate::convert::decode::{dtype_format, product, storage_format, DecodeFault, Format};
use crate::convert::pickle::{outcome, Fault, Machine, PickleModel, TensorModel};
use crate::convert::torch::{
    archive_storage, archive_tensor, entry_data, first_entry, is_time_major, Latent, TorchFault,
};
use crate::laws::rounding::lemma_nearest_whole;
use crate::rounding::nearest_even;
use crate::single::{fraction, narrowed, same_value, scaled, widens, Single};
use crate::text::ends_with;

verus! {

/// The name ends with the text.
pub open spec fn closes(name: Seq<char>, tail: Seq<char>) -> bool {
    exists|front: Seq<char>| name == #[trigger] (front + tail)
}

proof fn lemma_closes(name: Seq<char>, tail: Seq<char>)
    ensures
        closes(name, tail) <==> ends_with(name, tail),
{
    if ends_with(name, tail) {
        assert(name =~= name.take(name.len() - tail.len()) + tail);
    }
    if closes(name, tail) {
        let front = choose|front: Seq<char>| name == #[trigger] (front + tail);
        assert(name.skip(name.len() - tail.len()) =~= tail);
    }
}

/// The file is the first of the archive whose name ends with the text.
pub open spec fn is_first(files: Seq<StoredFile>, tail: Seq<char>, i: int) -> bool {
    &&& 0 <= i < files.len()
    &&& closes(files[i].name, tail)
    &&& forall|k: int| 0 <= k < i ==> !closes((#[trigger] files[k]).name, tail)
}

proof fn lemma_first(entries: Seq<EntryModel>, tail: Seq<char>, i: int)
    requires
        0 <= i < entries.len(),
        closes(entries[i].name, tail),
        forall|k: int| 0 <= k < i ==> !closes((#[trigger] entries[k]).name, tail),
    ensures
        first_entry(entries, tail) == Some(entries[i]),
    decreases entries.len(),
{
    lemma_closes(entries[0].name, tail);
    if i > 0 {
        assert(!closes(entries[0].name, tail));
        let rest = entries.skip(1);
        assert(rest[i - 1] == entries[i]);
        assert forall|k: int| 0 <= k < i - 1 implies !closes((#[trigger] rest[k]).name, tail) by {
            assert(rest[k] == entries[k + 1]);
        }
        lemma_first(rest, tail, i - 1);
    }
}

proof fn lemma_data(files: Seq<StoredFile>, rest: Seq<u8>, tail: Seq<char>, i: int, missing: TorchFault)
    requires
        can_store(files),
        is_first(files, tail, i),
    ensures
        directory(stored_archive(files, rest)) == Ok::<Seq<EntryModel>, ZipFault>(
            Seq::new(files.len(), |k: int| stored_entry(files, k)),
        ),
        entry_data(
            stored_archive(files, rest),
            Seq::new(files.len(), |k: int| stored_entry(files, k)),
            tail,
            missing,
        ) == Ok::<Seq<u8>, TorchFault>(files[i].data),
{
    lemma_archive_round_trip(files, rest, i);
    let entries = Seq::new(files.len(), |k: int| stored_entry(files, k));
    assert forall|k: int| 0 <= k < i implies !closes((#[trigger] entries[k]).name, tail) by {
        assert(entries[k].name == files[k].name);
        assert(!closes(files[k].name, tail));
    }
    assert(entries[i].name == files[i].name);
    lemma_first(entries, tail, i);
}

/// The bytes that a number of a storage takes.
pub open spec fn bytes_per_number(class: Seq<char>) -> Option<int> {
    if class == "FloatStorage"@ {
        Some(4)
    } else if class == "DoubleStorage"@ {
        Some(8)
    } else if class == "HalfStorage"@ || class == "BFloat16Storage"@ {
        Some(2)
    } else {
        None
    }
}

proof fn lemma_storages()
    ensures
        "FloatStorage"@ != "DoubleStorage"@,
        "FloatStorage"@ != "HalfStorage"@,
        "FloatStorage"@ != "BFloat16Storage"@,
        "DoubleStorage"@ != "HalfStorage"@,
        "DoubleStorage"@ != "BFloat16Storage"@,
        "HalfStorage"@ != "BFloat16Storage"@,
        "BF16"@ != "F16"@,
        "BF16"@ != "F32"@,
        "F16"@ != "F32"@,
{
    reveal_strlit("FloatStorage");
    reveal_strlit("DoubleStorage");
    reveal_strlit("HalfStorage");
    reveal_strlit("BFloat16Storage");
    reveal_strlit("BF16");
    reveal_strlit("F16");
    reveal_strlit("F32");
    assert("FloatStorage"@[0] == 'F');
    assert("DoubleStorage"@[0] == 'D');
    assert("HalfStorage"@[0] == 'H');
    assert("BFloat16Storage"@[0] == 'B');
    assert("BF16"@[0] == 'B');
    assert("F16"@[0] == 'F');
    assert("F32"@[0] == 'F');
    assert("F16"@[1] == '1');
    assert("F32"@[1] == '3');
}

/// A tensor that was saved is read back: where the first pickle stream of an archive leaves a
/// tensor, and the file of its storage holds the numbers of its shape, these are its data,
/// and its shape is the one that was saved.
pub proof fn lemma_saved_tensor(
    files: Seq<StoredFile>,
    rest: Seq<u8>,
    pickle: int,
    storage: int,
    class: Seq<char>,
    key: Seq<char>,
    shape: Seq<usize>,
)
    requires
        can_store(files),
        is_first(files, "data.pkl"@, pickle),
        is_first(files, "/data/"@ + key, storage),
        outcome(files[pickle].data, Machine::start()) == Ok::<PickleModel, Fault>(
            PickleModel::Tensor(
                TensorModel { storage_type: class, storage_key: key, storage_offset: 0, shape },
            ),
        ),
        bytes_per_number(class) is Some,
        files[storage].data.len() == bytes_per_number(class)->0 * product(shape),
    ensures
        archive_storage(stored_archive(files, rest)) matches Ok((tensor, format, data)) && {
            &&& tensor.shape == shape
            &&& tensor.storage_key == key
            &&& tensor.storage_type == class
            &&& data == files[storage].data
            &&& class == "FloatStorage"@ ==> format == Format::Single
            &&& class == "DoubleStorage"@ ==> format == Format::Double
            &&& class == "HalfStorage"@ ==> format == Format::Half
            &&& class == "BFloat16Storage"@ ==> format == Format::Bfloat16
        },
{
    lemma_storages();
    let bytes = stored_archive(files, rest);
    let entries = Seq::new(files.len(), |k: int| stored_entry(files, k));
    lemma_data(files, rest, "data.pkl"@, pickle, TorchFault::NoPickle);
    lemma_data(files, rest, "/data/"@ + key, storage, TorchFault::NoStorage(key));
    let tensor = TensorModel { storage_type: class, storage_key: key, storage_offset: 0, shape };
    assert(archive_tensor(bytes) == Ok::<(Seq<EntryModel>, TensorModel), TorchFault>(
        (entries, tensor),
    ));
    let w = bytes_per_number(class)->0;
    let n = product(shape);
    assert(storage_format(class) is Some && storage_format(class)->0.width() == w);
    assert((w * n) % w == 0 && (w * n) / w == n) by (nonlinear_arith)
        requires
            w > 0,
    ;
}

/// A saved tensor is refused where it does not start at the front of its storage, where its
/// storage is missing or of another class, or where the numbers do not make up the shape.
pub proof fn lemma_refused_tensor(
    files: Seq<StoredFile>,
    rest: Seq<u8>,
    pickle: int,
    tensor: TensorModel,
)
    requires
        can_store(files),
        is_first(files, "data.pkl"@, pickle),
        outcome(files[pickle].data, Machine::start()) == Ok::<PickleModel, Fault>(
            PickleModel::Tensor(tensor),
        ),
    ensures
        tensor.storage_offset != 0 ==> archive_storage(stored_archive(files, rest)) == Err::<
            (TensorModel, Format, Seq<u8>),
            TorchFault,
        >(TorchFault::NonzeroOffset(tensor.storage_offset)),
        forall|storage: int|
            #![trigger files[storage]]
            tensor.storage_offset == 0 && is_first(
                files,
                "/data/"@ + tensor.storage_key,
                storage,
            ) && (bytes_per_number(tensor.storage_type) is None || files[storage].data.len()
                != bytes_per_number(tensor.storage_type)->0 * product(tensor.shape))
                ==> archive_storage(stored_archive(files, rest)) is Err,
{
    lemma_data(files, rest, "data.pkl"@, pickle, TorchFault::NoPickle);
    let bytes = stored_archive(files, rest);
    assert forall|storage: int|
        #![trigger files[storage]]
        tensor.storage_offset == 0 && is_first(files, "/data/"@ + tensor.storage_key, storage) && (
        bytes_per_number(tensor.storage_type) is None || files[storage].data.len()
            != bytes_per_number(tensor.storage_type)->0 * product(
            tensor.shape,
        )) implies archive_storage(bytes) is Err by {
        lemma_data(
            files,
            rest,
            "/data/"@ + tensor.storage_key,
            storage,
            TorchFault::NoStorage(tensor.storage_key),
        );
        if bytes_per_number(tensor.storage_type) is Some {
            let w = bytes_per_number(tensor.storage_type)->0;
            let len = files[storage].data.len() as int;
            assert(len % w == 0 ==> len == w * (len / w)) by (nonlinear_arith)
                requires
                    w > 0,
            ;
        }
    }
}

/// A latent of 64 channels is turned: what stood for a channel and a frame stands for the
/// frame and the channel, and every other latent is kept as it is.
pub proof fn lemma_turned(shape: Seq<usize>, data: Seq<Single>, after: Latent, channel: int, frame: int)
    requires
        is_time_major(shape, data, after),
    ensures
        shape.len() == 3 && shape[0] == 1 && shape[1] == 64 ==> {
            &&& after.shape@ == seq![1usize, shape[2], 64usize]
            &&& after.data@.len() == data.len()
            &&& 0 <= channel < 64 && 0 <= frame < shape[2] ==> after.data@[64 * frame + channel]
                == data[shape[2] * channel + frame]
        },
        !(shape.len() == 3 && shape[0] == 1 && shape[1] == 64) ==> after.shape@ == shape
            && after.data@ == data,
{
    if shape.len() == 3 && shape[0] == 1 && shape[1] == 64 && 0 <= channel < 64 && 0 <= frame
        < shape[2] {
        let frames = shape[2] as int;
        assert(after.data@[frame * 64 + channel] == data[channel * frames + frame]);
        assert(channel * frames == frames * channel) by (nonlinear_arith);
    }
}

/// The names of the types that numbers are read from.
pub proof fn lemma_types(name: Seq<char>)
    ensures
        dtype_format("BF16"@) == Some(Format::Bfloat16),
        dtype_format("F16"@) == Some(Format::Half),
        dtype_format("F32"@) == Some(Format::Single),
        dtype_format(name) is Some ==> name == "BF16"@ || name == "F16"@ || name == "F32"@,
        storage_format("FloatStorage"@) == Some(Format::Single),
        storage_format("DoubleStorage"@) == Some(Format::Double),
        storage_format("HalfStorage"@) == Some(Format::Half),
        storage_format("BFloat16Storage"@) == Some(Format::Bfloat16),
        storage_format(name) is Some <==> bytes_per_number(name) is Some,
{
    lemma_storages();
}

/// Numbers are read from their bytes, the lowest one first, one after the other: those of 32
/// bits as they are, and short ones as the upper half of those.
pub proof fn lemma_numbers_of_bits(data: Seq<u8>, values: Seq<Single>, i: int)
    requires
        0 <= i < values.len(),
    ensures
        Format::Single.decodes(data, values) ==> data.len() == 4 * values.len() && values[i].bits
            == data[4 * i] + 0x100 * data[4 * i + 1] + 0x1_0000 * data[4 * i + 2] + 0x100_0000
            * data[4 * i + 3],
        Format::Bfloat16.decodes(data, values) ==> data.len() == 2 * values.len() && values[i].bits
            == 0x1_0000 * data[2 * i] + 0x100_0000 * data[2 * i + 1],
        Format::Half.decodes(data, values) ==> data.len() == 2 * values.len() && widens(
            (data[2 * i] + 0x100 * data[2 * i + 1]) as u16,
            values[i],
        ),
        Format::Double.decodes(data, values) ==> data.len() == 8 * values.len() && {
            let low = data[8 * i] + 0x100 * data[8 * i + 1] + 0x1_0000 * data[8 * i + 2]
                + 0x100_0000 * data[8 * i + 3];
            let high = data[8 * i + 4] + 0x100 * data[8 * i + 5] + 0x1_0000 * data[8 * i + 6]
                + 0x100_0000 * data[8 * i + 7];
            &&& values[i].bits >= 0x8000_0000 <==> high >= 0x8000_0000
            &&& values[i].bits as int % 0x8000_0000 == narrowed(
                high % 0x8000_0000 * 0x1_0000_0000 + low,
            )
        },
{
    if Format::Double.decodes(data, values) {
        assert(Format::Double.reads(data, i * 8, values[i]));
        let low = word32(data, i * 8);
        let high = word32(data, i * 8 + 4);
        let bits = low + 0x1_0000_0000 * high;
        assert(bits % 0x8000_0000_0000_0000 == high % 0x8000_0000 * 0x1_0000_0000 + low)
            by (nonlinear_arith)
            requires
                bits == low + 0x1_0000_0000 * high,
                0 <= low < 0x1_0000_0000,
                0 <= high < 0x1_0000_0000,
        ;
    }
    if Format::Single.decodes(data, values) {
        assert(Format::Single.reads(data, i * 4, values[i]));
    }
    if Format::Bfloat16.decodes(data, values) {
        assert(Format::Bfloat16.reads(data, i * 2, values[i]));
    }
    if Format::Half.decodes(data, values) {
        assert(Format::Half.reads(data, i * 2, values[i]));
    }
}

/// A half is widened to the number that it is: its ten bits of fraction behind a one, or behind
/// nought where its exponent is the lowest, in units of two to the power of the exponent less
/// 25; the infinities and what is no number stay such.
pub proof fn lemma_half_value(bits: u16, value: Single)
    requires
        widens(bits, value),
    ensures
        value.bits >= 0x8000_0000 <==> bits >= 0x8000,
        ({
            let e = (bits as int % 0x8000) / 1024;
            let f = bits as int % 1024;
            &&& 0 < e < 31 ==> same_value(fraction(value), scaled(1024 + f, e - 25))
            &&& e == 0 ==> same_value(fraction(value), scaled(f, -24))
            &&& e == 31 && f == 0 ==> value.bits as int % 0x8000_0000 == 0x7f80_0000
            &&& e == 31 && f > 0 ==> value.bits as int % 0x8000_0000 > 0x7f80_0000
        }),
{
    let e = (bits as int % 0x8000) / 1024;
    let f = bits as int % 1024;
    assert(e == (bits as int / 1024) % 32);
    if 0 < e < 31 {
        assert(value.magnitude() == (e + 112) * 0x80_0000 + f * 0x2000);
        assert(value.exponent() == e + 112);
        assert(value.significand() == 0x80_0000 + f * 0x2000);
        assert(value.scale() == e - 38);
        lemma_shifted(1024 + f, e - 25, 13);
        lemma2_to64();
        assert(value.significand() == (1024 + f) * pow2(13));
    } else if e == 0 && f > 0 {
        let x = value.exponent();
        assert(value.scale() == x - 150);
        assert(value.significand() == f * pow2((126 - x) as nat));
        lemma_shifted(f, -24, 126 - x);
    } else if e == 0 {
        assert(value.magnitude() == 0);
        assert(value.significand() == 0);
        assert(fraction(value).0 * scaled(f, -24).1 == 0) by (nonlinear_arith)
            requires
                fraction(value).0 == 0,
        ;
        assert(scaled(f, -24).0 * fraction(value).1 == 0) by (nonlinear_arith)
            requires
                scaled(f, -24).0 == 0,
        ;
    }
}

/// A number keeps its value where its digits are shifted and its unit with them.
proof fn lemma_shifted(significand: int, places: int, k: int)
    requires
        k >= 0,
    ensures
        same_value(
            scaled(significand * pow2(k as nat), places - k),
            scaled(significand, places),
        ),
{
    let s = significand;
    let p = pow2(k as nat) as int;
    if places - k >= 0 {
        let q = pow2((places - k) as nat) as int;
        lemma_pow2_adds(k as nat, (places - k) as nat);
        assert((s * p) * q == s * (p * q)) by (nonlinear_arith);
    } else if places >= 0 {
        let q = pow2((k - places) as nat) as int;
        let r = pow2(places as nat) as int;
        lemma_pow2_adds(places as nat, (k - places) as nat);
        assert(p == r * q);
        assert((s * p) * 1 == (s * r) * q) by (nonlinear_arith)
            requires
                p == r * q,
        ;
    } else {
        let q = pow2((k - places) as nat) as int;
        let r = pow2((-places) as nat) as int;
        lemma_pow2_adds(k as nat, (-places) as nat);
        assert(q == p * r);
        assert((s * p) * r == s * q) by (nonlinear_arith)
            requires
                q == p * r,
        ;
    }
}

/// A double that is a number of single precision is narrowed to that number, bit by bit: the
/// exponent moves, and the fraction keeps its upper bits.
pub proof fn lemma_narrowed_exactly(exponent: int, upper: int)
    requires
        1 <= exponent < 255,
        0 <= upper < 0x80_0000,
    ensures
        narrowed((exponent + 896) * 0x10_0000_0000_0000 + upper * 0x2000_0000) == exponent
            * 0x80_0000 + upper,
        narrowed(0) == 0,
        narrowed(0x7ff0_0000_0000_0000) == 0x7f80_0000,
{
    let f = upper * 0x2000_0000;
    let m = (exponent + 896) * 0x10_0000_0000_0000 + f;
    assert(m / 0x10_0000_0000_0000 == exponent + 896 && m % 0x10_0000_0000_0000 == f)
        by (nonlinear_arith)
        requires
            m == (exponent + 896) * 0x10_0000_0000_0000 + f,
            0 <= f < 0x10_0000_0000_0000,
    ;
    assert(nearest_even(0x10_0000_0000_0000 + f, 0x2000_0000) == 0x80_0000 + upper);
}

/// The numbers that a shape holds: the product of its dimensions, taken in any groups.
pub proof fn lemma_product(a: Seq<usize>, b: Seq<usize>, n: usize)
    ensures
        product(a + b) == product(a) * product(b),
        product(seq![n]) == n,
        product(Seq::empty()) == 1,
    decreases b.len(),
{
    assert(seq![n].drop_last() =~= Seq::empty());
    assert(product(Seq::<usize>::empty()) == 1);
    if b.len() == 0 {
        assert(a + b =~= a);
        assert(product(a) * 1 == product(a));
    } else {
        lemma_product(a, b.drop_last(), n);
        assert((a + b).drop_last() =~= a + b.drop_last());
        assert((a + b).last() == b.last());
        let x = product(a);
        let y = product(b.drop_last());
        let z = b.last() as int;
        assert((x * y) * z == x * (y * z)) by (nonlinear_arith);
    }
}

/// A double is narrowed to the nearest number of single precision, and of two that are as near
/// to the one with an even fraction; beyond the largest it is infinite.
pub proof fn lemma_narrowed_close(exponent: int, lower: int)
    requires
        897 <= exponent < 2047,
        0 <= lower < 0x10_0000_0000_0000,
    ensures
        ({
            let bits = narrowed(exponent * 0x10_0000_0000_0000 + lower);
            let steps = bits - (exponent - 897) * 0x80_0000;
            let whole = 0x10_0000_0000_0000 + lower;
            &&& bits <= 0x7f80_0000
            &&& exponent <= 1150 ==> -0x1000_0000 <= steps * 0x2000_0000 - whole <= 0x1000_0000
            &&& exponent <= 1150 && (steps * 0x2000_0000 - whole == 0x1000_0000 || steps
                * 0x2000_0000 - whole == -0x1000_0000) ==> steps % 2 == 0
            &&& exponent > 1150 ==> bits == 0x7f80_0000
        }),
{
    let m = exponent * 0x10_0000_0000_0000 + lower;
    vstd::arithmetic::div_mod::lemma_fundamental_div_mod_converse(
        m,
        0x10_0000_0000_0000,
        exponent,
        lower,
    );
    let whole = 0x10_0000_0000_0000 + lower;
    lemma_nearest_whole(whole, 0x2000_0000);
}

/// A double that is too small for single precision with all its places loses those that are
/// below the smallest one; the smallest doubles become nought.
pub proof fn lemma_narrowed_small(exponent: int, lower: int)
    requires
        0 <= exponent < 897,
        0 <= lower < 0x10_0000_0000_0000,
    ensures
        ({
            let bits = narrowed(exponent * 0x10_0000_0000_0000 + lower);
            let unit = pow2((926 - exponent) as nat) as int;
            &&& exponent == 0 ==> bits == 0
            &&& exponent > 0 ==> -unit <= 2 * (bits * unit - (0x10_0000_0000_0000 + lower)) <= unit
        }),
{
    let m = exponent * 0x10_0000_0000_0000 + lower;
    vstd::arithmetic::div_mod::lemma_fundamental_div_mod_converse(
        m,
        0x10_0000_0000_0000,
        exponent,
        lower,
    );
    lemma_pow2_pos((926 - exponent) as nat);
    lemma_nearest_whole(0x10_0000_0000_0000 + lower, pow2((926 - exponent) as nat) as int);
}

/// The bytes of a number of each format, and what is said where they do not come out even.
pub proof fn lemma_formats()
    ensures
        Format::Bfloat16.width() == 2 && Format::Bfloat16.fault() == DecodeFault::OddBfloat16,
        Format::Half.width() == 2 && Format::Half.fault() == DecodeFault::OddHalf,
        Format::Single.width() == 4 && Format::Single.fault() == DecodeFault::NotSingles,
        Format::Double.width() == 8 && Format::Double.fault() == DecodeFault::NotDoubles,
{
}

} // verus!
