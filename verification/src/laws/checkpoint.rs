//! What becomes of the tensors of a checkpoint, and what is reported of them.

use vstd::prelude::*;

use crate::convert::checkpoint::{
    converts, file_tensors, header_text, is_convertible, is_decodable, is_kept, is_reason, is_shard,
    is_skipped, is_strictly_sorted, lists_kept, lists_skipped, passes, stored, tensor_line,
    tensor_names, CheckpointError, ConvertedTensor,
};
use crate::convert::decode::{dtype_format, product};
use crate::convert::messages::{
    bracketed, element_total, hex_digit, listed, name_lines, skipped_report,
};
use crate::convert::names::{canonical, Component};
use crate::laws::torch::{closes, lemma_numbers_of_bits, lemma_types};
use crate::single::widens;
use crate::text::{decimal, text_before};

verus! {

/// Every tensor that the component keeps is in the converted file, under its canonical name
/// and with the shape that it had; what is in there is one of these, and the names go up.
pub proof fn lemma_kept_tensors(
    component: Component,
    files: Seq<Seq<u8>>,
    tensors: Seq<ConvertedTensor>,
    keys: Seq<(int, Seq<char>)>,
    file: int,
    name: Seq<char>,
)
    requires
        lists_kept(component, files, tensors, keys),
        is_strictly_sorted(tensor_names(tensors)),
        0 <= file < files.len(),
        file_tensors(files[file]) is Some,
        file_tensors(files[file])->0.dom().contains(name),
        canonical(component, name) is Some,
    ensures
        exists|i: int|
            {
                &&& 0 <= i < tensors.len()
                &&& (#[trigger] tensors[i]).name@ == canonical(component, name)->0
                &&& tensors[i].shape@ == file_tensors(files[file])->0[name].1
                &&& dtype_format(file_tensors(files[file])->0[name].0) is Some
                &&& dtype_format(file_tensors(files[file])->0[name].0)->0.decodes(
                    file_tensors(files[file])->0[name].2,
                    tensors[i].data@,
                )
            },
        forall|i: int, j: int|
            0 <= i < j < tensors.len() ==> text_before(
                (#[trigger] tensors[i]).name@,
                (#[trigger] tensors[j]).name@,
            ),
{
    let key = (file, name);
    assert(is_kept(component, files, key));
    assert(keys.contains(key));
    let i = choose|i: int| 0 <= i < keys.len() && keys[i] == key;
    assert(converts(component, files, keys[i], tensors[i]));
    assert forall|i: int, j: int| 0 <= i < j < tensors.len() implies text_before(
        (#[trigger] tensors[i]).name@,
        (#[trigger] tensors[j]).name@,
    ) by {
        assert(text_before(tensor_names(tensors)[i], tensor_names(tensors)[j]));
    }
}

/// What is in the converted file was in one of the files: with its numbers, one for each of
/// its elements, in their order.
pub proof fn lemma_converted_numbers(
    component: Component,
    files: Seq<Seq<u8>>,
    tensors: Seq<ConvertedTensor>,
    keys: Seq<(int, Seq<char>)>,
    i: int,
    k: int,
)
    requires
        lists_kept(component, files, tensors, keys),
        0 <= i < tensors.len(),
        0 <= k < tensors[i].data@.len(),
    ensures
        ({
            let raw = file_tensors(files[keys[i].0])->0[keys[i].1];
            let value = tensors[i].data@[k];
            &&& 0 <= keys[i].0 < files.len()
            &&& file_tensors(files[keys[i].0]) is Some
            &&& file_tensors(files[keys[i].0])->0.dom().contains(keys[i].1)
            &&& canonical(component, keys[i].1) == Some(tensors[i].name@)
            &&& tensors[i].shape@ == raw.1
            &&& tensors[i].data@.len() == product(raw.1)
            &&& raw.0 == "F32"@ ==> value.bits == raw.2[4 * k] + 0x100 * raw.2[4 * k + 1] + 0x1_0000
                * raw.2[4 * k + 2] + 0x100_0000 * raw.2[4 * k + 3]
            &&& raw.0 == "BF16"@ ==> value.bits == 0x1_0000 * raw.2[2 * k] + 0x100_0000 * raw.2[2 * k
                + 1]
            &&& raw.0 == "F16"@ ==> widens((raw.2[2 * k] + 0x100 * raw.2[2 * k + 1]) as u16, value)
            &&& raw.0 == "F32"@ || raw.0 == "BF16"@ || raw.0 == "F16"@
        }),
{
    assert(converts(component, files, keys[i], tensors[i]));
    let raw = stored(files, keys[i]);
    lemma_types(raw.0);
    lemma_numbers_of_bits(raw.2, tensors[i].data@, k);
}

/// Every tensor that the component leaves out is reported, by its own name.
pub proof fn lemma_skipped_tensors(
    component: Component,
    files: Seq<Seq<u8>>,
    names: Seq<String>,
    keys: Seq<(int, Seq<char>)>,
    file: int,
    name: Seq<char>,
)
    requires
        lists_skipped(component, files, names, keys),
        0 <= file < files.len(),
        file_tensors(files[file]) is Some,
        file_tensors(files[file])->0.dom().contains(name),
        canonical(component, name) is None,
    ensures
        exists|i: int| 0 <= i < names.len() && (#[trigger] names[i])@ == name,
{
    let key = (file, name);
    assert(is_skipped(component, files, key));
    assert(keys.contains(key));
    let i = choose|i: int| 0 <= i < keys.len() && keys[i] == key;
    assert(is_skipped(component, files, keys[i]) && names[i]@ == keys[i].1);
}

/// A tensor can be decoded where its bytes make up the elements of its shape: four for each
/// where they are of 32 bits, and two where they are of 16.
pub proof fn lemma_decodable(dtype: Seq<char>, shape: Seq<usize>, data: Seq<u8>)
    ensures
        is_decodable((dtype, shape, data)) <==> {
            ||| dtype == "F32"@ && data.len() == 4 * product(shape)
            ||| dtype == "BF16"@ && data.len() == 2 * product(shape)
            ||| dtype == "F16"@ && data.len() == 2 * product(shape)
        },
{
    lemma_types(dtype);
    assert(product(shape) * 4 == 4 * product(shape));
    assert(product(shape) * 2 == 2 * product(shape));
}

/// The files of a checkpoint are those whose name ends with the suffix and has more than that.
pub proof fn lemma_shards(front: Seq<char>, name: Seq<char>)
    ensures
        is_shard(front + ".safetensors"@) <==> front.len() > 0,
        is_shard(name) ==> closes(name, ".safetensors"@),
{
    let tail = ".safetensors"@;
    let whole = front + tail;
    assert(whole.skip(whole.len() - tail.len()) =~= tail);
    if is_shard(name) {
        assert(name =~= name.take(name.len() - tail.len()) + tail);
    }
}

/// The header of a file is what follows its length, as text, where it is text.
pub proof fn lemma_header(size: Seq<u8>, header: Seq<u8>, rest: Seq<u8>)
    requires
        size.len() == 8,
        header.len() == size[0] + 0x100 * size[1] + 0x1_0000 * size[2] + 0x100_0000 * size[3],
        size[4] == 0 && size[5] == 0 && size[6] == 0 && size[7] == 0,
        vstd::utf8::valid_utf8(header),
    ensures
        header_text(size + header + rest) == Some(vstd::utf8::decode_utf8(header)),
{
    let bytes = size + header + rest;
    assert(bytes.subrange(8, 8 + header.len() as int) =~= header);
}

/// Shapes are written in brackets, with a comma and a space between the dimensions.
pub proof fn lemma_shape_lines(a: Seq<usize>, b: Seq<usize>, n: usize)
    requires
        a.len() > 0,
        b.len() > 0,
    ensures
        listed(a + b) == listed(a) + seq![',', ' '] + listed(b),
        listed(seq![n]) == decimal(n as nat),
        listed(Seq::empty()).len() == 0,
        bracketed(a) == seq!['['] + listed(a) + seq![']'],
    decreases b.len(),
{
    reveal_strlit(", ");
    reveal_strlit("[");
    reveal_strlit("]");
    assert(", "@ =~= seq![',', ' ']);
    assert("["@ =~= seq!['[']);
    assert("]"@ =~= seq![']']);
    let all = a + b;
    assert(all.last() == b.last());
    if b.len() == 1 {
        assert(all.drop_last() =~= a);
    } else {
        assert(all.drop_last() =~= a + b.drop_last());
        lemma_shape_lines(a, b.drop_last(), n);
        assert(listed(all) =~= listed(a) + seq![',', ' '] + listed(b));
    }
}

/// A line of a listing: the name, the type and the shape, with tabs between them.
pub proof fn lemma_listing_line(name: Seq<char>, tensor: (Seq<char>, Seq<usize>, Seq<u8>))
    ensures
        tensor_line(name, tensor) == name + seq!['\t'] + tensor.0 + seq!['\t'] + bracketed(tensor.1),
{
    reveal_strlit("\t");
    assert("\t"@ =~= seq!['\t']);
}

/// The elements of all tensors are counted.
pub proof fn lemma_elements(a: Seq<ConvertedTensor>, tensor: ConvertedTensor)
    ensures
        element_total(a.push(tensor)) == element_total(a) + tensor.data@.len(),
        element_total(Seq::empty()) == 0,
{
    assert(a.push(tensor).drop_last() =~= a);
}

/// Up to eight of the tensors that are left out are named in the report, a line for each, and
/// the others are counted.
pub proof fn lemma_skipped_report(names: Seq<Seq<char>>, n: int)
    requires
        0 <= n < names.len(),
    ensures
        skipped_report(Seq::empty()).len() == 0,
        name_lines(names, n + 1) == name_lines(names, n) + seq![' ', ' ', ' ', ' '] + names[n] + seq![
            '\n',
        ],
        name_lines(names, 0).len() == 0,
        names.len() <= 8 ==> skipped_report(names) == "  skipped "@ + decimal(names.len())
            + " input tensors:\n"@ + name_lines(names, names.len() as int),
        names.len() > 8 ==> skipped_report(names) == "  skipped "@ + decimal(names.len())
            + " input tensors:\n"@ + name_lines(names, 8) + ("    ... and "@ + decimal(
            (names.len() - 8) as nat,
        ) + " more\n"@),
{
    reveal_strlit("    ");
    reveal_strlit("\n");
    assert("    "@ =~= seq![' ', ' ', ' ', ' ']);
    assert("\n"@ =~= seq!['\n']);
    if names.len() <= 8 {
        assert(skipped_report(names) =~= "  skipped "@ + decimal(names.len())
            + " input tensors:\n"@ + name_lines(names, names.len() as int));
    }
}

/// The digits of numbers to the base of sixteen.
pub proof fn lemma_hex_digits(n: int)
    requires
        0 <= n < 16,
    ensures
        n < 10 ==> hex_digit(n) as int == 48 + n,
        n >= 10 ==> hex_digit(n) as int == 87 + n,
{
}

/// A checkpoint is converted only where no two of its tensors, of whatever files, would get the
/// same name, where every one that is kept can be decoded, and where every file can be read.
pub proof fn lemma_convertible(
    component: Component,
    files: Seq<Seq<u8>>,
    a: (int, Seq<char>),
    b: (int, Seq<char>),
    f: int,
)
    requires
        is_convertible(component, files),
    ensures
        0 <= f < files.len() ==> file_tensors(files[f]) is Some,
        is_kept(component, files, a) ==> is_decodable(file_tensors(files[a.0])->0[a.1]),
        is_kept(component, files, a) && is_kept(component, files, b) && canonical(component, a.1)
            == canonical(component, b.1) ==> a == b,
        is_kept(component, files, a) <==> 0 <= a.0 < files.len() && file_tensors(files[a.0]) is Some
            && file_tensors(files[a.0])->0.dom().contains(a.1) && canonical(component, a.1) is Some,
{
    if 0 <= f < files.len() {
        assert(file_tensors(files[f]) is Some);
    }
}

/// The reason for which a checkpoint is refused holds: a file that cannot be read is named where
/// those before it can, and a name where two tensors would get it.
pub proof fn lemma_reasons(component: Component, files: Seq<Seq<u8>>, error: CheckpointError)
    requires
        is_reason(component, files, error),
    ensures
        error matches CheckpointError::Parse(f, cause) ==> f < files.len() && file_tensors(
            files[f as int],
        ) is None && (forall|g: int| 0 <= g < f ==> file_tensors(#[trigger] files[g]) is Some),
        error matches CheckpointError::Collision(name) ==> exists|
            a: (int, Seq<char>),
            b: (int, Seq<char>),
        |
            a != b && #[trigger] is_kept(component, files, a) && #[trigger] is_kept(
                component,
                files,
                b,
            ) && canonical(component, a.1) == Some(name@) && canonical(component, b.1) == Some(
                name@,
            ),
        error matches CheckpointError::Decode(name, cause) ==> exists|key: (int, Seq<char>)|
            #[trigger] is_kept(component, files, key) && key.1 == name@ && !is_decodable(
                file_tensors(files[key.0])->0[key.1],
            ),
        error matches CheckpointError::WrongCount(name, shape, count) ==> exists|
            key: (int, Seq<char>),
        | #[trigger]
            is_kept(component, files, key) && key.1 == name@ && shape@ == file_tensors(
                files[key.0],
            )->0[key.1].1 && !is_decodable(file_tensors(files[key.0])->0[key.1]),
{
    if error is Parse {
        let f = error->Parse_0 as int;
        assert forall|g: int| 0 <= g < f implies file_tensors(#[trigger] files[g]) is Some by {
            assert(passes(component, files, g));
        }
    }
}

} // verus!
