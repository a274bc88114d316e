//! Tensor data as bytes: the element formats of checkpoints, decoded into
//! single-precision numbers.

use vstd::prelude::*;

use crate::convert::archive::{word16, word32};
use crate::single::{from_bfloat16, from_double, from_half, narrowed, widens, Single};
use crate::text::{owned, same_text};

verus! {

/// A format of tensor elements.
#[derive(Clone, Copy, Debug, PartialEq, Eq, Structural)]
pub enum Format {
    Bfloat16,
    Half,
    Single,
    Double,
}

/// Why tensor data were refused.
#[derive(Debug)]
pub enum DecodeError {
    OddBfloat16,
    OddHalf,
    NotSingles,
    NotDoubles,
    UnsupportedDtype(String),
    UnsupportedStorage(String),
}

/// The mathematical model of a `DecodeError`.
pub ghost enum DecodeFault {
    OddBfloat16,
    OddHalf,
    NotSingles,
    NotDoubles,
    UnsupportedDtype(Seq<char>),
    UnsupportedStorage(Seq<char>),
}

impl DecodeError {
    pub open spec fn view(&self) -> DecodeFault {
        match self {
            DecodeError::OddBfloat16 => DecodeFault::OddBfloat16,
            DecodeError::OddHalf => DecodeFault::OddHalf,
            DecodeError::NotSingles => DecodeFault::NotSingles,
            DecodeError::NotDoubles => DecodeFault::NotDoubles,
            DecodeError::UnsupportedDtype(name) => DecodeFault::UnsupportedDtype(name@),
            DecodeError::UnsupportedStorage(name) => DecodeFault::UnsupportedStorage(name@),
        }
    }
}

impl Format {
    /// How many bytes an element takes.
    pub open spec fn width(self) -> int {
        match self {
            Format::Bfloat16 => 2,
            Format::Half => 2,
            Format::Single => 4,
            Format::Double => 8,
        }
    }

    /// The complaint about data that are no whole number of elements.
    pub open spec fn fault(self) -> DecodeFault {
        match self {
            Format::Bfloat16 => DecodeFault::OddBfloat16,
            Format::Half => DecodeFault::OddHalf,
            Format::Single => DecodeFault::NotSingles,
            Format::Double => DecodeFault::NotDoubles,
        }
    }

    /// `value` is the element that stands at `at` in `data`.
    pub open spec fn reads(self, data: Seq<u8>, at: int, value: Single) -> bool {
        match self {
            Format::Bfloat16 => value.bits == word16(data, at) * 0x1_0000,
            Format::Half => widens(word16(data, at) as u16, value),
            Format::Single => value.bits == word32(data, at),
            Format::Double => {
                let bits = word32(data, at) + 0x1_0000_0000 * word32(data, at + 4);
                &&& value.negative() <==> bits >= 0x8000_0000_0000_0000
                &&& value.magnitude() == narrowed(bits % 0x8000_0000_0000_0000)
            },
        }
    }

    /// `values` are the elements of `data`, in order.
    pub open spec fn decodes(self, data: Seq<u8>, values: Seq<Single>) -> bool {
        &&& values.len() * self.width() == data.len()
        &&& forall|i: int|
            0 <= i < values.len() ==> self.reads(data, i * self.width(), #[trigger] values[i])
    }

    /// The result of decoding: the elements, or the complaint that the data are
    /// no whole number of them.
    pub open spec fn decoding(
        self,
        data: Seq<u8>,
        r: Result<Vec<Single>, DecodeError>,
    ) -> bool {
        if data.len() as int % self.width() == 0 {
            r is Ok && self.decodes(data, r->Ok_0@)
        } else {
            r is Err && r->Err_0@ == self.fault()
        }
    }
}

/// Decodes `bfloat16` elements: each is the upper half of a single-precision
/// number.
pub fn bf16_bytes_to_f32(data: &[u8]) -> (r: Result<Vec<Single>, DecodeError>)
    ensures
        Format::Bfloat16.decoding(data@, r),
{
    if data.len() % 2 != 0 {
        return Err(DecodeError::OddBfloat16);
    }
    let mut values: Vec<Single> = Vec::new();
    let mut at: usize = 0;
    while at < data.len()
        invariant
            at <= data@.len(),
            data@.len() % 2 == 0,
            at == 2 * values@.len(),
            forall|i: int|
                0 <= i < values@.len() ==> Format::Bfloat16.reads(
                    data@,
                    i * 2,
                    #[trigger] values@[i],
                ),
        decreases data@.len() - at,
    {
        let bits: u16 = data[at] as u16 + 0x100 * data[at + 1] as u16;
        values.push(from_bfloat16(bits));
        at += 2;
    }
    Ok(values)
}

/// Decodes half-precision elements.
pub fn f16_bytes_to_f32(data: &[u8]) -> (r: Result<Vec<Single>, DecodeError>)
    ensures
        Format::Half.decoding(data@, r),
{
    if data.len() % 2 != 0 {
        return Err(DecodeError::OddHalf);
    }
    let mut values: Vec<Single> = Vec::new();
    let mut at: usize = 0;
    while at < data.len()
        invariant
            at <= data@.len(),
            data@.len() % 2 == 0,
            at == 2 * values@.len(),
            forall|i: int|
                0 <= i < values@.len() ==> Format::Half.reads(data@, i * 2, #[trigger] values@[i]),
        decreases data@.len() - at,
    {
        let bits: u16 = data[at] as u16 + 0x100 * data[at + 1] as u16;
        values.push(from_half(bits));
        at += 2;
    }
    Ok(values)
}

/// The four-byte number at `at`.
fn word(data: &[u8], at: usize) -> (n: u32)
    requires
        at + 4 <= data@.len(),
    ensures
        n == word32(data@, at as int),
{
    data[at] as u32 + 0x100 * data[at + 1] as u32 + 0x1_0000 * data[at + 2] as u32 + 0x100_0000
        * data[at + 3] as u32
}

/// Decodes single-precision elements.
pub fn f32_bytes_to_vec(data: &[u8]) -> (r: Result<Vec<Single>, DecodeError>)
    ensures
        Format::Single.decoding(data@, r),
{
    if data.len() % 4 != 0 {
        return Err(DecodeError::NotSingles);
    }
    let mut values: Vec<Single> = Vec::new();
    let mut at: usize = 0;
    while at < data.len()
        invariant
            at <= data@.len(),
            data@.len() % 4 == 0,
            at == 4 * values@.len(),
            forall|i: int|
                0 <= i < values@.len() ==> Format::Single.reads(
                    data@,
                    i * 4,
                    #[trigger] values@[i],
                ),
        decreases data@.len() - at,
    {
        values.push(Single { bits: word(data, at) });
        at += 4;
    }
    Ok(values)
}

/// Decodes double-precision elements, each into the nearest single-precision
/// number.
pub fn f64_bytes_to_f32(data: &[u8]) -> (r: Result<Vec<Single>, DecodeError>)
    ensures
        Format::Double.decoding(data@, r),
{
    if data.len() % 8 != 0 {
        return Err(DecodeError::NotDoubles);
    }
    let mut values: Vec<Single> = Vec::new();
    let mut at: usize = 0;
    while at < data.len()
        invariant
            at <= data@.len(),
            data@.len() % 8 == 0,
            at == 8 * values@.len(),
            forall|i: int|
                0 <= i < values@.len() ==> Format::Double.reads(
                    data@,
                    i * 8,
                    #[trigger] values@[i],
                ),
        decreases data@.len() - at,
    {
        let bits: u64 = word(data, at) as u64 + 0x1_0000_0000 * word(data, at + 4) as u64;
        values.push(from_double(bits));
        at += 8;
    }
    Ok(values)
}

/// The format of a safetensors element type, by its name.
pub open spec fn dtype_format(name: Seq<char>) -> Option<Format> {
    if name == "BF16"@ {
        Some(Format::Bfloat16)
    } else if name == "F16"@ {
        Some(Format::Half)
    } else if name == "F32"@ {
        Some(Format::Single)
    } else {
        None
    }
}

/// The format of a torch storage class, by its name.
pub open spec fn storage_format(name: Seq<char>) -> Option<Format> {
    if name == "FloatStorage"@ {
        Some(Format::Single)
    } else if name == "DoubleStorage"@ {
        Some(Format::Double)
    } else if name == "HalfStorage"@ {
        Some(Format::Half)
    } else if name == "BFloat16Storage"@ {
        Some(Format::Bfloat16)
    } else {
        None
    }
}

/// Decodes the data of a safetensors tensor whose element type has the given
/// name.
pub fn decode_safetensor(dtype: &str, data: &[u8]) -> (r: Result<Vec<Single>, DecodeError>)
    ensures
        match dtype_format(dtype@) {
            Some(format) => format.decoding(data@, r),
            None => r is Err && r->Err_0@ == DecodeFault::UnsupportedDtype(dtype@),
        },
{
    if same_text(dtype, "BF16") {
        bf16_bytes_to_f32(data)
    } else if same_text(dtype, "F16") {
        f16_bytes_to_f32(data)
    } else if same_text(dtype, "F32") {
        f32_bytes_to_vec(data)
    } else {
        Err(DecodeError::UnsupportedDtype(owned(dtype)))
    }
}

/// Decodes the data of a torch storage of the given class.
pub fn decode_torch_storage(storage_type: &str, data: &[u8]) -> (r: Result<
    Vec<Single>,
    DecodeError,
>)
    ensures
        match storage_format(storage_type@) {
            Some(format) => format.decoding(data@, r),
            None => r is Err && r->Err_0@ == DecodeFault::UnsupportedStorage(storage_type@),
        },
{
    if same_text(storage_type, "FloatStorage") {
        f32_bytes_to_vec(data)
    } else if same_text(storage_type, "DoubleStorage") {
        f64_bytes_to_f32(data)
    } else if same_text(storage_type, "HalfStorage") {
        f16_bytes_to_f32(data)
    } else if same_text(storage_type, "BFloat16Storage") {
        bf16_bytes_to_f32(data)
    } else {
        Err(DecodeError::UnsupportedStorage(owned(storage_type)))
    }
}

/// How many elements a tensor of the given shape has.
pub open spec fn product(shape: Seq<usize>) -> int
    decreases shape.len(),
{
    if shape.len() == 0 {
        1
    } else {
        product(shape.drop_last()) * shape.last()
    }
}

/// A shape with an empty dimension has no elements.
proof fn lemma_product_zero(shape: Seq<usize>, i: int)
    requires
        0 <= i < shape.len(),
        shape[i] == 0,
    ensures
        product(shape) == 0,
    decreases shape.len(),
{
    if i < shape.len() - 1 {
        lemma_product_zero(shape.drop_last(), i);
    }
    assert(product(shape) == 0) by (nonlinear_arith)
        requires
            product(shape) == product(shape.drop_last()) * shape.last(),
            product(shape.drop_last()) == 0 || shape.last() == 0,
    ;
}

/// Without an empty dimension, a front part of a shape has no more elements.
proof fn lemma_product_monotone(shape: Seq<usize>, n: int)
    requires
        0 <= n <= shape.len(),
        forall|i: int| 0 <= i < shape.len() ==> #[trigger] shape[i] > 0,
    ensures
        1 <= product(shape.take(n)) <= product(shape),
    decreases shape.len(),
{
    if shape.len() == 0 {
        assert(shape.take(n) =~= shape);
    } else {
        let front = shape.drop_last();
        if n == shape.len() {
            lemma_product_monotone(front, n - 1);
            assert(front.take(n - 1) =~= front);
            assert(shape.take(n) =~= shape);
        } else {
            lemma_product_monotone(front, n);
            assert(front.take(n) =~= shape.take(n));
        }
        assert(product(shape) >= product(front)) by (nonlinear_arith)
            requires
                product(shape) == product(front) * shape.last(),
                product(front) >= 1,
                shape.last() >= 1,
        ;
        if n == shape.len() {
            assert(product(shape) >= 1);
        }
    }
}

/// Whether a tensor of the given shape has `count` elements.
pub fn has_count(shape: &[usize], count: usize) -> (same: bool)
    ensures
        same == (product(shape@) == count),
{
    let mut i: usize = 0;
    while i < shape.len()
        invariant
            i <= shape@.len(),
            forall|k: int| 0 <= k < i ==> #[trigger] shape@[k] > 0,
        decreases shape@.len() - i,
    {
        if shape[i] == 0 {
            proof {
                lemma_product_zero(shape@, i as int);
            }
            return count == 0;
        }
        i += 1;
    }
    let mut total: usize = 1;
    let mut k: usize = 0;
    while k < shape.len()
        invariant
            k <= shape@.len(),
            forall|j: int| 0 <= j < shape@.len() ==> #[trigger] shape@[j] > 0,
            total == product(shape@.take(k as int)),
        decreases shape@.len() - k,
    {
        proof {
            assert(shape@.take(k + 1).drop_last() =~= shape@.take(k as int));
            lemma_product_monotone(shape@, k + 1);
        }
        match total.checked_mul(shape[k]) {
            Some(more) => {
                total = more;
            },
            None => {
                return false;
            },
        }
        k += 1;
    }
    assert(shape@.take(k as int) =~= shape@);
    total == count
}

} // verus!
