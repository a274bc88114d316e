//! A reader of the pickle streams that `torch.save` writes for a single tensor
//! (protocol 2, persistent storage ids).

use std::collections::BTreeMap;

use vstd::prelude::*;

use crate::text::{
    chars_of, lossy_text, parse_signed, same_text, signed_number, text_lossy, text_strict,
};

verus! {

broadcast use vstd::std_specs::btree::group_btree_axioms;

/// Location and element type of the single tensor inside a `torch.save`
/// archive, as recovered from the pickle stream.
#[derive(Debug)]
pub struct TorchTensorSpec {
    pub storage_type: String,
    pub storage_key: String,
    pub storage_offset: usize,
    pub shape: Vec<usize>,
}

/// What a `TorchTensorSpec` says.
pub ghost struct TensorModel {
    pub storage_type: Seq<char>,
    pub storage_key: Seq<char>,
    pub storage_offset: usize,
    pub shape: Seq<usize>,
}

impl TorchTensorSpec {
    pub open spec fn view(&self) -> TensorModel {
        TensorModel {
            storage_type: self.storage_type@,
            storage_key: self.storage_key@,
            storage_offset: self.storage_offset,
            shape: self.shape@,
        }
    }
}

/// A value on the pickle stack.
#[derive(Debug)]
pub enum Pickle {
    Null,
    Bool(bool),
    Int(i64),
    Str(String),
    Bytes(Vec<u8>),
    Tuple(Vec<Pickle>),
    List(Vec<Pickle>),
    Global(String, String),
    PersistentId(Box<Pickle>),
    /// Result of `REDUCE` on a callable that is not interpreted (such as
    /// `OrderedDict()`).
    Object(String, Vec<Pickle>),
    /// Result of `REDUCE` on `torch._utils._rebuild_tensor_v2`.
    Tensor(TorchTensorSpec),
}

/// The mathematical model of a `Pickle`.
pub ghost enum PickleModel {
    Null,
    Bool(bool),
    Int(i64),
    Str(Seq<char>),
    Bytes(Seq<u8>),
    Tuple(Seq<PickleModel>),
    List(Seq<PickleModel>),
    Global(Seq<char>, Seq<char>),
    PersistentId(Box<PickleModel>),
    Object(Seq<char>, Seq<PickleModel>),
    Tensor(TensorModel),
}

/// The models of a list of values.
pub open spec fn models(items: Seq<Pickle>) -> Seq<PickleModel>
    decreases items,
{
    Seq::new(
        items.len(),
        |i: int|
            if 0 <= i < items.len() {
                items[i].view()
            } else {
                PickleModel::Null
            },
    )
}

/// The models of a list, one by one.
pub broadcast proof fn lemma_models_index(items: Seq<Pickle>, k: int)
    requires
        0 <= k < items.len(),
    ensures
        #[trigger] models(items)[k] == items[k].view(),
{
}

/// A list has as many models as values.
pub broadcast proof fn lemma_models_len(items: Seq<Pickle>)
    ensures
        #[trigger] models(items).len() == items.len(),
{
}

broadcast group group_models {
    lemma_models_index,
    lemma_models_len,
}

impl Pickle {
    pub open spec fn view(&self) -> PickleModel
        decreases self,
    {
        match self {
            Pickle::Null => PickleModel::Null,
            Pickle::Bool(b) => PickleModel::Bool(*b),
            Pickle::Int(n) => PickleModel::Int(*n),
            Pickle::Str(s) => PickleModel::Str(s@),
            Pickle::Bytes(b) => PickleModel::Bytes(b@),
            Pickle::Tuple(items) => PickleModel::Tuple(models(items@)),
            Pickle::List(items) => PickleModel::List(models(items@)),
            Pickle::Global(module, name) => PickleModel::Global(module@, name@),
            Pickle::PersistentId(id) => PickleModel::PersistentId(Box::new(id.view())),
            Pickle::Object(name, args) => PickleModel::Object(name@, models(args@)),
            Pickle::Tensor(spec) => PickleModel::Tensor(spec@),
        }
    }

    /// A copy of the value.
    pub fn copy(&self) -> (other: Pickle)
        ensures
            other@ == self@,
        decreases self,
    {
        match self {
            Pickle::Null => Pickle::Null,
            Pickle::Bool(b) => Pickle::Bool(*b),
            Pickle::Int(n) => Pickle::Int(*n),
            Pickle::Str(s) => Pickle::Str(s.clone()),
            Pickle::Bytes(b) => Pickle::Bytes(vstd::slice::slice_to_vec(b.as_slice())),
            Pickle::Tuple(items) => Pickle::Tuple(copy_list(items)),
            Pickle::List(items) => Pickle::List(copy_list(items)),
            Pickle::Global(module, name) => Pickle::Global(module.clone(), name.clone()),
            Pickle::PersistentId(id) => Pickle::PersistentId(Box::new(id.copy())),
            Pickle::Object(name, args) => Pickle::Object(name.clone(), copy_list(args)),
            Pickle::Tensor(spec) => Pickle::Tensor(
                TorchTensorSpec {
                    storage_type: spec.storage_type.clone(),
                    storage_key: spec.storage_key.clone(),
                    storage_offset: spec.storage_offset,
                    shape: vstd::slice::slice_to_vec(spec.shape.as_slice()),
                },
            ),
        }
    }
}

fn copy_list(items: &Vec<Pickle>) -> (other: Vec<Pickle>)
    ensures
        models(other@) == models(items@),
    decreases items,
{
    broadcast use group_models;

    let mut other: Vec<Pickle> = Vec::new();
    let mut i: usize = 0;
    while i < items.len()
        invariant
            i <= items@.len(),
            other@.len() == i,
            forall|k: int| 0 <= k < i ==> #[trigger] other@[k].view() == items@[k].view(),
        decreases items@.len() - i,
    {
        let item = items[i].copy();
        other.push(item);
        i += 1;
    }
    assert(models(other@) =~= models(items@));
    other
}


/// Why a pickle stream was refused.
#[derive(Debug)]
pub enum PickleError {
    EndOfStream,
    UnterminatedLine,
    StackUnderflow,
    MarkUnderflow,
    /// A mark was set above what is left of the stack.
    MarkAboveStack,
    InvalidLong(String),
    LongTooWide(usize),
    InvalidUnicode,
    InvalidShortUnicode,
    MemoNotSet(u32),
    /// Every memo index up to the largest one is past use.
    MemoFull,
    EmptyAtStop,
    UnsupportedOpcode(u8, usize),
    NonGlobalCallable,
    MissingStorageId,
    StorageIdNotTuple,
    UnexpectedStorageTuple,
    UnexpectedStorageClass(Pickle),
    UnexpectedStorageKey(Pickle),
    UnexpectedStorageOffset(Option<Pickle>),
    UnexpectedDimension(Pickle),
    UnexpectedSize(Option<Pickle>),
}

/// The mathematical model of a `PickleError`.
pub ghost enum Fault {
    EndOfStream,
    UnterminatedLine,
    StackUnderflow,
    MarkUnderflow,
    MarkAboveStack,
    InvalidLong(Seq<char>),
    LongTooWide(int),
    InvalidUnicode,
    InvalidShortUnicode,
    MemoNotSet(u32),
    MemoFull,
    EmptyAtStop,
    UnsupportedOpcode(u8, int),
    NonGlobalCallable,
    MissingStorageId,
    StorageIdNotTuple,
    UnexpectedStorageTuple,
    UnexpectedStorageClass(PickleModel),
    UnexpectedStorageKey(PickleModel),
    UnexpectedStorageOffset(Option<PickleModel>),
    UnexpectedDimension(PickleModel),
    UnexpectedSize(Option<PickleModel>),
}

/// The model of a value that may be missing.
pub open spec fn optional(value: Option<Pickle>) -> Option<PickleModel> {
    match value {
        Some(v) => Some(v@),
        None => None,
    }
}

impl PickleError {
    pub open spec fn view(&self) -> Fault {
        match self {
            PickleError::EndOfStream => Fault::EndOfStream,
            PickleError::UnterminatedLine => Fault::UnterminatedLine,
            PickleError::StackUnderflow => Fault::StackUnderflow,
            PickleError::MarkUnderflow => Fault::MarkUnderflow,
            PickleError::MarkAboveStack => Fault::MarkAboveStack,
            PickleError::InvalidLong(line) => Fault::InvalidLong(line@),
            PickleError::LongTooWide(len) => Fault::LongTooWide(*len as int),
            PickleError::InvalidUnicode => Fault::InvalidUnicode,
            PickleError::InvalidShortUnicode => Fault::InvalidShortUnicode,
            PickleError::MemoNotSet(index) => Fault::MemoNotSet(*index),
            PickleError::MemoFull => Fault::MemoFull,
            PickleError::EmptyAtStop => Fault::EmptyAtStop,
            PickleError::UnsupportedOpcode(op, at) => Fault::UnsupportedOpcode(*op, *at as int),
            PickleError::NonGlobalCallable => Fault::NonGlobalCallable,
            PickleError::MissingStorageId => Fault::MissingStorageId,
            PickleError::StorageIdNotTuple => Fault::StorageIdNotTuple,
            PickleError::UnexpectedStorageTuple => Fault::UnexpectedStorageTuple,
            PickleError::UnexpectedStorageClass(v) => Fault::UnexpectedStorageClass(v@),
            PickleError::UnexpectedStorageKey(v) => Fault::UnexpectedStorageKey(v@),
            PickleError::UnexpectedStorageOffset(v) => Fault::UnexpectedStorageOffset(
                optional(*v),
            ),
            PickleError::UnexpectedDimension(v) => Fault::UnexpectedDimension(v@),
            PickleError::UnexpectedSize(v) => Fault::UnexpectedSize(optional(*v)),
        }
    }
}

pub const PROTO: u8 = 0x80;
pub const FRAME: u8 = 0x95;
pub const GLOBAL: u8 = 0x63;
pub const NONE: u8 = 0x4e;
pub const NEWTRUE: u8 = 0x88;
pub const NEWFALSE: u8 = 0x89;
pub const BININT1: u8 = 0x4b;
pub const BININT2: u8 = 0x4d;
pub const BININT: u8 = 0x4a;
pub const LONG: u8 = 0x4c;
pub const LONG1: u8 = 0x8a;
pub const LONG4: u8 = 0x8b;
pub const SHORT_BINSTRING: u8 = 0x55;
pub const BINSTRING: u8 = 0x54;
pub const BINUNICODE: u8 = 0x58;
pub const SHORT_BINUNICODE: u8 = 0x8c;
pub const BINBYTES: u8 = 0x42;
pub const SHORT_BINBYTES: u8 = 0x43;
pub const MARK: u8 = 0x28;
pub const EMPTY_TUPLE: u8 = 0x29;
pub const EMPTY_LIST: u8 = 0x5d;
pub const TUPLE: u8 = 0x74;
pub const TUPLE1: u8 = 0x85;
pub const TUPLE2: u8 = 0x86;
pub const TUPLE3: u8 = 0x87;
pub const BINPUT: u8 = 0x71;
pub const LONG_BINPUT: u8 = 0x72;
pub const MEMOIZE: u8 = 0x94;
pub const BINGET: u8 = 0x68;
pub const LONG_BINGET: u8 = 0x6a;
pub const BINPERSID: u8 = 0x51;
pub const REDUCE: u8 = 0x52;
pub const STOP: u8 = 0x2e;

/// The number that bytes spell, the least significant byte first.
pub open spec fn little_endian(bytes: Seq<u8>) -> int
    decreases bytes.len(),
{
    if bytes.len() == 0 {
        0
    } else {
        bytes[0] + 256 * little_endian(bytes.skip(1))
    }
}

/// Two to the power of the bits in `n` bytes.
pub open spec fn span(n: int) -> int
    decreases n,
{
    if n <= 0 {
        1
    } else {
        256 * span(n - 1)
    }
}

/// The number that bytes spell in two's complement, the least significant byte
/// first. No bytes spell zero.
pub open spec fn twos_complement(bytes: Seq<u8>) -> int {
    if bytes.len() > 0 && bytes.last() >= 0x80 {
        little_endian(bytes) - span(bytes.len() as int)
    } else {
        little_endian(bytes)
    }
}

/// Where the first newline at or after `at` stands.
pub open spec fn newline(bytes: Seq<u8>, at: int) -> Option<int>
    decreases bytes.len() - at,
{
    if at < 0 || at >= bytes.len() {
        None
    } else if bytes[at] == 10 {
        Some(at)
    } else {
        newline(bytes, at + 1)
    }
}

/// The text of a line.
pub open spec fn line_text(bytes: Seq<u8>, at: int, end: int) -> Seq<char> {
    lossy_text(bytes.subrange(at, end))
}

/// Where the bytes stand that follow a length of `width` bytes: their start and
/// their end.
pub open spec fn counted(bytes: Seq<u8>, at: int, width: int) -> Option<(int, int)> {
    if at + width > bytes.len() {
        None
    } else {
        let start = at + width;
        let end = start + little_endian(bytes.subrange(at, start));
        if end > bytes.len() {
            None
        } else {
            Some((start, end))
        }
    }
}

/// A decimal line without the trailing `L`.
pub open spec fn long_digits(line: Seq<char>) -> Seq<char> {
    if line.len() > 0 && line.last() == 'L' {
        line.drop_last()
    } else {
        line
    }
}

/// The number whose `width` bytes of two's complement follow `at`.
pub open spec fn long_operand(bytes: Seq<u8>, at: int, width: int) -> Result<(PickleModel, int), Fault> {
    if width > 8 {
        Err(Fault::LongTooWide(width))
    } else if at + width > bytes.len() {
        Err(Fault::EndOfStream)
    } else {
        Ok(
            (
                PickleModel::Int(twos_complement(bytes.subrange(at, at + width)) as i64),
                at + width,
            ),
        )
    }
}

/// The number that an integer opcode pushes, and where its operand ends.
pub open spec fn integer_operand(bytes: Seq<u8>, at: int, op: u8) -> Result<(PickleModel, int), Fault> {
    if op == BININT1 || op == BININT2 || op == BININT {
        let width: int = if op == BININT1 {
            1
        } else if op == BININT2 {
            2
        } else {
            4
        };
        if at + width > bytes.len() {
            Err(Fault::EndOfStream)
        } else {
            let operand = bytes.subrange(at, at + width);
            let n = if op == BININT {
                twos_complement(operand)
            } else {
                little_endian(operand)
            };
            Ok((PickleModel::Int(n as i64), at + width))
        }
    } else if op == LONG {
        match newline(bytes, at) {
            None => Err(Fault::UnterminatedLine),
            Some(end) => {
                let line = line_text(bytes, at, end);
                match signed_number(long_digits(line)) {
                    None => Err(Fault::InvalidLong(line)),
                    Some(n) => Ok((PickleModel::Int(n as i64), end + 1)),
                }
            },
        }
    } else {
        let width: int = if op == LONG1 {
            1
        } else {
            4
        };
        if at + width > bytes.len() {
            Err(Fault::EndOfStream)
        } else {
            long_operand(bytes, at + width, little_endian(bytes.subrange(at, at + width)))
        }
    }
}

/// How many bytes a string opcode gives its length in.
pub open spec fn length_width(op: u8) -> int {
    if op == SHORT_BINSTRING || op == SHORT_BINUNICODE || op == SHORT_BINBYTES {
        1
    } else {
        4
    }
}

/// The string that a string opcode pushes, and where its operand ends.
pub open spec fn string_operand(bytes: Seq<u8>, at: int, op: u8) -> Result<(PickleModel, int), Fault> {
    match counted(bytes, at, length_width(op)) {
        None => Err(Fault::EndOfStream),
        Some((start, end)) => {
            let raw = bytes.subrange(start, end);
            if op == BINBYTES || op == SHORT_BINBYTES {
                Ok((PickleModel::Bytes(raw), end))
            } else if op == BINSTRING || op == SHORT_BINSTRING {
                Ok((PickleModel::Str(lossy_text(raw)), end))
            } else if vstd::utf8::valid_utf8(raw) {
                Ok((PickleModel::Str(vstd::utf8::decode_utf8(raw)), end))
            } else if op == BINUNICODE {
                Err(Fault::InvalidUnicode)
            } else {
                Err(Fault::InvalidShortUnicode)
            }
        },
    }
}

/// The global that two lines name, and where the second one ends.
pub open spec fn global_operand(bytes: Seq<u8>, at: int) -> Result<(PickleModel, int), Fault> {
    match newline(bytes, at) {
        None => Err(Fault::UnterminatedLine),
        Some(first) => match newline(bytes, first + 1) {
            None => Err(Fault::UnterminatedLine),
            Some(second) => Ok(
                (
                    PickleModel::Global(
                        line_text(bytes, at, first),
                        line_text(bytes, first + 1, second),
                    ),
                    second + 1,
                ),
            ),
        },
    }
}

/// `op` pushes an integer.
pub open spec fn is_integer(op: u8) -> bool {
    op == BININT1 || op == BININT2 || op == BININT || op == LONG || op == LONG1 || op == LONG4
}

/// `op` pushes a string or bytes.
pub open spec fn is_string(op: u8) -> bool {
    op == SHORT_BINSTRING || op == BINSTRING || op == BINUNICODE || op == SHORT_BINUNICODE || op
        == BINBYTES || op == SHORT_BINBYTES
}

/// `op` pushes a constant.
pub open spec fn is_constant(op: u8) -> bool {
    op == NONE || op == NEWTRUE || op == NEWFALSE || op == EMPTY_TUPLE || op == EMPTY_LIST
}

/// `op` pushes a value that its operand alone decides.
pub open spec fn is_literal(op: u8) -> bool {
    is_integer(op) || is_string(op) || is_constant(op) || op == GLOBAL
}

/// The constant that `op` pushes.
pub open spec fn constant(op: u8) -> PickleModel {
    if op == NONE {
        PickleModel::Null
    } else if op == NEWTRUE || op == NEWFALSE {
        PickleModel::Bool(op == NEWTRUE)
    } else if op == EMPTY_TUPLE {
        PickleModel::Tuple(Seq::empty())
    } else {
        PickleModel::List(Seq::empty())
    }
}

/// The value that a literal opcode pushes, and where its operand ends.
pub open spec fn literal(bytes: Seq<u8>, at: int, op: u8) -> Result<(PickleModel, int), Fault> {
    if is_integer(op) {
        integer_operand(bytes, at, op)
    } else if is_string(op) {
        string_operand(bytes, at, op)
    } else if op == GLOBAL {
        global_operand(bytes, at)
    } else {
        Ok((constant(op), at))
    }
}

/// The state of the pickle machine: the place in the stream, the stack, the
/// marks set on it, the memo, and the memo index after the largest one used.
#[verifier::ext_equal]
pub ghost struct Machine {
    pub at: int,
    pub stack: Seq<PickleModel>,
    pub marks: Seq<int>,
    pub memo: Map<u32, PickleModel>,
    pub fresh: int,
}

/// What one opcode does.
pub ghost enum Step {
    Next(Machine),
    Stop(PickleModel),
    Fail(Fault),
}

impl Machine {
    /// The machine before the first opcode.
    pub open spec fn start() -> Machine {
        Machine {
            at: 0,
            stack: Seq::empty(),
            marks: Seq::empty(),
            memo: Map::empty(),
            fresh: 0,
        }
    }

    /// The machine at another place in the stream.
    pub open spec fn moved(self, at: int) -> Machine {
        Machine { at, ..self }
    }

    /// The machine with `count` values taken off the stack and `value` pushed.
    pub open spec fn replaced(self, count: int, value: PickleModel) -> Machine {
        Machine { stack: self.stack.take(self.stack.len() - count).push(value), ..self }
    }

    /// The machine with the top of the stack remembered under `index`.
    pub open spec fn remembered(self, index: u32) -> Machine {
        Machine {
            memo: self.memo.insert(index, self.stack.last()),
            fresh: if self.fresh > index {
                self.fresh
            } else {
                index + 1
            },
            ..self
        }
    }

    /// The value that is `depth` below the top of the stack.
    pub open spec fn peek(self, depth: int) -> PickleModel {
        self.stack[self.stack.len() - 1 - depth]
    }
}

/// Remembers the top of the stack under `index`.
pub open spec fn put(m: Machine, index: u32) -> Step {
    if m.stack.len() == 0 {
        Step::Fail(Fault::StackUnderflow)
    } else {
        Step::Next(m.remembered(index))
    }
}

/// Pushes what is remembered under `index`.
pub open spec fn get(m: Machine, index: u32) -> Step {
    if m.memo.contains_key(index) {
        Step::Next(m.replaced(0, m.memo[index]))
    } else {
        Step::Fail(Fault::MemoNotSet(index))
    }
}

/// The memo opcodes. The index is given by the operand, or is the one after the
/// largest one used.
pub open spec fn memo_step(bytes: Seq<u8>, m: Machine, op: u8) -> Step {
    if op == MEMOIZE {
        if m.fresh > u32::MAX {
            Step::Fail(Fault::MemoFull)
        } else {
            put(m, m.fresh as u32)
        }
    } else {
        let width: int = if op == BINPUT || op == BINGET {
            1
        } else {
            4
        };
        if m.at + width > bytes.len() {
            Step::Fail(Fault::EndOfStream)
        } else {
            let index = little_endian(bytes.subrange(m.at, m.at + width)) as u32;
            let after = m.moved(m.at + width);
            if op == BINPUT || op == LONG_BINPUT {
                put(after, index)
            } else {
                get(after, index)
            }
        }
    }
}

/// Gathers what lies above the last mark into a tuple.
pub open spec fn tuple_step(m: Machine) -> Step {
    if m.marks.len() == 0 {
        Step::Fail(Fault::MarkUnderflow)
    } else if m.marks.last() > m.stack.len() {
        Step::Fail(Fault::MarkAboveStack)
    } else {
        let items = m.stack.skip(m.marks.last());
        let after = m.replaced(items.len() as int, PickleModel::Tuple(items));
        Step::Next(Machine { marks: m.marks.drop_last(), ..after })
    }
}

/// Gathers the topmost `count` values into a tuple.
pub open spec fn short_tuple_step(m: Machine, count: int) -> Step {
    if m.stack.len() < count {
        Step::Fail(Fault::StackUnderflow)
    } else {
        Step::Next(m.replaced(count, PickleModel::Tuple(m.stack.skip(m.stack.len() - count))))
    }
}

/// The arguments that a callable gets.
pub open spec fn arguments(value: PickleModel) -> Seq<PickleModel> {
    match value {
        PickleModel::Tuple(items) => items,
        other => seq![other],
    }
}

/// `storage` begins with the text `storage`, and has a class and a key.
pub open spec fn is_storage(storage: Seq<PickleModel>) -> bool {
    storage.len() >= 3 && storage[0] == PickleModel::Str("storage"@)
}

/// A tensor dimension.
pub open spec fn dimension(value: PickleModel) -> Option<usize> {
    match value {
        PickleModel::Int(n) => if n >= 0 {
            Some(n as usize)
        } else {
            None
        },
        _ => None,
    }
}

/// The dimensions of a shape, or the first value that is none.
pub open spec fn dimensions(items: Seq<PickleModel>) -> Result<Seq<usize>, Fault>
    decreases items.len(),
{
    if items.len() == 0 {
        Ok(Seq::empty())
    } else {
        match dimensions(items.drop_last()) {
            Err(fault) => Err(fault),
            Ok(front) => match dimension(items.last()) {
                Some(n) => Ok(front.push(n)),
                None => Err(Fault::UnexpectedDimension(items.last())),
            },
        }
    }
}

/// The argument at `index`, where there is one.
pub open spec fn argument(args: Seq<PickleModel>, index: int) -> Option<PickleModel> {
    if index < args.len() {
        Some(args[index])
    } else {
        None
    }
}

/// The tensor that the arguments of `torch._utils._rebuild_tensor_v2` describe:
/// `(storage_persistent_id, storage_offset, size, ..)`.
pub open spec fn rebuilt(args: Seq<PickleModel>) -> Result<TensorModel, Fault> {
    match argument(args, 0) {
        Some(PickleModel::PersistentId(id)) => match *id {
            PickleModel::Tuple(storage) => rebuilt_from(storage, argument(args, 1), argument(args, 2)),
            _ => Err(Fault::StorageIdNotTuple),
        },
        _ => Err(Fault::MissingStorageId),
    }
}

/// The tensor in `storage` at `offset` with the shape `size`.
pub open spec fn rebuilt_from(
    storage: Seq<PickleModel>,
    offset: Option<PickleModel>,
    size: Option<PickleModel>,
) -> Result<TensorModel, Fault> {
    if !is_storage(storage) {
        Err(Fault::UnexpectedStorageTuple)
    } else if !(storage[1] is Global) {
        Err(Fault::UnexpectedStorageClass(storage[1]))
    } else if !(storage[2] is Str) {
        Err(Fault::UnexpectedStorageKey(storage[2]))
    } else if offset is None || dimension(offset->0) is None {
        Err(Fault::UnexpectedStorageOffset(offset))
    } else {
        match size {
            Some(PickleModel::Tuple(dims)) => match dimensions(dims) {
                Err(fault) => Err(fault),
                Ok(shape) => Ok(
                    TensorModel {
                        storage_type: storage[1]->Global_1,
                        storage_key: storage[2]->Str_0,
                        storage_offset: dimension(offset->0)->0,
                        shape,
                    },
                ),
            },
            _ => Err(Fault::UnexpectedSize(size)),
        }
    }
}

/// Applies the callable below the top of the stack to the value on top.
pub open spec fn reduce_step(m: Machine) -> Step {
    if m.stack.len() < 2 {
        Step::Fail(Fault::StackUnderflow)
    } else {
        match m.peek(1) {
            PickleModel::Global(module, name) => {
                let args = arguments(m.peek(0));
                if module == "torch._utils"@ && name == "_rebuild_tensor_v2"@ {
                    match rebuilt(args) {
                        Ok(tensor) => Step::Next(m.replaced(2, PickleModel::Tensor(tensor))),
                        Err(fault) => Step::Fail(fault),
                    }
                } else {
                    Step::Next(m.replaced(2, PickleModel::Object(module + seq!['.'] + name, args)))
                }
            },
            _ => Step::Fail(Fault::NonGlobalCallable),
        }
    }
}

/// Skips `count` bytes.
pub open spec fn skip_step(bytes: Seq<u8>, m: Machine, count: int) -> Step {
    if m.at + count > bytes.len() {
        Step::Fail(Fault::EndOfStream)
    } else {
        Step::Next(m.moved(m.at + count))
    }
}

/// `op` reads or writes the memo.
pub open spec fn is_memo(op: u8) -> bool {
    op == BINPUT || op == LONG_BINPUT || op == MEMOIZE || op == BINGET || op == LONG_BINGET
}

/// What `op` does to a machine that has just read it.
pub open spec fn execute(bytes: Seq<u8>, m: Machine, op: u8) -> Step {
    if is_literal(op) {
        match literal(bytes, m.at, op) {
            Ok((value, at)) => Step::Next(m.moved(at).replaced(0, value)),
            Err(fault) => Step::Fail(fault),
        }
    } else if is_memo(op) {
        memo_step(bytes, m, op)
    } else if op == PROTO {
        skip_step(bytes, m, 1)
    } else if op == FRAME {
        skip_step(bytes, m, 8)
    } else if op == MARK {
        Step::Next(Machine { marks: m.marks.push(m.stack.len() as int), ..m })
    } else if op == TUPLE {
        tuple_step(m)
    } else if op == TUPLE1 {
        short_tuple_step(m, 1)
    } else if op == TUPLE2 {
        short_tuple_step(m, 2)
    } else if op == TUPLE3 {
        short_tuple_step(m, 3)
    } else if op == BINPERSID {
        if m.stack.len() == 0 {
            Step::Fail(Fault::StackUnderflow)
        } else {
            Step::Next(m.replaced(1, PickleModel::PersistentId(Box::new(m.peek(0)))))
        }
    } else if op == REDUCE {
        reduce_step(m)
    } else if op == STOP {
        if m.stack.len() == 0 {
            Step::Fail(Fault::EmptyAtStop)
        } else {
            Step::Stop(m.peek(0))
        }
    } else {
        Step::Fail(Fault::UnsupportedOpcode(op, m.at - 1))
    }
}

/// What the opcode at the machine's place does.
pub open spec fn step(bytes: Seq<u8>, m: Machine) -> Step {
    if m.at < 0 || m.at >= bytes.len() {
        Step::Fail(Fault::EndOfStream)
    } else {
        execute(bytes, m.moved(m.at + 1), bytes[m.at])
    }
}

/// What the stream leaves when it is run from `m` on: the value on top of the
/// stack at the stop, or the first fault.
pub open spec fn outcome(bytes: Seq<u8>, m: Machine) -> Result<PickleModel, Fault>
    decreases bytes.len() - m.at,
{
    match step(bytes, m) {
        Step::Stop(value) => Ok(value),
        Step::Fail(fault) => Err(fault),
        Step::Next(after) => if m.at < after.at <= bytes.len() {
            outcome(bytes, after)
        } else {
            Err(Fault::EndOfStream)
        },
    }
}

/// Every opcode that lets the machine go on has read at least itself, and
/// nothing past the end of the stream.
pub proof fn lemma_step_advances(bytes: Seq<u8>, m: Machine)
    ensures
        step(bytes, m) is Next ==> m.at < step(bytes, m)->Next_0.at <= bytes.len(),
{
    if 0 <= m.at < bytes.len() {
        let at = m.at + 1;
        let op = bytes[m.at];
        lemma_newline(bytes, at);
        if newline(bytes, at) is Some {
            lemma_newline(bytes, newline(bytes, at)->0 + 1);
        }
        if at + 1 <= bytes.len() {
            lemma_little_endian(bytes.subrange(at, at + 1));
        }
        if at + 4 <= bytes.len() {
            lemma_little_endian(bytes.subrange(at, at + 4));
        }
    }
}

/// A newline that is found stands in the stream, at or after the start.
proof fn lemma_newline(bytes: Seq<u8>, at: int)
    ensures
        newline(bytes, at) is Some ==> at <= newline(bytes, at)->0 < bytes.len() && bytes[newline(
            bytes,
            at,
        )->0] == 10,
    decreases bytes.len() - at,
{
    if 0 <= at < bytes.len() && bytes[at] != 10 {
        lemma_newline(bytes, at + 1);
    }
}

/// The number that bytes spell is below two to the power of their bits.
proof fn lemma_little_endian(bytes: Seq<u8>)
    ensures
        0 <= little_endian(bytes) < span(bytes.len() as int),
    decreases bytes.len(),
{
    if bytes.len() > 0 {
        lemma_little_endian(bytes.skip(1));
    }
}

/// The number that bytes spell, with one more significant byte.
proof fn lemma_little_endian_push(bytes: Seq<u8>, byte: u8)
    ensures
        little_endian(bytes.push(byte)) == little_endian(bytes) + byte * span(
            bytes.len() as int,
        ),
    decreases bytes.len(),
{
    if bytes.len() == 0 {
        let one = bytes.push(byte);
        assert(one.skip(1) =~= Seq::empty());
        assert(little_endian(one.skip(1)) == 0);
    } else {
        assert(bytes.push(byte).skip(1) =~= bytes.skip(1).push(byte));
        lemma_little_endian_push(bytes.skip(1), byte);
        let rest = span(bytes.len() - 1);
        assert(256 * (byte * rest) == byte * (256 * rest)) by (nonlinear_arith);
    }
}

/// The widths in which integers are stored.
proof fn lemma_spans()
    ensures
        span(0) == 1,
        span(1) == 0x100,
        span(2) == 0x1_0000,
        span(3) == 0x100_0000,
        span(4) == 0x1_0000_0000,
        span(5) == 0x100_0000_0000,
        span(6) == 0x1_0000_0000_0000,
        span(7) == 0x100_0000_0000_0000,
        span(8) == 0x1_0000_0000_0000_0000,
{
    reveal_with_fuel(span, 9);
}

/// The number that at most eight bytes spell.
fn number_from(bytes: &[u8]) -> (n: u64)
    requires
        bytes@.len() <= 8,
    ensures
        n == little_endian(bytes@),
{
    let mut n: u64 = 0;
    let mut unit: u64 = 1;
    let mut i: usize = 0;
    proof {
        lemma_spans();
    }
    while i < bytes.len()
        invariant
            i <= bytes@.len() <= 8,
            n == little_endian(bytes@.take(i as int)),
            n < span(i as int),
            i < 8 ==> unit == span(i as int),
        decreases bytes@.len() - i,
    {
        proof {
            lemma_spans();
            assert(bytes@.take(i + 1) =~= bytes@.take(i as int).push(bytes@[i as int]));
            lemma_little_endian_push(bytes@.take(i as int), bytes@[i as int]);
            lemma_little_endian(bytes@.take(i + 1));
            assert(span(i + 1) == 256 * span(i as int));
            assert(bytes@[i as int] * unit <= 255 * unit) by (nonlinear_arith)
                requires
                    0 <= bytes@[i as int] <= 255,
                    unit >= 0,
            ;
        }
        n = n + bytes[i] as u64 * unit;
        if i < 7 {
            unit = unit * 256;
        }
        i += 1;
    }
    assert(bytes@.take(i as int) =~= bytes@);
    n
}

/// The number that at most eight bytes spell in two's complement.
fn signed_from(bytes: &[u8]) -> (n: i64)
    requires
        bytes@.len() <= 8,
    ensures
        n == twos_complement(bytes@),
{
    let raw: i128 = number_from(bytes) as i128;
    let len: usize = bytes.len();
    proof {
        lemma_spans();
        lemma_little_endian(bytes@);
        if len > 0 {
            let front = bytes@.drop_last();
            assert(bytes@ =~= front.push(bytes@.last()));
            lemma_little_endian_push(front, bytes@.last());
            lemma_little_endian(front);
            let unit = span(len - 1);
            let top = bytes@.last() as int;
            assert(span(len as int) == 256 * unit);
            assert(top >= 0x80 ==> top * unit >= 0x80 * unit) by (nonlinear_arith)
                requires
                    unit > 0,
            ;
            assert(top < 0x80 ==> top * unit <= 0x7f * unit) by (nonlinear_arith)
                requires
                    unit > 0,
            ;
            assert(unit <= 0x100_0000_0000_0000);
        }
    }
    if len > 0 && bytes[len - 1] >= 0x80 {
        let whole: i128 = if len == 1 {
            0x100
        } else if len == 2 {
            0x1_0000
        } else if len == 3 {
            0x100_0000
        } else if len == 4 {
            0x1_0000_0000
        } else if len == 5 {
            0x100_0000_0000
        } else if len == 6 {
            0x1_0000_0000_0000
        } else if len == 7 {
            0x100_0000_0000_0000
        } else {
            0x1_0000_0000_0000_0000
        };
        (raw - whole) as i64
    } else {
        raw as i64
    }
}

/// The state of a reader of one pickle stream.
struct ReaderState<'a> {
    bytes: &'a [u8],
    pos: usize,
    stack: Vec<Pickle>,
    marks: Vec<usize>,
    memo: BTreeMap<u32, Pickle>,
    fresh: u64,
}

impl<'a> ReaderState<'a> {
    /// The stream.
    spec fn stream(&self) -> Seq<u8> {
        self.bytes@
    }

    /// The machine that the reader has become.
    spec fn view(&self) -> Machine {
        Machine {
            at: self.pos as int,
            stack: models(self.stack@),
            marks: self.marks@.map_values(|mark: usize| mark as int),
            memo: self.memo@.map_values(|value: Pickle| value@),
            fresh: self.fresh as int,
        }
    }

    /// The reader stands in its stream.
    spec fn wf(&self) -> bool {
        self.pos <= self.bytes@.len() && self.fresh <= 0x1_0000_0000
    }

    /// A reader at the start of `bytes`.
    fn new(bytes: &'a [u8]) -> (reader: ReaderState<'a>)
        ensures
            reader.wf(),
            reader.stream() == bytes@,
            reader@ == Machine::start(),
    {
        let reader = ReaderState {
            bytes,
            pos: 0,
            stack: Vec::new(),
            marks: Vec::new(),
            memo: BTreeMap::new(),
            fresh: 0,
        };
        assert(reader@ =~= Machine::start());
        reader
    }

    /// Everything but the place in the stream is as in `other`.
    spec fn same_but_place(&self, other: &Self) -> bool {
        &&& self.bytes == other.bytes
        &&& self.stack == other.stack
        &&& self.marks == other.marks
        &&& self.memo == other.memo
        &&& self.fresh == other.fresh
    }

    /// Reads one byte.
    fn byte(&mut self) -> (r: Result<u8, PickleError>)
        requires
            old(self).wf(),
        ensures
            final(self).wf(),
            final(self).same_but_place(old(self)),
            r is Ok <==> old(self).pos < old(self).bytes@.len(),
            r is Ok ==> r->Ok_0 == old(self).bytes@[old(self).pos as int] && final(self).pos
                == old(self).pos + 1,
            r is Err ==> r->Err_0@ == Fault::EndOfStream && final(self).pos == old(self).pos,
    {
        if self.pos < self.bytes.len() {
            let byte: u8 = self.bytes[self.pos];
            self.pos = self.pos + 1;
            Ok(byte)
        } else {
            Err(PickleError::EndOfStream)
        }
    }

    /// Reads `len` bytes.
    fn take(&mut self, len: usize) -> (r: Result<&'a [u8], PickleError>)
        requires
            old(self).wf(),
        ensures
            final(self).wf(),
            final(self).same_but_place(old(self)),
            r is Ok <==> old(self).pos + len <= old(self).bytes@.len(),
            r is Ok ==> r->Ok_0@ == old(self).bytes@.subrange(
                old(self).pos as int,
                old(self).pos + len,
            ) && final(self).pos == old(self).pos + len,
            r is Err ==> r->Err_0@ == Fault::EndOfStream && final(self).pos == old(self).pos,
    {
        if len <= self.bytes.len() - self.pos {
            let slice = vstd::slice::slice_subrange(self.bytes, self.pos, self.pos + len);
            self.pos = self.pos + len;
            Ok(slice)
        } else {
            Err(PickleError::EndOfStream)
        }
    }

    /// Reads a line, without its newline.
    fn line(&mut self) -> (r: Result<String, PickleError>)
        requires
            old(self).wf(),
        ensures
            final(self).wf(),
            final(self).same_but_place(old(self)),
            match newline(old(self).bytes@, old(self).pos as int) {
                Some(end) => r is Ok && r->Ok_0@ == line_text(
                    old(self).bytes@,
                    old(self).pos as int,
                    end,
                ) && final(self).pos == end + 1,
                None => r is Err && r->Err_0@ == Fault::UnterminatedLine && final(self).pos == old(
                    self,
                ).pos,
            },
    {
        let mut end: usize = self.pos;
        while end < self.bytes.len() && self.bytes[end] != 10
            invariant
                self.pos <= end <= self.bytes@.len(),
                newline(self.bytes@, self.pos as int) == newline(self.bytes@, end as int),
            decreases self.bytes@.len() - end,
        {
            end += 1;
        }
        if end < self.bytes.len() {
            let slice = vstd::slice::slice_subrange(self.bytes, self.pos, end);
            self.pos = end + 1;
            Ok(text_lossy(slice))
        } else {
            Err(PickleError::UnterminatedLine)
        }
    }

    /// Reads a number of `width` bytes.
    fn number(&mut self, width: usize) -> (r: Result<usize, PickleError>)
        requires
            old(self).wf(),
            width <= 4,
        ensures
            final(self).wf(),
            final(self).same_but_place(old(self)),
            r is Ok <==> old(self).pos + width <= old(self).bytes@.len(),
            r is Ok ==> r->Ok_0 == little_endian(
                old(self).bytes@.subrange(old(self).pos as int, old(self).pos + width),
            ) && final(self).pos == old(self).pos + width && r->Ok_0 <= u32::MAX,
            r is Err ==> r->Err_0@ == Fault::EndOfStream && final(self).pos == old(self).pos,
    {
        let slice = self.take(width)?;
        proof {
            lemma_spans();
            lemma_little_endian(slice@);
        }
        Ok(number_from(slice) as usize)
    }

    /// Reads a number of `len` bytes in two's complement.
    fn long_from_bytes(&mut self, len: usize) -> (r: Result<i64, PickleError>)
        requires
            old(self).wf(),
        ensures
            final(self).wf(),
            final(self).same_but_place(old(self)),
            match long_operand(old(self).bytes@, old(self).pos as int, len as int) {
                Ok((value, at)) => r is Ok && PickleModel::Int(r->Ok_0) == value && final(self).pos
                    == at,
                Err(fault) => r is Err && r->Err_0@ == fault && final(self).pos == old(self).pos,
            },
    {
        if len > 8 {
            return Err(PickleError::LongTooWide(len));
        }
        let slice = self.take(len)?;
        Ok(signed_from(slice))
    }

    /// Reads the operand of an integer opcode.
    fn integer(&mut self, op: u8) -> (r: Result<Pickle, PickleError>)
        requires
            old(self).wf(),
            is_integer(op),
        ensures
            final(self).wf(),
            final(self).same_but_place(old(self)),
            match integer_operand(old(self).bytes@, old(self).pos as int, op) {
                Ok((value, at)) => r is Ok && r->Ok_0@ == value && final(self).pos == at,
                Err(fault) => r is Err && r->Err_0@ == fault,
            },
    {
        if op == BININT1 {
            let n: usize = self.number(1)?;
            Ok(Pickle::Int(n as i64))
        } else if op == BININT2 {
            let n: usize = self.number(2)?;
            Ok(Pickle::Int(n as i64))
        } else if op == BININT {
            let slice = self.take(4)?;
            Ok(Pickle::Int(signed_from(slice)))
        } else if op == LONG {
            let line = self.line()?;
            let chars = chars_of(line.as_str());
            let end: usize = if chars.len() > 0 && chars[chars.len() - 1] == 'L' {
                chars.len() - 1
            } else {
                chars.len()
            };
            let digits = vstd::slice::slice_subrange(chars.as_slice(), 0, end);
            assert(digits@ =~= long_digits(line@));
            match parse_signed(digits) {
                Some(n) => Ok(Pickle::Int(n)),
                None => Err(PickleError::InvalidLong(line)),
            }
        } else if op == LONG1 {
            let len: usize = self.number(1)?;
            let n: i64 = self.long_from_bytes(len)?;
            Ok(Pickle::Int(n))
        } else {
            let len: usize = self.number(4)?;
            let n: i64 = self.long_from_bytes(len)?;
            Ok(Pickle::Int(n))
        }
    }

    /// Reads a length and as many bytes.
    fn counted(&mut self, op: u8) -> (r: Result<&'a [u8], PickleError>)
        requires
            old(self).wf(),
        ensures
            final(self).wf(),
            final(self).same_but_place(old(self)),
            match counted(old(self).bytes@, old(self).pos as int, length_width(op)) {
                Some((start, end)) => r is Ok && r->Ok_0@ == old(self).bytes@.subrange(start, end)
                    && final(self).pos == end,
                None => r is Err && r->Err_0@ == Fault::EndOfStream,
            },
    {
        let width: usize = if op == SHORT_BINSTRING || op == SHORT_BINUNICODE || op
            == SHORT_BINBYTES {
            1
        } else {
            4
        };
        let len: usize = self.number(width)?;
        self.take(len)
    }

    /// Reads the operand of a string opcode.
    fn string(&mut self, op: u8) -> (r: Result<Pickle, PickleError>)
        requires
            old(self).wf(),
            is_string(op),
        ensures
            final(self).wf(),
            final(self).same_but_place(old(self)),
            match string_operand(old(self).bytes@, old(self).pos as int, op) {
                Ok((value, at)) => r is Ok && r->Ok_0@ == value && final(self).pos == at,
                Err(fault) => r is Err && r->Err_0@ == fault,
            },
    {
        let slice = self.counted(op)?;
        if op == BINBYTES || op == SHORT_BINBYTES {
            Ok(Pickle::Bytes(vstd::slice::slice_to_vec(slice)))
        } else if op == BINSTRING || op == SHORT_BINSTRING {
            Ok(Pickle::Str(text_lossy(slice)))
        } else {
            match text_strict(slice) {
                Some(text) => Ok(Pickle::Str(text)),
                None => if op == BINUNICODE {
                    Err(PickleError::InvalidUnicode)
                } else {
                    Err(PickleError::InvalidShortUnicode)
                },
            }
        }
    }

    /// Reads the operand of an opcode that pushes a value of its own.
    fn literal(&mut self, op: u8) -> (r: Result<Pickle, PickleError>)
        requires
            old(self).wf(),
            is_literal(op),
        ensures
            final(self).wf(),
            final(self).same_but_place(old(self)),
            match literal(old(self).bytes@, old(self).pos as int, op) {
                Ok((value, at)) => r is Ok && r->Ok_0@ == value && final(self).pos == at,
                Err(fault) => r is Err && r->Err_0@ == fault,
            },
    {
        broadcast use group_models;

        if op == NONE {
            Ok(Pickle::Null)
        } else if op == NEWTRUE {
            Ok(Pickle::Bool(true))
        } else if op == NEWFALSE {
            Ok(Pickle::Bool(false))
        } else if op == EMPTY_TUPLE {
            let empty: Vec<Pickle> = Vec::new();
            assert(models(empty@) =~= Seq::empty());
            Ok(Pickle::Tuple(empty))
        } else if op == EMPTY_LIST {
            let empty: Vec<Pickle> = Vec::new();
            assert(models(empty@) =~= Seq::empty());
            Ok(Pickle::List(empty))
        } else if op == GLOBAL {
            let module = self.line()?;
            let name = self.line()?;
            Ok(Pickle::Global(module, name))
        } else if op == BININT1 || op == BININT2 || op == BININT || op == LONG || op == LONG1 || op
            == LONG4 {
            self.integer(op)
        } else {
            self.string(op)
        }
    }

    /// Everything but the stack is as in `other`.
    spec fn same_but_stack(&self, other: &Self) -> bool {
        &&& self.bytes == other.bytes
        &&& self.pos == other.pos
        &&& self.marks == other.marks
        &&& self.memo == other.memo
        &&& self.fresh == other.fresh
    }

    /// Pushes a value.
    fn push(&mut self, value: Pickle)
        requires
            old(self).wf(),
        ensures
            final(self).wf(),
            final(self).same_but_stack(old(self)),
            final(self)@ == old(self)@.replaced(0, value@),
    {
        broadcast use group_models;

        self.stack.push(value);
        assert(self@.stack =~= old(self)@.replaced(0, value@).stack);
    }

    /// Takes the topmost value off the stack.
    fn pop(&mut self) -> (r: Result<Pickle, PickleError>)
        requires
            old(self).wf(),
        ensures
            final(self).wf(),
            final(self).same_but_stack(old(self)),
            r is Ok <==> old(self)@.stack.len() > 0,
            r is Ok ==> r->Ok_0@ == old(self)@.stack.last() && final(self)@.stack
                == old(self)@.stack.drop_last(),
            r is Err ==> r->Err_0@ == Fault::StackUnderflow,
    {
        broadcast use group_models;

        match self.stack.pop() {
            Some(value) => {
                assert(models(self.stack@) =~= models(old(self).stack@).drop_last());
                Ok(value)
            },
            None => Err(PickleError::StackUnderflow),
        }
    }

    /// Remembers the top of the stack under `index`.
    fn remember(&mut self, index: u32) -> (r: Result<(), PickleError>)
        requires
            old(self).wf(),
        ensures
            final(self).wf(),
            final(self).bytes == old(self).bytes,
            match put(old(self)@, index) {
                Step::Next(m) => r is Ok && final(self)@ == m,
                Step::Fail(fault) => r is Err && r->Err_0@ == fault,
                Step::Stop(_) => false,
            },
    {
        broadcast use group_models;

        let len: usize = self.stack.len();
        if len == 0 {
            return Err(PickleError::StackUnderflow);
        }
        let top = self.stack[len - 1].copy();
        self.memo.insert(index, top);
        if self.fresh <= index as u64 {
            self.fresh = index as u64 + 1;
        }
        assert(self@ =~= old(self)@.remembered(index));
        Ok(())
    }

    /// Pushes what is remembered under `index`.
    fn recall(&mut self, index: u32) -> (r: Result<(), PickleError>)
        requires
            old(self).wf(),
        ensures
            final(self).wf(),
            final(self).bytes == old(self).bytes,
            match get(old(self)@, index) {
                Step::Next(m) => r is Ok && final(self)@ == m,
                Step::Fail(fault) => r is Err && r->Err_0@ == fault,
                Step::Stop(_) => false,
            },
    {
        let value = match self.memo.get(&index) {
            Some(value) => value.copy(),
            None => {
                return Err(PickleError::MemoNotSet(index));
            },
        };
        self.push(value);
        Ok(())
    }

    /// Runs a memo opcode.
    fn memo_op(&mut self, op: u8) -> (r: Result<(), PickleError>)
        requires
            old(self).wf(),
            is_memo(op),
        ensures
            final(self).wf(),
            final(self).bytes == old(self).bytes,
            match memo_step(old(self).bytes@, old(self)@, op) {
                Step::Next(m) => r is Ok && final(self)@ == m,
                Step::Fail(fault) => r is Err && r->Err_0@ == fault,
                Step::Stop(_) => false,
            },
    {
        if op == MEMOIZE {
            if self.fresh > 0xffff_ffff {
                return Err(PickleError::MemoFull);
            }
            return self.remember(self.fresh as u32);
        }
        let width: usize = if op == BINPUT || op == BINGET {
            1
        } else {
            4
        };
        let index: usize = self.number(width)?;
        assert(self@ =~= old(self)@.moved(old(self)@.at + width));
        if op == BINPUT || op == LONG_BINPUT {
            self.remember(index as u32)
        } else {
            self.recall(index as u32)
        }
    }

    /// Takes what lies above the last mark off the stack.
    fn drain_mark(&mut self) -> (r: Result<Vec<Pickle>, PickleError>)
        requires
            old(self).wf(),
        ensures
            final(self).wf(),
            final(self).bytes == old(self).bytes,
            final(self).pos == old(self).pos,
            final(self).memo == old(self).memo,
            final(self).fresh == old(self).fresh,
            r is Ok <==> old(self)@.marks.len() > 0 && old(self)@.marks.last()
                <= old(self)@.stack.len(),
            r is Ok ==> {
                let mark = old(self)@.marks.last();
                &&& final(self)@.marks == old(self)@.marks.drop_last()
                &&& final(self)@.stack == old(self)@.stack.take(mark)
                &&& models(r->Ok_0@) == old(self)@.stack.skip(mark)
            },
            r is Err ==> r->Err_0@ == if old(self)@.marks.len() == 0 {
                Fault::MarkUnderflow
            } else {
                Fault::MarkAboveStack
            },
    {
        broadcast use group_models;

        match self.marks.pop() {
            None => Err(PickleError::MarkUnderflow),
            Some(mark) => {
                if mark > self.stack.len() {
                    return Err(PickleError::MarkAboveStack);
                }
                let items = self.stack.split_off(mark);
                assert(self@.marks =~= old(self)@.marks.drop_last());
                assert(self@.stack =~= old(self)@.stack.take(mark as int));
                assert(models(items@) =~= old(self)@.stack.skip(mark as int));
                Ok(items)
            },
        }
    }

    /// Gathers what lies above the last mark into a tuple.
    fn tuple(&mut self) -> (r: Result<(), PickleError>)
        requires
            old(self).wf(),
        ensures
            final(self).wf(),
            final(self).bytes == old(self).bytes,
            match tuple_step(old(self)@) {
                Step::Next(m) => r is Ok && final(self)@ == m,
                Step::Fail(fault) => r is Err && r->Err_0@ == fault,
                Step::Stop(_) => false,
            },
    {
        let items = self.drain_mark()?;
        self.push(Pickle::Tuple(items));
        assert(self@ =~= tuple_step(old(self)@)->Next_0);
        Ok(())
    }

    /// Gathers the topmost `count` values into a tuple.
    fn short_tuple(&mut self, count: usize) -> (r: Result<(), PickleError>)
        requires
            old(self).wf(),
        ensures
            final(self).wf(),
            final(self).bytes == old(self).bytes,
            match short_tuple_step(old(self)@, count as int) {
                Step::Next(m) => r is Ok && final(self)@ == m,
                Step::Fail(fault) => r is Err && r->Err_0@ == fault,
                Step::Stop(_) => false,
            },
    {
        broadcast use group_models;

        let len: usize = self.stack.len();
        if len < count {
            return Err(PickleError::StackUnderflow);
        }
        let items = self.stack.split_off(len - count);
        assert(self@.stack =~= old(self)@.stack.take(len - count));
        assert(models(items@) =~= old(self)@.stack.skip(len - count));
        self.push(Pickle::Tuple(items));
        assert(self@ =~= short_tuple_step(old(self)@, count as int)->Next_0);
        Ok(())
    }

    /// Turns the topmost value into a persistent id.
    fn persistent_id(&mut self) -> (r: Result<(), PickleError>)
        requires
            old(self).wf(),
        ensures
            final(self).wf(),
            final(self).bytes == old(self).bytes,
            match execute(old(self).bytes@, old(self)@, BINPERSID) {
                Step::Next(m) => r is Ok && final(self)@ == m,
                Step::Fail(fault) => r is Err && r->Err_0@ == fault,
                Step::Stop(_) => false,
            },
    {
        let id = self.pop()?;
        self.push(Pickle::PersistentId(Box::new(id)));
        assert(self@ =~= execute(old(self).bytes@, old(self)@, BINPERSID)->Next_0);
        Ok(())
    }

    /// Applies the callable below the top of the stack to the value on top.
    fn reduce(&mut self) -> (r: Result<(), PickleError>)
        requires
            old(self).wf(),
        ensures
            final(self).wf(),
            final(self).bytes == old(self).bytes,
            match reduce_step(old(self)@) {
                Step::Next(m) => r is Ok && final(self)@ == m,
                Step::Fail(fault) => r is Err && r->Err_0@ == fault,
                Step::Stop(_) => false,
            },
    {
        broadcast use group_models;

        let args = self.pop()?;
        let callable = self.pop()?;
        let ghost below = self@;
        assert(args@ == old(self)@.peek(0));
        assert(callable@ == old(self)@.peek(1));
        assert(below.stack =~= old(self)@.stack.take(old(self)@.stack.len() - 2));
        let (module, name) = match callable {
            Pickle::Global(module, name) => (module, name),
            _ => {
                return Err(PickleError::NonGlobalCallable);
            },
        };
        let items: Vec<Pickle> = match args {
            Pickle::Tuple(items) => items,
            other => {
                let mut one: Vec<Pickle> = Vec::new();
                one.push(other);
                assert(models(one@) =~= seq![other@]);
                one
            },
        };
        assert(models(items@) == arguments(old(self)@.peek(0)));
        let value = if same_text(module.as_str(), "torch._utils") && same_text(
            name.as_str(),
            "_rebuild_tensor_v2",
        ) {
            Pickle::Tensor(rebuild_tensor_v2(items.as_slice())?)
        } else {
            let mut path = module;
            path.push('.');
            path.append(name.as_str());
            assert(path@ =~= module@ + seq!['.'] + name@);
            Pickle::Object(path, items)
        };
        self.push(value);
        assert(self@ =~= reduce_step(old(self)@)->Next_0);
        Ok(())
    }

    /// Runs one opcode: the value that the stream leaves, where it stops.
    fn step(&mut self) -> (r: Result<Option<Pickle>, PickleError>)
        requires
            old(self).wf(),
        ensures
            final(self).wf(),
            final(self).bytes == old(self).bytes,
            match step(old(self).bytes@, old(self)@) {
                Step::Next(m) => r matches Ok(None) && final(self)@ == m,
                Step::Stop(value) => r matches Ok(Some(v)) && v@ == value,
                Step::Fail(fault) => r is Err && r->Err_0@ == fault,
            },
    {
        let op: u8 = self.byte()?;
        assert(self@ =~= old(self)@.moved(old(self)@.at + 1));
        if op == STOP {
            return match self.pop() {
                Ok(value) => Ok(Some(value)),
                Err(_) => Err(PickleError::EmptyAtStop),
            };
        }
        self.run_op(op)?;
        Ok(None)
    }

    /// Runs the opcode that was just read, where it does not stop the stream.
    fn run_op(&mut self, op: u8) -> (r: Result<(), PickleError>)
        requires
            old(self).wf(),
            old(self)@.at > 0,
            op != STOP,
        ensures
            final(self).wf(),
            final(self).bytes == old(self).bytes,
            match execute(old(self).bytes@, old(self)@, op) {
                Step::Next(m) => r is Ok && final(self)@ == m,
                Step::Fail(fault) => r is Err && r->Err_0@ == fault,
                Step::Stop(_) => false,
            },
    {
        if op == PROTO {
            self.take(1)?;
            assert(self@ =~= old(self)@.moved(old(self)@.at + 1));
        } else if op == FRAME {
            self.take(8)?;
            assert(self@ =~= old(self)@.moved(old(self)@.at + 8));
        } else if op == MARK {
            let depth: usize = self.stack.len();
            self.marks.push(depth);
            assert(self@.marks =~= old(self)@.marks.push(depth as int));
        } else if op == TUPLE {
            self.tuple()?;
        } else if op == TUPLE1 {
            self.short_tuple(1)?;
        } else if op == TUPLE2 {
            self.short_tuple(2)?;
        } else if op == TUPLE3 {
            self.short_tuple(3)?;
        } else if op == BINPUT || op == LONG_BINPUT || op == MEMOIZE || op == BINGET || op
            == LONG_BINGET {
            self.memo_op(op)?;
        } else if op == BINPERSID {
            self.persistent_id()?;
        } else if op == REDUCE {
            self.reduce()?;
        } else if is_literal_op(op) {
            let value = self.literal(op)?;
            let ghost place = self@;
            assert(place =~= old(self)@.moved(place.at));
            self.push(value);
        } else {
            return Err(PickleError::UnsupportedOpcode(op, self.pos - 1));
        }
        Ok(())
    }

    /// Runs the stream to its stop: the value that it leaves.
    fn run(self) -> (r: Result<Pickle, PickleError>)
        requires
            self.wf(),
        ensures
            match outcome(self.stream(), self@) {
                Ok(value) => r is Ok && r->Ok_0@ == value,
                Err(fault) => r is Err && r->Err_0@ == fault,
            },
    {
        let mut reader = self;
        let ghost bytes = reader.bytes@;
        loop
            invariant
                reader.wf(),
                bytes == self.stream(),
                reader.bytes@ == bytes,
                outcome(bytes, reader@) == outcome(self.stream(), self@),
            decreases bytes.len() - reader@.at,
        {
            proof {
                lemma_step_advances(bytes, reader@);
            }
            if let Some(value) = reader.step()? {
                return Ok(value);
            }
        }
    }
}

/// The reader of one pickle stream.
pub struct PickleReader<'a> {
    state: ReaderState<'a>,
}

impl<'a> PickleReader<'a> {
    /// The stream.
    pub closed spec fn stream(&self) -> Seq<u8> {
        self.state.stream()
    }

    /// The machine that the reader has become.
    pub closed spec fn view(&self) -> Machine {
        self.state@
    }

    /// The reader stands in its stream.
    #[verifier::type_invariant]
    spec fn is_placed(&self) -> bool {
        self.state.wf()
    }

    /// A reader at the start of `bytes`.
    pub fn new(bytes: &'a [u8]) -> (reader: PickleReader<'a>)
        ensures
            reader.stream() == bytes@,
            reader@ == Machine::start(),
    {
        PickleReader { state: ReaderState::new(bytes) }
    }

    /// Runs the stream to its stop: the value that it leaves.
    pub fn run(self) -> (r: Result<Pickle, PickleError>)
        ensures
            match outcome(self.stream(), self@) {
                Ok(value) => r is Ok && r->Ok_0@ == value,
                Err(fault) => r is Err && r->Err_0@ == fault,
            },
    {
        proof {
            use_type_invariant(&self);
        }
        self.state.run()
    }
}

/// Whether `op` pushes a value that its operand alone decides.
fn is_literal_op(op: u8) -> (answer: bool)
    ensures
        answer == is_literal(op),
{
    op == BININT1 || op == BININT2 || op == BININT || op == LONG || op == LONG1 || op == LONG4 || op
        == SHORT_BINSTRING || op == BINSTRING || op == BINUNICODE || op == SHORT_BINUNICODE || op
        == BINBYTES || op == SHORT_BINBYTES || op == NONE || op == NEWTRUE || op == NEWFALSE || op
        == EMPTY_TUPLE || op == EMPTY_LIST || op == GLOBAL
}

/// The dimensions that a list of values gives.
fn read_dimensions(dims: &[Pickle]) -> (r: Result<Vec<usize>, PickleError>)
    ensures
        match dimensions(models(dims@)) {
            Ok(shape) => r is Ok && r->Ok_0@ == shape,
            Err(fault) => r is Err && r->Err_0@ == fault,
        },
{
    broadcast use group_models;

    let mut shape: Vec<usize> = Vec::new();
    let mut i: usize = 0;
    let ghost all = models(dims@);
    while i < dims.len()
        invariant
            i <= dims@.len(),
            all == models(dims@),
            all.len() == dims@.len(),
            dimensions(all.take(i as int)) == Ok::<Seq<usize>, Fault>(shape@),
        decreases dims@.len() - i,
    {
        let ghost front = all.take(i + 1);
        proof {
            assert(front.drop_last() =~= all.take(i as int));
            assert(front.last() == dims@[i as int]@);
        }
        match &dims[i] {
            Pickle::Int(n) if *n >= 0 => {
                shape.push(*n as usize);
            },
            other => {
                let value = other.copy();
                proof {
                    lemma_dimensions_prefix(all, i + 1);
                }
                return Err(PickleError::UnexpectedDimension(value));
            },
        }
        i += 1;
    }
    assert(all.take(i as int) =~= all);
    Ok(shape)
}

/// The fault of a front part is the fault of the whole.
proof fn lemma_dimensions_prefix(items: Seq<PickleModel>, n: int)
    requires
        0 <= n <= items.len(),
        dimensions(items.take(n)) is Err,
    ensures
        dimensions(items) == dimensions(items.take(n)),
    decreases items.len() - n,
{
    if n == items.len() {
        assert(items.take(n) =~= items);
    } else {
        assert(items.take(n + 1).drop_last() =~= items.take(n));
        lemma_dimensions_prefix(items, n + 1);
    }
}

/// Interprets the arguments of `torch._utils._rebuild_tensor_v2`:
/// `(storage_persistent_id, storage_offset, size, stride, requires_grad,
/// backward_hooks)`.
pub fn rebuild_tensor_v2(args: &[Pickle]) -> (r: Result<TorchTensorSpec, PickleError>)
    ensures
        match rebuilt(models(args@)) {
            Ok(tensor) => r is Ok && r->Ok_0@ == tensor,
            Err(fault) => r is Err && r->Err_0@ == fault,
        },
{
    broadcast use group_models;

    proof {
        reveal_with_fuel(Pickle::view, 3);
    }
    if args.len() == 0 {
        return Err(PickleError::MissingStorageId);
    }
    let storage = match &args[0] {
        Pickle::PersistentId(id) => match &**id {
            Pickle::Tuple(storage) => storage,
            _ => {
                return Err(PickleError::StorageIdNotTuple);
            },
        },
        _ => {
            return Err(PickleError::MissingStorageId);
        },
    };
    let ghost all = models(args@);
    let ghost parts = models(storage@);
    assert(rebuilt(all) == rebuilt_from(parts, argument(all, 1), argument(all, 2))) by {
        assert(all[0] == args@[0].view());
    }
    if storage.len() < 3 {
        return Err(PickleError::UnexpectedStorageTuple);
    }
    assert(parts[0] == storage@[0].view());
    assert(parts[1] == storage@[1].view());
    assert(parts[2] == storage@[2].view());
    match &storage[0] {
        Pickle::Str(tag) => {
            if !same_text(tag.as_str(), "storage") {
                return Err(PickleError::UnexpectedStorageTuple);
            }
        },
        _ => {
            return Err(PickleError::UnexpectedStorageTuple);
        },
    }
    let storage_type = match &storage[1] {
        Pickle::Global(_, name) => name.clone(),
        other => {
            return Err(PickleError::UnexpectedStorageClass(other.copy()));
        },
    };
    let storage_key = match &storage[2] {
        Pickle::Str(key) => key.clone(),
        other => {
            return Err(PickleError::UnexpectedStorageKey(other.copy()));
        },
    };
    if args.len() < 2 {
        return Err(PickleError::UnexpectedStorageOffset(None));
    }
    assert(all[1] == args@[1].view());
    let storage_offset: usize = match &args[1] {
        Pickle::Int(offset) if *offset >= 0 => *offset as usize,
        other => {
            return Err(PickleError::UnexpectedStorageOffset(Some(other.copy())));
        },
    };
    if args.len() < 3 {
        return Err(PickleError::UnexpectedSize(None));
    }
    assert(all[2] == args@[2].view());
    let shape = match &args[2] {
        Pickle::Tuple(dims) => read_dimensions(dims.as_slice())?,
        other => {
            return Err(PickleError::UnexpectedSize(Some(other.copy())));
        },
    };
    Ok(TorchTensorSpec { storage_type, storage_key, storage_offset, shape })
}

} // verus!
