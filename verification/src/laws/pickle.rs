//! What a pickle stream leaves: how the opcodes put values together, whatever stands before
//! and after them.

use vstd::prelude::*;

use crate::convert::pickle::{
    dimension, dimensions, execute, lemma_models_index, lemma_models_len, literal, little_endian,
    newline, outcome, rebuilt, rebuilt_from, span, step, twos_complement, Fault, Machine, Pickle,
    PickleModel, Step, TensorModel, TorchTensorSpec,
};
use crate::laws::text::lemma_reads_signed_back;
use crate::text::{decimal, is_digit, lemma_decimal_number, lossy_text, signed_decimal};

verus! {

/// Wherever the code stands in a stream, running it puts the values on the stack, the last one
/// on top, and changes nothing else.
pub open spec fn pushes_all(code: Seq<u8>, values: Seq<PickleModel>) -> bool {
    forall|bytes: Seq<u8>, m: Machine| #[trigger] leads(code, values, bytes, m)
}

/// In this stream, and from this machine on, where the code stands at its place.
pub open spec fn leads(
    code: Seq<u8>,
    values: Seq<PickleModel>,
    bytes: Seq<u8>,
    m: Machine,
) -> bool {
    0 <= m.at && m.at + code.len() <= bytes.len() && bytes.subrange(m.at, m.at + code.len()) == code
        ==> outcome(bytes, m) == outcome(
        bytes,
        Machine { at: m.at + code.len(), stack: m.stack + values, ..m },
    )
}

/// Running the code puts one value on the stack.
pub open spec fn pushes(code: Seq<u8>, value: PickleModel) -> bool {
    pushes_all(code, seq![value])
}

proof fn lemma_next(bytes: Seq<u8>, m: Machine, after: Machine)
    requires
        step(bytes, m) == Step::Next(after),
        m.at < after.at <= bytes.len(),
    ensures
        outcome(bytes, m) == outcome(bytes, after),
{
}

proof fn lemma_inside(code: Seq<u8>, bytes: Seq<u8>, at: int)
    requires
        0 <= at,
        at + code.len() <= bytes.len(),
        bytes.subrange(at, at + code.len()) == code,
    ensures
        forall|i: int| 0 <= i < code.len() ==> bytes[at + i] == #[trigger] code[i],
        forall|i: int, j: int|
            0 <= i <= j <= code.len() ==> bytes.subrange(at + i, at + j)
                == #[trigger] code.subrange(i, j),
{
    assert forall|i: int| 0 <= i < code.len() implies bytes[at + i] == #[trigger] code[i] by {
        assert(bytes.subrange(at, at + code.len())[i] == bytes[at + i]);
    }
    assert forall|i: int, j: int| 0 <= i <= j <= code.len() implies bytes.subrange(at + i, at + j)
        == #[trigger] code.subrange(i, j) by {
        assert forall|k: int| 0 <= k < j - i implies bytes.subrange(at + i, at + j)[k]
            == code.subrange(i, j)[k] by {
            assert(bytes[at + (i + k)] == code[i + k]);
        }
        assert(bytes.subrange(at + i, at + j) =~= code.subrange(i, j));
    }
}

/// A code with nothing in it puts nothing on the stack.
pub proof fn lemma_nothing()
    ensures
        pushes_all(Seq::empty(), Seq::empty()),
{
    assert forall|bytes: Seq<u8>, m: Machine| #[trigger]
        leads(Seq::empty(), Seq::empty(), bytes, m) by {
        let after = Machine { at: m.at + 0, stack: m.stack + Seq::<PickleModel>::empty(), ..m };
        assert(after.stack =~= m.stack);
        assert(after =~= m);
    }
}

/// Codes that stand one after the other put their values on the stack one after the other.
pub proof fn lemma_in_turn(
    a: Seq<u8>,
    xs: Seq<PickleModel>,
    b: Seq<u8>,
    ys: Seq<PickleModel>,
)
    requires
        pushes_all(a, xs),
        pushes_all(b, ys),
    ensures
        pushes_all(a + b, xs + ys),
{
    assert forall|bytes: Seq<u8>, m: Machine| #[trigger] leads(a + b, xs + ys, bytes, m) by {
        let code = a + b;
        if 0 <= m.at && m.at + code.len() <= bytes.len() && bytes.subrange(
            m.at,
            m.at + code.len(),
        ) == code {
            lemma_inside(code, bytes, m.at);
            assert(code.subrange(0, a.len() as int) =~= a);
            assert(code.subrange(a.len() as int, code.len() as int) =~= b);
            let middle = Machine { at: m.at + a.len(), stack: m.stack + xs, ..m };
            assert(leads(a, xs, bytes, m));
            assert(leads(b, ys, bytes, middle));
            assert(middle.stack + ys =~= m.stack + (xs + ys));
        }
    }
}

/// A stream that puts a value on the stack and stops leaves that value; a protocol or a frame
/// in front says nothing.
pub proof fn lemma_stop(code: Seq<u8>, value: PickleModel, version: u8, frame: Seq<u8>)
    requires
        pushes(code, value),
        frame.len() == 8,
    ensures
        outcome(code + seq![0x2eu8], Machine::start()) == Ok::<PickleModel, Fault>(value),
        outcome(seq![0x80u8, version] + code + seq![0x2eu8], Machine::start()) == Ok::<
            PickleModel,
            Fault,
        >(value),
        outcome(seq![0x80u8, version] + (seq![0x95u8] + frame) + code + seq![0x2eu8], Machine::start())
            == Ok::<PickleModel, Fault>(value),
{
    lemma_nothing();
    lemma_skips(seq![0x80u8, version]);
    lemma_skips(seq![0x95u8] + frame);
    let none = Seq::<PickleModel>::empty();
    lemma_in_turn(seq![0x80u8, version], none, code, seq![value]);
    lemma_in_turn(seq![0x80u8, version], none, seq![0x95u8] + frame, none);
    assert(none + none =~= none);
    assert(none + seq![value] =~= seq![value]);
    lemma_in_turn(seq![0x80u8, version] + (seq![0x95u8] + frame), none, code, seq![value]);
    lemma_stops(code, value);
    lemma_stops(seq![0x80u8, version] + code, value);
    lemma_stops(seq![0x80u8, version] + (seq![0x95u8] + frame) + code, value);
}

proof fn lemma_skips(code: Seq<u8>)
    requires
        code.len() == 2 && code[0] == 0x80 || code.len() == 9 && code[0] == 0x95,
    ensures
        pushes_all(code, Seq::empty()),
{
    let none = Seq::<PickleModel>::empty();
    assert forall|bytes: Seq<u8>, m: Machine| #[trigger] leads(code, none, bytes, m) by {
        if 0 <= m.at && m.at + code.len() <= bytes.len() && bytes.subrange(
            m.at,
            m.at + code.len(),
        ) == code {
            lemma_inside(code, bytes, m.at);
            assert(bytes[m.at + 0] == code[0]);
            let after = Machine { at: m.at + code.len(), stack: m.stack + none, ..m };
            assert(m.stack + none =~= m.stack);
            lemma_next(bytes, m, after);
        }
    }
}

proof fn lemma_stops(code: Seq<u8>, value: PickleModel)
    requires
        pushes(code, value),
    ensures
        outcome(code + seq![0x2eu8], Machine::start()) == Ok::<PickleModel, Fault>(value),
{
    let bytes = code + seq![0x2eu8];
    let m = Machine::start();
    assert(bytes.subrange(0, code.len() as int) =~= code);
    assert(leads(code, seq![value], bytes, m));
    let after = Machine { at: m.at + code.len(), stack: m.stack + seq![value], ..m };
    assert(after.stack[after.stack.len() - 1] == value);
    assert(step(bytes, after) == Step::Stop(value));
}

/// The code of a tuple of up to three values, or of any number of them between a mark and
/// the opcode that goes with it, puts one tuple of those values on the stack, in the order in
/// which they were pushed.
pub proof fn lemma_tuples(code: Seq<u8>, values: Seq<PickleModel>)
    requires
        pushes_all(code, values),
    ensures
        pushes(seq![0x28u8] + code + seq![0x74u8], PickleModel::Tuple(values)),
        values.len() == 0 ==> pushes(seq![0x29u8], PickleModel::Tuple(values)),
        values.len() == 1 ==> pushes(code + seq![0x85u8], PickleModel::Tuple(values)),
        values.len() == 2 ==> pushes(code + seq![0x86u8], PickleModel::Tuple(values)),
        values.len() == 3 ==> pushes(code + seq![0x87u8], PickleModel::Tuple(values)),
{
    let tuple = PickleModel::Tuple(values);
    let marked = seq![0x28u8] + code + seq![0x74u8];
    assert forall|bytes: Seq<u8>, m: Machine| #[trigger] leads(marked, seq![tuple], bytes, m) by {
        if 0 <= m.at && m.at + marked.len() <= bytes.len() && bytes.subrange(
            m.at,
            m.at + marked.len(),
        ) == marked {
            lemma_inside(marked, bytes, m.at);
            assert(bytes[m.at + 0] == marked[0]);
            assert(bytes[m.at + (1 + code.len())] == marked[1 + code.len() as int]);
            assert(marked.subrange(1, 1 + code.len() as int) =~= code);
            let set = Machine {
                at: m.at + 1,
                marks: m.marks.push(m.stack.len() as int),
                ..m
            };
            lemma_next(bytes, m, set);
            assert(leads(code, values, bytes, set));
            let full = Machine { at: set.at + code.len(), stack: set.stack + values, ..set };
            let after = Machine { at: m.at + marked.len(), stack: m.stack + seq![tuple], ..m };
            assert(full.stack.skip(m.stack.len() as int) =~= values);
            assert(full.stack.take(full.stack.len() - values.len()).push(tuple) =~= after.stack);
            assert(full.marks.drop_last() =~= m.marks);
            lemma_next(bytes, full, after);
        }
    }
    if values.len() == 0 {
        lemma_constants();
        assert(values =~= Seq::empty());
    }
    if values.len() == 1 {
        lemma_short(code, values, 0x85);
    }
    if values.len() == 2 {
        lemma_short(code, values, 0x86);
    }
    if values.len() == 3 {
        lemma_short(code, values, 0x87);
    }
}

proof fn lemma_short(code: Seq<u8>, values: Seq<PickleModel>, op: u8)
    requires
        pushes_all(code, values),
        1 <= values.len() <= 3,
        op == 0x84 + values.len(),
    ensures
        pushes(code + seq![op], PickleModel::Tuple(values)),
{
    let tuple = PickleModel::Tuple(values);
    let whole = code + seq![op];
    assert forall|bytes: Seq<u8>, m: Machine| #[trigger] leads(whole, seq![tuple], bytes, m) by {
        if 0 <= m.at && m.at + whole.len() <= bytes.len() && bytes.subrange(
            m.at,
            m.at + whole.len(),
        ) == whole {
            lemma_inside(whole, bytes, m.at);
            assert(bytes[m.at + code.len()] == whole[code.len() as int]);
            assert(whole.subrange(0, code.len() as int) =~= code);
            assert(leads(code, values, bytes, m));
            let full = Machine { at: m.at + code.len(), stack: m.stack + values, ..m };
            let after = Machine { at: m.at + whole.len(), stack: m.stack + seq![tuple], ..m };
            assert(full.stack.skip(full.stack.len() - values.len()) =~= values);
            assert(full.stack.take(full.stack.len() - values.len()).push(tuple) =~= after.stack);
            lemma_next(bytes, full, after);
        }
    }
}

/// The opcodes for one, two and three values do what a mark before these values and the opcode
/// for any number of them do, on every stack.
pub proof fn lemma_short_and_marked(bytes: Seq<u8>, m: Machine, values: Seq<PickleModel>, op: u8)
    requires
        1 <= values.len() <= 3,
        op == 0x84 + values.len(),
    ensures
        execute(bytes, Machine { stack: m.stack + values, ..m }, op) == execute(
            bytes,
            Machine {
                stack: m.stack + values,
                marks: m.marks.push(m.stack.len() as int),
                ..m
            },
            0x74,
        ),
        execute(bytes, Machine { stack: m.stack + values, ..m }, op) == Step::Next(
            Machine { stack: m.stack.push(PickleModel::Tuple(values)), ..m },
        ),
{
    let full = m.stack + values;
    let tuple = PickleModel::Tuple(values);
    assert(full.skip(full.len() - values.len()) =~= values);
    assert(full.skip(m.stack.len() as int) =~= values);
    assert(full.take(full.len() - values.len()).push(tuple) =~= m.stack.push(tuple));
    assert(m.marks.push(m.stack.len() as int).drop_last() =~= m.marks);
}

/// Three numbers and the opcode for a tuple of three leave the three in the order in which
/// they were pushed.
pub proof fn lemma_three_numbers(a: u8, b: u8, c: u8)
    ensures
        outcome(
            seq![0x4bu8, a, 0x4bu8, b, 0x4bu8, c, 0x87u8, 0x2eu8],
            Machine::start(),
        ) == Ok::<PickleModel, Fault>(
            PickleModel::Tuple(
                seq![
                    PickleModel::Int(a as i64),
                    PickleModel::Int(b as i64),
                    PickleModel::Int(c as i64),
                ],
            ),
        ),
{
    lemma_bytes(a);
    lemma_bytes(b);
    lemma_bytes(c);
    let x = PickleModel::Int(a as i64);
    let y = PickleModel::Int(b as i64);
    let z = PickleModel::Int(c as i64);
    lemma_in_turn(seq![0x4bu8, a], seq![x], seq![0x4bu8, b], seq![y]);
    lemma_in_turn(seq![0x4bu8, a] + seq![0x4bu8, b], seq![x] + seq![y], seq![0x4bu8, c], seq![z]);
    let code = seq![0x4bu8, a] + seq![0x4bu8, b] + seq![0x4bu8, c];
    let values = seq![x] + seq![y] + seq![z];
    assert(values =~= seq![x, y, z]);
    lemma_tuples(code, values);
    lemma_stops(code + seq![0x87u8], PickleModel::Tuple(values));
    assert(code + seq![0x87u8] + seq![0x2eu8] =~= seq![
        0x4bu8,
        a,
        0x4bu8,
        b,
        0x4bu8,
        c,
        0x87u8,
        0x2eu8,
    ]);
}

proof fn lemma_plain(code: Seq<u8>, value: PickleModel)
    requires
        code.len() >= 1,
        crate::convert::pickle::is_literal(code[0]),
        forall|bytes: Seq<u8>, at: int| #[trigger] reads(code, value, bytes, at),
    ensures
        pushes(code, value),
{
    assert forall|bytes: Seq<u8>, m: Machine| #[trigger] leads(code, seq![value], bytes, m) by {
        if 0 <= m.at && m.at + code.len() <= bytes.len() && bytes.subrange(
            m.at,
            m.at + code.len(),
        ) == code {
            lemma_inside(code, bytes, m.at);
            assert(bytes[m.at + 0] == code[0]);
            assert(reads(code, value, bytes, m.at));
            let after = Machine { at: m.at + code.len(), stack: m.stack + seq![value], ..m };
            assert(m.stack.take(m.stack.len() - 0).push(value) =~= after.stack);
            lemma_next(bytes, m, after);
        }
    }
}

/// The literal is read where the code stands.
spec fn reads(code: Seq<u8>, value: PickleModel, bytes: Seq<u8>, at: int) -> bool {
    0 <= at && at + code.len() <= bytes.len() && bytes.subrange(at, at + code.len()) == code
        ==> literal(bytes, at + 1, code[0]) == Ok::<(PickleModel, int), Fault>(
        (value, at + code.len()),
    )
}

/// The constants: nothing, true, false, and the empty tuple and list.
pub proof fn lemma_constants()
    ensures
        pushes(seq![0x4eu8], PickleModel::Null),
        pushes(seq![0x88u8], PickleModel::Bool(true)),
        pushes(seq![0x89u8], PickleModel::Bool(false)),
        pushes(seq![0x29u8], PickleModel::Tuple(Seq::empty())),
        pushes(seq![0x5du8], PickleModel::List(Seq::empty())),
{
    assert forall|bytes: Seq<u8>, at: int| #[trigger]
        reads(seq![0x4eu8], PickleModel::Null, bytes, at) by {}
    lemma_plain(seq![0x4eu8], PickleModel::Null);
    assert forall|bytes: Seq<u8>, at: int| #[trigger]
        reads(seq![0x88u8], PickleModel::Bool(true), bytes, at) by {}
    lemma_plain(seq![0x88u8], PickleModel::Bool(true));
    assert forall|bytes: Seq<u8>, at: int| #[trigger]
        reads(seq![0x89u8], PickleModel::Bool(false), bytes, at) by {}
    lemma_plain(seq![0x89u8], PickleModel::Bool(false));
    assert forall|bytes: Seq<u8>, at: int| #[trigger]
        reads(seq![0x29u8], PickleModel::Tuple(Seq::empty()), bytes, at) by {}
    lemma_plain(seq![0x29u8], PickleModel::Tuple(Seq::empty()));
    assert forall|bytes: Seq<u8>, at: int| #[trigger]
        reads(seq![0x5du8], PickleModel::List(Seq::empty()), bytes, at) by {}
    lemma_plain(seq![0x5du8], PickleModel::List(Seq::empty()));
}

proof fn lemma_spelled(s: Seq<u8>)
    ensures
        s.len() == 1 ==> little_endian(s) == s[0],
        s.len() == 2 ==> little_endian(s) == s[0] + 0x100 * s[1],
        s.len() == 4 ==> little_endian(s) == s[0] + 0x100 * s[1] + 0x1_0000 * s[2] + 0x100_0000
            * s[3],
        span(0) == 1,
        span(1) == 0x100,
        span(2) == 0x1_0000,
        span(4) == 0x1_0000_0000,
{
    reveal_with_fuel(little_endian, 5);
    reveal_with_fuel(span, 5);
    if s.len() >= 1 {
        assert(s.skip(1).len() == s.len() - 1);
    }
    if s.len() >= 2 {
        assert(s.skip(1)[0] == s[1]);
        assert(s.skip(1).skip(1).len() == s.len() - 2);
    }
    if s.len() >= 4 {
        assert(s.skip(1).skip(1)[0] == s[2]);
        assert(s.skip(1).skip(1).skip(1)[0] == s[3]);
        assert(s.skip(1).skip(1).skip(1).skip(1).len() == s.len() - 4);
    }
}

/// A byte pushes the number that it is.
pub proof fn lemma_bytes(a: u8)
    ensures
        pushes(seq![0x4bu8, a], PickleModel::Int(a as i64)),
{
    let code = seq![0x4bu8, a];
    let value = PickleModel::Int(a as i64);
    assert forall|bytes: Seq<u8>, at: int| #[trigger] reads(code, value, bytes, at) by {
        if 0 <= at && at + code.len() <= bytes.len() && bytes.subrange(at, at + code.len())
            == code {
            lemma_inside(code, bytes, at);
            assert(bytes.subrange(at + 1, at + 2) == code.subrange(1, 2));
            lemma_spelled(code.subrange(1, 2));
        }
    }
    lemma_plain(code, value);
}

/// Two bytes push the number that they spell, the lower one first.
pub proof fn lemma_two_bytes(a: u8, b: u8)
    ensures
        pushes(seq![0x4du8, a, b], PickleModel::Int((a + 256 * b) as i64)),
{
    let code = seq![0x4du8, a, b];
    let value = PickleModel::Int((a + 256 * b) as i64);
    assert forall|bytes: Seq<u8>, at: int| #[trigger] reads(code, value, bytes, at) by {
        if 0 <= at && at + code.len() <= bytes.len() && bytes.subrange(at, at + code.len())
            == code {
            lemma_inside(code, bytes, at);
            assert(bytes.subrange(at + 1, at + 3) == code.subrange(1, 3));
            lemma_spelled(code.subrange(1, 3));
        }
    }
    lemma_plain(code, value);
}

/// Four bytes push the number of 32 bits that they spell, the lowest one first: where the
/// highest one has its top bit set, it is negative.
pub proof fn lemma_four_bytes(a: u8, b: u8, c: u8, d: u8)
    ensures
        pushes(
            seq![0x4au8, a, b, c, d],
            PickleModel::Int(
                (a + 0x100 * b + 0x1_0000 * c + 0x100_0000 * (if d >= 128 {
                    d - 256
                } else {
                    d as int
                })) as i64,
            ),
        ),
{
    let code = seq![0x4au8, a, b, c, d];
    let value = PickleModel::Int(
        (a + 0x100 * b + 0x1_0000 * c + 0x100_0000 * (if d >= 128 {
            d - 256
        } else {
            d as int
        })) as i64,
    );
    assert forall|bytes: Seq<u8>, at: int| #[trigger] reads(code, value, bytes, at) by {
        if 0 <= at && at + code.len() <= bytes.len() && bytes.subrange(at, at + code.len())
            == code {
            lemma_inside(code, bytes, at);
            assert(bytes.subrange(at + 1, at + 5) == code.subrange(1, 5));
            lemma_spelled(code.subrange(1, 5));
        }
    }
    lemma_plain(code, value);
}

/// A number of up to eight bytes is nought where there are none, and otherwise its lowest byte
/// and 256 times the number that the others spell; where there is but one, its top bit is
/// the sign.
pub proof fn lemma_long_numbers(digits: Seq<u8>)
    requires
        digits.len() <= 8,
    ensures
        pushes(
            seq![0x8au8, digits.len() as u8] + digits,
            PickleModel::Int(twos_complement(digits) as i64),
        ),
        pushes(
            seq![0x8bu8, digits.len() as u8, 0u8, 0u8, 0u8] + digits,
            PickleModel::Int(twos_complement(digits) as i64),
        ),
        digits.len() == 0 ==> twos_complement(digits) == 0,
        digits.len() == 1 ==> twos_complement(digits) == (if digits[0] >= 128 {
            digits[0] - 256
        } else {
            digits[0] as int
        }),
        digits.len() >= 2 ==> twos_complement(digits) == digits[0] + 256 * twos_complement(
            digits.skip(1),
        ),
{
    let n = digits.len() as int;
    let value = PickleModel::Int(twos_complement(digits) as i64);
    let short = seq![0x8au8, n as u8] + digits;
    assert forall|bytes: Seq<u8>, at: int| #[trigger] reads(short, value, bytes, at) by {
        if 0 <= at && at + short.len() <= bytes.len() && bytes.subrange(at, at + short.len())
            == short {
            lemma_inside(short, bytes, at);
            assert(bytes.subrange(at + 1, at + 2) == short.subrange(1, 2));
            lemma_spelled(short.subrange(1, 2));
            assert(short.subrange(2, 2 + n) =~= digits);
            assert(bytes.subrange(at + 2, at + (2 + n)) == short.subrange(2, 2 + n));
        }
    }
    lemma_plain(short, value);
    let long = seq![0x8bu8, n as u8, 0u8, 0u8, 0u8] + digits;
    assert forall|bytes: Seq<u8>, at: int| #[trigger] reads(long, value, bytes, at) by {
        if 0 <= at && at + long.len() <= bytes.len() && bytes.subrange(at, at + long.len())
            == long {
            lemma_inside(long, bytes, at);
            assert(bytes.subrange(at + 1, at + 5) == long.subrange(1, 5));
            lemma_spelled(long.subrange(1, 5));
            assert(long.subrange(5, 5 + n) =~= digits);
            assert(bytes.subrange(at + 5, at + (5 + n)) == long.subrange(5, 5 + n));
        }
    }
    lemma_plain(long, value);
    lemma_spelled(digits);
    if n >= 2 {
        assert(digits.skip(1).last() == digits.last());
        assert(span(n) == 256 * span(n - 1));
    }
}

/// The length of a string in four bytes, the lowest one first.
pub open spec fn spells(width: Seq<u8>, n: int) -> bool {
    width.len() == 4 && n == width[0] + 0x100 * width[1] + 0x1_0000 * width[2] + 0x100_0000
        * width[3]
}

proof fn lemma_counted(head: Seq<u8>, raw: Seq<u8>, value: PickleModel)
    requires
        head.len() == 2 && head[1] == raw.len() && (head[0] == 0x55 || head[0] == 0x8c || head[0]
            == 0x43) || head.len() == 5 && spells(head.subrange(1, 5), raw.len() as int) && (
        head[0] == 0x54 || head[0] == 0x58 || head[0] == 0x42),
        head[0] == 0x42 || head[0] == 0x43 ==> value == PickleModel::Bytes(raw),
        head[0] == 0x54 || head[0] == 0x55 ==> value == PickleModel::Str(lossy_text(raw)),
        head[0] == 0x58 || head[0] == 0x8c ==> vstd::utf8::valid_utf8(raw) && value
            == PickleModel::Str(vstd::utf8::decode_utf8(raw)),
    ensures
        pushes(head + raw, value),
{
    let code = head + raw;
    let w = head.len() as int;
    assert forall|bytes: Seq<u8>, at: int| #[trigger] reads(code, value, bytes, at) by {
        if 0 <= at && at + code.len() <= bytes.len() && bytes.subrange(at, at + code.len())
            == code {
            lemma_inside(code, bytes, at);
            assert(bytes.subrange(at + 1, at + w) == code.subrange(1, w));
            assert(code.subrange(1, w) =~= head.subrange(1, w));
            lemma_spelled(head.subrange(1, w));
            assert(code.subrange(w, w + raw.len()) =~= raw);
            assert(bytes.subrange(at + w, at + (w + raw.len())) == code.subrange(
                w,
                w + raw.len(),
            ));
        }
    }
    lemma_plain(code, value);
}

/// A string is pushed as it stands: text as what it encodes, and bytes as bytes, after a
/// length in one byte or in four.
pub proof fn lemma_strings(raw: Seq<u8>, width: Seq<u8>)
    requires
        spells(width, raw.len() as int),
    ensures
        pushes(seq![0x42u8] + width + raw, PickleModel::Bytes(raw)),
        pushes(seq![0x54u8] + width + raw, PickleModel::Str(lossy_text(raw))),
        vstd::utf8::valid_utf8(raw) ==> pushes(
            seq![0x58u8] + width + raw,
            PickleModel::Str(vstd::utf8::decode_utf8(raw)),
        ),
        raw.len() < 256 ==> pushes(
            seq![0x43u8, raw.len() as u8] + raw,
            PickleModel::Bytes(raw),
        ),
        raw.len() < 256 ==> pushes(
            seq![0x55u8, raw.len() as u8] + raw,
            PickleModel::Str(lossy_text(raw)),
        ),
        raw.len() < 256 && vstd::utf8::valid_utf8(raw) ==> pushes(
            seq![0x8cu8, raw.len() as u8] + raw,
            PickleModel::Str(vstd::utf8::decode_utf8(raw)),
        ),
{
    assert((seq![0x42u8] + width).subrange(1, 5) =~= width);
    assert((seq![0x54u8] + width).subrange(1, 5) =~= width);
    assert((seq![0x58u8] + width).subrange(1, 5) =~= width);
    lemma_counted(seq![0x42u8] + width, raw, PickleModel::Bytes(raw));
    lemma_counted(seq![0x54u8] + width, raw, PickleModel::Str(lossy_text(raw)));
    if vstd::utf8::valid_utf8(raw) {
        lemma_counted(
            seq![0x58u8] + width,
            raw,
            PickleModel::Str(vstd::utf8::decode_utf8(raw)),
        );
    }
    if raw.len() < 256 {
        lemma_counted(seq![0x43u8, raw.len() as u8], raw, PickleModel::Bytes(raw));
        lemma_counted(seq![0x55u8, raw.len() as u8], raw, PickleModel::Str(lossy_text(raw)));
        if vstd::utf8::valid_utf8(raw) {
            lemma_counted(
                seq![0x8cu8, raw.len() as u8],
                raw,
                PickleModel::Str(vstd::utf8::decode_utf8(raw)),
            );
        }
    }
}

proof fn lemma_newline_at(bytes: Seq<u8>, from: int, end: int)
    requires
        0 <= from <= end < bytes.len(),
        bytes[end] == 10,
        forall|i: int| from <= i < end ==> #[trigger] bytes[i] != 10,
    ensures
        newline(bytes, from) == Some(end),
    decreases end - from,
{
    if from < end {
        lemma_newline_at(bytes, from + 1, end);
    }
}

/// A global is named by two lines: the module and then the name.
pub proof fn lemma_globals(module: Seq<u8>, name: Seq<u8>)
    requires
        !module.contains(10),
        !name.contains(10),
    ensures
        pushes(
            seq![0x63u8] + module + seq![10u8] + name + seq![10u8],
            PickleModel::Global(lossy_text(module), lossy_text(name)),
        ),
{
    let code = seq![0x63u8] + module + seq![10u8] + name + seq![10u8];
    let value = PickleModel::Global(lossy_text(module), lossy_text(name));
    let p = 1 + module.len() as int;
    let q = p + 1 + name.len() as int;
    assert forall|bytes: Seq<u8>, at: int| #[trigger] reads(code, value, bytes, at) by {
        if 0 <= at && at + code.len() <= bytes.len() && bytes.subrange(at, at + code.len())
            == code {
            lemma_inside(code, bytes, at);
            assert(code.subrange(1, p) =~= module);
            assert(code.subrange(p + 1, q) =~= name);
            assert(bytes.subrange(at + 1, at + p) == code.subrange(1, p));
            assert(bytes.subrange(at + (p + 1), at + q) == code.subrange(p + 1, q));
            assert(bytes[at + p] == code[p]);
            assert(bytes[at + q] == code[q]);
            assert forall|i: int| at + 1 <= i < at + p implies #[trigger] bytes[i] != 10 by {
                assert(bytes[at + (i - at)] == code[i - at]);
                assert(code[i - at] == module[i - at - 1]);
                assert(module.contains(module[i - at - 1]));
            }
            assert forall|i: int| at + p + 1 <= i < at + q implies #[trigger] bytes[i] != 10 by {
                assert(bytes[at + (i - at)] == code[i - at]);
                assert(code[i - at] == name[i - at - p - 1]);
                assert(name.contains(name[i - at - p - 1]));
            }
            lemma_newline_at(bytes, at + 1, at + p);
            lemma_newline_at(bytes, at + p + 1, at + q);
        }
    }
    lemma_plain(code, value);
}

/// The opcode of a persistent id wraps the value that was pushed last.
pub proof fn lemma_persistent(code: Seq<u8>, value: PickleModel)
    requires
        pushes(code, value),
    ensures
        pushes(code + seq![0x51u8], PickleModel::PersistentId(Box::new(value))),
{
    let id = PickleModel::PersistentId(Box::new(value));
    let whole = code + seq![0x51u8];
    assert forall|bytes: Seq<u8>, m: Machine| #[trigger] leads(whole, seq![id], bytes, m) by {
        if 0 <= m.at && m.at + whole.len() <= bytes.len() && bytes.subrange(
            m.at,
            m.at + whole.len(),
        ) == whole {
            lemma_inside(whole, bytes, m.at);
            assert(bytes[m.at + code.len()] == whole[code.len() as int]);
            assert(whole.subrange(0, code.len() as int) =~= code);
            assert(leads(code, seq![value], bytes, m));
            let full = Machine { at: m.at + code.len(), stack: m.stack + seq![value], ..m };
            let after = Machine { at: m.at + whole.len(), stack: m.stack + seq![id], ..m };
            assert(full.stack[full.stack.len() - 1] == value);
            assert(full.stack.take(full.stack.len() - 1).push(id) =~= after.stack);
            lemma_next(bytes, full, after);
        }
    }
}

proof fn lemma_reduced(code: Seq<u8>, module: Seq<char>, name: Seq<char>, args: PickleModel, made: PickleModel)
    requires
        pushes_all(code, seq![PickleModel::Global(module, name), args]),
        forall|m: Machine| #[trigger] applies(m, module, name, args, made),
    ensures
        pushes(code + seq![0x52u8], made),
{
    let whole = code + seq![0x52u8];
    let both = seq![PickleModel::Global(module, name), args];
    assert forall|bytes: Seq<u8>, m: Machine| #[trigger] leads(whole, seq![made], bytes, m) by {
        if 0 <= m.at && m.at + whole.len() <= bytes.len() && bytes.subrange(
            m.at,
            m.at + whole.len(),
        ) == whole {
            lemma_inside(whole, bytes, m.at);
            assert(bytes[m.at + code.len()] == whole[code.len() as int]);
            assert(whole.subrange(0, code.len() as int) =~= code);
            assert(leads(code, both, bytes, m));
            let full = Machine { at: m.at + code.len(), stack: m.stack + both, ..m };
            let after = Machine { at: m.at + whole.len(), stack: m.stack + seq![made], ..m };
            let read = Machine { at: full.at + 1, ..full };
            assert(applies(read, module, name, args, made));
            assert(full.stack[full.stack.len() - 1] == args);
            assert(full.stack[full.stack.len() - 2] == both[0]);
            assert(full.stack.take(full.stack.len() - 2).push(made) =~= after.stack);
            lemma_next(bytes, full, after);
        }
    }
}

/// Applying a global to arguments makes the value.
spec fn applies(
    m: Machine,
    module: Seq<char>,
    name: Seq<char>,
    args: PickleModel,
    made: PickleModel,
) -> bool {
    m.stack.len() >= 2 && m.stack[m.stack.len() - 1] == args && m.stack[m.stack.len() - 2]
        == PickleModel::Global(module, name) ==> crate::convert::pickle::reduce_step(m)
        == Step::Next(m.replaced(2, made))
}

/// A global that is applied to arguments makes an object of its full name and those
/// arguments, unless it is the one that makes tensors.
pub proof fn lemma_objects(
    code: Seq<u8>,
    module: Seq<char>,
    name: Seq<char>,
    args: Seq<PickleModel>,
)
    requires
        pushes_all(code, seq![PickleModel::Global(module, name), PickleModel::Tuple(args)]),
        module != "torch._utils"@ || name != "_rebuild_tensor_v2"@,
    ensures
        pushes(code + seq![0x52u8], PickleModel::Object(module + seq!['.'] + name, args)),
{
    let made = PickleModel::Object(module + seq!['.'] + name, args);
    let tuple = PickleModel::Tuple(args);
    assert forall|m: Machine| #[trigger] applies(m, module, name, tuple, made) by {}
    lemma_reduced(code, module, name, tuple, made);
}

/// The numbers of a shape.
pub open spec fn ints(shape: Seq<usize>) -> Seq<PickleModel> {
    shape.map_values(|n: usize| PickleModel::Int(n as i64))
}

proof fn lemma_shape(shape: Seq<usize>)
    requires
        forall|i: int| 0 <= i < shape.len() ==> #[trigger] shape[i] <= i64::MAX,
    ensures
        dimensions(ints(shape)) == Ok::<Seq<usize>, Fault>(shape),
    decreases shape.len(),
{
    if shape.len() == 0 {
        assert(shape =~= Seq::empty());
    } else {
        assert(ints(shape).drop_last() =~= ints(shape.drop_last()));
        lemma_shape(shape.drop_last());
        assert(shape[shape.len() - 1] <= i64::MAX);
        assert(ints(shape).last() == PickleModel::Int(shape.last() as i64));
        assert(shape.drop_last().push(shape.last()) =~= shape);
    }
}

/// A tensor is rebuilt from what was saved of it: the class and the key of its storage, where
/// it starts in there, and its shape, dimension by dimension. What follows these says nothing.
pub proof fn lemma_tensor_is_rebuilt(
    code: Seq<u8>,
    package: Seq<char>,
    class: Seq<char>,
    key: Seq<char>,
    offset: usize,
    shape: Seq<usize>,
    storage_rest: Seq<PickleModel>,
    rest: Seq<PickleModel>,
)
    requires
        pushes_all(
            code,
            seq![
                PickleModel::Global("torch._utils"@, "_rebuild_tensor_v2"@),
                PickleModel::Tuple(
                    seq![
                        PickleModel::PersistentId(
                            Box::new(
                                PickleModel::Tuple(
                                    seq![
                                        PickleModel::Str("storage"@),
                                        PickleModel::Global(package, class),
                                        PickleModel::Str(key),
                                    ] + storage_rest,
                                ),
                            ),
                        ),
                        PickleModel::Int(offset as i64),
                        PickleModel::Tuple(ints(shape)),
                    ] + rest,
                ),
            ],
        ),
        offset <= i64::MAX,
        forall|i: int| 0 <= i < shape.len() ==> #[trigger] shape[i] <= i64::MAX,
    ensures
        pushes(
            code + seq![0x52u8],
            PickleModel::Tensor(
                TensorModel { storage_type: class, storage_key: key, storage_offset: offset, shape },
            ),
        ),
{
    lemma_shape(shape);
    let storage = seq![
        PickleModel::Str("storage"@),
        PickleModel::Global(package, class),
        PickleModel::Str(key),
    ] + storage_rest;
    let args = seq![
        PickleModel::PersistentId(Box::new(PickleModel::Tuple(storage))),
        PickleModel::Int(offset as i64),
        PickleModel::Tuple(ints(shape)),
    ] + rest;
    let tensor = TensorModel {
        storage_type: class,
        storage_key: key,
        storage_offset: offset,
        shape,
    };
    assert(storage[0] == PickleModel::Str("storage"@));
    assert(storage[1] == PickleModel::Global(package, class));
    assert(storage[2] == PickleModel::Str(key));
    assert(args[0] == PickleModel::PersistentId(Box::new(PickleModel::Tuple(storage))));
    assert(args[1] == PickleModel::Int(offset as i64));
    assert(args[2] == PickleModel::Tuple(ints(shape)));
    assert(dimension(args[1]) == Some(offset));
    assert(rebuilt_from(storage, Some(args[1]), Some(args[2])) == Ok::<TensorModel, Fault>(tensor));
    assert(rebuilt(args) == Ok::<TensorModel, Fault>(tensor));
    let made = PickleModel::Tensor(tensor);
    let tuple = PickleModel::Tuple(args);
    assert forall|m: Machine| #[trigger]
        applies(m, "torch._utils"@, "_rebuild_tensor_v2"@, tuple, made) by {}
    lemma_reduced(code, "torch._utils"@, "_rebuild_tensor_v2"@, tuple, made);
}

/// What is remembered under an index comes back unchanged, and nothing else is touched: the
/// value stays where it was, and what is remembered under other indices is kept.
pub proof fn lemma_memo(bytes: Seq<u8>, m: Machine, index: u8)
    requires
        0 <= m.at,
        m.at + 4 <= bytes.len(),
        bytes[m.at] == 0x71,
        bytes[m.at + 1] == index,
        bytes[m.at + 2] == 0x68,
        bytes[m.at + 3] == index,
        m.stack.len() > 0,
    ensures
        outcome(bytes, m) == outcome(
            bytes,
            Machine {
                at: m.at + 4,
                stack: m.stack.push(m.stack.last()),
                memo: m.memo.insert(index as u32, m.stack.last()),
                fresh: if m.fresh > index {
                    m.fresh
                } else {
                    index + 1
                },
                ..m
            },
        ),
{
    let kept = Machine {
        at: m.at + 2,
        memo: m.memo.insert(index as u32, m.stack.last()),
        fresh: if m.fresh > index {
            m.fresh
        } else {
            index + 1
        },
        ..m
    };
    lemma_spelled(bytes.subrange(m.at + 1, m.at + 2));
    lemma_spelled(bytes.subrange(m.at + 3, m.at + 4));
    lemma_next(bytes, m, kept);
    let after = Machine { at: m.at + 4, stack: m.stack.push(m.stack.last()), ..kept };
    assert(kept.stack.take(kept.stack.len() - 0).push(m.stack.last()) =~= after.stack);
    lemma_next(bytes, kept, after);
}

/// An index in four bytes remembers and gives back as one in a single byte does.
pub proof fn lemma_wide_memo(bytes: Seq<u8>, m: Machine, index: u32)
    requires
        0 <= m.at,
        m.at + 5 <= bytes.len(),
        bytes[m.at] == 0x72 || bytes[m.at] == 0x6a,
        spells(bytes.subrange(m.at + 1, m.at + 5), index as int),
    ensures
        bytes[m.at] == 0x72 && m.stack.len() > 0 ==> outcome(bytes, m) == outcome(
            bytes,
            Machine {
                at: m.at + 5,
                memo: m.memo.insert(index, m.stack.last()),
                fresh: if m.fresh > index {
                    m.fresh
                } else {
                    index + 1
                },
                ..m
            },
        ),
        bytes[m.at] == 0x72 && m.stack.len() == 0 ==> outcome(bytes, m) == Err::<PickleModel, Fault>(
            Fault::StackUnderflow,
        ),
        bytes[m.at] == 0x6a && m.memo.dom().contains(index) ==> outcome(bytes, m) == outcome(
            bytes,
            Machine { at: m.at + 5, stack: m.stack.push(m.memo[index]), ..m },
        ),
        bytes[m.at] == 0x6a && !m.memo.dom().contains(index) ==> outcome(bytes, m) == Err::<
            PickleModel,
            Fault,
        >(Fault::MemoNotSet(index)),
{
    lemma_spelled(bytes.subrange(m.at + 1, m.at + 5));
    if bytes[m.at] == 0x72 && m.stack.len() > 0 {
        lemma_next(
            bytes,
            m,
            Machine {
                at: m.at + 5,
                memo: m.memo.insert(index, m.stack.last()),
                fresh: if m.fresh > index {
                    m.fresh
                } else {
                    index + 1
                },
                ..m
            },
        );
    }
    if bytes[m.at] == 0x6a && m.memo.dom().contains(index) {
        let after = Machine { at: m.at + 5, stack: m.stack.push(m.memo[index]), ..m };
        assert(m.stack.take(m.stack.len() - 0).push(m.memo[index]) =~= after.stack);
        lemma_next(bytes, m, after);
    }
}

/// The index to use next is the one after the largest that was used.
pub open spec fn is_numbered(m: Machine) -> bool {
    &&& m.fresh >= 0
    &&& m.fresh > 0 ==> m.fresh - 1 <= u32::MAX && m.memo.dom().contains((m.fresh - 1) as u32)
    &&& forall|i: u32| #[trigger] m.memo.dom().contains(i) ==> i < m.fresh
}

/// A machine starts with nothing remembered, and every opcode keeps the count of what is.
/// Without an index a value is remembered under the one after the largest that was used.
pub proof fn lemma_memo_is_numbered(bytes: Seq<u8>, m: Machine)
    requires
        is_numbered(m),
    ensures
        is_numbered(Machine::start()),
        Machine::start().memo.dom().is_empty(),
        step(bytes, m) matches Step::Next(after) ==> is_numbered(after),
        0 <= m.at < bytes.len() && bytes[m.at] == 0x94 && m.stack.len() > 0 && m.fresh <= u32::MAX
            ==> outcome(bytes, m) == outcome(
            bytes,
            Machine {
                at: m.at + 1,
                memo: m.memo.insert(m.fresh as u32, m.stack.last()),
                fresh: m.fresh + 1,
                ..m
            },
        ),
{
    assert(Machine::start().memo.dom() =~= Set::empty());
    if 0 <= m.at < bytes.len() && bytes[m.at] == 0x94 && m.stack.len() > 0 && m.fresh <= u32::MAX {
        lemma_next(
            bytes,
            m,
            Machine {
                at: m.at + 1,
                memo: m.memo.insert(m.fresh as u32, m.stack.last()),
                fresh: m.fresh + 1,
                ..m
            },
        );
    }
}

/// A stream that takes more from the stack than there is on it is refused, and so is one that
/// ends before it stops, one without a mark for its tuple, and one with an opcode that is
/// none of those above.
pub proof fn lemma_refusals(bytes: Seq<u8>, m: Machine)
    requires
        0 <= m.at <= bytes.len(),
    ensures
        m.at == bytes.len() ==> outcome(bytes, m) == Err::<PickleModel, Fault>(Fault::EndOfStream),
        m.at < bytes.len() && 0x85 <= bytes[m.at] <= 0x87 && m.stack.len() + 0x84 < bytes[m.at]
            ==> outcome(bytes, m) == Err::<PickleModel, Fault>(Fault::StackUnderflow),
        m.at < bytes.len() && bytes[m.at] == 0x74 && m.marks.len() == 0 ==> outcome(bytes, m)
            == Err::<PickleModel, Fault>(Fault::MarkUnderflow),
        m.at < bytes.len() && bytes[m.at] == 0x51 && m.stack.len() == 0 ==> outcome(bytes, m)
            == Err::<PickleModel, Fault>(Fault::StackUnderflow),
        m.at < bytes.len() && bytes[m.at] == 0x52 && m.stack.len() < 2 ==> outcome(bytes, m)
            == Err::<PickleModel, Fault>(Fault::StackUnderflow),
        m.at < bytes.len() && bytes[m.at] == 0x2e && m.stack.len() == 0 ==> outcome(bytes, m)
            == Err::<PickleModel, Fault>(Fault::EmptyAtStop),
        m.at < bytes.len() && !seq![
            0x80u8, 0x95, 0x63, 0x4e, 0x88, 0x89, 0x4b, 0x4d, 0x4a, 0x4c, 0x8a, 0x8b, 0x55, 0x54,
            0x58, 0x8c, 0x42, 0x43, 0x28, 0x29, 0x5d, 0x74, 0x85, 0x86, 0x87, 0x71, 0x72, 0x94,
            0x68, 0x6a, 0x51, 0x52, 0x2e,
        ].contains(bytes[m.at]) ==> outcome(bytes, m) == Err::<PickleModel, Fault>(
            Fault::UnsupportedOpcode(bytes[m.at], m.at),
        ),
{
    let known = seq![
        0x80u8, 0x95, 0x63, 0x4e, 0x88, 0x89, 0x4b, 0x4d, 0x4a, 0x4c, 0x8a, 0x8b, 0x55, 0x54, 0x58,
        0x8c, 0x42, 0x43, 0x28, 0x29, 0x5d, 0x74, 0x85, 0x86, 0x87, 0x71, 0x72, 0x94, 0x68, 0x6a,
        0x51, 0x52, 0x2e,
    ];
    if m.at < bytes.len() && !known.contains(bytes[m.at]) {
        let op = bytes[m.at];
        assert(known[0] != op && known[1] != op && known[2] != op && known[3] != op && known[4]
            != op && known[5] != op && known[6] != op && known[7] != op && known[8] != op
            && known[9] != op && known[10] != op && known[11] != op && known[12] != op && known[13]
            != op && known[14] != op && known[15] != op && known[16] != op && known[17] != op
            && known[18] != op && known[19] != op && known[20] != op && known[21] != op
            && known[22] != op && known[23] != op && known[24] != op && known[25] != op
            && known[26] != op && known[27] != op && known[28] != op && known[29] != op
            && known[30] != op && known[31] != op && known[32] != op);
    }
}

/// A line of decimal digits, with or without an `L` behind them, is the number that they spell.
pub proof fn lemma_decimal_lines(line: Seq<u8>, n: i64)
    requires
        !line.contains(10),
        lossy_text(line) == signed_decimal(n as int) || lossy_text(line) == signed_decimal(
            n as int,
        ) + seq!['L'],
    ensures
        pushes(seq![0x4cu8] + line + seq![10u8], PickleModel::Int(n)),
{
    let code = seq![0x4cu8] + line + seq![10u8];
    let value = PickleModel::Int(n);
    let p = 1 + line.len() as int;
    let text = signed_decimal(n as int);
    lemma_reads_signed_back(n as int);
    lemma_signed_digits(n as int);
    assert((text + seq!['L']).drop_last() =~= text);
    assert forall|bytes: Seq<u8>, at: int| #[trigger] reads(code, value, bytes, at) by {
        if 0 <= at && at + code.len() <= bytes.len() && bytes.subrange(at, at + code.len())
            == code {
            lemma_inside(code, bytes, at);
            assert(code.subrange(1, p) =~= line);
            assert(bytes.subrange(at + 1, at + p) == code.subrange(1, p));
            assert(bytes[at + p] == code[p]);
            assert forall|i: int| at + 1 <= i < at + p implies #[trigger] bytes[i] != 10 by {
                assert(bytes[at + (i - at)] == code[i - at]);
                assert(code[i - at] == line[i - at - 1]);
                assert(line.contains(line[i - at - 1]));
            }
            lemma_newline_at(bytes, at + 1, at + p);
        }
    }
    lemma_plain(code, value);
}

proof fn lemma_signed_digits(n: int)
    ensures
        signed_decimal(n).len() > 0,
        signed_decimal(n).last() != 'L',
{
    let magnitude = if n < 0 {
        (-n) as nat
    } else {
        n as nat
    };
    lemma_decimal_number(magnitude);
    let digits = decimal(magnitude);
    assert(is_digit(digits[digits.len() - 1]));
    assert(signed_decimal(n).last() == digits[digits.len() - 1]);
}

/// A dimension is a number that is not negative, and nothing else is one.
pub proof fn lemma_dimensions(value: PickleModel, items: Seq<PickleModel>, i: int)
    ensures
        dimension(value) is Some <==> (value matches PickleModel::Int(n) && n >= 0),
        0 <= i < items.len() && dimension(items[i]) is None ==> dimensions(items) is Err,
    decreases items.len(),
{
    if 0 <= i < items.len() && dimension(items[i]) is None && i < items.len() - 1 {
        assert(items.drop_last()[i] == items[i]);
        lemma_dimensions(value, items.drop_last(), i);
    }
}

/// A value says what its parts say, in their order.
pub proof fn lemma_values(items: Vec<Pickle>, k: int)
    ensures
        Pickle::Tuple(items)@ matches PickleModel::Tuple(seen) && seen.len() == items@.len() && (0
            <= k < items@.len() ==> seen[k] == items@[k]@),
        Pickle::List(items)@ matches PickleModel::List(seen) && seen.len() == items@.len() && (0
            <= k < items@.len() ==> seen[k] == items@[k]@),
        forall|n: i64| #[trigger] Pickle::Int(n).view() == PickleModel::Int(n),
        forall|b: bool| #[trigger] Pickle::Bool(b).view() == PickleModel::Bool(b),
        Pickle::Null.view() == PickleModel::Null,
        forall|s: String| #[trigger] Pickle::Str(s).view() == PickleModel::Str(s@),
        forall|spec: TorchTensorSpec| #[trigger]
            Pickle::Tensor(spec).view() == PickleModel::Tensor(spec@),
{
    reveal_with_fuel(Pickle::view, 2);
    if 0 <= k < items@.len() {
        lemma_models_index(items@, k);
    }
    lemma_models_len(items@);
}

/// The place of a tensor says what its parts say.
pub proof fn lemma_tensor_view(spec: TorchTensorSpec)
    ensures
        spec@.storage_type == spec.storage_type@,
        spec@.storage_key == spec.storage_key@,
        spec@.storage_offset == spec.storage_offset,
        spec@.shape == spec.shape@,
{
}

/// A stream that ends inside an operand is refused, and so is one that asks for what was not
/// remembered, or remembers where there is nothing.
pub proof fn lemma_operands_refused(bytes: Seq<u8>, m: Machine)
    requires
        0 <= m.at < bytes.len(),
    ensures
        m.at + 1 == bytes.len() && seq![
            0x80u8, 0x4b, 0x8a, 0x55, 0x8c, 0x43, 0x71, 0x68,
        ].contains(bytes[m.at]) ==> outcome(bytes, m) == Err::<PickleModel, Fault>(
            Fault::EndOfStream,
        ),
        m.at + 5 > bytes.len() && seq![
            0x95u8, 0x4a, 0x8b, 0x54, 0x58, 0x42, 0x72, 0x6a,
        ].contains(bytes[m.at]) ==> outcome(bytes, m) == Err::<PickleModel, Fault>(
            Fault::EndOfStream,
        ),
        m.at + 2 <= bytes.len() && bytes[m.at] == 0x68 && !m.memo.dom().contains(
            bytes[m.at + 1] as u32,
        ) ==> outcome(bytes, m) == Err::<PickleModel, Fault>(
            Fault::MemoNotSet(bytes[m.at + 1] as u32),
        ),
        m.at + 2 <= bytes.len() && bytes[m.at] == 0x71 && m.stack.len() == 0 ==> outcome(bytes, m)
            == Err::<PickleModel, Fault>(Fault::StackUnderflow),
{
    let short = seq![0x80u8, 0x4b, 0x8a, 0x55, 0x8c, 0x43, 0x71, 0x68];
    let long = seq![0x95u8, 0x4a, 0x8b, 0x54, 0x58, 0x42, 0x72, 0x6a];
    let op = bytes[m.at];
    if short.contains(op) {
        let i = choose|i: int| 0 <= i < short.len() && short[i] == op;
        assert(short[i] == op);
    }
    if long.contains(op) {
        let i = choose|i: int| 0 <= i < long.len() && long[i] == op;
        assert(long[i] == op);
    }
    if m.at + 2 <= bytes.len() {
        lemma_spelled(bytes.subrange(m.at + 1, m.at + 2));
    }
}

/// A tensor is rebuilt from nothing else than the persistent id of a storage with its class and
/// key, a place that is not negative, and a tuple of dimensions.
pub proof fn lemma_only_tensors(args: Seq<PickleModel>)
    requires
        rebuilt(args) is Ok,
    ensures
        args.len() >= 3,
        args[0] matches PickleModel::PersistentId(id) && (*id matches PickleModel::Tuple(storage)
            && storage.len() >= 3 && storage[0] == PickleModel::Str("storage"@)
            && storage[1] is Global && storage[2] is Str),
        args[1] matches PickleModel::Int(n) && n >= 0,
        args[2] is Tuple,
{
}

} // verus!
