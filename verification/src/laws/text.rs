//! How texts are cut, trimmed, listed and read as numbers.

use vstd::prelude::*;

use crate::text::{
    all_digits, decimal, digit, is_digit, lemma_decimal_number, lemma_pieces_nonempty, listed, number,
    pieces, signed_decimal, signed_number, text_before, trim_back, trim_front, trimmed,
    unsigned_number, white_space,
};

verus! {

/// A text that is cut at a place falls into the pieces of what is before and after it:
/// cutting undoes putting together.
pub proof fn lemma_pieces_join(a: Seq<char>, b: Seq<char>, sep: char)
    ensures
        pieces(a + seq![sep] + b, sep) == pieces(a, sep) + pieces(b, sep),
    decreases b.len(),
{
    let all = a + seq![sep] + b;
    lemma_pieces_nonempty(b, sep);
    if b.len() == 0 {
        assert(all.drop_last() =~= a);
        assert(pieces(all, sep) =~= pieces(a, sep) + pieces(b, sep));
    } else {
        lemma_pieces_join(a, b.drop_last(), sep);
        lemma_pieces_nonempty(b.drop_last(), sep);
        assert(all.drop_last() =~= a + seq![sep] + b.drop_last());
        assert(all.last() == b.last());
        let front = pieces(b.drop_last(), sep);
        let whole = pieces(a, sep) + front;
        assert(whole.last() == front.last());
        assert(whole.drop_last() =~= pieces(a, sep) + front.drop_last());
        assert(pieces(all, sep) =~= pieces(a, sep) + pieces(b, sep));
    }
}

/// A text that does not hold the mark is one piece.
pub proof fn lemma_one_piece(text: Seq<char>, sep: char)
    requires
        !text.contains(sep),
    ensures
        pieces(text, sep) == seq![text],
    decreases text.len(),
{
    if text.len() == 0 {
        assert(text =~= Seq::empty());
        assert(pieces(text, sep) =~= seq![text]);
    } else {
        let front = text.drop_last();
        assert(!front.contains(sep)) by {
            if front.contains(sep) {
                let i = choose|i: int| 0 <= i < front.len() && front[i] == sep;
                assert(text[i] == sep);
            }
        }
        assert(text[text.len() - 1] != sep);
        lemma_one_piece(front, sep);
        assert(front.push(text.last()) =~= text);
        assert(pieces(text, sep) =~= seq![text]);
    }
}

/// No piece holds the mark at which a text was cut.
pub proof fn lemma_pieces_clean(text: Seq<char>, sep: char)
    ensures
        forall|i: int| 0 <= i < pieces(text, sep).len() ==> !(#[trigger] pieces(text, sep)[i]).contains(
            sep,
        ),
    decreases text.len(),
{
    lemma_pieces_nonempty(text, sep);
    if text.len() > 0 {
        let front = pieces(text.drop_last(), sep);
        lemma_pieces_clean(text.drop_last(), sep);
        lemma_pieces_nonempty(text.drop_last(), sep);
        let all = pieces(text, sep);
        assert forall|i: int| 0 <= i < all.len() implies !(#[trigger] all[i]).contains(sep) by {
            if text.last() == sep {
                if i < front.len() {
                    assert(all[i] == front[i]);
                }
            } else if i < front.len() - 1 {
                assert(all[i] == front[i]);
            } else {
                assert(front[front.len() - 1] == front.last());
                if all[i].contains(sep) {
                    let k = choose|k: int| 0 <= k < all[i].len() && all[i][k] == sep;
                    assert(front.last()[k] == sep);
                }
            }
        }
    }
}

/// A text that neither starts nor ends with white space.
pub open spec fn is_core(text: Seq<char>) -> bool {
    text.len() > 0 ==> !white_space(text[0]) && !white_space(text.last())
}

proof fn lemma_trim_front(space: Seq<char>, core: Seq<char>)
    requires
        forall|i: int| 0 <= i < space.len() ==> white_space(#[trigger] space[i]),
        core.len() > 0 ==> !white_space(core[0]),
    ensures
        trim_front(space + core) == core,
    decreases space.len(),
{
    if space.len() == 0 {
        assert(space + core =~= core);
    } else {
        assert((space + core)[0] == space[0]);
        assert((space + core).skip(1) =~= space.skip(1) + core);
        assert forall|i: int| 0 <= i < space.skip(1).len() implies white_space(
            #[trigger] space.skip(1)[i],
        ) by {
            assert(space.skip(1)[i] == space[i + 1]);
        }
        lemma_trim_front(space.skip(1), core);
    }
}

proof fn lemma_trim_back(core: Seq<char>, space: Seq<char>)
    requires
        forall|i: int| 0 <= i < space.len() ==> white_space(#[trigger] space[i]),
        core.len() > 0 ==> !white_space(core.last()),
    ensures
        trim_back(core + space) == core,
    decreases space.len(),
{
    if space.len() == 0 {
        assert(core + space =~= core);
    } else {
        assert((core + space).last() == space[space.len() - 1]);
        assert((core + space).drop_last() =~= core + space.drop_last());
        lemma_trim_back(core, space.drop_last());
    }
}

/// Trimming takes off the white space around a text and nothing else.
pub proof fn lemma_trimmed(before: Seq<char>, core: Seq<char>, after: Seq<char>)
    requires
        forall|i: int| 0 <= i < before.len() ==> white_space(#[trigger] before[i]),
        forall|i: int| 0 <= i < after.len() ==> white_space(#[trigger] after[i]),
        is_core(core),
    ensures
        trimmed(before + core + after) == core,
{
    if core.len() == 0 {
        assert(before + core + after =~= (before + after) + core);
        assert forall|i: int| 0 <= i < (before + after).len() implies white_space(
            #[trigger] (before + after)[i],
        ) by {
            if i < before.len() {
                assert((before + after)[i] == before[i]);
            } else {
                assert((before + after)[i] == after[i - before.len()]);
            }
        }
        lemma_trim_front(before + after, core);
    } else {
        assert(before + core + after =~= before + (core + after));
        lemma_trim_front(before, core + after);
        lemma_trim_back(core, after);
    }
}

/// Digits are no white space, and no sign.
pub proof fn lemma_digits_are_core(text: Seq<char>)
    requires
        all_digits(text),
    ensures
        is_core(text),
        trimmed(text) == text,
        text[0] != '+',
        text[0] != '-',
{
    assert(is_digit(text[0]));
    assert(is_digit(text[text.len() - 1]));
    lemma_trimmed(Seq::empty(), text, Seq::empty());
    assert(Seq::<char>::empty() + text + Seq::<char>::empty() =~= text);
}

/// A whole number is read back from its decimal digits, with or without a plus sign,
/// where it is not above the limit, and nothing is read where it is.
pub proof fn lemma_reads_back(n: nat, limit: int)
    ensures
        n <= limit ==> unsigned_number(decimal(n), limit) == Some(n as int),
        n <= limit ==> unsigned_number(seq!['+'] + decimal(n), limit) == Some(n as int),
        n > limit ==> unsigned_number(decimal(n), limit) is None,
        n > limit ==> unsigned_number(seq!['+'] + decimal(n), limit) is None,
{
    lemma_decimal_number(n);
    lemma_digits_are_core(decimal(n));
    assert((seq!['+'] + decimal(n)).skip(1) =~= decimal(n));
}

/// A signed number is read back from its decimal digits, and only one of 64 bits is.
pub proof fn lemma_reads_signed_back(n: int)
    ensures
        i64::MIN <= n <= i64::MAX ==> signed_number(signed_decimal(n)) == Some(n),
        !(i64::MIN <= n <= i64::MAX) ==> signed_number(signed_decimal(n)) is None,
{
    if n < 0 {
        let text = signed_decimal(n);
        lemma_decimal_number((-n) as nat);
        assert(text.skip(1) =~= decimal((-n) as nat));
        assert(text[0] == '-');
    } else {
        lemma_decimal_number(n as nat);
        lemma_digits_are_core(decimal(n as nat));
        lemma_reads_back(n as nat, i64::MAX as int);
    }
}

/// What is read as a number is made of digits after the sign: any other text is refused.
pub proof fn lemma_only_digits_are_read(text: Seq<char>, limit: int, i: int)
    requires
        0 <= i < text.len(),
        !('0' <= text[i] <= '9'),
        i > 0 || text[0] != '+',
    ensures
        unsigned_number(text, limit) is None,
{
    if text[0] == '+' {
        assert(text.skip(1)[i - 1] == text[i]);
    }
}

/// A digit more at the end of a number makes it ten times as large and adds the digit; the
/// digits stand for the numbers from nought to nine, in that order.
pub proof fn lemma_digit_more(front: Seq<char>, last: char)
    requires
        '0' <= last <= '9',
    ensures
        number(front.push(last)) == 10 * number(front) + (last as int - 48),
        number(Seq::empty()) == 0,
{
    assert(front.push(last).drop_last() =~= front);
    assert(digit(last) == last as int - 48);
}

/// A number is written without a nought in front, unless it is nought, and numbers are
/// written differently.
pub proof fn lemma_decimal_is_short(n: nat, m: nat)
    ensures
        decimal(n).len() >= 1,
        decimal(n)[0] == '0' ==> n == 0,
        decimal(n) == decimal(m) ==> n == m,
        n < 10 ==> decimal(n).len() == 1,
        n >= 10 ==> decimal(n).len() == decimal(n / 10).len() + 1,
    decreases n,
{
    lemma_decimal_number(n);
    lemma_decimal_number(m);
    if n >= 10 {
        lemma_decimal_is_short(n / 10, m);
        assert(decimal(n)[0] == decimal(n / 10)[0]);
    } else if n > 0 {
        let c = ('0' as int + n % 10) as char;
        assert(c as int == 48 + n);
    }
}

/// Lists of texts on a line can be put together: with a comma and a space between them.
pub proof fn lemma_listed_join(a: Seq<Seq<char>>, b: Seq<Seq<char>>)
    requires
        a.len() > 0,
        b.len() > 0,
    ensures
        listed(a + b) == listed(a) + seq![',', ' '] + listed(b),
    decreases b.len(),
{
    reveal_strlit(", ");
    assert(", "@ =~= seq![',', ' ']);
    let all = a + b;
    assert(all.last() == b.last());
    if b.len() == 1 {
        assert(all.drop_last() =~= a);
    } else {
        assert(all.drop_last() =~= a + b.drop_last());
        lemma_listed_join(a, b.drop_last());
        assert(listed(all) =~= listed(a) + seq![',', ' '] + listed(b));
    }
}

/// One text on a line is that text, and none leave the line empty.
pub proof fn lemma_listed_one(text: Seq<char>)
    ensures
        listed(seq![text]) == text,
        listed(Seq::empty()) == Seq::<char>::empty(),
{
}

/// Texts are ordered by the first character in which they differ, and a text comes before
/// what it begins.
pub proof fn lemma_first_difference(front: Seq<char>, a: Seq<char>, b: Seq<char>)
    ensures
        b.len() > 0 ==> text_before(front, front + b),
        a.len() > 0 && b.len() > 0 && a[0] < b[0] ==> text_before(
            front + a,
            front + b,
        ),
        a.len() > 0 && b.len() > 0 && a[0] < b[0] ==> !text_before(
            front + b,
            front + a,
        ),
        !text_before(front + b, front),
    decreases front.len(),
{
    if front.len() == 0 {
        assert(front + a =~= a);
        assert(front + b =~= b);
    } else {
        assert((front + a)[0] == front[0]);
        assert((front + b)[0] == front[0]);
        assert((front + a).skip(1) =~= front.skip(1) + a);
        assert((front + b).skip(1) =~= front.skip(1) + b);
        lemma_first_difference(front.skip(1), a, b);
    }
}

/// Digits are read as the number that they stand for, with whatever noughts in front.
pub proof fn lemma_any_digits(text: Seq<char>, limit: int)
    requires
        text.len() > 0,
        forall|i: int| 0 <= i < text.len() ==> '0' <= #[trigger] text[i] <= '9',
    ensures
        number(text) <= limit ==> unsigned_number(text, limit) == Some(number(text)),
        number(text) > limit ==> unsigned_number(text, limit) is None,
        unsigned_number(Seq::empty(), limit) is None,
        unsigned_number(seq!['+'], limit) is None,
{
    assert forall|i: int| 0 <= i < text.len() implies is_digit(#[trigger] text[i]) by {}
    assert(text[0] != '+');
    assert(seq!['+'].skip(1).len() == 0);
}

} // verus!
