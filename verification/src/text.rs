//! Strings as sequences of characters: literals, affixes, separators and
//! decimal numbers.

use vstd::prelude::*;

verus! {

/// `String::push` appends one character.
pub assume_specification[ String::push ](s: &mut String, c: char)
    ensures
        final(s)@ == old(s)@.push(c),
;

/// The characters with the Unicode property `White_Space`.
pub open spec fn white_space(c: char) -> bool {
    let code = c as u32;
    ||| 0x9 <= code <= 0xd
    ||| code == 0x20
    ||| code == 0x85
    ||| code == 0xa0
    ||| code == 0x1680
    ||| 0x2000 <= code <= 0x200a
    ||| code == 0x2028
    ||| code == 0x2029
    ||| code == 0x202f
    ||| code == 0x205f
    ||| code == 0x3000
}

/// `char::is_whitespace` answers whether a character has the Unicode property
/// `White_Space`.
pub assume_specification[ char::is_whitespace ](c: char) -> (answer: bool)
    ensures
        answer == white_space(c),
;

/// What `String::from_utf8_lossy` makes of bytes that are not well-formed UTF-8.
pub uninterp spec fn mended_text(bytes: Seq<u8>) -> Seq<char>;

/// The text of bytes: what they encode where they are well-formed UTF-8, and
/// otherwise what is made of them by putting replacement characters in.
pub open spec fn lossy_text(bytes: Seq<u8>) -> Seq<char> {
    if vstd::utf8::valid_utf8(bytes) {
        vstd::utf8::decode_utf8(bytes)
    } else {
        mended_text(bytes)
    }
}

/// `String::from_utf8_lossy` reads well-formed UTF-8 as what it encodes. What it
/// makes of other bytes depends on them alone.
#[verifier::external_body]
pub(crate) fn text_lossy(bytes: &[u8]) -> (s: String)
    ensures
        vstd::utf8::valid_utf8(bytes@) ==> s@ == vstd::utf8::decode_utf8(bytes@),
        !vstd::utf8::valid_utf8(bytes@) ==> s@ == mended_text(bytes@),
{
    String::from_utf8_lossy(bytes).into_owned()
}

/// `std::str::from_utf8` reads well-formed UTF-8 as what it encodes, and
/// refuses everything else.
#[verifier::external_body]
pub(crate) fn text_strict(bytes: &[u8]) -> (s: Option<String>)
    ensures
        s is Some <==> vstd::utf8::valid_utf8(bytes@),
        s is Some ==> s->0@ == vstd::utf8::decode_utf8(bytes@),
{
    std::str::from_utf8(bytes).ok().map(str::to_owned)
}

/// The characters of `s`, in order.
pub fn chars_of(s: &str) -> (chars: Vec<char>)
    ensures
        chars@ == s@,
{
    let mut chars: Vec<char> = Vec::new();
    for c in iter: s.chars()
        invariant
            chars@ == iter.seq().take(iter.index() as int),
            iter.seq() == s@,
    {
        chars.push(c);
        assert(iter.seq().take(iter.index() as int + 1) =~= iter.seq().take(
            iter.index() as int,
        ).push(c));
    }
    assert(s@.take(s@.len() as int) =~= s@);
    chars
}

/// The string made of `chars`.
pub fn string_of(chars: &[char]) -> (s: String)
    ensures
        s@ == chars@,
{
    let mut s = String::new();
    let mut i: usize = 0;
    while i < chars.len()
        invariant
            i <= chars@.len(),
            s@ == chars@.take(i as int),
        decreases chars@.len() - i,
    {
        assert(chars@.take(i + 1) =~= chars@.take(i as int).push(chars@[i as int]));
        s.push(chars[i]);
        i += 1;
    }
    assert(chars@.take(i as int) =~= chars@);
    s
}

/// An owned copy of `s`.
pub fn owned(s: &str) -> (copy: String)
    ensures
        copy@ == s@,
{
    s.to_owned()
}

/// Whether `a` and `b` hold the same characters.
pub fn same_text(a: &str, b: &str) -> (same: bool)
    ensures
        same == (a@ == b@),
{
    let left = chars_of(a);
    let right = chars_of(b);
    same_chars(&left, &right)
}

/// Whether two character slices are equal.
pub fn same_chars(left: &[char], right: &[char]) -> (same: bool)
    ensures
        same == (left@ == right@),
{
    if left.len() != right.len() {
        return false;
    }
    let mut i: usize = 0;
    while i < left.len()
        invariant
            i <= left@.len(),
            left@.len() == right@.len(),
            left@.take(i as int) == right@.take(i as int),
        decreases left@.len() - i,
    {
        if left[i] != right[i] {
            assert(left@[i as int] != right@[i as int]);
            return false;
        }
        assert(left@.take(i + 1) =~= left@.take(i as int).push(left@[i as int]));
        assert(right@.take(i + 1) =~= right@.take(i as int).push(right@[i as int]));
        i += 1;
    }
    assert(left@.take(i as int) =~= left@);
    assert(right@.take(i as int) =~= right@);
    true
}

/// `s` is `head` followed by something.
pub open spec fn starts_with(s: Seq<char>, head: Seq<char>) -> bool {
    head.len() <= s.len() && s.take(head.len() as int) == head
}

/// `s` is something followed by `tail`.
pub open spec fn ends_with(s: Seq<char>, tail: Seq<char>) -> bool {
    tail.len() <= s.len() && s.skip(s.len() - tail.len()) == tail
}

/// What follows `head` in `s`, where `s` starts with it.
pub fn strip_prefix(s: &str, head: &str) -> (rest: Option<String>)
    ensures
        rest is Some <==> starts_with(s@, head@),
        rest is Some ==> rest->0@ == s@.skip(head@.len() as int),
{
    let chars = chars_of(s);
    let want = chars_of(head);
    if want.len() > chars.len() {
        return None;
    }
    let front = vstd::slice::slice_subrange(chars.as_slice(), 0, want.len());
    assert(front@ =~= s@.take(head@.len() as int));
    if same_chars(front, &want) {
        let back = vstd::slice::slice_subrange(chars.as_slice(), want.len(), chars.len());
        assert(back@ =~= s@.skip(head@.len() as int));
        Some(string_of(back))
    } else {
        None
    }
}

/// Whether `s` starts with `head`.
pub fn has_prefix(s: &str, head: &str) -> (found: bool)
    ensures
        found == starts_with(s@, head@),
{
    strip_prefix(s, head).is_some()
}

/// Whether `s` ends with `tail`.
pub fn has_suffix(s: &str, tail: &str) -> (found: bool)
    ensures
        found == ends_with(s@, tail@),
{
    let chars = chars_of(s);
    let want = chars_of(tail);
    if want.len() > chars.len() {
        return false;
    }
    let back = vstd::slice::slice_subrange(
        chars.as_slice(),
        chars.len() - want.len(),
        chars.len(),
    );
    assert(back@ =~= s@.skip(s@.len() - tail@.len()));
    same_chars(back, &want)
}

/// `text` cut at every `sep`: one piece more than there are separators.
pub open spec fn pieces(text: Seq<char>, sep: char) -> Seq<Seq<char>>
    decreases text.len(),
{
    if text.len() == 0 {
        seq![Seq::empty()]
    } else {
        let front = pieces(text.drop_last(), sep);
        if text.last() == sep {
            front.push(Seq::empty())
        } else {
            front.drop_last().push(front.last().push(text.last()))
        }
    }
}

/// There is always at least one piece.
pub proof fn lemma_pieces_nonempty(text: Seq<char>, sep: char)
    ensures
        pieces(text, sep).len() >= 1,
    decreases text.len(),
{
    if text.len() > 0 {
        lemma_pieces_nonempty(text.drop_last(), sep);
    }
}

/// The views of a list of strings.
pub open spec fn views(list: Seq<String>) -> Seq<Seq<char>> {
    list.map_values(|s: String| s@)
}

/// Cuts `text` at every `sep`.
pub fn split(text: &str, sep: char) -> (list: Vec<String>)
    ensures
        views(list@) == pieces(text@, sep),
{
    let chars = chars_of(text);
    let mut list: Vec<String> = Vec::new();
    let mut current: String = String::new();
    let mut i: usize = 0;
    assert(views(list@).push(current@) =~= pieces(text@.take(0), sep));
    while i < chars.len()
        invariant
            i <= chars@.len(),
            chars@ == text@,
            views(list@).push(current@) == pieces(text@.take(i as int), sep),
        decreases chars@.len() - i,
    {
        let ghost before = views(list@).push(current@);
        let c: char = chars[i];
        proof {
            assert(text@.take(i + 1).drop_last() =~= text@.take(i as int));
            assert(text@.take(i + 1).last() == c);
            assert(before.drop_last() =~= views(list@));
        }
        if c == sep {
            let ghost shorter = list@;
            let ghost piece = current;
            list.push(current);
            proof {
                assert(views(list@) =~= views(shorter).push(piece@));
            }
            current = String::new();
        } else {
            current.push(c);
        }
        i += 1;
    }
    assert(text@.take(i as int) =~= text@);
    let ghost shorter = list@;
    let ghost piece = current;
    list.push(current);
    assert(views(list@) =~= views(shorter).push(piece@));
    list
}

/// `s` without the white space at its front.
pub open spec fn trim_front(s: Seq<char>) -> Seq<char>
    decreases s.len(),
{
    if s.len() > 0 && white_space(s[0]) {
        trim_front(s.skip(1))
    } else {
        s
    }
}

/// `s` without the white space at its back.
pub open spec fn trim_back(s: Seq<char>) -> Seq<char>
    decreases s.len(),
{
    if s.len() > 0 && white_space(s.last()) {
        trim_back(s.drop_last())
    } else {
        s
    }
}

/// `s` without the white space around it.
pub open spec fn trimmed(s: Seq<char>) -> Seq<char> {
    trim_back(trim_front(s))
}

/// Removes the white space around `s`.
pub fn trim(s: &str) -> (core: Vec<char>)
    ensures
        core@ == trimmed(s@),
{
    let chars = chars_of(s);
    let mut start: usize = 0;
    assert(chars@.skip(0) =~= chars@);
    while start < chars.len() && chars[start].is_whitespace()
        invariant
            start <= chars@.len(),
            chars@ == s@,
            trim_front(chars@.skip(start as int)) == trim_front(s@),
        decreases chars@.len() - start,
    {
        assert(chars@.skip(start as int)[0] == chars@[start as int]);
        assert(chars@.skip(start as int).skip(1) =~= chars@.skip(start + 1));
        start += 1;
    }
    assert(start < chars@.len() ==> chars@.skip(start as int)[0] == chars@[start as int]);
    assert(trim_front(s@) == chars@.skip(start as int));
    let mut end: usize = chars.len();
    assert(chars@.subrange(start as int, end as int) =~= chars@.skip(start as int));
    while end > start && chars[end - 1].is_whitespace()
        invariant
            start <= end <= chars@.len(),
            trim_back(chars@.subrange(start as int, end as int)) == trimmed(s@),
        decreases end - start,
    {
        assert(chars@.subrange(start as int, end as int).last() == chars@[end - 1]);
        assert(chars@.subrange(start as int, end as int).drop_last() =~= chars@.subrange(
            start as int,
            end - 1,
        ));
        end -= 1;
    }
    assert(end > start ==> chars@.subrange(start as int, end as int).last() == chars@[end - 1]);
    let core = vstd::slice::slice_subrange(chars.as_slice(), start, end);
    vstd::slice::slice_to_vec(core)
}

/// `c` is one of the ten ASCII digits.
pub open spec fn is_digit(c: char) -> bool {
    '0' <= c && c <= '9'
}

/// The number that the ASCII digit `c` stands for.
pub open spec fn digit(c: char) -> int {
    c as int - '0' as int
}

/// `s` is made of one or more ASCII digits.
pub open spec fn all_digits(s: Seq<char>) -> bool {
    s.len() > 0 && forall|i: int| 0 <= i < s.len() ==> is_digit(#[trigger] s[i])
}

/// The number that a sequence of digits stands for.
pub open spec fn number(s: Seq<char>) -> int
    decreases s.len(),
{
    if s.len() == 0 {
        0
    } else {
        10 * number(s.drop_last()) + digit(s.last())
    }
}

/// Digits stand for a number that is not negative, and a shorter front part
/// stands for a smaller one.
pub proof fn lemma_number_monotone(s: Seq<char>, i: int)
    requires
        0 <= i <= s.len(),
        forall|k: int| 0 <= k < s.len() ==> is_digit(#[trigger] s[k]),
    ensures
        0 <= number(s.take(i)) <= number(s),
    decreases s.len(),
{
    if i == s.len() {
        assert(s.take(i) =~= s);
        if s.len() > 0 {
            lemma_number_monotone(s.drop_last(), s.len() - 1);
            assert(s.drop_last().take(s.len() - 1) =~= s.drop_last());
            assert(is_digit(s[s.len() - 1]));
        }
    } else {
        lemma_number_monotone(s.drop_last(), i);
        assert(s.drop_last().take(i) =~= s.take(i));
        assert(is_digit(s[s.len() - 1]));
    }
}

/// The number that `chars` spells with ASCII digits, where it is at most
/// `limit`.
pub fn parse_digits(chars: &[char], limit: u64) -> (value: Option<u64>)
    ensures
        value is Some <==> all_digits(chars@) && number(chars@) <= limit,
        value is Some ==> value->0 == number(chars@),
{
    if chars.len() == 0 {
        return None;
    }
    let mut value: u128 = 0;
    let mut i: usize = 0;
    let mut over: bool = false;
    while i < chars.len()
        invariant
            i <= chars@.len(),
            forall|k: int| 0 <= k < i ==> is_digit(#[trigger] chars@[k]),
            over <==> number(chars@.take(i as int)) > limit,
            !over ==> value == number(chars@.take(i as int)),
            0 <= number(chars@.take(i as int)),
        decreases chars@.len() - i,
    {
        let c: char = chars[i];
        if c < '0' || c > '9' {
            assert(!is_digit(chars@[i as int]));
            return None;
        }
        let d: u128 = (c as u32 - '0' as u32) as u128;
        assert(chars@.take(i + 1).drop_last() =~= chars@.take(i as int));
        assert(chars@.take(i + 1).last() == c);
        if !over {
            value = value * 10 + d;
            if value > limit as u128 {
                over = true;
            }
        }
        i += 1;
    }
    assert(chars@.take(i as int) =~= chars@);
    if over {
        None
    } else {
        Some(value as u64)
    }
}

/// The text without a leading plus sign.
pub open spec fn unsigned_part(s: Seq<char>) -> Seq<char> {
    if s.len() > 0 && s[0] == '+' {
        s.skip(1)
    } else {
        s
    }
}

/// The whole number that `s` spells: ASCII digits, with or without a leading
/// plus sign, for a number that is at most `limit`.
pub open spec fn unsigned_number(s: Seq<char>, limit: int) -> Option<int> {
    let digits = unsigned_part(s);
    if all_digits(digits) && number(digits) <= limit {
        Some(number(digits))
    } else {
        None
    }
}

/// Reads a whole number that is at most `limit`.
pub fn parse_unsigned(chars: &[char], limit: u64) -> (value: Option<u64>)
    ensures
        value is Some <==> unsigned_number(chars@, limit as int) is Some,
        value is Some ==> unsigned_number(chars@, limit as int) == Some(value->0 as int),
{
    if chars.len() > 0 && chars[0] == '+' {
        let rest = vstd::slice::slice_subrange(chars, 1, chars.len());
        assert(rest@ =~= chars@.skip(1));
        parse_digits(rest, limit)
    } else {
        parse_digits(chars, limit)
    }
}

/// The whole number that `s` spells with an optional sign, where it is an
/// `i64`.
pub open spec fn signed_number(s: Seq<char>) -> Option<int> {
    if s.len() > 0 && s[0] == '-' {
        let digits = s.skip(1);
        if all_digits(digits) && number(digits) <= 0x8000_0000_0000_0000 {
            Some(-number(digits))
        } else {
            None
        }
    } else {
        unsigned_number(s, i64::MAX as int)
    }
}

/// Reads an `i64`.
pub fn parse_signed(chars: &[char]) -> (value: Option<i64>)
    ensures
        value is Some <==> signed_number(chars@) is Some,
        value is Some ==> signed_number(chars@) == Some(value->0 as int),
{
    if chars.len() > 0 && chars[0] == '-' {
        let rest = vstd::slice::slice_subrange(chars, 1, chars.len());
        assert(rest@ =~= chars@.skip(1));
        match parse_digits(rest, 0x8000_0000_0000_0000) {
            Some(magnitude) => Some((-(magnitude as i128)) as i64),
            None => None,
        }
    } else {
        match parse_unsigned(chars, 0x7fff_ffff_ffff_ffff) {
            Some(magnitude) => Some(magnitude as i64),
            None => None,
        }
    }
}

/// The decimal digits of `n`, without leading zeros.
pub open spec fn decimal(n: nat) -> Seq<char>
    decreases n,
{
    let last = ('0' as int + n % 10) as char;
    if n < 10 {
        seq![last]
    } else {
        decimal(n / 10).push(last)
    }
}

/// The decimal digits of `n`.
pub fn decimal_text(n: u64) -> (s: String)
    ensures
        s@ == decimal(n as nat),
    decreases n,
{
    let last: char = (48u8 + (n % 10) as u8) as char;
    assert(last == ('0' as int + n % 10) as char);
    let mut s = if n < 10 {
        String::new()
    } else {
        decimal_text(n / 10)
    };
    s.push(last);
    assert(n < 10 ==> s@ =~= decimal(n as nat));
    s
}

/// The decimal digits of `n`, with a minus sign before those of a negative
/// number.
pub open spec fn signed_decimal(n: int) -> Seq<char> {
    if n < 0 {
        seq!['-'] + decimal((-n) as nat)
    } else {
        decimal(n as nat)
    }
}

/// `decimal` spells its number back: what it writes, `number` reads.
pub proof fn lemma_decimal_number(n: nat)
    ensures
        all_digits(decimal(n)),
        number(decimal(n)) == n,
    decreases n,
{
    let last = ('0' as int + n % 10) as char;
    if n < 10 {
        assert(decimal(n).drop_last() =~= Seq::<char>::empty());
        assert(number(Seq::<char>::empty()) == 0);
        assert(digit(decimal(n).last()) == n);
    } else {
        lemma_decimal_number(n / 10);
        assert(decimal(n).drop_last() =~= decimal(n / 10));
        assert forall|i: int| 0 <= i < decimal(n).len() implies is_digit(
            #[trigger] decimal(n)[i],
        ) by {
            if i < decimal(n / 10).len() {
                assert(decimal(n)[i] == decimal(n / 10)[i]);
            }
        }
    }
}

/// Texts with commas between them.
pub open spec fn listed(texts: Seq<Seq<char>>) -> Seq<char>
    decreases texts.len(),
{
    if texts.len() == 0 {
        Seq::empty()
    } else if texts.len() == 1 {
        texts[0]
    } else {
        listed(texts.drop_last()) + ", "@ + texts.last()
    }
}

/// Puts texts on a line, with commas between them.
pub fn list_texts(texts: &Vec<String>) -> (line: String)
    ensures
        line@ == listed(views(texts@)),
{
    let mut line = String::new();
    let mut i: usize = 0;
    assert(views(texts@).take(0) =~= Seq::<Seq<char>>::empty());
    while i < texts.len()
        invariant
            i <= texts@.len(),
            line@ == listed(views(texts@).take(i as int)),
        decreases texts@.len() - i,
    {
        let ghost before = line@;
        if i > 0 {
            line.append(", ");
        }
        line.append(texts[i].as_str());
        proof {
            let longer = views(texts@).take(i + 1);
            assert(longer.drop_last() =~= views(texts@).take(i as int));
            assert(longer.last() == texts@[i as int]@);
            if i == 0 {
                assert(line@ =~= texts@[0]@);
            }
        }
        i += 1;
    }
    assert(views(texts@).take(i as int) =~= views(texts@));
    line
}

/// Order of texts by their characters, the first difference deciding and a
/// proper front part coming first.
pub open spec fn text_before(a: Seq<char>, b: Seq<char>) -> bool
    decreases a.len(),
{
    if b.len() == 0 {
        false
    } else if a.len() == 0 {
        true
    } else if a[0] != b[0] {
        a[0] < b[0]
    } else {
        text_before(a.skip(1), b.skip(1))
    }
}

/// Whether `a` comes before `b`.
pub fn is_before(a: &str, b: &str) -> (before: bool)
    ensures
        before == text_before(a@, b@),
{
    let left = chars_of(a);
    let right = chars_of(b);
    let mut i: usize = 0;
    assert(left@.skip(0) =~= left@ && right@.skip(0) =~= right@);
    while i < left.len() && i < right.len() && left[i] == right[i]
        invariant
            i <= left@.len(),
            i <= right@.len(),
            left@ == a@,
            right@ == b@,
            text_before(left@.skip(i as int), right@.skip(i as int)) == text_before(a@, b@),
        decreases left@.len() - i,
    {
        assert(left@.skip(i as int).skip(1) =~= left@.skip(i + 1));
        assert(right@.skip(i as int).skip(1) =~= right@.skip(i + 1));
        i += 1;
    }
    if i >= right.len() {
        false
    } else if i >= left.len() {
        true
    } else {
        left[i] < right[i]
    }
}

/// A text does not come before itself.
pub proof fn lemma_before_irreflexive(a: Seq<char>)
    ensures
        !text_before(a, a),
    decreases a.len(),
{
    if a.len() > 0 {
        lemma_before_irreflexive(a.skip(1));
    }
}

/// The order of texts is transitive.
pub proof fn lemma_before_transitive(a: Seq<char>, b: Seq<char>, c: Seq<char>)
    requires
        text_before(a, b),
        text_before(b, c),
    ensures
        text_before(a, c),
    decreases a.len(),
{
    if a.len() > 0 && b.len() > 0 && c.len() > 0 && a[0] == b[0] && b[0] == c[0] {
        lemma_before_transitive(a.skip(1), b.skip(1), c.skip(1));
    }
}

/// Of two different texts one comes before the other.
pub proof fn lemma_before_total(a: Seq<char>, b: Seq<char>)
    requires
        a != b,
    ensures
        text_before(a, b) || text_before(b, a),
    decreases a.len(),
{
    if a.len() > 0 && b.len() > 0 && a[0] == b[0] {
        if a.skip(1) == b.skip(1) {
            assert(a =~= seq![a[0]] + a.skip(1));
            assert(b =~= seq![b[0]] + b.skip(1));
        } else {
            lemma_before_total(a.skip(1), b.skip(1));
        }
    } else if a.len() == 0 && b.len() == 0 {
        assert(a =~= b);
    }
}

} // verus!
