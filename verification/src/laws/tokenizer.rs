//! Which texts are encoded.

use vstd::prelude::*;

use crate::text_to_midi::hf_tokenizer::LONG_TEXT;
use crate::tokenizer::{is_brief, is_short, lemma_room, room};

verus! {

/// Every text of up to 5,460 characters is encoded, and so is every plain one of fewer than
/// two to the power thirty.
pub proof fn lemma_short_texts(text: Seq<char>)
    ensures
        text.len() <= 5_460 ==> is_short(text),
        (forall|i: int| 0 <= i < text.len() ==> #[trigger] text[i] <= '\u{7f}') && text.len()
            < 0x4000_0000 ==> is_short(text),
        text.len() <= 833 ==> is_brief(text),
        LONG_TEXT == 100_000,
{
    lemma_room(text);
}

/// The room that a text may take is that of its parts: three bytes for a plain character, and
/// twelve for any other.
pub proof fn lemma_room_join(a: Seq<char>, b: Seq<char>, c: char)
    ensures
        room(a + b) == room(a) + room(b),
        room(seq![c]) == (if c <= '\u{7f}' {
            3nat
        } else {
            12
        }),
        room(Seq::empty()) == 0,
    decreases b.len(),
{
    assert(seq![c].drop_last() =~= Seq::empty());
    assert(room(Seq::empty()) == 0);
    if b.len() == 0 {
        assert(a + b =~= a);
    } else {
        lemma_room_join(a, b.drop_last(), c);
        assert((a + b).drop_last() =~= a + b.drop_last());
        assert((a + b).last() == b.last());
    }
}

} // verus!
