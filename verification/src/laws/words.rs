//! What the words of a prompt are, and what they hint at.

use vstd::prelude::*;

use crate::laws::rounding::lemma_whole_tempo;
use crate::laws::text::lemma_digits_are_core;
use crate::single::{fraction, same_value, Single};
use crate::text::{all_digits, decimal, is_digit, lemma_decimal_number, number, white_space};
use crate::text_to_midi::midi::{signature_named, TimeSignature};
use crate::text_to_midi::tempo::{
    before_letter, decimal_named, lower, lowered, tempo_single, ten_to, word_tempo,
};
use crate::text_to_midi::timing::clamped_tempo;
use crate::text_to_midi::words::{
    accidental_semitone, alphanumeric, beats_of, first_instrument, first_style, hinted_scale,
    hinted_signature, hints_of, instrument_named, kept, key_of, meter_of, mood_tempo, root_named,
    scale_named, scale_of, separates, signature_or_common, spaced, stated_tempo, style_named,
    suggested_tempo, tempo_of, tokens_in, tokens_of, upper, words_in, words_of, Instrument, Scale,
    Style,
};

verus! {

/// The words of what is before a mark, and then those of what is after it, are the words of
/// the whole: a character that is neither a letter nor a digit only parts words.
pub proof fn lemma_words_join(a: Seq<char>, mark: char, b: Seq<char>)
    requires
        !alphanumeric(lower(mark)),
    ensures
        words_of(a + seq![mark] + b) == words_of(a) + words_of(b),
{
    let all = a + seq![mark] + b;
    lemma_words_same(all, a, a.len() as int);
    let n = a.len() as int;
    assert(all[n] == mark);
    assert(words_in(all, n + 1).0 =~= words_of(a));
    lemma_words_after(all, b, n + 1, words_of(a), b.len() as int);
    let (done, current) = words_in(b, b.len() as int);
    assert(kept(words_of(a) + done, current) =~= words_of(a) + kept(done, current));
}

proof fn lemma_words_same(a: Seq<char>, b: Seq<char>, n: int)
    requires
        0 <= n <= a.len(),
        n <= b.len(),
        forall|i: int| 0 <= i < n ==> #[trigger] a[i] == b[i],
    ensures
        words_in(a, n) == words_in(b, n),
    decreases n,
{
    if n > 0 {
        lemma_words_same(a, b, n - 1);
    }
}

proof fn lemma_words_after(all: Seq<char>, b: Seq<char>, from: int, before: Seq<Seq<char>>, n: int)
    requires
        0 <= from,
        from + b.len() == all.len(),
        forall|i: int| 0 <= i < b.len() ==> #[trigger] b[i] == all[from + i],
        words_in(all, from) == (before, Seq::<char>::empty()),
        0 <= n <= b.len(),
    ensures
        words_in(all, from + n) == (before + words_in(b, n).0, words_in(b, n).1),
    decreases n,
{
    if n > 0 {
        lemma_words_after(all, b, from, before, n - 1);
        assert(all[from + n - 1] == b[n - 1]);
        let (done, current) = words_in(b, n - 1);
        assert(kept(before + done, current) =~= before + kept(done, current));
    } else {
        assert(before + words_in(b, 0).0 =~= before);
    }
}

/// A text of letters and digits is one word, in lower case, and an empty text has none.
pub proof fn lemma_one_word(text: Seq<char>)
    requires
        forall|i: int| 0 <= i < text.len() ==> alphanumeric(lower(#[trigger] text[i])),
    ensures
        text.len() > 0 ==> words_of(text) == seq![lowered(text)],
        text.len() == 0 ==> words_of(text).len() == 0,
{
    lemma_one_word_in(text, text.len() as int);
    assert(text.take(text.len() as int) =~= text);
    if text.len() > 0 {
        assert(words_of(text) =~= seq![lowered(text)]);
    }
}

proof fn lemma_one_word_in(text: Seq<char>, n: int)
    requires
        0 <= n <= text.len(),
        forall|i: int| 0 <= i < text.len() ==> alphanumeric(lower(#[trigger] text[i])),
    ensures
        words_in(text, n) == (Seq::<Seq<char>>::empty(), lowered(text.take(n))),
    decreases n,
{
    if n > 0 {
        lemma_one_word_in(text, n - 1);
        assert(lowered(text.take(n)) =~= lowered(text.take(n - 1)).push(lower(text[n - 1])));
    } else {
        assert(lowered(text.take(0)) =~= Seq::empty());
    }
}

/// The parts of what is before white space, and then those of what is after it, are the parts
/// of the whole.
pub proof fn lemma_tokens_join(a: Seq<char>, space: char, b: Seq<char>)
    requires
        white_space(space),
    ensures
        tokens_of(a + seq![space] + b) == tokens_of(a) + tokens_of(b),
{
    let all = a + seq![space] + b;
    lemma_tokens_same(all, a, a.len() as int);
    let n = a.len() as int;
    assert(all[n] == space);
    assert(tokens_in(all, n + 1).0 =~= tokens_of(a));
    lemma_tokens_after(all, b, n + 1, tokens_of(a), b.len() as int);
    let (done, current) = tokens_in(b, b.len() as int);
    assert(kept(tokens_of(a) + done, current) =~= tokens_of(a) + kept(done, current));
}

proof fn lemma_tokens_same(a: Seq<char>, b: Seq<char>, n: int)
    requires
        0 <= n <= a.len(),
        n <= b.len(),
        forall|i: int| 0 <= i < n ==> #[trigger] a[i] == b[i],
    ensures
        tokens_in(a, n) == tokens_in(b, n),
    decreases n,
{
    if n > 0 {
        lemma_tokens_same(a, b, n - 1);
    }
}

proof fn lemma_tokens_after(all: Seq<char>, b: Seq<char>, from: int, before: Seq<Seq<char>>, n: int)
    requires
        0 <= from,
        from + b.len() == all.len(),
        forall|i: int| 0 <= i < b.len() ==> #[trigger] b[i] == all[from + i],
        tokens_in(all, from) == (before, Seq::<char>::empty()),
        0 <= n <= b.len(),
    ensures
        tokens_in(all, from + n) == (before + tokens_in(b, n).0, tokens_in(b, n).1),
    decreases n,
{
    if n > 0 {
        lemma_tokens_after(all, b, from, before, n - 1);
        assert(all[from + n - 1] == b[n - 1]);
        let (done, current) = tokens_in(b, n - 1);
        assert(kept(before + done, current) =~= before + kept(done, current));
    } else {
        assert(before + tokens_in(b, 0).0 =~= before);
    }
}

/// A text without white space is one part, as it is.
pub proof fn lemma_one_token(text: Seq<char>)
    requires
        forall|i: int| 0 <= i < text.len() ==> !white_space(#[trigger] text[i]),
    ensures
        text.len() > 0 ==> tokens_of(text) == seq![text],
        text.len() == 0 ==> tokens_of(text).len() == 0,
{
    lemma_one_token_in(text, text.len() as int);
    assert(text.take(text.len() as int) =~= text);
    if text.len() > 0 {
        assert(tokens_of(text) =~= seq![text]);
    }
}

proof fn lemma_one_token_in(text: Seq<char>, n: int)
    requires
        0 <= n <= text.len(),
        forall|i: int| 0 <= i < text.len() ==> !white_space(#[trigger] text[i]),
    ensures
        tokens_in(text, n) == (Seq::<Seq<char>>::empty(), text.take(n)),
    decreases n,
{
    if n > 0 {
        lemma_one_token_in(text, n - 1);
        assert(text.take(n) =~= text.take(n - 1).push(text[n - 1]));
    } else {
        assert(text.take(0) =~= Seq::empty());
    }
}

/// The hints of a prompt are its parts between white space and punctuation.
pub proof fn lemma_hints_join(a: Seq<char>, mark: char, b: Seq<char>)
    requires
        white_space(mark) || seq![',', ';', ':', '.', '!', '?', '(', ')'].contains(mark),
    ensures
        hints_of(a + seq![mark] + b) == hints_of(a) + hints_of(b),
{
    let marks = seq![',', ';', ':', '.', '!', '?', '(', ')'];
    if marks.contains(mark) {
        let i = choose|i: int| 0 <= i < marks.len() && marks[i] == mark;
        assert(marks[i] == mark);
    }
    assert(separates(mark));
    assert(spaced(a + seq![mark] + b) =~= spaced(a) + seq![' '] + spaced(b));
    lemma_tokens_join(spaced(a), ' ', spaced(b));
}

/// A text without white space and punctuation is one hint, as it is.
pub proof fn lemma_one_hint(text: Seq<char>)
    requires
        text.len() > 0,
        forall|i: int|
            0 <= i < text.len() ==> !white_space(#[trigger] text[i]) && !seq![
                ',',
                ';',
                ':',
                '.',
                '!',
                '?',
                '(',
                ')',
            ].contains(text[i]),
    ensures
        hints_of(text) == seq![text],
{
    let marks = seq![',', ';', ':', '.', '!', '?', '(', ')'];
    assert forall|i: int| 0 <= i < text.len() implies !separates(#[trigger] text[i]) by {
        let c = text[i];
        assert(!marks.contains(c));
        assert(marks[0] != c && marks[1] != c && marks[2] != c && marks[3] != c && marks[4] != c
            && marks[5] != c && marks[6] != c && marks[7] != c);
    }
    assert(spaced(text) =~= text);
    lemma_one_token(text);
}

/// A word that is nowhere among the given ones.
pub open spec fn is_none_of(word: Seq<char>, words: Seq<Seq<char>>) -> bool {
    forall|i: int| 0 <= i < words.len() ==> #[trigger] words[i] != word
}

/// The instruments that words name, each with its program and its octave; no other word names
/// one.
pub proof fn lemma_instrument_words(word: Seq<char>)
    ensures
        word == "piano"@ || word == "keyboard"@ ==> instrument_named(word) == Some(
            Instrument { program: 0, base_octave: 0, is_drum: false },
        ),
        word == "guitar"@ || word == "acoustic"@ ==> instrument_named(word) == Some(
            Instrument { program: 24, base_octave: (-1) as i8, is_drum: false },
        ),
        word == "electric"@ || word == "distortion"@ ==> instrument_named(word) == Some(
            Instrument { program: 30, base_octave: (-1) as i8, is_drum: false },
        ),
        word == "bass"@ || word == "bassline"@ ==> instrument_named(word) == Some(
            Instrument { program: 32, base_octave: (-2) as i8, is_drum: false },
        ),
        word == "strings"@ || word == "violin"@ || word == "cello"@ ==> instrument_named(word) == Some(
            Instrument { program: 48, base_octave: 0, is_drum: false },
        ),
        word == "synth"@ || word == "pad"@ || word == "lead"@ ==> instrument_named(word) == Some(
            Instrument { program: 80, base_octave: 0, is_drum: false },
        ),
        word == "organ"@ ==> instrument_named(word) == Some(
            Instrument { program: 16, base_octave: 0, is_drum: false },
        ),
        word == "brass"@ || word == "trumpet"@ || word == "trombone"@ ==> instrument_named(word) == Some(
            Instrument { program: 56, base_octave: 0, is_drum: false },
        ),
        word == "sax"@ || word == "saxophone"@ ==> instrument_named(word) == Some(
            Instrument { program: 65, base_octave: 0, is_drum: false },
        ),
        word == "flute"@ || word == "wind"@ ==> instrument_named(word) == Some(
            Instrument { program: 73, base_octave: 0, is_drum: false },
        ),
        word == "drums"@ || word == "drum"@ || word == "percussion"@ ==> instrument_named(word) == Some(
            Instrument { program: 0, base_octave: 0, is_drum: true },
        ),
        is_none_of(
            word,
            seq![
                "piano"@,
                "keyboard"@,
                "guitar"@,
                "acoustic"@,
                "electric"@,
                "distortion"@,
                "bass"@,
                "bassline"@,
                "strings"@,
                "violin"@,
                "cello"@,
                "synth"@,
                "pad"@,
                "lead"@,
                "organ"@,
                "brass"@,
                "trumpet"@,
                "trombone"@,
                "sax"@,
                "saxophone"@,
                "flute"@,
                "wind"@,
                "drums"@,
                "drum"@,
                "percussion"@,
            ],
        ) ==> instrument_named(word) is None,
{
    reveal_strlit("acoustic");
    assert("acoustic"@.len() == 8 && "acoustic"@[0] == 'a');
    reveal_strlit("bass");
    assert("bass"@.len() == 4 && "bass"@[0] == 'b');
    reveal_strlit("bassline");
    assert("bassline"@.len() == 8 && "bassline"@[0] == 'b');
    reveal_strlit("brass");
    assert("brass"@.len() == 5 && "brass"@[0] == 'b');
    reveal_strlit("cello");
    assert("cello"@.len() == 5 && "cello"@[0] == 'c');
    reveal_strlit("distortion");
    assert("distortion"@.len() == 10 && "distortion"@[0] == 'd');
    reveal_strlit("drum");
    assert("drum"@.len() == 4 && "drum"@[0] == 'd');
    reveal_strlit("drums");
    assert("drums"@.len() == 5 && "drums"@[0] == 'd');
    reveal_strlit("electric");
    assert("electric"@.len() == 8 && "electric"@[0] == 'e');
    reveal_strlit("flute");
    assert("flute"@.len() == 5 && "flute"@[0] == 'f');
    reveal_strlit("guitar");
    assert("guitar"@.len() == 6 && "guitar"@[0] == 'g');
    reveal_strlit("keyboard");
    assert("keyboard"@.len() == 8 && "keyboard"@[0] == 'k');
    reveal_strlit("lead");
    assert("lead"@.len() == 4 && "lead"@[0] == 'l');
    reveal_strlit("organ");
    assert("organ"@.len() == 5 && "organ"@[0] == 'o');
    reveal_strlit("pad");
    assert("pad"@.len() == 3 && "pad"@[0] == 'p');
    reveal_strlit("percussion");
    assert("percussion"@.len() == 10 && "percussion"@[0] == 'p');
    reveal_strlit("piano");
    assert("piano"@.len() == 5 && "piano"@[0] == 'p');
    reveal_strlit("sax");
    assert("sax"@.len() == 3 && "sax"@[0] == 's');
    reveal_strlit("saxophone");
    assert("saxophone"@.len() == 9 && "saxophone"@[0] == 's');
    reveal_strlit("strings");
    assert("strings"@.len() == 7 && "strings"@[0] == 's');
    reveal_strlit("synth");
    assert("synth"@.len() == 5 && "synth"@[0] == 's');
    reveal_strlit("trombone");
    assert("trombone"@.len() == 8 && "trombone"@[0] == 't');
    reveal_strlit("trumpet");
    assert("trumpet"@.len() == 7 && "trumpet"@[0] == 't');
    reveal_strlit("violin");
    assert("violin"@.len() == 6 && "violin"@[0] == 'v');
    reveal_strlit("wind");
    assert("wind"@.len() == 4 && "wind"@[0] == 'w');
    let words = seq![
        "piano"@,
        "keyboard"@,
        "guitar"@,
        "acoustic"@,
        "electric"@,
        "distortion"@,
        "bass"@,
        "bassline"@,
        "strings"@,
        "violin"@,
        "cello"@,
        "synth"@,
        "pad"@,
        "lead"@,
        "organ"@,
        "brass"@,
        "trumpet"@,
        "trombone"@,
        "sax"@,
        "saxophone"@,
        "flute"@,
        "wind"@,
        "drums"@,
        "drum"@,
        "percussion"@,
    ];
    if is_none_of(word, words) {
        assert(words[0] != word);
        assert(words[1] != word);
        assert(words[2] != word);
        assert(words[3] != word);
        assert(words[4] != word);
        assert(words[5] != word);
        assert(words[6] != word);
        assert(words[7] != word);
        assert(words[8] != word);
        assert(words[9] != word);
        assert(words[10] != word);
        assert(words[11] != word);
        assert(words[12] != word);
        assert(words[13] != word);
        assert(words[14] != word);
        assert(words[15] != word);
        assert(words[16] != word);
        assert(words[17] != word);
        assert(words[18] != word);
        assert(words[19] != word);
        assert(words[20] != word);
        assert(words[21] != word);
        assert(words[22] != word);
        assert(words[23] != word);
        assert(words[24] != word);
    }
}

/// The styles that words name; no other word names one.
pub proof fn lemma_style_words(word: Seq<char>)
    ensures
        word == "arpeggio"@ || word == "arp"@ ==> style_named(word) == Some(Style::Arpeggio),
        word == "chords"@ || word == "chord"@ || word == "harmony"@ ==> style_named(word) == Some(Style::Chords),
        word == "bassline"@ || word == "bass"@ ==> style_named(word) == Some(Style::Bassline),
        word == "drums"@ || word == "drum"@ || word == "percussion"@ ==> style_named(word) == Some(Style::Drums),
        word == "melody"@ || word == "lead"@ || word == "solo"@ ==> style_named(word) == Some(Style::Melody),
        is_none_of(
            word,
            seq![
                "arpeggio"@,
                "arp"@,
                "chords"@,
                "chord"@,
                "harmony"@,
                "bassline"@,
                "bass"@,
                "drums"@,
                "drum"@,
                "percussion"@,
                "melody"@,
                "lead"@,
                "solo"@,
            ],
        ) ==> style_named(word) is None,
{
    reveal_strlit("arp");
    assert("arp"@.len() == 3 && "arp"@[0] == 'a');
    reveal_strlit("arpeggio");
    assert("arpeggio"@.len() == 8 && "arpeggio"@[0] == 'a');
    reveal_strlit("bass");
    assert("bass"@.len() == 4 && "bass"@[0] == 'b');
    reveal_strlit("bassline");
    assert("bassline"@.len() == 8 && "bassline"@[0] == 'b');
    reveal_strlit("chord");
    assert("chord"@.len() == 5 && "chord"@[0] == 'c');
    reveal_strlit("chords");
    assert("chords"@.len() == 6 && "chords"@[0] == 'c');
    reveal_strlit("drum");
    assert("drum"@.len() == 4 && "drum"@[0] == 'd');
    reveal_strlit("drums");
    assert("drums"@.len() == 5 && "drums"@[0] == 'd');
    reveal_strlit("harmony");
    assert("harmony"@.len() == 7 && "harmony"@[0] == 'h');
    reveal_strlit("lead");
    assert("lead"@.len() == 4 && "lead"@[0] == 'l');
    reveal_strlit("melody");
    assert("melody"@.len() == 6 && "melody"@[0] == 'm');
    reveal_strlit("percussion");
    assert("percussion"@.len() == 10 && "percussion"@[0] == 'p');
    reveal_strlit("solo");
    assert("solo"@.len() == 4 && "solo"@[0] == 's');
    let words = seq![
        "arpeggio"@,
        "arp"@,
        "chords"@,
        "chord"@,
        "harmony"@,
        "bassline"@,
        "bass"@,
        "drums"@,
        "drum"@,
        "percussion"@,
        "melody"@,
        "lead"@,
        "solo"@,
    ];
    if is_none_of(word, words) {
        assert(words[0] != word);
        assert(words[1] != word);
        assert(words[2] != word);
        assert(words[3] != word);
        assert(words[4] != word);
        assert(words[5] != word);
        assert(words[6] != word);
        assert(words[7] != word);
        assert(words[8] != word);
        assert(words[9] != word);
        assert(words[10] != word);
        assert(words[11] != word);
        assert(words[12] != word);
    }
}

/// The tempos that words suggest; no other word suggests one.
pub proof fn lemma_mood_words(word: Seq<char>)
    ensures
        word == "fast"@ || word == "upbeat"@ || word == "energetic"@ || word == "driving"@ ==> mood_tempo(word) == Some(140int),
        word == "slow"@ || word == "calm"@ || word == "relaxing"@ || word == "ambient"@ ==> mood_tempo(word) == Some(70int),
        word == "medium"@ || word == "moderate"@ ==> mood_tempo(word) == Some(110int),
        is_none_of(
            word,
            seq![
                "fast"@,
                "upbeat"@,
                "energetic"@,
                "driving"@,
                "slow"@,
                "calm"@,
                "relaxing"@,
                "ambient"@,
                "medium"@,
                "moderate"@,
            ],
        ) ==> mood_tempo(word) is None,
{
    reveal_strlit("ambient");
    assert("ambient"@.len() == 7 && "ambient"@[0] == 'a');
    reveal_strlit("calm");
    assert("calm"@.len() == 4 && "calm"@[0] == 'c');
    reveal_strlit("driving");
    assert("driving"@.len() == 7 && "driving"@[0] == 'd');
    reveal_strlit("energetic");
    assert("energetic"@.len() == 9 && "energetic"@[0] == 'e');
    reveal_strlit("fast");
    assert("fast"@.len() == 4 && "fast"@[0] == 'f');
    reveal_strlit("medium");
    assert("medium"@.len() == 6 && "medium"@[0] == 'm');
    reveal_strlit("moderate");
    assert("moderate"@.len() == 8 && "moderate"@[0] == 'm');
    reveal_strlit("relaxing");
    assert("relaxing"@.len() == 8 && "relaxing"@[0] == 'r');
    reveal_strlit("slow");
    assert("slow"@.len() == 4 && "slow"@[0] == 's');
    reveal_strlit("upbeat");
    assert("upbeat"@.len() == 6 && "upbeat"@[0] == 'u');
    let words = seq![
        "fast"@,
        "upbeat"@,
        "energetic"@,
        "driving"@,
        "slow"@,
        "calm"@,
        "relaxing"@,
        "ambient"@,
        "medium"@,
        "moderate"@,
    ];
    if is_none_of(word, words) {
        assert(words[0] != word);
        assert(words[1] != word);
        assert(words[2] != word);
        assert(words[3] != word);
        assert(words[4] != word);
        assert(words[5] != word);
        assert(words[6] != word);
        assert(words[7] != word);
        assert(words[8] != word);
        assert(words[9] != word);
    }
}

/// The first word that names an instrument decides, and a piano plays where none does.
pub proof fn lemma_first_instrument(words: Seq<Seq<char>>, at: int)
    ensures
        0 <= at < words.len() && instrument_named(words[at]) is Some && (forall|i: int|
            0 <= i < at ==> instrument_named(#[trigger] words[i]) is None) ==> Some(
            first_instrument(words, 0),
        ) == instrument_named(words[at]),
        (forall|i: int| 0 <= i < words.len() ==> instrument_named(#[trigger] words[i]) is None)
            ==> first_instrument(words, 0) == (Instrument {
            program: 0,
            base_octave: 0,
            is_drum: false,
        }),
{
    if 0 <= at < words.len() && instrument_named(words[at]) is Some && (forall|i: int|
        0 <= i < at ==> instrument_named(#[trigger] words[i]) is None) {
        lemma_instrument_from(words, 0, at);
    }
    if forall|i: int| 0 <= i < words.len() ==> instrument_named(#[trigger] words[i]) is None {
        lemma_no_instrument(words, 0);
    }
}

proof fn lemma_instrument_from(words: Seq<Seq<char>>, from: int, at: int)
    requires
        0 <= from <= at < words.len(),
        instrument_named(words[at]) is Some,
        forall|i: int| 0 <= i < at ==> instrument_named(#[trigger] words[i]) is None,
    ensures
        Some(first_instrument(words, from)) == instrument_named(words[at]),
    decreases at - from,
{
    if from < at {
        assert(instrument_named(words[from]) is None);
        lemma_instrument_from(words, from + 1, at);
    }
}

proof fn lemma_no_instrument(words: Seq<Seq<char>>, from: int)
    requires
        0 <= from,
        forall|i: int| 0 <= i < words.len() ==> instrument_named(#[trigger] words[i]) is None,
    ensures
        first_instrument(words, from) == (Instrument {
            program: 0,
            base_octave: 0,
            is_drum: false,
        }),
    decreases words.len() - from,
{
    if from < words.len() {
        assert(instrument_named(words[from]) is None);
        lemma_no_instrument(words, from + 1);
    }
}

/// The first word that names a style decides, and the style is left open where none does.
pub proof fn lemma_first_style(words: Seq<Seq<char>>, at: int)
    ensures
        0 <= at < words.len() && style_named(words[at]) is Some && (forall|i: int|
            0 <= i < at ==> style_named(#[trigger] words[i]) is None) ==> Some(
            first_style(words, 0),
        ) == style_named(words[at]),
        (forall|i: int| 0 <= i < words.len() ==> style_named(#[trigger] words[i]) is None)
            ==> first_style(words, 0) == Style::Random,
{
    if 0 <= at < words.len() && style_named(words[at]) is Some && (forall|i: int|
        0 <= i < at ==> style_named(#[trigger] words[i]) is None) {
        lemma_style_from(words, 0, at);
    }
    if forall|i: int| 0 <= i < words.len() ==> style_named(#[trigger] words[i]) is None {
        lemma_no_style(words, 0);
    }
}

proof fn lemma_style_from(words: Seq<Seq<char>>, from: int, at: int)
    requires
        0 <= from <= at < words.len(),
        style_named(words[at]) is Some,
        forall|i: int| 0 <= i < at ==> style_named(#[trigger] words[i]) is None,
    ensures
        Some(first_style(words, from)) == style_named(words[at]),
    decreases at - from,
{
    if from < at {
        assert(style_named(words[from]) is None);
        lemma_style_from(words, from + 1, at);
    }
}

proof fn lemma_no_style(words: Seq<Seq<char>>, from: int)
    requires
        0 <= from,
        forall|i: int| 0 <= i < words.len() ==> style_named(#[trigger] words[i]) is None,
    ensures
        first_style(words, from) == Style::Random,
    decreases words.len() - from,
{
    if from < words.len() {
        assert(style_named(words[from]) is None);
        lemma_no_style(words, from + 1);
    }
}

/// A word states a tempo: it is `bpm`, and the word before it spells a number.
pub open spec fn states(words: Seq<Seq<char>>, i: int) -> bool {
    0 < i < words.len() && words[i] == "bpm"@ && word_tempo(words[i - 1]) is Some
}

/// A tempo that is given counts, within its limits; else the first one that is stated; else
/// the first one that is suggested; and else 120 beats in a minute.
pub proof fn lemma_tempo_order(words: Seq<Seq<char>>, given: Option<Single>, at: int)
    ensures
        given matches Some(bpm) ==> tempo_of(words, given) == clamped_tempo(bpm),
        given is None && states(words, at) && (forall|i: int|
            0 <= i < at ==> !#[trigger] states(words, i)) ==> Some(tempo_of(words, given))
            == word_tempo(words[at - 1]),
        given is None && (forall|i: int| !#[trigger] states(words, i)) && 0 <= at < words.len()
            && mood_tempo(words[at]) is Some && (forall|i: int|
            0 <= i < at ==> mood_tempo(#[trigger] words[i]) is None) ==> tempo_of(words, given)
            == tempo_single(mood_tempo(words[at])->0, 1),
        given is None && (forall|i: int| !#[trigger] states(words, i)) && (forall|i: int|
            0 <= i < words.len() ==> mood_tempo(#[trigger] words[i]) is None) ==> tempo_of(
            words,
            given,
        ) == tempo_single(120, 1),
{
    if states(words, at) && (forall|i: int| 0 <= i < at ==> !#[trigger] states(words, i)) {
        lemma_stated_from(words, 0, at);
    }
    if forall|i: int| !#[trigger] states(words, i) {
        lemma_not_stated(words, 0);
        if 0 <= at < words.len() && mood_tempo(words[at]) is Some && (forall|i: int|
            0 <= i < at ==> mood_tempo(#[trigger] words[i]) is None) {
            lemma_suggested_from(words, 0, at);
        }
        if forall|i: int| 0 <= i < words.len() ==> mood_tempo(#[trigger] words[i]) is None {
            lemma_not_suggested(words, 0);
        }
    }
}

proof fn lemma_stated_from(words: Seq<Seq<char>>, from: int, at: int)
    requires
        0 <= from <= at,
        states(words, at),
        forall|i: int| 0 <= i < at ==> !#[trigger] states(words, i),
    ensures
        stated_tempo(words, from) == word_tempo(words[at - 1]),
    decreases at - from,
{
    if from < at {
        assert(!states(words, from));
        lemma_stated_from(words, from + 1, at);
    }
}

proof fn lemma_not_stated(words: Seq<Seq<char>>, from: int)
    requires
        0 <= from,
        forall|i: int| !#[trigger] states(words, i),
    ensures
        stated_tempo(words, from) is None,
    decreases words.len() - from,
{
    if from < words.len() {
        assert(!states(words, from));
        lemma_not_stated(words, from + 1);
    }
}

proof fn lemma_suggested_from(words: Seq<Seq<char>>, from: int, at: int)
    requires
        0 <= from <= at < words.len(),
        mood_tempo(words[at]) is Some,
        forall|i: int| 0 <= i < at ==> mood_tempo(#[trigger] words[i]) is None,
    ensures
        suggested_tempo(words, from) == mood_tempo(words[at])->0,
    decreases at - from,
{
    if from < at {
        assert(mood_tempo(words[from]) is None);
        lemma_suggested_from(words, from + 1, at);
    }
}

proof fn lemma_not_suggested(words: Seq<Seq<char>>, from: int)
    requires
        0 <= from,
        forall|i: int| 0 <= i < words.len() ==> mood_tempo(#[trigger] words[i]) is None,
    ensures
        suggested_tempo(words, from) == 120,
    decreases words.len() - from,
{
    if from < words.len() {
        assert(mood_tempo(words[from]) is None);
        lemma_not_suggested(words, from + 1);
    }
}

/// A whole number spells the tempo that it is, within the limits.
pub proof fn lemma_spelled_tempo(n: nat)
    ensures
        word_tempo(decimal(n)) is Some,
        20 <= n <= 400 ==> same_value(fraction(word_tempo(decimal(n))->0), (n as int, 1)),
        n < 20 ==> word_tempo(decimal(n))->0.bits == 0x41a0_0000,
        n > 400 ==> word_tempo(decimal(n))->0.bits == 0x43c8_0000,
{
    let text = decimal(n);
    lemma_decimal_number(n);
    lemma_digits_are_core(text);
    reveal_strlit("nan");
    reveal_strlit("inf");
    reveal_strlit("infinity");
    assert("nan"@[0] == 'n');
    assert("inf"@[0] == 'i');
    assert("infinity"@[0] == 'i');
    assert forall|i: int| 0 <= i < text.len() implies lower(#[trigger] text[i]) == text[i]
        && text[i] != 'e' && text[i] != '.' by {
        assert(is_digit(text[i]));
    }
    assert(lowered(text) =~= text);
    assert(is_digit(text[0]));
    lemma_no_letter(text, 'e');
    lemma_no_letter(text, '.');
    assert(text.take(text.len() as int) =~= text);
    assert(text + Seq::<char>::empty() =~= text);
    assert(decimal_named(text) == Some((text, 0int)));
    assert(ten_to(0) == 1);
    assert(number(text) * 1 == n);
    lemma_whole_tempo(n as int);
}

proof fn lemma_no_letter(text: Seq<char>, c: char)
    requires
        forall|i: int| 0 <= i < text.len() ==> #[trigger] text[i] != c,
    ensures
        before_letter(text, c) == text.len(),
    decreases text.len(),
{
    if text.len() > 0 {
        assert(text[0] != c);
        assert forall|i: int| 0 <= i < text.skip(1).len() implies #[trigger] text.skip(1)[i]
            != c by {
            assert(text.skip(1)[i] == text[i + 1]);
        }
        lemma_no_letter(text.skip(1), c);
    }
}

/// The semitones of a scale above its root: a major one has whole steps but after the third
/// and the seventh degree, and a minor one has its third, sixth and seventh degree a semitone
/// lower. Seven degrees make an octave, and a pitch is kept within the range of MIDI.
pub proof fn lemma_scale_pitches(scale: Scale, degree: int, octave: int)
    requires
        degree >= 0,
    ensures
        ({
            let major = seq![0int, 2, 4, 5, 7, 9, 11];
            let minor = seq![0int, 2, 3, 5, 7, 8, 10];
            let pitch = scale.root + 12 * octave + (if scale.minor {
                minor[degree % 7]
            } else {
                major[degree % 7]
            });
            &&& 0 <= pitch <= 127 ==> scale.pitch_of(degree, octave) == pitch
            &&& pitch < 0 ==> scale.pitch_of(degree, octave) == 0
            &&& pitch > 127 ==> scale.pitch_of(degree, octave) == 127
        }),
        scale.pitch_of(degree + 7, octave) == scale.pitch_of(degree, octave),
        scale.pitch_of(0, 0) == scale.root || scale.root > 127,
{
    assert((degree + 7) % 7 == degree % 7);
}

/// A root is named by its letter, large or small, and by what is raised or lowered: C is the
/// sixtieth pitch, and a flat C is the B above it.
pub proof fn lemma_roots()
    ensures
        root_named(seq!['C']) == Some(60u8),
        root_named(seq!['D']) == Some(62u8),
        root_named(seq!['E']) == Some(64u8),
        root_named(seq!['F']) == Some(65u8),
        root_named(seq!['G']) == Some(67u8),
        root_named(seq!['A']) == Some(69u8),
        root_named(seq!['B']) == Some(71u8),
        root_named(seq!['C', 'b']) == Some(71u8),
        root_named(seq!['B', '#']) == Some(60u8),
        root_named(Seq::empty()) is None,
{
    lemma_accidentals();
    assert(seq!['C'].skip(1) =~= Seq::empty());
    assert(seq!['D'].skip(1) =~= Seq::empty());
    assert(seq!['E'].skip(1) =~= Seq::empty());
    assert(seq!['F'].skip(1) =~= Seq::empty());
    assert(seq!['G'].skip(1) =~= Seq::empty());
    assert(seq!['A'].skip(1) =~= Seq::empty());
    assert(seq!['B'].skip(1) =~= Seq::empty());
    assert(seq!['C', 'b'].skip(1) =~= seq!['b']);
    assert(seq!['B', '#'].skip(1) =~= seq!['#']);
}

proof fn lemma_accidentals()
    ensures
        accidental_semitone(Seq::empty()) == Some(0int),
        accidental_semitone("natural"@) == Some(0int),
        accidental_semitone(seq!['#']) == Some(1int),
        accidental_semitone("sharp"@) == Some(1int),
        accidental_semitone(seq!['b']) == Some(-1int),
        accidental_semitone("flat"@) == Some(-1int),
{
    reveal_strlit("");
    reveal_strlit("natural");
    reveal_strlit("#");
    reveal_strlit("sharp");
    reveal_strlit("b");
    reveal_strlit("flat");
    assert(""@ =~= Seq::empty());
    assert("#"@ =~= seq!['#']);
    assert("b"@ =~= seq!['b']);
    assert("natural"@[0] == 'n');
    assert("sharp"@[0] == 's');
    assert("flat"@[0] == 'f');
    assert(seq!['#'][0] == '#');
    assert(seq!['b'][0] == 'b');
}

/// A root that is raised is a semitone above the same root as it is, and one that is lowered a
/// semitone below, around the octave; a small letter names the same root as the large one.
pub proof fn lemma_raised_and_lowered(letter: char)
    requires
        root_named(seq![letter]) is Some,
    ensures
        ({
            let plain = root_named(seq![letter])->0;
            &&& root_named(seq![letter, '#']) == Some(
                if plain == 71 {
                    60u8
                } else {
                    (plain + 1) as u8
                },
            )
            &&& root_named(seq![letter, 'b']) == Some(
                if plain == 60 {
                    71u8
                } else {
                    (plain - 1) as u8
                },
            )
            &&& root_named(seq![letter] + "sharp"@) == root_named(seq![letter, '#'])
            &&& root_named(seq![letter] + "flat"@) == root_named(seq![letter, 'b'])
            &&& root_named(seq![letter] + "natural"@) == Some(plain)
            &&& 'A' <= letter <= 'G' ==> root_named(seq![(letter as int + 32) as char]) == Some(
                plain,
            )
        }),
{
    lemma_accidentals();
    assert(seq![letter].skip(1) =~= Seq::empty());
    assert(seq![letter, '#'].skip(1) =~= seq!['#']);
    assert(seq![letter, 'b'].skip(1) =~= seq!['b']);
    assert((seq![letter] + "sharp"@).skip(1) =~= "sharp"@);
    assert((seq![letter] + "flat"@).skip(1) =~= "flat"@);
    assert((seq![letter] + "natural"@).skip(1) =~= "natural"@);
    assert(seq![(letter as int + 32) as char].skip(1) =~= Seq::empty());
}

/// A key is its root and its mode, the first two parts of a text, the mode in letters of any
/// size.
pub proof fn lemma_keys(root: Seq<char>, mode: Seq<char>, rest: Seq<char>)
    requires
        root.len() > 0,
        mode.len() > 0,
        forall|i: int| 0 <= i < root.len() ==> !white_space(#[trigger] root[i]),
        forall|i: int| 0 <= i < mode.len() ==> !white_space(#[trigger] mode[i]),
        root_named(root) is Some,
    ensures
        lowered(mode) == "minor"@ || lowered(mode) == "min"@ ==> scale_named(
            root + seq![' '] + mode + seq![' '] + rest,
        ) == Some(Scale { root: root_named(root)->0, minor: true }),
        lowered(mode) == "major"@ || lowered(mode) == "maj"@ ==> scale_named(
            root + seq![' '] + mode + seq![' '] + rest,
        ) == Some(Scale { root: root_named(root)->0, minor: false }),
        !(lowered(mode) == "minor"@ || lowered(mode) == "min"@ || lowered(mode) == "major"@
            || lowered(mode) == "maj"@) ==> scale_named(
            root + seq![' '] + mode + seq![' '] + rest,
        ) is None,
{
    reveal_strlit("minor");
    reveal_strlit("min");
    reveal_strlit("major");
    reveal_strlit("maj");
    assert("minor"@[1] == 'i');
    assert("min"@[1] == 'i');
    assert("major"@[1] == 'a');
    assert("maj"@[1] == 'a');
    lemma_one_token(root);
    lemma_one_token(mode);
    lemma_tokens_join(root, ' ', mode);
    lemma_tokens_join(root + seq![' '] + mode, ' ', rest);
    let tokens = tokens_of(root + seq![' '] + mode + seq![' '] + rest);
    assert(tokens =~= seq![root, mode] + tokens_of(rest));
    assert(tokens[0] == root);
    assert(tokens[1] == mode);
}

/// A key or a meter that is given counts, even where it cannot be read; else the first that the
/// prompt hints at; and else C major and four quarters.
pub proof fn lemma_hint_order(
    prompt: Seq<char>,
    text: Seq<char>,
    at: int,
)
    ensures
        ({
            let hints = hints_of(prompt);
            &&& key_of(prompt, Some(text)) == (match scale_named(text) {
                Some(scale) => scale,
                None => Scale { root: 60, minor: false },
            })
            &&& meter_of(prompt, Some(text)) == signature_named(text)
            &&& 0 <= at && at + 1 < hints.len() && scale_of(hints[at], hints[at + 1]) is Some && (
            forall|i: int|
                0 <= i < at ==> scale_of(#[trigger] hints[i], hints[i + 1]) is None) ==> Some(
                key_of(prompt, None),
            ) == scale_of(hints[at], hints[at + 1])
            &&& (forall|i: int|
                0 <= i < hints.len() - 1 ==> scale_of(#[trigger] hints[i], hints[i + 1]) is None)
                ==> key_of(prompt, None) == (Scale { root: 60, minor: false })
            &&& 0 <= at < hints.len() && signature_named(hints[at]) is Some && (forall|i: int|
                0 <= i < at ==> signature_named(#[trigger] hints[i]) is None) ==> meter_of(
                prompt,
                None,
            ) == signature_named(hints[at])
            &&& (forall|i: int|
                0 <= i < hints.len() ==> signature_named(#[trigger] hints[i]) is None) ==> meter_of(
                prompt,
                None,
            ) is None
        }),
        beats_of(None) == (4u8, 4u8),
        forall|meter: TimeSignature| #[trigger]
            beats_of(Some(meter)) == (meter.numerator, meter.denominator),
        signature_or_common(None) == (4u8, 4u8),
        signature_or_common(Some(text)) == (match signature_named(text) {
            Some(meter) => (meter.numerator, meter.denominator),
            None => (4u8, 4u8),
        }),
{
    let hints = hints_of(prompt);
    if 0 <= at && at + 1 < hints.len() && scale_of(hints[at], hints[at + 1]) is Some && (forall|
        i: int,
    |
        0 <= i < at ==> scale_of(#[trigger] hints[i], hints[i + 1]) is None) {
        lemma_scale_from(hints, 0, at);
    }
    if forall|i: int|
        0 <= i < hints.len() - 1 ==> scale_of(#[trigger] hints[i], hints[i + 1]) is None {
        lemma_no_scale(hints, 0);
    }
    if 0 <= at < hints.len() && signature_named(hints[at]) is Some && (forall|i: int|
        0 <= i < at ==> signature_named(#[trigger] hints[i]) is None) {
        lemma_signature_from(hints, 0, at);
    }
    if forall|i: int| 0 <= i < hints.len() ==> signature_named(#[trigger] hints[i]) is None {
        lemma_no_signature(hints, 0);
    }
}

proof fn lemma_scale_from(hints: Seq<Seq<char>>, from: int, at: int)
    requires
        0 <= from <= at,
        at + 1 < hints.len(),
        scale_of(hints[at], hints[at + 1]) is Some,
        forall|i: int| 0 <= i < at ==> scale_of(#[trigger] hints[i], hints[i + 1]) is None,
    ensures
        hinted_scale(hints, from) == scale_of(hints[at], hints[at + 1]),
    decreases at - from,
{
    if from < at {
        assert(scale_of(hints[from], hints[from + 1]) is None);
        lemma_scale_from(hints, from + 1, at);
    }
}

proof fn lemma_no_scale(hints: Seq<Seq<char>>, from: int)
    requires
        0 <= from,
        forall|i: int|
            0 <= i < hints.len() - 1 ==> scale_of(#[trigger] hints[i], hints[i + 1]) is None,
    ensures
        hinted_scale(hints, from) is None,
    decreases hints.len() - from,
{
    if from + 1 < hints.len() {
        assert(scale_of(hints[from], hints[from + 1]) is None);
        lemma_no_scale(hints, from + 1);
    }
}

proof fn lemma_signature_from(hints: Seq<Seq<char>>, from: int, at: int)
    requires
        0 <= from <= at < hints.len(),
        signature_named(hints[at]) is Some,
        forall|i: int| 0 <= i < at ==> signature_named(#[trigger] hints[i]) is None,
    ensures
        hinted_signature(hints, from) == signature_named(hints[at]),
    decreases at - from,
{
    if from < at {
        assert(signature_named(hints[from]) is None);
        lemma_signature_from(hints, from + 1, at);
    }
}

proof fn lemma_no_signature(hints: Seq<Seq<char>>, from: int)
    requires
        0 <= from,
        forall|i: int| 0 <= i < hints.len() ==> signature_named(#[trigger] hints[i]) is None,
    ensures
        hinted_signature(hints, from) is None,
    decreases hints.len() - from,
{
    if from < hints.len() {
        assert(signature_named(hints[from]) is None);
        lemma_no_signature(hints, from + 1);
    }
}

/// A number with an exponent is that many times ten as large.
pub proof fn lemma_raised_tempo(n: nat, power: nat)
    ensures
        word_tempo(decimal(n) + seq!['e'] + decimal(power)) == Some(
            tempo_single(n * ten_to(power), 1),
        ),
        ten_to(0) == 1,
        ten_to(power + 1) == 10 * ten_to(power),
{
    let front = decimal(n);
    let back = decimal(power);
    let text = front + seq!['e'] + back;
    lemma_decimal_number(n);
    lemma_decimal_number(power);
    lemma_digits_are_core(front);
    lemma_digits_are_core(back);
    reveal_strlit("nan");
    reveal_strlit("inf");
    reveal_strlit("infinity");
    assert("nan"@[0] == 'n');
    assert("inf"@[0] == 'i');
    assert("infinity"@[0] == 'i');
    assert forall|i: int| 0 <= i < text.len() implies lower(#[trigger] text[i]) == text[i] by {
        if i < front.len() {
            assert(is_digit(front[i]));
        } else if i > front.len() {
            assert(is_digit(back[i - front.len() - 1]));
        }
    }
    assert(lowered(text) =~= text);
    assert(is_digit(front[0]));
    assert(text[0] == front[0]);
    assert forall|i: int| 0 <= i < front.len() implies #[trigger] front[i] != 'e' && front[i]
        != '.' by {
        assert(is_digit(front[i]));
    }
    lemma_letter_after(front, 'e', back);
    lemma_no_letter(front, '.');
    assert(text.take(front.len() as int) =~= front);
    assert(text.skip(front.len() as int + 1) =~= back);
    assert(front.take(front.len() as int) =~= front);
    assert(front + Seq::<char>::empty() =~= front);
    assert(decimal_named(text) == Some((front, power as int)));
}

proof fn lemma_letter_after(front: Seq<char>, c: char, back: Seq<char>)
    requires
        forall|i: int| 0 <= i < front.len() ==> #[trigger] front[i] != c,
    ensures
        before_letter(front + seq![c] + back, c) == front.len(),
    decreases front.len(),
{
    let text = front + seq![c] + back;
    if front.len() == 0 {
        assert(text[0] == c);
    } else {
        assert(text[0] == front[0]);
        assert(text.skip(1) =~= front.skip(1) + seq![c] + back);
        assert forall|i: int| 0 <= i < front.skip(1).len() implies #[trigger] front.skip(1)[i]
            != c by {
            assert(front.skip(1)[i] == front[i + 1]);
        }
        lemma_letter_after(front.skip(1), c, back);
    }
}

/// Capitals are made small, and everything else is kept; and the other way round.
pub proof fn lemma_letter_sizes(c: char)
    ensures
        'A' <= c <= 'Z' ==> lower(c) as int == c as int + 32,
        !('A' <= c <= 'Z') ==> lower(c) == c,
        'a' <= c <= 'z' ==> upper(c) as int == c as int - 32,
        !('a' <= c <= 'z') ==> upper(c) == c,
{
}

/// The words that are no number but name one: what is none at all, and what is beyond all.
pub proof fn lemma_named_numbers()
    ensures
        word_tempo("nan"@) matches Some(bpm) && bpm.is_nan(),
        word_tempo("inf"@) matches Some(bpm) && bpm.bits == 0x43c8_0000,
        word_tempo("infinity"@) matches Some(bpm) && bpm.bits == 0x43c8_0000,
        word_tempo(Seq::empty()) is None,
{
    reveal_strlit("nan");
    reveal_strlit("inf");
    reveal_strlit("infinity");
    assert(lowered("nan"@) =~= "nan"@);
    assert(lowered("inf"@) =~= "inf"@);
    assert(lowered("infinity"@) =~= "infinity"@);
    assert("inf"@[0] == 'i' && "nan"@[0] == 'n' && "infinity"@[0] == 'i');
    let none = Seq::<char>::empty();
    assert(lowered(none) =~= none);
    assert(none.len() != "nan"@.len());
    assert(before_letter(none, 'e') == 0);
    assert(none.take(0) =~= none);
    assert(before_letter(none, '.') == 0);
    assert((none + none).len() == 0);
}

proof fn lemma_plain_tempo(text: Seq<char>)
    requires
        all_digits(text),
    ensures
        word_tempo(text) == Some(tempo_single(number(text) * ten_to(0), 1)),
{
    lemma_digits_are_core(text);
    reveal_strlit("nan");
    reveal_strlit("inf");
    reveal_strlit("infinity");
    assert("nan"@[0] == 'n');
    assert("inf"@[0] == 'i');
    assert("infinity"@[0] == 'i');
    assert forall|i: int| 0 <= i < text.len() implies lower(#[trigger] text[i]) == text[i]
        && text[i] != 'e' && text[i] != '.' by {
        assert(is_digit(text[i]));
    }
    assert(lowered(text) =~= text);
    assert(is_digit(text[0]));
    lemma_no_letter(text, 'e');
    lemma_no_letter(text, '.');
    assert(text.take(text.len() as int) =~= text);
    assert(text + Seq::<char>::empty() =~= text);
    assert(decimal_named(text) == Some((text, 0int)));
}

/// A plus sign says nothing, and a number with a minus sign is as slow as can be.
pub proof fn lemma_signed_tempo(text: Seq<char>)
    requires
        all_digits(text),
    ensures
        word_tempo(seq!['+'] + text) == word_tempo(text),
        word_tempo(seq!['-'] + text) == Some(Single { bits: 0x41a0_0000 }),
{
    lemma_plain_tempo(text);
    lemma_digits_are_core(text);
    reveal_strlit("nan");
    reveal_strlit("inf");
    reveal_strlit("infinity");
    assert("nan"@[0] == 'n');
    assert("inf"@[0] == 'i');
    assert("infinity"@[0] == 'i');
    assert forall|i: int| 0 <= i < text.len() implies lower(#[trigger] text[i]) == text[i]
        && text[i] != 'e' && text[i] != '.' by {
        assert(is_digit(text[i]));
    }
    assert(lowered(text) =~= text);
    assert(is_digit(text[0]));
    lemma_no_letter(text, 'e');
    lemma_no_letter(text, '.');
    assert(text.take(text.len() as int) =~= text);
    assert(text + Seq::<char>::empty() =~= text);
    assert(decimal_named(text) == Some((text, 0int)));
    assert((seq!['+'] + text).skip(1) =~= text);
    assert((seq!['-'] + text).skip(1) =~= text);
}

/// What is no letter of a scale names no root, and neither does a letter with anything but a
/// sign behind it; the sign of a flat may be written as such.
pub proof fn lemma_no_roots(letter: char, rest: Seq<char>)
    ensures
        !('A' <= letter <= 'G') && !('a' <= letter <= 'g') ==> root_named(seq![letter] + rest) is None,
        rest.len() > 0 && is_none_of(
            rest,
            seq!["natural"@, "#"@, "sharp"@, "b"@, "flat"@, "\u{266d}"@],
        ) ==> root_named(seq![letter] + rest) is None,
        root_named(seq![letter] + "\u{266d}"@) == root_named(seq![letter] + "flat"@),
{
    let text = seq![letter] + rest;
    assert(text.skip(1) =~= rest);
    assert((seq![letter] + "\u{266d}"@).skip(1) =~= "\u{266d}"@);
    assert((seq![letter] + "flat"@).skip(1) =~= "flat"@);
    lemma_accidentals();
    reveal_strlit("");
    reveal_strlit("\u{266d}");
    reveal_strlit("natural");
    reveal_strlit("#");
    reveal_strlit("sharp");
    reveal_strlit("b");
    assert("\u{266d}"@[0] == '\u{266d}');
    assert("#"@[0] == '#');
    assert("b"@[0] == 'b');
    assert("natural"@.len() == 7);
    assert("sharp"@.len() == 5);
    let signs = seq!["natural"@, "#"@, "sharp"@, "b"@, "flat"@, "\u{266d}"@];
    if is_none_of(rest, signs) {
        assert(signs[0] != rest && signs[1] != rest && signs[2] != rest && signs[3] != rest
            && signs[4] != rest && signs[5] != rest);
    }
}

/// A text of fewer than two parts names no key.
pub proof fn lemma_no_key(text: Seq<char>)
    requires
        forall|i: int| 0 <= i < text.len() ==> !white_space(#[trigger] text[i]),
    ensures
        scale_named(text) is None,
{
    lemma_one_token(text);
}

/// A decimal fraction spells the tempo that is nearest to it.
pub proof fn lemma_pointed_tempo(front: Seq<char>, back: Seq<char>)
    requires
        all_digits(front + back),
    ensures
        word_tempo(front + seq!['.'] + back) == (if back.len() == 0 {
            word_tempo(front)
        } else {
            Some(tempo_single(number(front + back), ten_to(back.len())))
        }),
{
    let text = front + seq!['.'] + back;
    let both = front + back;
    assert forall|i: int| 0 <= i < front.len() implies is_digit(#[trigger] front[i]) by {
        assert(both[i] == front[i]);
    }
    assert forall|i: int| 0 <= i < back.len() implies is_digit(#[trigger] back[i]) by {
        assert(both[front.len() + i] == back[i]);
    }
    reveal_strlit("nan");
    reveal_strlit("inf");
    reveal_strlit("infinity");
    assert("nan"@[0] == 'n');
    assert("inf"@[0] == 'i');
    assert("infinity"@[0] == 'i');
    assert forall|i: int| 0 <= i < text.len() implies lower(#[trigger] text[i]) == text[i]
        && text[i] != 'e' by {
        if i < front.len() {
            assert(is_digit(front[i]));
        } else if i > front.len() {
            assert(is_digit(back[i - front.len() - 1]));
        }
    }
    assert(lowered(text) =~= text);
    if front.len() > 0 {
        assert(is_digit(front[0]));
        assert(text[0] == front[0]);
    } else {
        assert(text[0] == '.');
    }
    assert forall|i: int| 0 <= i < front.len() implies #[trigger] front[i] != '.' by {
        assert(is_digit(front[i]));
    }
    lemma_no_letter(text, 'e');
    lemma_letter_after(front, '.', back);
    assert(text.take(text.len() as int) =~= text);
    assert(text.take(front.len() as int) =~= front);
    assert(text.skip(front.len() as int + 1) =~= back);
    let digits = front + back;
    assert forall|i: int| 0 <= i < digits.len() implies is_digit(#[trigger] digits[i]) by {
        if i < front.len() {
            assert(digits[i] == front[i]);
        } else {
            assert(digits[i] == back[i - front.len()]);
        }
    }
    assert(all_digits(digits));
    assert(decimal_named(text) == Some((digits, -(back.len() as int))));
    if back.len() == 0 {
        assert(digits =~= front);
        lemma_plain_tempo(front);
    }
}

} // verus!
