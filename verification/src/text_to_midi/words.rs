//! Musical hints in a text prompt: words, tempo, instrument, style, key and
//! time signature.

use vstd::prelude::*;

use crate::single::Single;
use crate::text::{chars_of, same_text, string_of, views, white_space};
use crate::text_to_midi::midi::{signature_named, TimeSignature};
use crate::text_to_midi::tempo::{
    lower, lowered, read_tempo, tempo_single, to_lower, whole_tempo, word_tempo,
};
use crate::text_to_midi::timing::{clamp_tempo, clamped_tempo, FASTEST, SLOWEST};

verus! {

/// What `char::is_alphanumeric` answers of a character beyond ASCII: whether it has
/// the Unicode property `Alphabetic` or is numeric.
pub uninterp spec fn wide_alphanumeric(c: char) -> bool;

/// The letters and the digits.
pub open spec fn alphanumeric(c: char) -> bool {
    if (c as u32) < 0x80 {
        '0' <= c <= '9' || 'A' <= c <= 'Z' || 'a' <= c <= 'z'
    } else {
        wide_alphanumeric(c)
    }
}

/// `char::is_alphanumeric` holds of the ASCII letters and digits, and of no other
/// ASCII character. Beyond ASCII it depends on the character alone.
pub assume_specification[ char::is_alphanumeric ](c: char) -> (answer: bool)
    ensures
        (c as u32) < 0x80 ==> (answer <==> '0' <= c <= '9' || 'A' <= c <= 'Z' || 'a' <= c <= 'z'),
        (c as u32) >= 0x80 ==> answer == wide_alphanumeric(c),
;

/// `c` with an ASCII small letter replaced by the capital.
pub open spec fn upper(c: char) -> char {
    if 'a' <= c && c <= 'z' {
        (c as int - 32) as char
    } else {
        c
    }
}

/// Replaces an ASCII small letter by the capital.
fn to_upper(c: char) -> (capital: char)
    ensures
        capital == upper(c),
{
    if 'a' <= c && c <= 'z' {
        ((c as u32 - 32) as u8) as char
    } else {
        c
    }
}

/// The texts of a list that are not empty.
pub open spec fn kept(done: Seq<Seq<char>>, last: Seq<char>) -> Seq<Seq<char>> {
    if last.len() == 0 {
        done
    } else {
        done.push(last)
    }
}

/// The words in the first `n` characters that have ended, and the one that has
/// not. A word is a run of alphanumeric characters, in small letters.
pub open spec fn words_in(text: Seq<char>, n: int) -> (Seq<Seq<char>>, Seq<char>)
    decreases n,
{
    if n <= 0 {
        (Seq::empty(), Seq::empty())
    } else {
        let (done, current) = words_in(text, n - 1);
        let c = lower(text[n - 1]);
        if alphanumeric(c) {
            (done, current.push(c))
        } else {
            (kept(done, current), Seq::empty())
        }
    }
}

/// The words of a text.
pub open spec fn words_of(text: Seq<char>) -> Seq<Seq<char>> {
    let (done, current) = words_in(text, text.len() as int);
    kept(done, current)
}

/// Cuts a prompt into words.
pub fn normalize_prompt(text: &str) -> (words: Vec<String>)
    ensures
        views(words@) == words_of(text@),
{
    let chars = chars_of(text);
    let mut words: Vec<String> = Vec::new();
    let mut current: Vec<char> = Vec::new();
    let mut i: usize = 0;
    assert(views(words@) =~= Seq::empty());
    while i < chars.len()
        invariant
            i <= chars@.len(),
            chars@ == text@,
            (views(words@), current@) == words_in(text@, i as int),
        decreases chars@.len() - i,
    {
        let c: char = to_lower(chars[i]);
        if c.is_alphanumeric() {
            current.push(c);
        } else {
            if current.len() > 0 {
                let ghost before = words@;
                let word = string_of(current.as_slice());
                words.push(word);
                assert(views(words@) =~= views(before).push(current@));
            }
            current = Vec::new();
            assert(current@ =~= Seq::empty());
        }
        i += 1;
    }
    if current.len() > 0 {
        let ghost before = words@;
        let word = string_of(current.as_slice());
        words.push(word);
        assert(views(words@) =~= views(before).push(current@));
    }
    words
}

/// Every word is made of alphanumeric characters, is not empty and holds no
/// ASCII capital.
pub open spec fn are_words(words: Seq<Seq<char>>) -> bool {
    forall|i: int| 0 <= i < words.len() ==> is_word(#[trigger] words[i])
}

/// A word of a prompt.
pub open spec fn is_word(word: Seq<char>) -> bool {
    word.len() > 0 && forall|k: int|
        0 <= k < word.len() ==> alphanumeric(#[trigger] word[k]) && lower(word[k]) == word[k]
}

/// What a prompt is cut into are words.
pub proof fn lemma_words(text: Seq<char>, n: int)
    requires
        0 <= n <= text.len(),
    ensures
        are_words(words_in(text, n).0),
        words_in(text, n).1.len() > 0 ==> is_word(words_in(text, n).1),
    decreases n,
{
    if n > 0 {
        lemma_words(text, n - 1);
    }
}

/// The tempo given by the first word `bpm` at or after `at` that follows a word
/// that spells one.
pub open spec fn stated_tempo(words: Seq<Seq<char>>, at: int) -> Option<Single>
    decreases words.len() - at,
{
    if at < 0 || at >= words.len() {
        None
    } else if words[at] == "bpm"@ && at > 0 && word_tempo(words[at - 1]) is Some {
        word_tempo(words[at - 1])
    } else {
        stated_tempo(words, at + 1)
    }
}

/// The tempo that a word suggests.
pub open spec fn mood_tempo(word: Seq<char>) -> Option<int> {
    if word == "fast"@ || word == "upbeat"@ || word == "energetic"@ || word == "driving"@ {
        Some(140)
    } else if word == "slow"@ || word == "calm"@ || word == "relaxing"@ || word == "ambient"@ {
        Some(70)
    } else if word == "medium"@ || word == "moderate"@ {
        Some(110)
    } else {
        None
    }
}

/// The tempo that the first word at or after `at` suggests, or else 120.
pub open spec fn suggested_tempo(words: Seq<Seq<char>>, at: int) -> int
    decreases words.len() - at,
{
    if at < 0 || at >= words.len() {
        120
    } else {
        match mood_tempo(words[at]) {
            Some(n) => n,
            None => suggested_tempo(words, at + 1),
        }
    }
}

/// The tempo of a prompt: the given one in range, else one that it states, else
/// one that it suggests.
pub open spec fn tempo_of(words: Seq<Seq<char>>, given: Option<Single>) -> Single {
    match given {
        Some(bpm) => clamped_tempo(bpm),
        None => match stated_tempo(words, 0) {
            Some(bpm) => bpm,
            None => tempo_single(suggested_tempo(words, 0), 1),
        },
    }
}

/// The tempo that a word suggests.
fn read_mood(word: &str) -> (tempo: Option<u64>)
    ensures
        match mood_tempo(word@) {
            Some(n) => tempo is Some && tempo->0 == n && 20 <= n < 400,
            None => tempo is None,
        },
{
    if same_text(word, "fast") || same_text(word, "upbeat") || same_text(word, "energetic")
        || same_text(word, "driving") {
        Some(140)
    } else if same_text(word, "slow") || same_text(word, "calm") || same_text(word, "relaxing")
        || same_text(word, "ambient") {
        Some(70)
    } else if same_text(word, "medium") || same_text(word, "moderate") {
        Some(110)
    } else {
        None
    }
}

/// Finds the tempo of a prompt.
pub fn detect_bpm(words: &Vec<String>, override_bpm: Option<Single>) -> (bpm: Single)
    ensures
        bpm == tempo_of(views(words@), override_bpm),
        bpm.is_nan() || SLOWEST <= bpm.bits <= FASTEST,
{
    if let Some(bpm) = override_bpm {
        return clamp_tempo(bpm);
    }
    let ghost all = views(words@);
    let mut i: usize = 0;
    while i < words.len()
        invariant
            i <= words@.len(),
            all == views(words@),
            all.len() == words@.len(),
            override_bpm is None,
            stated_tempo(all, 0) == stated_tempo(all, i as int),
        decreases words@.len() - i,
    {
        assert(all[i as int] == words@[i as int]@);
        if i > 0 && same_text(words[i].as_str(), "bpm") {
            assert(all[i - 1] == words@[i - 1]@);
            if let Some(bpm) = read_tempo(words[i - 1].as_str()) {
                return bpm;
            }
        }
        i += 1;
    }
    let mut k: usize = 0;
    while k < words.len()
        invariant
            k <= words@.len(),
            all == views(words@),
            all.len() == words@.len(),
            stated_tempo(all, 0) is None,
            override_bpm is None,
            suggested_tempo(all, 0) == suggested_tempo(all, k as int),
        decreases words@.len() - k,
    {
        assert(all[k as int] == words@[k as int]@);
        if let Some(n) = read_mood(words[k].as_str()) {
            return whole_tempo(n);
        }
        k += 1;
    }
    whole_tempo(120)
}

/// How the notes of a sequence are laid out.
#[derive(Clone, Copy, Debug, PartialEq, Eq, Structural)]
pub enum Style {
    Random,
    Arpeggio,
    Chords,
    Bassline,
    Drums,
    Melody,
}

/// What plays the notes of a sequence.
#[derive(Clone, Copy, Debug, PartialEq, Eq, Structural)]
pub struct Instrument {
    pub program: u8,
    pub base_octave: i8,
    pub is_drum: bool,
}

/// The piano.
pub open spec fn piano() -> Instrument {
    melodic(0, 0)
}

/// A melodic instrument.
pub open spec fn melodic(program: u8, base_octave: int) -> Instrument {
    Instrument { program, base_octave: base_octave as i8, is_drum: false }
}

/// The drum kit.
pub open spec fn drum_kit() -> Instrument {
    Instrument { program: 0, base_octave: 0, is_drum: true }
}

/// The instrument that is played where the prompt names none.
pub fn default_instrument() -> (instrument: Instrument)
    ensures
        instrument == piano(),
{
    Instrument { program: 0, base_octave: 0, is_drum: false }
}

/// The instrument that a word names.
pub open spec fn instrument_named(word: Seq<char>) -> Option<Instrument> {
    if word == "piano"@ || word == "keyboard"@ {
        Some(melodic(0, 0))
    } else if word == "guitar"@ || word == "acoustic"@ {
        Some(melodic(24, -1))
    } else if word == "electric"@ || word == "distortion"@ {
        Some(melodic(30, -1))
    } else if word == "bass"@ || word == "bassline"@ {
        Some(melodic(32, -2))
    } else if word == "drums"@ || word == "drum"@ || word == "percussion"@ {
        Some(drum_kit())
    } else if word == "strings"@ || word == "violin"@ || word == "cello"@ {
        Some(melodic(48, 0))
    } else if word == "synth"@ || word == "pad"@ || word == "lead"@ {
        Some(melodic(80, 0))
    } else if word == "organ"@ {
        Some(melodic(16, 0))
    } else if word == "brass"@ || word == "trumpet"@ || word == "trombone"@ {
        Some(melodic(56, 0))
    } else if word == "sax"@ || word == "saxophone"@ {
        Some(melodic(65, 0))
    } else if word == "flute"@ || word == "wind"@ {
        Some(melodic(73, 0))
    } else {
        None
    }
}

/// Finds the instrument that a word names.
pub fn instrument_from_keyword(word: &str) -> (instrument: Option<Instrument>)
    ensures
        instrument == instrument_named(word@),
{
    let (program, base_octave, is_drum): (u8, i8, bool) = if same_text(word, "piano") || same_text(
        word,
        "keyboard",
    ) {
        (0, 0, false)
    } else if same_text(word, "guitar") || same_text(word, "acoustic") {
        (24, -1, false)
    } else if same_text(word, "electric") || same_text(word, "distortion") {
        (30, -1, false)
    } else if same_text(word, "bass") || same_text(word, "bassline") {
        (32, -2, false)
    } else if same_text(word, "drums") || same_text(word, "drum") || same_text(word, "percussion") {
        (0, 0, true)
    } else if same_text(word, "strings") || same_text(word, "violin") || same_text(word, "cello") {
        (48, 0, false)
    } else if same_text(word, "synth") || same_text(word, "pad") || same_text(word, "lead") {
        (80, 0, false)
    } else if same_text(word, "organ") {
        (16, 0, false)
    } else if same_text(word, "brass") || same_text(word, "trumpet") || same_text(
        word,
        "trombone",
    ) {
        (56, 0, false)
    } else if same_text(word, "sax") || same_text(word, "saxophone") {
        (65, 0, false)
    } else if same_text(word, "flute") || same_text(word, "wind") {
        (73, 0, false)
    } else {
        return None;
    };
    Some(Instrument { program, base_octave, is_drum })
}

/// The style that a word names.
pub open spec fn style_named(word: Seq<char>) -> Option<Style> {
    if word == "arpeggio"@ || word == "arp"@ {
        Some(Style::Arpeggio)
    } else if word == "chords"@ || word == "chord"@ || word == "harmony"@ {
        Some(Style::Chords)
    } else if word == "bassline"@ || word == "bass"@ {
        Some(Style::Bassline)
    } else if word == "drums"@ || word == "drum"@ || word == "percussion"@ {
        Some(Style::Drums)
    } else if word == "melody"@ || word == "lead"@ || word == "solo"@ {
        Some(Style::Melody)
    } else {
        None
    }
}

/// Finds the style that a word names.
pub fn style_from_keyword(word: &str) -> (style: Option<Style>)
    ensures
        style == style_named(word@),
{
    if same_text(word, "arpeggio") || same_text(word, "arp") {
        Some(Style::Arpeggio)
    } else if same_text(word, "chords") || same_text(word, "chord") || same_text(word, "harmony") {
        Some(Style::Chords)
    } else if same_text(word, "bassline") || same_text(word, "bass") {
        Some(Style::Bassline)
    } else if same_text(word, "drums") || same_text(word, "drum") || same_text(word, "percussion") {
        Some(Style::Drums)
    } else if same_text(word, "melody") || same_text(word, "lead") || same_text(word, "solo") {
        Some(Style::Melody)
    } else {
        None
    }
}

/// The instrument that the first word at or after `at` names, or else the piano.
pub open spec fn first_instrument(words: Seq<Seq<char>>, at: int) -> Instrument
    decreases words.len() - at,
{
    if at < 0 || at >= words.len() {
        piano()
    } else {
        match instrument_named(words[at]) {
            Some(instrument) => instrument,
            None => first_instrument(words, at + 1),
        }
    }
}

/// The style that the first word at or after `at` names, or else a random one.
pub open spec fn first_style(words: Seq<Seq<char>>, at: int) -> Style
    decreases words.len() - at,
{
    if at < 0 || at >= words.len() {
        Style::Random
    } else {
        match style_named(words[at]) {
            Some(style) => style,
            None => first_style(words, at + 1),
        }
    }
}

/// Finds the instrument for a prompt and a style. Drums are played on the drum
/// kit.
pub fn detect_instrument(words: &Vec<String>, style: Style) -> (instrument: Instrument)
    ensures
        style == Style::Drums ==> instrument == drum_kit(),
        style != Style::Drums ==> instrument == first_instrument(views(words@), 0),
{
    if style == Style::Drums {
        return Instrument { program: 0, base_octave: 0, is_drum: true };
    }
    let ghost all = views(words@);
    let mut i: usize = 0;
    while i < words.len()
        invariant
            i <= words@.len(),
            all == views(words@),
            all.len() == words@.len(),
            style != Style::Drums,
            first_instrument(all, 0) == first_instrument(all, i as int),
        decreases words@.len() - i,
    {
        assert(all[i as int] == words@[i as int]@);
        if let Some(instrument) = instrument_from_keyword(words[i].as_str()) {
            return instrument;
        }
        i += 1;
    }
    default_instrument()
}

/// Finds the style for a prompt and an instrument. The drum kit plays drums.
pub fn detect_style(words: &Vec<String>, instrument: Instrument) -> (style: Style)
    ensures
        instrument.is_drum ==> style == Style::Drums,
        !instrument.is_drum ==> style == first_style(views(words@), 0),
{
    if instrument.is_drum {
        return Style::Drums;
    }
    let ghost all = views(words@);
    let mut i: usize = 0;
    while i < words.len()
        invariant
            i <= words@.len(),
            all == views(words@),
            all.len() == words@.len(),
            !instrument.is_drum,
            first_style(all, 0) == first_style(all, i as int),
        decreases words@.len() - i,
    {
        assert(all[i as int] == words@[i as int]@);
        if let Some(style) = style_from_keyword(words[i].as_str()) {
            return style;
        }
        i += 1;
    }
    Style::Random
}

/// The runs of characters that are not white space, in the first `n` characters:
/// those that have ended, and the one that has not.
pub open spec fn tokens_in(text: Seq<char>, n: int) -> (Seq<Seq<char>>, Seq<char>)
    decreases n,
{
    if n <= 0 {
        (Seq::empty(), Seq::empty())
    } else {
        let (done, current) = tokens_in(text, n - 1);
        let c = text[n - 1];
        if white_space(c) {
            (kept(done, current), Seq::empty())
        } else {
            (done, current.push(c))
        }
    }
}

/// A text cut at its white space.
pub open spec fn tokens_of(text: Seq<char>) -> Seq<Seq<char>> {
    let (done, current) = tokens_in(text, text.len() as int);
    kept(done, current)
}

/// The views of a list of character lists.
pub open spec fn char_views(list: Seq<Vec<char>>) -> Seq<Seq<char>> {
    list.map_values(|chars: Vec<char>| chars@)
}

/// Cuts a text at its white space.
fn split_tokens(text: &str) -> (tokens: Vec<Vec<char>>)
    ensures
        char_views(tokens@) == tokens_of(text@),
{
    let chars = chars_of(text);
    let mut tokens: Vec<Vec<char>> = Vec::new();
    let mut current: Vec<char> = Vec::new();
    let mut i: usize = 0;
    assert(char_views(tokens@) =~= Seq::empty());
    while i < chars.len()
        invariant
            i <= chars@.len(),
            chars@ == text@,
            (char_views(tokens@), current@) == tokens_in(text@, i as int),
        decreases chars@.len() - i,
    {
        let c: char = chars[i];
        if c.is_whitespace() {
            let ghost before = tokens@;
            let ghost piece = current@;
            if current.len() > 0 {
                tokens.push(current);
                assert(char_views(tokens@) =~= char_views(before).push(piece));
            }
            current = Vec::new();
            assert(current@ =~= Seq::empty());
        } else {
            current.push(c);
        }
        i += 1;
    }
    if current.len() > 0 {
        let ghost before = tokens@;
        let ghost piece = current@;
        tokens.push(current);
        assert(char_views(tokens@) =~= char_views(before).push(piece));
    }
    tokens
}

/// A diatonic scale rooted at a MIDI pitch.
#[derive(Clone, Copy, Debug, PartialEq, Eq, Structural)]
pub struct Scale {
    pub root: u8,
    pub minor: bool,
}

/// The semitones from the root to a degree below seven of the major or the minor
/// scale.
pub open spec fn interval(minor: bool, degree: int) -> int {
    if degree == 0 {
        0
    } else if degree == 1 {
        2
    } else if degree == 2 {
        if minor {
            3
        } else {
            4
        }
    } else if degree == 3 {
        5
    } else if degree == 4 {
        7
    } else if degree == 5 {
        if minor {
            8
        } else {
            9
        }
    } else {
        if minor {
            10
        } else {
            11
        }
    }
}

/// `n` brought into the range of MIDI pitches.
pub open spec fn clamped_pitch(n: int) -> int {
    if n < 0 {
        0
    } else if n > 127 {
        127
    } else {
        n
    }
}

impl Scale {
    /// The scale on a root.
    pub fn new(root: u8, minor: bool) -> (scale: Scale)
        ensures
            scale == (Scale { root, minor }),
    {
        Scale { root, minor }
    }

    /// The pitch of a degree, so many octaves away from the root. Degrees repeat
    /// after the seventh.
    pub open spec fn pitch_of(self, degree: int, octave_offset: int) -> int {
        clamped_pitch(self.root + 12 * octave_offset + interval(self.minor, degree % 7))
    }

    /// Finds the pitch of a degree.
    pub fn pitch(&self, degree: usize, octave_offset: i8) -> (pitch: u8)
        ensures
            pitch == self.pitch_of(degree as int, octave_offset as int),
            pitch <= 127,
    {
        let major: [i16; 7] = [0, 2, 4, 5, 7, 9, 11];
        let minor: [i16; 7] = [0, 2, 3, 5, 7, 8, 10];
        let step: i16 = if self.minor {
            minor[degree % 7]
        } else {
            major[degree % 7]
        };
        let pitch: i16 = self.root as i16 + octave_offset as i16 * 12 + step;
        if pitch < 0 {
            0
        } else if pitch > 127 {
            127
        } else {
            pitch as u8
        }
    }
}

/// The semitones from C to a note letter.
pub open spec fn letter_semitone(letter: char) -> Option<int> {
    if letter == 'C' {
        Some(0)
    } else if letter == 'D' {
        Some(2)
    } else if letter == 'E' {
        Some(4)
    } else if letter == 'F' {
        Some(5)
    } else if letter == 'G' {
        Some(7)
    } else if letter == 'A' {
        Some(9)
    } else if letter == 'B' {
        Some(11)
    } else {
        None
    }
}

/// The semitones that an accidental adds.
pub open spec fn accidental_semitone(text: Seq<char>) -> Option<int> {
    if text == ""@ || text == "natural"@ {
        Some(0)
    } else if text == "#"@ || text == "sharp"@ {
        Some(1)
    } else if text == "b"@ || text == "flat"@ || text == "♭"@ {
        Some(-1)
    } else {
        None
    }
}

/// The MIDI pitch that a note name spells, in the octave from middle C on: a
/// letter and an accidental.
pub open spec fn root_named(text: Seq<char>) -> Option<u8> {
    if text.len() == 0 {
        None
    } else {
        match (letter_semitone(upper(text[0])), accidental_semitone(text.skip(1))) {
            (Some(semitone), Some(offset)) => Some((60 + (semitone + offset) % 12) as u8),
            _ => None,
        }
    }
}

/// Reads a note name.
pub fn parse_root(text: &str) -> (root: Option<u8>)
    ensures
        root == root_named(text@),
{
    let chars = chars_of(text);
    if chars.len() == 0 {
        return None;
    }
    let letter: char = to_upper(chars[0]);
    let rest = string_of(vstd::slice::slice_subrange(chars.as_slice(), 1, chars.len()));
    assert(rest@ =~= text@.skip(1));
    let semitone: i16 = if letter == 'C' {
        0
    } else if letter == 'D' {
        2
    } else if letter == 'E' {
        4
    } else if letter == 'F' {
        5
    } else if letter == 'G' {
        7
    } else if letter == 'A' {
        9
    } else if letter == 'B' {
        11
    } else {
        return None;
    };
    let accidental = rest.as_str();
    let offset: i16 = if same_text(accidental, "") || same_text(accidental, "natural") {
        0
    } else if same_text(accidental, "#") || same_text(accidental, "sharp") {
        1
    } else if same_text(accidental, "b") || same_text(accidental, "flat") || same_text(
        accidental,
        "♭",
    ) {
        -1
    } else {
        return None;
    };
    let sum: i16 = semitone + offset;
    let wrapped: i16 = if sum < 0 {
        sum + 12
    } else if sum >= 12 {
        sum - 12
    } else {
        sum
    };
    Some((60 + wrapped) as u8)
}

/// Whether a mode is minor, where a text names one.
pub open spec fn mode_named(text: Seq<char>) -> Option<bool> {
    let mode = lowered(text);
    if mode == "minor"@ || mode == "min"@ {
        Some(true)
    } else if mode == "major"@ || mode == "maj"@ {
        Some(false)
    } else {
        None
    }
}

/// The scale that a note name and a mode spell.
pub open spec fn scale_of(root: Seq<char>, mode: Seq<char>) -> Option<Scale> {
    match (root_named(root), mode_named(mode)) {
        (Some(root), Some(minor)) => Some(Scale { root, minor }),
        _ => None,
    }
}

/// The scale that a text spells: a note name and a mode, around white space. What
/// follows them does not matter.
pub open spec fn scale_named(text: Seq<char>) -> Option<Scale> {
    let tokens = tokens_of(text);
    if tokens.len() < 2 {
        None
    } else {
        scale_of(tokens[0], tokens[1])
    }
}

/// Reads a scale from a note name and a mode.
fn read_scale(root: &Vec<char>, mode: &Vec<char>) -> (scale: Option<Scale>)
    ensures
        scale == scale_of(root@, mode@),
{
    let mut small: Vec<char> = Vec::new();
    let mut i: usize = 0;
    while i < mode.len()
        invariant
            i <= mode@.len(),
            small@ == lowered(mode@).take(i as int),
        decreases mode@.len() - i,
    {
        small.push(to_lower(mode[i]));
        i += 1;
        assert(small@ =~= lowered(mode@).take(i as int));
    }
    assert(small@ =~= lowered(mode@));
    let mode_text = string_of(small.as_slice());
    let minor: bool = same_text(mode_text.as_str(), "minor") || same_text(
        mode_text.as_str(),
        "min",
    );
    if !minor && !same_text(mode_text.as_str(), "major") && !same_text(mode_text.as_str(), "maj") {
        return None;
    }
    let root_text = string_of(root.as_slice());
    match parse_root(root_text.as_str()) {
        Some(root) => Some(Scale::new(root, minor)),
        None => None,
    }
}

/// Reads a scale.
pub fn parse_key_scale(text: &str) -> (scale: Option<Scale>)
    ensures
        scale == scale_named(text@),
{
    let tokens = split_tokens(text);
    let ghost all = tokens_of(text@);
    assert(all.len() == tokens@.len());
    if tokens.len() < 2 {
        return None;
    }
    assert(all[0] == tokens@[0]@);
    assert(all[1] == tokens@[1]@);
    read_scale(&tokens[0], &tokens[1])
}

/// The character stands between the hints of a prompt.
pub open spec fn separates(c: char) -> bool {
    white_space(c) || c == ',' || c == ';' || c == ':' || c == '.' || c == '!' || c == '?' || c
        == '(' || c == ')'
}

/// A prompt with a space for every character that stands between its hints.
pub open spec fn spaced(prompt: Seq<char>) -> Seq<char> {
    prompt.map_values(
        |c: char|
            if separates(c) {
                ' '
            } else {
                c
            },
    )
}

/// The hints of a prompt: what stands between its separators.
pub open spec fn hints_of(prompt: Seq<char>) -> Seq<Seq<char>> {
    tokens_of(spaced(prompt))
}

/// The scale that the first two hints in a row, at or after `at`, spell.
pub open spec fn hinted_scale(hints: Seq<Seq<char>>, at: int) -> Option<Scale>
    decreases hints.len() - at,
{
    if at < 0 || at + 1 >= hints.len() {
        None
    } else {
        match scale_of(hints[at], hints[at + 1]) {
            Some(scale) => Some(scale),
            None => hinted_scale(hints, at + 1),
        }
    }
}

/// The time signature that the first hint at or after `at` spells.
pub open spec fn hinted_signature(hints: Seq<Seq<char>>, at: int) -> Option<TimeSignature>
    decreases hints.len() - at,
{
    if at < 0 || at >= hints.len() {
        None
    } else {
        match signature_named(hints[at]) {
            Some(signature) => Some(signature),
            None => hinted_signature(hints, at + 1),
        }
    }
}

/// The key of a sequence: the given one, and where none is given the one that the
/// prompt names; C major where neither can be read.
pub open spec fn key_of(prompt: Seq<char>, given: Option<Seq<char>>) -> Scale {
    let named = match given {
        Some(text) => scale_named(text),
        None => hinted_scale(hints_of(prompt), 0),
    };
    match named {
        Some(scale) => scale,
        None => Scale { root: 60, minor: false },
    }
}

/// The time signature of a sequence: the given one, and where none is given the one
/// that the prompt names; none where it cannot be read.
pub open spec fn meter_of(prompt: Seq<char>, given: Option<Seq<char>>) -> Option<TimeSignature> {
    match given {
        Some(text) => signature_named(text),
        None => hinted_signature(hints_of(prompt), 0),
    }
}

/// The beats of a bar and the note value of a beat: 4/4 where there is no signature.
pub open spec fn beats_of(meter: Option<TimeSignature>) -> (u8, u8) {
    match meter {
        Some(signature) => (signature.numerator, signature.denominator),
        None => (4, 4),
    }
}

/// Cuts a prompt into its hints.
fn split_hints(prompt: &str) -> (hints: Vec<Vec<char>>)
    ensures
        char_views(hints@) == hints_of(prompt@),
{
    let chars = chars_of(prompt);
    let mut clear: Vec<char> = Vec::new();
    let mut i: usize = 0;
    while i < chars.len()
        invariant
            i <= chars@.len(),
            chars@ == prompt@,
            clear@ == spaced(prompt@).take(i as int),
        decreases chars@.len() - i,
    {
        let c: char = chars[i];
        if c.is_whitespace() || c == ',' || c == ';' || c == ':' || c == '.' || c == '!' || c == '?'
            || c == '(' || c == ')' {
            clear.push(' ');
        } else {
            clear.push(c);
        }
        i += 1;
        assert(clear@ =~= spaced(prompt@).take(i as int));
    }
    assert(clear@ =~= spaced(prompt@));
    split_tokens(string_of(clear.as_slice()).as_str())
}

/// Finds the key of a sequence.
pub fn detect_key(prompt: &str, key_scale: Option<&str>) -> (scale: Scale)
    ensures
        scale == key_of(prompt@, optional_text(key_scale)),
{
    if let Some(text) = key_scale {
        return match parse_key_scale(text) {
            Some(scale) => scale,
            None => Scale::new(60, false),
        };
    }
    let hints = split_hints(prompt);
    let ghost all = hints_of(prompt@);
    assert(all.len() == hints@.len());
    let count: usize = hints.len();
    let mut i: usize = 0;
    while i < count && count - i > 1
        invariant
            count == hints@.len(),
            i <= count,
            all == char_views(hints@),
            all == hints_of(prompt@),
            key_scale is None,
            hinted_scale(all, 0) == hinted_scale(all, i as int),
        decreases count - i,
    {
        assert(all[i as int] == hints@[i as int]@);
        assert(all[i + 1] == hints@[i + 1]@);
        if let Some(scale) = read_scale(&hints[i], &hints[i + 1]) {
            return scale;
        }
        i += 1;
    }
    Scale::new(60, false)
}

/// Finds the time signature of a sequence.
pub fn detect_meter(prompt: &str, time_signature: Option<&str>) -> (meter: Option<TimeSignature>)
    ensures
        meter == meter_of(prompt@, optional_text(time_signature)),
        meter is Some ==> meter->0.numerator > 0 && meter->0.denominator > 0,
{
    if let Some(text) = time_signature {
        return TimeSignature::parse(text);
    }
    let hints = split_hints(prompt);
    let ghost all = hints_of(prompt@);
    assert(all.len() == hints@.len());
    let mut i: usize = 0;
    while i < hints.len()
        invariant
            i <= hints@.len(),
            all == char_views(hints@),
            all == hints_of(prompt@),
            time_signature is None,
            hinted_signature(all, 0) == hinted_signature(all, i as int),
        decreases hints@.len() - i,
    {
        assert(all[i as int] == hints@[i as int]@);
        let text = string_of(hints[i].as_slice());
        if let Some(signature) = TimeSignature::parse(text.as_str()) {
            return Some(signature);
        }
        i += 1;
    }
    None
}

/// What is given explicitly counts, whatever the prompt names.
pub proof fn lemma_given_counts(a: Seq<char>, b: Seq<char>, key: Seq<char>, signature: Seq<char>)
    ensures
        key_of(a, Some(key)) == key_of(b, Some(key)),
        meter_of(a, Some(signature)) == meter_of(b, Some(signature)),
{
}

/// The time signature of a sequence: the given one where it can be read, and 4/4
/// otherwise.
pub open spec fn signature_or_common(text: Option<Seq<char>>) -> (u8, u8) {
    match text {
        None => (4, 4),
        Some(text) => match signature_named(text) {
            Some(signature) => (signature.numerator, signature.denominator),
            None => (4, 4),
        },
    }
}

/// A text that may be missing.
pub open spec fn optional_text(text: Option<&str>) -> Option<Seq<char>> {
    match text {
        Some(text) => Some(text@),
        None => None,
    }
}

/// Reads the time signature of a sequence.
pub fn parse_time_signature(text: Option<&str>) -> (signature: (u8, u8))
    ensures
        signature == signature_or_common(optional_text(text)),
        signature.0 > 0,
        signature.1 > 0,
{
    match text {
        None => (4, 4),
        Some(text) => match TimeSignature::parse(text) {
            Some(signature) => (signature.numerator, signature.denominator),
            None => (4, 4),
        },
    }
}

/// A named scale keeps its root within an octave of middle C.
pub proof fn lemma_root_range(text: Seq<char>)
    ensures
        root_named(text) is Some ==> 60 <= root_named(text)->0 < 72,
{
}

} // verus!
