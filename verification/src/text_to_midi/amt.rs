//! Arrival-time tokens of the Anticipatory Music Transformer (AMT): a note event
//! is a triplet of an onset, a duration and an instrument with a pitch.

use vstd::prelude::*;

verus! {

/// Time resolution: 100 bins per second (10 ms per bin).
pub const TIME_RESOLUTION: u32 = 100;

/// Maximum sequence length in seconds.
pub const MAX_TIME_IN_SECONDS: u32 = 100;

/// Maximum note duration in seconds.
pub const MAX_DURATION_IN_SECONDS: u32 = 10;

/// Number of MIDI pitch values.
pub const MAX_PITCH: u32 = 128;

/// Number of MIDI instruments (128 melodic and one drum kit).
pub const MAX_INSTR: u32 = 129;

/// Maximum onset time in ticks.
pub const MAX_TIME: u32 = 10_000;

/// Maximum duration in ticks.
pub const MAX_DUR: u32 = 1_000;

/// Number of distinct combinations of an instrument and a pitch.
pub const MAX_NOTE: u32 = 16_512;

/// The first onset token.
pub const TIME_OFFSET: u32 = 0;

/// The first duration token.
pub const DUR_OFFSET: u32 = 10_000;

/// The first note token.
pub const NOTE_OFFSET: u32 = 11_000;

/// The rest token.
pub const REST: u32 = 27_512;

/// The first anticipated (control) token.
pub const CONTROL_OFFSET: u32 = 27_513;

/// The first anticipated onset token.
pub const ATIME_OFFSET: u32 = 27_513;

/// The first anticipated duration token.
pub const ADUR_OFFSET: u32 = 37_513;

/// The first anticipated note token.
pub const ANOTE_OFFSET: u32 = 38_513;

/// The first special token.
pub const SPECIAL_OFFSET: u32 = 55_025;

/// The separator of sequences.
pub const SEPARATOR: u32 = 55_025;

/// Marks a sequence without anticipation.
pub const AUTOREGRESS: u32 = 55_026;

/// Marks a sequence with anticipation.
pub const ANTICIPATE: u32 = 55_027;

/// Total size of the vocabulary.
pub const VOCAB_SIZE: u32 = 55_028;

/// The vocabulary is laid out without gaps: each range of tokens starts where
/// the one before it ends.
pub proof fn lemma_vocabulary_layout()
    ensures
        MAX_TIME == TIME_RESOLUTION * MAX_TIME_IN_SECONDS,
        MAX_DUR == TIME_RESOLUTION * MAX_DURATION_IN_SECONDS,
        MAX_NOTE == MAX_PITCH * MAX_INSTR,
        DUR_OFFSET == TIME_OFFSET + MAX_TIME,
        NOTE_OFFSET == DUR_OFFSET + MAX_DUR,
        REST == NOTE_OFFSET + MAX_NOTE,
        CONTROL_OFFSET == REST + 1,
        ATIME_OFFSET == CONTROL_OFFSET,
        ADUR_OFFSET == ATIME_OFFSET + MAX_TIME,
        ANOTE_OFFSET == ADUR_OFFSET + MAX_DUR,
        SPECIAL_OFFSET == ANOTE_OFFSET + MAX_NOTE,
        SEPARATOR == SPECIAL_OFFSET,
        AUTOREGRESS == SPECIAL_OFFSET + 1,
        ANTICIPATE == SPECIAL_OFFSET + 2,
        VOCAB_SIZE == ANTICIPATE + 1,
{
}

/// A decoded note event.
#[derive(Clone, Copy, Debug, PartialEq, Eq, Structural)]
pub struct AmtEvent {
    /// Onset time in ticks (10 ms per tick).
    pub time: u32,
    /// Duration in ticks.
    pub duration: u32,
    /// The instrument and the pitch: `MAX_PITCH` pitches per instrument.
    pub note_id: u32,
}

impl AmtEvent {
    /// Every part of the event has a token of its own.
    pub open spec fn in_range(self) -> bool {
        self.time < MAX_TIME && self.duration < MAX_DUR && self.note_id < MAX_NOTE
    }

    /// Instrument index (0..128 melodic, 128 drums).
    pub fn instrument(&self) -> (index: u8)
        ensures
            index == (self.note_id / MAX_PITCH) as u8,
            self.note_id < MAX_NOTE ==> index == self.note_id / MAX_PITCH && index < MAX_INSTR,
    {
        (self.note_id / MAX_PITCH) as u8
    }

    /// MIDI pitch (0..127).
    pub fn pitch(&self) -> (pitch: u8)
        ensures
            pitch == self.note_id % MAX_PITCH,
    {
        (self.note_id % MAX_PITCH) as u8
    }
}

/// `token` is a regular onset token.
pub open spec fn is_time(token: u32) -> bool {
    token < DUR_OFFSET
}

/// `token` is a regular duration token.
pub open spec fn is_duration(token: u32) -> bool {
    DUR_OFFSET <= token < NOTE_OFFSET
}

/// `token` is a regular note token.
pub open spec fn is_note(token: u32) -> bool {
    NOTE_OFFSET <= token < REST
}

/// `token` is an anticipated token.
pub open spec fn is_control(token: u32) -> bool {
    CONTROL_OFFSET <= token < SPECIAL_OFFSET
}

/// `token` is a special token.
pub open spec fn is_special(token: u32) -> bool {
    token >= SPECIAL_OFFSET
}

/// Whether `token` is a regular (non-control, non-special) time token.
pub fn is_time_token(token: u32) -> (answer: bool)
    ensures
        answer == is_time(token),
{
    token < DUR_OFFSET
}

/// Whether `token` is a regular duration token.
pub fn is_duration_token(token: u32) -> (answer: bool)
    ensures
        answer == is_duration(token),
{
    token >= DUR_OFFSET && token < NOTE_OFFSET
}

/// Whether `token` is a regular instrument-pitch token.
pub fn is_note_token(token: u32) -> (answer: bool)
    ensures
        answer == is_note(token),
{
    token >= NOTE_OFFSET && token < REST
}

/// Whether `token` is the rest token.
pub fn is_rest_token(token: u32) -> (answer: bool)
    ensures
        answer == (token == REST),
{
    token == REST
}

/// Whether `token` is a control/anticipated token.
pub fn is_control_token(token: u32) -> (answer: bool)
    ensures
        answer == is_control(token),
{
    token >= CONTROL_OFFSET && token < SPECIAL_OFFSET
}

/// Whether `token` is one of the special tokens.
pub fn is_special_token(token: u32) -> (answer: bool)
    ensures
        answer == is_special(token),
{
    token >= SPECIAL_OFFSET
}

/// Every token is of exactly one kind.
pub proof fn lemma_token_kinds(token: u32)
    ensures
        is_time(token) || is_duration(token) || is_note(token) || token == REST || is_control(token)
            || is_special(token),
        is_time(token) ==> !is_duration(token) && !is_note(token) && token != REST && !is_control(
            token,
        ) && !is_special(token),
        is_duration(token) ==> !is_note(token) && token != REST && !is_control(token)
            && !is_special(token),
        is_note(token) ==> token != REST && !is_control(token) && !is_special(token),
        token == REST ==> !is_control(token) && !is_special(token),
        is_control(token) ==> !is_special(token),
{
}

/// The smaller of two numbers.
pub open spec fn least(a: u32, b: u32) -> u32 {
    if a <= b {
        a
    } else {
        b
    }
}

/// The event with each part reduced to the largest value that has a token.
pub open spec fn clamped(event: AmtEvent) -> AmtEvent {
    AmtEvent {
        time: least(event.time, 9_999),
        duration: least(event.duration, 999),
        note_id: least(event.note_id, 16_511),
    }
}

/// The triplet of an event.
pub open spec fn triplet(event: AmtEvent) -> Seq<u32> {
    let e = clamped(event);
    seq![
        (TIME_OFFSET + e.time) as u32,
        (DUR_OFFSET + e.duration) as u32,
        (NOTE_OFFSET + e.note_id) as u32,
    ]
}

/// Encodes a single event as a token triplet.
pub fn encode_event(event: &AmtEvent) -> (tokens: [u32; 3])
    ensures
        tokens@ == triplet(*event),
{
    let time: u32 = if event.time <= MAX_TIME - 1 {
        event.time
    } else {
        MAX_TIME - 1
    };
    let duration: u32 = if event.duration <= MAX_DUR - 1 {
        event.duration
    } else {
        MAX_DUR - 1
    };
    let note_id: u32 = if event.note_id <= MAX_NOTE - 1 {
        event.note_id
    } else {
        MAX_NOTE - 1
    };
    let tokens: [u32; 3] = [TIME_OFFSET + time, DUR_OFFSET + duration, NOTE_OFFSET + note_id];
    assert(tokens@ =~= triplet(*event));
    tokens
}

/// The event of three tokens; `None` where they do not describe a regular note
/// event (such as rests, separators or control tokens).
pub open spec fn decoded(time: u32, duration: u32, note: u32) -> Option<AmtEvent> {
    if is_time(time) && is_duration(duration) && is_note(note) {
        Some(
            AmtEvent {
                time: (time - TIME_OFFSET) as u32,
                duration: (duration - DUR_OFFSET) as u32,
                note_id: (note - NOTE_OFFSET) as u32,
            },
        )
    } else {
        None
    }
}

/// Decodes a single token triplet into an event.
///
/// Returns `None` for triplets that do not describe a regular note event
/// (e.g. rests, separators, or control tokens).
pub fn decode_event_triplet(tokens: [u32; 3]) -> (event: Option<AmtEvent>)
    ensures
        event == decoded(tokens@[0], tokens@[1], tokens@[2]),
{
    let time_tok: u32 = tokens[0];
    let dur_tok: u32 = tokens[1];
    let note_tok: u32 = tokens[2];
    if !is_time_token(time_tok) || !is_duration_token(dur_tok) || !is_note_token(note_tok) {
        return None;
    }
    Some(
        AmtEvent {
            time: time_tok - TIME_OFFSET,
            duration: dur_tok - DUR_OFFSET,
            note_id: note_tok - NOTE_OFFSET,
        },
    )
}

/// The events of the first `n` whole triplets, those that are none left out.
pub open spec fn events_of(tokens: Seq<u32>, n: int) -> Seq<AmtEvent>
    decreases n,
{
    if n <= 0 {
        Seq::empty()
    } else {
        let before = events_of(tokens, n - 1);
        match decoded(tokens[3 * n - 3], tokens[3 * n - 2], tokens[3 * n - 1]) {
            Some(event) => before.push(event),
            None => before,
        }
    }
}

/// Converts a flat token sequence into note events, skipping non-event tokens
/// and what is left over at the end.
pub fn tokens_to_events(tokens: &[u32]) -> (events: Vec<AmtEvent>)
    ensures
        events@ == events_of(tokens@, tokens@.len() as int / 3),
{
    let mut events: Vec<AmtEvent> = Vec::new();
    let total: usize = tokens.len();
    let count: usize = total / 3;
    let mut n: usize = 0;
    while n < count
        invariant
            n <= count,
            total == tokens@.len(),
            count == total / 3,
            events@ == events_of(tokens@, n as int),
        decreases count - n,
    {
        let i: usize = 3 * n;
        let three: [u32; 3] = [tokens[i], tokens[i + 1], tokens[i + 2]];
        if let Some(event) = decode_event_triplet(three) {
            events.push(event);
        }
        n += 1;
    }
    events
}

/// The tokens of the first `n` events.
pub open spec fn tokens_of(events: Seq<AmtEvent>, n: int) -> Seq<u32>
    decreases n,
{
    if n <= 0 {
        Seq::empty()
    } else {
        tokens_of(events, n - 1) + triplet(events[n - 1])
    }
}

/// Converts note events into a flat token sequence.
pub fn events_to_tokens(events: &[AmtEvent]) -> (tokens: Vec<u32>)
    ensures
        tokens@ == tokens_of(events@, events@.len() as int),
        tokens@.len() == 3 * events@.len(),
{
    let mut tokens: Vec<u32> = Vec::new();
    let mut n: usize = 0;
    while n < events.len()
        invariant
            n <= events@.len(),
            tokens@ == tokens_of(events@, n as int),
            tokens@.len() == 3 * n,
        decreases events@.len() - n,
    {
        let three = encode_event(&events[n]);
        tokens.push(three[0]);
        tokens.push(three[1]);
        tokens.push(three[2]);
        assert(tokens@ =~= tokens_of(events@, n as int) + triplet(events@[n as int]));
        n += 1;
    }
    tokens
}

/// Ends a logical sequence with a separator triplet.
pub fn with_separator(tokens: &mut Vec<u32>)
    ensures
        final(tokens)@ == old(tokens)@ + seq![SEPARATOR, SEPARATOR, SEPARATOR],
{
    tokens.push(SEPARATOR);
    tokens.push(SEPARATOR);
    tokens.push(SEPARATOR);
    assert(tokens@ =~= old(tokens)@ + seq![SEPARATOR, SEPARATOR, SEPARATOR]);
}

/// Decoding what was encoded gives the event back, with each part reduced to the
/// largest value that has a token; an event in range comes back as it was.
pub proof fn lemma_round_trip(event: AmtEvent)
    ensures
        decoded(triplet(event)[0], triplet(event)[1], triplet(event)[2]) == Some(clamped(event)),
        event.in_range() ==> clamped(event) == event,
{
}

/// Encoding what was decoded gives the tokens back.
pub proof fn lemma_round_trip_tokens(time: u32, duration: u32, note: u32)
    requires
        decoded(time, duration, note) is Some,
    ensures
        triplet(decoded(time, duration, note)->0) == seq![time, duration, note],
        decoded(time, duration, note)->0.in_range(),
{
    assert(triplet(decoded(time, duration, note)->0) =~= seq![time, duration, note]);
}

/// The tokens of events decode into those events, each reduced into range.
pub proof fn lemma_round_trip_sequence(events: Seq<AmtEvent>, n: int)
    requires
        0 <= n <= events.len(),
    ensures
        tokens_of(events, n).len() == 3 * n,
        events_of(tokens_of(events, n), n) == Seq::new(n as nat, |i: int| clamped(events[i])),
    decreases n,
{
    if n > 0 {
        lemma_round_trip_sequence(events, n - 1);
        let before = tokens_of(events, n - 1);
        let all = tokens_of(events, n);
        lemma_events_prefix(before, all, n - 1);
        assert(all[3 * n - 3] == triplet(events[n - 1])[0]);
        assert(all[3 * n - 2] == triplet(events[n - 1])[1]);
        assert(all[3 * n - 1] == triplet(events[n - 1])[2]);
        lemma_round_trip(events[n - 1]);
    }
    assert(events_of(tokens_of(events, n), n) =~= Seq::new(
        n as nat,
        |i: int| clamped(events[i]),
    ));
}

/// The events of the first triplets depend on those triplets alone.
proof fn lemma_events_prefix(a: Seq<u32>, b: Seq<u32>, n: int)
    requires
        0 <= n,
        3 * n <= a.len(),
        3 * n <= b.len(),
        forall|i: int| 0 <= i < 3 * n ==> #[trigger] a[i] == b[i],
    ensures
        events_of(a, n) == events_of(b, n),
    decreases n,
{
    if n > 0 {
        lemma_events_prefix(a, b, n - 1);
        assert(a[3 * n - 3] == b[3 * n - 3]);
        assert(a[3 * n - 2] == b[3 * n - 2]);
        assert(a[3 * n - 1] == b[3 * n - 1]);
    }
}

/// A separator after whole triplets adds no event.
pub proof fn lemma_separator_is_silent(tokens: Seq<u32>, n: int)
    requires
        0 <= n,
        tokens.len() == 3 * n,
    ensures
        events_of(tokens + seq![SEPARATOR, SEPARATOR, SEPARATOR], n + 1) == events_of(tokens, n),
{
    let all = tokens + seq![SEPARATOR, SEPARATOR, SEPARATOR];
    lemma_events_prefix(tokens, all, n);
    assert(all[3 * (n + 1) - 3] == SEPARATOR);
}

/// Every decoded event has a duration, an onset and a note within their ranges.
pub proof fn lemma_events_in_range(tokens: Seq<u32>, n: int)
    ensures
        forall|i: int|
            0 <= i < events_of(tokens, n).len() ==> (#[trigger] events_of(tokens, n)[i]).in_range(),
    decreases n,
{
    if n > 0 {
        lemma_events_in_range(tokens, n - 1);
        let before = events_of(tokens, n - 1);
        let all = events_of(tokens, n);
        assert forall|i: int| 0 <= i < all.len() implies (#[trigger] all[i]).in_range() by {
            if i < before.len() {
                assert(all[i] == before[i]);
            }
        }
    }
}

} // verus!
