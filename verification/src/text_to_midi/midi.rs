//! Note events as a Standard MIDI File with a single track.

use midly::{Format, Header, MetaMessage, MidiMessage, Timing, TrackEventKind};
use vstd::prelude::*;
use vstd::std_specs::bits::u8_trailing_zeros;

use crate::single::Single;
use crate::text::{chars_of, parse_unsigned, string_of, trim, trimmed, unsigned_number};
use crate::text_to_midi::amt::{AmtEvent, MAX_PITCH};
use crate::text_to_midi::timing::{
    amt_ticks_to_midi_ticks, midi_ticks, tempo_microseconds, tempo_us_from_bpm,
};

verus! {

/// Ticks per quarter note.
pub const PPQ: u16 = 480;

/// The velocity of generated notes.
pub const DEFAULT_VELOCITY: u8 = 84;

/// The instrument index of the drum kit.
pub const DRUMS: u8 = 128;

/// The channel of the drum kit.
pub const DRUM_CHANNEL: u8 = 9;

/// A time signature.
#[derive(Clone, Copy, Debug, Default, PartialEq, Eq, Structural)]
pub struct TimeSignature {
    pub numerator: u8,
    pub denominator: u8,
}

/// Where the first `c` stands in `text`.
pub open spec fn first_index(text: Seq<char>, c: char, from: int) -> Option<int>
    decreases text.len() - from,
{
    if from < 0 || from >= text.len() {
        None
    } else if text[from] == c {
        Some(from)
    } else {
        first_index(text, c, from + 1)
    }
}

/// The time signature that `text` spells as `N/D`: two whole numbers that fit in
/// a byte and are not zero, around the first slash, with or without white space.
pub open spec fn signature_named(text: Seq<char>) -> Option<TimeSignature> {
    match first_index(text, '/', 0) {
        None => None,
        Some(at) => {
            let upper = unsigned_number(trimmed(text.take(at)), 255);
            let lower = unsigned_number(trimmed(text.skip(at + 1)), 255);
            if upper is None || lower is None || upper->0 == 0 || lower->0 == 0 {
                None
            } else {
                Some(
                    TimeSignature { numerator: upper->0 as u8, denominator: lower->0 as u8 },
                )
            }
        },
    }
}

/// Finds the first `c` in a text.
fn find_char(chars: &Vec<char>, c: char) -> (at: Option<usize>)
    ensures
        match first_index(chars@, c, 0) {
            Some(i) => at is Some && at->0 == i && i < chars@.len(),
            None => at is None,
        },
{
    let mut i: usize = 0;
    while i < chars.len()
        invariant
            i <= chars@.len(),
            first_index(chars@, c, 0) == first_index(chars@, c, i as int),
        decreases chars@.len() - i,
    {
        if chars[i] == c {
            return Some(i);
        }
        i += 1;
    }
    None
}

impl TimeSignature {
    /// Parses "N/D" (e.g. "4/4", "6/8").
    pub fn parse(text: &str) -> (signature: Option<TimeSignature>)
        ensures
            signature == signature_named(text@),
            signature is Some ==> signature->0.numerator > 0 && signature->0.denominator > 0,
    {
        let chars = chars_of(text);
        let len: usize = chars.len();
        let at: usize = match find_char(&chars, '/') {
            Some(at) => at,
            None => {
                return None;
            },
        };
        let left = string_of(vstd::slice::slice_subrange(chars.as_slice(), 0, at));
        let right = string_of(vstd::slice::slice_subrange(chars.as_slice(), at + 1, len));
        assert(left@ =~= text@.take(at as int));
        assert(right@ =~= text@.skip(at + 1));
        let upper = parse_unsigned(trim(left.as_str()).as_slice(), 255);
        let lower = parse_unsigned(trim(right.as_str()).as_slice(), 255);
        match (upper, lower) {
            (Some(numerator), Some(denominator)) => {
                if numerator == 0 || denominator == 0 {
                    None
                } else {
                    Some(
                        TimeSignature {
                            numerator: numerator as u8,
                            denominator: denominator as u8,
                        },
                    )
                }
            },
            _ => None,
        }
    }
}

/// A message about the file.
#[derive(Clone, Copy, Debug, PartialEq, Eq, Structural)]
pub enum Meta {
    /// Microseconds per quarter note.
    Tempo(u32),
    /// The numerator, the power of two of the denominator, the MIDI clocks per
    /// click and the thirty-second notes per quarter note.
    TimeSignature(u8, u8, u8, u8),
    EndOfTrack,
}

/// A message to a channel.
#[derive(Clone, Copy, Debug, PartialEq, Eq, Structural)]
pub enum Voice {
    Program(u8),
    /// A key and a velocity.
    NoteOn(u8, u8),
    /// A key and a velocity.
    NoteOff(u8, u8),
}

/// A message of a track.
#[derive(Clone, Copy, Debug, PartialEq, Eq, Structural)]
pub enum Message {
    Meta(Meta),
    /// A channel and what it is told.
    Voice(u8, Voice),
}

/// A message, so many ticks after the one before it.
#[derive(Clone, Copy, Debug, PartialEq, Eq, Structural)]
pub struct TrackEvent {
    pub delta: u32,
    pub message: Message,
}

impl Meta {
    /// Every part fits into the bits that a MIDI file has for it.
    pub open spec fn fits(self) -> bool {
        match self {
            Meta::Tempo(us) => us < 0x100_0000,
            _ => true,
        }
    }
}

impl Voice {
    /// Every part fits into the bits that a MIDI file has for it.
    pub open spec fn fits(self) -> bool {
        match self {
            Voice::Program(program) => program < 128,
            Voice::NoteOn(key, velocity) => key < 128 && velocity < 128,
            Voice::NoteOff(key, velocity) => key < 128 && velocity < 128,
        }
    }
}

/// The MIDI file of the `midly` crate.
#[verifier::external_type_specification]
#[verifier::external_body]
pub struct ExSmf<'a>(midly::Smf<'a>);

/// The tracks of a MIDI file.
pub uninterp spec fn file_tracks(file: midly::Smf<'static>) -> Seq<Seq<TrackEvent>>;

/// The words that the header of a MIDI file holds besides the number of tracks:
/// the format, and the ticks per quarter note.
pub uninterp spec fn file_header(file: midly::Smf<'static>) -> Seq<u16>;

/// What `midly::Smf::write_std` writes for a file with these tracks and this
/// header; nothing where it refuses to.
pub uninterp spec fn file_bytes(tracks: Seq<Seq<TrackEvent>>, header: Seq<u16>) -> Option<Seq<u8>>;

/// A `midly::Smf` of the format `SingleTrack`, whose number is zero, with one
/// track that has no events yet.
#[verifier::external_body]
fn new_file(resolution: u16) -> (file: midly::Smf<'static>)
    requires
        resolution < 0x8000,
    ensures
        file_tracks(file) == seq![Seq::<TrackEvent>::empty()],
        file_header(file) == seq![0u16, resolution],
{
    let header = Header::new(Format::SingleTrack, Timing::Metrical(resolution.into()));
    midly::Smf { header, tracks: vec![Vec::new()] }
}

/// Puts a `midly::MetaMessage` at the end of the only track.
#[verifier::external_body]
fn add_meta(file: &mut midly::Smf<'static>, delta: u32, meta: Meta)
    requires
        file_tracks(*old(file)).len() == 1,
        delta < 0x1000_0000,
        meta.fits(),
    ensures
        file_tracks(*final(file)) == seq![
            file_tracks(*old(file))[0].push(TrackEvent { delta, message: Message::Meta(meta) }),
        ],
        file_header(*final(file)) == file_header(*old(file)),
{
    let message = match meta {
        Meta::Tempo(us) => MetaMessage::Tempo(us.into()),
        Meta::TimeSignature(n, d, clocks, notes) => MetaMessage::TimeSignature(n, d, clocks, notes),
        Meta::EndOfTrack => MetaMessage::EndOfTrack,
    };
    let event = midly::TrackEvent { delta: delta.into(), kind: TrackEventKind::Meta(message) };
    file.tracks[0].push(event);
}

/// Puts a `midly::MidiMessage` for a channel at the end of the only track.
#[verifier::external_body]
fn add_voice(file: &mut midly::Smf<'static>, delta: u32, channel: u8, voice: Voice)
    requires
        file_tracks(*old(file)).len() == 1,
        delta < 0x1000_0000,
        channel < 16,
        voice.fits(),
    ensures
        file_tracks(*final(file)) == seq![
            file_tracks(*old(file))[0].push(
                TrackEvent { delta, message: Message::Voice(channel, voice) },
            ),
        ],
        file_header(*final(file)) == file_header(*old(file)),
{
    let message = match voice {
        Voice::Program(program) => MidiMessage::ProgramChange { program: program.into() },
        Voice::NoteOn(key, vel) => MidiMessage::NoteOn { key: key.into(), vel: vel.into() },
        Voice::NoteOff(key, vel) => MidiMessage::NoteOff { key: key.into(), vel: vel.into() },
    };
    let kind = TrackEventKind::Midi { channel: channel.into(), message };
    file.tracks[0].push(midly::TrackEvent { delta: delta.into(), kind });
}

/// `midly::Smf::write_std` into memory: what is written depends on the tracks
/// and the header alone.
#[verifier::external_body]
fn write_file(file: &midly::Smf<'static>) -> (bytes: Option<Vec<u8>>)
    ensures
        match file_bytes(file_tracks(*file), file_header(*file)) {
            Some(written) => bytes is Some && bytes->0@ == written,
            None => bytes is None,
        },
{
    let mut bytes: Vec<u8> = Vec::new();
    file.write_std(&mut bytes).ok().map(|_| bytes)
}

/// A note that starts or ends.
#[derive(Clone, Copy, Debug, PartialEq, Eq, Structural)]
pub struct TimedNote {
    /// When, in ticks from the start.
    pub ticks: u64,
    pub on: bool,
    pub channel: u8,
    pub pitch: u8,
}

/// The instrument of an event.
pub open spec fn instrument_of(event: AmtEvent) -> u8 {
    (event.note_id / MAX_PITCH) as u8
}

/// The melodic instruments of the first `n` events, each once, in the order of
/// their first appearance.
pub open spec fn instruments(events: Seq<AmtEvent>, n: int) -> Seq<u8>
    decreases n,
{
    if n <= 0 {
        Seq::empty()
    } else {
        let before = instruments(events, n - 1);
        let instrument = instrument_of(events[n - 1]);
        if instrument == DRUMS || before.contains(instrument) {
            before
        } else {
            before.push(instrument)
        }
    }
}

/// The channel of the melodic instrument that appears in the given place. The
/// channel of the drum kit is left out, and after the other fifteen they are used
/// again.
pub open spec fn channel_at(place: int) -> int {
    if place % 15 < DRUM_CHANNEL {
        place % 15
    } else {
        place % 15 + 1
    }
}

/// The place of an instrument in a list of instruments.
pub open spec fn place_of(order: Seq<u8>, instrument: u8) -> int
    decreases order.len(),
{
    if order.len() == 0 || order[0] == instrument {
        0
    } else {
        1 + place_of(order.skip(1), instrument)
    }
}

/// The channel of an instrument: the drum kit has its own, and a melodic instrument
/// the one of its place among the melodic ones.
pub open spec fn channel_of(order: Seq<u8>, instrument: u8) -> u8 {
    if instrument == DRUMS {
        DRUM_CHANNEL
    } else {
        channel_at(place_of(order, instrument)) as u8
    }
}

/// The starts and ends of the first `n` notes, in the order of the events. An
/// instrument keeps the channel that it gets on its first appearance.
pub open spec fn timed_notes(events: Seq<AmtEvent>, tempo_us: u32, n: int) -> Seq<TimedNote>
    decreases n,
{
    if n <= 0 {
        Seq::empty()
    } else {
        let event = events[n - 1];
        let channel = channel_of(instruments(events, n), instrument_of(event));
        let pitch = (event.note_id % MAX_PITCH) as u8;
        timed_notes(events, tempo_us, n - 1).push(
            TimedNote {
                ticks: midi_ticks(event.time, tempo_us) as u64,
                on: true,
                channel,
                pitch,
            },
        ).push(
            TimedNote {
                ticks: midi_ticks((event.time + event.duration) as u32, tempo_us) as u64,
                on: false,
                channel,
                pitch,
            },
        )
    }
}

/// `b` does not belong before `a`: it is later, or at the same time and not the
/// end of a note where `a` is the start of one.
pub open spec fn in_order(a: TimedNote, b: TimedNote) -> bool {
    a.ticks < b.ticks || (a.ticks == b.ticks && (!a.on || b.on))
}

/// `note` put into an ordered list, after everything that it may follow.
pub open spec fn put_in_order(list: Seq<TimedNote>, note: TimedNote) -> Seq<TimedNote>
    decreases list.len(),
{
    if list.len() == 0 || in_order(list.last(), note) {
        list.push(note)
    } else {
        put_in_order(list.drop_last(), note).push(list.last())
    }
}

/// The first `n` notes in the order of time; at the same time the ends come
/// first, and otherwise the given order is kept.
pub open spec fn arranged(notes: Seq<TimedNote>, n: int) -> Seq<TimedNote>
    decreases n,
{
    if n <= 0 {
        Seq::empty()
    } else {
        put_in_order(arranged(notes, n - 1), notes[n - 1])
    }
}

/// The events at the start of the track: the tempo, and the time signature where
/// there is one.
pub open spec fn opening(tempo_us: u32, signature: Option<TimeSignature>) -> Seq<TrackEvent> {
    let tempo = seq![TrackEvent { delta: 0, message: Message::Meta(Meta::Tempo(tempo_us)) }];
    match signature {
        None => tempo,
        Some(ts) => tempo.push(
            TrackEvent {
                delta: 0,
                message: Message::Meta(
                    Meta::TimeSignature(
                        ts.numerator,
                        u8_trailing_zeros(ts.denominator) as u8,
                        24,
                        8,
                    ),
                ),
            },
        ),
    }
}

/// The program changes of the instruments below `n`, in ascending order, for
/// those that appear and are not the drum kit.
pub open spec fn programs(order: Seq<u8>, n: int) -> Seq<TrackEvent>
    decreases n,
{
    if n <= 0 {
        Seq::empty()
    } else {
        let instrument = (n - 1) as u8;
        let before = programs(order, n - 1);
        if instrument != DRUMS && order.contains(instrument) {
            before.push(
                TrackEvent {
                    delta: 0,
                    message: Message::Voice(
                        channel_of(order, instrument),
                        Voice::Program(
                            if instrument < 127 {
                                instrument
                            } else {
                                127
                            },
                        ),
                    ),
                },
            )
        } else {
            before
        }
    }
}

/// How long after the note before it the `n`th note comes, in the bits that a
/// MIDI file has for it.
pub open spec fn delta(notes: Seq<TimedNote>, n: int) -> u32 {
    let before: int = if n == 0 {
        0
    } else {
        notes[n - 1].ticks as int
    };
    let apart = if notes[n].ticks >= before {
        notes[n].ticks - before
    } else {
        0
    };
    (apart % 0x1000_0000) as u32
}

/// The track events of the first `n` notes.
pub open spec fn note_events(notes: Seq<TimedNote>, n: int) -> Seq<TrackEvent>
    decreases n,
{
    if n <= 0 {
        Seq::empty()
    } else {
        let note = notes[n - 1];
        let voice = if note.on {
            Voice::NoteOn(note.pitch, DEFAULT_VELOCITY)
        } else {
            Voice::NoteOff(note.pitch, 0)
        };
        note_events(notes, n - 1).push(
            TrackEvent {
                delta: delta(notes, n - 1),
                message: Message::Voice(note.channel, voice),
            },
        )
    }
}

/// The track of a list of note events at a tempo.
pub open spec fn track(
    events: Seq<AmtEvent>,
    bpm: Single,
    signature: Option<TimeSignature>,
) -> Seq<TrackEvent> {
    let tempo_us = tempo_microseconds(bpm) as u32;
    let count = events.len() as int;
    let notes = arranged(timed_notes(events, tempo_us, count), 2 * count);
    opening(tempo_us, signature) + programs(instruments(events, count), 256) + note_events(
        notes,
        2 * count,
    ) + seq![TrackEvent { delta: 0, message: Message::Meta(Meta::EndOfTrack) }]
}

/// No note ends later than the largest number of 10 ms ticks.
pub open spec fn ends_in_range(events: Seq<AmtEvent>) -> bool {
    forall|i: int|
        0 <= i < events.len() ==> (#[trigger] events[i]).time + events[i].duration <= u32::MAX
}

/// Different melodic instruments are on different channels, as long as no more than
/// fifteen appear.
pub proof fn lemma_channels_distinct(order: Seq<u8>, a: u8, b: u8)
    requires
        order.len() <= 15,
        order.contains(a),
        order.contains(b),
        a != b,
        a != DRUMS,
        b != DRUMS,
    ensures
        channel_of(order, a) != channel_of(order, b),
{
    lemma_place(order, a);
    lemma_place(order, b);
}

/// Drums are on the channel that is reserved for them, and nothing else ever is.
pub proof fn lemma_drum_channel_reserved(order: Seq<u8>, instrument: u8)
    ensures
        channel_of(order, instrument) == DRUM_CHANNEL <==> instrument == DRUMS,
        channel_of(order, instrument) < 16,
{
    lemma_place(order, instrument);
}

/// Both the start and the end of a note are on the channel of its instrument, the
/// same for all of its notes.
pub proof fn lemma_note_channels(events: Seq<AmtEvent>, tempo_us: u32, n: int, i: int)
    requires
        0 <= i < n <= events.len(),
    ensures
        timed_notes(events, tempo_us, n).len() == 2 * n,
        timed_notes(events, tempo_us, n)[2 * i].channel == channel_of(
            instruments(events, n),
            instrument_of(events[i]),
        ),
        timed_notes(events, tempo_us, n)[2 * i + 1].channel == channel_of(
            instruments(events, n),
            instrument_of(events[i]),
        ),
        timed_notes(events, tempo_us, n)[2 * i].on,
        !timed_notes(events, tempo_us, n)[2 * i + 1].on,
    decreases n,
{
    lemma_notes_len(events, tempo_us, n - 1);
    if i < n - 1 {
        lemma_note_channels(events, tempo_us, n - 1, i);
        lemma_instruments(events, n - 1);
        let before = instruments(events, n - 1);
        let instrument = instrument_of(events[i]);
        if instrument != DRUMS && instruments(events, n) != before {
            lemma_place_kept(before, instrument_of(events[n - 1]), instrument);
        }
    }
}

/// Every note starts and ends.
proof fn lemma_notes_len(events: Seq<AmtEvent>, tempo_us: u32, n: int)
    requires
        0 <= n <= events.len(),
    ensures
        timed_notes(events, tempo_us, n).len() == 2 * n,
    decreases n,
{
    if n > 0 {
        lemma_notes_len(events, tempo_us, n - 1);
    }
}

/// What is put at the end of a list does not move an instrument that is in it.
proof fn lemma_place_kept(order: Seq<u8>, next: u8, instrument: u8)
    requires
        order.contains(instrument),
    ensures
        place_of(order.push(next), instrument) == place_of(order, instrument),
    decreases order.len(),
{
    let all = order.push(next);
    assert(all[0] == order[0]);
    if order[0] != instrument {
        let i = choose|i: int| 0 <= i < order.len() && order[i] == instrument;
        assert(order.skip(1)[i - 1] == instrument);
        assert(all.skip(1) =~= order.skip(1).push(next));
        lemma_place_kept(order.skip(1), next, instrument);
    }
}

/// The place of an instrument that is in the list is where it stands first.
proof fn lemma_place(order: Seq<u8>, instrument: u8)
    ensures
        0 <= place_of(order, instrument) <= order.len(),
        order.contains(instrument) ==> place_of(order, instrument) < order.len() && order[place_of(
            order,
            instrument,
        )] == instrument,
        forall|i: int|
            0 <= i < place_of(order, instrument) ==> #[trigger] order[i] != instrument,
    decreases order.len(),
{
    if order.len() > 0 && order[0] != instrument {
        let rest = order.skip(1);
        lemma_place(rest, instrument);
        if order.contains(instrument) {
            let i = choose|i: int| 0 <= i < order.len() && order[i] == instrument;
            assert(rest[i - 1] == instrument);
        }
        assert forall|i: int| 0 <= i < place_of(order, instrument) implies #[trigger] order[i]
            != instrument by {
            if i > 0 {
                assert(order[i] == rest[i - 1]);
            }
        }
    }
}

/// The list of melodic instruments has no instrument twice, and so at most 256.
proof fn lemma_instruments(events: Seq<AmtEvent>, n: int)
    requires
        0 <= n <= events.len(),
    ensures
        instruments(events, n).no_duplicates(),
        instruments(events, n).len() <= 256,
        forall|i: int|
            0 <= i < n && instrument_of(events[i]) != DRUMS ==> instruments(events, n).contains(
                instrument_of(#[trigger] events[i]),
            ),
    decreases n,
{
    if n > 0 {
        lemma_instruments(events, n - 1);
        let before = instruments(events, n - 1);
        let all = instruments(events, n);
        let instrument = instrument_of(events[n - 1]);
        if instrument != DRUMS && !before.contains(instrument) {
            assert(all[before.len() as int] == instrument);
            assert forall|x: u8| before.contains(x) implies all.contains(x) by {
                let i = choose|i: int| 0 <= i < before.len() && before[i] == x;
                assert(all[i] == x);
            }
        }
    }
    lemma_bytes_bound(instruments(events, n));
}

/// A list of different bytes has at most 256 of them.
proof fn lemma_bytes_bound(list: Seq<u8>)
    requires
        list.no_duplicates(),
    ensures
        list.len() <= 256,
{
    let values = list.map_values(|x: u8| x as int);
    assert(values.no_duplicates()) by {
        assert forall|i: int, j: int|
            0 <= i < values.len() && 0 <= j < values.len() && i != j implies values[i]
            != values[j] by {
            assert(list[i] != list[j]);
        }
    }
    let all = vstd::set_lib::set_int_range(0, 256);
    vstd::set_lib::lemma_int_range(0, 256);
    values.unique_seq_to_set();
    assert(values.to_set().subset_of(all));
    vstd::set_lib::lemma_len_subset(values.to_set(), all);
}

/// Finds the place of an instrument in a list of instruments.
fn find_place(order: &Vec<u8>, instrument: u8) -> (place: Option<usize>)
    ensures
        place is Some <==> order@.contains(instrument),
        place is Some ==> place->0 == place_of(order@, instrument) && place->0 < order@.len(),
{
    let mut i: usize = 0;
    assert(order@.skip(0) =~= order@);
    while i < order.len()
        invariant
            i <= order@.len(),
            place_of(order@, instrument) == i + place_of(order@.skip(i as int), instrument),
            forall|k: int| 0 <= k < i ==> #[trigger] order@[k] != instrument,
        decreases order@.len() - i,
    {
        assert(order@.skip(i as int)[0] == order@[i as int]);
        if order[i] == instrument {
            assert(order@.contains(instrument));
            return Some(i);
        }
        assert(order@.skip(i as int).skip(1) =~= order@.skip(i + 1));
        i += 1;
    }
    None
}

/// The channel of the melodic instrument that appears in the given place.
fn channel_number(place: usize) -> (channel: u8)
    ensures
        channel == channel_at(place as int),
        channel < 16,
{
    let among: u8 = (place % 15) as u8;
    if among < DRUM_CHANNEL {
        among
    } else {
        among + 1
    }
}

/// Puts a note into an ordered list.
fn insert_in_order(list: &mut Vec<TimedNote>, note: TimedNote)
    ensures
        final(list)@ == put_in_order(old(list)@, note),
{
    let mut at: usize = list.len();
    let ghost whole = list@;
    let ghost mut tail: Seq<TimedNote> = Seq::empty();
    assert(whole.take(at as int) =~= whole);
    assert(put_in_order(whole, note) =~= put_in_order(whole.take(at as int), note) + tail);
    while at > 0 && !(list[at - 1].ticks < note.ticks || (list[at - 1].ticks == note.ticks && (
    !list[at - 1].on || note.on)))
        invariant
            at <= list@.len(),
            list@ == whole,
            tail == whole.skip(at as int),
            put_in_order(whole, note) == put_in_order(whole.take(at as int), note) + tail,
        decreases at,
    {
        proof {
            let front = whole.take(at as int);
            assert(front.last() == whole[at - 1]);
            assert(front.drop_last() =~= whole.take(at - 1));
            assert(put_in_order(front, note) == put_in_order(whole.take(at - 1), note).push(
                whole[at - 1],
            ));
            tail = whole.skip(at - 1);
            assert(put_in_order(whole.take(at - 1), note).push(whole[at - 1]) + whole.skip(
                at as int,
            ) =~= put_in_order(whole.take(at - 1), note) + tail);
        }
        at -= 1;
    }
    proof {
        if at > 0 {
            assert(whole.take(at as int).last() == whole[at - 1]);
        }
        assert(whole.insert(at as int, note) =~= whole.take(at as int).push(note) + tail);
    }
    list.insert(at, note);
}

/// The starts and ends of notes in the order of time, and the melodic instruments
/// in the order of their first appearance.
fn arrange(events: &[AmtEvent], tempo_us: u32) -> (r: (Vec<TimedNote>, Vec<u8>))
    requires
        ends_in_range(events@),
    ensures
        r.0@ == arranged(
            timed_notes(events@, tempo_us, events@.len() as int),
            2 * events@.len() as int,
        ),
        r.0@.len() == 2 * events@.len(),
        r.1@ == instruments(events@, events@.len() as int),
        forall|i: int|
            0 <= i < r.0@.len() ==> (#[trigger] r.0@[i]).channel < 16 && r.0@[i].pitch < 128,
{
    let mut notes: Vec<TimedNote> = Vec::new();
    let mut order: Vec<u8> = Vec::new();
    let ghost all = timed_notes(events@, tempo_us, events@.len() as int);
    let mut n: usize = 0;
    while n < events.len()
        invariant
            n <= events@.len(),
            ends_in_range(events@),
            all == timed_notes(events@, tempo_us, events@.len() as int),
            order@ == instruments(events@, n as int),
            notes@ == arranged(timed_notes(events@, tempo_us, n as int), 2 * n as int),
            notes@.len() == 2 * n,
            timed_notes(events@, tempo_us, n as int).len() == 2 * n,
            forall|i: int|
                0 <= i < notes@.len() ==> (#[trigger] notes@[i]).channel < 16 && notes@[i].pitch
                    < 128,
        decreases events@.len() - n,
    {
        let event = events[n];
        let instrument: u8 = event.instrument();
        let ghost before = order@;
        proof {
            lemma_instruments(events@, n as int);
            lemma_instruments(events@, n + 1);
        }
        let channel: u8 = if instrument == DRUMS {
            DRUM_CHANNEL
        } else {
            match find_place(&order, instrument) {
                Some(place) => channel_number(place),
                None => {
                    let place: usize = order.len();
                    order.push(instrument);
                    proof {
                        lemma_place_of_new(before, instrument);
                    }
                    channel_number(place)
                },
            }
        };
        let pitch: u8 = event.pitch();
        let on = TimedNote {
            ticks: amt_ticks_to_midi_ticks(event.time, tempo_us),
            on: true,
            channel,
            pitch,
        };
        let off = TimedNote {
            ticks: amt_ticks_to_midi_ticks(event.time + event.duration, tempo_us),
            on: false,
            channel,
            pitch,
        };
        let ghost shorter = timed_notes(events@, tempo_us, n as int);
        let ghost longer = timed_notes(events@, tempo_us, n + 1);
        proof {
            assert(longer =~= shorter.push(on).push(off));
            lemma_arranged_prefix(shorter, longer, 2 * n as int);
            lemma_put(notes@, on);
            lemma_put(put_in_order(notes@, on), off);
            assert(longer[2 * n as int] == on);
            assert(longer[2 * n + 1] == off);
            assert(arranged(longer, 2 * n + 1) == put_in_order(arranged(longer, 2 * n as int), on));
            assert(arranged(longer, 2 * n + 2) == put_in_order(arranged(longer, 2 * n + 1), off));
        }
        insert_in_order(&mut notes, on);
        insert_in_order(&mut notes, off);
        n += 1;
    }
    (notes, order)
}

/// An instrument that is put at the end of a list stands there.
proof fn lemma_place_of_new(order: Seq<u8>, instrument: u8)
    requires
        !order.contains(instrument),
    ensures
        place_of(order.push(instrument), instrument) == order.len(),
    decreases order.len(),
{
    let all = order.push(instrument);
    if order.len() == 0 {
        assert(all[0] == instrument);
    } else {
        assert(all[0] == order[0]);
        assert(order.contains(order[0]));
        assert(all.skip(1) =~= order.skip(1).push(instrument));
        assert(!order.skip(1).contains(instrument)) by {
            if order.skip(1).contains(instrument) {
                let i = choose|i: int|
                    0 <= i < order.skip(1).len() && order.skip(1)[i] == instrument;
                assert(order[i + 1] == instrument);
            }
        }
        lemma_place_of_new(order.skip(1), instrument);
    }
}

/// The arrangement of the first notes depends on those notes alone.
proof fn lemma_arranged_prefix(a: Seq<TimedNote>, b: Seq<TimedNote>, n: int)
    requires
        0 <= n <= a.len(),
        n <= b.len(),
        forall|i: int| 0 <= i < n ==> #[trigger] a[i] == b[i],
    ensures
        arranged(a, n) == arranged(b, n),
    decreases n,
{
    if n > 0 {
        lemma_arranged_prefix(a, b, n - 1);
    }
}

/// Putting a note into a list adds that note and changes nothing else.
proof fn lemma_put(list: Seq<TimedNote>, note: TimedNote)
    ensures
        put_in_order(list, note).len() == list.len() + 1,
        put_in_order(list, note).to_multiset() == list.to_multiset().insert(note),
        forall|i: int|
            0 <= i < put_in_order(list, note).len() ==> list.contains(
                #[trigger] put_in_order(list, note)[i],
            ) || put_in_order(list, note)[i] == note,
    decreases list.len(),
{
    broadcast use vstd::seq_lib::group_to_multiset_ensures;

    let after = put_in_order(list, note);
    if list.len() == 0 || in_order(list.last(), note) {
        assert forall|i: int| 0 <= i < after.len() implies list.contains(#[trigger] after[i])
            || after[i] == note by {
            if i < list.len() {
                assert(list[i] == after[i]);
            }
        }
    } else {
        let front = list.drop_last();
        lemma_put(front, note);
        assert(list =~= front.push(list.last()));
        assert(after.to_multiset() =~= list.to_multiset().insert(note));
        assert forall|i: int| 0 <= i < after.len() implies list.contains(#[trigger] after[i])
            || after[i] == note by {
            if i < after.len() - 1 {
                let x = put_in_order(front, note)[i];
                if x != note {
                    let k = choose|k: int| 0 <= k < front.len() && front[k] == x;
                    assert(list[k] == x);
                }
            } else {
                assert(list[list.len() - 1] == after[i]);
            }
        }
    }
}

impl TrackEvent {
    /// Every part fits into the bits that a MIDI file has for it.
    pub open spec fn fits(self) -> bool {
        self.delta < 0x1000_0000 && match self.message {
            Message::Meta(meta) => meta.fits(),
            Message::Voice(channel, voice) => channel < 16 && voice.fits(),
        }
    }
}

/// Every event of a list fits into a MIDI file.
pub open spec fn all_fit(events: Seq<TrackEvent>) -> bool {
    forall|i: int| 0 <= i < events.len() ==> (#[trigger] events[i]).fits()
}

/// Adds the program changes.
fn add_programs(track: &mut Vec<TrackEvent>, order: &Vec<u8>)
    requires
        order@.len() <= 256,
        all_fit(old(track)@),
    ensures
        final(track)@ == old(track)@ + programs(order@, 256),
        all_fit(final(track)@),
{
    let ghost before = track@;
    assert(before + programs(order@, 0) =~= before);
    let mut n: usize = 0;
    while n < 256
        invariant
            n <= 256,
            order@.len() <= 256,
            all_fit(track@),
            track@ == before + programs(order@, n as int),
        decreases 256 - n,
    {
        let instrument: u8 = n as u8;
        let ghost so_far = track@;
        if instrument != DRUMS {
            if let Some(place) = find_place(order, instrument) {
                let channel: u8 = channel_number(place);
                let program: u8 = if instrument < 127 {
                    instrument
                } else {
                    127
                };
                track.push(
                    TrackEvent {
                        delta: 0,
                        message: Message::Voice(channel, Voice::Program(program)),
                    },
                );
            }
        }
        assert(track@ =~= before + programs(order@, n + 1));
        n += 1;
    }
}

/// Adds the starts and ends of notes.
fn add_notes(track: &mut Vec<TrackEvent>, notes: &Vec<TimedNote>)
    requires
        all_fit(old(track)@),
        forall|i: int|
            0 <= i < notes@.len() ==> (#[trigger] notes@[i]).channel < 16 && notes@[i].pitch < 128,
    ensures
        final(track)@ == old(track)@ + note_events(notes@, notes@.len() as int),
        all_fit(final(track)@),
{
    let ghost before = track@;
    assert(before + note_events(notes@, 0) =~= before);
    let mut previous: u64 = 0;
    let mut n: usize = 0;
    while n < notes.len()
        invariant
            n <= notes@.len(),
            all_fit(track@),
            previous == (if n == 0 {
                0
            } else {
                notes@[n - 1].ticks as int
            }),
            forall|i: int|
                0 <= i < notes@.len() ==> (#[trigger] notes@[i]).channel < 16 && notes@[i].pitch
                    < 128,
            track@ == before + note_events(notes@, n as int),
        decreases notes@.len() - n,
    {
        let note = notes[n];
        let apart: u64 = if note.ticks >= previous {
            note.ticks - previous
        } else {
            0
        };
        previous = note.ticks;
        let delta: u32 = (apart % 0x1000_0000) as u32;
        let voice = if note.on {
            Voice::NoteOn(note.pitch, DEFAULT_VELOCITY)
        } else {
            Voice::NoteOff(note.pitch, 0)
        };
        track.push(TrackEvent { delta, message: Message::Voice(note.channel, voice) });
        assert(track@ =~= before + note_events(notes@, n + 1));
        n += 1;
    }
}

/// The track of a list of note events at a tempo, with a time signature where
/// one is given.
pub fn midi_track(
    events: &[AmtEvent],
    bpm: Single,
    time_signature: Option<TimeSignature>,
) -> (events_out: Vec<TrackEvent>)
    requires
        ends_in_range(events@),
    ensures
        events_out@ == track(events@, bpm, time_signature),
        all_fit(events_out@),
{
    let tempo_us: u32 = tempo_us_from_bpm(bpm);
    let (notes, order) = arrange(events, tempo_us);
    proof {
        lemma_instruments(events@, events@.len() as int);
    }
    let mut out: Vec<TrackEvent> = Vec::new();
    out.push(TrackEvent { delta: 0, message: Message::Meta(Meta::Tempo(tempo_us)) });
    if let Some(ts) = time_signature {
        let power: u8 = ts.denominator.trailing_zeros() as u8;
        out.push(
            TrackEvent {
                delta: 0,
                message: Message::Meta(Meta::TimeSignature(ts.numerator, power, 24, 8)),
            },
        );
    }
    assert(out@ =~= opening(tempo_us, time_signature));
    add_programs(&mut out, &order);
    add_notes(&mut out, &notes);
    out.push(TrackEvent { delta: 0, message: Message::Meta(Meta::EndOfTrack) });
    assert(out@ =~= track(events@, bpm, time_signature));
    out
}

/// The bytes of a single-track (type 0) MIDI file with the given note events.
///
/// `bpm` controls the tempo. `time_signature`, if given, is written as a meta
/// event at the start of the track.
pub fn write_midi(
    events: &[AmtEvent],
    bpm: Single,
    time_signature: Option<TimeSignature>,
) -> (bytes: Option<Vec<u8>>)
    requires
        ends_in_range(events@),
    ensures
        match file_bytes(seq![track(events@, bpm, time_signature)], seq![0u16, PPQ]) {
            Some(written) => bytes is Some && bytes->0@ == written,
            None => bytes is None,
        },
{
    let list = midi_track(events, bpm, time_signature);
    let mut file = new_file(PPQ);
    let mut i: usize = 0;
    assert(list@.take(0) =~= Seq::empty());
    while i < list.len()
        invariant
            i <= list@.len(),
            all_fit(list@),
            file_tracks(file) == seq![list@.take(i as int)],
            file_header(file) == seq![0u16, PPQ],
        decreases list@.len() - i,
    {
        let event = list[i];
        assert(list@[i as int].fits());
        assert(list@.take(i + 1) =~= list@.take(i as int).push(event));
        match event.message {
            Message::Meta(meta) => add_meta(&mut file, event.delta, meta),
            Message::Voice(channel, voice) => add_voice(&mut file, event.delta, channel, voice),
        }
        assert(file_tracks(file) =~= seq![list@.take(i + 1)]);
        i += 1;
    }
    assert(list@.take(i as int) =~= list@);
    write_file(&file)
}

/// Every two notes of a list are in order.
pub open spec fn is_arranged(notes: Seq<TimedNote>) -> bool {
    forall|i: int, j: int|
        0 <= i < j < notes.len() ==> in_order(#[trigger] notes[i], #[trigger] notes[j])
}

/// Notes come in the order of time, the ends before the starts at the same time,
/// and none is lost or added.
pub proof fn lemma_arranged(notes: Seq<TimedNote>, n: int)
    requires
        0 <= n <= notes.len(),
    ensures
        is_arranged(arranged(notes, n)),
        arranged(notes, n).to_multiset() == notes.take(n).to_multiset(),
        arranged(notes, n).len() == n,
    decreases n,
{
    broadcast use vstd::seq_lib::group_to_multiset_ensures;

    if n > 0 {
        lemma_arranged(notes, n - 1);
        lemma_put(arranged(notes, n - 1), notes[n - 1]);
        lemma_put_arranged(arranged(notes, n - 1), notes[n - 1]);
        assert(notes.take(n) =~= notes.take(n - 1).push(notes[n - 1]));
    } else {
        assert(notes.take(n) =~= Seq::empty());
    }
}

proof fn lemma_put_arranged(list: Seq<TimedNote>, note: TimedNote)
    requires
        is_arranged(list),
    ensures
        is_arranged(put_in_order(list, note)),
    decreases list.len(),
{
    let after = put_in_order(list, note);
    if list.len() == 0 || in_order(list.last(), note) {
        assert forall|i: int, j: int| 0 <= i < j < after.len() implies in_order(
            #[trigger] after[i],
            #[trigger] after[j],
        ) by {
            if j == list.len() {
                if i < list.len() - 1 {
                    assert(in_order(list[i], list[list.len() - 1]));
                }
            } else {
                assert(in_order(list[i], list[j]));
            }
        }
    } else {
        let front = list.drop_last();
        assert(is_arranged(front)) by {
            assert forall|i: int, j: int| 0 <= i < j < front.len() implies in_order(
                #[trigger] front[i],
                #[trigger] front[j],
            ) by {
                assert(in_order(list[i], list[j]));
            }
        }
        lemma_put_arranged(front, note);
        lemma_put(front, note);
        let middle = put_in_order(front, note);
        assert forall|i: int, j: int| 0 <= i < j < after.len() implies in_order(
            #[trigger] after[i],
            #[trigger] after[j],
        ) by {
            if j == middle.len() {
                let x = middle[i];
                if x != note {
                    let k = choose|k: int| 0 <= k < front.len() && front[k] == x;
                    assert(in_order(list[k], list[list.len() - 1]));
                }
            } else {
                assert(in_order(middle[i], middle[j]));
            }
        }
    }
}

/// A later note is not earlier in ticks: no time between two events of a track is
/// cut short, where none is as long as the largest one that a file can hold.
pub proof fn lemma_deltas(notes: Seq<TimedNote>, n: int)
    requires
        is_arranged(notes),
        0 < n < notes.len(),
        notes[n].ticks - notes[n - 1].ticks < 0x1000_0000,
    ensures
        delta(notes, n) == notes[n].ticks - notes[n - 1].ticks,
{
    assert(in_order(notes[n - 1], notes[n]));
}

/// The ticks that pass until the `n`th event of a track has come.
pub open spec fn passed(events: Seq<TrackEvent>, n: int) -> int
    decreases n,
{
    if n <= 0 {
        0
    } else {
        passed(events, n - 1) + events[n - 1].delta
    }
}

/// The event of each note comes its delta after the one before it.
proof fn lemma_note_deltas(notes: Seq<TimedNote>, count: int, i: int)
    requires
        0 <= i < count,
    ensures
        note_events(notes, count).len() == count,
        note_events(notes, count)[i].delta == delta(notes, i),
    decreases count,
{
    if count == 1 {
        assert(note_events(notes, 0).len() == 0);
    } else if i < count - 1 {
        lemma_note_deltas(notes, count - 1, i);
    } else {
        lemma_note_deltas(notes, count - 1, 0);
    }
}

/// Each note stands at its own time: where no time between two notes is as long as
/// the largest one that a file can hold, the times up to a note add up to its ticks.
pub proof fn lemma_note_places(notes: Seq<TimedNote>, count: int, n: int)
    requires
        is_arranged(notes),
        0 <= n < count <= notes.len(),
        notes[0].ticks < 0x1000_0000,
        forall|i: int|
            0 < i <= n ==> (#[trigger] notes[i]).ticks - notes[i - 1].ticks < 0x1000_0000,
    ensures
        passed(note_events(notes, count), n + 1) == notes[n].ticks,
    decreases n,
{
    lemma_note_deltas(notes, count, n);
    if n > 0 {
        lemma_note_places(notes, count, n - 1);
        lemma_deltas(notes, n);
    } else {
        assert(passed(note_events(notes, count), 0) == 0);
    }
}

/// A track opens with its tempo and closes with its end.
pub proof fn lemma_track_frame(events: Seq<AmtEvent>, bpm: Single, signature: Option<TimeSignature>)
    ensures
        track(events, bpm, signature).len() >= 2,
        track(events, bpm, signature)[0] == (TrackEvent {
            delta: 0,
            message: Message::Meta(Meta::Tempo(tempo_microseconds(bpm) as u32)),
        }),
        track(events, bpm, signature).last() == (TrackEvent {
            delta: 0,
            message: Message::Meta(Meta::EndOfTrack),
        }),
{
}

} // verus!
