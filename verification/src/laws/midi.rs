//! What a MIDI file says of the notes, the tempo and the meter that it is made from.

use vstd::arithmetic::power2::pow2;
use vstd::prelude::*;
use vstd::std_specs::bits::{axiom_u8_trailing_zeros, u8_trailing_zeros};

use crate::laws::text::{lemma_digits_are_core, lemma_reads_back, lemma_trimmed};
use crate::single::Single;
use crate::text::{decimal, is_digit, lemma_decimal_number, white_space};
use crate::text_to_midi::amt::AmtEvent;
use crate::text_to_midi::midi::{
    arranged, channel_of, delta, first_index, in_order, instrument_of, instruments, lemma_arranged,
    lemma_note_places, note_events, opening, passed, place_of, programs, put_in_order,
    signature_named, timed_notes, track, Message, Meta, TimeSignature, TimedNote, TrackEvent, Voice,
    PPQ,
};
use crate::text_to_midi::timing::{midi_ticks, tempo_microseconds};

verus! {

/// The power of two that a byte is.
proof fn lemma_power_of_byte(byte: u8)
    requires
        byte == 1 || byte == 2 || byte == 4 || byte == 8 || byte == 16 || byte == 32 || byte == 64
            || byte == 128,
    ensures
        u8_trailing_zeros(byte) < 8,
        pow2(u8_trailing_zeros(byte) as nat) == byte,
{
    axiom_u8_trailing_zeros(byte);
    let p = u8_trailing_zeros(byte) as u8;
    assert((byte == 1 || byte == 2 || byte == 4 || byte == 8 || byte == 16 || byte == 32 || byte
        == 64 || byte == 128) && p < 8 && (byte >> p) & 1u8 == 1u8 ==> (byte == 1 && p == 0) || (byte
        == 2 && p == 1) || (byte == 4 && p == 2) || (byte == 8 && p == 3) || (byte == 16 && p == 4)
        || (byte == 32 && p == 5) || (byte == 64 && p == 6) || (byte == 128 && p == 7))
        by (bit_vector);
    vstd::arithmetic::power2::lemma2_to64();
}

/// The second event of a track tells the meter: as many beats in a bar as the time signature
/// has, each the part of a whole note that its denominator names, where that is a power of
/// two; there are 24 clocks in a click and eight thirty-second notes in a quarter.
pub proof fn lemma_meter_is_written(events: Seq<AmtEvent>, bpm: Single, meter: TimeSignature)
    requires
        exists|p: nat| #[trigger] pow2(p) == meter.denominator,
    ensures
        track(events, bpm, Some(meter)).len() >= 3,
        track(events, bpm, Some(meter))[1].delta == 0,
        exists|p: u8| #[trigger]
            pow2(p as nat) == meter.denominator && track(events, bpm, Some(meter))[1].message
                == Message::Meta(Meta::TimeSignature(meter.numerator, p, 24, 8)),
{
    let p = choose|p: nat| #[trigger] pow2(p) == meter.denominator;
    vstd::arithmetic::power2::lemma2_to64();
    if p >= 8 {
        if p > 8 {
            vstd::arithmetic::power2::lemma_pow2_strictly_increases(8, p);
        }
        assert(pow2(8) == 256);
    }
    lemma_power_of_byte(meter.denominator);
    let whole = track(events, bpm, Some(meter));
    let us = tempo_microseconds(bpm) as u32;
    assert(opening(us, Some(meter)).len() == 2);
    assert(whole[1] == opening(us, Some(meter))[1]);
    let q = u8_trailing_zeros(meter.denominator) as u8;
    assert(pow2(q as nat) == meter.denominator);
}

/// A track without a meter says nothing of one, and with or without one the tempo comes
/// first and everything after the meter is the same.
pub proof fn lemma_meter_is_all(events: Seq<AmtEvent>, bpm: Single, meter: TimeSignature)
    ensures
        ({
            let with = track(events, bpm, Some(meter));
            let without = track(events, bpm, None);
            &&& with.len() == without.len() + 1
            &&& with[0] == without[0]
            &&& with[0] == (TrackEvent {
                delta: 0,
                message: Message::Meta(Meta::Tempo(tempo_microseconds(bpm) as u32)),
            })
            &&& forall|i: int| 1 <= i < without.len() ==> with[i + 1] == #[trigger] without[i]
        }),
{
    let with = track(events, bpm, Some(meter));
    let without = track(events, bpm, None);
    let us = tempo_microseconds(bpm) as u32;
    assert(opening(us, Some(meter)).len() == 2);
    assert(opening(us, None).len() == 1);
    assert forall|i: int| 1 <= i < without.len() implies with[i + 1] == #[trigger] without[i] by {}
}

/// A meter is read from two whole numbers around a slash, with or without white space
/// around them, as long as both fit in a byte and neither is nought.
pub proof fn lemma_meter_reads_back(
    a: Seq<char>,
    upper: nat,
    b: Seq<char>,
    c: Seq<char>,
    lower: nat,
    d: Seq<char>,
)
    requires
        forall|i: int| 0 <= i < a.len() ==> white_space(#[trigger] a[i]),
        forall|i: int| 0 <= i < b.len() ==> white_space(#[trigger] b[i]),
        forall|i: int| 0 <= i < c.len() ==> white_space(#[trigger] c[i]),
        forall|i: int| 0 <= i < d.len() ==> white_space(#[trigger] d[i]),
    ensures
        ({
            let text = a + decimal(upper) + b + seq!['/'] + (c + decimal(lower) + d);
            &&& 1 <= upper <= 255 && 1 <= lower <= 255 ==> signature_named(text) == Some(
                TimeSignature { numerator: upper as u8, denominator: lower as u8 },
            )
            &&& !(1 <= upper <= 255 && 1 <= lower <= 255) ==> signature_named(text) is None
        }),
{
    let left = a + decimal(upper) + b;
    let right = c + decimal(lower) + d;
    let text = left + seq!['/'] + right;
    lemma_decimal_number(upper);
    lemma_decimal_number(lower);
    lemma_digits_are_core(decimal(upper));
    lemma_digits_are_core(decimal(lower));
    lemma_trimmed(a, decimal(upper), b);
    lemma_trimmed(c, decimal(lower), d);
    lemma_reads_back(upper, 255);
    lemma_reads_back(lower, 255);
    assert forall|i: int| 0 <= i < left.len() implies #[trigger] left[i] != '/' by {
        if i < a.len() {
            assert(white_space(a[i]));
            assert(left[i] == a[i]);
        } else if i < a.len() + decimal(upper).len() {
            assert(is_digit(decimal(upper)[i - a.len()]));
            assert(left[i] == decimal(upper)[i - a.len()]);
        } else {
            assert(white_space(b[i - a.len() - decimal(upper).len()]));
            assert(left[i] == b[i - a.len() - decimal(upper).len()]);
        }
    }
    lemma_first_slash(left, right, 0);
    assert(text.take(left.len() as int) =~= left);
    assert(text.skip(left.len() as int + 1) =~= right);
}

proof fn lemma_first_slash(left: Seq<char>, right: Seq<char>, from: int)
    requires
        0 <= from <= left.len(),
        forall|i: int| 0 <= i < left.len() ==> #[trigger] left[i] != '/',
    ensures
        first_index(left + seq!['/'] + right, '/', from) == Some(left.len() as int),
    decreases left.len() - from,
{
    let text = left + seq!['/'] + right;
    if from < left.len() {
        assert(text[from] == left[from]);
        lemma_first_slash(left, right, from + 1);
    } else {
        assert(text[from] == '/');
    }
}

/// A text without a slash names no meter.
pub proof fn lemma_no_slash(text: Seq<char>, from: int)
    requires
        from >= 0,
        !text.contains('/'),
    ensures
        first_index(text, '/', from) is None,
        signature_named(text) is None,
    decreases text.len() - from,
{
    if from < text.len() {
        assert(text[from] != '/');
        lemma_no_slash(text, from + 1);
    }
    if from > 0 && text.len() > 0 {
        lemma_no_slash_at(text, 0);
    }
}

proof fn lemma_no_slash_at(text: Seq<char>, from: int)
    requires
        from >= 0,
        !text.contains('/'),
    ensures
        first_index(text, '/', from) is None,
    decreases text.len() - from,
{
    if from < text.len() {
        assert(text[from] != '/');
        lemma_no_slash_at(text, from + 1);
    }
}

/// Each note starts at its onset and ends when its duration has passed, with the pitch and on
/// the channel of the instrument that its number stands for.
pub proof fn lemma_starts_and_ends(events: Seq<AmtEvent>, tempo_us: u32, n: int, i: int)
    requires
        0 <= i < n <= events.len(),
    ensures
        ({
            let notes = timed_notes(events, tempo_us, n);
            let channel = channel_of(instruments(events, n), (events[i].note_id / 128) as u8);
            let pitch = (events[i].note_id % 128) as u8;
            &&& notes.len() == 2 * n
            &&& notes[2 * i].on && !notes[2 * i + 1].on
            &&& notes[2 * i].ticks == midi_ticks(events[i].time, tempo_us) as u64
            &&& notes[2 * i + 1].ticks == midi_ticks(
                (events[i].time + events[i].duration) as u32,
                tempo_us,
            ) as u64
            &&& notes[2 * i].pitch == pitch && notes[2 * i + 1].pitch == pitch
            &&& notes[2 * i].channel == channel && notes[2 * i + 1].channel == channel
        }),
    decreases n,
{
    crate::text_to_midi::midi::lemma_note_channels(events, tempo_us, n, i);
    if n > 1 {
        crate::text_to_midi::midi::lemma_note_channels(events, tempo_us, n - 1, 0);
    } else {
        assert(timed_notes(events, tempo_us, 0).len() == 0);
    }
    assert(instrument_of(events[i]) == (events[i].note_id / 128) as u8);
    if i < n - 1 {
        lemma_starts_and_ends(events, tempo_us, n - 1, i);
        let before = timed_notes(events, tempo_us, n - 1);
        let all = timed_notes(events, tempo_us, n);
        assert(all[2 * i] == before[2 * i]);
        assert(all[2 * i + 1] == before[2 * i + 1]);
    }
}

/// The melodic instruments of a piece: each instrument with a note that is not the drum kit,
/// once; those of the beginning stand in front.
pub proof fn lemma_instruments_are(events: Seq<AmtEvent>, m: int, n: int)
    requires
        0 <= m <= n <= events.len(),
    ensures
        instruments(events, n).no_duplicates(),
        forall|x: u8| #[trigger]
            instruments(events, n).contains(x) <==> x != 128 && exists|i: int|
                0 <= i < n && (#[trigger] events[i].note_id / 128) as u8 == x,
        instruments(events, m).len() <= instruments(events, n).len(),
        instruments(events, n).take(instruments(events, m).len() as int) == instruments(events, m),
    decreases n,
{
    let all = instruments(events, n);
    if n > 0 {
        let before = instruments(events, n - 1);
        let next = instrument_of(events[n - 1]);
        assert(next == (events[n - 1].note_id / 128) as u8);
        if m < n {
            lemma_instruments_are(events, m, n - 1);
        } else {
            lemma_instruments_are(events, n - 1, n - 1);
        }
        assert forall|x: u8| #[trigger] all.contains(x) <==> x != 128 && exists|i: int|
            0 <= i < n && (#[trigger] events[i].note_id / 128) as u8 == x by {
            if all.contains(x) {
                let k = choose|k: int| 0 <= k < all.len() && all[k] == x;
                if k < before.len() {
                    assert(before[k] == x);
                    assert(before.contains(x));
                } else {
                    assert((events[n - 1].note_id / 128) as u8 == x);
                }
            }
            if x != 128 && exists|i: int|
                0 <= i < n && (#[trigger] events[i].note_id / 128) as u8 == x {
                let i = choose|i: int|
                    0 <= i < n && (#[trigger] events[i].note_id / 128) as u8 == x;
                if i < n - 1 {
                    assert(before.contains(x));
                    let k = choose|k: int| 0 <= k < before.len() && before[k] == x;
                    assert(all[k] == x);
                } else if before.contains(x) {
                    let k = choose|k: int| 0 <= k < before.len() && before[k] == x;
                    assert(all[k] == x);
                } else {
                    assert(all[before.len() as int] == x);
                }
            }
        }
        if m < n {
            assert(all.take(instruments(events, m).len() as int) =~= before.take(
                instruments(events, m).len() as int,
            ));
        } else {
            assert(all.take(all.len() as int) =~= all);
        }
    } else {
        assert(all.take(0) =~= all);
        assert forall|x: u8| !(#[trigger] all.contains(x)) by {}
    }
}

/// Melodic instruments take the channels in their order, leaving out the tenth, and begin
/// again after the sixteenth; the tenth is that of the drum kit.
pub proof fn lemma_channels_in_order(order: Seq<u8>, place: int)
    requires
        order.no_duplicates(),
        0 <= place < order.len(),
        order[place] != 128,
    ensures
        place % 15 < 9 ==> channel_of(order, order[place]) == place % 15,
        place % 15 >= 9 ==> channel_of(order, order[place]) == place % 15 + 1,
        channel_of(order, 128) == 9,
{
    lemma_place_found(order, place);
}

proof fn lemma_place_found(order: Seq<u8>, place: int)
    requires
        order.no_duplicates(),
        0 <= place < order.len(),
    ensures
        place_of(order, order[place]) == place,
    decreases order.len(),
{
    if place > 0 {
        assert(order[0] != order[place]);
        let rest = order.skip(1);
        assert(rest[place - 1] == order[place]);
        assert(rest.no_duplicates()) by {
            assert forall|i: int, j: int|
                0 <= i < rest.len() && 0 <= j < rest.len() && i != j implies rest[i] != rest[j] by {
                assert(order[i + 1] != order[j + 1]);
            }
        }
        lemma_place_found(rest, place - 1);
    }
}

/// The channel of each melodic instrument is told its program at the start, and nothing
/// else is told there.
pub proof fn lemma_programs_are(order: Seq<u8>, n: int)
    requires
        0 <= n <= 256,
    ensures
        forall|x: u8|
            #![trigger order.contains(x)]
            x < n && x != 128 && order.contains(x) ==> programs(order, n).contains(
                TrackEvent {
                    delta: 0,
                    message: Message::Voice(
                        channel_of(order, x),
                        Voice::Program(
                            if x < 128 {
                                x
                            } else {
                                127
                            },
                        ),
                    ),
                },
            ),
        forall|i: int|
            0 <= i < programs(order, n).len() ==> (#[trigger] programs(order, n)[i]).delta == 0
                && exists|x: u8|
                {
                    &&& #[trigger] order.contains(x)
                    &&& x < n && x != 128
                    &&& programs(order, n)[i].message == Message::Voice(
                        channel_of(order, x),
                        Voice::Program(
                            if x < 128 {
                                x
                            } else {
                                127
                            },
                        ),
                    )
                },
    decreases n,
{
    if n > 0 {
        lemma_programs_are(order, n - 1);
        let before = programs(order, n - 1);
        let all = programs(order, n);
        let y = (n - 1) as u8;
        assert forall|x: u8|
            #![trigger order.contains(x)]
            x < n && x != 128 && order.contains(x) implies all.contains(
            TrackEvent {
                delta: 0,
                message: Message::Voice(
                    channel_of(order, x),
                    Voice::Program(
                        if x < 128 {
                            x
                        } else {
                            127
                        },
                    ),
                ),
            },
        ) by {
            let event = TrackEvent {
                delta: 0,
                message: Message::Voice(
                    channel_of(order, x),
                    Voice::Program(
                        if x < 128 {
                            x
                        } else {
                            127
                        },
                    ),
                ),
            };
            if x == y {
                assert(all[before.len() as int] == event);
            } else {
                assert(before.contains(event));
                let k = choose|k: int| 0 <= k < before.len() && before[k] == event;
                assert(all[k] == event);
            }
        }
        assert forall|i: int| 0 <= i < all.len() implies (#[trigger] all[i]).delta == 0 && exists|
            x: u8,
        |
            {
                &&& #[trigger] order.contains(x)
                &&& x < n && x != 128
                &&& all[i].message == Message::Voice(
                    channel_of(order, x),
                    Voice::Program(
                        if x < 128 {
                            x
                        } else {
                            127
                        },
                    ),
                )
            } by {
            if i < before.len() {
                assert(all[i] == before[i]);
            } else {
                assert(order.contains(y));
            }
        }
    }
}

/// A note that starts is struck with the velocity 84, and one that ends is let go with none,
/// each with its pitch and on its channel.
pub proof fn lemma_messages(notes: Seq<TimedNote>, count: int, i: int)
    requires
        0 <= i < count <= notes.len(),
    ensures
        note_events(notes, count).len() == count,
        note_events(notes, count)[i].message == Message::Voice(
            notes[i].channel,
            if notes[i].on {
                Voice::NoteOn(notes[i].pitch, 84)
            } else {
                Voice::NoteOff(notes[i].pitch, 0)
            },
        ),
    decreases count,
{
    if count == 1 {
        assert(note_events(notes, 0).len() == 0);
    } else if i < count - 1 {
        lemma_messages(notes, count - 1, i);
        assert(note_events(notes, count)[i] == note_events(notes, count - 1)[i]);
    } else {
        lemma_messages(notes, count - 1, 0);
    }
}

/// Events without time between them pass no time.
proof fn lemma_no_time(events: Seq<TrackEvent>, n: int)
    requires
        0 <= n <= events.len(),
        forall|i: int| 0 <= i < n ==> (#[trigger] events[i]).delta == 0,
    ensures
        passed(events, n) == 0,
    decreases n,
{
    if n > 0 {
        lemma_no_time(events, n - 1);
    }
}

/// Time that passes after events without time between them.
proof fn lemma_time_after(front: Seq<TrackEvent>, events: Seq<TrackEvent>, back: Seq<TrackEvent>, n: int)
    requires
        0 <= n <= events.len(),
        forall|i: int| 0 <= i < front.len() ==> (#[trigger] front[i]).delta == 0,
    ensures
        passed(front + events + back, front.len() + n) == passed(events, n),
    decreases n,
{
    let all = front + events + back;
    if n > 0 {
        lemma_time_after(front, events, back, n - 1);
        assert(all[front.len() + n - 1] == events[n - 1]);
    } else {
        assert forall|i: int| 0 <= i < front.len() implies (#[trigger] all[i]).delta == 0 by {
            assert(all[i] == front[i]);
        }
        lemma_no_time(all, front.len() as int);
    }
}

/// Every note of a piece is in its track: struck when its onset has come, and let go when its
/// duration has passed, on the channel of its instrument. No note may be as late as the
/// largest time that a file can hold between two events.
pub proof fn lemma_notes_are_written(
    events: Seq<AmtEvent>,
    bpm: Single,
    meter: Option<TimeSignature>,
    i: int,
)
    requires
        0 <= i < events.len(),
        forall|k: int|
            0 <= k < 2 * events.len() ==> (#[trigger] timed_notes(
                events,
                tempo_microseconds(bpm) as u32,
                events.len() as int,
            )[k]).ticks < 0x1000_0000,
    ensures
        ({
            let us = tempo_microseconds(bpm) as u32;
            let whole = track(events, bpm, meter);
            let channel = channel_of(
                instruments(events, events.len() as int),
                (events[i].note_id / 128) as u8,
            );
            let pitch = (events[i].note_id % 128) as u8;
            &&& exists|at: int|
                {
                    &&& 0 <= at < whole.len()
                    &&& (#[trigger] whole[at]).message == Message::Voice(
                        channel,
                        Voice::NoteOn(pitch, 84),
                    )
                    &&& passed(whole, at + 1) == midi_ticks(events[i].time, us) as u64
                }
            &&& exists|at: int|
                {
                    &&& 0 <= at < whole.len()
                    &&& (#[trigger] whole[at]).message == Message::Voice(
                        channel,
                        Voice::NoteOff(pitch, 0),
                    )
                    &&& passed(whole, at + 1) == midi_ticks(
                        (events[i].time + events[i].duration) as u32,
                        us,
                    ) as u64
                }
        }),
{
    let us = tempo_microseconds(bpm) as u32;
    let n = events.len() as int;
    let list = timed_notes(events, us, n);
    lemma_starts_and_ends(events, us, n, i);
    lemma_written(events, bpm, meter, 2 * i);
    lemma_written(events, bpm, meter, 2 * i + 1);
}

proof fn lemma_written(events: Seq<AmtEvent>, bpm: Single, meter: Option<TimeSignature>, k: int)
    requires
        0 <= k < 2 * events.len(),
        forall|k: int|
            0 <= k < 2 * events.len() ==> (#[trigger] timed_notes(
                events,
                tempo_microseconds(bpm) as u32,
                events.len() as int,
            )[k]).ticks < 0x1000_0000,
    ensures
        ({
            let note = timed_notes(
                events,
                tempo_microseconds(bpm) as u32,
                events.len() as int,
            )[k];
            let whole = track(events, bpm, meter);
            exists|at: int|
                {
                    &&& 0 <= at < whole.len()
                    &&& (#[trigger] whole[at]).message == Message::Voice(
                        note.channel,
                        if note.on {
                            Voice::NoteOn(note.pitch, 84)
                        } else {
                            Voice::NoteOff(note.pitch, 0)
                        },
                    )
                    &&& passed(whole, at + 1) == note.ticks
                }
        }),
{
    broadcast use vstd::seq_lib::group_to_multiset_ensures;

    let us = tempo_microseconds(bpm) as u32;
    let n = events.len() as int;
    let list = timed_notes(events, us, n);
    lemma_starts_and_ends(events, us, n, 0);
    lemma_arranged(list, 2 * n);
    assert(list.take(2 * n) =~= list);
    let notes = arranged(list, 2 * n);
    let note = list[k];
    assert(list.contains(note));
    assert(notes.to_multiset().count(note) > 0);
    assert(notes.contains(note));
    let j = choose|j: int| 0 <= j < notes.len() && notes[j] == note;
    assert forall|q: int| 0 <= q < notes.len() implies (#[trigger] notes[q]).ticks
        < 0x1000_0000 by {
        assert(notes.contains(notes[q]));
        assert(list.to_multiset().count(notes[q]) > 0);
        assert(list.contains(notes[q]));
        let r = choose|r: int| 0 <= r < list.len() && list[r] == notes[q];
        assert(list[r].ticks < 0x1000_0000);
    }
    assert(notes[0].ticks < 0x1000_0000);
    lemma_note_places(notes, 2 * n, j);
    lemma_messages(notes, 2 * n, j);
    let order = instruments(events, n);
    lemma_programs_are(order, 256);
    let front = opening(us, meter) + programs(order, 256);
    assert forall|q: int| 0 <= q < front.len() implies (#[trigger] front[q]).delta == 0 by {
        if q >= opening(us, meter).len() {
            assert(front[q] == programs(order, 256)[q - opening(us, meter).len()]);
        }
    }
    let voices = note_events(notes, 2 * n);
    let back = seq![TrackEvent { delta: 0, message: Message::Meta(Meta::EndOfTrack) }];
    lemma_time_after(front, voices, back, j + 1);
    let whole = track(events, bpm, meter);
    assert(whole =~= front + voices + back);
    let at = front.len() + j;
    assert(whole[at] == voices[j]);
    assert(passed(whole, at + 1) == note.ticks);
}

/// A track holds its tempo, its meter where there is one, a program for every melodic
/// instrument, two events for every note, and its end, and nothing else.
pub proof fn lemma_track_length(events: Seq<AmtEvent>, bpm: Single, meter: Option<TimeSignature>)
    ensures
        track(events, bpm, meter).len() == 2 + (if meter is Some {
            1int
        } else {
            0
        }) + programs(instruments(events, events.len() as int), 256).len() + 2 * events.len(),
        PPQ == 480,
{
    let us = tempo_microseconds(bpm) as u32;
    let n = events.len() as int;
    let list = timed_notes(events, us, n);
    if n > 0 {
        lemma_starts_and_ends(events, us, n, 0);
        lemma_arranged(list, 2 * n);
        lemma_messages(arranged(list, 2 * n), 2 * n, 0);
    } else {
        assert(note_events(arranged(list, 2 * n), 0).len() == 0);
    }
}

/// The notes of a track are in the order of time, and at the same time those that end come
/// before those that start.
pub proof fn lemma_time_order(notes: Seq<TimedNote>, n: int, i: int, j: int)
    requires
        0 <= n <= notes.len(),
        0 <= i < j < arranged(notes, n).len(),
    ensures
        arranged(notes, n)[i].ticks <= arranged(notes, n)[j].ticks,
        arranged(notes, n)[i].ticks == arranged(notes, n)[j].ticks && arranged(notes, n)[i].on
            ==> arranged(notes, n)[j].on,
{
    lemma_arranged(notes, n);
}

/// Notes that are in order already stay where they are: among those that start at the same
/// time, or end at it, none overtakes another.
pub proof fn lemma_order_is_kept(notes: Seq<TimedNote>, n: int)
    requires
        0 <= n <= notes.len(),
        forall|i: int, j: int|
            0 <= i < j < n ==> {
                &&& (#[trigger] notes[i]).ticks <= (#[trigger] notes[j]).ticks
                &&& notes[i].ticks == notes[j].ticks && notes[i].on ==> notes[j].on
            },
    ensures
        arranged(notes, n) == notes.take(n),
    decreases n,
{
    if n > 0 {
        lemma_order_is_kept(notes, n - 1);
        if n > 1 {
            assert(notes.take(n - 1).last() == notes[n - 2]);
            assert(notes[n - 2].ticks <= notes[n - 1].ticks);
        }
        assert(arranged(notes, n) =~= notes.take(n));
    } else {
        assert(arranged(notes, n) =~= notes.take(n));
    }
}

/// Programs are told in the order of the instruments: those of lower number first.
pub proof fn lemma_programs_in_order(order: Seq<u8>, m: int, n: int)
    requires
        0 <= m <= n <= 256,
    ensures
        programs(order, m).len() <= programs(order, n).len(),
        programs(order, n).take(programs(order, m).len() as int) == programs(order, m),
        programs(order, n).len() - programs(order, m).len() <= n - m,
    decreases n,
{
    if m < n {
        lemma_programs_in_order(order, m, n - 1);
        assert(programs(order, n).take(programs(order, m).len() as int) =~= programs(
            order,
            n - 1,
        ).take(programs(order, m).len() as int));
    } else {
        assert(programs(order, n).take(programs(order, n).len() as int) =~= programs(order, n));
    }
}

/// Notes that start at the same time, or end at it, keep the order in which they were given,
/// whatever else is put between them.
pub proof fn lemma_equals_keep_order(notes: Seq<TimedNote>, n: int, ticks: u64, on: bool)
    requires
        0 <= n <= notes.len(),
    ensures
        arranged(notes, n).filter(|note: TimedNote| note.ticks == ticks && note.on == on)
            == notes.take(n).filter(|note: TimedNote| note.ticks == ticks && note.on == on),
    decreases n,
{
    let same = |note: TimedNote| note.ticks == ticks && note.on == on;
    if n > 0 {
        lemma_equals_keep_order(notes, n - 1, ticks, on);
        lemma_put_equals(arranged(notes, n - 1), notes[n - 1], ticks, on);
        assert(notes.take(n) =~= notes.take(n - 1).push(notes[n - 1]));
        lemma_filter_push(notes.take(n - 1), notes[n - 1], same);
    } else {
        assert(arranged(notes, n) =~= notes.take(n));
    }
}

proof fn lemma_filter_push(list: Seq<TimedNote>, note: TimedNote, same: spec_fn(TimedNote) -> bool)
    ensures
        list.push(note).filter(same) == if same(note) {
            list.filter(same).push(note)
        } else {
            list.filter(same)
        },
{
    reveal(Seq::filter);
    assert(list.push(note).drop_last() =~= list);
}

proof fn lemma_put_equals(list: Seq<TimedNote>, note: TimedNote, ticks: u64, on: bool)
    ensures
        put_in_order(list, note).filter(|x: TimedNote| x.ticks == ticks && x.on == on) == if note.ticks
            == ticks && note.on == on {
            list.filter(|x: TimedNote| x.ticks == ticks && x.on == on).push(note)
        } else {
            list.filter(|x: TimedNote| x.ticks == ticks && x.on == on)
        },
    decreases list.len(),
{
    let same = |x: TimedNote| x.ticks == ticks && x.on == on;
    if list.len() == 0 || in_order(list.last(), note) {
        lemma_filter_push(list, note, same);
    } else {
        let front = list.drop_last();
        lemma_put_equals(front, note, ticks, on);
        lemma_filter_push(put_in_order(front, note), list.last(), same);
        lemma_filter_push(front, list.last(), same);
        assert(front.push(list.last()) =~= list);
    }
}

} // verus!
