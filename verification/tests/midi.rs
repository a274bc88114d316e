//! MIDI files, and the arithmetic of tempo and ticks.

use maolan_generate::single::Single;
use maolan_generate::text_to_midi::amt::{AmtEvent, MAX_DUR};
use maolan_generate::text_to_midi::midi::{write_midi, TimeSignature, DEFAULT_VELOCITY, PPQ};
use maolan_generate::text_to_midi::timing::{
    amt_ticks_to_midi_ticks, beat_grid, clamp_tempo, length_ticks, tempo_us_from_bpm,
};

fn single(value: f32) -> Single {
    Single { bits: value.to_bits() }
}

#[test]
fn tempo_conversion() {
    assert_eq!(tempo_us_from_bpm(single(120.0)), 500_000);
    assert_eq!(tempo_us_from_bpm(single(60.0)), 1_000_000);
}

#[test]
fn writes_and_reads_midi() {
    let events = vec![
        AmtEvent { time: 0, duration: 100, note_id: 60 },
        AmtEvent { time: 100, duration: 100, note_id: 64 },
    ];
    let data = write_midi(&events, single(120.0), TimeSignature::parse("4/4")).expect("a file");
    let smf = midly::Smf::parse(&data).unwrap();
    assert_eq!(smf.header.format, midly::Format::SingleTrack);
    let track = smf.tracks.first().expect("one track");
    let note_ons: Vec<_> = track
        .iter()
        .filter(|e| {
            matches!(
                e.kind,
                midly::TrackEventKind::Midi { message: midly::MidiMessage::NoteOn { .. }, .. }
            )
        })
        .collect();
    assert_eq!(note_ons.len(), 2);
}

#[test]
fn clamps_excessive_duration() {
    let event = AmtEvent { time: 0, duration: MAX_DUR - 1, note_id: 60 };
    assert!(amt_ticks_to_midi_ticks(event.time + event.duration, 500_000) > 0);
}

fn sweep() -> Vec<f32> {
    let mut values: Vec<f32> = (0..4000u32)
        .map(|i| f32::from_bits(i.wrapping_mul(2_654_435_761)))
        .collect();
    values.extend((0..4000).map(|i| 15.0 + i as f32 * 0.1));
    values.extend([
        0.0, -0.0, 20.0, 400.0, 19.999_998, 400.000_03, f32::INFINITY, f32::NEG_INFINITY, f32::MAX,
    ]);
    values
}

#[test]
fn tempos_agree_with_machine_arithmetic() {
    for bpm in sweep() {
        let clamped = bpm.clamp(20.0, 400.0);
        if bpm.is_nan() {
            assert!(f32::from_bits(clamp_tempo(single(bpm)).bits).is_nan());
        } else {
            assert_eq!(f32::from_bits(clamp_tempo(single(bpm)).bits), clamped);
        }
        assert_eq!(tempo_us_from_bpm(single(bpm)), (60_000_000.0 / clamped).round() as u32, "{bpm}");
    }
}

#[test]
fn ticks_agree_with_machine_arithmetic() {
    for ticks in (0..11_000u32).step_by(7).chain([u32::MAX, u32::MAX - 1, 4_000_000_019]) {
        for tempo in [0u32, 1, 3, 150_000, 500_000, 666_667, 1_000_000, 3_000_000, u32::MAX] {
            let factor = (PPQ as f64 * 10_000.0) / tempo as f64;
            let expected = (ticks as f64 * factor).round() as u64;
            assert_eq!(amt_ticks_to_midi_ticks(ticks, tempo), expected, "{ticks} at {tempo}");
        }
    }
}

#[test]
fn lengths_agree_with_machine_arithmetic() {
    for seconds in sweep() {
        let expected = ((seconds * 100.0).round() as u32).min(9_999);
        assert_eq!(length_ticks(single(seconds)), expected, "{seconds}");
    }
}

#[test]
fn grids_agree_with_machine_arithmetic() {
    for bpm in (0..3800).map(|i| 20.0 + i as f32 * 0.1) {
        for denominator in [2u8, 4, 8, 16] {
            let value = match denominator {
                8 => 0.5,
                2 => 2.0,
                _ => 1.0,
            };
            let step = 60.0 / bpm as f64 * value * 100.0;
            let length = ((7.3f32 * 100.0).round() as u32).min(9_999);
            let total = ((length as f64) / step.max(1.0)).floor() as usize;
            let grid = beat_grid(single(bpm), denominator, single(7.3));
            assert_eq!(grid.length, length);
            assert_eq!(grid.step, step.round().max(1.0) as u32, "{bpm} over {denominator}");
            assert_eq!(grid.steps as usize, total, "{bpm} over {denominator}");
        }
    }
}

#[test]
fn notes_stand_at_their_times() {
    let events: Vec<AmtEvent> = [700, 0, 350, 30]
        .iter()
        .map(|&time| AmtEvent { time, duration: 25, note_id: 60 })
        .collect();
    let data = write_midi(&events, single(120.0), None).expect("a file");
    let smf = midly::Smf::parse(&data).unwrap();
    let mut now: u32 = 0;
    let mut starts: Vec<u32> = Vec::new();
    for event in &smf.tracks[0] {
        now += event.delta.as_int();
        if let midly::TrackEventKind::Midi { message: midly::MidiMessage::NoteOn { .. }, .. } = event.kind
        {
            starts.push(now);
        }
    }
    assert_eq!(starts, vec![0, 288, 3_360, 6_720]);
}

#[test]
fn tracks_hold_programs_and_deltas() {
    let events = vec![
        AmtEvent { time: 0, duration: 50, note_id: 24 * 128 + 40 },
        AmtEvent { time: 50, duration: 50, note_id: 128 * 128 + 36 },
        AmtEvent { time: 50, duration: 50, note_id: 24 * 128 + 40 },
    ];
    let data = write_midi(&events, single(120.0), None).expect("a file");
    let smf = midly::Smf::parse(&data).unwrap();
    let track = &smf.tracks[0];
    let notes: Vec<(u32, u8, bool, u8, u8)> = track
        .iter()
        .filter_map(|event| match event.kind {
            midly::TrackEventKind::Midi { channel, message } => match message {
                midly::MidiMessage::NoteOn { key, vel } => {
                    Some((event.delta.as_int(), channel.as_int(), true, key.as_int(), vel.as_int()))
                }
                midly::MidiMessage::NoteOff { key, vel } => {
                    Some((event.delta.as_int(), channel.as_int(), false, key.as_int(), vel.as_int()))
                }
                midly::MidiMessage::ProgramChange { program } => {
                    assert_eq!((channel.as_int(), program.as_int()), (0, 24));
                    None
                }
                _ => panic!("no other message"),
            },
            _ => None,
        })
        .collect();
    assert_eq!(
        notes,
        vec![
            (0, 0, true, 40, DEFAULT_VELOCITY),
            (480, 0, false, 40, 0),
            (0, 9, true, 36, DEFAULT_VELOCITY),
            (0, 0, true, 40, DEFAULT_VELOCITY),
            (480, 9, false, 36, 0),
            (0, 0, false, 40, 0),
        ]
    );
    match smf.header.timing {
        midly::Timing::Metrical(ppq) => assert_eq!(ppq.as_int(), PPQ),
        _ => panic!("metrical timing"),
    }
    assert!(matches!(
        track.last().map(|event| event.kind),
        Some(midly::TrackEventKind::Meta(midly::MetaMessage::EndOfTrack))
    ));
}

#[test]
fn instruments_get_their_own_channels() {
    let events: Vec<AmtEvent> =
        (0..12u32).map(|i| AmtEvent { time: i, duration: 1, note_id: i * 128 + 60 }).collect();
    let data = write_midi(&events, single(120.0), None).expect("a file");
    let smf = midly::Smf::parse(&data).unwrap();
    let channels: Vec<u8> = smf.tracks[0]
        .iter()
        .filter_map(|event| match event.kind {
            midly::TrackEventKind::Midi {
                channel,
                message: midly::MidiMessage::ProgramChange { .. },
            } => Some(channel.as_int()),
            _ => None,
        })
        .collect();
    assert_eq!(channels, vec![0, 1, 2, 3, 4, 5, 6, 7, 8, 10, 11, 12]);
}

fn note_channels(events: &[AmtEvent]) -> Vec<u8> {
    let data = write_midi(events, single(120.0), None).expect("a file");
    let smf = midly::Smf::parse(&data).unwrap();
    smf.tracks[0]
        .iter()
        .filter_map(|event| match event.kind {
            midly::TrackEventKind::Midi { channel, message: midly::MidiMessage::NoteOn { .. } } => {
                Some(channel.as_int())
            }
            _ => None,
        })
        .collect()
}

#[test]
fn drums_have_their_own_channel() {
    let drums = AmtEvent { time: 0, duration: 1, note_id: 128 * 128 + 36 };
    assert_eq!(note_channels(&[drums]), vec![9]);
    let mut events = vec![drums];
    events.extend((0..15u32).map(|i| AmtEvent { time: i + 1, duration: 1, note_id: i * 128 + 60 }));
    assert_eq!(note_channels(&events), vec![9, 0, 1, 2, 3, 4, 5, 6, 7, 8, 10, 11, 12, 13, 14, 15]);
}

#[test]
fn channels_are_used_again_after_the_fifteenth() {
    let events: Vec<AmtEvent> =
        (0..40u32).map(|i| AmtEvent { time: i, duration: 1, note_id: i * 128 + 60 }).collect();
    let channels = note_channels(&events);
    assert!(channels.iter().all(|&channel| channel != 9));
    assert_eq!(channels[15..18], [0, 1, 2]);
    assert_eq!(channels[24], 10);
}

#[test]
fn signatures_are_read() {
    assert_eq!(TimeSignature::default(), TimeSignature { numerator: 0, denominator: 0 });
    let signature = TimeSignature::parse(" 6 /8").expect("a signature");
    assert_eq!((signature.numerator, signature.denominator), (6, 8));
    for text in ["", "4", "0/4", "4/0", "4/4/4", "x/4", "256/4"] {
        assert!(TimeSignature::parse(text).is_none(), "{text}");
    }
}
