//! Events from a prompt.

use maolan_generate::single::Single;
use maolan_generate::text_to_midi::amt::{tokens_to_events, AmtEvent, MAX_DUR};
use maolan_generate::text_to_midi::generate_midi_file;
use maolan_generate::text_to_midi::generator::{
    drum_pitch, generate_events, generate_tokens, TextToMidiConfig,
};
use maolan_generate::text_to_midi::words::{
    detect_bpm, detect_key, detect_meter, normalize_prompt, parse_key_scale, parse_root,
    parse_time_signature, Scale,
};
use rand::rngs::StdRng;
use rand::{RngExt, SeedableRng};

fn single(value: f32) -> Single {
    Single { bits: value.to_bits() }
}

fn words(text: &str) -> Vec<String> {
    normalize_prompt(text)
}

#[test]
fn default_generation_produces_events() {
    let config = TextToMidiConfig { prompt: "happy piano melody", ..Default::default() };
    let events = generate_events(&config);
    assert!(!events.is_empty(), "should generate at least one note");
    for event in &events {
        assert!(event.pitch() <= 127);
        assert!(event.duration > 0);
    }
}

#[test]
fn drum_style_generates_channel_9_events() {
    let config = TextToMidiConfig {
        prompt: "fast drum beat",
        length_seconds: single(2.0),
        ..Default::default()
    };
    let events = generate_events(&config);
    assert!(events.iter().all(|e| e.instrument() == 128));
}

#[test]
fn key_scale_override_used() {
    let config = TextToMidiConfig {
        prompt: "bassline",
        key_scale: Some("A minor"),
        length_seconds: single(1.0),
        ..Default::default()
    };
    let events = generate_events(&config);
    assert!(!events.is_empty());
}

#[test]
fn seed_is_deterministic() {
    let config = TextToMidiConfig { prompt: "melody", seed: 42, ..Default::default() };
    let first = generate_events(&config);
    let second = generate_events(&config);
    assert_eq!(first, second);
}

const MAJOR: [u32; 7] = [0, 2, 4, 5, 7, 9, 11];

#[test]
fn melodies_follow_the_draws() {
    for seed in [0, 42, 7_777] {
        let mut rng = StdRng::seed_from_u64(seed);
        let mut expected = Vec::new();
        for step in 0..20u32 {
            if rng.random::<f32>() > 0.45 {
                continue;
            }
            let degree: usize = rng.random_range(0..7);
            let octave: i8 = rng.random_range(0..2);
            let beats: u32 = rng.random_range(1..=3);
            expected.push(AmtEvent {
                time: step * 50,
                duration: 50 * beats,
                note_id: 60 + 12 * octave as u32 + MAJOR[degree],
            });
        }
        let config = TextToMidiConfig { prompt: "melody", seed, ..Default::default() };
        assert_eq!(generate_events(&config), expected);
    }
}

#[test]
fn basslines_follow_the_draws() {
    let mut rng = StdRng::seed_from_u64(3);
    let mut expected = Vec::new();
    for step in 0..20u32 {
        let downbeat = step % 4 == 0;
        if !(downbeat || rng.random::<f32>() < 0.25) {
            continue;
        }
        let degree: usize = if downbeat { 0 } else { rng.random_range(0..7) };
        expected.push(AmtEvent {
            time: step * 50,
            duration: if downbeat { 100 } else { 50 },
            note_id: 32 * 128 + 60 - 24 + MAJOR[degree],
        });
    }
    let config = TextToMidiConfig { prompt: "bassline", seed: 3, ..Default::default() };
    assert_eq!(generate_events(&config), expected);
}

#[test]
fn chords_and_arpeggios_need_no_draws() {
    let config = TextToMidiConfig {
        prompt: "organ chords",
        length_seconds: single(4.0),
        ..Default::default()
    };
    let events = generate_events(&config);
    let notes: Vec<(u32, u32, u32)> = events.iter().map(|e| (e.time, e.duration, e.note_id)).collect();
    let base = 16 * 128;
    assert_eq!(
        notes,
        vec![
            (0, 200, base + 60),
            (0, 200, base + 64),
            (0, 200, base + 67),
            (200, 200, base + 60),
            (200, 200, base + 64),
            (200, 200, base + 67),
        ]
    );
    let config = TextToMidiConfig {
        prompt: "flute arpeggio",
        length_seconds: single(2.0),
        seed: 99,
        ..Default::default()
    };
    let notes: Vec<u32> = generate_events(&config).iter().map(|e| e.note_id - 73 * 128).collect();
    assert_eq!(notes, vec![60, 64, 67, 60]);
    let other = TextToMidiConfig { seed: 1, ..config };
    assert_eq!(generate_events(&config), generate_events(&other));
}

#[test]
fn drums_repeat_a_pattern() {
    assert_eq!((0..8).map(drum_pitch).collect::<Vec<u8>>(), vec![36, 42, 38, 42, 36, 42, 38, 42]);
    let config = TextToMidiConfig {
        prompt: "drums",
        bpm: Some(single(60.0)),
        length_seconds: single(3.0),
        ..Default::default()
    };
    let notes: Vec<(u32, u32, u8)> =
        generate_events(&config).iter().map(|e| (e.time, e.duration, e.pitch())).collect();
    assert_eq!(notes, vec![(0, 25, 36), (100, 25, 42), (200, 25, 38)]);
}

#[test]
fn tokens_are_those_of_the_events() {
    let config = TextToMidiConfig { prompt: "busy violin solo", seed: 5, ..Default::default() };
    assert_eq!(tokens_to_events(&generate_tokens(&config)), generate_events(&config));
}

#[test]
fn tempos_are_read() {
    let bpm = |text: &str, given: Option<f32>| -> f32 {
        f32::from_bits(detect_bpm(&words(text), given.map(single)).bits)
    };
    assert_eq!(bpm("anything", Some(1000.0)), 400.0);
    assert_eq!(bpm("anything", Some(1.0)), 20.0);
    assert_eq!(bpm("95 bpm groove", None), 95.0);
    assert_eq!(bpm("bpm 95", None), 120.0);
    assert_eq!(bpm("5 BPM", None), 20.0);
    assert_eq!(bpm("a fast one", None), 140.0);
    assert_eq!(bpm("calm", None), 70.0);
    assert_eq!(bpm("moderate", None), 110.0);
    assert_eq!(bpm("", None), 120.0);
    for text in ["1e2 bpm", "123456789 bpm", "inf bpm", "infinity bpm", "0 bpm", "16777217 bpm", "3e38 bpm", "1e bpm"] {
        let list = words(text);
        let expected = list[0].parse::<f32>().map(|value| value.clamp(20.0, 400.0)).unwrap_or(120.0);
        assert_eq!(bpm(text, None), expected, "{text}");
    }
    assert!(bpm("nan bpm", None).is_nan());
}

#[test]
fn tempos_are_parsed_as_the_machine_does() {
    let mut texts: Vec<String> = [
        "95.5", "+95.5", "-95.5", "95.", ".5", ".", "", "+", "-", "e5", ".e5", "1e", "1e+", "1E2",
        "1e+2", "1e-2", "12345e-2", "0.000000000000123e15", "Inf", "-inf", "+INFINITY", "infin",
        "--5", "5 ", " 5", "1_0", "0x10", "9e99999999999999999999999", "9e-99999999999999999999999",
        "0e99999999999999999999999", "1.5.5", "1e2e2", "1e2.5", "399.99999999999999999999",
        "400.0000001", "19.9999999", "19.99999999999999999999", "00000000000000000000120",
        "0.00000000000000000000000000000000000001e40", "31.999999", "31.99999999",
    ]
    .iter()
    .map(|text| text.to_string())
    .collect();
    for i in 0..400u32 {
        let value = 20.0 + i as f32 * 0.95;
        let next = f32::from_bits(value.to_bits() + 1);
        let middle = (value as f64 + next as f64) / 2.0;
        texts.push(format!("{middle:.40}"));
        texts.push(format!("{middle:.40}1"));
        texts.push(format!("{:.12}", middle - 1e-9));
        texts.push(format!("{value:e}"));
        texts.push(format!("{}e-{}", i.wrapping_mul(2_654_435_761), i % 12));
    }
    for text in texts {
        let list = vec![text.clone(), "bpm".to_string()];
        let found = f32::from_bits(detect_bpm(&list, None).bits);
        let expected =
            text.parse::<f32>().map(|value| value.clamp(20.0, 400.0)).unwrap_or(120.0);
        assert_eq!(found, expected, "{text}");
    }
    for text in ["nan", "NaN", "+nan", "-nan"] {
        let list = vec![text.to_string(), "bpm".to_string()];
        assert!(f32::from_bits(detect_bpm(&list, None).bits).is_nan(), "{text}");
    }
}

#[test]
fn words_are_alphanumeric_runs() {
    assert_eq!(words("Happy, PIANO--melody!"), vec!["happy", "piano", "melody"]);
    assert_eq!(words("café naïve Éa ½_x"), vec!["café", "naïve", "Éa", "½", "x"]);
    assert!(words(" \t ").is_empty());
}

#[test]
fn keys_are_read() {
    assert_eq!(parse_root("C"), Some(60));
    assert_eq!(parse_root("f#"), Some(66));
    assert_eq!(parse_root("Cb"), Some(71));
    assert_eq!(parse_root("B♭"), Some(70));
    assert_eq!(parse_root("Bsharp"), Some(60));
    assert_eq!(parse_root("H"), None);
    assert_eq!(parse_root(""), None);
    assert_eq!(parse_root("C##"), None);
    let minor = parse_key_scale("A minor").expect("a scale");
    assert_eq!((0..8).map(|d| minor.pitch(d, 0)).collect::<Vec<u8>>(), vec![69, 71, 72, 74, 76, 77, 79, 69]);
    assert!(parse_key_scale("\u{2003}D\u{a0}MAJ rest").is_some());
    assert!(parse_key_scale("A").is_none());
    assert!(parse_key_scale("A dorian").is_none());
    let scale = Scale::new(60, false);
    assert_eq!(scale.pitch(0, -10), 0);
    assert_eq!(scale.pitch(6, 10), 127);
}

#[test]
fn time_signatures_are_read() {
    assert_eq!(parse_time_signature(Some("6/8")), (6, 8));
    assert_eq!(parse_time_signature(Some(" 3 / 4 ")), (3, 4));
    for text in ["", "4", "0/4", "4/0", "x/4", "4/x", "300/4"] {
        assert_eq!(parse_time_signature(Some(text)), (4, 4));
    }
    assert_eq!(parse_time_signature(None), (4, 4));
}

#[test]
fn files_are_written_from_a_prompt() {
    let config = TextToMidiConfig {
        prompt: "90 bpm piano melody",
        time_signature: Some("3/4"),
        ..Default::default()
    };
    let bytes = generate_midi_file(&config).expect("a file");
    let smf = midly::Smf::parse(&bytes).expect("a MIDI file");
    assert_eq!(smf.tracks.len(), 1);
    match smf.tracks[0][0].kind {
        midly::TrackEventKind::Meta(midly::MetaMessage::Tempo(us)) => assert_eq!(us.as_int(), 666_667),
        _ => panic!("the tempo comes first"),
    }
    match smf.tracks[0][1].kind {
        midly::TrackEventKind::Meta(midly::MetaMessage::TimeSignature(n, d, c, b)) => {
            assert_eq!((n, d, c, b), (3, 2, 24, 8));
        }
        _ => panic!("the time signature comes second"),
    }
}

#[test]
fn key_and_meter_come_from_the_prompt() {
    for prompt in ["bassline in A minor 3/4", "a slow bassline (A minor, 3/4)."] {
        let hinted = TextToMidiConfig { prompt, ..Default::default() };
        let given = TextToMidiConfig {
            key_scale: Some("A minor"),
            time_signature: Some("3/4"),
            ..hinted
        };
        assert_eq!(generate_events(&hinted), generate_events(&given));
        let bytes = generate_midi_file(&hinted).expect("a file");
        assert_eq!(bytes, generate_midi_file(&given).expect("a file"));
        let smf = midly::Smf::parse(&bytes).expect("a MIDI file");
        assert!(matches!(
            smf.tracks[0][1].kind,
            midly::TrackEventKind::Meta(midly::MetaMessage::TimeSignature(3, 2, 24, 8))
        ));
    }
}

#[test]
fn given_key_and_meter_win() {
    let prompt = "bassline in A minor 3/4";
    assert_eq!(detect_key(prompt, None), Scale::new(69, true));
    assert_eq!(detect_key(prompt, Some("C# maj")), Scale::new(61, false));
    assert_eq!(detect_key(prompt, Some("none")), Scale::new(60, false));
    assert_eq!(detect_key("a minor bass", None), Scale::new(69, true));
    assert_eq!(detect_key("bass", None), Scale::new(60, false));
    let meter = |given| detect_meter(prompt, given).map(|ts| (ts.numerator, ts.denominator));
    assert_eq!(meter(None), Some((3, 4)));
    assert_eq!(meter(Some("6/8")), Some((6, 8)));
    assert_eq!(meter(Some("six")), None);
    assert!(detect_meter("and/or 4/4/4", None).is_none());
}

#[test]
fn durations_stay_below_the_largest() {
    let config = TextToMidiConfig {
        prompt: "arpeggio",
        bpm: Some(single(20.0)),
        time_signature: Some("4/2"),
        length_seconds: single(60.0),
        ..Default::default()
    };
    let events = generate_events(&config);
    assert!(!events.is_empty());
    assert!(events.iter().all(|event| event.duration == MAX_DUR - 1));
}
