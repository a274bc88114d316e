//! Text-to-MIDI generation: the arrival-time tokens of the Anticipatory Music
//! Transformer, generators of note events, and the MIDI file writer.

use vstd::prelude::*;

use crate::single::Single;
use crate::text_to_midi::generator::{config_events, generate_events, TextToMidiConfig};
use crate::text_to_midi::midi::{
    file_bytes, signature_named, track, write_midi, TimeSignature, PPQ,
};
use crate::text_to_midi::words::{
    detect_bpm, detect_meter, hinted_scale, hinted_signature, hints_of, meter_of,
    normalize_prompt, optional_text, scale_named, tempo_of, words_of,
};

pub mod amt;
pub mod generator;
pub mod hf_settings;
pub mod hf_tokenizer;
pub mod midi;
pub mod midi_llm;
pub mod rng;
pub mod tempo;
pub mod tiktoken_convert;
pub mod timing;
pub mod words;

verus! {

/// The tempo that a MIDI file is written with: the given one, or else the one
/// that the prompt states or suggests.
pub open spec fn file_tempo(config: TextToMidiConfig) -> Single {
    match config.bpm {
        Some(bpm) => bpm,
        None => tempo_of(words_of(config.prompt@), None),
    }
}

/// The time signature that a MIDI file is written with: the given one, and where
/// none is given the one that the prompt names.
pub open spec fn file_signature(config: TextToMidiConfig) -> Option<TimeSignature> {
    meter_of(config.prompt@, optional_text(config.time_signature))
}

/// Generates the bytes of a MIDI file from a prompt.
///
/// `bpm`, `key_scale` and `time_signature` may be extracted from the prompt or
/// supplied explicitly. `length_seconds` caps the generated sequence.
pub fn generate_midi_file(config: &TextToMidiConfig) -> (bytes: Option<Vec<u8>>)
    ensures
        match file_bytes(
            seq![track(config_events(*config), file_tempo(*config), file_signature(*config))],
            seq![0u16, PPQ],
        ) {
            Some(written) => bytes is Some && bytes->0@ == written,
            None => bytes is None,
        },
{
    let events = generate_events(config);
    let signature = detect_meter(config.prompt, config.time_signature);
    let bpm = match config.bpm {
        Some(bpm) => bpm,
        None => {
            let words = normalize_prompt(config.prompt);
            detect_bpm(&words, None)
        },
    };
    write_midi(events.as_slice(), bpm, signature)
}

/// A key and a time signature that the prompt names give the same file as the same
/// ones given explicitly: the same events, tempo and time signature.
pub proof fn lemma_hints_count(hinted: TextToMidiConfig, given: TextToMidiConfig)
    requires
        hinted.prompt@ == given.prompt@,
        hinted.bpm == given.bpm,
        hinted.length_seconds == given.length_seconds,
        hinted.seed == given.seed,
        hinted.key_scale is None,
        hinted.time_signature is None,
        given.key_scale is Some,
        given.time_signature is Some,
        scale_named(given.key_scale->0@) is Some,
        hinted_scale(hints_of(hinted.prompt@), 0) == scale_named(given.key_scale->0@),
        hinted_signature(hints_of(hinted.prompt@), 0) == signature_named(
            given.time_signature->0@,
        ),
    ensures
        config_events(hinted) == config_events(given),
        file_tempo(hinted) == file_tempo(given),
        file_signature(hinted) == file_signature(given),
{
}

} // verus!
