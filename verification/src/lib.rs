//! Music generation tools: tokens, prompts, schedules and checkpoint
//! conversion for text-to-audio and text-to-MIDI models, with machine-checked
//! contracts.

pub mod acestep;
pub mod convert;
pub mod json;
pub mod laws;
pub mod rounding;
pub mod single;
pub mod text;
pub mod text_to_midi;
pub mod token_limits;
pub mod tokenizer;
