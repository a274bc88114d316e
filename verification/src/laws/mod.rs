//! What the parts of the library promise together: for every input, in terms of what
//! goes in and what comes out.

pub mod acestep;
pub mod archive;
pub mod checkpoint;
pub mod generator;
pub mod messages;
pub mod midi;
pub mod names;
pub mod options;
pub mod pickle;
pub mod prompts;
pub mod rounding;
pub mod settings;
pub mod text;
pub mod tokenizer;
pub mod tokens;
pub mod torch;
pub mod views;
pub mod words;
