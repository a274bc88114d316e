//! Instrumental text-to-music generation with ACE-Step: everything around the
//! neural networks.

pub mod config;
pub mod fsq;
pub mod layout;
pub mod lm;
pub mod pipeline;
pub mod ranking;
pub mod schedule;
pub mod vocab;
