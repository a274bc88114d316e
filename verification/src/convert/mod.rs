//! Conversion of published checkpoints into the tensors that the runtime
//! modules load.

pub mod archive;
pub mod checkpoint;
pub mod decode;
pub mod messages;
pub mod names;
pub mod options;
pub mod pickle;
pub mod torch;
