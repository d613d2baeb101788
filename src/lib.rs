//! Splits video files into fixed-length segments.
//!
//! The library holds the decisions: how a probed duration is read, how many
//! segments it gives, where each segment starts, what each segment file is
//! called, and in what order the per-file steps run. Running the external
//! tools and walking directories is left to the caller.
pub mod duration;
pub mod plan;
pub mod session;
pub mod select;
