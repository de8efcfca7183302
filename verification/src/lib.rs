//! Decoding of traces in the Informal Trace Format, and a runner that replays
//! a decoded trace against an implementation.

pub mod bigint;
pub mod decode;
pub mod itf;
pub mod json;
pub mod laws;
pub mod runner;
pub mod value;
