//! Core of a low-latency screen streaming stack: wire formats, forward error
//! correction, frame assembly, jitter buffering, clock alignment and HEVC
//! bitstream handling.
//!
//! The contracts are stated over mathematical models of the data (`Seq`, `Map`,
//! integers) and are checked by Verus.

pub mod buffer;
pub mod chunked;
pub mod clock;
pub mod control;
pub mod fec;
pub mod hevc;
pub mod jitter;
pub mod lazy_fec;
pub mod packet;
pub mod receiver;
pub mod slice_fec;
pub mod sorting;
pub mod text;
pub mod time;
