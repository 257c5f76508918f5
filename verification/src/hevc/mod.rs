//! HEVC bitstreams: bits, parameter sets, reference pictures and concealment.
pub mod bits;
pub mod concealment;
pub mod cursor;
pub mod escape;
pub mod flag_laws;
pub mod freeze;
pub mod header_laws;
pub mod laws;
pub mod params;
pub mod pps;
pub mod pps_laws;
pub mod reader;
pub mod refs;
pub mod repeat_laws;
pub mod set_syntax;
pub mod sps_laws;
pub mod state;
pub mod state_laws;
pub mod syntax;
pub mod template;
