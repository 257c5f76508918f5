//! The receiving side: what is decoded, what is asked for and how it is shown.
pub mod decoder;
pub mod display;
pub mod gate;
pub mod laws;
pub mod session;
