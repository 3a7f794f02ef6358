//! Verified core of a DigitalPersona U.are.U 4500 fingerprint reader plugin:
//! frame decoding for the reader's USB protocol, minutiae template handling,
//! the FPT1 text format, and the rules of the plugin's commands.

pub mod desktop;
pub mod error;
pub mod models;
pub mod template;
pub mod text;
pub mod uru4500;
