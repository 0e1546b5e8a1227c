//! Parsing and validation of DSMR-style smart-meter telegrams, and the time
//! series derived from them.
pub mod error;
pub mod helpers;
pub mod parser;
pub mod primitives;
pub mod telegram;
pub mod text;
pub mod traits;
