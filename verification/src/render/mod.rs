//! Producing output: the cleaned symbol, and the comparison that shows what was recovered.
//!
//! The cleaned symbol is rebuilt from the corrected codeword stream, not from the decoded payload.
//! Encoders differ in how they segment a payload, where they switch modes and how they pad, so
//! re-encoding the text would give another symbol that merely scans to the same string. The corrected
//! codewords are what the original encoder emitted; with the original version, error-correction level
//! and mask they give the original symbol, module for module.

pub mod exact;
pub mod export;

pub use exact::{from_codewords, RebuildError, Reconstructed};
pub use export::{compare, quiet_zone_modules, timestamped_name, to_png, ModuleVerdict};
