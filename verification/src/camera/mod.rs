//! Talking about the phone's cameras, as pure logic.

pub mod lens;

pub use lens::{LensOption, LensPicker, LensReading, LensSpec, LensStatus, PickerParams};
