//! What the library has from the outside barcode and image crates.
//!
//! Each call stands behind a function whose contract says what the call gives. Results that take
//! pages to state have a name: the name says only that equal arguments give equal results. Where the
//! arguments do not settle the result, the name is for what it may be.

pub mod aztec;
pub mod blocks;
pub mod datamatrix;
pub mod datamatrix_fit;
pub mod datamatrix_text;
pub mod formats;
pub mod pdf417;
pub mod pdf417_fit;
pub mod picture;
pub mod qr;
pub mod qr_text;
pub mod readers;
