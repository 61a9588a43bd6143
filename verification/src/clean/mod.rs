//! Spending the error-correction budget well.
//!
//! Reed-Solomon over `n` codewords carrying `k` of data corrects any combination of `t` errors and
//! `e` erasures with `2t + e <= n - k`. An error is unknown in both position and value and costs two
//! units of budget; an erasure is unknown in value only and costs one. Marking a damaged codeword as
//! an erasure is pure profit, marking a healthy one is pure loss, so the budget is allocated to the
//! codewords most likely to be damaged, worst first, and capped.

pub mod any;
pub mod aztec;
pub mod blocks;
pub mod bootstrap;
pub mod datamatrix;
pub mod erasure;
pub mod field;
pub mod pdf417;
pub mod qr;
pub mod reed_solomon;

pub use any::{clean, CleanedAny, Fidelity};
pub use bootstrap::{bootstrap, BootstrapOutcome, BootstrapParams};
pub use erasure::{BlockLayout, CodewordProvenance, ErasurePlan};
pub use qr::{clean_bitmatrix, clean_luma, CleanError, Cleaned};
