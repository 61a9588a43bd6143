//! Synthetic symbols with known ground truth, for grading.
//!
//! Generation keeps the pristine module matrix, not just a rendered picture: reconstruction is judged
//! by module-by-module identity against the original symbol, and a payload that survived would not
//! show that the symbol was rebuilt exactly.

pub mod degrade;
pub mod logo;
pub mod picture;
pub mod symbol;

pub use degrade::{degrade, Degradation};
pub use logo::{composite, Logo, LogoKind};
pub use picture::Picture;
pub use symbol::{render, Specimen, TruthMatrix};
