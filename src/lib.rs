//! Validation and conversion of standard-form Roman numerals.
use vstd::prelude::*;

pub mod convert;
pub mod laws;
pub mod numeral;
pub mod reduction;
pub mod strip;
pub mod validate;

pub use convert::convert;
pub use validate::is_valid;

verus! {

} // verus!
