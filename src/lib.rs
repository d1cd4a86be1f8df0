//! Reading Western-notation shogi game records ("w7a") and turning their
//! header into JSON Kifu Format.
use vstd::prelude::*;

pub mod conv;
pub mod jkf;
pub mod w7a;
pub mod text;

verus! {

/// A result whose failure is a descriptive message.
pub type ErrStr<T> = Result<T, String>;

} // verus!
