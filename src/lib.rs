//! Named Binary Tag values, the compound container, and the binary codec.
use vstd::prelude::*;

pub mod codec;
pub mod compound;
pub mod key;
pub mod login;
pub mod tag;

verus! {

} // verus!
