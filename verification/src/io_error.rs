//! Errors of reading and writing, carried through unread.
pub use std::io::Error as IoError;
use vstd::prelude::*;

verus! {

/// `std::io::Error`: nothing is claimed of an error but that it stays what it is.
#[verifier::external_type_specification]
#[verifier::external_body]
pub struct ExIoError(std::io::Error);

} // verus!
