//! Paths, carried through unread.
pub use std::path::PathBuf;
use vstd::prelude::*;

verus! {

/// `std::path::PathBuf`: nothing is claimed of a path but that it stays what it is.
#[verifier::external_type_specification]
#[verifier::external_body]
pub struct ExPathBuf(std::path::PathBuf);

} // verus!
