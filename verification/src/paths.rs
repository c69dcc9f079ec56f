//! File system paths, carried through the library as they are.

use vstd::prelude::*;

verus! {

/// `std::path::PathBuf`, an owned file system path. The library never looks
/// inside one: it only stores and hands back the values its callers give it.
#[verifier::external_type_specification]
#[verifier::external_body]
pub struct ExPathBuf(std::path::PathBuf);

} // verus!
