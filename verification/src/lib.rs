//! A registry of named SSH key pairs: add, rename, remove and select keys,
//! plan the filesystem effects of persisting the registry, and encode or
//! decode the on-disk record.

use vstd::prelude::*;

pub mod codec;
pub mod errors;
pub mod names;
pub mod paths;
pub mod store;
pub mod strutil;

verus! {

} // verus!
