//! Breached-password lookup: the record format of the dataset, the shard
//! index built from it, and the search over the sorted file itself.
use vstd::prelude::*;

pub mod bisect;
pub mod entry;
pub mod haveibeenpwned;
pub mod sharding;
pub mod text;

pub use entry::{HashLineFormatError, PasswordHashEntry};

verus! {

} // verus!
