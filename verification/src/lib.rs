//! Verified core of the KeOS kernel projects.
use vstd::prelude::*;

pub mod bytes;
pub mod error;
pub mod project1;
pub mod project2;
pub mod project3;
pub mod project4;
pub mod project5;
pub mod machine;
pub mod simple_fs;

verus! {

} // verus!
