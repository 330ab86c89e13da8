use vstd::prelude::*;

pub mod colors;
pub mod error;
pub mod files;
pub mod formatter;
pub mod params;
pub mod utils;

verus! {

} // verus!
