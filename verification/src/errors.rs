//! The library's error.

use vstd::prelude::*;

verus! {

/// Indicates that a coordinate outside the grid would have been created.
#[derive(Debug)]
pub struct IllegalCoordinateError;

} // verus!
