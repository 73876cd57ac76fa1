//! Descriptions that tell computations apart.

use vstd::prelude::*;

verus! {

/// Something that can describe what it computes.
pub trait UniqueDescrip {
    /// A description such that two values with the same description compute the same
    /// thing, however each was built.
    fn unique_descrip(&self) -> String;
}

} // verus!
