//! The plane `y = 0`.

use vstd::prelude::*;

verus! {

/// The plane `y = 0`: the points whose second coordinate is zero.
#[derive(Debug, Clone, Copy, PartialEq, Eq, Structural)]
pub struct Plane;

impl Plane {
    /// The plane `y = 0`.
    pub fn new() -> (p: Plane)
        ensures
            p == Plane,
    {
        Plane
    }
}

} // verus!
