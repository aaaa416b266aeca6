//! Rays: a point of origin and a direction, of a tuple type `T` of the
//! caller's choice.

use vstd::prelude::*;

verus! {

/// A ray from `origin` in `direction`.
pub struct Ray<T> {
    origin: T,
    direction: T,
}

impl<T> Ray<T> {
    /// Where the ray starts.
    pub closed spec fn spec_origin(&self) -> T {
        self.origin
    }

    /// The way the ray goes.
    pub closed spec fn spec_direction(&self) -> T {
        self.direction
    }
}

impl<T: Copy> Ray<T> {
    /// The ray from `origin` in `direction`.
    pub fn new(origin: T, direction: T) -> (r: Self)
        ensures
            r.spec_origin() == origin,
            r.spec_direction() == direction,
    {
        Ray { origin, direction }
    }

    /// Where the ray starts.
    pub fn origin(&self) -> (o: T)
        ensures
            o == self.spec_origin(),
    {
        self.origin
    }

    /// The way the ray goes.
    pub fn direction(&self) -> (d: T)
        ensures
            d == self.spec_direction(),
    {
        self.direction
    }

    /// The ray moved by the transformation `m`, which is applied to its
    /// origin and to its direction.
    pub fn transform<F: Fn(T) -> T>(&self, m: F) -> (r: Self)
        requires
            call_requires(m, (self.spec_origin(),)),
            call_requires(m, (self.spec_direction(),)),
        ensures
            call_ensures(m, (self.spec_origin(),), r.spec_origin()),
            call_ensures(m, (self.spec_direction(),), r.spec_direction()),
    {
        Ray { origin: m(self.origin), direction: m(self.direction) }
    }
}

} // verus!
