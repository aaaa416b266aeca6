//! A scene: its light sources and its objects.

use vstd::prelude::*;

verus! {

/// A scene of lights `L` and objects `S`, each kept in the order added.
pub struct World<L, S> {
    lights: Vec<L>,
    objects: Vec<S>,
}

impl<L, S> World<L, S> {
    /// The light sources, in the order added.
    pub closed spec fn spec_lights(&self) -> Seq<L> {
        self.lights@
    }

    /// The objects, in the order added.
    pub closed spec fn spec_objects(&self) -> Seq<S> {
        self.objects@
    }

    /// A world without lights or objects.
    pub fn new() -> (w: Self)
        ensures
            w.spec_lights() == Seq::<L>::empty(),
            w.spec_objects() == Seq::<S>::empty(),
    {
        World { lights: Vec::new(), objects: Vec::new() }
    }

    /// Adds a light source after the others.
    pub fn add_light(&mut self, light: L)
        ensures
            final(self).spec_lights() == old(self).spec_lights().push(light),
            final(self).spec_objects() == old(self).spec_objects(),
    {
        self.lights.push(light);
    }

    /// Adds an object after the others.
    pub fn add_shape(&mut self, shape: S)
        ensures
            final(self).spec_objects() == old(self).spec_objects().push(shape),
            final(self).spec_lights() == old(self).spec_lights(),
    {
        self.objects.push(shape);
    }

    /// The light sources, in the order added.
    pub fn lights(&self) -> (r: &Vec<L>)
        ensures
            r@ == self.spec_lights(),
    {
        &self.lights
    }

    /// The objects, in the order added.
    pub fn objects(&self) -> (r: &Vec<S>)
        ensures
            r@ == self.spec_objects(),
    {
        &self.objects
    }
}

} // verus!
