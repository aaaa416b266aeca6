//! Light sources and the light they send, over a position type `T` and a
//! color type `C` of the caller's choice.

use vstd::prelude::*;

verus! {

/// A ray of light: where it leaves from, the way it goes, and its color.
#[derive(Debug, Clone, Copy)]
pub struct LightRay<T, C> {
    pub origin: T,
    pub direction: T,
    pub color: C,
}

/// The light that reaches a point: a ray from a source, or light that comes
/// from every direction.
#[derive(Debug, Clone, Copy)]
pub enum IncomingLight<T, C> {
    Ray(LightRay<T, C>),
    Omni(C),
}

/// A light source at one point that shines with the same intensity at any
/// distance.
#[derive(Debug)]
pub struct PointLight<T, C> {
    position: T,
    intensity: C,
}

impl<T, C> PointLight<T, C> {
    /// Where the light is.
    pub closed spec fn spec_position(&self) -> T {
        self.position
    }

    /// How bright the light is, and in what color.
    pub closed spec fn spec_intensity(&self) -> C {
        self.intensity
    }
}

impl<T: Copy, C: Copy> PointLight<T, C> {
    /// A point light at `position` with `intensity`.
    pub fn new(position: T, intensity: C) -> (l: Self)
        ensures
            l.spec_position() == position,
            l.spec_intensity() == intensity,
    {
        PointLight { position, intensity }
    }

    /// Where the light is.
    pub fn position(&self) -> (p: T)
        ensures
            p == self.spec_position(),
    {
        self.position
    }

    /// How bright the light is, and in what color.
    pub fn intensity(&self) -> (c: C)
        ensures
            c == self.spec_intensity(),
    {
        self.intensity
    }
}

/// A light source at one point whose light weakens with the square of the
/// distance.
#[derive(Debug)]
pub struct RealisticPointLight<T, C> {
    position: T,
    intensity: C,
}

impl<T, C> RealisticPointLight<T, C> {
    /// Where the light is.
    pub closed spec fn spec_position(&self) -> T {
        self.position
    }

    /// How bright the light is, and in what color.
    pub closed spec fn spec_intensity(&self) -> C {
        self.intensity
    }
}

impl<T: Copy, C: Copy> RealisticPointLight<T, C> {
    /// A realistic point light at `position` with `intensity`.
    pub fn new(position: T, intensity: C) -> (l: Self)
        ensures
            l.spec_position() == position,
            l.spec_intensity() == intensity,
    {
        RealisticPointLight { position, intensity }
    }

    /// Where the light is.
    pub fn position(&self) -> (p: T)
        ensures
            p == self.spec_position(),
    {
        self.position
    }

    /// How bright the light is, and in what color.
    pub fn intensity(&self) -> (c: C)
        ensures
            c == self.spec_intensity(),
    {
        self.intensity
    }
}

/// Light that comes from every direction with the same intensity.
#[derive(Debug)]
pub struct AmbientLight<C> {
    intensity: C,
}

impl<C> AmbientLight<C> {
    /// How bright the light is, and in what color.
    pub closed spec fn spec_intensity(&self) -> C {
        self.intensity
    }
}

impl<C: Copy> AmbientLight<C> {
    /// Ambient light with `intensity`.
    pub fn new(intensity: C) -> (l: Self)
        ensures
            l.spec_intensity() == intensity,
    {
        AmbientLight { intensity }
    }

    /// How bright the light is, and in what color.
    pub fn intensity(&self) -> (c: C)
        ensures
            c == self.spec_intensity(),
    {
        self.intensity
    }
}

} // verus!
