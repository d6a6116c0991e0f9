//! Probability density functions that carry no geometry of their own.
use vstd::prelude::*;

verus! {

/// An orthonormal basis: three mutually perpendicular unit directions `D`.
#[derive(Debug, Clone)]
pub struct ONB<D> {
    /// U
    pub u: D,
    /// V
    pub v: D,
    /// W
    pub w: D,
}

/// Probability density proportional to the cosine of the angle to the `w`
/// direction of a basis, over the hemisphere around it.
#[derive(Debug, Clone)]
pub struct CosinePDF<D> {
    uvw: ONB<D>,
}

impl<D> CosinePDF<D> {
    /// The basis around whose `w` direction the density is centred.
    pub closed spec fn spec_basis(&self) -> ONB<D> {
        self.uvw
    }

    /// Creates a cosine density around the `w` direction of the given basis,
    /// built from the surface normal by the renderer.
    pub fn new(uvw: ONB<D>) -> (p: Self)
        ensures
            p.spec_basis() == uvw,
    {
        CosinePDF { uvw }
    }

    /// The basis around whose `w` direction the density is centred.
    pub fn basis(&self) -> (b: &ONB<D>)
        ensures
            *b == self.spec_basis(),
    {
        &self.uvw
    }
}

/// Uniform probability density over the directions of the unit sphere.
#[derive(Debug, Clone, Copy, Default)]
pub struct SpherePDF {}

impl SpherePDF {
    /// Creates a new uniform sphere density.
    pub fn new() -> (p: Self)
        ensures
            p == (SpherePDF {}),
    {
        SpherePDF {}
    }
}

/// The density that is zero everywhere, used for specular scattering where
/// no direction is sampled by density.
#[derive(Debug, Clone, Copy)]
pub struct ZeroPDF {}

impl ZeroPDF {
    /// Creates a new zero density.
    pub fn new() -> (p: Self)
        ensures
            p == (ZeroPDF {}),
    {
        ZeroPDF {}
    }
}

impl Default for ZeroPDF {
    fn default() -> (p: Self)
        ensures
            p == (ZeroPDF {}),
    {
        Self::new()
    }
}

} // verus!
