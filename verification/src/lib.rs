//! clovers: the discrete, integer-valued core of a spectral path tracer.
//!
//! The floating-point geometry and colour science of the renderer live in the
//! application crate; this library holds the parts whose behaviour can be
//! stated and proved exactly: wavelength sampling, the shape of bounding volume
//! hierarchies, pixel and buffer layout, and mesh index handling.
pub mod axis;
pub mod bvh;
pub mod closest_hit;
pub mod hitable;
pub mod materials;
pub mod objects;
pub mod pdf;
pub mod random;
pub mod render;
pub mod timing;
pub mod traversal;
pub mod wavelength;
