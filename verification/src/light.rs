//! Light sources.
//!
//! Lights carry a position and a color triple; the shading stage, outside
//! this crate, interprets them.

use vstd::prelude::*;
use crate::vec3::Vec3;

verus! {

/// A point light: light radiating from a single position.
#[derive(Clone, Copy, Debug, PartialEq, Eq, Structural)]
pub struct PointLight {
    pub position: Vec3,
    pub color: Vec3,
}

impl PointLight {
    /// A point light at `position` with the given color.
    pub fn new(position: Vec3, color: Vec3) -> (r: PointLight)
        ensures
            r == (PointLight { position, color }),
    {
        PointLight { position, color }
    }
}

/// An area light: light radiating from an extended region around a
/// position.
#[derive(Clone, Copy, Debug, PartialEq, Eq, Structural)]
pub struct AreaLight {
    pub position: Vec3,
    pub color: Vec3,
}

impl AreaLight {
    /// An area light at `position` with the given color.
    pub fn new(position: Vec3, color: Vec3) -> (r: AreaLight)
        ensures
            r == (AreaLight { position, color }),
    {
        AreaLight { position, color }
    }
}

/// Any light source.
#[derive(Clone, Copy, Debug, PartialEq, Eq, Structural)]
pub enum Light {
    Point(PointLight),
    Area(AreaLight),
}

impl Light {
    /// A point light at `position` with the given color.
    pub fn new(position: Vec3, color: Vec3) -> (r: Light)
        ensures
            r == Light::Point(PointLight { position, color }),
    {
        Light::Point(PointLight { position, color })
    }
}

} // verus!
