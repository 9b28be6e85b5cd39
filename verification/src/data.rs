//! Coordinate value types: integer grid points, signed translation vectors,
//! and integer-unit domain points for scaled view boxes.

use vstd::prelude::*;

verus! {

/// A cell address on the canvas grid. Plots use only non-negative
/// coordinates, so both components are unsigned.
#[derive(PartialEq, Eq, Structural, Clone, Copy, Debug)]
pub struct PVec2 {
    pub x: u16,
    pub y: u16,
}

/// A translation vector between two grid points. It is signed, so the vector
/// from one point to another is well defined whatever their relative order.
#[derive(PartialEq, Eq, Structural, Clone, Copy, Debug)]
pub struct Delta {
    pub x: i32,
    pub y: i32,
}

impl PVec2 {
    /// The translation vector that leads from `self` to `other`.
    pub open spec fn to_spec(self, other: PVec2) -> Delta {
        Delta { x: (other.x - self.x) as i32, y: (other.y - self.y) as i32 }
    }

    /// The point reached by following `d` from `self`. Meaningful only when
    /// both sums stay within the grid's coordinate range.
    pub open spec fn shifted_spec(self, d: Delta) -> PVec2 {
        PVec2 { x: (self.x + d.x) as u16, y: (self.y + d.y) as u16 }
    }

    pub fn new(x: u16, y: u16) -> (r: PVec2)
        ensures
            r == (PVec2 { x, y }),
    {
        PVec2 { x, y }
    }

    /// Determine what translation to apply to reach another point.
    pub fn to(&self, other: &PVec2) -> (r: Delta)
        ensures
            r == self.to_spec(*other),
    {
        Delta { x: other.x as i32 - self.x as i32, y: other.y as i32 - self.y as i32 }
    }

    /// Apply a translation vector to this point.
    pub fn shifted(&self, d: &Delta) -> (r: PVec2)
        requires
            0 <= self.x + d.x <= u16::MAX,
            0 <= self.y + d.y <= u16::MAX,
        ensures
            r == self.shifted_spec(*d),
    {
        PVec2 { x: (self.x as i32 + d.x) as u16, y: (self.y as i32 + d.y) as u16 }
    }

    /// Component-wise sum of two grid points.
    pub fn plus(&self, other: &PVec2) -> (r: PVec2)
        requires
            self.x + other.x <= u16::MAX,
            self.y + other.y <= u16::MAX,
        ensures
            r == (PVec2 { x: (self.x + other.x) as u16, y: (self.y + other.y) as u16 }),
    {
        PVec2 { x: self.x + other.x, y: self.y + other.y }
    }
}

/// Law: following the vector from `a` to `b` starting at `a` lands exactly on
/// `b`, for every pair of grid points.
pub proof fn lemma_shift_to_roundtrip(a: PVec2, b: PVec2)
    ensures
        a.shifted_spec(a.to_spec(b)) == b,
{
}

/// A point on an arbitrary-unit coordinate plane, used for data-space values
/// before scaling. Coordinates are integers in the caller's domain units (a
/// caller with fractional data picks a fixed-point scale for its units).
#[derive(PartialEq, Eq, Structural, Clone, Copy, Debug)]
pub struct Vec2 {
    pub x: i64,
    pub y: i64,
}

impl Vec2 {
    pub fn new(x: i64, y: i64) -> (r: Vec2)
        ensures
            r == (Vec2 { x, y }),
    {
        Vec2 { x, y }
    }

    /// Determine what translation to apply to reach another point.
    pub fn to(&self, other: &Vec2) -> (r: Vec2)
        requires
            i64::MIN <= other.x - self.x <= i64::MAX,
            i64::MIN <= other.y - self.y <= i64::MAX,
        ensures
            r == (Vec2 { x: (other.x - self.x) as i64, y: (other.y - self.y) as i64 }),
    {
        Vec2 { x: other.x - self.x, y: other.y - self.y }
    }
}

} // verus!
