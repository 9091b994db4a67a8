//! Axis-aligned bounding boxes over key coordinates.
//!
//! A coordinate reaches this library as a `u64` *order key*: the renderer maps
//! each of its coordinate values through a strictly monotone embedding into
//! `u64`, so any comparison, minimum or maximum computed on keys agrees with
//! the comparison the renderer would make on the underlying values.  Boxes
//! over keys therefore support exactly the discrete part of the box algebra a
//! bounding volume hierarchy needs: the surrounding (union) box of two boxes,
//! and containment between boxes.

use vstd::prelude::*;

verus! {

/// A point with one order key per axis.
#[derive(Clone, Copy, Debug, PartialEq, Eq, Structural)]
pub struct KeyVec {
    pub x: u64,
    pub y: u64,
    pub z: u64,
}

impl KeyVec {
    pub fn new(x: u64, y: u64, z: u64) -> (v: KeyVec)
        ensures
            v == (KeyVec { x, y, z }),
    {
        KeyVec { x, y, z }
    }

    /// The key along axis `axis` (`0` is x, `1` is y, `2` is z).
    pub open spec fn spec_axis(self, axis: int) -> u64 {
        if axis == 0 {
            self.x
        } else if axis == 1 {
            self.y
        } else {
            self.z
        }
    }

    pub fn axis(self, axis: usize) -> (k: u64)
        requires
            axis < 3,
        ensures
            k == self.spec_axis(axis as int),
    {
        if axis == 0 {
            self.x
        } else if axis == 1 {
            self.y
        } else {
            self.z
        }
    }
}

pub open spec fn key_min(a: u64, b: u64) -> u64 {
    if a <= b {
        a
    } else {
        b
    }
}

pub open spec fn key_max(a: u64, b: u64) -> u64 {
    if a >= b {
        a
    } else {
        b
    }
}

fn min_u64(a: u64, b: u64) -> (r: u64)
    ensures
        r == key_min(a, b),
{
    if a <= b {
        a
    } else {
        b
    }
}

fn max_u64(a: u64, b: u64) -> (r: u64)
    ensures
        r == key_max(a, b),
{
    if a >= b {
        a
    } else {
        b
    }
}

/// An axis-aligned box, described by its minimum and maximum corner.
#[derive(Clone, Copy, Debug, PartialEq, Eq, Structural)]
pub struct Aabb {
    pub min: KeyVec,
    pub max: KeyVec,
}

/// The surrounding box: componentwise minimum of the two minima and
/// componentwise maximum of the two maxima.
pub open spec fn spec_surrounding(box0: Aabb, box1: Aabb) -> Aabb {
    Aabb {
        min: KeyVec {
            x: key_min(box0.min.x, box1.min.x),
            y: key_min(box0.min.y, box1.min.y),
            z: key_min(box0.min.z, box1.min.z),
        },
        max: KeyVec {
            x: key_max(box0.max.x, box1.max.x),
            y: key_max(box0.max.y, box1.max.y),
            z: key_max(box0.max.z, box1.max.z),
        },
    }
}

impl Aabb {
    /// A box is well formed when it is nonempty on every axis.
    pub open spec fn wf(self) -> bool {
        &&& self.min.x <= self.max.x
        &&& self.min.y <= self.max.y
        &&& self.min.z <= self.max.z
    }

    /// `self` contains `other`: every point between `other`'s corners lies
    /// between `self`'s corners.
    pub open spec fn contains_box(self, other: Aabb) -> bool {
        &&& self.min.x <= other.min.x && other.max.x <= self.max.x
        &&& self.min.y <= other.min.y && other.max.y <= self.max.y
        &&& self.min.z <= other.min.z && other.max.z <= self.max.z
    }

    pub fn new(a: KeyVec, b: KeyVec) -> (r: Aabb)
        ensures
            r == (Aabb { min: a, max: b }),
    {
        Aabb { min: a, max: b }
    }

    pub fn surrounding_box(box0: Aabb, box1: Aabb) -> (r: Aabb)
        ensures
            r == spec_surrounding(box0, box1),
    {
        Aabb {
            min: KeyVec {
                x: min_u64(box0.min.x, box1.min.x),
                y: min_u64(box0.min.y, box1.min.y),
                z: min_u64(box0.min.z, box1.min.z),
            },
            max: KeyVec {
                x: max_u64(box0.max.x, box1.max.x),
                y: max_u64(box0.max.y, box1.max.y),
                z: max_u64(box0.max.z, box1.max.z),
            },
        }
    }
}

/// Law: the surrounding box does not depend on the order of its arguments,
/// and it contains both of them — each argument's minimum corner is at or
/// above the result's minimum on every axis, and each argument's maximum
/// corner is at or below the result's maximum.
pub proof fn lemma_surrounding_box_symmetric(a: Aabb, b: Aabb)
    ensures
        spec_surrounding(a, b) == spec_surrounding(b, a),
        spec_surrounding(a, b).contains_box(a),
        spec_surrounding(a, b).contains_box(b),
{
}

/// Law: the surrounding box is associative, so a tree of unions covers the
/// same extent no matter how it is bracketed.
pub proof fn lemma_surrounding_box_associative(a: Aabb, b: Aabb, c: Aabb)
    ensures
        spec_surrounding(spec_surrounding(a, b), c) == spec_surrounding(a, spec_surrounding(b, c)),
{
}

/// The surrounding box of two well-formed boxes is well formed, and
/// containment carries over from the parts to the union.
pub proof fn lemma_surrounding_box_wf(a: Aabb, b: Aabb)
    requires
        a.wf(),
        b.wf(),
    ensures
        spec_surrounding(a, b).wf(),
{
}

/// Containment is transitive.
pub proof fn lemma_contains_box_trans(a: Aabb, b: Aabb, c: Aabb)
    requires
        a.contains_box(b),
        b.contains_box(c),
    ensures
        a.contains_box(c),
{
}

} // verus!
