//! Discrete scaffolding of the primitive shapes.
//!
//! The numeric intersection kernels live with the renderer; the library
//! fixes the parts of a shape's description that are pure bookkeeping: which
//! axes an axis-aligned rectangle's plane involves, and the axes a
//! transformed primitive may rotate about.

use vstd::prelude::*;

verus! {

/// The fixed coordinate planes an axis-aligned rectangle can lie in.
#[derive(Clone, Copy, Debug, PartialEq, Eq, Structural)]
pub enum RectPlane {
    XY,
    YZ,
    XZ,
}

impl RectPlane {
    /// The axis permutation of the plane, as `(k, a, b)`: the axis the
    /// rectangle's offset lives on, then the two in-plane axes (`0` is x,
    /// `1` is y, `2` is z).
    pub fn axes(&self) -> (r: (usize, usize, usize))
        ensures
            *self == RectPlane::XY ==> r == (2usize, 0usize, 1usize),
            *self == RectPlane::YZ ==> r == (0usize, 1usize, 2usize),
            *self == RectPlane::XZ ==> r == (1usize, 0usize, 2usize),
            r.0 < 3 && r.1 < 3 && r.2 < 3,
    {
        match self {
            RectPlane::XY => (2, 0, 1),
            RectPlane::YZ => (0, 1, 2),
            RectPlane::XZ => (1, 0, 2),
        }
    }
}

/// The coordinate axes a transformed primitive may rotate about.
#[derive(Clone, Copy, Debug, PartialEq, Eq, Structural)]
pub enum RotationAxis {
    X,
    Y,
    Z,
}

/// The root-selection policy of the sphere kernel, over distance keys: of
/// the quadratic's two roots, prefer the smaller one when it lies strictly
/// inside `(t_min, t_max)`, fall back to the larger one when the smaller is
/// out of range, and report a miss when neither qualifies.
pub fn select_sphere_root(smaller: u64, larger: u64, t_min: u64, t_max: u64) -> (r: Option<u64>)
    ensures
        r == (if t_min < smaller < t_max {
            Some(smaller)
        } else if t_min < larger < t_max {
            Some(larger)
        } else {
            None::<u64>
        }),
{
    let mut q = smaller;
    if q >= t_max || q <= t_min {
        q = larger;
    }
    if q < t_max && q > t_min {
        Some(q)
    } else {
        None
    }
}

} // verus!
