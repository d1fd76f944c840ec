use vstd::prelude::*;

verus! {

/// An axis-aligned bounding box. A box whose lower corner lies above its
/// upper corner on some axis holds no point; `Aabb::new_empty` is such a box
/// and the neutral element of `merged`.
#[derive(Clone, Copy, Debug, PartialEq, Eq, Structural)]
pub struct Aabb {
    pub lower_x: i64,
    pub lower_y: i64,
    pub upper_x: i64,
    pub upper_y: i64,
}

pub open spec fn min_i64(a: i64, b: i64) -> i64 {
    if a <= b { a } else { b }
}

pub open spec fn max_i64(a: i64, b: i64) -> i64 {
    if a >= b { a } else { b }
}

/// The smallest box enclosing both arguments.
pub open spec fn merged(a: Aabb, b: Aabb) -> Aabb {
    Aabb {
        lower_x: min_i64(a.lower_x, b.lower_x),
        lower_y: min_i64(a.lower_y, b.lower_y),
        upper_x: max_i64(a.upper_x, b.upper_x),
        upper_y: max_i64(a.upper_y, b.upper_y),
    }
}

pub open spec fn empty_aabb() -> Aabb {
    Aabb { lower_x: i64::MAX, lower_y: i64::MAX, upper_x: i64::MIN, upper_y: i64::MIN }
}

/// Whether the two boxes share at least one point.
pub open spec fn spec_intersects(a: Aabb, b: Aabb) -> bool {
    a.lower_x <= b.upper_x && b.lower_x <= a.upper_x && a.lower_y <= b.upper_y && b.lower_y
        <= a.upper_y
}

/// Whether `b` lies within `a`, compared corner by corner.
pub open spec fn spec_contains_envelope(a: Aabb, b: Aabb) -> bool {
    a.lower_x <= b.lower_x && a.lower_y <= b.lower_y && b.upper_x <= a.upper_x && b.upper_y
        <= a.upper_y
}

impl Aabb {
    /// The box that holds no point.
    pub fn new_empty() -> (r: Aabb)
        ensures
            r == empty_aabb(),
    {
        Aabb { lower_x: i64::MAX, lower_y: i64::MAX, upper_x: i64::MIN, upper_y: i64::MIN }
    }

    /// The smallest box holding both corners.
    pub fn from_corners(ax: i64, ay: i64, bx: i64, by: i64) -> (r: Aabb)
        ensures
            r.lower_x == min_i64(ax, bx),
            r.lower_y == min_i64(ay, by),
            r.upper_x == max_i64(ax, bx),
            r.upper_y == max_i64(ay, by),
    {
        Aabb {
            lower_x: if ax <= bx { ax } else { bx },
            lower_y: if ay <= by { ay } else { by },
            upper_x: if ax >= bx { ax } else { bx },
            upper_y: if ay >= by { ay } else { by },
        }
    }

    /// The box of a single point.
    pub fn from_point(x: i64, y: i64) -> (r: Aabb)
        ensures
            r == (Aabb { lower_x: x, lower_y: y, upper_x: x, upper_y: y }),
    {
        Aabb { lower_x: x, lower_y: y, upper_x: x, upper_y: y }
    }

    pub fn merge(&self, other: &Aabb) -> (r: Aabb)
        ensures
            r == merged(*self, *other),
    {
        Aabb {
            lower_x: if self.lower_x <= other.lower_x { self.lower_x } else { other.lower_x },
            lower_y: if self.lower_y <= other.lower_y { self.lower_y } else { other.lower_y },
            upper_x: if self.upper_x >= other.upper_x { self.upper_x } else { other.upper_x },
            upper_y: if self.upper_y >= other.upper_y { self.upper_y } else { other.upper_y },
        }
    }

    pub fn intersects(&self, other: &Aabb) -> (r: bool)
        ensures
            r == spec_intersects(*self, *other),
    {
        self.lower_x <= other.upper_x && other.lower_x <= self.upper_x && self.lower_y
            <= other.upper_y && other.lower_y <= self.upper_y
    }

    pub fn contains_envelope(&self, other: &Aabb) -> (r: bool)
        ensures
            r == spec_contains_envelope(*self, *other),
    {
        self.lower_x <= other.lower_x && self.lower_y <= other.lower_y && other.upper_x
            <= self.upper_x && other.upper_y <= self.upper_y
    }
}

} // verus!
