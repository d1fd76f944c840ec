use vstd::prelude::*;

use crate::envelope::{Aabb, max_i64, min_i64};

verus! {

/// A value that can be stored in the tree: it has a bounding box.
pub trait RTreeObject: Sized {
    spec fn spec_envelope(&self) -> Aabb;

    fn envelope(&self) -> (r: Aabb)
        ensures
            r == self.spec_envelope(),
    ;
}

/// Equality of stored values, as used when removing or looking up by value.
pub trait ValueEq: Sized {
    fn value_eq(&self, other: &Self) -> (r: bool)
        ensures
            r == (*self == *other),
    ;
}

/// A point with integer coordinates.
#[derive(Clone, Copy, Debug, PartialEq, Eq, Structural)]
pub struct Point {
    pub x: i64,
    pub y: i64,
}

impl Point {
    pub fn new(x: i64, y: i64) -> (r: Point)
        ensures
            r.x == x && r.y == y,
    {
        Point { x, y }
    }
}

impl RTreeObject for Point {
    open spec fn spec_envelope(&self) -> Aabb {
        Aabb { lower_x: self.x, lower_y: self.y, upper_x: self.x, upper_y: self.y }
    }

    fn envelope(&self) -> (r: Aabb) {
        Aabb::from_point(self.x, self.y)
    }
}

impl ValueEq for Point {
    fn value_eq(&self, other: &Self) -> (r: bool) {
        self.x == other.x && self.y == other.y
    }
}

/// An axis-aligned rectangle, stored by its bounding box.
#[derive(Clone, Copy, Debug, PartialEq, Eq, Structural)]
pub struct Rectangle {
    pub aabb: Aabb,
}

impl Rectangle {
    pub fn from_corners(ax: i64, ay: i64, bx: i64, by: i64) -> (r: Rectangle)
        ensures
            r.aabb.lower_x == min_i64(ax, bx),
            r.aabb.lower_y == min_i64(ay, by),
            r.aabb.upper_x == max_i64(ax, bx),
            r.aabb.upper_y == max_i64(ay, by),
    {
        Rectangle { aabb: Aabb::from_corners(ax, ay, bx, by) }
    }
}

impl RTreeObject for Rectangle {
    open spec fn spec_envelope(&self) -> Aabb {
        self.aabb
    }

    fn envelope(&self) -> (r: Aabb) {
        self.aabb
    }
}

impl ValueEq for Rectangle {
    fn value_eq(&self, other: &Self) -> (r: bool) {
        self.aabb == other.aabb
    }
}

/// A line segment between two points.
#[derive(Clone, Copy, Debug, PartialEq, Eq, Structural)]
pub struct Line {
    pub from: Point,
    pub to: Point,
}

impl Line {
    pub fn new(from: Point, to: Point) -> (r: Line)
        ensures
            r.from == from && r.to == to,
    {
        Line { from, to }
    }
}

impl RTreeObject for Line {
    open spec fn spec_envelope(&self) -> Aabb {
        Aabb {
            lower_x: min_i64(self.from.x, self.to.x),
            lower_y: min_i64(self.from.y, self.to.y),
            upper_x: max_i64(self.from.x, self.to.x),
            upper_y: max_i64(self.from.y, self.to.y),
        }
    }

    fn envelope(&self) -> (r: Aabb) {
        Aabb::from_corners(self.from.x, self.from.y, self.to.x, self.to.y)
    }
}

impl ValueEq for Line {
    fn value_eq(&self, other: &Self) -> (r: bool) {
        self.from.value_eq(&other.from) && self.to.value_eq(&other.to)
    }
}

} // verus!
