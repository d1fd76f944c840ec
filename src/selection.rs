use vstd::prelude::*;

use crate::envelope::{Aabb, spec_contains_envelope, spec_intersects};
use crate::object::{RTreeObject, ValueEq};

verus! {

/// Decides which parts of a tree an operation visits: whether to look inside
/// an interior node, given its bounding box, and whether a stored value matches.
pub trait SelectionFunction<T>: Sized {
    spec fn spec_unpack_parent(&self, envelope: Aabb) -> bool;

    spec fn spec_unpack_leaf(&self, t: T) -> bool;

    fn should_unpack_parent(&self, envelope: &Aabb) -> (r: bool)
        ensures
            r == self.spec_unpack_parent(*envelope),
    ;

    fn should_unpack_leaf(&self, t: &T) -> (r: bool)
        ensures
            r == self.spec_unpack_leaf(*t),
    ;
}

/// Selects every value.
#[derive(Clone, Copy, Debug)]
pub struct SelectAllFunc;

impl<T> SelectionFunction<T> for SelectAllFunc {
    open spec fn spec_unpack_parent(&self, envelope: Aabb) -> bool {
        true
    }

    open spec fn spec_unpack_leaf(&self, t: T) -> bool {
        true
    }

    fn should_unpack_parent(&self, envelope: &Aabb) -> (r: bool) {
        true
    }

    fn should_unpack_leaf(&self, t: &T) -> (r: bool) {
        true
    }
}

/// Selects the values whose bounding box meets a given box.
#[derive(Clone, Copy, Debug)]
pub struct SelectInEnvelopeFuncIntersecting {
    pub envelope: Aabb,
}

impl SelectInEnvelopeFuncIntersecting {
    pub fn new(envelope: Aabb) -> (r: SelectInEnvelopeFuncIntersecting)
        ensures
            r.envelope == envelope,
    {
        SelectInEnvelopeFuncIntersecting { envelope }
    }
}

impl<T: RTreeObject> SelectionFunction<T> for SelectInEnvelopeFuncIntersecting {
    open spec fn spec_unpack_parent(&self, envelope: Aabb) -> bool {
        spec_intersects(self.envelope, envelope)
    }

    open spec fn spec_unpack_leaf(&self, t: T) -> bool {
        spec_intersects(self.envelope, t.spec_envelope())
    }

    fn should_unpack_parent(&self, envelope: &Aabb) -> (r: bool) {
        self.envelope.intersects(envelope)
    }

    fn should_unpack_leaf(&self, t: &T) -> (r: bool) {
        self.envelope.intersects(&t.envelope())
    }
}

/// Selects the values equal to a given one; only interior nodes whose box
/// contains that value's box are looked into.
#[derive(Clone, Copy, Debug)]
pub struct SelectEqualsFunc<T> {
    pub value: T,
}

impl<T> SelectEqualsFunc<T> {
    pub fn new(value: T) -> (r: SelectEqualsFunc<T>)
        ensures
            r.value == value,
    {
        SelectEqualsFunc { value }
    }
}

impl<T: RTreeObject + ValueEq> SelectionFunction<T> for SelectEqualsFunc<T> {
    open spec fn spec_unpack_parent(&self, envelope: Aabb) -> bool {
        spec_contains_envelope(envelope, self.value.spec_envelope())
    }

    open spec fn spec_unpack_leaf(&self, t: T) -> bool {
        t == self.value
    }

    fn should_unpack_parent(&self, envelope: &Aabb) -> (r: bool) {
        envelope.contains_envelope(&self.value.envelope())
    }

    fn should_unpack_leaf(&self, t: &T) -> (r: bool) {
        t.value_eq(&self.value)
    }
}

} // verus!

verus! {

/// Selects the values whose bounding box contains a given point.
#[derive(Clone, Copy, Debug)]
pub struct SelectAtPointFunc {
    pub x: i64,
    pub y: i64,
}

impl SelectAtPointFunc {
    pub fn new(x: i64, y: i64) -> (r: SelectAtPointFunc)
        ensures
            r.x == x && r.y == y,
    {
        SelectAtPointFunc { x, y }
    }
}

pub open spec fn spec_contains_point(e: Aabb, x: i64, y: i64) -> bool {
    e.lower_x <= x && x <= e.upper_x && e.lower_y <= y && y <= e.upper_y
}

impl<T: RTreeObject> SelectionFunction<T> for SelectAtPointFunc {
    open spec fn spec_unpack_parent(&self, envelope: Aabb) -> bool {
        spec_contains_point(envelope, self.x, self.y)
    }

    open spec fn spec_unpack_leaf(&self, t: T) -> bool {
        spec_contains_point(t.spec_envelope(), self.x, self.y)
    }

    fn should_unpack_parent(&self, envelope: &Aabb) -> (r: bool) {
        envelope.lower_x <= self.x && self.x <= envelope.upper_x && envelope.lower_y <= self.y
            && self.y <= envelope.upper_y
    }

    fn should_unpack_leaf(&self, t: &T) -> (r: bool) {
        let e = t.envelope();
        e.lower_x <= self.x && self.x <= e.upper_x && e.lower_y <= self.y && self.y <= e.upper_y
    }
}

} // verus!
