//! Deletion and draining for a two-dimensional R-tree over integer coordinates.
//!
//! `remove` and `remove_all` take values out of an interior node by a
//! selection; `DrainIterator` removes them one at a time and can be stopped at
//! any point; `RTree` holds a root with its count. Every operation keeps the
//! tree well formed: no interior node below the root is left without
//! children, and each caches the union of its children's boxes.

mod drain;
mod envelope;
mod lookup;
mod node;
mod object;
mod removal;
mod rtree;
mod selection;

pub use drain::{drain_take, DrainIterator};
pub use envelope::Aabb;
pub use node::{ParentNode, RTreeNode, TreeView};
pub use object::{Line, Point, RTreeObject, Rectangle, ValueEq};
pub use removal::{remove, remove_all};
pub use rtree::{RTree, MAX_CHILDREN};
pub use selection::{
    SelectAllFunc, SelectAtPointFunc, SelectEqualsFunc, SelectInEnvelopeFuncIntersecting,
    SelectionFunction,
};
