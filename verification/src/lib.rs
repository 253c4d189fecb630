//! Bounding-volume hierarchies and collider groups for collision detection, and the
//! rewriting of a crate's items for its C# bindings, read from the crate's source text.
//!
//! The verified part of the library: binary trees in recursive and in linear (array)
//! layout, their conversions and concatenation, hierarchies built over colliders and over
//! triangles, and the collision traversals over them, generic in the bounding volumes and
//! primitives; and the item rewriting that prepares the source for the binding generator.
pub mod assemble;
pub mod bindings;
pub mod builder;
pub mod bvh_tree;
pub mod bvh_array;
pub mod common;
pub mod group;
pub mod hierarchy;
pub mod layout;
pub mod map;
pub mod source;
pub mod tree;

use vstd::prelude::*;

verus! {

} // verus!
