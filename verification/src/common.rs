//! Traits shared by colliders.
use vstd::prelude::*;

verus! {

/// # Object collision
/// Collision detection implementations for different collider combinations.
pub trait Collides<T> {
    /// Returns true if the collider collides with the other collider.
    fn collides_with(&self, other: &T) -> bool;
}

/// `r` is an answer that `a.collides_with(b)` can give.
pub open spec fn answers<T: Collides<O>, O>(a: &T, b: &O, r: bool) -> bool {
    call_ensures(<T as Collides<O>>::collides_with, (a, b), r)
}

} // verus!
