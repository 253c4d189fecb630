//! Starting point of the builder of colliders.
use vstd::prelude::*;

verus! {

/// Starting point for the `Collider` builder.
pub struct WithBuilder;

impl WithBuilder {
    /// An empty builder: nothing is set yet.
    pub fn start() -> (res: WithBuilder)
        ensures
            res == WithBuilder,
    {
        WithBuilder
    }
}

} // verus!
