//! A plain two-component vector.

use vstd::prelude::*;

verus! {

/// A pair of like components, usually coordinates or extents.
#[derive(Clone, Copy)]
pub struct V2<T> {
    pub x: T,
    pub y: T,
}

impl<T> V2<T> {
    pub fn new(x: T, y: T) -> (v: Self)
        ensures
            v.x == x,
            v.y == y,
    {
        V2 { x, y }
    }
}

} // verus!
