//! The interior node of the sparse tree: 16 x 16 x 16 brick references.

use vstd::prelude::*;

verus! {

/// A layer node. Each slot is 0 for "no brick" or one more than the index of
/// a brick in the brick pool; the slot for `(x, y, z)` sits at `x + 16 y + 256 z`.
#[derive(Clone, Copy)]
pub struct Layer0 {
    pub brick_indices: [u32; 4096],
}

impl View for Layer0 {
    type V = Seq<u32>;

    /// The 4096 slots, in storage order.
    open spec fn view(&self) -> Seq<u32> {
        self.brick_indices@
    }
}

impl Layer0 {
    /// A layer node that references no brick.
    pub fn empty() -> (l: Layer0)
        ensures
            l@ == Seq::new(4096, |i: int| 0u32),
    {
        let l = Layer0 { brick_indices: [0;4096] };
        assert(l@ =~= Seq::new(4096, |i: int| 0u32));
        l
    }
}

} // verus!
