//! The pool discipline: free bricks and bricks in use add up to the pool,
//! and every brick in use has one referencing slot.

use vstd::prelude::*;
use vstd::set_lib::*;
use crate::brickmap::MapView;
use crate::pool::{index_range, lemma_index_range_len};
use crate::world::World;

verus! {

/// The one-based indices of the bricks that are in use.
pub open spec fn bricks_in_use(s: MapView) -> Set<u32> {
    Set::new(|v: u32| 1 <= v <= s.bricks.len() && s.owner_layer[v - 1] != 0)
}

/// Pool discipline. In every well-formed tree the free bricks and the bricks
/// in use add up to the pool, every brick in use is referenced by the slot
/// that its owner record names, and no two layer slots reference the same
/// brick.
pub proof fn lemma_pool_discipline(s: MapView)
    requires
        s.wf(),
    ensures
        bricks_in_use(s).finite(),
        s.free_bricks.len() + bricks_in_use(s).len() == s.bricks.len(),
        forall|v: u32|
            bricks_in_use(s).contains(v) ==> 1 <= #[trigger] s.owner_layer[v - 1]
                <= s.layers.len() && s.owner_slot[v - 1] < 4096 && s.layers[s.owner_layer[v - 1]
                - 1][s.owner_slot[v - 1] as int] == v,
        forall|l1: int, k1: int, l2: int, k2: int|
            0 <= l1 < s.layers.len() && 0 <= k1 < 4096 && 0 <= l2 < s.layers.len() && 0 <= k2
                < 4096 && #[trigger] s.layers[l1][k1] != 0 && s.layers[l1][k1]
                == #[trigger] s.layers[l2][k2] ==> l1 == l2 && k1 == k2,
{
    let n = s.bricks.len();
    let free = s.free_bricks.to_set();
    let used = bricks_in_use(s);
    lemma_index_range_len(n);
    s.free_bricks.unique_seq_to_set();
    assert forall|v: u32| index_range(n).contains(v) implies (free.contains(v) != used.contains(
        v,
    )) by {
        assert(s.owner_ok(v - 1));
    }
    assert forall|v: u32| free.contains(v) implies index_range(n).contains(v) by {
        let i = choose|i: int| 0 <= i < s.free_bricks.len() && s.free_bricks[i] == v;
        assert(1 <= s.free_bricks[i] <= n);
    }
    assert(free.union(used) =~= index_range(n));
    assert(free.disjoint(used));
    lemma_len_subset(used, index_range(n));
    lemma_set_disjoint_lens(free, used);
    assert forall|v: u32| bricks_in_use(s).contains(v) implies 1 <= #[trigger] s.owner_layer[v
        - 1] <= s.layers.len() && s.owner_slot[v - 1] < 4096 && s.layers[s.owner_layer[v - 1]
        - 1][s.owner_slot[v - 1] as int] == v by {
        assert(s.owner_ok(v - 1));
    }
    assert forall|l1: int, k1: int, l2: int, k2: int|
        0 <= l1 < s.layers.len() && 0 <= k1 < 4096 && 0 <= l2 < s.layers.len() && 0 <= k2 < 4096
            && #[trigger] s.layers[l1][k1] != 0 && s.layers[l1][k1]
            == #[trigger] s.layers[l2][k2] implies l1 == l2 && k1 == k2 by {
        assert(s.slot_ok(l1, k1));
        assert(s.slot_ok(l2, k2));
    }
}

impl World {
    /// Pool discipline, for a world: free bricks and bricks in use add up to
    /// the brick pool.
    pub proof fn lemma_pool_discipline(&self)
        requires
            self.wf(),
        ensures
            bricks_in_use(self@.map).finite(),
            self@.map.free_bricks.len() + bricks_in_use(self@.map).len() == self@.map.bricks.len(),
    {
        self.lemma_view_wf();
        lemma_pool_discipline(self@.map);
    }
}

} // verus!
