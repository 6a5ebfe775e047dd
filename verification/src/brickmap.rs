//! The three-level sparse tree and its pools, as a mathematical state, and
//! the kernels that act on it, one queue entry at a time.
//!
//! A world position `p` addresses the root map at `p / 256`, the layer node
//! found there at `(p / 16) mod 16` and the brick found there at `p mod 16`.
//! Slots hold 0 for "absent" or one more than a pool index.

use vstd::prelude::*;
use crate::brick::{all_zero, cell_index};
use crate::math::UVec3;
use crate::pool::distinct_indices;

verus! {

/// Slots in the root map: 64 root cells along each axis.
pub const ROOT_SLOTS: usize = 262144;

/// World positions reach from 0 to this bound, exclusive, on each axis.
pub const WORLD_EXTENT: u32 = 16384;

/// One record of the staging buffer: where to write, and the packed voxel.
#[derive(Clone, Copy, Debug, PartialEq, Eq, Structural)]
pub struct QueueEntry {
    pub pos: UVec3,
    pub word: u32,
}

/// The kernels of the write pipeline, in the order in which they run.
#[derive(Clone, Copy, Debug, PartialEq, Eq, Structural)]
pub enum Kernel {
    AllocLayers,
    AllocBricks,
    WriteVoxels,
}

/// Whether `p` lies inside the root map.
pub open spec fn in_bounds(p: UVec3) -> bool {
    p.x < 16384 && p.y < 16384 && p.z < 16384
}

/// The root slot that covers `p`.
pub open spec fn root_slot(p: UVec3) -> int {
    (p.x / 256) + 64 * (p.y / 256) + 4096 * (p.z / 256)
}

/// The slot of `p` inside its layer node.
pub open spec fn layer_slot(p: UVec3) -> int {
    cell_index(((p.x / 16) % 16) as int, ((p.y / 16) % 16) as int, ((p.z / 16) % 16) as int)
}

/// The cell of `p` inside its brick.
pub open spec fn brick_slot(p: UVec3) -> int {
    cell_index((p.x % 16) as int, (p.y % 16) as int, (p.z % 16) as int)
}

/// The state of the tree and of both pools.
///
/// `owner_layer[b]` is 0 while brick `b` is free, else one more than the
/// index of the layer node that references it, and `owner_slot[b]` is then
/// the referencing slot. The two free sequences are the live parts of the
/// free-index stacks, bottom first.
#[verifier::ext_equal]
pub struct MapView {
    pub root: Seq<u32>,
    pub layers: Seq<Seq<u32>>,
    pub bricks: Seq<Seq<u32>>,
    pub owner_layer: Seq<u32>,
    pub owner_slot: Seq<u32>,
    pub free_bricks: Seq<u32>,
    pub free_layers: Seq<u32>,
}

impl MapView {
    /// The buffers have their fixed sizes and the pools fit one-based `u32` indices.
    pub open spec fn shape_wf(self) -> bool {
        &&& self.root.len() == 262144
        &&& self.layers.len() < u32::MAX
        &&& self.bricks.len() < u32::MAX
        &&& self.owner_layer.len() == self.bricks.len()
        &&& self.owner_slot.len() == self.bricks.len()
        &&& forall|l: int| 0 <= l < self.layers.len() ==> (#[trigger] self.layers[l]).len() == 4096
        &&& forall|b: int| 0 <= b < self.bricks.len() ==> (#[trigger] self.bricks[b]).len() == 4096
    }

    /// Every root slot is absent or names a layer node that is not free, and
    /// no two root slots name the same layer node.
    pub open spec fn root_wf(self) -> bool {
        &&& forall|r: int|
            0 <= r < self.root.len() ==> (#[trigger] self.root[r]) <= self.layers.len() && (
            self.root[r] != 0 ==> !self.free_layers.contains(self.root[r]))
        &&& forall|r1: int, r2: int|
            0 <= r1 < self.root.len() && 0 <= r2 < self.root.len() && #[trigger] self.root[r1] != 0
                && self.root[r1] == #[trigger] self.root[r2] ==> r1 == r2
    }

    /// Slot `k` of layer node `l` is absent or names a brick whose owner record points back.
    pub open spec fn slot_ok(self, l: int, k: int) -> bool {
        let v = self.layers[l][k];
        v != 0 ==> v <= self.bricks.len() && self.owner_layer[v - 1] == l + 1
            && self.owner_slot[v - 1] == k
    }

    /// Brick `b` is free exactly when it has no owner, and an owner record
    /// names the slot that references the brick.
    pub open spec fn owner_ok(self, b: int) -> bool {
        &&& self.owner_layer[b] == 0 <==> self.free_bricks.contains((b + 1) as u32)
        &&& self.owner_layer[b] != 0 ==> self.owner_layer[b] <= self.layers.len()
            && self.owner_slot[b] < 4096 && self.layers[self.owner_layer[b] - 1][self.owner_slot[b] as int]
            == b + 1
    }

    /// Layer slots and owner records agree.
    pub open spec fn links_wf(self) -> bool {
        &&& forall|l: int, k: int|
            0 <= l < self.layers.len() && 0 <= k < 4096 ==> #[trigger] self.slot_ok(l, k)
        &&& forall|b: int| 0 <= b < self.bricks.len() ==> #[trigger] self.owner_ok(b)
    }

    /// Free bricks hold only empty voxels and free layer nodes reference no brick.
    pub open spec fn free_nodes_blank(self) -> bool {
        &&& forall|b: int|
            0 <= b < self.bricks.len() && #[trigger] self.owner_layer[b] == 0 ==> all_zero(
                self.bricks[b],
            )
        &&& forall|i: int|
            0 <= i < self.free_layers.len() ==> all_zero(
                self.layers[(#[trigger] self.free_layers[i]) - 1],
            )
    }

    /// The invariant of the tree: index 0 is never a node, a referenced node
    /// is not free, every brick in use has exactly one referencing slot, and
    /// free nodes are blank.
    pub open spec fn wf(self) -> bool {
        &&& self.shape_wf()
        &&& distinct_indices(self.free_layers, self.layers.len())
        &&& distinct_indices(self.free_bricks, self.bricks.len())
        &&& self.root_wf()
        &&& self.links_wf()
        &&& self.free_nodes_blank()
    }

    /// The packed voxel stored for world position `p`; 0 where the tree has
    /// no brick for it or `p` lies outside the root map.
    pub open spec fn voxel_at(self, p: UVec3) -> u32 {
        if !in_bounds(p) {
            0
        } else {
            let r = self.root[root_slot(p)];
            if r == 0 {
                0
            } else {
                let b = self.layers[r - 1][layer_slot(p)];
                if b == 0 {
                    0
                } else {
                    self.bricks[b - 1][brick_slot(p)]
                }
            }
        }
    }

    /// The first kernel, for one entry: a root slot that is absent receives a
    /// layer node from the pool, if one is free.
    pub open spec fn alloc_layer(self, e: QueueEntry) -> MapView {
        let ri = root_slot(e.pos);
        if !in_bounds(e.pos) || self.root[ri] != 0 || self.free_layers.len() == 0 {
            self
        } else {
            MapView {
                root: self.root.update(ri, self.free_layers.last()),
                free_layers: self.free_layers.drop_last(),
                ..self
            }
        }
    }

    /// The second kernel, for one entry: where a voxel that is not empty
    /// heads for an absent layer slot, the slot receives a brick from the
    /// pool, if one is free.
    pub open spec fn alloc_brick(self, e: QueueEntry) -> MapView {
        let r = self.root[root_slot(e.pos)];
        let k = layer_slot(e.pos);
        if !in_bounds(e.pos) || e.word == 0 || r == 0 || self.layers[r - 1][k] != 0
            || self.free_bricks.len() == 0 {
            self
        } else {
            let idx = self.free_bricks.last();
            MapView {
                layers: self.layers.update(r - 1, self.layers[r - 1].update(k, idx)),
                owner_layer: self.owner_layer.update(idx - 1, r),
                owner_slot: self.owner_slot.update(idx - 1, k as u32),
                free_bricks: self.free_bricks.drop_last(),
                ..self
            }
        }
    }

    /// The third kernel, for one entry: the voxel is stored if root slot and
    /// layer slot both resolve, and dropped otherwise.
    pub open spec fn write_voxel(self, e: QueueEntry) -> MapView {
        let r = self.root[root_slot(e.pos)];
        let b = self.layers[r - 1][layer_slot(e.pos)];
        if !in_bounds(e.pos) || r == 0 || b == 0 {
            self
        } else {
            MapView {
                bricks: self.bricks.update(
                    b - 1,
                    self.bricks[b - 1].update(brick_slot(e.pos), e.word),
                ),
                ..self
            }
        }
    }

    /// One invocation of `kernel`.
    pub open spec fn step(self, kernel: Kernel, e: QueueEntry) -> MapView {
        match kernel {
            Kernel::AllocLayers => self.alloc_layer(e),
            Kernel::AllocBricks => self.alloc_brick(e),
            Kernel::WriteVoxels => self.write_voxel(e),
        }
    }

    /// One dispatch of `kernel` over `entries`, invocations taken in order.
    pub open spec fn run(self, kernel: Kernel, entries: Seq<QueueEntry>) -> MapView
        decreases entries.len(),
    {
        if entries.len() == 0 {
            self
        } else {
            self.run(kernel, entries.drop_last()).step(kernel, entries.last())
        }
    }

    /// The write pipeline for one chunk: the three kernels, each over the
    /// whole chunk, one after the other.
    pub open spec fn write_chunk(self, entries: Seq<QueueEntry>) -> MapView {
        self.run(Kernel::AllocLayers, entries).run(Kernel::AllocBricks, entries).run(
            Kernel::WriteVoxels,
            entries,
        )
    }

    /// Whether the deallocation kernel reclaims brick `b`: it is in use and
    /// every voxel in it is empty.
    pub open spec fn reclaimable(self, b: int) -> bool {
        self.owner_layer[b] != 0 && all_zero(self.bricks[b])
    }

    /// No brick is reclaimable: every brick in use holds a voxel that is not
    /// empty. A fresh tree is settled, and so is every tree that the
    /// deallocation pass leaves.
    pub open spec fn settled(self) -> bool {
        forall|b: int| 0 <= b < self.bricks.len() ==> !#[trigger] self.reclaimable(b)
    }

    /// The deallocation kernel, for one brick: a reclaimable brick has its
    /// owning slot cleared and its index pushed on the free stack.
    pub open spec fn free_brick(self, b: int) -> MapView {
        if self.reclaimable(b) {
            let l = self.owner_layer[b] - 1;
            let k = self.owner_slot[b] as int;
            MapView {
                layers: self.layers.update(l, self.layers[l].update(k, 0)),
                owner_layer: self.owner_layer.update(b, 0),
                free_bricks: self.free_bricks.push((b + 1) as u32),
                ..self
            }
        } else {
            self
        }
    }

    /// The deallocation kernel over the bricks `lo..hi`, in ascending order.
    pub open spec fn dealloc_range(self, lo: int, hi: int) -> MapView
        decreases hi - lo,
    {
        if hi <= lo {
            self
        } else {
            self.dealloc_range(lo, hi - 1).free_brick(hi - 1)
        }
    }

    /// The deallocation pass over the whole brick pool.
    pub open spec fn dealloc_pass(self) -> MapView {
        self.dealloc_range(0, self.bricks.len() as int)
    }

    /// The state of fresh pools of `layers` layer nodes and `bricks` bricks.
    pub open spec fn fresh(layers: nat, bricks: nat) -> MapView {
        MapView {
            root: Seq::new(262144, |i: int| 0u32),
            layers: Seq::new(layers, |i: int| Seq::new(4096, |k: int| 0u32)),
            bricks: Seq::new(bricks, |i: int| Seq::new(4096, |k: int| 0u32)),
            owner_layer: Seq::new(bricks, |i: int| 0u32),
            owner_slot: Seq::new(bricks, |i: int| 0u32),
            free_bricks: Seq::new(bricks, |i: int| (i + 1) as u32),
            free_layers: Seq::new(layers, |i: int| (i + 1) as u32),
        }
    }
}

/// The slots of an in-bounds position lie inside their buffers.
pub proof fn lemma_slot_bounds(p: UVec3)
    ensures
        0 <= layer_slot(p) < 4096,
        0 <= brick_slot(p) < 4096,
        in_bounds(p) ==> 0 <= root_slot(p) < 262144,
{
}

/// Fresh pools satisfy the invariant.
pub proof fn lemma_fresh_wf(layers: nat, bricks: nat)
    requires
        layers < u32::MAX,
        bricks < u32::MAX,
    ensures
        MapView::fresh(layers, bricks).wf(),
{
    let s = MapView::fresh(layers, bricks);
    assert(s.links_wf()) by {
        assert forall|b: int| 0 <= b < s.bricks.len() implies #[trigger] s.owner_ok(b) by {
            assert(s.free_bricks[b] == (b + 1) as u32);
        }
    }
}

/// Each invocation of a kernel keeps the invariant.
pub proof fn lemma_step_wf(s: MapView, kernel: Kernel, e: QueueEntry)
    requires
        s.wf(),
    ensures
        s.step(kernel, e).wf(),
{
    match kernel {
        Kernel::AllocLayers => lemma_alloc_layer_wf(s, e),
        Kernel::AllocBricks => lemma_alloc_brick_wf(s, e),
        Kernel::WriteVoxels => lemma_write_voxel_wf(s, e),
    }
}

proof fn lemma_alloc_layer_wf(s: MapView, e: QueueEntry)
    requires
        s.wf(),
    ensures
        s.alloc_layer(e).wf(),
{
    let t = s.alloc_layer(e);
    lemma_slot_bounds(e.pos);
    if t != s {
        let ri = root_slot(e.pos);
        let idx = s.free_layers.last();
        let top = s.free_layers.len() - 1;
        assert(s.free_layers[top] == idx);
        assert(forall|i: int| 0 <= i < t.free_layers.len() ==> t.free_layers[i] == s.free_layers[i]);
        assert(!t.free_layers.contains(idx));
        assert(t.root_wf()) by {
            assert forall|r: int| 0 <= r < t.root.len() implies (#[trigger] t.root[r])
                <= t.layers.len() && (t.root[r] != 0 ==> !t.free_layers.contains(t.root[r])) by {
                if r != ri {
                    assert(t.root[r] == s.root[r]);
                }
            }
            assert forall|r1: int, r2: int|
                0 <= r1 < t.root.len() && 0 <= r2 < t.root.len() && #[trigger] t.root[r1] != 0
                    && t.root[r1] == #[trigger] t.root[r2] implies r1 == r2 by {
                if r1 != ri && r2 != ri {
                    assert(s.root[r1] == s.root[r2]);
                } else if r1 == ri && r2 != ri {
                    assert(s.root[r2] == idx);
                } else if r2 == ri && r1 != ri {
                    assert(s.root[r1] == idx);
                }
            }
        }
        assert(t.links_wf()) by {
            assert forall|l: int, k: int|
                0 <= l < t.layers.len() && 0 <= k < 4096 implies #[trigger] t.slot_ok(l, k) by {
                assert(s.slot_ok(l, k));
            }
            assert forall|b: int| 0 <= b < t.bricks.len() implies #[trigger] t.owner_ok(b) by {
                assert(s.owner_ok(b));
            }
        }
    }
}

proof fn lemma_alloc_brick_wf(s: MapView, e: QueueEntry)
    requires
        s.wf(),
    ensures
        s.alloc_brick(e).wf(),
{
    let t = s.alloc_brick(e);
    lemma_slot_bounds(e.pos);
    if t != s {
        let r = s.root[root_slot(e.pos)];
        let k = layer_slot(e.pos);
        let idx = s.free_bricks.last();
        let top = s.free_bricks.len() - 1;
        assert(s.free_bricks[top] == idx);
        assert(s.owner_ok(idx - 1));
        assert(s.owner_layer[idx - 1] == 0);
        assert(forall|i: int| 0 <= i < t.free_bricks.len() ==> t.free_bricks[i] == s.free_bricks[i]);
        assert(!t.free_bricks.contains(idx));
        assert(t.shape_wf());
        assert(t.links_wf()) by {
            assert forall|l: int, j: int|
                0 <= l < t.layers.len() && 0 <= j < 4096 implies #[trigger] t.slot_ok(l, j) by {
                assert(s.slot_ok(l, j));
            }
            assert forall|b: int| 0 <= b < t.bricks.len() implies #[trigger] t.owner_ok(b) by {
                assert(s.owner_ok(b));
                if b != idx - 1 {
                    if s.free_bricks.contains((b + 1) as u32) {
                        let i = choose|i: int|
                            0 <= i < s.free_bricks.len() && s.free_bricks[i] == (b + 1) as u32;
                        assert(t.free_bricks[i] == (b + 1) as u32);
                    }
                    if s.owner_layer[b] != 0 {
                        assert(s.slot_ok(s.owner_layer[b] - 1, s.owner_slot[b] as int));
                    }
                }
            }
        }
        assert(t.free_nodes_blank()) by {
            assert forall|i: int| 0 <= i < t.free_layers.len() implies all_zero(
                t.layers[(#[trigger] t.free_layers[i]) - 1],
            ) by {
                assert(s.free_layers.contains(s.free_layers[i]));
            }
        }
    }
}

proof fn lemma_write_voxel_wf(s: MapView, e: QueueEntry)
    requires
        s.wf(),
    ensures
        s.write_voxel(e).wf(),
{
    let t = s.write_voxel(e);
    lemma_slot_bounds(e.pos);
    if t != s {
        let r = s.root[root_slot(e.pos)];
        let k = layer_slot(e.pos);
        let b = s.layers[r - 1][k];
        assert(s.slot_ok(r - 1, k));
        assert(t.shape_wf());
        assert(t.links_wf()) by {
            assert forall|l: int, j: int|
                0 <= l < t.layers.len() && 0 <= j < 4096 implies #[trigger] t.slot_ok(l, j) by {
                assert(s.slot_ok(l, j));
            }
            assert forall|c: int| 0 <= c < t.bricks.len() implies #[trigger] t.owner_ok(c) by {
                assert(s.owner_ok(c));
            }
        }
    }
}

/// Each invocation of the deallocation kernel keeps the invariant.
pub proof fn lemma_free_brick_wf(s: MapView, b: int)
    requires
        s.wf(),
        0 <= b < s.bricks.len(),
    ensures
        s.free_brick(b).wf(),
{
    let t = s.free_brick(b);
    if s.reclaimable(b) {
        let l = s.owner_layer[b] - 1;
        let k = s.owner_slot[b] as int;
        assert(s.owner_ok(b));
        assert(t.shape_wf());
        assert(distinct_indices(t.free_bricks, t.bricks.len())) by {
            assert forall|i: int, j: int|
                0 <= i < t.free_bricks.len() && 0 <= j < t.free_bricks.len() && i != j implies t.free_bricks[i]
                != t.free_bricks[j] by {
                if i < s.free_bricks.len() {
                    assert(s.free_bricks.contains(s.free_bricks[i]));
                }
                if j < s.free_bricks.len() {
                    assert(s.free_bricks.contains(s.free_bricks[j]));
                }
            }
        }
        assert(t.links_wf()) by {
            assert forall|m: int, j: int|
                0 <= m < t.layers.len() && 0 <= j < 4096 implies #[trigger] t.slot_ok(m, j) by {
                assert(s.slot_ok(m, j));
            }
            assert forall|c: int| 0 <= c < t.bricks.len() implies #[trigger] t.owner_ok(c) by {
                assert(s.owner_ok(c));
                if c == b {
                    assert(t.free_bricks[s.free_bricks.len() as int] == (b + 1) as u32);
                } else {
                    if s.free_bricks.contains((c + 1) as u32) {
                        let i = choose|i: int|
                            0 <= i < s.free_bricks.len() && s.free_bricks[i] == (c + 1) as u32;
                        assert(t.free_bricks[i] == (c + 1) as u32);
                    }
                    if t.free_bricks.contains((c + 1) as u32) {
                        let i = choose|i: int|
                            0 <= i < t.free_bricks.len() && t.free_bricks[i] == (c + 1) as u32;
                        assert(s.free_bricks[i] == (c + 1) as u32);
                    }
                }
            }
        }
        assert(t.root_wf());
        assert(t.free_nodes_blank()) by {
            assert forall|i: int| 0 <= i < t.free_layers.len() implies all_zero(
                t.layers[(#[trigger] t.free_layers[i]) - 1],
            ) by {
                assert(all_zero(s.layers[s.free_layers[i] - 1]));
            }
        }
    }
}

} // verus!
