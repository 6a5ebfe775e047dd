//! The tree and its pools in memory, with the kernels that allocate nodes,
//! write voxels and reclaim bricks.

use vstd::prelude::*;
use crate::brick::Brick;
use crate::brickmap::{
    brick_slot, in_bounds, layer_slot, lemma_free_brick_wf, lemma_fresh_wf, lemma_step_wf,
    root_slot, Kernel, MapView, QueueEntry, ROOT_SLOTS, WORLD_EXTENT,
};
use crate::layer0::Layer0;
use crate::math::UVec3;
use crate::pool::FreeStack;
use crate::voxel::Voxel;

verus! {

/// The root map, the layer pool and the brick pool, with the owner records
/// of the bricks and the free-index stacks of both pools.
pub struct Brickmap {
    root: Vec<u32>,
    layers: Vec<Layer0>,
    bricks: Vec<Brick>,
    owner_layer: Vec<u32>,
    owner_slot: Vec<u32>,
    brick_stack: FreeStack,
    layer_stack: FreeStack,
}

impl View for Brickmap {
    type V = MapView;

    closed spec fn view(&self) -> MapView {
        MapView {
            root: self.root@,
            layers: Seq::new(self.layers@.len(), |i: int| self.layers@[i]@),
            bricks: Seq::new(self.bricks@.len(), |i: int| self.bricks@[i]@),
            owner_layer: self.owner_layer@,
            owner_slot: self.owner_slot@,
            free_bricks: self.brick_stack@,
            free_layers: self.layer_stack@,
        }
    }
}

/// Index into the root map for an in-bounds position.
fn root_index(p: UVec3) -> (i: usize)
    requires
        in_bounds(p),
    ensures
        i == root_slot(p),
        i < 262144,
{
    (p.x / 256) as usize + 64 * ((p.y / 256) as usize) + 4096 * ((p.z / 256) as usize)
}

/// Index into a layer node for a position.
fn layer_index(p: UVec3) -> (i: usize)
    ensures
        i == layer_slot(p),
        i < 4096,
{
    ((p.x / 16) % 16) as usize + 16 * (((p.y / 16) % 16) as usize) + 256 * (((p.z / 16)
        % 16) as usize)
}

/// Index into a brick for a position.
fn brick_index(p: UVec3) -> (i: usize)
    ensures
        i == brick_slot(p),
        i < 4096,
{
    (p.x % 16) as usize + 16 * ((p.y % 16) as usize) + 256 * ((p.z % 16) as usize)
}

/// Whether `p` lies inside the root map.
fn position_in_bounds(p: UVec3) -> (b: bool)
    ensures
        b == in_bounds(p),
{
    p.x < WORLD_EXTENT && p.y < WORLD_EXTENT && p.z < WORLD_EXTENT
}

impl Brickmap {
    /// The state satisfies the invariant of the tree and both stacks serve their pools.
    pub closed spec fn wf(&self) -> bool {
        &&& self@.wf()
        &&& self.brick_stack.wf()
        &&& self.layer_stack.wf()
        &&& self.brick_stack.capacity() == self.bricks@.len()
        &&& self.layer_stack.capacity() == self.layers@.len()
    }

    /// A well-formed map has a well-formed state.
    pub proof fn lemma_view_wf(&self)
        requires
            self.wf(),
        ensures
            self@.wf(),
    {
    }

    /// An empty tree over fresh pools of `layers` layer nodes and `bricks` bricks.
    pub fn new(layers: u32, bricks: u32) -> (m: Brickmap)
        requires
            layers < u32::MAX,
            bricks < u32::MAX,
        ensures
            m.wf(),
            m@ == MapView::fresh(layers as nat, bricks as nat),
    {
        let m = Brickmap {
            root: vec![0u32; ROOT_SLOTS],
            layers: vec![Layer0::empty(); layers as usize],
            bricks: vec![Brick::empty(); bricks as usize],
            owner_layer: vec![0u32; bricks as usize],
            owner_slot: vec![0u32; bricks as usize],
            brick_stack: FreeStack::new(bricks),
            layer_stack: FreeStack::new(layers),
        };
        proof {
            lemma_fresh_wf(layers as nat, bricks as nat);
            assert(m@ =~~= MapView::fresh(layers as nat, bricks as nat));
        }
        m
    }

    /// Number of free bricks.
    pub fn bricks_free(&self) -> (n: u32)
        requires
            self.wf(),
        ensures
            n == self@.free_bricks.len(),
    {
        self.brick_stack.free_count()
    }

    /// Number of free layer nodes.
    pub fn layers_free(&self) -> (n: u32)
        requires
            self.wf(),
        ensures
            n == self@.free_layers.len(),
    {
        self.layer_stack.free_count()
    }

    /// Number of bricks in the pool.
    pub fn brick_capacity(&self) -> (n: u32)
        requires
            self.wf(),
        ensures
            n == self@.bricks.len(),
    {
        self.bricks.len() as u32
    }

    /// The root slot that covers `p`: 0, or one more than a layer index.
    /// Positions outside the root map have no slot and give 0.
    pub fn root_entry(&self, p: UVec3) -> (r: u32)
        requires
            self.wf(),
        ensures
            r == (if in_bounds(p) {
                self@.root[root_slot(p)]
            } else {
                0
            }),
    {
        if !position_in_bounds(p) {
            return 0;
        }
        self.root[root_index(p)]
    }

    /// The layer slot that covers `p`: 0, or one more than a brick index.
    /// Gives 0 where the root slot is absent.
    pub fn layer_entry(&self, p: UVec3) -> (b: u32)
        requires
            self.wf(),
        ensures
            b == (if in_bounds(p) && self@.root[root_slot(p)] != 0 {
                self@.layers[self@.root[root_slot(p)] - 1][layer_slot(p)]
            } else {
                0
            }),
    {
        if !position_in_bounds(p) {
            return 0;
        }
        let r = self.root[root_index(p)];
        if r == 0 {
            return 0;
        }
        self.layers[(r - 1) as usize].brick_indices[layer_index(p)]
    }

    /// The voxel stored for world position `p`; the empty voxel where the
    /// tree has no brick for it.
    pub fn voxel_at(&self, p: UVec3) -> (v: Voxel)
        requires
            self.wf(),
        ensures
            v.0 == self@.voxel_at(p),
    {
        if !position_in_bounds(p) {
            return Voxel(0);
        }
        let r = self.root[root_index(p)];
        if r == 0 {
            return Voxel(0);
        }
        let k = layer_index(p);
        let b = self.layers[(r - 1) as usize].brick_indices[k];
        if b == 0 {
            return Voxel(0);
        }
        proof {
            assert(self@.slot_ok(r - 1, k as int));
        }
        self.bricks[(b - 1) as usize].0[brick_index(p)]
    }

    /// One invocation of the layer allocation kernel.
    fn alloc_layer(&mut self, e: QueueEntry)
        requires
            old(self).wf(),
        ensures
            final(self).wf(),
            final(self)@ == old(self)@.alloc_layer(e),
    {
        proof {
            lemma_step_wf(self@, Kernel::AllocLayers, e);
        }
        if !position_in_bounds(e.pos) {
            return ;
        }
        let ri = root_index(e.pos);
        if self.root[ri] != 0 {
            return ;
        }
        match self.layer_stack.acquire() {
            None => {},
            Some(idx) => {
                self.root[ri] = idx;
                assert(self@ =~~= old(self)@.alloc_layer(e));
            },
        }
    }

    /// One invocation of the brick allocation kernel.
    fn alloc_brick(&mut self, e: QueueEntry)
        requires
            old(self).wf(),
        ensures
            final(self).wf(),
            final(self)@ == old(self)@.alloc_brick(e),
    {
        proof {
            lemma_step_wf(self@, Kernel::AllocBricks, e);
        }
        if !position_in_bounds(e.pos) || e.word == 0 {
            return ;
        }
        let r = self.root[root_index(e.pos)];
        if r == 0 {
            return ;
        }
        let l = (r - 1) as usize;
        let k = layer_index(e.pos);
        if self.layers[l].brick_indices[k] != 0 {
            return ;
        }
        match self.brick_stack.acquire() {
            None => {},
            Some(idx) => {
                proof {
                    self.brick_stack.lemma_bounds();
                    let top = old(self)@.free_bricks.len() - 1;
                    assert(old(self)@.free_bricks[top] == idx);
                }
                self.layers[l].brick_indices[k] = idx;
                self.owner_layer[(idx - 1) as usize] = r;
                self.owner_slot[(idx - 1) as usize] = k as u32;
                assert(self@ =~~= old(self)@.alloc_brick(e));
            },
        }
    }

    /// One invocation of the voxel write kernel.
    fn write_voxel(&mut self, e: QueueEntry)
        requires
            old(self).wf(),
        ensures
            final(self).wf(),
            final(self)@ == old(self)@.write_voxel(e),
    {
        proof {
            lemma_step_wf(self@, Kernel::WriteVoxels, e);
        }
        if !position_in_bounds(e.pos) {
            return ;
        }
        let r = self.root[root_index(e.pos)];
        if r == 0 {
            return ;
        }
        let k = layer_index(e.pos);
        let b = self.layers[(r - 1) as usize].brick_indices[k];
        if b == 0 {
            return ;
        }
        proof {
            assert(self@.slot_ok(r - 1, k as int));
        }
        let c = brick_index(e.pos);
        self.bricks[(b - 1) as usize].0[c] = Voxel(e.word);
        assert(self@ =~~= old(self)@.write_voxel(e));
    }

    /// One dispatch of `kernel` over the first `size` entries of `staging`.
    pub fn dispatch(&mut self, kernel: Kernel, staging: &Vec<QueueEntry>, size: usize)
        requires
            old(self).wf(),
            size <= staging@.len(),
        ensures
            final(self).wf(),
            final(self)@ == old(self)@.run(kernel, staging@.take(size as int)),
    {
        let mut i: usize = 0;
        while i < size
            invariant
                i <= size <= staging@.len(),
                self.wf(),
                self@ == old(self)@.run(kernel, staging@.take(i as int)),
            decreases size - i,
        {
            let e = staging[i];
            proof {
                let next = staging@.take(i + 1);
                assert(next.drop_last() =~= staging@.take(i as int));
                assert(next.last() == e);
            }
            match kernel {
                Kernel::AllocLayers => self.alloc_layer(e),
                Kernel::AllocBricks => self.alloc_brick(e),
                Kernel::WriteVoxels => self.write_voxel(e),
            }
            i += 1;
        }
    }

    /// One invocation of the deallocation kernel, for brick `b`.
    fn free_brick(&mut self, b: u32)
        requires
            old(self).wf(),
            b < old(self)@.bricks.len(),
        ensures
            final(self).wf(),
            final(self)@ == old(self)@.free_brick(b as int),
    {
        proof {
            lemma_free_brick_wf(self@, b as int);
            assert(self@.owner_ok(b as int));
        }
        let owner = self.owner_layer[b as usize];
        if owner == 0 {
            return ;
        }
        if !self.bricks[b as usize].is_blank() {
            return ;
        }
        let l = (owner - 1) as usize;
        let k = self.owner_slot[b as usize] as usize;
        self.layers[l].brick_indices[k] = 0;
        self.owner_layer[b as usize] = 0;
        self.brick_stack.release(b + 1);
        assert(self@ =~~= old(self)@.free_brick(b as int));
    }

    /// One dispatch of the deallocation kernel over the bricks `first..first + count`.
    pub fn dealloc_bricks(&mut self, first: u32, count: u32)
        requires
            old(self).wf(),
            first + count <= old(self)@.bricks.len(),
        ensures
            final(self).wf(),
            final(self)@ == old(self)@.dealloc_range(first as int, first + count),
    {
        let mut i: u32 = 0;
        while i < count
            invariant
                i <= count,
                first + count <= old(self)@.bricks.len(),
                self.wf(),
                self@.bricks.len() == old(self)@.bricks.len(),
                self@ == old(self)@.dealloc_range(first as int, first + i),
            decreases count - i,
        {
            self.free_brick(first + i);
            i += 1;
        }
    }
}

} // verus!
