//! The leaf of the sparse tree: a 16 x 16 x 16 block of packed voxels.

use vstd::prelude::*;
use crate::math::UVec3;
use crate::voxel::Voxel;

verus! {

/// A block of 4096 voxels; the voxel at `(x, y, z)` sits at `x + 16 y + 256 z`.
#[derive(Clone, Copy)]
pub struct Brick(pub [Voxel; 4096]);

impl View for Brick {
    type V = Seq<u32>;

    /// The 4096 packed words, in storage order.
    open spec fn view(&self) -> Seq<u32> {
        Seq::new(4096, |i: int| self.0[i].0)
    }
}

/// Storage index of the voxel at `(x, y, z)` inside a brick or a layer node.
pub open spec fn cell_index(x: int, y: int, z: int) -> int {
    x + 16 * y + 256 * z
}

/// Every word of `words` is zero.
pub open spec fn all_zero(words: Seq<u32>) -> bool {
    forall|i: int| 0 <= i < words.len() ==> words[i] == 0
}

/// No word of `words` carries opacity: bits 25 to 31 are clear in each.
pub open spec fn all_transparent(words: Seq<u32>) -> bool {
    forall|i: int| 0 <= i < words.len() ==> Voxel(#[trigger] words[i]).spec_opacity() == 0
}

impl Brick {
    /// A brick of empty voxels.
    pub fn empty() -> (b: Brick)
        ensures
            b@ == Seq::new(4096, |i: int| 0u32),
            all_zero(b@),
    {
        let b = Brick([Voxel(0);4096]);
        assert(b@ =~= Seq::new(4096, |i: int| 0u32));
        b
    }

    /// A brick filled with opaque, fully rough white voxels.
    pub fn full() -> (b: Brick)
        ensures
            b@ == Seq::new(4096, |i: int| 0xFE0F_FFFFu32),
    {
        let v = Voxel::new([255;3], 255, 0, false, 255);
        let b = Brick([v;4096]);
        assert(b@ =~= Seq::new(4096, |i: int| 0xFE0F_FFFFu32));
        b
    }

    /// Whether no voxel of the brick has opacity. Voxels that carry other
    /// fields with opacity zero do not count: see [`Brick::is_blank`] for the
    /// stricter test.
    pub fn is_empty(&self) -> (e: bool)
        ensures
            e == all_transparent(self@),
    {
        let mut i: usize = 0;
        while i < 4096
            invariant
                i <= 4096,
                forall|j: int| 0 <= j < i ==> Voxel(#[trigger] self@[j]).spec_opacity() == 0,
            decreases 4096 - i,
        {
            if self.0[i].opacity() != 0 {
                assert(Voxel(self@[i as int]).spec_opacity() != 0);
                return false;
            }
            i += 1;
        }
        true
    }

    /// Whether every voxel of the brick is the empty voxel.
    pub fn is_blank(&self) -> (e: bool)
        ensures
            e == all_zero(self@),
    {
        let mut i: usize = 0;
        while i < 4096
            invariant
                i <= 4096,
                forall|j: int| 0 <= j < i ==> self@[j] == 0,
            decreases 4096 - i,
        {
            if self.0[i].0 != 0 {
                assert(self@[i as int] != 0);
                return false;
            }
            i += 1;
        }
        true
    }

    /// Builds a brick by asking `f` for the voxel at each `(x, y, z)`.
    pub fn func<F: Fn(usize, usize, usize) -> Voxel>(f: F) -> (b: Brick)
        requires
            forall|x: usize, y: usize, z: usize|
                x < 16 && y < 16 && z < 16 ==> call_requires(f, (x, y, z)),
        ensures
            forall|x: usize, y: usize, z: usize|
                x < 16 && y < 16 && z < 16 ==> call_ensures(
                    f,
                    (x, y, z),
                    Voxel(#[trigger] b@[cell_index(x as int, y as int, z as int)]),
                ),
    {
        let mut brick = Brick::empty();
        let mut i: usize = 0;
        while i < 4096
            invariant
                i <= 4096,
                forall|x: usize, y: usize, z: usize|
                    x < 16 && y < 16 && z < 16 ==> call_requires(f, (x, y, z)),
                forall|j: int|
                    0 <= j < i ==> call_ensures(
                        f,
                        ((j % 16) as usize, ((j / 16) % 16) as usize, (j / 256) as usize),
                        Voxel(#[trigger] brick@[j]),
                    ),
            decreases 4096 - i,
        {
            let ghost before = brick@;
            let v = f(i % 16, (i / 16) % 16, i / 256);
            brick.0[i] = v;
            assert(brick@ =~= before.update(i as int, v.0));
            assert(Voxel(brick@[i as int]) == v);
            i += 1;
        }
        assert forall|x: usize, y: usize, z: usize| x < 16 && y < 16 && z < 16 implies call_ensures(
            f,
            (x, y, z),
            Voxel(#[trigger] brick@[cell_index(x as int, y as int, z as int)]),
        ) by {
            let j = cell_index(x as int, y as int, z as int);
            assert(j % 16 == x && (j / 16) % 16 == y && j / 256 == z);
        }
        brick
    }

    /// Stores `voxel` at `pos`, each coordinate below 16.
    pub fn set_voxel(&mut self, voxel: Voxel, pos: UVec3)
        requires
            pos.x < 16,
            pos.y < 16,
            pos.z < 16,
        ensures
            final(self)@ == old(self)@.update(
                cell_index(pos.x as int, pos.y as int, pos.z as int),
                voxel.0,
            ),
    {
        let i = pos.x as usize + pos.y as usize * 16 + pos.z as usize * 16 * 16;
        self.0[i] = voxel;
        assert(self@ =~= old(self)@.update(
            cell_index(pos.x as int, pos.y as int, pos.z as int),
            voxel.0,
        ));
    }

    /// The voxel at `pos`, each coordinate below 16.
    pub fn get_voxel(&self, pos: UVec3) -> (v: &Voxel)
        requires
            pos.x < 16,
            pos.y < 16,
            pos.z < 16,
        ensures
            v.0 == self@[cell_index(pos.x as int, pos.y as int, pos.z as int)],
    {
        let i = pos.x as usize + pos.y as usize * 16 + pos.z as usize * 16 * 16;
        &self.0[i]
    }
}

} // verus!
