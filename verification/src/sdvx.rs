//! Rigid voxel models and their binary container.
//!
//! A model keeps each distinct voxel word once, in a palette, and groups its
//! voxels into bricks of 8 x 8 x 8 cells. A cell holds 0 for "no voxel" or one
//! more than the index of its word in the palette; the cell of a position `p`
//! in its brick is `p.x mod 8 + 8 (p.y mod 8) + 64 (p.z mod 8)`.

use vstd::prelude::*;
use vstd::set_lib::*;
use crate::math::UVec3;
use crate::voxel::Voxel;

verus! {

/// One brick of a model: its brick coordinates and its 512 palette references.
#[derive(Debug)]
pub struct ModelBrick {
    pub x: u32,
    pub y: u32,
    pub z: u32,
    pub cells: Vec<u32>,
}

/// A rigid voxel model.
#[derive(Debug)]
pub struct Model {
    pub palette: Vec<u32>,
    pub bricks: Vec<ModelBrick>,
}

/// The cell of position `p` inside its brick.
pub open spec fn local_cell(p: UVec3) -> int {
    (p.x % 8) + 8 * (p.y % 8) + 64 * (p.z % 8)
}

/// Whether `b` is the brick that covers position `p`.
pub open spec fn brick_covers(b: ModelBrick, p: UVec3) -> bool {
    b.x == p.x / 8 && b.y == p.y / 8 && b.z == p.z / 8
}

/// The word that a cell value stands for: 0 for an empty cell.
pub open spec fn cell_word(palette: Seq<u32>, cell: u32) -> u32 {
    if cell == 0 {
        0
    } else {
        palette[cell - 1]
    }
}

/// The position of cell `k` of a brick with the given brick coordinates.
pub open spec fn cell_position(b: ModelBrick, k: int) -> UVec3 {
    UVec3 {
        x: (b.x * 8 + k % 8) as u32,
        y: (b.y * 8 + (k / 8) % 8) as u32,
        z: (b.z * 8 + k / 64) as u32,
    }
}

/// The word of the last pair of `voxels` at position `p`; 0 if there is none.
pub open spec fn last_word(voxels: Seq<(Voxel, UVec3)>, p: UVec3) -> u32
    decreases voxels.len(),
{
    if voxels.len() == 0 {
        0
    } else if voxels.last().1 == p {
        voxels.last().0.0
    } else {
        last_word(voxels.drop_last(), p)
    }
}

/// The words of `s` are distinct and none is the empty voxel.
pub open spec fn distinct_words(s: Seq<u32>) -> bool {
    &&& s.no_duplicates()
    &&& forall|i: int| 0 <= i < s.len() ==> #[trigger] s[i] != 0
}

/// Distinct words that are not zero number fewer than 2^32.
pub proof fn lemma_distinct_words_len(s: Seq<u32>)
    requires
        distinct_words(s),
    ensures
        s.len() <= u32::MAX,
{
    let all = u32::range_set(1u32, u32::MAX).insert(u32::MAX);
    range_set_properties::<u32>(1u32, u32::MAX);
    s.unique_seq_to_set();
    assert(s.to_set().subset_of(all)) by {
        assert forall|v: u32| s.to_set().contains(v) implies all.contains(v) by {
            let i = choose|i: int| 0 <= i < s.len() && s[i] == v;
            assert(s[i] != 0);
        }
    }
    lemma_len_subset(s.to_set(), all);
}

/// Whether brick `b` covers the position of some pair of `voxels` whose
/// voxel is not empty.
pub open spec fn called_for(b: ModelBrick, voxels: Seq<(Voxel, UVec3)>) -> bool {
    exists|k: int|
        0 <= k < voxels.len() && (#[trigger] voxels[k]).0.0 != 0 && brick_covers(b, voxels[k].1)
}

/// Whether the bricks of `m` are those that the voxels of `voxels` call
/// for: every brick covers the position of some pair whose voxel is not
/// empty, and every such position has its brick.
pub open spec fn bricks_from(m: Model, voxels: Seq<(Voxel, UVec3)>) -> bool {
    &&& forall|i: int| 0 <= i < m.bricks@.len() ==> called_for(#[trigger] m.bricks@[i], voxels)
    &&& forall|k: int|
        0 <= k < voxels.len() && (#[trigger] voxels[k]).0.0 != 0 ==> m.has_brick(voxels[k].1)
}

/// The words of the voxels of `voxels` that are not empty.
pub open spec fn words_of(voxels: Seq<(Voxel, UVec3)>) -> Set<u32> {
    Set::new(|w: u32| w != 0 && exists|k: int| 0 <= k < voxels.len() && (#[trigger] voxels[k]).0.0 == w)
}

/// Whether `m` is a model built from `voxels`: it holds, at every position,
/// the last voxel given for it; its palette holds each word given, but for
/// the empty voxel, once and no other word; and it has no brick but for the
/// positions given.
pub open spec fn constructed(m: Model, voxels: Seq<(Voxel, UVec3)>) -> bool {
    &&& m.wf()
    &&& distinct_words(m.palette@)
    &&& m.palette@.to_set() == words_of(voxels)
    &&& forall|p: UVec3| #[trigger] m.word_at(p) == last_word(voxels, p)
    &&& bricks_from(m, voxels)
}

/// Whether brick `i` of `after` was a brick of `before`, with the same
/// coordinates, or is the brick that a voxel `word`, not empty, needs at `pos`.
pub open spec fn brick_kept_or_new(before: Model, after: Model, i: int, word: u32, pos: UVec3) -> bool {
    ||| word != 0 && brick_covers(after.bricks@[i], pos)
    ||| i < before.bricks@.len() && after.bricks@[i].x == before.bricks@[i].x && after.bricks@[i].y
        == before.bricks@[i].y && after.bricks@[i].z == before.bricks@[i].z
}

/// The bricks stay those that the voxels call for when one more pair is
/// stored: the bricks before keep their coordinates, and a brick is added only
/// for a voxel that is not empty, at its position.
pub proof fn lemma_bricks_from_push(
    before: Model,
    after: Model,
    voxels: Seq<(Voxel, UVec3)>,
    e: (Voxel, UVec3),
)
    requires
        bricks_from(before, voxels),
        forall|i: int|
            0 <= i < after.bricks@.len() ==> #[trigger] brick_kept_or_new(
                before,
                after,
                i,
                e.0.0,
                e.1,
            ),
        e.0.0 != 0 ==> after.has_brick(e.1),
        forall|p: UVec3| before.has_brick(p) ==> #[trigger] after.has_brick(p),
    ensures
        bricks_from(after, voxels.push(e)),
{
    let next = voxels.push(e);
    let n = voxels.len() as int;
    assert(next[n] == e);
    assert forall|b: int| 0 <= b < after.bricks@.len() implies called_for(
        #[trigger] after.bricks@[b],
        next,
    ) by {
        let now = after.bricks@[b];
        assert(brick_kept_or_new(before, after, b, e.0.0, e.1));
        if e.0.0 != 0 && brick_covers(now, e.1) {
            assert(next[n].0.0 != 0 && brick_covers(now, next[n].1));
        } else {
            let earlier = before.bricks@[b];
            assert(called_for(earlier, voxels));
            let k = choose|k: int|
                0 <= k < voxels.len() && (#[trigger] voxels[k]).0.0 != 0 && brick_covers(
                    earlier,
                    voxels[k].1,
                );
            assert(next[k] == voxels[k]);
            assert(next[k].0.0 != 0 && brick_covers(now, next[k].1));
        }
    }
    assert forall|k: int| 0 <= k < next.len() && (#[trigger] next[k]).0.0 != 0 implies after.has_brick(
        next[k].1,
    ) by {
        if k < n {
            assert(next[k] == voxels[k]);
            assert(before.has_brick(voxels[k].1));
            assert(after.has_brick(voxels[k].1));
        } else {
            assert(next[k] == e);
        }
    }
}

/// The brick coordinates that the voxels of `voxels` that are not empty lie in.
pub open spec fn regions_of(voxels: Seq<(Voxel, UVec3)>) -> Set<(u32, u32, u32)> {
    Set::new(
        |c: (u32, u32, u32)|
            exists|k: int|
                0 <= k < voxels.len() && (#[trigger] voxels[k]).0.0 != 0 && c == (
                    (voxels[k].1.x / 8) as u32,
                    (voxels[k].1.y / 8) as u32,
                    (voxels[k].1.z / 8) as u32,
                ),
    )
}

/// The size of a model is fixed by what it was built from: it has one
/// palette entry per distinct word that is not the empty voxel, and one brick
/// per brick-sized region that holds a voxel that is not empty.
pub proof fn lemma_constructed_sizes(m: Model, voxels: Seq<(Voxel, UVec3)>)
    requires
        constructed(m, voxels),
    ensures
        words_of(voxels).finite(),
        regions_of(voxels).finite(),
        m.palette@.len() == words_of(voxels).len(),
        m.bricks@.len() == regions_of(voxels).len(),
{
    m.palette@.unique_seq_to_set();
    vstd::seq_lib::seq_to_set_is_finite(m.palette@);
    let coords = Seq::new(m.bricks@.len(), |i: int| (m.bricks@[i].x, m.bricks@[i].y, m.bricks@[i].z));
    assert(coords.no_duplicates()) by {
        assert forall|i: int, j: int|
            0 <= i < coords.len() && 0 <= j < coords.len() && i != j implies coords[i]
            != coords[j] by {
            assert(m.bricks@[i].x == coords[i].0 && m.bricks@[j].x == coords[j].0);
        }
    }
    coords.unique_seq_to_set();
    vstd::seq_lib::seq_to_set_is_finite(coords);
    assert forall|c: (u32, u32, u32)| coords.to_set().contains(c) implies regions_of(
        voxels,
    ).contains(c) by {
        let i = choose|i: int| 0 <= i < coords.len() && coords[i] == c;
        assert(called_for(m.bricks@[i], voxels));
        let k = choose|k: int|
            0 <= k < voxels.len() && (#[trigger] voxels[k]).0.0 != 0 && brick_covers(
                m.bricks@[i],
                voxels[k].1,
            );
        assert(c == ((voxels[k].1.x / 8) as u32, (voxels[k].1.y / 8) as u32, (voxels[k].1.z / 8) as u32));
    }
    assert forall|c: (u32, u32, u32)| regions_of(voxels).contains(c) implies coords.to_set().contains(
        c,
    ) by {
        let k = choose|k: int|
            0 <= k < voxels.len() && (#[trigger] voxels[k]).0.0 != 0 && c == (
                (voxels[k].1.x / 8) as u32,
                (voxels[k].1.y / 8) as u32,
                (voxels[k].1.z / 8) as u32,
            );
        assert(m.has_brick(voxels[k].1));
        let i = m.brick_of(voxels[k].1);
        assert(coords[i] == c);
    }
    assert(coords.to_set() =~= regions_of(voxels));
}

/// The words of a list with one more pair.
pub proof fn lemma_words_of_push(voxels: Seq<(Voxel, UVec3)>, e: (Voxel, UVec3))
    ensures
        words_of(voxels.push(e)) == (if e.0.0 != 0 {
            words_of(voxels).insert(e.0.0)
        } else {
            words_of(voxels)
        }),
{
    let next = voxels.push(e);
    assert forall|w: u32| words_of(next).contains(w) implies (words_of(voxels).contains(w) || (w
        == e.0.0 && w != 0)) by {
        let k = choose|k: int| 0 <= k < next.len() && (#[trigger] next[k]).0.0 == w;
        if k < voxels.len() {
            assert(voxels[k].0.0 == w);
        }
    }
    assert forall|w: u32| words_of(voxels).contains(w) implies words_of(next).contains(w) by {
        let k = choose|k: int| 0 <= k < voxels.len() && (#[trigger] voxels[k]).0.0 == w;
        assert(next[k].0.0 == w);
    }
    if e.0.0 != 0 {
        assert(next[voxels.len() as int].0.0 == e.0.0);
        assert(words_of(next) =~= words_of(voxels).insert(e.0.0));
    } else {
        assert(words_of(next) =~= words_of(voxels));
    }
}

/// `list` names each voxel of `m` once: every pair is a voxel that the model
/// holds, every voxel that the model holds is among the pairs, and no
/// position occurs twice.
pub open spec fn lists(m: Model, list: Seq<(Voxel, UVec3)>) -> bool {
    &&& forall|k: int|
        0 <= k < list.len() ==> (#[trigger] list[k]).0.0 != 0 && m.word_at(list[k].1)
            == list[k].0.0
    &&& forall|p: UVec3|
        #[trigger] m.word_at(p) != 0 ==> exists|k: int|
            0 <= k < list.len() && (#[trigger] list[k]).1 == p
    &&& forall|k1: int, k2: int|
        0 <= k1 < list.len() && 0 <= k2 < list.len() && k1 != k2 ==> (#[trigger] list[k1]).1 != (
        #[trigger] list[k2]).1
}

/// A cell's position lies in its brick, at that cell.
pub proof fn lemma_cell_position(b: ModelBrick, k: int)
    requires
        0 <= k < 512,
        b.x <= 0x1FFF_FFFF,
        b.y <= 0x1FFF_FFFF,
        b.z <= 0x1FFF_FFFF,
    ensures
        brick_covers(b, cell_position(b, k)),
        local_cell(cell_position(b, k)) == k,
{
}

/// A position in a brick is the position of its cell.
pub proof fn lemma_position_of_cell(b: ModelBrick, p: UVec3)
    requires
        brick_covers(b, p),
    ensures
        cell_position(b, local_cell(p)) == p,
        0 <= local_cell(p) < 512,
{
}

impl Model {
    /// Every brick has 512 cells that reference the palette, brick coordinates
    /// are those of some position, and no two bricks share their coordinates.
    pub open spec fn wf(&self) -> bool {
        &&& forall|i: int|
            0 <= i < self.bricks@.len() ==> (#[trigger] self.bricks@[i]).cells@.len() == 512
                && self.bricks@[i].x <= 0x1FFF_FFFF && self.bricks@[i].y <= 0x1FFF_FFFF
                && self.bricks@[i].z <= 0x1FFF_FFFF
        &&& forall|i: int, k: int|
            0 <= i < self.bricks@.len() && 0 <= k < 512 ==> #[trigger] self.bricks@[i].cells@[k]
                <= self.palette@.len()
        &&& forall|i: int, j: int|
            0 <= i < self.bricks@.len() && 0 <= j < self.bricks@.len() && i != j ==> !(
            (#[trigger] self.bricks@[i]).x == (#[trigger] self.bricks@[j]).x && self.bricks@[i].y
                == self.bricks@[j].y && self.bricks@[i].z == self.bricks@[j].z)
    }

    /// Whether the model has a brick that covers `p`.
    pub open spec fn has_brick(&self, p: UVec3) -> bool {
        exists|i: int| 0 <= i < self.bricks@.len() && brick_covers(#[trigger] self.bricks@[i], p)
    }

    /// The index of the brick that covers `p`, where there is one.
    pub open spec fn brick_of(&self, p: UVec3) -> int {
        choose|i: int| 0 <= i < self.bricks@.len() && brick_covers(#[trigger] self.bricks@[i], p)
    }

    /// The packed voxel that the model holds at `p`; 0 where it holds none.
    pub open spec fn word_at(&self, p: UVec3) -> u32 {
        if self.has_brick(p) {
            cell_word(self.palette@, self.bricks@[self.brick_of(p)].cells@[local_cell(p)])
        } else {
            0
        }
    }

    /// In a well-formed model the brick that covers a position is the only one that does.
    pub proof fn lemma_brick_of(&self, i: int, p: UVec3)
        requires
            self.wf(),
            0 <= i < self.bricks@.len(),
            brick_covers(self.bricks@[i], p),
        ensures
            self.has_brick(p),
            self.brick_of(p) == i,
            self.word_at(p) == cell_word(self.palette@, self.bricks@[i].cells@[local_cell(p)]),
    {
    }

    /// Whether the model is well-formed: a test for models that were put
    /// together field by field.
    pub fn is_wf(&self) -> (b: bool)
        ensures
            b == self.wf(),
    {
        let mut i: usize = 0;
        while i < self.bricks.len()
            invariant
                i <= self.bricks@.len(),
                forall|a: int|
                    0 <= a < i ==> (#[trigger] self.bricks@[a]).cells@.len() == 512
                        && self.bricks@[a].x <= 0x1FFF_FFFF && self.bricks@[a].y <= 0x1FFF_FFFF
                        && self.bricks@[a].z <= 0x1FFF_FFFF,
                forall|a: int, k: int|
                    0 <= a < i && 0 <= k < 512 ==> #[trigger] self.bricks@[a].cells@[k]
                        <= self.palette@.len(),
                forall|a: int, c: int|
                    0 <= a < i && 0 <= c < i && a != c ==> !((#[trigger] self.bricks@[a]).x == (
                    #[trigger] self.bricks@[c]).x && self.bricks@[a].y == self.bricks@[c].y
                        && self.bricks@[a].z == self.bricks@[c].z),
            decreases self.bricks@.len() - i,
        {
            let b = &self.bricks[i];
            if b.cells.len() != 512 || b.x > 0x1FFF_FFFF || b.y > 0x1FFF_FFFF || b.z > 0x1FFF_FFFF {
                return false;
            }
            let mut k: usize = 0;
            while k < 512
                invariant
                    k <= 512,
                    i < self.bricks@.len(),
                    *b == self.bricks@[i as int],
                    b.cells@.len() == 512,
                    forall|c: int| 0 <= c < k ==> #[trigger] b.cells@[c] <= self.palette@.len(),
                decreases 512 - k,
            {
                if b.cells[k] as usize > self.palette.len() {
                    assert(self.bricks@[i as int].cells@[k as int] > self.palette@.len());
                    return false;
                }
                k += 1;
            }
            let mut j: usize = 0;
            while j < i
                invariant
                    j <= i < self.bricks@.len(),
                    *b == self.bricks@[i as int],
                    forall|c: int|
                        0 <= c < j ==> !((#[trigger] self.bricks@[c]).x == b.x && self.bricks@[c].y
                            == b.y && self.bricks@[c].z == b.z),
                decreases i - j,
            {
                let other = &self.bricks[j];
                if other.x == b.x && other.y == b.y && other.z == b.z {
                    assert(self.bricks@[j as int].x == self.bricks@[i as int].x);
                    return false;
                }
                j += 1;
            }
            i += 1;
        }
        true
    }

    /// The index of the brick that covers `p`, if the model has one.
    fn find_brick(&self, p: UVec3) -> (r: Option<usize>)
        requires
            self.wf(),
        ensures
            match r {
                Some(i) => i < self.bricks@.len() && brick_covers(self.bricks@[i as int], p),
                None => !self.has_brick(p),
            },
    {
        let mut i: usize = 0;
        while i < self.bricks.len()
            invariant
                i <= self.bricks@.len(),
                forall|j: int| 0 <= j < i ==> !brick_covers(#[trigger] self.bricks@[j], p),
            decreases self.bricks@.len() - i,
        {
            let b = &self.bricks[i];
            if b.x == p.x / 8 && b.y == p.y / 8 && b.z == p.z / 8 {
                return Some(i);
            }
            i += 1;
        }
        None
    }

    /// The cell value for `word`, which is not the empty voxel: its place in
    /// the palette, where it is appended if it is new.
    fn palette_index(&mut self, word: u32) -> (cell: u32)
        requires
            old(self).wf(),
            distinct_words(old(self).palette@),
            word != 0,
        ensures
            final(self).bricks == old(self).bricks,
            distinct_words(final(self).palette@),
            1 <= cell <= final(self).palette@.len(),
            final(self).palette@[cell - 1] == word,
            final(self).palette@ == old(self).palette@ || final(self).palette@ == old(self).palette@.push(word),
    {
        proof {
            lemma_distinct_words_len(self.palette@);
        }
        let mut i: usize = 0;
        while i < self.palette.len()
            invariant
                i <= self.palette@.len(),
                self.palette@.len() <= u32::MAX,
                *self == *old(self),
                distinct_words(self.palette@),
                word != 0,
                forall|j: int| 0 <= j < i ==> self.palette@[j] != word,
            decreases self.palette@.len() - i,
        {
            if self.palette[i] == word {
                return (i + 1) as u32;
            }
            i += 1;
        }
        self.palette.push(word);
        proof {
            lemma_distinct_words_len(self.palette@);
        }
        self.palette.len() as u32
    }

    /// Stores `word` at `pos`, replacing what the model held there.
    #[verifier::rlimit(60)]
    #[verifier::spinoff_prover]
    fn put(&mut self, word: u32, pos: UVec3)
        requires
            old(self).wf(),
            distinct_words(old(self).palette@),
        ensures
            final(self).wf(),
            distinct_words(final(self).palette@),
            final(self).palette@.to_set() == (if word != 0 {
                old(self).palette@.to_set().insert(word)
            } else {
                old(self).palette@.to_set()
            }),
            forall|p: UVec3|
                #[trigger] final(self).word_at(p) == (if p == pos {
                    word
                } else {
                    old(self).word_at(p)
                }),
            forall|i: int|
                0 <= i < final(self).bricks@.len() ==> #[trigger] brick_kept_or_new(
                    *old(self),
                    *final(self),
                    i,
                    word,
                    pos,
                ),
            word != 0 ==> final(self).has_brick(pos),
            forall|p: UVec3| old(self).has_brick(p) ==> #[trigger] final(self).has_brick(p),
    {
        let cell = if word == 0 {
            0
        } else {
            self.palette_index(word)
        };
        let ghost mid = *self;
        assert(mid.wf());
        proof {
            if word != 0 {
                old(self).palette@.lemma_push_to_set_commute(word);
                assert(mid.palette@.contains(mid.palette@[cell - 1]));
                assert(mid.palette@.to_set() =~= old(self).palette@.to_set().insert(word));
            }
        }
        assert forall|p: UVec3| #[trigger] mid.word_at(p) == old(self).word_at(p) by {
            if old(self).has_brick(p) {
                let i = old(self).brick_of(p);
                mid.lemma_brick_of(i, p);
                old(self).lemma_brick_of(i, p);
            }
        }
        let k = (pos.x % 8) as usize + 8 * ((pos.y % 8) as usize) + 64 * ((pos.z % 8) as usize);
        match self.find_brick(pos) {
            Some(b) => {
                self.bricks[b].cells[k] = cell;
                assert(self.wf());
                assert(brick_covers(self.bricks@[b as int], pos));
                assert forall|i: int| 0 <= i < self.bricks@.len() implies #[trigger] brick_kept_or_new(
                    *old(self),
                    *self,
                    i,
                    word,
                    pos,
                ) by {}
                assert forall|p: UVec3| old(self).has_brick(p) implies #[trigger] self.has_brick(
                    p,
                ) by {
                    let i = old(self).brick_of(p);
                    assert(brick_covers(self.bricks@[i], p));
                }
                assert forall|p: UVec3| #[trigger] self.word_at(p) == (if p == pos {
                    word
                } else {
                    mid.word_at(p)
                }) by {
                    if mid.has_brick(p) {
                        let i = mid.brick_of(p);
                        assert(brick_covers(self.bricks@[i], p));
                        self.lemma_brick_of(i, p);
                        mid.lemma_brick_of(i, p);
                        if i == b && local_cell(p) == k {
                            lemma_cell_determines_position(self.bricks@[i], p, pos);
                        }
                    } else {
                        if self.has_brick(p) {
                            let i = self.brick_of(p);
                            assert(brick_covers(mid.bricks@[i], p));
                        }
                    }
                }
            },
            None => {
                if cell != 0 {
                    let mut cells = vec![0u32; 512];
                    cells[k] = cell;
                    self.bricks.push(ModelBrick { x: pos.x / 8, y: pos.y / 8, z: pos.z / 8, cells });
                    let ghost n = mid.bricks@.len() as int;
                    assert(brick_covers(self.bricks@[n], pos));
                    assert forall|i: int| 0 <= i < self.bricks@.len() implies #[trigger] brick_kept_or_new(
                        *old(self),
                        *self,
                        i,
                        word,
                        pos,
                    ) by {
                        if i < n {
                            assert(self.bricks@[i] == mid.bricks@[i]);
                        }
                    }
                    assert forall|p: UVec3| old(self).has_brick(p) implies #[trigger] self.has_brick(
                        p,
                    ) by {
                        let i = old(self).brick_of(p);
                        assert(self.bricks@[i] == mid.bricks@[i]);
                        assert(brick_covers(self.bricks@[i], p));
                    }
                    assert(self.wf()) by {
                        assert forall|i: int, j: int|
                            0 <= i < self.bricks@.len() && 0 <= j < self.bricks@.len() && i
                                != j implies !((#[trigger] self.bricks@[i]).x == (
                        #[trigger] self.bricks@[j]).x && self.bricks@[i].y == self.bricks@[j].y
                            && self.bricks@[i].z == self.bricks@[j].z) by {
                            if i < n {
                                assert(self.bricks@[i] == mid.bricks@[i]);
                                assert(!brick_covers(mid.bricks@[i], pos));
                            }
                            if j < n {
                                assert(self.bricks@[j] == mid.bricks@[j]);
                                assert(!brick_covers(mid.bricks@[j], pos));
                            }
                        }
                    }
                    assert forall|p: UVec3| #[trigger] self.word_at(p) == (if p == pos {
                        word
                    } else {
                        mid.word_at(p)
                    }) by {
                        if mid.has_brick(p) {
                            let i = mid.brick_of(p);
                            assert(self.bricks@[i] == mid.bricks@[i]);
                            self.lemma_brick_of(i, p);
                            mid.lemma_brick_of(i, p);
                        } else if brick_covers(self.bricks@[n], p) {
                            self.lemma_brick_of(n, p);
                            if local_cell(p) == k {
                                lemma_cell_determines_position(self.bricks@[n], p, pos);
                            }
                        } else {
                            if self.has_brick(p) {
                                let i = self.brick_of(p);
                                assert(self.bricks@[i] == mid.bricks@[i]);
                            }
                        }
                    }
                } else {
                    assert forall|p: UVec3| #[trigger] self.word_at(p) == (if p == pos {
                        word
                    } else {
                        mid.word_at(p)
                    }) by {}
                }
            },
        }
    }

    /// Whether `list` holds only voxels of the bricks before `i`, and of the
    /// cells before `k` of brick `i`.
    pub open spec fn listed_upto(&self, list: Seq<(Voxel, UVec3)>, i: int, k: int) -> bool {
        &&& forall|n: int|
            0 <= n < list.len() ==> {
                let p = (#[trigger] list[n]).1;
                &&& self.has_brick(p)
                &&& self.brick_of(p) < i || (self.brick_of(p) == i && local_cell(p) < k)
                &&& list[n].0.0 != 0
                &&& self.word_at(p) == list[n].0.0
            }
        &&& forall|p: UVec3|
            #[trigger] self.word_at(p) != 0 && (self.brick_of(p) < i || (self.brick_of(p) == i
                && local_cell(p) < k)) ==> exists|n: int|
                0 <= n < list.len() && (#[trigger] list[n]).1 == p
        &&& forall|k1: int, k2: int|
            0 <= k1 < list.len() && 0 <= k2 < list.len() && k1 != k2 ==> (#[trigger] list[k1]).1
                != (#[trigger] list[k2]).1
    }

    /// The voxels of the model with their positions, each once, empty cells
    /// left out.
    pub fn voxels(&self) -> (list: Vec<(Voxel, UVec3)>)
        requires
            self.wf(),
        ensures
            lists(*self, list@),
    {
        let mut list: Vec<(Voxel, UVec3)> = Vec::new();
        let mut i: usize = 0;
        while i < self.bricks.len()
            invariant
                i <= self.bricks@.len(),
                self.wf(),
                self.listed_upto(list@, i as int, 0),
            decreases self.bricks@.len() - i,
        {
            let mut k: usize = 0;
            while k < 512
                invariant
                    i < self.bricks@.len(),
                    k <= 512,
                    self.wf(),
                    self.listed_upto(list@, i as int, k as int),
                decreases 512 - k,
            {
                let b = &self.bricks[i];
                let cell = b.cells[k];
                let ghost p = cell_position(*b, k as int);
                proof {
                    lemma_cell_position(*b, k as int);
                    self.lemma_brick_of(i as int, p);
                }
                let ghost before = list@;
                if cell != 0 {
                    let word = self.palette[(cell - 1) as usize];
                    if word != 0 {
                        let pos = UVec3 {
                            x: b.x * 8 + (k % 8) as u32,
                            y: b.y * 8 + ((k / 8) % 8) as u32,
                            z: b.z * 8 + (k / 64) as u32,
                        };
                        list.push((Voxel(word), pos));
                    }
                }
                proof {
                    assert forall|q: UVec3|
                        #[trigger] self.word_at(q) != 0 && (self.brick_of(q) < i || (self.brick_of(q)
                            == i && local_cell(q) < k + 1)) implies exists|n: int|
                        0 <= n < list@.len() && (#[trigger] list@[n]).1 == q by {
                        if self.brick_of(q) == i && local_cell(q) == k {
                            lemma_cell_determines_position(*b, p, q);
                            assert(list@[list@.len() - 1].1 == q);
                        } else {
                            let n = choose|n: int|
                                0 <= n < before.len() && (#[trigger] before[n]).1 == q;
                            assert(list@[n].1 == q);
                        }
                    }
                }
                k += 1;
            }
            proof {
                assert forall|n: int| 0 <= n < list@.len() implies self.brick_of(
                    (#[trigger] list@[n]).1,
                ) < i + 1 by {
                    let q = list@[n].1;
                    assert(self.has_brick(q));
                }
                assert forall|q: UVec3|
                    #[trigger] self.word_at(q) != 0 && (self.brick_of(q) < i + 1 || (self.brick_of(
                        q,
                    ) == i + 1 && local_cell(q) < 0)) implies exists|n: int|
                    0 <= n < list@.len() && (#[trigger] list@[n]).1 == q by {
                    assert(self.has_brick(q));
                    lemma_position_of_cell(self.bricks@[self.brick_of(q)], q);
                }
            }
            i += 1;
        }
        proof {
            assert forall|p: UVec3| #[trigger] self.word_at(p) != 0 implies exists|k: int|
                0 <= k < list@.len() && (#[trigger] list@[k]).1 == p by {
                assert(self.has_brick(p));
            }
        }
        list
    }

    /// Builds a model from voxels and their positions. Where a position
    /// occurs more than once, the last voxel given for it stays. Equal voxel
    /// words share one palette entry.
    pub fn from_voxels(combined: Vec<(Voxel, UVec3)>) -> (m: Model)
        ensures
            constructed(m, combined@),
    {
        let mut m = Model { palette: Vec::new(), bricks: Vec::new() };
        let mut i: usize = 0;
        assert(m.palette@.to_set() =~= words_of(combined@.take(0)));
        while i < combined.len()
            invariant
                i <= combined@.len(),
                m.wf(),
                distinct_words(m.palette@),
                m.palette@.to_set() == words_of(combined@.take(i as int)),
                forall|p: UVec3| #[trigger] m.word_at(p) == last_word(combined@.take(i as int), p),
                bricks_from(m, combined@.take(i as int)),
            decreases combined@.len() - i,
        {
            let vox = combined[i].0;
            let pos = combined[i].1;
            proof {
                let next = combined@.take(i + 1);
                assert(next.drop_last() =~= combined@.take(i as int));
                assert(next.last() == combined@[i as int]);
                lemma_words_of_push(combined@.take(i as int), combined@[i as int]);
                assert(combined@.take(i as int).push(combined@[i as int]) =~= next);
            }
            let ghost before = m;
            m.put(vox.0, pos);
            proof {
                let e = combined@[i as int];
                assert(e.0.0 == vox.0 && e.1 == pos);
                lemma_bricks_from_push(before, m, combined@.take(i as int), e);
            }
            i += 1;
        }
        assert(combined@.take(i as int) =~= combined@);
        m
    }
}

/// Two positions in the same brick with the same cell are the same position.
pub proof fn lemma_cell_determines_position(b: ModelBrick, p: UVec3, q: UVec3)
    requires
        brick_covers(b, p),
        brick_covers(b, q),
        local_cell(p) == local_cell(q),
    ensures
        p == q,
{
    assert(p.x % 8 == q.x % 8 && p.y % 8 == q.y % 8 && p.z % 8 == q.z % 8);
}

/// The positions of `voxels` are pairwise distinct.
pub open spec fn distinct_positions(voxels: Seq<(Voxel, UVec3)>) -> bool {
    forall|i: int, j: int|
        0 <= i < voxels.len() && 0 <= j < voxels.len() && i != j ==> (#[trigger] voxels[i]).1 != (
        #[trigger] voxels[j]).1
}

/// What the last word at a position is: where the positions are distinct,
/// the word of the one pair at that position, and a word that is not zero is
/// always the word of some pair at that position.
pub proof fn lemma_last_word(voxels: Seq<(Voxel, UVec3)>, p: UVec3)
    ensures
        last_word(voxels, p) != 0 ==> exists|i: int|
            0 <= i < voxels.len() && (#[trigger] voxels[i]).1 == p && voxels[i].0.0 == last_word(
                voxels,
                p,
            ),
        distinct_positions(voxels) ==> forall|i: int|
            0 <= i < voxels.len() && (#[trigger] voxels[i]).1 == p ==> last_word(voxels, p)
                == voxels[i].0.0,
    decreases voxels.len(),
{
    if voxels.len() > 0 {
        let init = voxels.drop_last();
        let n = voxels.len() - 1;
        lemma_last_word(init, p);
        if voxels.last().1 == p {
            assert(voxels[n].1 == p);
        } else {
            if last_word(voxels, p) != 0 {
                let i = choose|i: int|
                    0 <= i < init.len() && (#[trigger] init[i]).1 == p && init[i].0.0 == last_word(
                        init,
                        p,
                    );
                assert(voxels[i] == init[i]);
            }
        }
        if distinct_positions(voxels) {
            assert(distinct_positions(init)) by {
                assert forall|i: int, j: int|
                    0 <= i < init.len() && 0 <= j < init.len() && i != j implies (
                #[trigger] init[i]).1 != (#[trigger] init[j]).1 by {
                    assert(init[i] == voxels[i]);
                    assert(init[j] == voxels[j]);
                }
            }
            assert forall|i: int| 0 <= i < voxels.len() && (#[trigger] voxels[i]).1
                == p implies last_word(voxels, p) == voxels[i].0.0 by {
                if i < n {
                    assert(init[i] == voxels[i]);
                    assert(voxels[n].1 != voxels[i].1);
                }
            }
        }
    }
}

/// A model built from voxels with distinct positions, none of them empty,
/// is listed as exactly those voxels.
pub proof fn lemma_construct_then_list(
    voxels: Seq<(Voxel, UVec3)>,
    m: Model,
    list: Seq<(Voxel, UVec3)>,
)
    requires
        distinct_positions(voxels),
        forall|i: int| 0 <= i < voxels.len() ==> (#[trigger] voxels[i]).0.0 != 0,
        forall|p: UVec3| #[trigger] m.word_at(p) == last_word(voxels, p),
        lists(m, list),
    ensures
        list.to_set() == voxels.to_set(),
{
    assert forall|e: (Voxel, UVec3)| list.to_set().contains(e) implies voxels.to_set().contains(
        e,
    ) by {
        let k = choose|k: int| 0 <= k < list.len() && list[k] == e;
        assert(list[k].0.0 != 0 && m.word_at(list[k].1) == list[k].0.0);
        lemma_last_word(voxels, e.1);
        let i = choose|i: int|
            0 <= i < voxels.len() && (#[trigger] voxels[i]).1 == e.1 && voxels[i].0.0 == last_word(
                voxels,
                e.1,
            );
        assert(voxels[i].0 == e.0);
        assert(voxels[i] == e);
    }
    assert forall|e: (Voxel, UVec3)| voxels.to_set().contains(e) implies list.to_set().contains(
        e,
    ) by {
        let i = choose|i: int| 0 <= i < voxels.len() && voxels[i] == e;
        lemma_last_word(voxels, e.1);
        assert(voxels[i].1 == e.1);
        assert(m.word_at(e.1) == e.0.0);
        assert(voxels[i].0.0 != 0);
        let k = choose|k: int| 0 <= k < list.len() && (#[trigger] list[k]).1 == e.1;
        assert(list[k].0.0 == m.word_at(list[k].1));
        assert(list[k].0 == e.0);
        assert(list[k] == e);
    }
    assert(list.to_set() =~= voxels.to_set());
}

} // verus!
