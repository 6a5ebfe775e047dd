//! The byte layout of a model container, little-endian throughout.
//!
//! | bytes            | field                                              |
//! |------------------|----------------------------------------------------|
//! | 0-1              | major version, 0                                   |
//! | 2-3              | minor version, 1                                   |
//! | 4-5              | brick size, 8                                      |
//! | 6-13             | number of palette words                            |
//! | 14-15            | padding                                            |
//! | then             | the palette, four bytes per word                   |
//! | then, per brick  | x, y, z as 16-bit brick coordinates, two bytes of  |
//! |                  | padding, and 512 cells of four bytes each          |

use vstd::prelude::*;
use crate::sdvx::{Model, ModelBrick};

verus! {

/// Major version of the layout.
pub const VERSION_MAJOR: u16 = 0;

/// Minor version of the layout.
pub const VERSION_MINOR: u16 = 1;

/// Edge length of a container brick, in voxels.
pub const BRICK_SIZE: u16 = 8;

/// Bytes in the header.
pub const HEADER_LEN: usize = 16;

/// Bytes in one brick record: eight for the coordinates, four per cell.
pub const BRICK_LEN: usize = 2056;

/// Why a container could not be read or written.
#[derive(Clone, Copy, Debug, PartialEq, Eq, Structural)]
pub enum SdvxError {
    /// The input ends inside the header, the palette or a brick.
    UnexpectedEof,
    /// The header names another version or brick size, a cell references a
    /// palette entry that does not exist, or two bricks share their coordinates.
    Unknown,
    /// A brick coordinate of the model does not fit the 16 bits of its field.
    OutOfRange,
}

/// The two bytes of a 16-bit field.
pub open spec fn le16(v: int) -> Seq<u8> {
    seq![(v % 256) as u8, ((v / 256) % 256) as u8]
}

/// The four bytes of a 32-bit field.
pub open spec fn le32(v: int) -> Seq<u8> {
    seq![
        (v % 256) as u8,
        ((v / 0x100) % 256) as u8,
        ((v / 0x1_0000) % 256) as u8,
        ((v / 0x100_0000) % 256) as u8,
    ]
}

/// The eight bytes of a 64-bit field.
pub open spec fn le64(v: int) -> Seq<u8> {
    le32(v % 0x1_0000_0000) + le32(v / 0x1_0000_0000)
}

/// The 16-bit field that starts at `at`.
pub open spec fn rd16(s: Seq<u8>, at: int) -> int {
    s[at] + 0x100 * s[at + 1]
}

/// The 32-bit field that starts at `at`.
pub open spec fn rd32(s: Seq<u8>, at: int) -> int {
    s[at] + 0x100 * s[at + 1] + 0x1_0000 * s[at + 2] + 0x100_0000 * s[at + 3]
}

/// The 64-bit field that starts at `at`.
pub open spec fn rd64(s: Seq<u8>, at: int) -> int {
    rd32(s, at) + 0x1_0000_0000 * rd32(s, at + 4)
}

/// The bytes of a run of 32-bit words.
pub open spec fn words_bytes(ws: Seq<u32>) -> Seq<u8>
    decreases ws.len(),
{
    if ws.len() == 0 {
        Seq::empty()
    } else {
        words_bytes(ws.drop_last()) + le32(ws.last() as int)
    }
}

/// The header of a container with `count` palette words.
pub open spec fn header_bytes(count: int) -> Seq<u8> {
    le16(0) + le16(1) + le16(8) + le64(count) + seq![0u8, 0u8]
}

/// The record of one brick.
pub open spec fn brick_bytes(b: ModelBrick) -> Seq<u8> {
    le16(b.x as int) + le16(b.y as int) + le16(b.z as int) + seq![0u8, 0u8] + words_bytes(
        b.cells@,
    )
}

/// The records of a run of bricks.
pub open spec fn bricks_bytes(bs: Seq<ModelBrick>) -> Seq<u8>
    decreases bs.len(),
{
    if bs.len() == 0 {
        Seq::empty()
    } else {
        bricks_bytes(bs.drop_last()) + brick_bytes(bs.last())
    }
}

/// The container of a model: header, palette, bricks.
pub open spec fn encoded(m: Model) -> Seq<u8> {
    header_bytes(m.palette@.len() as int) + words_bytes(m.palette@) + bricks_bytes(m.bricks@)
}

/// Every brick coordinate of the model fits its 16-bit field.
pub open spec fn encodable(m: Model) -> bool {
    forall|i: int|
        0 <= i < m.bricks@.len() ==> (#[trigger] m.bricks@[i]).x <= 0xFFFF && m.bricks@[i].y
            <= 0xFFFF && m.bricks@[i].z <= 0xFFFF
}

/// Number of palette words that the header of `bytes` announces.
pub open spec fn parsed_count(bytes: Seq<u8>) -> int {
    rd64(bytes, 6)
}

/// Where the brick records of `bytes` start.
pub open spec fn bricks_start(bytes: Seq<u8>) -> int {
    16 + 4 * parsed_count(bytes)
}

/// Number of brick records in `bytes`.
pub open spec fn parsed_bricks(bytes: Seq<u8>) -> int {
    (bytes.len() - bricks_start(bytes)) / 2056
}

/// Where the record of brick `j` starts.
pub open spec fn brick_base(bytes: Seq<u8>, j: int) -> int {
    bricks_start(bytes) + 2056 * j
}

/// Cell `k` of brick `j`.
pub open spec fn parsed_cell(bytes: Seq<u8>, j: int, k: int) -> int {
    rd32(bytes, brick_base(bytes, j) + 8 + 4 * k)
}

/// Whether bricks `i` and `j` of `bytes` have the same coordinates.
pub open spec fn same_coords(bytes: Seq<u8>, i: int, j: int) -> bool {
    &&& rd16(bytes, brick_base(bytes, i)) == rd16(bytes, brick_base(bytes, j))
    &&& rd16(bytes, brick_base(bytes, i) + 2) == rd16(bytes, brick_base(bytes, j) + 2)
    &&& rd16(bytes, brick_base(bytes, i) + 4) == rd16(bytes, brick_base(bytes, j) + 4)
}

/// Whether some cell of `bytes` references a palette entry that is not
/// there, or two bricks share their coordinates.
pub open spec fn bricks_malformed(bytes: Seq<u8>) -> bool {
    ||| exists|j: int, k: int|
        0 <= j < parsed_bricks(bytes) && 0 <= k < 512 && #[trigger] parsed_cell(bytes, j, k)
            > parsed_count(bytes)
    ||| exists|i: int, j: int|
        0 <= i < j < parsed_bricks(bytes) && #[trigger] same_coords(bytes, i, j)
}

/// Whether `bytes` has a header of this version and ends with its last brick.
pub open spec fn framed(bytes: Seq<u8>) -> bool {
    &&& bytes.len() >= 16
    &&& rd16(bytes, 0) == 0
    &&& rd16(bytes, 2) == 1
    &&& rd16(bytes, 4) == 8
    &&& bricks_start(bytes) <= bytes.len()
    &&& (bytes.len() - bricks_start(bytes)) % 2056 == 0
}

/// The error with which reading `bytes` fails, if it does.
pub open spec fn decode_error(bytes: Seq<u8>) -> Option<SdvxError> {
    if bytes.len() < 16 {
        Some(SdvxError::UnexpectedEof)
    } else if rd16(bytes, 0) != 0 || rd16(bytes, 2) != 1 || rd16(bytes, 4) != 8 {
        Some(SdvxError::Unknown)
    } else if bricks_start(bytes) > bytes.len() {
        Some(SdvxError::UnexpectedEof)
    } else if (bytes.len() - bricks_start(bytes)) % 2056 != 0 {
        Some(SdvxError::UnexpectedEof)
    } else if bricks_malformed(bytes) {
        Some(SdvxError::Unknown)
    } else {
        None
    }
}

/// Whether brick `j` of `bytes` is `b`.
pub open spec fn brick_decoded(bytes: Seq<u8>, j: int, b: ModelBrick) -> bool {
    &&& b.x == rd16(bytes, brick_base(bytes, j))
    &&& b.y == rd16(bytes, brick_base(bytes, j) + 2)
    &&& b.z == rd16(bytes, brick_base(bytes, j) + 4)
    &&& b.cells@.len() == 512
    &&& forall|k: int| 0 <= k < 512 ==> #[trigger] b.cells@[k] == parsed_cell(bytes, j, k)
}

/// Whether `m` is the model that `bytes` holds: the same palette, and the
/// same bricks in the same order.
pub open spec fn decodes_to(bytes: Seq<u8>, m: Model) -> bool {
    &&& m.palette@.len() == parsed_count(bytes)
    &&& forall|i: int| 0 <= i < m.palette@.len() ==> #[trigger] m.palette@[i] == rd32(bytes, 16 + 4 * i)
    &&& m.bricks@.len() == parsed_bricks(bytes)
    &&& forall|j: int| 0 <= j < m.bricks@.len() ==> brick_decoded(bytes, j, #[trigger] m.bricks@[j])
}

/// Reads the 16-bit field at `at`.
fn read_u16(bytes: &[u8], at: usize) -> (v: u16)
    requires
        at + 2 <= bytes.len(),
    ensures
        v == rd16(bytes@, at as int),
{
    bytes[at] as u16 + 0x100 * (bytes[at + 1] as u16)
}

/// Reads the 32-bit field at `at`.
pub(crate) fn read_u32(bytes: &[u8], at: usize) -> (v: u32)
    requires
        at + 4 <= bytes.len(),
    ensures
        v == rd32(bytes@, at as int),
{
    bytes[at] as u32 + 0x100 * (bytes[at + 1] as u32) + 0x1_0000 * (bytes[at + 2] as u32)
        + 0x100_0000 * (bytes[at + 3] as u32)
}

/// Reads the 64-bit field at `at`.
fn read_u64(bytes: &[u8], at: usize) -> (v: u64)
    requires
        at + 8 <= bytes.len(),
    ensures
        v == rd64(bytes@, at as int),
{
    read_u32(bytes, at) as u64 + 0x1_0000_0000 * (read_u32(bytes, at + 4) as u64)
}

/// Appends a 16-bit field.
fn push_u16(out: &mut Vec<u8>, v: u16)
    ensures
        final(out)@ == old(out)@ + le16(v as int),
{
    out.push((v % 256) as u8);
    out.push((v / 256) as u8);
    assert(out@ =~= old(out)@ + le16(v as int));
}

/// Appends a 32-bit field.
fn push_u32(out: &mut Vec<u8>, v: u32)
    ensures
        final(out)@ == old(out)@ + le32(v as int),
{
    out.push((v % 256) as u8);
    out.push(((v / 0x100) % 256) as u8);
    out.push(((v / 0x1_0000) % 256) as u8);
    out.push((v / 0x100_0000) as u8);
    assert(out@ =~= old(out)@ + le32(v as int));
}

/// Appends a run of 32-bit words.
fn push_words(out: &mut Vec<u8>, ws: &Vec<u32>)
    ensures
        final(out)@ == old(out)@ + words_bytes(ws@),
{
    let mut i: usize = 0;
    assert(out@ =~= old(out)@ + words_bytes(ws@.take(0)));
    while i < ws.len()
        invariant
            i <= ws@.len(),
            out@ == old(out)@ + words_bytes(ws@.take(i as int)),
        decreases ws@.len() - i,
    {
        let ghost before = out@;
        push_u32(out, ws[i]);
        proof {
            let next = ws@.take(i + 1);
            assert(next.drop_last() =~= ws@.take(i as int));
            assert(next.last() == ws@[i as int]);
            assert(out@ =~= old(out)@ + words_bytes(next));
        }
        i += 1;
    }
    assert(ws@.take(i as int) =~= ws@);
}

impl SdvxError {
    /// The error in words.
    pub fn message(&self) -> (s: String)
        ensures
            s@ == (match *self {
                SdvxError::UnexpectedEof => "unexpected end of file"@,
                SdvxError::Unknown => "unknown parsing error"@,
                SdvxError::OutOfRange => "brick coordinate out of range"@,
            }),
    {
        match self {
            SdvxError::UnexpectedEof => "unexpected end of file".to_owned(),
            SdvxError::Unknown => "unknown parsing error".to_owned(),
            SdvxError::OutOfRange => "brick coordinate out of range".to_owned(),
        }
    }
}

impl Model {
    /// Whether every brick coordinate fits its 16-bit field.
    fn is_encodable(&self) -> (r: bool)
        ensures
            r == encodable(*self),
    {
        let mut i: usize = 0;
        while i < self.bricks.len()
            invariant
                i <= self.bricks@.len(),
                forall|j: int|
                    0 <= j < i ==> (#[trigger] self.bricks@[j]).x <= 0xFFFF && self.bricks@[j].y
                        <= 0xFFFF && self.bricks@[j].z <= 0xFFFF,
            decreases self.bricks@.len() - i,
        {
            let b = &self.bricks[i];
            if b.x > 0xFFFF || b.y > 0xFFFF || b.z > 0xFFFF {
                return false;
            }
            i += 1;
        }
        true
    }

    /// Writes the model as a container. Fails only where a brick coordinate
    /// does not fit its field.
    pub fn to_bytes(&self) -> (r: Result<Vec<u8>, SdvxError>)
        requires
            self.wf(),
        ensures
            match r {
                Ok(bytes) => encodable(*self) && bytes@ == encoded(*self),
                Err(e) => !encodable(*self) && e == SdvxError::OutOfRange,
            },
    {
        if !self.is_encodable() {
            return Err(SdvxError::OutOfRange);
        }
        let mut out: Vec<u8> = Vec::new();
        let count = self.palette.len() as u64;
        push_u16(&mut out, VERSION_MAJOR);
        push_u16(&mut out, VERSION_MINOR);
        push_u16(&mut out, BRICK_SIZE);
        push_u32(&mut out, (count % 0x1_0000_0000) as u32);
        push_u32(&mut out, (count / 0x1_0000_0000) as u32);
        out.push(0);
        out.push(0);
        assert(out@ =~= header_bytes(self.palette@.len() as int));
        push_words(&mut out, &self.palette);
        let ghost head = out@;
        let mut i: usize = 0;
        assert(out@ =~= head + bricks_bytes(self.bricks@.take(0)));
        while i < self.bricks.len()
            invariant
                i <= self.bricks@.len(),
                encodable(*self),
                out@ == head + bricks_bytes(self.bricks@.take(i as int)),
            decreases self.bricks@.len() - i,
        {
            let b = &self.bricks[i];
            let ghost before = out@;
            push_u16(&mut out, b.x as u16);
            push_u16(&mut out, b.y as u16);
            push_u16(&mut out, b.z as u16);
            out.push(0);
            out.push(0);
            push_words(&mut out, &b.cells);
            proof {
                let next = self.bricks@.take(i + 1);
                assert(next.drop_last() =~= self.bricks@.take(i as int));
                assert(next.last() == self.bricks@[i as int]);
                assert(out@ =~= before + brick_bytes(*b));
                assert(out@ =~= head + bricks_bytes(next));
            }
            i += 1;
        }
        assert(self.bricks@.take(i as int) =~= self.bricks@);
        Ok(out)
    }

    /// Reads a model from a container.
    ///
    /// Fails with [`SdvxError::UnexpectedEof`] where the input ends inside the
    /// header, the palette or a brick, and with [`SdvxError::Unknown`] where
    /// the header names another version or brick size, a cell references a
    /// palette entry that is not there, or two bricks share their coordinates.
    pub fn from_bytes(bytes: &[u8]) -> (r: Result<Model, SdvxError>)
        ensures
            match r {
                Ok(m) => decode_error(bytes@).is_none() && m.wf() && decodes_to(bytes@, m),
                Err(e) => decode_error(bytes@) == Some(e),
            },
    {
        let len = bytes.len();
        if len < HEADER_LEN {
            return Err(SdvxError::UnexpectedEof);
        }
        let major = read_u16(bytes, 0);
        let minor = read_u16(bytes, 2);
        let size = read_u16(bytes, 4);
        if major != VERSION_MAJOR || minor != VERSION_MINOR || size != BRICK_SIZE {
            return Err(SdvxError::Unknown);
        }
        let count = read_u64(bytes, 6);
        if count > ((len - HEADER_LEN) / 4) as u64 {
            return Err(SdvxError::UnexpectedEof);
        }
        let n = count as usize;
        let start = HEADER_LEN + 4 * n;
        let rest = len - start;
        if rest % BRICK_LEN != 0 {
            return Err(SdvxError::UnexpectedEof);
        }
        let total = rest / BRICK_LEN;
        let mut palette: Vec<u32> = Vec::new();
        let mut i: usize = 0;
        while i < n
            invariant
                i <= n,
                16 + 4 * n <= bytes.len(),
                palette@.len() == i,
                forall|a: int| 0 <= a < i ==> #[trigger] palette@[a] == rd32(bytes@, 16 + 4 * a),
            decreases n - i,
        {
            palette.push(read_u32(bytes, 16 + 4 * i));
            i += 1;
        }
        let mut bricks: Vec<ModelBrick> = Vec::new();
        let mut j: usize = 0;
        while j < total
            invariant
                j <= total,
                framed(bytes@),
                len == bytes.len(),
                start == bricks_start(bytes@),
                count == parsed_count(bytes@),
                total == parsed_bricks(bytes@),
                start + 2056 * total == len,
                bricks@.len() == j,
                forall|a: int| 0 <= a < j ==> brick_decoded(bytes@, a, #[trigger] bricks@[a]),
                forall|a: int, k: int|
                    0 <= a < j && 0 <= k < 512 ==> #[trigger] parsed_cell(bytes@, a, k) <= count,
                forall|a: int, b: int| 0 <= a < b < j ==> !#[trigger] same_coords(bytes@, a, b),
            decreases total - j,
        {
            let base = start + BRICK_LEN * j;
            let x = read_u16(bytes, base);
            let y = read_u16(bytes, base + 2);
            let z = read_u16(bytes, base + 4);
            let mut a: usize = 0;
            while a < j
                invariant
                    a <= j,
                    j < total,
                    framed(bytes@),
                    bricks@.len() == j,
                    total == parsed_bricks(bytes@),
                    base == brick_base(bytes@, j as int),
                    x == rd16(bytes@, base as int),
                    y == rd16(bytes@, base + 2),
                    z == rd16(bytes@, base + 4),
                    forall|c: int| 0 <= c < j ==> brick_decoded(bytes@, c, #[trigger] bricks@[c]),
                    forall|c: int| 0 <= c < a ==> !#[trigger] same_coords(bytes@, c, j as int),
                decreases j - a,
            {
                let b = &bricks[a];
                assert(brick_decoded(bytes@, a as int, *b));
                if b.x == x as u32 && b.y == y as u32 && b.z == z as u32 {
                    assert(same_coords(bytes@, a as int, j as int));
                    return Err(SdvxError::Unknown);
                }
                a += 1;
            }
            let mut cells: Vec<u32> = Vec::new();
            let mut k: usize = 0;
            while k < 512
                invariant
                    k <= 512,
                    j < total,
                    framed(bytes@),
                    len == bytes.len(),
                    start + 2056 * total == len,
                    base == start + 2056 * j,
                    base == brick_base(bytes@, j as int),
                    count == parsed_count(bytes@),
                    total == parsed_bricks(bytes@),
                    cells@.len() == k,
                    forall|c: int|
                        0 <= c < k ==> #[trigger] cells@[c] == parsed_cell(bytes@, j as int, c)
                            && cells@[c] <= count,
                decreases 512 - k,
            {
                let cell = read_u32(bytes, base + 8 + 4 * k);
                if cell as u64 > count {
                    assert(parsed_cell(bytes@, j as int, k as int) > parsed_count(bytes@));
                    return Err(SdvxError::Unknown);
                }
                cells.push(cell);
                k += 1;
            }
            let ghost read = cells@;
            bricks.push(ModelBrick { x: x as u32, y: y as u32, z: z as u32, cells });
            proof {
                assert forall|a: int, k: int| 0 <= a < j + 1 && 0 <= k < 512 implies #[trigger] parsed_cell(
                    bytes@,
                    a,
                    k,
                ) <= count by {
                    if a == j {
                        assert(read[k] == parsed_cell(bytes@, j as int, k));
                    }
                }
            }
            j += 1;
        }
        let m = Model { palette, bricks };
        proof {
            assert(!bricks_malformed(bytes@));
            assert(m.wf()) by {
                assert forall|a: int, b: int|
                    0 <= a < m.bricks@.len() && 0 <= b < m.bricks@.len() && a != b implies !((
                #[trigger] m.bricks@[a]).x == (#[trigger] m.bricks@[b]).x && m.bricks@[a].y
                    == m.bricks@[b].y && m.bricks@[a].z == m.bricks@[b].z) by {
                    assert(brick_decoded(bytes@, a, m.bricks@[a]));
                    assert(brick_decoded(bytes@, b, m.bricks@[b]));
                    if a < b {
                        assert(!same_coords(bytes@, a, b));
                    } else {
                        assert(!same_coords(bytes@, b, a));
                    }
                }
                assert forall|a: int, k: int|
                    0 <= a < m.bricks@.len() && 0 <= k < 512 implies #[trigger] m.bricks@[a].cells@[k]
                    <= m.palette@.len() by {
                    assert(brick_decoded(bytes@, a, m.bricks@[a]));
                    assert(parsed_cell(bytes@, a, k) <= count);
                }
                assert forall|a: int| 0 <= a < m.bricks@.len() implies (
                #[trigger] m.bricks@[a]).cells@.len() == 512 && m.bricks@[a].x <= 0x1FFF_FFFF
                    && m.bricks@[a].y <= 0x1FFF_FFFF && m.bricks@[a].z <= 0x1FFF_FFFF by {
                    assert(brick_decoded(bytes@, a, m.bricks@[a]));
                }
            }
        }
        Ok(m)
    }
}

/// A field read inside the middle part of a concatenation is the field of that part.
proof fn lemma_read_inside(a: Seq<u8>, b: Seq<u8>, c: Seq<u8>, at: int)
    requires
        0 <= at,
    ensures
        at + 2 <= b.len() ==> rd16(a + b + c, a.len() + at) == rd16(b, at),
        at + 4 <= b.len() ==> rd32(a + b + c, a.len() + at) == rd32(b, at),
        at + 8 <= b.len() ==> rd64(a + b + c, a.len() + at) == rd64(b, at),
{
}

/// Fields read back from their bytes.
proof fn lemma_read_written(v: int)
    ensures
        0 <= v <= 0xFFFF ==> rd16(le16(v), 0) == v,
        0 <= v <= 0xFFFF_FFFF ==> rd32(le32(v), 0) == v,
        0 <= v <= 0xFFFF_FFFF_FFFF_FFFF ==> rd64(le64(v), 0) == v,
{
    if 0 <= v <= 0xFFFF_FFFF_FFFF_FFFF {
        let lo = v % 0x1_0000_0000;
        let hi = v / 0x1_0000_0000;
        assert(rd32(le32(lo), 0) == lo);
        assert(rd32(le32(hi), 0) == hi);
        assert(rd32(le64(v), 0) == rd32(le32(lo), 0));
        assert(rd32(le64(v), 4) == rd32(le32(hi), 0));
    }
}

/// A run of words takes four bytes per word, and each word reads back at its place.
pub proof fn lemma_words_bytes(ws: Seq<u32>)
    ensures
        words_bytes(ws).len() == 4 * ws.len(),
        forall|i: int| 0 <= i < ws.len() ==> rd32(words_bytes(ws), 4 * i) == #[trigger] ws[i],
    decreases ws.len(),
{
    if ws.len() > 0 {
        let init = ws.drop_last();
        lemma_words_bytes(init);
        lemma_read_written(ws.last() as int);
        assert forall|i: int| 0 <= i < ws.len() implies rd32(words_bytes(ws), 4 * i)
            == #[trigger] ws[i] by {
            if i < init.len() {
                assert(init[i] == ws[i]);
                assert(rd32(words_bytes(ws), 4 * i) == rd32(words_bytes(init), 4 * i));
            } else {
                lemma_read_inside(words_bytes(init), le32(ws.last() as int), Seq::empty(), 0);
                assert(words_bytes(init) + le32(ws.last() as int) + Seq::<u8>::empty()
                    =~= words_bytes(ws));
            }
        }
    }
}

/// The record of a brick is 2056 bytes, and its fields read back at their places.
pub proof fn lemma_brick_bytes(b: ModelBrick)
    requires
        b.cells@.len() == 512,
        b.x <= 0xFFFF,
        b.y <= 0xFFFF,
        b.z <= 0xFFFF,
    ensures
        brick_bytes(b).len() == 2056,
        rd16(brick_bytes(b), 0) == b.x,
        rd16(brick_bytes(b), 2) == b.y,
        rd16(brick_bytes(b), 4) == b.z,
        forall|k: int| 0 <= k < 512 ==> rd32(brick_bytes(b), 8 + 4 * k) == #[trigger] b.cells@[k],
{
    lemma_words_bytes(b.cells@);
    lemma_read_written(b.x as int);
    lemma_read_written(b.y as int);
    lemma_read_written(b.z as int);
    let head = le16(b.x as int) + le16(b.y as int) + le16(b.z as int) + seq![0u8, 0u8];
    assert(head.len() == 8);
    assert forall|k: int| 0 <= k < 512 implies rd32(brick_bytes(b), 8 + 4 * k)
        == #[trigger] b.cells@[k] by {
        lemma_read_inside(head, words_bytes(b.cells@), Seq::empty(), 4 * k);
        assert(head + words_bytes(b.cells@) + Seq::<u8>::empty() =~= brick_bytes(b));
    }
}

/// A run of brick records takes 2056 bytes per brick, and each byte of a
/// record sits at its place in the run.
pub proof fn lemma_bricks_bytes(bs: Seq<ModelBrick>)
    requires
        forall|j: int| 0 <= j < bs.len() ==> (#[trigger] bs[j]).cells@.len() == 512,
    ensures
        bricks_bytes(bs).len() == 2056 * bs.len(),
        forall|j: int, n: int|
            0 <= j < bs.len() && 0 <= n < 2056 ==> bricks_bytes(bs)[2056 * j + n]
                == #[trigger] brick_bytes(bs[j])[n],
    decreases bs.len(),
{
    if bs.len() > 0 {
        let init = bs.drop_last();
        lemma_bricks_bytes(init);
        lemma_words_bytes(bs.last().cells@);
        assert(brick_bytes(bs.last()).len() == 2056);
        assert forall|j: int, n: int| 0 <= j < bs.len() && 0 <= n < 2056 implies bricks_bytes(
            bs,
        )[2056 * j + n] == #[trigger] brick_bytes(bs[j])[n] by {
            if j < init.len() {
                assert(init[j] == bs[j]);
                assert(bricks_bytes(bs)[2056 * j + n] == bricks_bytes(init)[2056 * j + n]);
            }
        }
    }
}

/// Where the three parts of a container sit.
proof fn lemma_encoded_layout(m: Model)
    requires
        m.wf(),
    ensures
        header_bytes(m.palette@.len() as int).len() == 16,
        words_bytes(m.palette@).len() == 4 * m.palette@.len(),
        bricks_bytes(m.bricks@).len() == 2056 * m.bricks@.len(),
        encoded(m).len() == 16 + 4 * m.palette@.len() + 2056 * m.bricks@.len(),
        forall|n: int|
            0 <= n < 16 ==> #[trigger] encoded(m)[n] == header_bytes(m.palette@.len() as int)[n],
        forall|n: int|
            0 <= n < 4 * m.palette@.len() ==> encoded(m)[16 + n] == #[trigger] words_bytes(
                m.palette@,
            )[n],
        forall|n: int|
            0 <= n < 2056 * m.bricks@.len() ==> encoded(m)[16 + 4 * m.palette@.len() + n]
                == #[trigger] bricks_bytes(m.bricks@)[n],
{
    lemma_words_bytes(m.palette@);
    lemma_bricks_bytes(m.bricks@);
}

/// The header of a container reads back.
proof fn lemma_encoded_header(m: Model)
    requires
        m.wf(),
    ensures
        rd16(encoded(m), 0) == 0,
        rd16(encoded(m), 2) == 1,
        rd16(encoded(m), 4) == 8,
        parsed_count(encoded(m)) == m.palette@.len(),
{
    let count = m.palette@.len() as int;
    let head = header_bytes(count);
    let bytes = encoded(m);
    lemma_encoded_layout(m);
    lemma_read_written(0);
    lemma_read_written(1);
    lemma_read_written(8);
    lemma_read_written(count);
    assert(bytes[0] == head[0] && bytes[1] == head[1] && bytes[2] == head[2] && bytes[3]
        == head[3] && bytes[4] == head[4] && bytes[5] == head[5]);
    assert(bytes[6] == head[6] && bytes[7] == head[7] && bytes[8] == head[8] && bytes[9]
        == head[9] && bytes[10] == head[10] && bytes[11] == head[11] && bytes[12] == head[12]
        && bytes[13] == head[13]);
    assert(head[0] == le16(0)[0] && head[1] == le16(0)[1]);
    assert(head[2] == le16(1)[0] && head[3] == le16(1)[1]);
    assert(head[4] == le16(8)[0] && head[5] == le16(8)[1]);
    let pre = le16(0) + le16(1) + le16(8);
    assert(pre.len() == 6);
    assert(le64(count).len() == 8);
    assert(count == m.palette.len());
    assert(rd64(le64(count), 0) == count);
    lemma_read_inside(pre, le64(count), seq![0u8, 0u8], 0);
    assert(pre + le64(count) + seq![0u8, 0u8] =~= head);
    assert(rd64(head, 6) == count);
}

/// The palette of a container reads back.
proof fn lemma_encoded_palette(m: Model, i: int)
    requires
        m.wf(),
        0 <= i < m.palette@.len(),
    ensures
        rd32(encoded(m), 16 + 4 * i) == m.palette@[i],
{
    lemma_encoded_layout(m);
    lemma_words_bytes(m.palette@);
    let words = words_bytes(m.palette@);
    let bytes = encoded(m);
    assert(bytes[16 + 4 * i] == words[4 * i]);
    assert(bytes[16 + (4 * i + 1)] == words[4 * i + 1]);
    assert(bytes[16 + (4 * i + 2)] == words[4 * i + 2]);
    assert(bytes[16 + (4 * i + 3)] == words[4 * i + 3]);
}

/// Each byte of a brick record sits at its place in the container.
proof fn lemma_encoded_brick_byte(m: Model, j: int, n: int)
    requires
        m.wf(),
        0 <= j < m.bricks@.len(),
        0 <= n < 2056,
    ensures
        encoded(m)[16 + 4 * m.palette@.len() + 2056 * j + n] == brick_bytes(m.bricks@[j])[n],
{
    lemma_encoded_layout(m);
    lemma_bricks_bytes(m.bricks@);
    let tail = bricks_bytes(m.bricks@);
    assert(encoded(m)[16 + 4 * m.palette@.len() + (2056 * j + n)] == tail[2056 * j + n]);
    assert(tail[2056 * j + n] == brick_bytes(m.bricks@[j])[n]);
}

/// Each brick of a container reads back.
proof fn lemma_encoded_brick(m: Model, j: int)
    requires
        m.wf(),
        encodable(m),
        0 <= j < m.bricks@.len(),
        parsed_count(encoded(m)) == m.palette@.len(),
    ensures
        brick_decoded(encoded(m), j, m.bricks@[j]),
{
    let b = m.bricks@[j];
    let bytes = encoded(m);
    let base = brick_base(bytes, j);
    lemma_brick_bytes(b);
    assert(base == 16 + 4 * m.palette@.len() + 2056 * j);
    lemma_encoded_brick_byte(m, j, 0);
    lemma_encoded_brick_byte(m, j, 1);
    lemma_encoded_brick_byte(m, j, 2);
    lemma_encoded_brick_byte(m, j, 3);
    lemma_encoded_brick_byte(m, j, 4);
    lemma_encoded_brick_byte(m, j, 5);
    assert forall|k: int| 0 <= k < 512 implies #[trigger] b.cells@[k] == parsed_cell(bytes, j, k) by {
        lemma_encoded_brick_byte(m, j, 8 + 4 * k);
        lemma_encoded_brick_byte(m, j, 8 + 4 * k + 1);
        lemma_encoded_brick_byte(m, j, 8 + 4 * k + 2);
        lemma_encoded_brick_byte(m, j, 8 + 4 * k + 3);
        assert(rd32(brick_bytes(b), 8 + 4 * k) == b.cells@[k]);
    }
}

/// Container round trip, in bytes. The container of a well-formed model
/// whose brick coordinates fit their fields reads back without error, as the
/// same palette and the same bricks.
pub proof fn lemma_encoded_decodes(m: Model)
    requires
        m.wf(),
        encodable(m),
    ensures
        decode_error(encoded(m)).is_none(),
        decodes_to(encoded(m), m),
{
    let bytes = encoded(m);
    lemma_encoded_layout(m);
    lemma_encoded_header(m);
    assert(bricks_start(bytes) == 16 + 4 * m.palette@.len());
    assert(parsed_bricks(bytes) == m.bricks@.len());
    assert forall|i: int| 0 <= i < m.palette@.len() implies #[trigger] m.palette@[i] == rd32(
        bytes,
        16 + 4 * i,
    ) by {
        lemma_encoded_palette(m, i);
    }
    assert forall|j: int| 0 <= j < m.bricks@.len() implies brick_decoded(
        bytes,
        j,
        #[trigger] m.bricks@[j],
    ) by {
        lemma_encoded_brick(m, j);
    }
    assert(!bricks_malformed(bytes)) by {
        assert forall|j: int, k: int|
            0 <= j < parsed_bricks(bytes) && 0 <= k < 512 implies #[trigger] parsed_cell(
            bytes,
            j,
            k,
        ) <= parsed_count(bytes) by {
            assert(brick_decoded(bytes, j, m.bricks@[j]));
            assert(m.bricks@[j].cells@[k] <= m.palette@.len());
        }
        assert forall|i: int, j: int| 0 <= i < j < parsed_bricks(bytes) implies !#[trigger] same_coords(
            bytes,
            i,
            j,
        ) by {
            assert(brick_decoded(bytes, i, m.bricks@[i]));
            assert(brick_decoded(bytes, j, m.bricks@[j]));
        }
    }
}

/// Two well-formed models with the same palette and the same bricks hold the
/// same voxels.
pub proof fn lemma_same_parts_same_voxels(m: Model, d: Model, p: crate::math::UVec3)
    requires
        m.wf(),
        d.wf(),
        m.palette@ == d.palette@,
        m.bricks@.len() == d.bricks@.len(),
        forall|j: int|
            0 <= j < m.bricks@.len() ==> (#[trigger] m.bricks@[j]).x == d.bricks@[j].x
                && m.bricks@[j].y == d.bricks@[j].y && m.bricks@[j].z == d.bricks@[j].z
                && m.bricks@[j].cells@ == d.bricks@[j].cells@,
    ensures
        m.word_at(p) == d.word_at(p),
{
    if m.has_brick(p) {
        let i = m.brick_of(p);
        m.lemma_brick_of(i, p);
        assert(crate::sdvx::brick_covers(d.bricks@[i], p));
        d.lemma_brick_of(i, p);
    } else if d.has_brick(p) {
        let i = d.brick_of(p);
        assert(crate::sdvx::brick_covers(m.bricks@[i], p));
    }
}

/// Container round trip, in voxels. Whatever model a container of `m` reads
/// back as holds, at every position, the voxel that `m` holds there.
pub proof fn lemma_decoded_holds_same_voxels(m: Model, d: Model, p: crate::math::UVec3)
    requires
        m.wf(),
        encodable(m),
        d.wf(),
        decodes_to(encoded(m), d),
    ensures
        d.word_at(p) == m.word_at(p),
{
    lemma_encoded_decodes(m);
    let bytes = encoded(m);
    assert(m.palette@ =~= d.palette@);
    assert forall|j: int| 0 <= j < m.bricks@.len() implies (#[trigger] m.bricks@[j]).x
        == d.bricks@[j].x && m.bricks@[j].y == d.bricks@[j].y && m.bricks@[j].z == d.bricks@[j].z
        && m.bricks@[j].cells@ == d.bricks@[j].cells@ by {
        assert(brick_decoded(bytes, j, m.bricks@[j]));
        assert(brick_decoded(bytes, j, d.bricks@[j]));
        assert(m.bricks@[j].cells@ =~= d.bricks@[j].cells@);
    }
    lemma_same_parts_same_voxels(m, d, p);
}

/// Every position of `voxels` lies in a brick whose coordinates fit their fields.
pub open spec fn in_container_range(voxels: Seq<(crate::voxel::Voxel, crate::math::UVec3)>) -> bool {
    forall|k: int|
        0 <= k < voxels.len() ==> (#[trigger] voxels[k]).1.x < 0x8_0000 && voxels[k].1.y < 0x8_0000
            && voxels[k].1.z < 0x8_0000
}

/// The length of a container is fixed by what its model was built from:
/// the header, four bytes per distinct word that is not the empty voxel, and
/// one brick record per brick-sized region that holds such a voxel. The
/// count field of the header is the number of those words.
pub proof fn lemma_constructed_container(
    m: Model,
    voxels: Seq<(crate::voxel::Voxel, crate::math::UVec3)>,
)
    requires
        crate::sdvx::constructed(m, voxels),
    ensures
        encoded(m).len() == 16 + 4 * crate::sdvx::words_of(voxels).len() + 2056
            * crate::sdvx::regions_of(voxels).len(),
        parsed_count(encoded(m)) == crate::sdvx::words_of(voxels).len(),
        forall|n: int| 0 <= n < 16 ==> #[trigger] encoded(m)[n] == header_bytes(
            crate::sdvx::words_of(voxels).len() as int,
        )[n],
{
    crate::sdvx::lemma_constructed_sizes(m, voxels);
    lemma_encoded_layout(m);
    lemma_encoded_header(m);
}

/// Container round trip. Build a model from voxels with distinct positions,
/// none of them empty and all in range; write it as a container; read the
/// container back; list the voxels of what was read. The list holds exactly
/// the voxels that the model was built from.
pub proof fn lemma_container_round_trip(
    voxels: Seq<(crate::voxel::Voxel, crate::math::UVec3)>,
    m: Model,
    d: Model,
    list: Seq<(crate::voxel::Voxel, crate::math::UVec3)>,
)
    requires
        crate::sdvx::distinct_positions(voxels),
        forall|i: int| 0 <= i < voxels.len() ==> (#[trigger] voxels[i]).0.0 != 0,
        in_container_range(voxels),
        crate::sdvx::constructed(m, voxels),
        d.wf(),
        decodes_to(encoded(m), d),
        crate::sdvx::lists(d, list),
    ensures
        encodable(m),
        decode_error(encoded(m)).is_none(),
        list.to_set() == voxels.to_set(),
{
    assert(encodable(m)) by {
        assert forall|i: int| 0 <= i < m.bricks@.len() implies (#[trigger] m.bricks@[i]).x
            <= 0xFFFF && m.bricks@[i].y <= 0xFFFF && m.bricks@[i].z <= 0xFFFF by {
            assert(crate::sdvx::called_for(m.bricks@[i], voxels));
            let k = choose|k: int|
                0 <= k < voxels.len() && (#[trigger] voxels[k]).0.0 != 0
                    && crate::sdvx::brick_covers(m.bricks@[i], voxels[k].1);
            assert(voxels[k].1.x < 0x8_0000);
        }
    }
    lemma_encoded_decodes(m);
    assert forall|p: crate::math::UVec3| #[trigger] d.word_at(p) == crate::sdvx::last_word(
        voxels,
        p,
    ) by {
        lemma_decoded_holds_same_voxels(m, d, p);
    }
    crate::sdvx::lemma_construct_then_list(voxels, d, list);
}

} // verus!
