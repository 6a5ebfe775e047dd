//! The 32-bit packed voxel.
//!
//! Bit layout of the packed word, least significant bit first:
//!
//! | bits  | field                         |
//! |-------|-------------------------------|
//! | 0-4   | red, upper five bits          |
//! | 5-10  | green, upper six bits         |
//! | 11-15 | blue, upper five bits         |
//! | 16-19 | roughness, upper four bits    |
//! | 20-23 | emissive, upper four bits     |
//! | 24    | metallic flag                 |
//! | 25-31 | opacity, upper seven bits     |

use vstd::prelude::*;
use crate::math::{uvec4, UVec3, UVec4};

verus! {

/// A packed voxel. The all-zero word is the empty voxel; a voxel whose opacity
/// is zero but which carries any other field is still present.
#[derive(Clone, Copy, Debug)]
pub struct Voxel(pub u32);

/// The packed word for the given channels, as plain arithmetic over the
/// quantised fields.
pub open spec fn packed_word(
    r: u8,
    g: u8,
    b: u8,
    roughness: u8,
    emissive: u8,
    metallic: bool,
    opacity: u8,
) -> int {
    (r / 8) + (g / 4) * 0x20 + (b / 8) * 0x800 + (roughness / 16) * 0x1_0000 + (emissive / 16)
        * 0x10_0000 + (if metallic {
        0x100_0000int
    } else {
        0int
    }) + (opacity / 2) * 0x200_0000
}

proof fn lemma_pack_bits(r: u8, g: u8, b: u8, roughness: u8, emissive: u8, m: u8, opacity: u8)
    by (bit_vector)
    requires
        m == 0 || m == 1,
    ensures
        ((((r >> 3u8) as u16) | ((g >> 2u8) as u16) << 5u16 | ((b >> 3u8) as u16) << 11u16) as u32)
            | ((((roughness >> 4u8) | ((emissive >> 4u8) << 4u8)) as u32) << 16u32) | ((((opacity
            & 0xFEu8) | (m & 1u8)) as u32) << 24u32) == (r / 8) as u32 + ((g / 4) as u32) * 0x20
            + ((b / 8) as u32) * 0x800 + ((roughness / 16) as u32) * 0x1_0000 + ((emissive
            / 16) as u32) * 0x10_0000 + (m as u32) * 0x100_0000 + ((opacity / 2) as u32)
            * 0x200_0000,
        (r / 8) as u32 + ((g / 4) as u32) * 0x20 + ((b / 8) as u32) * 0x800 + ((roughness
            / 16) as u32) * 0x1_0000 + ((emissive / 16) as u32) * 0x10_0000 + (m as u32)
            * 0x100_0000 + ((opacity / 2) as u32) * 0x200_0000 <= 0xFFFF_FFFFu32,
{
}

proof fn lemma_unpack_bits(w: u32)
    by (bit_vector)
    ensures
        ((((w & 0xFFFF) as u16) as u8) << 3u8) == ((w % 0x20) * 8) as u8,
        (w % 0x20) * 8 < 256,
        (((((w & 0xFFFF) as u16) >> 5u16) as u8) << 2u8) == (((w / 0x20) % 0x40) * 4) as u8,
        ((w / 0x20) % 0x40) * 4 < 256,
        (((((w & 0xFFFF) as u16) >> 11u16) as u8) << 3u8) == (((w / 0x800) % 0x20) * 8) as u8,
        ((w / 0x800) % 0x20) * 8 < 256,
        (((w >> 16u32) as u8) << 4u8) == (((w / 0x1_0000) % 0x10) * 16) as u8,
        ((w / 0x1_0000) % 0x10) * 16 < 256,
        (((w >> 20u32) as u8) << 4u8) == (((w / 0x10_0000) % 0x10) * 16) as u8,
        ((w / 0x10_0000) % 0x10) * 16 < 256,
        (((w >> 24u32) as u8) & 0xFEu8) == ((w / 0x200_0000) * 2) as u8,
        (w / 0x200_0000) * 2 < 256,
        ((((w >> 24u32) as u8) & 1u8) != 0u8) == ((w / 0x100_0000) % 2 == 1),
{
}

impl Voxel {
    /// Red channel as the accessor reports it: the stored five bits, scaled back.
    pub open spec fn spec_red(self) -> int {
        (self.0 % 0x20) * 8
    }

    /// Green channel as the accessor reports it: the stored six bits, scaled back.
    pub open spec fn spec_green(self) -> int {
        ((self.0 / 0x20) % 0x40) * 4
    }

    /// Blue channel as the accessor reports it: the stored five bits, scaled back.
    pub open spec fn spec_blue(self) -> int {
        ((self.0 / 0x800) % 0x20) * 8
    }

    /// Roughness as the accessor reports it: the stored four bits, scaled back.
    pub open spec fn spec_roughness(self) -> int {
        ((self.0 / 0x1_0000) % 0x10) * 16
    }

    /// Emissive strength as the accessor reports it: the stored four bits, scaled back.
    pub open spec fn spec_emissive(self) -> int {
        ((self.0 / 0x10_0000) % 0x10) * 16
    }

    /// The metallic flag, bit 24.
    pub open spec fn spec_metallic(self) -> bool {
        (self.0 / 0x100_0000) % 2 == 1
    }

    /// Opacity as the accessor reports it: the stored seven bits, scaled back.
    pub open spec fn spec_opacity(self) -> int {
        (self.0 / 0x200_0000) * 2
    }

    /// A voxel is empty exactly when its whole word is zero.
    pub open spec fn spec_is_empty(self) -> bool {
        self.0 == 0
    }

    /// Packs the channels into a voxel. Opacity zero does not make the voxel
    /// empty: only the all-zero word is empty, see [`Voxel::empty`].
    pub fn new(rgb: [u8; 3], roughness: u8, emissive: u8, metallic: bool, opacity: u8) -> (v:
        Voxel)
        ensures
            v.0 == packed_word(rgb[0], rgb[1], rgb[2], roughness, emissive, metallic, opacity),
    {
        let r = (rgb[0] >> 3) as u16;
        let g = (rgb[1] >> 2) as u16;
        let b = (rgb[2] >> 3) as u16;
        let m: u8 = if metallic {
            1
        } else {
            0
        };
        let colour = r | g << 5 | b << 11;
        let roughness_emissive = (roughness >> 4) | ((emissive >> 4) << 4);
        let opacity_metallic: u8 = (opacity & 0xFE) | (m & 1);
        let word: u32 = (colour as u32) | ((roughness_emissive as u32) << 16) | ((
        opacity_metallic as u32) << 24);
        proof {
            lemma_pack_bits(rgb[0], rgb[1], rgb[2], roughness, emissive, m, opacity);
        }
        Voxel(word)
    }

    /// The colour channels, each scaled back to eight bits: red and blue keep
    /// their upper five bits, green its upper six.
    pub fn rgb(&self) -> (c: [u8; 3])
        ensures
            c[0] == self.spec_red(),
            c[1] == self.spec_green(),
            c[2] == self.spec_blue(),
    {
        let colour = #[verifier::truncate] ((self.0 & 0xFFFF) as u16);
        let r = (#[verifier::truncate] (colour as u8)) << 3;
        let g = (#[verifier::truncate] ((colour >> 5) as u8)) << 2;
        let b = (#[verifier::truncate] ((colour >> 11) as u8)) << 3;
        proof {
            lemma_unpack_bits(self.0);
        }
        [r, g, b]
    }

    /// Roughness, scaled back to eight bits (upper four bits kept).
    pub fn roughness(&self) -> (r: u8)
        ensures
            r == self.spec_roughness(),
    {
        proof {
            lemma_unpack_bits(self.0);
        }
        (#[verifier::truncate] ((self.0 >> 16) as u8)) << 4
    }

    /// Emissive strength, scaled back to eight bits (upper four bits kept).
    pub fn emissive(&self) -> (e: u8)
        ensures
            e == self.spec_emissive(),
    {
        proof {
            lemma_unpack_bits(self.0);
        }
        (#[verifier::truncate] ((self.0 >> 20) as u8)) << 4
    }

    /// Opacity, scaled back to eight bits (upper seven bits kept).
    pub fn opacity(&self) -> (o: u8)
        ensures
            o == self.spec_opacity(),
    {
        proof {
            lemma_unpack_bits(self.0);
        }
        (#[verifier::truncate] ((self.0 >> 24) as u8)) & 0xFE
    }

    /// The metallic flag.
    pub fn metallic(&self) -> (m: bool)
        ensures
            m == self.spec_metallic(),
    {
        proof {
            lemma_unpack_bits(self.0);
        }
        ((#[verifier::truncate] ((self.0 >> 24) as u8)) & 1) != 0
    }

    /// Alternative spelling of [`Voxel::metallic`].
    pub fn metalic(&self) -> (m: bool)
        ensures
            m == self.spec_metallic(),
    {
        self.metallic()
    }

    /// The packed word.
    pub fn as_u32(&self) -> (w: u32)
        ensures
            w == self.0,
    {
        self.0
    }

    /// The empty voxel: every bit zero.
    pub fn empty() -> (v: Voxel)
        ensures
            v.0 == 0,
            v.spec_is_empty(),
    {
        Voxel(0)
    }

    /// Whether this is the empty voxel.
    pub fn is_empty(&self) -> (e: bool)
        ensures
            e == self.spec_is_empty(),
    {
        self.0 == 0
    }
}

/// Round trip through [`Voxel::new`]: each accessor reports its channel with
/// the bits that the layout does not store cleared. Red and blue keep five
/// bits, green six, roughness and emissive four, opacity seven.
pub proof fn lemma_voxel_round_trip(
    r: u8,
    g: u8,
    b: u8,
    roughness: u8,
    emissive: u8,
    metallic: bool,
    opacity: u8,
)
    ensures
        0 <= packed_word(r, g, b, roughness, emissive, metallic, opacity) <= u32::MAX,
        ({
            let v = Voxel(packed_word(r, g, b, roughness, emissive, metallic, opacity) as u32);
            &&& v.spec_red() == r - r % 8
            &&& v.spec_green() == g - g % 4
            &&& v.spec_blue() == b - b % 8
            &&& v.spec_roughness() == roughness - roughness % 16
            &&& v.spec_emissive() == emissive - emissive % 16
            &&& v.spec_metallic() == metallic
            &&& v.spec_opacity() == opacity - opacity % 2
        }),
{
    let m: u8 = if metallic {
        1
    } else {
        0
    };
    lemma_round_trip_bits(r, g, b, roughness, emissive, m, opacity);
}

proof fn lemma_round_trip_bits(r: u8, g: u8, b: u8, roughness: u8, emissive: u8, m: u8, opacity: u8)
    by (bit_vector)
    requires
        m == 0 || m == 1,
    ensures
        ({
            let w = (r / 8) as u32 + ((g / 4) as u32) * 0x20 + ((b / 8) as u32) * 0x800 + ((
            roughness / 16) as u32) * 0x1_0000 + ((emissive / 16) as u32) * 0x10_0000 + (
            m as u32) * 0x100_0000 + ((opacity / 2) as u32) * 0x200_0000;
            &&& w <= 0xFFFF_FFFFu32
            &&& (w % 0x20) * 8 == r - r % 8
            &&& ((w / 0x20) % 0x40) * 4 == g - g % 4
            &&& ((w / 0x800) % 0x20) * 8 == b - b % 8
            &&& ((w / 0x1_0000) % 0x10) * 16 == roughness - roughness % 16
            &&& ((w / 0x10_0000) % 0x10) * 16 == emissive - emissive % 16
            &&& ((w / 0x100_0000) % 2 == 1) == (m == 1)
            &&& (w / 0x200_0000) * 2 == opacity - opacity % 2
            &&& (w == 0) == (r < 8 && g < 4 && b < 8 && roughness < 16 && emissive < 16 && m == 0
                && opacity < 2)
        }),
{
}

/// The empty voxel is empty, and a voxel built by [`Voxel::new`] is empty
/// exactly when every channel quantises to zero. In particular, with opacity
/// zero, a roughness or an emissive strength of at least 16 keeps the voxel
/// present.
pub proof fn lemma_voxel_empty_discriminator(
    r: u8,
    g: u8,
    b: u8,
    roughness: u8,
    emissive: u8,
    metallic: bool,
    opacity: u8,
)
    ensures
        Voxel(0).spec_is_empty(),
        Voxel(
            packed_word(r, g, b, roughness, emissive, metallic, opacity) as u32,
        ).spec_is_empty() <==> (r < 8 && g < 4 && b < 8 && roughness < 16 && emissive < 16
            && !metallic && opacity < 2),
        (roughness >= 16 || emissive >= 16) ==> !Voxel(
            packed_word(r, g, b, roughness, emissive, metallic, 0) as u32,
        ).spec_is_empty(),
{
    let m: u8 = if metallic {
        1
    } else {
        0
    };
    lemma_round_trip_bits(r, g, b, roughness, emissive, m, opacity);
    lemma_round_trip_bits(r, g, b, roughness, emissive, m, 0);
}

/// A voxel paired with its position, padded to four words for upload.
#[derive(Clone, Copy, Debug)]
pub struct VoxelWithPos(pub (UVec4, Voxel));

impl VoxelWithPos {
    /// Pairs `voxel` with `pos`; the fourth position word is zero.
    pub fn from_voxel(voxel: Voxel, pos: UVec3) -> (r: VoxelWithPos)
        ensures
            r.0.0 == (UVec4 { x: pos.x, y: pos.y, z: pos.z, w: 0 }),
            r.0.1 == voxel,
    {
        VoxelWithPos((uvec4(pos.x, pos.y, pos.z, 0), voxel))
    }
}

} // verus!
