//! Per-brick status bits for host-side bookkeeping.

use vstd::prelude::*;

verus! {

/// Two status bits: bit 0 is "dirty", bit 1 is "in use".
#[derive(Clone, Copy)]
pub struct UsageFlags(pub u8);

proof fn lemma_flag_bits(w: u8, bit: u8)
    by (bit_vector)
    requires
        bit < 8,
    ensures
        (((w | (1u8 << bit)) >> bit) & 1u8) == 1u8,
        (((w & !(1u8 << bit)) >> bit) & 1u8) == 0u8,
        forall|other: u8|
            other < 8 && other != bit ==> (((w | (1u8 << bit)) >> other) & 1u8) == ((w >> other)
                & 1u8),
        forall|other: u8|
            other < 8 && other != bit ==> (((w & !(1u8 << bit)) >> other) & 1u8) == ((w >> other)
                & 1u8),
{
}

impl UsageFlags {
    /// Whether bit `bit` of the flags is set.
    pub open spec fn spec_bit(self, bit: u8) -> bool {
        ((self.0 >> bit) & 1u8) == 1u8
    }

    /// The dirty flag.
    pub open spec fn spec_dirty(self) -> bool {
        self.spec_bit(0)
    }

    /// The in-use flag.
    pub open spec fn spec_in_use(self) -> bool {
        self.spec_bit(1)
    }

    /// No flag set.
    pub fn empty() -> (f: UsageFlags)
        ensures
            f.0 == 0,
            !f.spec_dirty(),
            !f.spec_in_use(),
    {
        assert(((0u8 >> 0u8) & 1u8) == 0u8 && ((0u8 >> 1u8) & 1u8) == 0u8) by (bit_vector);
        UsageFlags(0)
    }

    /// Sets or clears bit `bit` and leaves the other bits as they were.
    pub fn set_bit(&mut self, bit: u8, val: bool)
        requires
            bit < 8,
        ensures
            final(self).spec_bit(bit) == val,
            forall|other: u8|
                other < 8 && other != bit ==> final(self).spec_bit(other) == old(self).spec_bit(
                    other,
                ),
    {
        proof {
            lemma_flag_bits(self.0, bit);
            lemma_bit_is_zero_or_one(self.0);
        }
        if val {
            self.0 = self.0 | (1u8 << bit);
        } else {
            self.0 = self.0 & !(1u8 << bit);
        }
        proof {
            lemma_bit_is_zero_or_one(self.0);
        }
    }

    /// Whether bit `bit` is set.
    pub fn get_bit(&self, bit: u8) -> (b: bool)
        requires
            bit < 8,
        ensures
            b == self.spec_bit(bit),
    {
        proof {
            lemma_bit_is_zero_or_one(self.0);
        }
        ((self.0 >> bit) & 1) > 0
    }

    /// Sets or clears the dirty flag.
    pub fn set_dirty(&mut self, dirty: bool)
        ensures
            final(self).spec_dirty() == dirty,
            final(self).spec_in_use() == old(self).spec_in_use(),
    {
        self.set_bit(0, dirty);
    }

    /// The dirty flag.
    pub fn dirty(&self) -> (d: bool)
        ensures
            d == self.spec_dirty(),
    {
        self.get_bit(0)
    }

    /// Sets or clears the in-use flag.
    pub fn set_in_use(&mut self, in_use: bool)
        ensures
            final(self).spec_in_use() == in_use,
            final(self).spec_dirty() == old(self).spec_dirty(),
    {
        self.set_bit(1, in_use);
    }

    /// The in-use flag.
    pub fn in_use(&self) -> (u: bool)
        ensures
            u == self.spec_in_use(),
    {
        self.get_bit(1)
    }
}

proof fn lemma_bit_is_zero_or_one(w: u8)
    by (bit_vector)
    ensures
        forall|bit: u8| bit < 8 ==> (((w >> bit) & 1u8) == 0u8 || ((w >> bit) & 1u8) == 1u8),
{
}

} // verus!
