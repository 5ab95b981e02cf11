//! The field-element value types: a packed 32-byte form and an unpacked
//! 16-limb form, wrapping the limb-level operations behind an opaque
//! representation.
use vstd::prelude::*;
use vstd::arithmetic::power2::pow2;
use crate::field;
use crate::field::FieldElem;
use crate::model::bytes_val;
use crate::model::fe_val;
use crate::model::p;

verus! {

/// A fixed-width element: 32 packed bytes or 16 wide limbs, depending on
/// the instantiation.
#[derive(Debug, Clone, PartialEq)]
pub struct FieldElement<T, const SIZE: usize> {
    items: [T; SIZE],
}

impl<T, const SIZE: usize> FieldElement<T, SIZE> {
    /// The number of items in this representation.
    pub fn len(&self) -> (n: usize)
        ensures
            n == SIZE,
    {
        SIZE
    }
}

impl FieldElement<u8, 32> {
    /// The bytes of the packed form.
    pub closed spec fn bytes(&self) -> Seq<u8> {
        self.items@
    }

    /// Wrap 32 little-endian bytes as a packed element.
    pub fn new(items: [u8; 32]) -> (r: Self)
        ensures
            r.bytes() == items@,
    {
        FieldElement { items }
    }

    /// Decode into the unpacked 16-limb form; the encoded integer is
    /// reduced modulo 2^255 by clearing the top bit.
    pub fn unpack(&self) -> (r: FieldElement<i64, 16>)
        ensures
            fe_val(r.limbs()) == bytes_val(self.bytes()) % (pow2(255) as int),
            forall|i: int| 0 <= i < 16 ==> 0 <= #[trigger] r.limbs()[i] < 0x10000,
            r.limbs()[15] < 0x8000,
    {
        FieldElement { items: field::unpack25519(self.items.as_slice()) }
    }
}

impl FieldElement<i64, 16> {
    /// The limbs of the unpacked form.
    pub closed spec fn limbs(&self) -> Seq<i64> {
        self.items@
    }

    /// Limb-wise sum, left in redundant form for a later carry.
    pub fn add(&self, other: &Self) -> (r: Self)
        requires
            forall|i: int|
                0 <= i < 16 ==> i64::MIN <= #[trigger] self.limbs()[i] + other.limbs()[i]
                    <= i64::MAX,
        ensures
            forall|i: int|
                0 <= i < 16 ==> #[trigger] r.limbs()[i] == self.limbs()[i] + other.limbs()[i],
            fe_val(r.limbs()) == fe_val(self.limbs()) + fe_val(other.limbs()),
    {
        FieldElement { items: field::fadd(&self.items, &other.items) }
    }

    /// Limb-wise difference, left in redundant form for a later carry.
    pub fn sub(&self, other: &Self) -> (r: Self)
        requires
            forall|i: int|
                0 <= i < 16 ==> i64::MIN <= #[trigger] self.limbs()[i] - other.limbs()[i]
                    <= i64::MAX,
        ensures
            forall|i: int|
                0 <= i < 16 ==> #[trigger] r.limbs()[i] == self.limbs()[i] - other.limbs()[i],
            fe_val(r.limbs()) == fe_val(self.limbs()) - fe_val(other.limbs()),
    {
        FieldElement { items: field::fsub(&self.items, &other.items) }
    }

    /// Product modulo p, in nearly normalized form.
    pub fn mul(&self, other: &Self) -> (r: Self)
        requires
            forall|i: int| 0 <= i < 16 ==> -0x20_0000 <= #[trigger] self.limbs()[i] <= 0x20_0000,
            forall|i: int| 0 <= i < 16 ==> -0x20_0000 <= #[trigger] other.limbs()[i] <= 0x20_0000,
        ensures
            fe_val(r.limbs()) % p() == (fe_val(self.limbs()) * fe_val(other.limbs())) % p(),
            forall|i: int| 1 <= i < 16 ==> 0 <= #[trigger] r.limbs()[i] < 0x10000,
            -38 <= r.limbs()[0] <= 0xffff + 38,
    {
        FieldElement { items: field::fmul(&self.items, &other.items) }
    }

    /// The inverse modulo p by Fermat's little theorem: self^(p-2) mod p.
    /// Total: an element congruent to 0 comes back as 0.
    pub fn inverse(&self) -> (r: Self)
        requires
            forall|i: int| 0 <= i < 16 ==> -0x20_0000 <= #[trigger] self.limbs()[i] <= 0x20_0000,
        ensures
            fe_val(r.limbs()) % p() == vstd::arithmetic::power::pow(
                fe_val(self.limbs()),
                (p() - 2) as nat,
            ) % p(),
            forall|i: int| 0 <= i < 16 ==> -0x20_0000 <= #[trigger] r.limbs()[i] <= 0x20_0000,
    {
        let mut out: FieldElem = [0i64; 16];
        field::finverse(&mut out, &self.items);
        FieldElement { items: out }
    }

    /// Branchless conditional swap keyed on a single bit.
    pub fn swap(&mut self, other: &mut Self, b: i64)
        requires
            b == 0 || b == 1,
        ensures
            b == 0 ==> final(self).limbs() == old(self).limbs() && final(other).limbs() == old(
                other,
            ).limbs(),
            b == 1 ==> final(self).limbs() == old(other).limbs() && final(other).limbs() == old(
                self,
            ).limbs(),
    {
        field::swap25519(&mut self.items, &mut other.items, b);
    }

    /// One carry pass: all limbs but limb 0 return to [0, 2^16), and the
    /// overflow past 2^256 folds into limb 0 with weight 38.
    pub fn carry(&mut self)
        requires
            forall|i: int|
                0 <= i < 16 ==> -0x1000_0000_0000_0000 <= #[trigger] old(self).limbs()[i]
                    <= 0x1000_0000_0000_0000,
        ensures
            forall|i: int| 1 <= i < 16 ==> 0 <= #[trigger] final(self).limbs()[i] < 0x10000,
            0 <= final(self).limbs()[0] - 38 * (fe_val(old(self).limbs()) / (pow2(256) as int))
                < 0x10000,
            fe_val(final(self).limbs()) == fe_val(old(self).limbs()) % (pow2(256) as int) + 38 * (
            fe_val(old(self).limbs()) / (pow2(256) as int)),
    {
        field::carry25519(&mut self.items);
    }

    /// Encode as the canonical 32-byte form of the value modulo p; the
    /// element itself is left fully normalized and canonical.
    pub fn pack(&mut self) -> (r: FieldElement<u8, 32>)
        requires
            forall|i: int|
                0 <= i < 16 ==> -0x4_0000_0000_0000 <= #[trigger] old(self).limbs()[i]
                    <= 0x4_0000_0000_0000,
        ensures
            bytes_val(r.bytes()) == fe_val(old(self).limbs()) % p(),
            forall|i: int| 0 <= i < 16 ==> 0 <= #[trigger] final(self).limbs()[i] < 0x10000,
            fe_val(final(self).limbs()) == fe_val(old(self).limbs()) % p(),
    {
        FieldElement { items: field::pack25519(&mut self.items) }
    }
}

impl Default for FieldElement<i64, 16> {
    /// The zero element, with every limb zero.
    fn default() -> (r: Self)
        ensures
            forall|i: int| 0 <= i < 16 ==> #[trigger] r.limbs()[i] == 0,
    {
        FieldElement { items: [0i64; 16] }
    }
}

impl Default for FieldElement<u8, 32> {
    /// The packed encoding of zero: all bytes zero.
    fn default() -> (r: Self)
        ensures
            forall|i: int| 0 <= i < 32 ==> #[trigger] r.bytes()[i] == 0,
    {
        FieldElement { items: [0u8; 32] }
    }
}

} // verus!
