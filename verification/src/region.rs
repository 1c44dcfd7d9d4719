//! Region ids of spans.

use vstd::prelude::*;

verus! {

/// A region in a [`CompactHeightfield`](crate::compact_heightfield::CompactHeightfield),
/// as a set of 16 flag bits.
#[derive(Debug, Clone, Copy, PartialEq, Eq, Hash, Structural)]
pub struct RegionId {
    /// The raw bits of the id.
    pub bits: u16,
}

impl RegionId {
    /// The default region, which is used for spans that are not in a region, i.e. not walkable.
    pub fn none() -> (r: RegionId)
        ensures
            r.bits == 0,
    {
        RegionId { bits: 0 }
    }

    /// Heightfield border flag.  If a region ID has this bit set, then the
    /// region is a border region and its spans are considered un-walkable.
    pub fn border_region() -> (r: RegionId)
        ensures
            r.bits == 0x8000,
    {
        RegionId { bits: 0x8000 }
    }

    /// The maximum region ID.
    pub fn max_id() -> (r: RegionId)
        ensures
            r.bits == 0xffff,
    {
        RegionId { bits: 0xffff }
    }

    /// The raw bits of the id.
    pub fn bits(&self) -> (r: u16)
        ensures
            r == self.bits,
    {
        self.bits
    }

    /// Builds an id from raw bits, dropping bits that name no flag (every
    /// bit of a `u16` does).
    pub fn from_bits_truncate(bits: u16) -> (r: RegionId)
        ensures
            r.bits == bits,
    {
        RegionId { bits }
    }

    /// Whether all bits of `other` are set in `self`.
    pub open spec fn spec_contains(self, other: RegionId) -> bool {
        self.bits & other.bits == other.bits
    }

    /// Whether all bits of `other` are set in `self`.
    pub fn contains(self, other: RegionId) -> (r: bool)
        ensures
            r == self.spec_contains(other),
    {
        self.bits & other.bits == other.bits
    }

    /// Whether some bit of `other` is set in `self`.
    pub fn intersects(self, other: RegionId) -> (r: bool)
        ensures
            r == (self.bits & other.bits != 0),
    {
        self.bits & other.bits != 0
    }

    /// The bits of both ids.
    pub fn union(self, other: RegionId) -> (r: RegionId)
        ensures
            r.bits == self.bits | other.bits,
    {
        RegionId { bits: self.bits | other.bits }
    }
}

impl core::ops::Add<u16> for RegionId {
    type Output = RegionId;

    /// The id `other` higher; the sum must fit in 16 bits.
    fn add(self, other: u16) -> (r: RegionId) {
        RegionId { bits: self.bits + other }
    }
}

impl vstd::std_specs::ops::AddSpecImpl<u16> for RegionId {
    open spec fn obeys_add_spec() -> bool {
        true
    }

    open spec fn add_req(self, rhs: u16) -> bool {
        self.bits + rhs <= u16::MAX
    }

    open spec fn add_spec(self, rhs: u16) -> RegionId {
        RegionId { bits: (self.bits + rhs) as u16 }
    }
}

impl core::ops::AddAssign<u16> for RegionId {
    /// Raises the id by `other`; the sum must fit in 16 bits.
    fn add_assign(&mut self, other: u16)
        requires
            old(self).bits + other <= u16::MAX,
        ensures
            final(self).bits == old(self).bits + other,
    {
        self.bits = self.bits + other;
    }
}

impl Default for RegionId {
    fn default() -> (r: RegionId)
        ensures
            r.bits == 0,
    {
        RegionId { bits: 0 }
    }
}

impl From<u16> for RegionId {
    fn from(value: u16) -> (r: RegionId) {
        RegionId { bits: value }
    }
}

impl vstd::std_specs::convert::FromSpecImpl<u16> for RegionId {
    open spec fn obeys_from_spec() -> bool {
        true
    }

    open spec fn from_spec(value: u16) -> RegionId {
        RegionId { bits: value }
    }
}


/// The union of two ids contains both.
pub proof fn law_union_contains(a: RegionId, b: RegionId)
    ensures
        (RegionId { bits: a.bits | b.bits }).spec_contains(a),
        (RegionId { bits: a.bits | b.bits }).spec_contains(b),
{
    let x = a.bits;
    let y = b.bits;
    assert((x | y) & x == x) by (bit_vector);
    assert((x | y) & y == y) by (bit_vector);
}

} // verus!
