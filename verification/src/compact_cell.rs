//! Cells of a compact heightfield.

use vstd::prelude::*;

verus! {

/// Provides information on the content of a cell column in a
/// [`CompactHeightfield`](crate::compact_heightfield::CompactHeightfield).
#[derive(Debug, Clone, Copy, PartialEq, Eq, Default, Structural)]
pub struct CompactCell {
    /// Index to the first span in the column.
    pub index: u32,
    /// Number of spans in the column.
    pub count: u8,
}

impl CompactCell {
    /// Index to the first span in the column.
    pub fn index(&self) -> (r: u32)
        ensures
            r == self.index,
    {
        self.index
    }

    /// Number of spans in the column.
    pub fn count(&self) -> (r: u8)
        ensures
            r == self.count,
    {
        self.count
    }

    /// Sets the index of the first span in the column.
    pub fn set_index(&mut self, index: u32)
        ensures
            final(self).index == index,
            final(self).count == old(self).count,
    {
        self.index = index;
    }

    /// Sets the number of spans in the column.
    pub fn set_count(&mut self, count: u8)
        ensures
            final(self).index == old(self).index,
            final(self).count == count,
    {
        self.count = count;
    }

    /// Counts one more span in the column.
    pub fn inc_count(&mut self)
        requires
            old(self).count < u8::MAX,
        ensures
            final(self).index == old(self).index,
            final(self).count == old(self).count + 1,
    {
        self.count += 1;
    }
}

} // verus!
