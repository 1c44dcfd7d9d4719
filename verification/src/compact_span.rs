//! Spans of a compact heightfield, with their packed neighbour links.

use vstd::prelude::*;
use crate::region::RegionId;

verus! {

/// The 6-bit connection field of direction `dir` in packed span data.
pub open spec fn con_field(data: u32, dir: u8) -> u32 {
    (data >> ((dir * 6) as u32)) & 0x3f
}

/// What a 6-bit connection field means: the layer index of the neighbour,
/// or none for [`CompactSpan::NOT_CONNECTED`].
pub open spec fn con_value(field: u32) -> Option<u8> {
    if field == 0x3f {
        None
    } else {
        Some(field as u8)
    }
}

/// The field a connection is stored as: the low 6 bits of the layer index,
/// or all ones for none.
pub open spec fn con_encoding(con: Option<u8>) -> u32 {
    match con {
        Some(v) => (v as u32) & 0x3f,
        None => 0x3f,
    }
}

/// A span of a compact heightfield.
#[derive(Debug, Clone, Copy, PartialEq, Eq, Default, Structural)]
pub struct CompactSpan {
    /// The lower extent of the span. (Measured from the heightfield's base.)
    pub y: u16,
    /// The id of the region the span belongs to.
    pub region: RegionId,
    /// 24 bits: packed neighbor connection data, 6 bits per direction
    /// 8 bits: the height of the span
    pub data: u32,
}

impl CompactSpan {
    /// The connection field value that marks a missing neighbour.
    pub const NOT_CONNECTED: u8 = 0x3f;

    /// The neighbour connection of direction `dir`.
    pub open spec fn spec_con(&self, dir: u8) -> Option<u8> {
        con_value(con_field(self.data, dir))
    }

    /// The height of the span.
    pub open spec fn spec_height(&self) -> u8 {
        (self.data >> 24) as u8
    }

    /// The layer index of the neighbour span in direction `dir`, if connected.
    pub fn con(&self, dir: u8) -> (r: Option<u8>)
        requires
            dir < 4,
        ensures
            r == self.spec_con(dir),
    {
        let shift = (dir as u32) * 6;
        let data = self.data;
        let field = (data >> shift) & 0x3f;
        if field == 0x3f {
            None
        } else {
            proof {
                assert(field <= 0x3f) by (bit_vector)
                    requires
                        field == (data >> shift) & 0x3f,
                ;
            }
            Some(field as u8)
        }
    }

    /// Sets the neighbour connection of direction `dir`; only the low 6 bits
    /// of a layer index are kept.
    pub fn set_con(&mut self, dir: u8, con: Option<u8>)
        requires
            dir < 4,
        ensures
            final(self).spec_con(dir) == con_value(con_encoding(con)),
            forall|d: u8| d < 4 && d != dir ==> #[trigger] final(self).spec_con(d) == old(self).spec_con(d),
            final(self).spec_height() == old(self).spec_height(),
            final(self).y == old(self).y,
            final(self).region == old(self).region,
    {
        let shift = (dir as u32) * 6;
        let field: u32 = match con {
            Some(v) => (v as u32) & 0x3f,
            None => 0x3f,
        };
        let old_data = self.data;
        let new_data = (old_data & !(0x3f_u32 << shift)) | (field << shift);
        proof {
            if let Some(v) = con {
                let vv = v as u32;
                assert(vv & 0x3f <= 0x3f) by (bit_vector);
            }
            lemma_set_con_field(old_data, field, dir);
        }
        self.data = new_data;
    }

    /// The height of the span.
    pub fn height(&self) -> (r: u8)
        ensures
            r == self.spec_height(),
    {
        (self.data >> 24) as u8
    }

    /// Sets the height of the span.
    pub fn set_height(&mut self, height: u8)
        ensures
            final(self).spec_height() == height,
            forall|d: u8| d < 4 ==> #[trigger] final(self).spec_con(d) == old(self).spec_con(d),
            final(self).y == old(self).y,
            final(self).region == old(self).region,
    {
        let old_data = self.data;
        let h = height as u32;
        let new_data = (old_data & 0x00ff_ffff) | (h << 24);
        proof {
            assert(h <= 0xff);
            assert((((old_data & 0x00ff_ffff) | (h << 24)) >> 24) as u8 == h as u8) by (bit_vector)
                requires
                    h <= 0xff,
            ;
            assert forall|d: u8| d < 4 implies con_field(new_data, d) == con_field(old_data, d) by {
                let s: u32 = (d * 6) as u32;
                assert(s <= 18);
                assert(((((old_data & 0x00ff_ffff) | (h << 24)) >> s) & 0x3f) == ((old_data >> s) & 0x3f)) by (bit_vector)
                    requires
                        s <= 18,
                        h <= 0xff,
                ;
            }
        }
        self.data = new_data;
    }
}

/// Writing `field` into the connection bits of `dir` sets exactly those.
proof fn lemma_set_con_field(data: u32, field: u32, dir: u8)
    requires
        dir < 4,
        field <= 0x3f,
    ensures
        ({
            let s: u32 = (dir * 6) as u32;
            let nd = (data & !(0x3f_u32 << s)) | (field << s);
            &&& con_field(nd, dir) == field
            &&& forall|d: u8| d < 4 && d != dir ==> #[trigger] con_field(nd, d) == con_field(data, d)
            &&& nd >> 24 == data >> 24
        }),
{
    let s: u32 = (dir * 6) as u32;
    let nd = (data & !(0x3f_u32 << s)) | (field << s);
    assert(((((data & !(0x3f_u32 << s)) | (field << s)) >> s) & 0x3f) == field) by (bit_vector)
        requires
            s <= 18,
            field <= 0x3f,
    ;
    assert((((data & !(0x3f_u32 << s)) | (field << s)) >> 24) == data >> 24) by (bit_vector)
        requires
            s <= 18,
            field <= 0x3f,
    ;
    assert forall|d: u8| d < 4 && d != dir implies #[trigger] con_field(nd, d) == con_field(data, d) by {
        let t: u32 = (d * 6) as u32;
        assert(t <= 18 && t != s && (t + 6 <= s || s + 6 <= t));
        assert(((((data & !(0x3f_u32 << s)) | (field << s)) >> t) & 0x3f) == ((data >> t) & 0x3f)) by (bit_vector)
            requires
                s <= 18,
                t <= 18,
                t + 6 <= s || s + 6 <= t,
                field <= 0x3f,
        ;
    }
}


/// A connection written with [`CompactSpan::set_con`] reads back with
/// [`CompactSpan::con`]: none as none, and a layer index below
/// [`CompactSpan::NOT_CONNECTED`] as itself.
pub proof fn law_con_round_trip(con: Option<u8>)
    requires
        con matches Some(v) ==> v < 0x3f,
    ensures
        con_value(con_encoding(con)) == con,
{
    if let Some(v) = con {
        let vv = v as u32;
        assert(vv < 0x3f ==> vv & 0x3f == vv) by (bit_vector);
    }
}

} // verus!
