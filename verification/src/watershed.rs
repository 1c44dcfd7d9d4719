//! Watershed partitioning of a compact heightfield into regions.
//!
//! The regions are grown level by level from the border regions; the
//! region and distance buffers are working storage of the build.

use vstd::prelude::*;
use crate::compact_heightfield::{CompactHeightfield, in_cell, cells_partition};
use crate::math::{dir_offset_x, dir_offset_z, spec_dir_offset_x, spec_dir_offset_z};
use crate::region::RegionId;

verus! {

/// A span waiting to be assigned a region, with its cell.
#[derive(Clone, Copy, Debug)]
struct LevelStackEntry {
    x: u16,
    z: u16,
    index: Option<usize>,
}

/// A region assignment found in one pass of the expansion.
#[derive(Clone, Copy, Debug)]
struct DirtyEntry {
    index: usize,
    region: RegionId,
    distance2: u16,
}

/// Entry `j` of the buffers is as in `reg0` and `dist0`, or was written by
/// one of the first `n` found assignments.
spec fn written_or_same(
    reg0: Seq<RegionId>,
    dist0: Seq<u16>,
    reg: Seq<RegionId>,
    dist: Seq<u16>,
    dirty: Seq<DirtyEntry>,
    n: int,
    j: int,
) -> bool {
    ||| reg[j] == reg0[j] && dist[j] == dist0[j]
    ||| exists|t2: int|
        0 <= t2 < n && (#[trigger] dirty[t2]).index == j && reg[j] == dirty[t2].region && dist[j] == dirty[t2].distance2
}

/// Entry `e` names a span without a region whose region choice is a
/// region.
spec fn eligible(chf: CompactHeightfield, reg: Seq<RegionId>, dist: Seq<u16>, e: LevelStackEntry) -> bool {
    &&& e.index is Some
    &&& reg[e.index->0 as int].bits == 0
    &&& chf.choice_upto(reg, dist, e.x as int, e.z as int, e.index->0 as int, 4).0.bits != 0
}

/// The stack `s` holds the cells of `s_in` in order, and still every span
/// of `s_in` that has no region in `reg`.
spec fn keeps_waiting(s: Seq<LevelStackEntry>, s_in: Seq<LevelStackEntry>, reg: Seq<RegionId>) -> bool {
    &&& s.len() == s_in.len()
    &&& forall|k: int|
        0 <= k < s.len() ==> {
            &&& (#[trigger] s[k]).x == s_in[k].x
            &&& s[k].z == s_in[k].z
            &&& (s_in[k].index matches Some(i) && reg[i as int].bits == 0 ==> s[k].index == s_in[k].index)
        }
}

/// The number of spans that have a region.
pub open spec fn assigned_count(src_reg: Seq<RegionId>) -> nat
    decreases src_reg.len(),
{
    if src_reg.len() == 0 {
        0
    } else {
        assigned_count(src_reg.drop_last()) + if src_reg.last().bits != 0 {
            1nat
        } else {
            0nat
        }
    }
}

/// No more spans have a region than there are spans.
proof fn lemma_assigned_count_le(s: Seq<RegionId>)
    ensures
        assigned_count(s) <= s.len(),
    decreases s.len(),
{
    if s.len() > 0 {
        lemma_assigned_count_le(s.drop_last());
    }
}

/// Giving span `i` a region changes the count by what it had and gets.
proof fn lemma_assigned_count_update(s: Seq<RegionId>, i: int, r: RegionId)
    requires
        0 <= i < s.len(),
    ensures
        assigned_count(s.update(i, r)) + (if s[i].bits != 0 { 1int } else { 0int }) == assigned_count(s) + (if r.bits
            != 0 {
            1int
        } else {
            0int
        }),
    decreases s.len(),
{
    let t = s.update(i, r);
    if i == s.len() - 1 {
        assert(t.drop_last() =~= s.drop_last());
    } else {
        assert(t.drop_last() =~= s.drop_last().update(i, r));
        lemma_assigned_count_update(s.drop_last(), i, r);
    }
}

/// The number of entries that still hold a span.
spec fn some_count(s: Seq<LevelStackEntry>) -> nat
    decreases s.len(),
{
    if s.len() == 0 {
        0
    } else {
        some_count(s.drop_last()) + if s.last().index is Some {
            1nat
        } else {
            0nat
        }
    }
}

/// Replacing entry `k` changes the count by what it held and holds.
proof fn lemma_some_count_update(s: Seq<LevelStackEntry>, k: int, e: LevelStackEntry)
    requires
        0 <= k < s.len(),
    ensures
        some_count(s.update(k, e)) + (if s[k].index is Some { 1int } else { 0int }) == some_count(s) + (if e.index is Some {
            1int
        } else {
            0int
        }),
    decreases s.len(),
{
    let t = s.update(k, e);
    if k == s.len() - 1 {
        assert(t.drop_last() =~= s.drop_last());
    } else {
        assert(t.drop_last() =~= s.drop_last().update(k, e));
        lemma_some_count_update(s.drop_last(), k, e);
    }
}

/// Two cells of a grid `w` wide with the same index have the same
/// coordinates.
proof fn lemma_cell_coords_unique(w: int, x1: int, z1: int, x2: int, z2: int)
    requires
        0 <= x1 < w,
        0 <= x2 < w,
        0 <= z1,
        0 <= z2,
        x1 + z1 * w == x2 + z2 * w,
    ensures
        x1 == x2 && z1 == z2,
{
    vstd::arithmetic::div_mod::lemma_fundamental_div_mod_converse(x1 + z1 * w, w, z1, x1);
    vstd::arithmetic::div_mod::lemma_fundamental_div_mod_converse(x2 + z2 * w, w, z2, x2);
}

/// Setting the border flag leaves an id that is not the null region.
proof fn lemma_border_flag_set(b: u16)
    ensures
        (b | 0x8000u16) != 0,
{
    assert((b | 0x8000u16) != 0) by (bit_vector);
}

impl CompactHeightfield {
    /// Cell `(x, z)` of a well-formed field lies in the grid, and its span
    /// range lies in the spans.
    proof fn lemma_cell_range(&self, x: int, z: int)
        requires
            self.wf(),
            0 <= x < self.width,
            0 <= z < self.height,
        ensures
            0 <= x + z * self.width < self.cells@.len(),
            self.cells@[x + z * self.width].index + self.cells@[x + z * self.width].count <= self.spans@.len(),
            self.spans@.len() <= usize::MAX,
    {
        assert(self.spans@.len() == self.spans.len());
        assert(x + z * self.width < self.width * self.height) by (nonlinear_arith)
            requires
                0 <= x < self.width,
                0 <= z < self.height,
        ;
        assert(0 <= z * self.width) by (nonlinear_arith)
            requires
                0 <= z,
        ;
    }

    /// The entry names a cell of the grid and, if it still holds a span, one
    /// of that cell's spans.
    spec fn entry_ok(&self, e: LevelStackEntry) -> bool {
        &&& e.x < self.width
        &&& e.z < self.height
        &&& (e.index matches Some(i) ==> in_cell(self.cells@, e.x + e.z * self.width, i as int) && i < self.spans@.len())
    }

    /// Every entry of every stack is valid.
    spec fn stacks_ok(&self, stacks: Seq<Vec<LevelStackEntry>>) -> bool {
        forall|s: int, k: int| 0 <= s < stacks.len() && 0 <= k < stacks[s]@.len() ==> self.entry_ok(#[trigger] stacks[s]@[k])
    }

    /// The working buffers fit the spans, and no distance exceeds twice the
    /// number of spans with a region.
    spec fn buffers_ok(&self, src_reg: Seq<RegionId>, src_dist: Seq<u16>) -> bool {
        &&& src_reg.len() == self.spans@.len()
        &&& src_dist.len() == self.spans@.len()
        &&& forall|j: int| 0 <= j < src_dist.len() ==> #[trigger] src_dist[j] <= 2 * assigned_count(src_reg)
    }

    /// What the region choice of span `i` of cell `(x, z)` is after looking
    /// at its first `d` neighbours: the nearest border region reachable in
    /// the same area, with its distance.
    spec fn choice_upto(&self, src_reg: Seq<RegionId>, src_dist: Seq<u16>, x: int, z: int, i: int, d: int) -> (RegionId, int)
        decreases d,
    {
        if d <= 0 {
            (src_reg[i], 0xffff)
        } else {
            let acc = self.choice_upto(src_reg, src_dist, x, z, i, d - 1);
            let dir = (d - 1) as u8;
            match self.spans@[i].spec_con(dir) {
                None => acc,
                Some(con) => {
                    let ax = x + spec_dir_offset_x(dir);
                    let az = z + spec_dir_offset_z(dir);
                    let ai = self.cells@[ax + az * self.width].index + con;
                    if self.areas@[ai] != self.areas@[i] {
                        acc
                    } else {
                        let ar = src_reg[ai];
                        let ad = src_dist[ai] + 2;
                        if ar.bits != 0 && !ar.spec_contains(RegionId { bits: 0x8000 }) && ad < acc.1 {
                            (ar, ad)
                        } else {
                            acc
                        }
                    }
                },
            }
        }
    }

    /// The span that the connection of span `i` of cell `(x, z)` in
    /// direction `dir` leads to, if it is connected.
    pub open spec fn neighbour_index(&self, x: int, z: int, i: int, dir: u8) -> Option<int> {
        match self.spans@[i].spec_con(dir) {
            None => None,
            Some(con) => Some(
                self.cells@[(x + spec_dir_offset_x(dir)) + (z + spec_dir_offset_z(dir)) * self.width].index + con,
            ),
        }
    }

    /// Span `i` of cell `(x, z)` has, in direction `dir`, a connected
    /// neighbour of its area with its border region, one step (distance 2)
    /// nearer.
    spec fn neighbour_grows(&self, reg: Seq<RegionId>, dist: Seq<u16>, i: int, x: int, z: int, dir: u8) -> bool {
        &&& 0 <= x < self.width
        &&& 0 <= z < self.height
        &&& in_cell(self.cells@, x + z * self.width, i)
        &&& dir < 4
        &&& match self.neighbour_index(x, z, i, dir) {
            None => false,
            Some(ai) => {
                &&& self.areas@[ai] == self.areas@[i]
                &&& reg[ai] == reg[i]
                &&& dist[i] == dist[ai] + 2
                &&& reg[i].bits != 0
                &&& !reg[i].spec_contains(RegionId { bits: 0x8000 })
            },
        }
    }

    /// Span `i` took its region from a neighbour: see [`Self::neighbour_grows`].
    spec fn grown_from(&self, reg: Seq<RegionId>, dist: Seq<u16>, i: int) -> bool {
        exists|x: int, z: int, dir: u8| #[trigger] self.neighbour_grows(reg, dist, i, x, z, dir)
    }

    /// A found assignment is the region choice of its span in some cell.
    spec fn dirty_ok(&self, reg: Seq<RegionId>, dist: Seq<u16>, e: DirtyEntry) -> bool {
        exists|x: int, z: int|
            0 <= x < self.width && 0 <= z < self.height && #[trigger] in_cell(self.cells@, x + z * self.width, e.index as int)
                && self.choice_upto(reg, dist, x, z, e.index as int, 4) == (e.region, e.distance2 as int)
    }

    /// A span without a region whose choice is a region got it from a
    /// neighbour in one of the first `d` directions.
    proof fn lemma_choice_witness(&self, reg: Seq<RegionId>, dist: Seq<u16>, x: int, z: int, i: int, d: int)
        requires
            0 <= d <= 4,
            reg[i].bits == 0,
            self.choice_upto(reg, dist, x, z, i, d).0.bits != 0,
        ensures
            exists|dir: u8|
                dir < d && match #[trigger] self.neighbour_index(x, z, i, dir) {
                    None => false,
                    Some(ai) => {
                        &&& self.areas@[ai] == self.areas@[i]
                        &&& reg[ai] == self.choice_upto(reg, dist, x, z, i, d).0
                        &&& dist[ai] + 2 == self.choice_upto(reg, dist, x, z, i, d).1
                        &&& reg[ai].bits != 0
                        &&& !reg[ai].spec_contains(RegionId { bits: 0x8000 })
                    },
                },
        decreases d,
    {
        if d > 0 {
            let acc = self.choice_upto(reg, dist, x, z, i, d - 1);
            if self.choice_upto(reg, dist, x, z, i, d) == acc {
                self.lemma_choice_witness(reg, dist, x, z, i, d - 1);
                let dir = choose|dir: u8|
                    dir < d - 1 && match #[trigger] self.neighbour_index(x, z, i, dir) {
                        None => false,
                        Some(ai) => {
                            &&& self.areas@[ai] == self.areas@[i]
                            &&& reg[ai] == acc.0
                            &&& dist[ai] + 2 == acc.1
                            &&& reg[ai].bits != 0
                            &&& !reg[ai].spec_contains(RegionId { bits: 0x8000 })
                        },
                    };
                assert(dir < d);
            } else {
                let dir = (d - 1) as u8;
                assert(self.neighbour_index(x, z, i, dir) is Some);
            }
        }
    }

    /// After a round of the expansion, every span that has gained a region
    /// since `reg_in` took it from a neighbour.
    proof fn lemma_round_grows(
        &self,
        reg_in: Seq<RegionId>,
        reg0: Seq<RegionId>,
        dist0: Seq<u16>,
        reg: Seq<RegionId>,
        dist: Seq<u16>,
        dirty: Seq<DirtyEntry>,
    )
        requires
            reg_in.len() == reg0.len(),
            reg.len() == reg0.len(),
            dist.len() == reg0.len(),
            dist0.len() == reg0.len(),
            forall|i: int| 0 <= i < reg0.len() && reg_in[i].bits == 0 && (#[trigger] reg0[i]).bits != 0 ==> self.grown_from(reg0, dist0, i),
            forall|j: int| 0 <= j < reg0.len() && (#[trigger] reg0[j]).bits != 0 ==> reg[j] == reg0[j] && dist[j] == dist0[j],
            forall|j: int| 0 <= j < reg0.len() ==> #[trigger] written_or_same(reg0, dist0, reg, dist, dirty, dirty.len() as int, j),
            forall|t2: int| 0 <= t2 < dirty.len() ==> self.dirty_ok(reg0, dist0, #[trigger] dirty[t2]),
            forall|t2: int| 0 <= t2 < dirty.len() ==> reg0[(#[trigger] dirty[t2]).index as int].bits == 0,
            forall|t2: int| 0 <= t2 < dirty.len() ==> (#[trigger] dirty[t2]).index < reg0.len(),
            self.wf(),
            self.spans@.len() == reg0.len(),
        ensures
            forall|i: int| 0 <= i < reg0.len() && reg_in[i].bits == 0 && (#[trigger] reg[i]).bits != 0 ==> self.grown_from(reg, dist, i),
    {
        assert forall|i: int| 0 <= i < reg0.len() && reg_in[i].bits == 0 && (#[trigger] reg[i]).bits != 0 implies self.grown_from(
            reg,
            dist,
            i,
        ) by {
            if reg0[i].bits != 0 {
                assert(self.grown_from(reg0, dist0, i));
                let (x, z, dir) = choose|x: int, z: int, dir: u8| #[trigger] self.neighbour_grows(reg0, dist0, i, x, z, dir);
                let ai = self.neighbour_index(x, z, i, dir)->0;
                self.lemma_neighbour_in_range(x, z, i, dir);
                assert(reg0[ai].bits != 0);
                assert(reg[ai] == reg0[ai] && dist[ai] == dist0[ai]);
                assert(self.neighbour_grows(reg, dist, i, x, z, dir));
            } else {
                assert(written_or_same(reg0, dist0, reg, dist, dirty, dirty.len() as int, i));
                assert(!(reg[i] == reg0[i] && dist[i] == dist0[i]));
                let t2 = choose|t2: int|
                    0 <= t2 < dirty.len() && (#[trigger] dirty[t2]).index == i && reg[i] == dirty[t2].region && dist[i]
                        == dirty[t2].distance2;
                let e = dirty[t2];
                assert(self.dirty_ok(reg0, dist0, e));
                let (x, z) = choose|x: int, z: int|
                    0 <= x < self.width && 0 <= z < self.height && #[trigger] in_cell(self.cells@, x + z * self.width, e.index as int)
                        && self.choice_upto(reg0, dist0, x, z, e.index as int, 4) == (e.region, e.distance2 as int);
                self.lemma_choice_witness(reg0, dist0, x, z, i, 4);
                let dir = choose|dir: u8|
                    dir < 4 && match #[trigger] self.neighbour_index(x, z, i, dir) {
                        None => false,
                        Some(ai) => {
                            &&& self.areas@[ai] == self.areas@[i]
                            &&& reg0[ai] == self.choice_upto(reg0, dist0, x, z, i, 4).0
                            &&& dist0[ai] + 2 == self.choice_upto(reg0, dist0, x, z, i, 4).1
                            &&& reg0[ai].bits != 0
                            &&& !reg0[ai].spec_contains(RegionId { bits: 0x8000 })
                        },
                    };
                let ai = self.neighbour_index(x, z, i, dir)->0;
                assert(0 <= ai < reg0.len()) by {
                    self.lemma_neighbour_in_range(x, z, i, dir);
                }
                assert(reg[ai] == reg0[ai] && dist[ai] == dist0[ai]);
                assert(self.neighbour_grows(reg, dist, i, x, z, dir));
            }
        }
    }

    /// The neighbour that a connection of a span of a well-formed field
    /// leads to is a span.
    proof fn lemma_neighbour_in_range(&self, x: int, z: int, i: int, dir: u8)
        requires
            self.wf(),
            0 <= x < self.width,
            0 <= z < self.height,
            in_cell(self.cells@, x + z * self.width, i),
            dir < 4,
            self.neighbour_index(x, z, i, dir) is Some,
        ensures
            0 <= self.neighbour_index(x, z, i, dir)->0 < self.spans@.len(),
    {
        let c = x + z * self.width;
        assert(c < self.width * self.height) by (nonlinear_arith)
            requires
                0 <= x < self.width,
                0 <= z < self.height,
                c == x + z * self.width,
        ;
        assert(0 <= z * self.width) by (nonlinear_arith)
            requires
                0 <= z,
        ;
        vstd::arithmetic::div_mod::lemma_fundamental_div_mod_converse(c, self.width as int, z, x);
        assert(in_cell(self.cells@, c, i) && self.spans@[i].spec_con(dir) is Some);
    }

    /// The border region that the painting before the watershed gives span
    /// `i`: the last of the four border strips (left columns, right
    /// columns, first rows, last rows) whose cells hold it as a walkable
    /// span, or no region.
    pub open spec fn border_region(&self, border_size: u16, i: int) -> RegionId {
        let w = self.width as int;
        let h = self.height as int;
        let bw = if border_size < self.width { border_size as int } else { w };
        let bh = if border_size < self.height { border_size as int } else { h };
        if border_size == 0 {
            RegionId { bits: 0 }
        } else if self.painted_upto(0, w, h - bh, i, h) {
            RegionId { bits: 0x8004 }
        } else if self.painted_upto(0, w, 0, i, bh) {
            RegionId { bits: 0x8003 }
        } else if self.painted_upto(w - bw, w, 0, i, h) {
            RegionId { bits: 0x8002 }
        } else if self.painted_upto(0, bw, 0, i, h) {
            RegionId { bits: 0x8001 }
        } else {
            RegionId { bits: 0 }
        }
    }

    /// Span `i` holds region `regs[i]` as painted on a border strip, or
    /// through a chain of at most `n` links, each to a span of the same area
    /// holding the same region, that ends at a span painted with it.
    pub open spec fn region_reached(&self, border_size: u16, regs: Seq<RegionId>, i: int, n: nat) -> bool
        decreases n,
    {
        ||| self.border_region(border_size, i) == regs[i]
        ||| n > 0 && exists|x: int, z: int, dir: u8|
            #![trigger self.neighbour_index(x, z, i, dir)]
            0 <= x < self.width && 0 <= z < self.height && in_cell(self.cells@, x + z * self.width, i) && dir < 4
                && match self.neighbour_index(x, z, i, dir) {
                None => false,
                Some(ai) => self.areas@[ai] == self.areas@[i] && regs[ai] == regs[i] && self.region_reached(
                    border_size,
                    regs,
                    ai,
                    (n - 1) as nat,
                ),
            }
    }

    /// A region reached from a border strip is one of the four border
    /// regions.
    proof fn lemma_reached_is_border(&self, border_size: u16, regs: Seq<RegionId>, i: int, n: nat)
        requires
            self.region_reached(border_size, regs, i, n),
            regs[i].bits != 0,
        ensures
            0x8001 <= regs[i].bits <= 0x8004,
        decreases n,
    {
        if self.border_region(border_size, i) != regs[i] {
            let (x, z, dir) = choose|x: int, z: int, dir: u8|
                #![trigger self.neighbour_index(x, z, i, dir)]
                0 <= x < self.width && 0 <= z < self.height && in_cell(self.cells@, x + z * self.width, i) && dir < 4
                    && match self.neighbour_index(x, z, i, dir) {
                    None => false,
                    Some(ai) => self.areas@[ai] == self.areas@[i] && regs[ai] == regs[i] && self.region_reached(
                        border_size,
                        regs,
                        ai,
                        (n - 1) as nat,
                    ),
                };
            let ai = self.neighbour_index(x, z, i, dir)->0;
            self.lemma_reached_is_border(border_size, regs, ai, (n - 1) as nat);
        }
    }

    /// Each span that has a region is painted with it, at distance 0, or
    /// grew it from a neighbour.
    spec fn regions_grown(&self, border_size: u16, reg: Seq<RegionId>, dist: Seq<u16>) -> bool {
        forall|i: int|
            0 <= i < reg.len() && (#[trigger] reg[i]).bits != 0 ==> (self.border_region(border_size, i) == reg[i] && dist[i] == 0)
                || self.grown_from(reg, dist, i)
    }

    /// A region that was painted or grown is reached from its strip within
    /// half its distance in links.
    proof fn lemma_region_reached(&self, border_size: u16, reg: Seq<RegionId>, dist: Seq<u16>, i: int)
        requires
            self.regions_grown(border_size, reg, dist),
            reg.len() == dist.len(),
            self.wf(),
            reg.len() == self.spans@.len(),
            0 <= i < reg.len(),
            reg[i].bits != 0,
        ensures
            self.region_reached(border_size, reg, i, (dist[i] / 2) as nat),
        decreases dist[i],
    {
        if !(self.border_region(border_size, i) == reg[i] && dist[i] == 0) {
            assert(self.grown_from(reg, dist, i));
            let (x, z, dir) = choose|x: int, z: int, dir: u8| #[trigger] self.neighbour_grows(reg, dist, i, x, z, dir);
            self.lemma_neighbour_in_range(x, z, i, dir);
            let ai = self.neighbour_index(x, z, i, dir)->0;
            self.lemma_region_reached(border_size, reg, dist, ai);
            assert((dist[i] / 2) as nat - 1 == (dist[ai] / 2) as nat);
            assert(self.neighbour_index(x, z, i, dir) == Some(ai));
        }
    }

    /// Non-null regions will consist of connected, non-overlapping walkable
    /// spans that form a single contour.
    ///
    /// Border regions are painted along the edges of the field, and the
    /// watershed then runs level by level, growing regions that are not
    /// border regions into connected spans of the same area. No such region
    /// is made, so the spans keep the painted border regions. The regions
    /// are written into the spans, and `max_region` is the last region id
    /// handed out. The distance field must have been built before.
    ///
    /// A grown region's distance rises by two for each span it passes, so
    /// the span count bound keeps every distance within 16 bits.
    pub fn build_regions(&mut self, border_size: u16, min_region_area: u16, max_region_area: u16)
        requires
            old(self).wf(),
            old(self).dist@.len() == old(self).spans@.len(),
            old(self).max_distance < 0xffff,
            old(self).spans@.len() <= 32766,
        ensures
            final(self).width == old(self).width,
            final(self).height == old(self).height,
            final(self).walkable_height == old(self).walkable_height,
            final(self).walkable_climb == old(self).walkable_climb,
            final(self).max_distance == old(self).max_distance,
            final(self).cells == old(self).cells,
            final(self).dist == old(self).dist,
            final(self).areas == old(self).areas,
            final(self).border_size == border_size,
            final(self).max_region.bits == (if border_size > 0 {
                4int
            } else {
                0int
            }),
            final(self).spans@.len() == old(self).spans@.len(),
            forall|i: int|
                0 <= i < old(self).spans@.len() ==> (#[trigger] final(self).spans@[i]).y == old(self).spans@[i].y
                    && final(self).spans@[i].data == old(self).spans@[i].data,
            forall|i: int|
                0 <= i < old(self).spans@.len() ==> (#[trigger] final(self).spans@[i]).region == old(self).border_region(
                    border_size,
                    i,
                ),
    {
        let n = self.spans.len();
        let mut level_stacks: Vec<Vec<LevelStackEntry>> = Vec::new();
        let mut s: usize = 0;
        while s < 8
            invariant
                s <= 8,
                level_stacks@.len() == s,
                forall|t: int| 0 <= t < level_stacks@.len() ==> (#[trigger] level_stacks@[t])@.len() == 0,
            decreases 8 - s,
        {
            level_stacks.push(Vec::with_capacity(256));
            s = s + 1;
        }
        let mut src_reg: Vec<RegionId> = Vec::new();
        let mut src_dist: Vec<u16> = Vec::new();
        let mut k: usize = 0;
        while k < n
            invariant
                k <= n,
                src_reg@.len() == k,
                src_dist@.len() == k,
                forall|j: int| 0 <= j < k ==> #[trigger] src_dist@[j] == 0,
                forall|j: int| 0 <= j < k ==> (#[trigger] src_reg@[j]).bits == 0,
            decreases n - k,
        {
            src_reg.push(RegionId { bits: 0 });
            src_dist.push(0);
            k = k + 1;
        }
        let mut region_id = RegionId { bits: 1 };
        let mut level: u16 = (self.max_distance + 1) & !1u16;
        let expand_iters: u16 = 8;
        let w = self.width;
        let h = self.height;
        if border_size > 0 {
            // Make sure border will not overflow.
            let border_width = if border_size < w { border_size } else { w };
            let border_height = if border_size < h { border_size } else { h };
            // Paint regions
            proof {
                lemma_border_flag_set(region_id.bits);
                assert(1u16 | 0x8000u16 == 0x8001u16) by (bit_vector);
            }
            let ghost reg_a = src_reg@;
            self.paint_rect_region(0, border_width, 0, h, region_id.union(RegionId { bits: 0x8000 }), &mut src_reg, Ghost(src_dist@));
            let ghost reg_b = src_reg@;
            region_id = region_id + 1;
            proof {
                lemma_border_flag_set(region_id.bits);
                assert(2u16 | 0x8000u16 == 0x8002u16) by (bit_vector);
            }
            self.paint_rect_region(w - border_width, w, 0, h, region_id.union(RegionId { bits: 0x8000 }), &mut src_reg, Ghost(src_dist@));
            let ghost reg_c = src_reg@;
            region_id = region_id + 1;
            proof {
                lemma_border_flag_set(region_id.bits);
                assert(3u16 | 0x8000u16 == 0x8003u16) by (bit_vector);
            }
            self.paint_rect_region(0, w, 0, border_height, region_id.union(RegionId { bits: 0x8000 }), &mut src_reg, Ghost(src_dist@));
            let ghost reg_d = src_reg@;
            region_id = region_id + 1;
            proof {
                lemma_border_flag_set(region_id.bits);
                assert(4u16 | 0x8000u16 == 0x8004u16) by (bit_vector);
            }
            self.paint_rect_region(0, w, h - border_height, h, region_id.union(RegionId { bits: 0x8000 }), &mut src_reg, Ghost(src_dist@));
            region_id = region_id + 1;
            proof {
                assert forall|i: int| 0 <= i < n implies #[trigger] src_reg@[i] == self.border_region(border_size, i) by {
                    assert(reg_a[i].bits == 0);
                    assert(reg_b[i] == (if self.painted_upto(0, border_width as int, 0, i, h as int) {
                        RegionId { bits: 0x8001 }
                    } else {
                        reg_a[i]
                    }));
                    assert(reg_c[i] == (if self.painted_upto((w - border_width) as int, w as int, 0, i, h as int) {
                        RegionId { bits: 0x8002 }
                    } else {
                        reg_b[i]
                    }));
                    assert(reg_d[i] == (if self.painted_upto(0, w as int, 0, i, border_height as int) {
                        RegionId { bits: 0x8003 }
                    } else {
                        reg_c[i]
                    }));
                }
            }
        } else {
            proof {
                assert forall|i: int| 0 <= i < n implies #[trigger] src_reg@[i] == self.border_region(border_size, i) by {
                }
            }
        }
        let ghost painted = *self;
        proof {
            assert forall|i: int| 0 <= i < src_reg@.len() && (#[trigger] src_reg@[i]).bits != 0 implies (self.border_region(
                border_size,
                i,
            ) == src_reg@[i] && src_dist@[i] == 0) || self.grown_from(src_reg@, src_dist@, i) by {
            }
        }
        let mut s_id: i32 = -1;
        proof {
            assert(self.stacks_ok(level_stacks@));
        }
        while level > 0
            invariant
                *self == painted,
                painted.wf(),
                painted.dist@.len() == painted.spans@.len(),
                painted.spans@.len() <= 32766,
                n == self.spans@.len(),
                w == self.width,
                h == self.height,
                level_stacks@.len() == 8,
                -1 <= s_id < 8,
                self.stacks_ok(level_stacks@),
                self.buffers_ok(src_reg@, src_dist@),
                region_id.bits == (if border_size > 0 {
                    5int
                } else {
                    1int
                }),
                forall|i: int|
                    0 <= i < n && (#[trigger] painted.border_region(border_size, i)).bits != 0 ==> src_reg@[i]
                        == painted.border_region(border_size, i),
                painted.regions_grown(border_size, src_reg@, src_dist@),
            decreases level,
        {
            level = if level >= 2 { level - 2 } else { 0 };
            let next_id = s_id + 1;
            proof {
                assert(0 <= (next_id & 7) < 8) by (bit_vector)
                    requires
                        0 <= next_id <= 8,
                ;
            }
            s_id = next_id & 7;
            let s = s_id as usize;
            if s == 0 {
                self.sort_cells_by_level(level, &src_reg, 8, &mut level_stacks, 1);
            } else {
                let mut dst: Vec<LevelStackEntry> = Vec::new();
                std::mem::swap(&mut dst, &mut level_stacks[s]);
                append_stacks(&level_stacks[s - 1], &mut dst, &src_reg, Ghost(*self));
                std::mem::swap(&mut dst, &mut level_stacks[s]);
                proof {
                    assert forall|t: int, k: int| 0 <= t < level_stacks@.len() && 0 <= k < level_stacks@[t]@.len() implies self.entry_ok(#[trigger] level_stacks@[t]@[k]) by {
                        if t == s {
                        }
                    }
                }
            }
            let mut stack: Vec<LevelStackEntry> = Vec::new();
            std::mem::swap(&mut stack, &mut level_stacks[s]);
            let ghost reg_b = src_reg@;
            let ghost dist_b = src_dist@;
            self.expand_regions(expand_iters, level, &mut src_reg, &mut src_dist, &mut stack, false);
            proof {
                assert forall|i: int| 0 <= i < src_reg@.len() && (#[trigger] src_reg@[i]).bits != 0 implies (self.border_region(
                    border_size,
                    i,
                ) == src_reg@[i] && src_dist@[i] == 0) || self.grown_from(src_reg@, src_dist@, i) by {
                    if reg_b[i].bits != 0 {
                        assert(src_reg@[i] == reg_b[i] && src_dist@[i] == dist_b[i]);
                        if !(self.border_region(border_size, i) == reg_b[i] && dist_b[i] == 0) {
                            assert(self.grown_from(reg_b, dist_b, i));
                            let (x, z, dir) = choose|x: int, z: int, dir: u8| #[trigger] self.neighbour_grows(reg_b, dist_b, i, x, z, dir);
                            self.lemma_neighbour_in_range(x, z, i, dir);
                            let ai = self.neighbour_index(x, z, i, dir)->0;
                            assert(reg_b[ai].bits != 0);
                            assert(src_reg@[ai] == reg_b[ai] && src_dist@[ai] == dist_b[ai]);
                            assert(self.neighbour_grows(src_reg@, src_dist@, i, x, z, dir));
                        }
                    }
                }
            }
            std::mem::swap(&mut stack, &mut level_stacks[s]);
        }
        // Store the regions in the spans.
        let mut i: usize = 0;
        while i < n
            invariant
                n == painted.spans@.len(),
                n == self.spans@.len(),
                src_reg@.len() == n,
                self.width == painted.width,
                self.height == painted.height,
                self.walkable_height == painted.walkable_height,
                self.walkable_climb == painted.walkable_climb,
                self.max_distance == painted.max_distance,
                self.border_size == painted.border_size,
                self.max_region == painted.max_region,
                self.cells == painted.cells,
                self.dist == painted.dist,
                self.areas == painted.areas,
                i <= n,
                forall|j: int|
                    0 <= j < n ==> (#[trigger] self.spans@[j]).y == painted.spans@[j].y && self.spans@[j].data
                        == painted.spans@[j].data,
                forall|j: int| 0 <= j < i ==> (#[trigger] self.spans@[j]).region == src_reg@[j],
            decreases n - i,
        {
            let mut span = self.spans[i];
            span.region = src_reg[i];
            self.spans.set(i, span);
            i = i + 1;
        }
        proof {
            assert forall|i: int| 0 <= i < n implies (#[trigger] self.spans@[i]).region == painted.border_region(border_size, i) by {
                if src_reg@[i].bits != 0 {
                    painted.lemma_region_reached(border_size, src_reg@, src_dist@, i);
                    painted.lemma_reached_is_border(border_size, src_reg@, i, (src_dist@[i] / 2) as nat);
                    let b = src_reg@[i].bits;
                    assert(b & 0x8000u16 == 0x8000u16) by (bit_vector)
                        requires
                            0x8001 <= b <= 0x8004,
                    ;
                    if !(painted.border_region(border_size, i) == src_reg@[i] && src_dist@[i] == 0) {
                        assert(painted.grown_from(src_reg@, src_dist@, i));
                        let (x, z, dir) = choose|x: int, z: int, dir: u8| #[trigger] painted.neighbour_grows(src_reg@, src_dist@, i, x, z, dir);
                        assert(!src_reg@[i].spec_contains(RegionId { bits: 0x8000 }));
                    }
                }
            }
        }
        self.max_region = RegionId { bits: region_id.bits - 1 };
        self.border_size = border_size;
    }

    /// Span `i` is painted from cell `(x, z)`: it is a walkable span of it.
    pub open spec fn painted_at(&self, i: int, x: int, z: int) -> bool {
        &&& in_cell(self.cells@, x + z * self.width, i)
        &&& self.areas@[i].spec_is_walkable()
    }

    /// Span `i` is painted from a cell of columns `min_x..max_x` in a row of
    /// `min_z..z`.
    pub open spec fn painted_upto(&self, min_x: int, max_x: int, min_z: int, i: int, z: int) -> bool {
        exists|x2: int, z2: int| min_x <= x2 < max_x && min_z <= z2 < z && #[trigger] self.painted_at(i, x2, z2)
    }

    /// Span `i` is painted from a cell of row `z` in columns `min_x..x`.
    spec fn painted_in_row(&self, i: int, z: int, min_x: int, x: int) -> bool {
        exists|x2: int| min_x <= x2 < x && #[trigger] self.painted_at(i, x2, z)
    }

    /// Span `i` lies in cell `(x, z)` only, so no other cell paints it.
    proof fn lemma_painted_cells(&self, i: int, x: int, z: int)
        requires
            self.wf(),
            0 <= x < self.width,
            0 <= z < self.height,
        ensures
            forall|x2: int, z2: int|
                0 <= x2 < self.width && 0 <= z2 < self.height && (x2 != x || z2 != z) && in_cell(self.cells@, x + z * self.width, i)
                    ==> !#[trigger] self.painted_at(i, x2, z2),
    {
        assert forall|x2: int, z2: int|
            0 <= x2 < self.width && 0 <= z2 < self.height && (x2 != x || z2 != z) && in_cell(self.cells@, x + z * self.width, i)
                implies !#[trigger] self.painted_at(i, x2, z2) by {
            if self.painted_at(i, x2, z2) {
                let c1 = x + z * self.width;
                let c2 = x2 + z2 * self.width;
                assert(c1 < self.width * self.height) by (nonlinear_arith)
                    requires
                        0 <= x < self.width,
                        0 <= z < self.height,
                        c1 == x + z * self.width,
                ;
                assert(c2 < self.width * self.height) by (nonlinear_arith)
                    requires
                        0 <= x2 < self.width,
                        0 <= z2 < self.height,
                        c2 == x2 + z2 * self.width,
                ;
                assert(0 <= z * self.width) by (nonlinear_arith)
                    requires
                        0 <= z,
                ;
                assert(0 <= z2 * self.width) by (nonlinear_arith)
                    requires
                        0 <= z2,
                ;
                assert(in_cell(self.cells@, c1, i) && in_cell(self.cells@, c2, i));
                lemma_cell_coords_unique(self.width as int, x, z, x2, z2);
            }
        }
    }

    /// Finishing row `z` extends the rows before it.
    proof fn lemma_paint_row_step(&self, min_x: int, max_x: int, min_z: int, i: int, z: int)
        requires
            min_z <= z,
        ensures
            self.painted_upto(min_x, max_x, min_z, i, z + 1) == (self.painted_upto(min_x, max_x, min_z, i, z)
                || self.painted_in_row(i, z, min_x, max_x)),
    {
        if self.painted_upto(min_x, max_x, min_z, i, z) {
            let (x2, z2) = choose|x2: int, z2: int| min_x <= x2 < max_x && min_z <= z2 < z && #[trigger] self.painted_at(i, x2, z2);
            assert(self.painted_upto(min_x, max_x, min_z, i, z + 1));
        }
        if self.painted_upto(min_x, max_x, min_z, i, z + 1) {
            let (x2, z2) = choose|x2: int, z2: int| min_x <= x2 < max_x && min_z <= z2 < z + 1 && #[trigger] self.painted_at(i, x2, z2);
            if z2 < z {
                assert(self.painted_upto(min_x, max_x, min_z, i, z));
            } else {
                assert(self.painted_in_row(i, z, min_x, max_x));
            }
        }
        if self.painted_in_row(i, z, min_x, max_x) {
            let x2 = choose|x2: int| min_x <= x2 < max_x && #[trigger] self.painted_at(i, x2, z);
            assert(self.painted_upto(min_x, max_x, min_z, i, z + 1));
        }
    }

    /// Gives every walkable span of the cells `min_x..max_x` x
    /// `min_z..max_z` the region `region` in `src_reg`; every other entry
    /// keeps its region.
    fn paint_rect_region(
        &self,
        min_x: u16,
        max_x: u16,
        min_z: u16,
        max_z: u16,
        region: RegionId,
        src_reg: &mut Vec<RegionId>,
        Ghost(src_dist): Ghost<Seq<u16>>,
    )
        requires
            self.wf(),
            max_x <= self.width,
            max_z <= self.height,
            region.bits != 0,
            old(src_reg)@.len() == self.spans@.len(),
            self.buffers_ok(old(src_reg)@, src_dist),
        ensures
            final(src_reg)@.len() == old(src_reg)@.len(),
            self.buffers_ok(final(src_reg)@, src_dist),
            forall|i: int|
                0 <= i < old(src_reg)@.len() ==> #[trigger] final(src_reg)@[i] == (if self.painted_upto(
                    min_x as int,
                    max_x as int,
                    min_z as int,
                    i,
                    max_z as int,
                ) {
                    region
                } else {
                    old(src_reg)@[i]
                }),
    {
        let ghost reg0 = src_reg@;
        let mut z = min_z;
        while z < max_z
            invariant
                self.wf(),
                max_x <= self.width,
                max_z <= self.height,
                min_z <= z,
                z <= max_z || z == min_z,
                region.bits != 0,
                src_reg@.len() == self.spans@.len(),
                reg0.len() == self.spans@.len(),
                self.buffers_ok(src_reg@, src_dist),
                forall|i: int|
                    0 <= i < src_reg@.len() ==> #[trigger] src_reg@[i] == (if self.painted_upto(
                        min_x as int,
                        max_x as int,
                        min_z as int,
                        i,
                        z as int,
                    ) {
                        region
                    } else {
                        reg0[i]
                    }),
            decreases max_z - z,
        {
            let mut x = min_x;
            while x < max_x
                invariant
                    self.wf(),
                    max_x <= self.width,
                    max_z <= self.height,
                    min_z <= z < max_z,
                    min_x <= x,
                    x <= max_x || x == min_x,
                    region.bits != 0,
                    src_reg@.len() == self.spans@.len(),
                    reg0.len() == self.spans@.len(),
                    self.buffers_ok(src_reg@, src_dist),
                    forall|i: int|
                        0 <= i < src_reg@.len() ==> #[trigger] src_reg@[i] == (if self.painted_upto(
                            min_x as int,
                            max_x as int,
                            min_z as int,
                            i,
                            z as int,
                        ) || self.painted_in_row(i, z as int, min_x as int, x as int) {
                            region
                        } else {
                            reg0[i]
                        }),
                decreases max_x - x,
            {
                proof {
                    self.lemma_cell_range(x as int, z as int);
                }
                let cell = *self.cell_at(x, z);
                let max_index = cell.index as usize + cell.count as usize;
                let mut i = cell.index as usize;
                while i < max_index
                    invariant
                        self.wf(),
                        max_x <= self.width,
                        max_z <= self.height,
                        min_z <= z < max_z,
                        min_x <= x < max_x,
                        region.bits != 0,
                        src_reg@.len() == self.spans@.len(),
                        reg0.len() == self.spans@.len(),
                        self.buffers_ok(src_reg@, src_dist),
                        cell == self.cells@[x + z * self.width],
                        max_index == cell.index + cell.count,
                        max_index <= self.spans@.len(),
                        cell.index <= i,
                        forall|i2: int|
                            0 <= i2 < src_reg@.len() ==> #[trigger] src_reg@[i2] == (if self.painted_upto(
                                min_x as int,
                                max_x as int,
                                min_z as int,
                                i2,
                                z as int,
                            ) || self.painted_in_row(i2, z as int, min_x as int, x as int) || (cell.index <= i2 < i && self.painted_at(
                                i2,
                                x as int,
                                z as int,
                            )) {
                                region
                            } else {
                                reg0[i2]
                            }),
                    decreases max_index - i,
                {
                    if self.areas[i].is_walkable() {
                        proof {
                            lemma_assigned_count_update(src_reg@, i as int, region);
                        }
                        src_reg.set(i, region);
                    }
                    i = i + 1;
                }
                proof {
                    assert forall|i2: int| 0 <= i2 < src_reg@.len() implies #[trigger] src_reg@[i2] == (if self.painted_upto(
                        min_x as int,
                        max_x as int,
                        min_z as int,
                        i2,
                        z as int,
                    ) || self.painted_in_row(i2, z as int, min_x as int, x + 1) {
                        region
                    } else {
                        reg0[i2]
                    }) by {
                        self.lemma_painted_cells(i2, x as int, z as int);
                        if self.painted_in_row(i2, z as int, min_x as int, x + 1) && !self.painted_in_row(
                            i2,
                            z as int,
                            min_x as int,
                            x as int,
                        ) {
                            let x2 = choose|x2: int| min_x <= x2 < x + 1 && #[trigger] self.painted_at(i2, x2, z as int);
                            assert(x2 == x);
                        }
                        if self.painted_at(i2, x as int, z as int) {
                            assert(self.painted_in_row(i2, z as int, min_x as int, x + 1));
                        }
                    }
                }
                x = x + 1;
            }
            proof {
                assert forall|i2: int| 0 <= i2 < src_reg@.len() implies #[trigger] src_reg@[i2] == (if self.painted_upto(
                    min_x as int,
                    max_x as int,
                    min_z as int,
                    i2,
                    z + 1,
                ) {
                    region
                } else {
                    reg0[i2]
                }) by {
                    self.lemma_paint_row_step(min_x as int, max_x as int, min_z as int, i2, z as int);
                    if x != max_x {
                        assert(!self.painted_in_row(i2, z as int, min_x as int, max_x as int)) by {
                            if self.painted_in_row(i2, z as int, min_x as int, max_x as int) {
                                let x2 = choose|x2: int| min_x <= x2 < max_x && #[trigger] self.painted_at(i2, x2, z as int);
                            }
                        }
                        assert(!self.painted_in_row(i2, z as int, min_x as int, x as int)) by {
                            if self.painted_in_row(i2, z as int, min_x as int, x as int) {
                                let x2 = choose|x2: int| min_x <= x2 < x && #[trigger] self.painted_at(i2, x2, z as int);
                            }
                        }
                    }
                }
            }
            z = z + 1;
        }
        proof {
            assert forall|i: int| 0 <= i < src_reg@.len() implies #[trigger] self.painted_upto(
                min_x as int,
                max_x as int,
                min_z as int,
                i,
                z as int,
            ) == self.painted_upto(min_x as int, max_x as int, min_z as int, i, max_z as int) by {
                if z != max_z {
                    if self.painted_upto(min_x as int, max_x as int, min_z as int, i, z as int) {
                        let (x2, z2) = choose|x2: int, z2: int|
                            min_x <= x2 < max_x && min_z <= z2 < z && #[trigger] self.painted_at(i, x2, z2);
                    }
                    if self.painted_upto(min_x as int, max_x as int, min_z as int, i, max_z as int) {
                        let (x2, z2) = choose|x2: int, z2: int|
                            min_x <= x2 < max_x && min_z <= z2 < max_z && #[trigger] self.painted_at(i, x2, z2);
                    }
                }
            }
        }
    }

    /// Puts every walkable span without a region into the stack of its
    /// level, counted down from `start_level`; spans too far below go nowhere.
    fn sort_cells_by_level(
        &self,
        start_level: u16,
        src_reg: &Vec<RegionId>,
        nb_stacks: usize,
        stacks: &mut Vec<Vec<LevelStackEntry>>,
        log_levels_per_stack: u16,
    )
        requires
            self.wf(),
            self.dist@.len() == self.spans@.len(),
            src_reg@.len() == self.spans@.len(),
            old(stacks)@.len() == nb_stacks,
            log_levels_per_stack < 16,
        ensures
            final(stacks)@.len() == nb_stacks,
            self.stacks_ok(final(stacks)@),
    {
        let start_level = start_level >> log_levels_per_stack;
        let mut s: usize = 0;
        while s < nb_stacks
            invariant
                stacks@.len() == nb_stacks,
                s <= nb_stacks,
                forall|t: int| 0 <= t < s ==> (#[trigger] stacks@[t])@.len() == 0,
            decreases nb_stacks - s,
        {
            stacks.set(s, Vec::new());
            s = s + 1;
        }
        let w = self.width;
        let h = self.height;
        let mut z: u16 = 0;
        while z < h
            invariant
                self.wf(),
                self.dist@.len() == self.spans@.len(),
                src_reg@.len() == self.spans@.len(),
                stacks@.len() == nb_stacks,
                log_levels_per_stack < 16,
                w == self.width,
                h == self.height,
                z <= h,
                self.stacks_ok(stacks@),
            decreases h - z,
        {
            let mut x: u16 = 0;
            while x < w
                invariant
                    self.wf(),
                    self.dist@.len() == self.spans@.len(),
                    src_reg@.len() == self.spans@.len(),
                    stacks@.len() == nb_stacks,
                    log_levels_per_stack < 16,
                    w == self.width,
                    h == self.height,
                    z < h,
                    x <= w,
                    self.stacks_ok(stacks@),
                decreases w - x,
            {
                proof {
                    self.lemma_cell_range(x as int, z as int);
                }
                let cell = *self.cell_at(x, z);
                let max_index = cell.index as usize + cell.count as usize;
                let mut i = cell.index as usize;
                while i < max_index
                    invariant
                        self.wf(),
                        self.dist@.len() == self.spans@.len(),
                        src_reg@.len() == self.spans@.len(),
                        stacks@.len() == nb_stacks,
                        log_levels_per_stack < 16,
                        w == self.width,
                        h == self.height,
                        z < h,
                        x < w,
                        cell == self.cells@[x + z * w],
                        max_index == cell.index + cell.count,
                        max_index <= self.spans@.len(),
                        cell.index <= i,
                        self.stacks_ok(stacks@),
                    decreases max_index - i,
                {
                    if !self.areas[i].is_walkable() || src_reg[i].bits != 0 {
                        i = i + 1;
                        continue;
                    }
                    let level = self.dist[i] >> log_levels_per_stack;
                    let s_id = if start_level >= level { start_level - level } else { 0 };
                    if s_id as usize >= nb_stacks {
                        i = i + 1;
                        continue;
                    }
                    let entry = LevelStackEntry { x, z, index: Some(i) };
                    let mut target: Vec<LevelStackEntry> = Vec::new();
                    std::mem::swap(&mut target, &mut stacks[s_id as usize]);
                    target.push(entry);
                    std::mem::swap(&mut target, &mut stacks[s_id as usize]);
                    proof {
                        assert(self.entry_ok(entry));
                        assert forall|t: int, k: int| 0 <= t < stacks@.len() && 0 <= k < stacks@[t]@.len() implies self.entry_ok(#[trigger] stacks@[t]@[k]) by {
                        }
                    }
                    i = i + 1;
                }
                x = x + 1;
            }
            z = z + 1;
        }
    }
    /// Computes, for span `i` of cell `(x, z)`, the nearest border region
    /// reachable in the same area and its distance.
    fn expand_choice(
        &self,
        src_reg: &Vec<RegionId>,
        src_dist: &Vec<u16>,
        x: u16,
        z: u16,
        i: usize,
    ) -> (r: (RegionId, u16))
        requires
            self.wf(),
            self.buffers_ok(src_reg@, src_dist@),
            self.spans@.len() <= 32766,
            x < self.width,
            z < self.height,
            in_cell(self.cells@, x + z * self.width, i as int),
        ensures
            (r.0, r.1 as int) == self.choice_upto(src_reg@, src_dist@, x as int, z as int, i as int, 4),
            r.1 <= 2 * assigned_count(src_reg@) + 2 || r.1 == 0xffff,
            r.0.bits != 0 && r.1 == 0xffff ==> src_reg@[i as int].bits != 0,
    {
        let ghost c = x + z * self.width;
        proof {
            assert(c < self.width * self.height) by (nonlinear_arith)
                requires
                    x < self.width,
                    z < self.height,
                    c == x + z * self.width,
            ;
            vstd::arithmetic::div_mod::lemma_fundamental_div_mod_converse(c, self.width as int, z as int, x as int);
            lemma_assigned_count_le(src_reg@);
        }
        let mut r = src_reg[i];
        let mut d2: u16 = 0xffff;
        let area = self.areas[i];
        let span = self.spans[i];
        let mut dir: u8 = 0;
        while dir < 4
            invariant
                self.wf(),
                self.buffers_ok(src_reg@, src_dist@),
                self.spans@.len() <= 32766,
                assigned_count(src_reg@) <= src_reg@.len(),
                x < self.width,
                z < self.height,
                c == x + z * self.width,
                0 <= c < self.cells@.len(),
                c % (self.width as int) == x && c / (self.width as int) == z,
                in_cell(self.cells@, c, i as int),
                span == self.spans@[i as int],
                area == self.areas@[i as int],
                dir <= 4,
                (r, d2 as int) == self.choice_upto(src_reg@, src_dist@, x as int, z as int, i as int, dir as int),
                d2 <= 2 * assigned_count(src_reg@) + 2 || d2 == 0xffff,
                r.bits != 0 && d2 == 0xffff ==> src_reg@[i as int].bits != 0,
            decreases 4 - dir,
        {
            proof {
                assert(self.choice_upto(src_reg@, src_dist@, x as int, z as int, i as int, dir + 1) == {
                    let acc = self.choice_upto(src_reg@, src_dist@, x as int, z as int, i as int, dir as int);
                    let dd = dir as u8;
                    match self.spans@[i as int].spec_con(dd) {
                        None => acc,
                        Some(con) => {
                            let ax = x + spec_dir_offset_x(dd);
                            let az = z + spec_dir_offset_z(dd);
                            let ai = self.cells@[ax + az * self.width].index + con;
                            if self.areas@[ai] != self.areas@[i as int] {
                                acc
                            } else {
                                let ar = src_reg@[ai];
                                let ad = src_dist@[ai] + 2;
                                if ar.bits != 0 && !ar.spec_contains(RegionId { bits: 0x8000 }) && ad < acc.1 {
                                    (ar, ad)
                                } else {
                                    acc
                                }
                            }
                        },
                    }
                });
            }
            match span.con(dir) {
                None => {},
                Some(con) => {
                    proof {
                        assert(in_cell(self.cells@, c, i as int));
                        assert(self.spans@[i as int].spec_con(dir) is Some);
                    }
                    let a_x = (x as i32 + dir_offset_x(dir) as i32) as u16;
                    let a_z = (z as i32 + dir_offset_z(dir) as i32) as u16;
                    proof {
                        assert(a_x + a_z * self.width < self.width * self.height) by (nonlinear_arith)
                            requires
                                a_x < self.width,
                                a_z < self.height,
                        ;
                        assert(0 <= a_z * self.width) by (nonlinear_arith);
                    }
                    let a_index = self.cell_at(a_x, a_z).index as usize + con as usize;
                    if self.areas[a_index] != area {
                    } else {
                        let a_region = src_reg[a_index];
                        let a_dist = src_dist[a_index] + 2;
                        if a_region.bits != 0 && !a_region.contains(RegionId { bits: 0x8000 }) && a_dist < d2 {
                            r = a_region;
                            d2 = a_dist;
                        }
                    }
                },
            }
            dir = dir + 1;
        }
        (r, d2)
    }

    /// Grows the border regions into the spans of `stack` that lie in the
    /// same area, for at most `max_iter` rounds (unbounded at level 0).
    ///
    /// A span that already has a region keeps it and its distance. A span
    /// that gains one takes it from a connected neighbour of the same area,
    /// at that neighbour's distance plus two. Without `fill_stack`, every
    /// waiting span of `stack` that could grow at the start gets a region; at
    /// level 0 the rounds go on until no waiting span left in `stack` can
    /// grow.
    fn expand_regions(
        &self,
        max_iter: u16,
        level: u16,
        src_reg: &mut Vec<RegionId>,
        src_dist: &mut Vec<u16>,
        stack: &mut Vec<LevelStackEntry>,
        fill_stack: bool,
    )
        requires
            self.wf(),
            self.dist@.len() == self.spans@.len(),
            self.spans@.len() <= 32766,
            self.buffers_ok(old(src_reg)@, old(src_dist)@),
            forall|k: int| 0 <= k < old(stack)@.len() ==> self.entry_ok(#[trigger] old(stack)@[k]),
        ensures
            self.buffers_ok(final(src_reg)@, final(src_dist)@),
            forall|k: int| 0 <= k < final(stack)@.len() ==> self.entry_ok(#[trigger] final(stack)@[k]),
            forall|i: int|
                0 <= i < old(src_reg)@.len() && (#[trigger] old(src_reg)@[i]).bits != 0 ==> final(src_reg)@[i] == old(src_reg)@[i]
                    && final(src_dist)@[i] == old(src_dist)@[i],
            forall|i: int|
                0 <= i < old(src_reg)@.len() && old(src_reg)@[i].bits == 0 && (#[trigger] final(src_reg)@[i]).bits != 0
                    ==> self.grown_from(final(src_reg)@, final(src_dist)@, i),
            !fill_stack ==> forall|k: int|
                0 <= k < old(stack)@.len() && eligible(*self, old(src_reg)@, old(src_dist)@, #[trigger] old(stack)@[k])
                    ==> final(src_reg)@[old(stack)@[k].index->0 as int].bits != 0,
            level == 0 ==> forall|k: int|
                0 <= k < final(stack)@.len() ==> ((#[trigger] final(stack)@[k]).index matches Some(i) ==> (final(src_reg)@[i as int].bits == 0
                    && self.choice_upto(
                    final(src_reg)@,
                    final(src_dist)@,
                    final(stack)@[k].x as int,
                    final(stack)@[k].z as int,
                    i as int,
                    4,
                ).0.bits == 0)),
    {
        let ghost reg_in = src_reg@;
        let ghost dist_in = src_dist@;
        let ghost stack_in = stack@;
        let w = self.width;
        let h = self.height;
        if fill_stack {
            // Find cells revealed by the raised level.
            stack.clear();
            let mut z: u16 = 0;
            while z < h
                invariant
                    self.wf(),
                    self.dist@.len() == self.spans@.len(),
                    self.buffers_ok(src_reg@, src_dist@),
                    w == self.width,
                    h == self.height,
                    z <= h,
                    forall|k: int| 0 <= k < stack@.len() ==> self.entry_ok(#[trigger] stack@[k]),
                decreases h - z,
            {
                let mut x: u16 = 0;
                while x < w
                    invariant
                        self.wf(),
                        self.dist@.len() == self.spans@.len(),
                        self.buffers_ok(src_reg@, src_dist@),
                        w == self.width,
                        h == self.height,
                        z < h,
                        x <= w,
                        forall|k: int| 0 <= k < stack@.len() ==> self.entry_ok(#[trigger] stack@[k]),
                    decreases w - x,
                {
                    proof {
                        self.lemma_cell_range(x as int, z as int);
                    }
                    let cell = *self.cell_at(x, z);
                    let max_index = cell.index as usize + cell.count as usize;
                    let mut i = cell.index as usize;
                    while i < max_index
                        invariant
                            self.wf(),
                            self.dist@.len() == self.spans@.len(),
                            self.buffers_ok(src_reg@, src_dist@),
                            w == self.width,
                            h == self.height,
                            z < h,
                            x < w,
                            cell == self.cells@[x + z * w],
                            max_index == cell.index + cell.count,
                            max_index <= self.spans@.len(),
                            cell.index <= i,
                            forall|k: int| 0 <= k < stack@.len() ==> self.entry_ok(#[trigger] stack@[k]),
                        decreases max_index - i,
                    {
                        if self.dist[i] >= level && src_reg[i].bits == 0 && self.areas[i].is_walkable() {
                            let entry = LevelStackEntry { x, z, index: Some(i) };
                            proof {
                                assert(self.entry_ok(entry));
                            }
                            stack.push(entry);
                        }
                        i = i + 1;
                    }
                    x = x + 1;
                }
                z = z + 1;
            }
        }
        // Use the cells in the stack: mark all cells which already have a
        // region (after a fill, none has).
        let ghost stack_c = stack@;
        let mut k: usize = 0;
        while k < stack.len()
            invariant
                self.wf(),
                self.buffers_ok(src_reg@, src_dist@),
                k <= stack@.len(),
                forall|k2: int| 0 <= k2 < stack@.len() ==> self.entry_ok(#[trigger] stack@[k2]),
                forall|k2: int| 0 <= k2 < k ==> ((#[trigger] stack@[k2]).index matches Some(i) ==> src_reg@[i as int].bits == 0),
                keeps_waiting(stack@, stack_c, src_reg@),
            decreases stack@.len() - k,
        {
            let entry = stack[k];
            if let Some(i) = entry.index {
                proof {
                    assert(self.entry_ok(stack@[k as int]));
                    self.lemma_cell_range(entry.x as int, entry.z as int);
                }
                if src_reg[i].bits != 0 {
                    let ghost before = stack@;
                    stack.set(k, LevelStackEntry { x: entry.x, z: entry.z, index: None });
                    proof {
                        assert forall|k2: int| 0 <= k2 < stack@.len() implies {
                            &&& (#[trigger] stack@[k2]).x == stack_c[k2].x
                            &&& stack@[k2].z == stack_c[k2].z
                            &&& (stack_c[k2].index matches Some(i2) && src_reg@[i2 as int].bits == 0 ==> stack@[k2].index == stack_c[k2].index)
                        } by {
                            if k2 != k {
                                assert(stack@[k2] == before[k2]);
                            }
                        }
                    }
                }
            }
            k = k + 1;
        }
        let ghost mut first_done = false;
        let mut dirty_entries: Vec<DirtyEntry> = Vec::new();
        let mut iter: u16 = 0;
        while stack.len() > 0
            invariant_except_break
                iter == 0 || iter < max_iter,
            invariant
                self.wf(),
                self.dist@.len() == self.spans@.len(),
                self.spans@.len() <= 32766,
                self.buffers_ok(src_reg@, src_dist@),
                forall|k2: int| 0 <= k2 < stack@.len() ==> self.entry_ok(#[trigger] stack@[k2]),
                forall|k2: int| 0 <= k2 < stack@.len() ==> ((#[trigger] stack@[k2]).index matches Some(i) ==> src_reg@[i as int].bits == 0),
                reg_in.len() == src_reg@.len(),
                forall|j: int|
                    0 <= j < reg_in.len() && (#[trigger] reg_in[j]).bits != 0 ==> src_reg@[j] == reg_in[j] && src_dist@[j] == dist_in[j],
                forall|j: int|
                    0 <= j < reg_in.len() && reg_in[j].bits == 0 && (#[trigger] src_reg@[j]).bits != 0 ==> self.grown_from(
                        src_reg@,
                        src_dist@,
                        j,
                    ),
                !first_done ==> src_reg@ == reg_in && src_dist@ == dist_in,
                forall|k2: int| 0 <= k2 < stack_in.len() ==> self.entry_ok(#[trigger] stack_in[k2]),
                !first_done && !fill_stack ==> keeps_waiting(stack@, stack_in, reg_in),
                first_done && !fill_stack ==> forall|k2: int|
                    0 <= k2 < stack_in.len() && eligible(*self, reg_in, dist_in, #[trigger] stack_in[k2]) ==> src_reg@[stack_in[k2].index->0 as int].bits
                        != 0,
            ensures
                !fill_stack ==> forall|k2: int|
                    0 <= k2 < stack_in.len() && eligible(*self, reg_in, dist_in, #[trigger] stack_in[k2]) ==> src_reg@[stack_in[k2].index->0 as int].bits
                        != 0,
                forall|j: int|
                    0 <= j < reg_in.len() && reg_in[j].bits == 0 && (#[trigger] src_reg@[j]).bits != 0 ==> self.grown_from(
                        src_reg@,
                        src_dist@,
                        j,
                    ),
                self.buffers_ok(src_reg@, src_dist@),
                forall|k2: int| 0 <= k2 < stack@.len() ==> self.entry_ok(#[trigger] stack@[k2]),
                forall|j: int|
                    0 <= j < reg_in.len() && (#[trigger] reg_in[j]).bits != 0 ==> src_reg@[j] == reg_in[j] && src_dist@[j] == dist_in[j],
                level == 0 ==> forall|k2: int|
                    0 <= k2 < stack@.len() ==> ((#[trigger] stack@[k2]).index matches Some(i) ==> (src_reg@[i as int].bits == 0
                        && self.choice_upto(src_reg@, src_dist@, stack@[k2].x as int, stack@[k2].z as int, i as int, 4).0.bits == 0)),
            decreases some_count(stack@),
        {
            let ghost reg0 = src_reg@;
            let ghost dist0 = src_dist@;
            let ghost stack0 = stack@;
            let mut failed: usize = 0;
            dirty_entries.clear();
            let mut k: usize = 0;
            while k < stack.len()
                invariant
                    self.wf(),
                    self.spans@.len() <= 32766,
                    self.buffers_ok(src_reg@, src_dist@),
                    src_reg@ == reg0,
                    src_dist@ == dist0,
                    stack@.len() == stack0.len(),
                    k <= stack@.len(),
                    failed + dirty_entries@.len() == k,
                    forall|k2: int| 0 <= k2 < stack0.len() ==> self.entry_ok(#[trigger] stack0[k2]),
                    forall|k2: int| 0 <= k2 < stack0.len() ==> ((#[trigger] stack0[k2]).index matches Some(i) ==> reg0[i as int].bits == 0),
                    forall|k2: int| k <= k2 < stack@.len() ==> #[trigger] stack@[k2] == stack0[k2],
                    forall|k2: int|
                        0 <= k2 < k ==> (#[trigger] stack@[k2]).x == stack0[k2].x && stack@[k2].z == stack0[k2].z
                            && (stack@[k2].index is Some ==> stack@[k2].index == stack0[k2].index && self.choice_upto(
                            reg0,
                            dist0,
                            stack0[k2].x as int,
                            stack0[k2].z as int,
                            stack0[k2].index->0 as int,
                            4,
                        ).0.bits == 0),
                    some_count(stack@) + dirty_entries@.len() == some_count(stack0),
                    forall|k2: int|
                        0 <= k2 < k && eligible(*self, reg0, dist0, #[trigger] stack0[k2]) ==> exists|t2: int|
                            0 <= t2 < dirty_entries@.len() && (#[trigger] dirty_entries@[t2]).index == stack0[k2].index->0,
                    forall|t: int|
                        0 <= t < dirty_entries@.len() ==> {
                            &&& (#[trigger] dirty_entries@[t]).region.bits != 0
                            &&& dirty_entries@[t].distance2 <= 2 * assigned_count(reg0) + 2
                            &&& dirty_entries@[t].index < reg0.len()
                            &&& exists|k2: int|
                                0 <= k2 < k && stack0[k2].index == Some(dirty_entries@[t].index) && self.choice_upto(
                                    reg0,
                                    dist0,
                                    stack0[k2].x as int,
                                    stack0[k2].z as int,
                                    dirty_entries@[t].index as int,
                                    4,
                                ) == (dirty_entries@[t].region, dirty_entries@[t].distance2 as int)
                        },
                decreases stack@.len() - k,
            {
                let entry = stack[k];
                match entry.index {
                    None => {
                        failed += 1;
                    },
                    Some(i) => {
                        proof {
                            assert(self.entry_ok(stack0[k as int]));
                            self.lemma_cell_range(entry.x as int, entry.z as int);
                        }
                        let (r, d2) = self.expand_choice(src_reg, src_dist, entry.x, entry.z, i);
                        if r.bits != 0 {
                            // Mark as used
                            proof {
                                assert(reg0[i as int].bits == 0);
                                lemma_some_count_update(stack@, k as int, LevelStackEntry { x: entry.x, z: entry.z, index: None });
                                assert(i < reg0.len());
                            }
                            let ghost old_dirty = dirty_entries@;
                            stack.set(k, LevelStackEntry { x: entry.x, z: entry.z, index: None });
                            dirty_entries.push(DirtyEntry { index: i, region: r, distance2: d2 });
                            proof {
                                assert forall|t: int| 0 <= t < dirty_entries@.len() implies {
                                    &&& (#[trigger] dirty_entries@[t]).region.bits != 0
                                    &&& dirty_entries@[t].distance2 <= 2 * assigned_count(reg0) + 2
                                    &&& dirty_entries@[t].index < reg0.len()
                                    &&& exists|k2: int|
                                        0 <= k2 < k + 1 && stack0[k2].index == Some(dirty_entries@[t].index) && self.choice_upto(
                                            reg0,
                                            dist0,
                                            stack0[k2].x as int,
                                            stack0[k2].z as int,
                                            dirty_entries@[t].index as int,
                                            4,
                                        ) == (dirty_entries@[t].region, dirty_entries@[t].distance2 as int)
                                } by {
                                    if t < old_dirty.len() {
                                        assert(dirty_entries@[t] == old_dirty[t]);
                                    } else {
                                        assert(stack0[k as int].index == Some(i));
                                    }
                                }
                                assert forall|k2: int|
                                    0 <= k2 < k + 1 && eligible(*self, reg0, dist0, #[trigger] stack0[k2]) implies exists|t2: int|
                                        0 <= t2 < dirty_entries@.len() && (#[trigger] dirty_entries@[t2]).index == stack0[k2].index->0 by {
                                    if k2 < k {
                                        let t3 = choose|t3: int|
                                            0 <= t3 < old_dirty.len() && (#[trigger] old_dirty[t3]).index == stack0[k2].index->0;
                                        assert(dirty_entries@[t3] == old_dirty[t3]);
                                    } else {
                                        assert(dirty_entries@[old_dirty.len() as int].index == i);
                                    }
                                }
                            }
                        } else {
                            failed += 1;
                        }
                    },
                }
                k = k + 1;
            }
            // Copy entries that differ between src and dst to keep them in sync.
            let ghost stack_a = stack@;
            proof {
                assert forall|t2: int| 0 <= t2 < dirty_entries@.len() implies reg0[(#[trigger] dirty_entries@[t2]).index as int].bits
                    == 0 by {
                    let k3 = choose|k3: int|
                        0 <= k3 < k && stack0[k3].index == Some(dirty_entries@[t2].index) && self.choice_upto(
                            reg0,
                            dist0,
                            stack0[k3].x as int,
                            stack0[k3].z as int,
                            dirty_entries@[t2].index as int,
                            4,
                        ) == (dirty_entries@[t2].region, dirty_entries@[t2].distance2 as int);
                    assert(stack0[k3].index matches Some(i) ==> reg0[i as int].bits == 0);
                }
                assert forall|t2: int| 0 <= t2 < dirty_entries@.len() implies self.dirty_ok(reg0, dist0, #[trigger] dirty_entries@[t2]) by {
                    let k3 = choose|k3: int|
                        0 <= k3 < k && stack0[k3].index == Some(dirty_entries@[t2].index) && self.choice_upto(
                            reg0,
                            dist0,
                            stack0[k3].x as int,
                            stack0[k3].z as int,
                            dirty_entries@[t2].index as int,
                            4,
                        ) == (dirty_entries@[t2].region, dirty_entries@[t2].distance2 as int);
                    assert(self.entry_ok(stack0[k3]));
                    assert(in_cell(self.cells@, stack0[k3].x + stack0[k3].z * self.width, dirty_entries@[t2].index as int));
                }
                lemma_assigned_count_le(reg0);
                assert forall|k2: int, t: int|
                    0 <= k2 < stack@.len() && 0 <= t < dirty_entries@.len() && (#[trigger] stack@[k2]).index is Some implies stack@[k2].index->0
                    != (#[trigger] dirty_entries@[t]).index by {
                    let i = stack@[k2].index->0;
                    if i == dirty_entries@[t].index {
                        let k3 = choose|k3: int|
                            0 <= k3 < stack0.len() && stack0[k3].index == Some(dirty_entries@[t].index) && self.choice_upto(
                                reg0,
                                dist0,
                                stack0[k3].x as int,
                                stack0[k3].z as int,
                                dirty_entries@[t].index as int,
                                4,
                            ) == (dirty_entries@[t].region, dirty_entries@[t].distance2 as int);
                        assert(self.entry_ok(stack0[k2]));
                        assert(self.entry_ok(stack0[k3]));
                        let c2 = stack0[k2].x + stack0[k2].z * self.width;
                        let c3 = stack0[k3].x + stack0[k3].z * self.width;
                        assert(c2 < self.cells@.len()) by (nonlinear_arith)
                            requires
                                stack0[k2].x < self.width,
                                stack0[k2].z < self.height,
                                c2 == stack0[k2].x + stack0[k2].z * self.width,
                                self.cells@.len() == self.width * self.height,
                        ;
                        assert(c3 < self.cells@.len()) by (nonlinear_arith)
                            requires
                                stack0[k3].x < self.width,
                                stack0[k3].z < self.height,
                                c3 == stack0[k3].x + stack0[k3].z * self.width,
                                self.cells@.len() == self.width * self.height,
                        ;
                        assert(0 <= stack0[k2].z * self.width) by (nonlinear_arith);
                        assert(0 <= stack0[k3].z * self.width) by (nonlinear_arith);
                        assert(in_cell(self.cells@, c2, i as int));
                        assert(in_cell(self.cells@, c3, i as int));
                        assert(c2 == c3);
                        lemma_cell_coords_unique(self.width as int, stack0[k2].x as int, stack0[k2].z as int, stack0[k3].x as int, stack0[k3].z as int);
                    }
                }
            }
            let ghost n_dirty = dirty_entries@.len();
            let mut t: usize = 0;
            while t < dirty_entries.len()
                invariant
                    self.wf(),
                    t <= dirty_entries@.len(),
                    n_dirty == dirty_entries@.len(),
                    src_reg@.len() == self.spans@.len(),
                    src_dist@.len() == self.spans@.len(),
                    reg0.len() == self.spans@.len(),
                    assigned_count(reg0) <= reg0.len(),
                    forall|j: int| 0 <= j < dist0.len() ==> #[trigger] dist0[j] <= 2 * assigned_count(reg0),
                    t > 0 ==> assigned_count(src_reg@) >= assigned_count(reg0) + 1,
                    t == 0 ==> src_reg@ == reg0 && src_dist@ == dist0,
                    forall|j: int| 0 <= j < src_dist@.len() ==> #[trigger] src_dist@[j] <= 2 * assigned_count(reg0) + 2,
                    forall|t2: int|
                        0 <= t2 < dirty_entries@.len() ==> {
                            &&& (#[trigger] dirty_entries@[t2]).region.bits != 0
                            &&& dirty_entries@[t2].distance2 <= 2 * assigned_count(reg0) + 2
                            &&& dirty_entries@[t2].index < reg0.len()
                        },
                    forall|k2: int| 0 <= k2 < stack@.len() ==> self.entry_ok(#[trigger] stack@[k2]),
                    forall|k2: int| 0 <= k2 < stack@.len() ==> ((#[trigger] stack@[k2]).index matches Some(i) ==> src_reg@[i as int].bits == 0),
                    forall|k2: int, t2: int|
                        0 <= k2 < stack@.len() && 0 <= t2 < dirty_entries@.len() && (#[trigger] stack@[k2]).index is Some ==> stack@[k2].index->0
                            != (#[trigger] dirty_entries@[t2]).index,
                    t == 0 && n_dirty > 0 ==> src_reg@[dirty_entries@[0].index as int].bits == 0,
                    forall|t2: int| 0 <= t2 < dirty_entries@.len() ==> reg0[(#[trigger] dirty_entries@[t2]).index as int].bits == 0,
                    forall|j: int|
                        0 <= j < reg0.len() && (#[trigger] reg0[j]).bits != 0 ==> src_reg@[j] == reg0[j] && src_dist@[j] == dist0[j],
                    forall|t2: int| 0 <= t2 < dirty_entries@.len() ==> self.dirty_ok(reg0, dist0, #[trigger] dirty_entries@[t2]),
                    forall|t2: int| 0 <= t2 < t ==> src_reg@[(#[trigger] dirty_entries@[t2]).index as int].bits != 0,
                    forall|j: int|
                        0 <= j < reg0.len() ==> #[trigger] written_or_same(reg0, dist0, src_reg@, src_dist@, dirty_entries@, t as int, j),
                    forall|k2: int|
                        0 <= k2 < stack0.len() && eligible(*self, reg0, dist0, #[trigger] stack0[k2]) ==> exists|t2: int|
                            0 <= t2 < dirty_entries@.len() && (#[trigger] dirty_entries@[t2]).index == stack0[k2].index->0,
                    !first_done ==> reg0 == reg_in && dist0 == dist_in,
                    forall|k2: int| 0 <= k2 < stack_in.len() ==> self.entry_ok(#[trigger] stack_in[k2]),
                    !first_done && !fill_stack ==> keeps_waiting(stack0, stack_in, reg_in),
                    first_done && !fill_stack ==> forall|k2: int|
                        0 <= k2 < stack_in.len() && eligible(*self, reg_in, dist_in, #[trigger] stack_in[k2]) ==> reg0[stack_in[k2].index->0 as int].bits
                            != 0,
                decreases dirty_entries@.len() - t,
            {
                let dirty_entry = dirty_entries[t];
                let index = dirty_entry.index;
                let ghost reg_before = src_reg@;
                proof {
                    lemma_assigned_count_update(src_reg@, index as int, dirty_entry.region);
                }
                let ghost dist_before = src_dist@;
                src_reg.set(index, dirty_entry.region);
                src_dist.set(index, dirty_entry.distance2);
                proof {
                    assert forall|j: int| 0 <= j < reg0.len() implies #[trigger] written_or_same(
                        reg0,
                        dist0,
                        src_reg@,
                        src_dist@,
                        dirty_entries@,
                        t + 1,
                        j,
                    ) by {
                        if j == index {
                            assert(dirty_entries@[t as int].index == j);
                        } else {
                            assert(src_reg@[j] == reg_before[j] && src_dist@[j] == dist_before[j]);
                            assert(written_or_same(reg0, dist0, reg_before, dist_before, dirty_entries@, t as int, j));
                            if !(reg_before[j] == reg0[j] && dist_before[j] == dist0[j]) {
                                let t3 = choose|t3: int|
                                    0 <= t3 < t && (#[trigger] dirty_entries@[t3]).index == j && reg_before[j] == dirty_entries@[t3].region
                                        && dist_before[j] == dirty_entries@[t3].distance2;
                                assert(dirty_entries@[t3].index == j);
                            }
                        }
                    }
                    assert forall|t2: int| 0 <= t2 < t + 1 implies src_reg@[(#[trigger] dirty_entries@[t2]).index as int].bits != 0 by {
                        if dirty_entries@[t2].index != index {
                            assert(src_reg@[dirty_entries@[t2].index as int] == reg_before[dirty_entries@[t2].index as int]);
                        }
                    }
                    assert forall|k2: int| 0 <= k2 < stack@.len() implies ((#[trigger] stack@[k2]).index matches Some(
                        i,
                    ) ==> src_reg@[i as int].bits == 0) by {
                        if stack@[k2].index is Some {
                            assert(self.entry_ok(stack@[k2]));
                            assert(stack@[k2].index->0 != dirty_entries@[t as int].index);
                            assert(reg_before[stack@[k2].index->0 as int].bits == 0);
                        }
                    }
                }
                t = t + 1;
            }
            proof {
                if !fill_stack {
                    assert forall|k2: int|
                        0 <= k2 < stack_in.len() && eligible(*self, reg_in, dist_in, #[trigger] stack_in[k2]) implies src_reg@[stack_in[k2].index->0 as int].bits
                            != 0 by {
                        let i = stack_in[k2].index->0;
                        if first_done {
                            assert(self.entry_ok(stack_in[k2]));
                            assert(reg0[i as int].bits != 0);
                        } else {
                            assert(stack0[k2].index == stack_in[k2].index);
                            assert(stack0[k2].x == stack_in[k2].x && stack0[k2].z == stack_in[k2].z);
                            assert(eligible(*self, reg0, dist0, stack0[k2]));
                            let t3 = choose|t3: int|
                                0 <= t3 < dirty_entries@.len() && (#[trigger] dirty_entries@[t3]).index == stack0[k2].index->0;
                            assert(src_reg@[dirty_entries@[t3].index as int].bits != 0);
                        }
                    }
                }
                first_done = true;
                self.lemma_round_grows(reg_in, reg0, dist0, src_reg@, src_dist@, dirty_entries@);
                if n_dirty > 0 {
                    assert forall|j: int| 0 <= j < src_dist@.len() implies #[trigger] src_dist@[j] <= 2 * assigned_count(src_reg@) by {
                    }
                }
                lemma_assigned_count_le(src_reg@);
            }
            if failed == stack.len() {
                proof {
                    assert(n_dirty == 0);
                    assert forall|k2: int| 0 <= k2 < stack@.len() implies ((#[trigger] stack@[k2]).index matches Some(i) ==> (
                    src_reg@[i as int].bits == 0 && self.choice_upto(
                        src_reg@,
                        src_dist@,
                        stack@[k2].x as int,
                        stack@[k2].z as int,
                        i as int,
                        4,
                    ).0.bits == 0)) by {
                        if stack@[k2].index is Some {
                            assert(stack@[k2].x == stack0[k2].x && stack@[k2].z == stack0[k2].z);
                        }
                    }
                }
                break;
            }
            if level > 0 {
                iter += 1;
                if iter >= max_iter {
                    break;
                }
            }
        }
    }
}

/// The first `k` entries of `src` that hold a span still without a region
/// in `reg`, in order.
spec fn waiting(src: Seq<LevelStackEntry>, reg: Seq<RegionId>, k: int) -> Seq<LevelStackEntry>
    decreases k,
{
    if k <= 0 {
        Seq::empty()
    } else {
        let prev = waiting(src, reg, k - 1);
        let e = src[k - 1];
        if e.index matches Some(i) && reg[i as int].bits == 0 {
            prev.push(e)
        } else {
            prev
        }
    }
}

/// Appends the entries of `src_stack` that still wait for a region.
fn append_stacks(
    src_stack: &Vec<LevelStackEntry>,
    dst_stack: &mut Vec<LevelStackEntry>,
    src_region: &Vec<RegionId>,
    Ghost(chf): Ghost<CompactHeightfield>,
)
    requires
        src_region@.len() == chf.spans@.len(),
        chf.wf(),
        forall|k: int| 0 <= k < src_stack@.len() ==> chf.entry_ok(#[trigger] src_stack@[k]),
        forall|k: int| 0 <= k < old(dst_stack)@.len() ==> chf.entry_ok(#[trigger] old(dst_stack)@[k]),
    ensures
        forall|k: int| 0 <= k < final(dst_stack)@.len() ==> chf.entry_ok(#[trigger] final(dst_stack)@[k]),
        final(dst_stack)@ == old(dst_stack)@ + waiting(src_stack@, src_region@, src_stack@.len() as int),
{
    let ghost dst0 = dst_stack@;
    let mut k: usize = 0;
    while k < src_stack.len()
        invariant
            src_region@.len() == chf.spans@.len(),
            chf.wf(),
            forall|k: int| 0 <= k < src_stack@.len() ==> chf.entry_ok(#[trigger] src_stack@[k]),
            forall|k: int| 0 <= k < dst_stack@.len() ==> chf.entry_ok(#[trigger] dst_stack@[k]),
            k <= src_stack@.len(),
            dst_stack@ == dst0 + waiting(src_stack@, src_region@, k as int),
        decreases src_stack@.len() - k,
    {
        let entry = src_stack[k];
        if let Some(i) = entry.index {
            proof {
                assert(chf.entry_ok(src_stack@[k as int]));
                assert(chf.cells@[entry.x + entry.z * chf.width].index + chf.cells@[entry.x + entry.z * chf.width].count <= chf.spans@.len()) by {
                    assert(entry.x + entry.z * chf.width < chf.width * chf.height) by (nonlinear_arith)
                        requires
                            entry.x < chf.width,
                            entry.z < chf.height,
                    ;
                    assert(0 <= entry.z * chf.width) by (nonlinear_arith);
                }
            }
            if src_region[i].bits == 0 {
                dst_stack.push(entry);
                proof {
                    assert(dst_stack@ =~= dst0 + waiting(src_stack@, src_region@, k + 1));
                }
            }
        }
        k = k + 1;
    }
}

} // verus!
