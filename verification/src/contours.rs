//! Region contours of a compact heightfield.

use vstd::prelude::*;
use crate::area::AreaType;
use crate::compact_heightfield::{CompactHeightfield, in_cell};
use crate::math::{dir_offset_x, dir_offset_z, spec_dir_offset_x, spec_dir_offset_z};
use crate::polygon::MeshVertex;
use crate::region::RegionId;

verus! {

/// Represents a simple, non-overlapping contour in field space.
#[derive(Debug, Clone, PartialEq)]
pub struct Contour {
    /// Simplified contour vertices, each with its connection data.
    pub vertices: Vec<(MeshVertex, usize)>,
    /// Raw contour vertices, each with its connection data.
    pub raw_vertices: Vec<(MeshVertex, usize)>,
    /// Region ID of the contour.
    pub region: RegionId,
    /// Area type of the contour.
    pub area: AreaType,
}

impl Contour {
    /// A contour without vertices, in the null region and the null area.
    pub fn empty() -> (r: Contour)
        ensures
            r.vertices@.len() == 0,
            r.raw_vertices@.len() == 0,
            r.region.bits == 0,
            r.area.0 == 0,
    {
        Contour { vertices: Vec::new(), raw_vertices: Vec::new(), region: RegionId { bits: 0 }, area: AreaType(0) }
    }
}

/// Represents a group of related contours.
#[derive(Debug, Clone, PartialEq)]
pub struct ContourSet {
    /// The contours in the set.
    pub contours: Vec<Contour>,
    /// The width of the set. (Along the x-axis in cell units.)
    pub width: u16,
    /// The height of the set. (Along the z-axis in cell units.)
    pub height: u16,
    /// The AABB border size used to generate the source data from which the
    /// contours were derived.
    pub border_size: u16,
}

/// Contour build flags used in
/// [`CompactHeightfield::build_contours`](crate::compact_heightfield::CompactHeightfield::build_contours).
#[derive(Debug, Clone, Copy, PartialEq, Eq, Hash, Structural)]
pub struct BuildContoursFlags {
    /// The raw bits of the flags.
    pub bits: u8,
}

impl BuildContoursFlags {
    /// Tessellate solid (impassable) edges during contour simplification.
    pub fn tessellate_solid_wall_edges() -> (r: BuildContoursFlags)
        ensures
            r.bits == 1,
    {
        BuildContoursFlags { bits: 1 }
    }

    /// Tessellate edges between areas during contour simplification.
    pub fn tessellate_area_edges() -> (r: BuildContoursFlags)
        ensures
            r.bits == 2,
    {
        BuildContoursFlags { bits: 2 }
    }

    /// Default flags for building contours: tessellate solid wall edges.
    pub fn default_flags() -> (r: BuildContoursFlags)
        ensures
            r.bits == 1,
    {
        BuildContoursFlags { bits: 1 }
    }

    /// Whether all flags of `other` are set in `self`.
    pub fn contains(self, other: BuildContoursFlags) -> (r: bool)
        ensures
            r == (self.bits & other.bits == other.bits),
    {
        self.bits & other.bits == other.bits
    }

    /// The flags of both.
    pub fn union(self, other: BuildContoursFlags) -> (r: BuildContoursFlags)
        ensures
            r.bits == self.bits | other.bits,
    {
        BuildContoursFlags { bits: self.bits | other.bits }
    }
}

impl Default for BuildContoursFlags {
    fn default() -> (r: BuildContoursFlags)
        ensures
            r.bits == 1,
    {
        BuildContoursFlags::default_flags()
    }
}

/// The region id of a contour vertex, with flags above the 16 region bits.
#[derive(Debug, Clone, Copy, PartialEq, Eq, Hash, Structural)]
pub struct RegionVertexId {
    /// The raw bits.
    pub bits: u32,
}

impl RegionVertexId {
    /// No region.
    pub fn none() -> (r: RegionVertexId)
        ensures
            r.bits == 0,
    {
        RegionVertexId { bits: 0 }
    }

    /// Extracts the region id from the field.
    pub fn region_mask() -> (r: RegionVertexId)
        ensures
            r.bits == 0xffff,
    {
        RegionVertexId { bits: 0xffff }
    }

    /// The vertex lies on a tile border and is removed later, so that the
    /// segments and vertices at tile boundaries match.
    pub fn border_vertex() -> (r: RegionVertexId)
        ensures
            r.bits == 0x10000,
    {
        RegionVertexId { bits: 0x10000 }
    }

    /// The vertex lies on the border of an area.
    pub fn area_border() -> (r: RegionVertexId)
        ensures
            r.bits == 0x20000,
    {
        RegionVertexId { bits: 0x20000 }
    }

    /// The id of a region, with no flags.
    pub fn from_region(region: RegionId) -> (r: RegionVertexId)
        ensures
            r.bits == region.bits as u32,
    {
        RegionVertexId { bits: region.bits as u32 }
    }

    /// The region id held in the low 16 bits.
    pub fn region(self) -> (r: RegionId)
        ensures
            r.bits == self.bits & 0xffff,
    {
        let b = self.bits;
        proof {
            assert(b & 0xffff <= 0xffff) by (bit_vector);
        }
        RegionId { bits: (b & 0xffff) as u16 }
    }

    /// Whether all bits of `other` are set in `self`.
    pub fn contains(self, other: RegionVertexId) -> (r: bool)
        ensures
            r == (self.bits & other.bits == other.bits),
    {
        self.bits & other.bits == other.bits
    }

    /// The bits of both.
    pub fn union(self, other: RegionVertexId) -> (r: RegionVertexId)
        ensures
            r.bits == self.bits | other.bits,
    {
        RegionVertexId { bits: self.bits | other.bits }
    }
}

/// Law: the region of a vertex id made from a region, with any of the
/// vertex flags above the region bits added, is that region again.
pub proof fn law_region_round_trip(region: RegionId, flags: u32)
    requires
        flags & 0xffff == 0,
    ensures
        ((region.bits as u32) | flags) & 0xffff == region.bits as u32,
{
    let b = region.bits as u32;
    assert(b <= 0xffff);
    assert(b <= 0xffff && flags & 0xffff == 0 ==> (b | flags) & 0xffff == b) by (bit_vector);
}

/// The larger of two heights.
pub open spec fn max_u16(a: u16, b: u16) -> u16 {
    if a >= b {
        a
    } else {
        b
    }
}

/// The corner seen from one of its four cells, with the region codes of the
/// cells around it: a border vertex has two exterior cells of the same
/// border region in a row, followed by two interior cells of one area, and
/// none of the four is the null code.
pub open spec fn border_corner(a: u32, b: u32, c: u32, d: u32) -> bool {
    &&& a == b
    &&& a & 0x8000 == 0x8000
    &&& (c | d) & 0x8000 != 0x8000
    &&& (c >> 16u32) == (d >> 16u32)
    &&& a != 0 && b != 0 && c != 0 && d != 0
}

/// Any rotation of the four region codes around a corner makes it a border
/// vertex.
pub open spec fn is_border_corner(regs: Seq<u32>) -> bool {
    ||| border_corner(regs[0], regs[1], regs[2], regs[3])
    ||| border_corner(regs[1], regs[2], regs[3], regs[0])
    ||| border_corner(regs[2], regs[3], regs[0], regs[1])
    ||| border_corner(regs[3], regs[0], regs[1], regs[2])
}

/// Checks one rotation of the corner's region codes.
fn border_corner_at(a: u32, b: u32, c: u32, d: u32) -> (r: bool)
    ensures
        r == border_corner(a, b, c, d),
{
    let two_same_exts = a == b && a & 0x8000 == 0x8000;
    let two_ints = (c | d) & 0x8000 != 0x8000;
    let ints_same_area = (c >> 16u32) == (d >> 16u32);
    let no_zeros = a != 0 && b != 0 && c != 0 && d != 0;
    two_same_exts && two_ints && no_zeros && ints_same_area
}

impl CompactHeightfield {
    /// The cell and span that the connection `con` of a span of cell
    /// `(x, z)` leads to in direction `dir`.
    pub open spec fn neighbour_of(&self, x: int, z: int, dir: u8, con: u8) -> (int, int, int) {
        let ax = x + spec_dir_offset_x(dir);
        let az = z + spec_dir_offset_z(dir);
        (ax, az, self.cells@[ax + az * self.width].index + con)
    }

    /// The region and area of span `i` combined in one code: the region in
    /// the low 16 bits, the area above.
    pub open spec fn reg_code(&self, i: int) -> u32 {
        (self.spans@[i].region.bits as u32) | ((self.areas@[i].0 as u32) << 16u32)
    }

    /// Span `i` lies in cell `(x, z)` of the grid.
    pub open spec fn span_in_cell(&self, x: int, z: int, i: int) -> bool {
        &&& 0 <= x < self.width
        &&& 0 <= z < self.height
        &&& in_cell(self.cells@, x + z * self.width, i)
    }

    /// The height of the corner of span `i` of cell `(x, z)` between
    /// directions `dir` and `(dir + 1) % 4`, and the region codes of the
    /// four cells around it, as far as the connections reach.
    pub open spec fn corner_state(&self, x: int, z: int, i: int, dir: u8) -> (u16, Seq<u32>) {
        let s = self.spans@[i];
        let dir_p = ((dir + 1) % 4) as u8;
        let st0 = (s.y, seq![self.reg_code(i), 0u32, 0u32, 0u32]);
        let st1 = match s.spec_con(dir) {
            None => st0,
            Some(con) => {
                let n = self.neighbour_of(x, z, dir, con);
                let st = (max_u16(st0.0, self.spans@[n.2].y), st0.1.update(1, self.reg_code(n.2)));
                match self.spans@[n.2].spec_con(dir_p) {
                    None => st,
                    Some(con2) => {
                        let m = self.neighbour_of(n.0, n.1, dir_p, con2);
                        (max_u16(st.0, self.spans@[m.2].y), st.1.update(2, self.reg_code(m.2)))
                    },
                }
            },
        };
        match s.spec_con(dir_p) {
            None => st1,
            Some(con) => {
                let n = self.neighbour_of(x, z, dir_p, con);
                let st = (max_u16(st1.0, self.spans@[n.2].y), st1.1.update(3, self.reg_code(n.2)));
                match self.spans@[n.2].spec_con(dir) {
                    None => st,
                    Some(con2) => {
                        let m = self.neighbour_of(n.0, n.1, dir, con2);
                        (max_u16(st.0, self.spans@[m.2].y), st.1.update(2, self.reg_code(m.2)))
                    },
                }
            },
        }
    }

    /// The cell and span that the connection `con` of span `i` of cell
    /// `(x, z)` leads to in direction `dir`.
    pub(crate) fn con_indices(&self, x: u16, z: u16, i: usize, dir: u8, con: u8) -> (r: (u16, u16, usize))
        requires
            self.wf(),
            self.span_in_cell(x as int, z as int, i as int),
            dir < 4,
            self.spans@[i as int].spec_con(dir) == Some(con),
        ensures
            (r.0 as int, r.1 as int, r.2 as int) == self.neighbour_of(x as int, z as int, dir, con),
            self.span_in_cell(r.0 as int, r.1 as int, r.2 as int),
            r.2 < self.spans@.len(),
    {
        let ghost c = x + z * self.width;
        proof {
            assert(c < self.width * self.height) by (nonlinear_arith)
                requires
                    x < self.width,
                    z < self.height,
                    c == x + z * self.width,
            ;
            vstd::arithmetic::div_mod::lemma_fundamental_div_mod_converse(c, self.width as int, z as int, x as int);
            assert(in_cell(self.cells@, c, i as int));
        }
        let a_x = (x as i32 + dir_offset_x(dir) as i32) as u16;
        let a_z = (z as i32 + dir_offset_z(dir) as i32) as u16;
        proof {
            assert(a_x + a_z * self.width < self.width * self.height) by (nonlinear_arith)
                requires
                    a_x < self.width,
                    a_z < self.height,
            ;
            assert(0 <= a_z * self.width) by (nonlinear_arith);
            assert(self.spans.len() == self.spans@.len());
        }
        let a_i = self.cell_at(a_x, a_z).index as usize + con as usize;
        (a_x, a_z, a_i)
    }

    /// The height of the corner of span `i` of cell `(x, z)` between
    /// direction `dir` and the next one, and whether it is a border vertex
    /// (removed later, so that tile borders match).
    ///
    /// The height is the highest of the spans around the corner; the region
    /// and area codes of the four cells around it decide the border test.
    /// The next direction is `(dir + 1) % 4`.
    pub fn get_corner_height(&self, x: u16, z: u16, i: usize, dir: u8) -> (r: (u16, bool))
        requires
            self.wf(),
            self.span_in_cell(x as int, z as int, i as int),
            dir < 4,
        ensures
            r.0 == self.corner_state(x as int, z as int, i as int, dir).0,
            r.1 == is_border_corner(self.corner_state(x as int, z as int, i as int, dir).1),
    {
        proof {
            assert(i < self.spans@.len()) by {
                let c = x + z * self.width;
                assert(c < self.width * self.height) by (nonlinear_arith)
                    requires
                        x < self.width,
                        z < self.height,
                        c == x + z * self.width,
                ;
                assert(0 <= z * self.width) by (nonlinear_arith);
            }
        }
        let s = self.spans[i];
        let mut ch = s.y;
        let dir_p = (dir + 1) % 4;
        // Combine region and area codes in order to prevent
        // border vertices which are in between two areas to be removed.
        let mut r0: u32 = self.spans[i].region.bits as u32 | ((self.areas[i].0 as u32) << 16u32);
        let mut r1: u32 = 0;
        let mut r2: u32 = 0;
        let mut r3: u32 = 0;
        if let Some(con) = s.con(dir) {
            let (a_x, a_z, a_i) = self.con_indices(x, z, i, dir, con);
            let a_s = self.spans[a_i];
            if a_s.y > ch {
                ch = a_s.y;
            }
            r1 = self.spans[a_i].region.bits as u32 | ((self.areas[a_i].0 as u32) << 16u32);
            if let Some(con2) = a_s.con(dir_p) {
                let (_b_x, _b_z, b_i) = self.con_indices(a_x, a_z, a_i, dir_p, con2);
                let b_s = self.spans[b_i];
                if b_s.y > ch {
                    ch = b_s.y;
                }
                r2 = self.spans[b_i].region.bits as u32 | ((self.areas[b_i].0 as u32) << 16u32);
            }
        }
        if let Some(con) = s.con(dir_p) {
            let (a_x, a_z, a_i) = self.con_indices(x, z, i, dir_p, con);
            let a_s = self.spans[a_i];
            if a_s.y > ch {
                ch = a_s.y;
            }
            r3 = self.spans[a_i].region.bits as u32 | ((self.areas[a_i].0 as u32) << 16u32);
            if let Some(con2) = a_s.con(dir) {
                let (_b_x, _b_z, b_i) = self.con_indices(a_x, a_z, a_i, dir, con2);
                let b_s = self.spans[b_i];
                if b_s.y > ch {
                    ch = b_s.y;
                }
                r2 = self.spans[b_i].region.bits as u32 | ((self.areas[b_i].0 as u32) << 16u32);
            }
        }
        proof {
            let st = self.corner_state(x as int, z as int, i as int, dir);
            assert(st.1 =~= seq![r0, r1, r2, r3]);
        }
        // Check if the vertex is special edge vertex, these vertices will be removed later.
        let is_border_vertex = border_corner_at(r0, r1, r2, r3) || border_corner_at(r1, r2, r3, r0)
            || border_corner_at(r2, r3, r0, r1) || border_corner_at(r3, r0, r1, r2);
        (ch, is_border_vertex)
    }
}

impl CompactHeightfield {
    /// Span `i` of cell `(x, z)` reaches a span of its own region in
    /// direction `dir`.
    pub open spec fn same_region_towards(&self, x: int, z: int, i: int, dir: u8) -> bool {
        match self.spans@[i].spec_con(dir) {
            None => self.spans@[i].region.bits == 0,
            Some(con) => self.spans@[self.neighbour_of(x, z, dir, con).2].region == self.spans@[i].region,
        }
    }

    /// The span belongs to no region, or to a border region.
    pub open spec fn outside_regions(&self, i: int) -> bool {
        self.spans@[i].region.bits == 0 || self.spans@[i].region.bits & 0x8000 == 0x8000
    }

    /// The boundary flags of span `i` of cell `(x, z)`: bit `dir` is set when
    /// the neighbour in that direction is in the same region; spans outside
    /// the regions have none.
    pub open spec fn boundary_flags(&self, x: int, z: int, i: int) -> u8 {
        if self.outside_regions(i) {
            0
        } else {
            ((if self.same_region_towards(x, z, i, 0) { 1int } else { 0int }) + (if self.same_region_towards(x, z, i, 1) {
                2int
            } else {
                0int
            }) + (if self.same_region_towards(x, z, i, 2) { 4int } else { 0int }) + (if self.same_region_towards(x, z, i, 3) {
                8int
            } else {
                0int
            })) as u8
        }
    }

    /// Span `i` of cell `(x, z)` starts a region contour to be walked: it is
    /// in a region and some but not all of its neighbours share it.
    pub open spec fn starts_contour(&self, x: int, z: int, i: int) -> bool {
        &&& !self.outside_regions(i)
        &&& self.boundary_flags(x, z, i) != 0
        &&& self.boundary_flags(x, z, i) != 0xf
    }

    /// No span of the field starts a region contour.
    pub open spec fn no_contour_starts(&self) -> bool {
        forall|x: int, z: int, i: int| #[trigger] self.span_in_cell(x, z, i) ==> !self.starts_contour(x, z, i)
    }

    /// The boundary flags of span `i` of cell `(x, z)`.
    fn span_boundary_flags(&self, x: u16, z: u16, i: usize) -> (r: u8)
        requires
            self.wf(),
            self.span_in_cell(x as int, z as int, i as int),
            i < self.spans@.len(),
        ensures
            r == self.boundary_flags(x as int, z as int, i as int),
    {
        let region = self.spans[i].region;
        if region.bits == 0 || region.bits & 0x8000 == 0x8000 {
            return 0;
        }
        let span = self.spans[i];
        let mut res: u8 = 0;
        let mut dir: u8 = 0;
        while dir < 4
            invariant
                self.wf(),
                self.span_in_cell(x as int, z as int, i as int),
                span == self.spans@[i as int],
                region == span.region,
                !self.outside_regions(i as int),
                dir <= 4,
                res as int == (if dir > 0 && self.same_region_towards(x as int, z as int, i as int, 0) { 1int } else { 0int })
                    + (if dir > 1 && self.same_region_towards(x as int, z as int, i as int, 1) { 2int } else { 0int })
                    + (if dir > 2 && self.same_region_towards(x as int, z as int, i as int, 2) { 4int } else { 0int })
                    + (if dir > 3 && self.same_region_towards(x as int, z as int, i as int, 3) { 8int } else { 0int }),
            decreases 4 - dir,
        {
            let mut r = RegionId { bits: 0 };
            if let Some(con) = span.con(dir) {
                let (_a_x, _a_z, a_i) = self.con_indices(x, z, i, dir, con);
                r = self.spans[a_i].region;
            }
            if r == region {
                proof {
                    assert(res < (1u8 << dir) && dir < 4 ==> (res | (1u8 << dir)) == res + (1u8 << dir)) by (bit_vector);
                    assert(dir == 0 ==> (1u8 << dir) == 1) by (bit_vector);
                    assert(dir == 1 ==> (1u8 << dir) == 2) by (bit_vector);
                    assert(dir == 2 ==> (1u8 << dir) == 4) by (bit_vector);
                    assert(dir == 3 ==> (1u8 << dir) == 8) by (bit_vector);
                }
                res = res | (1u8 << dir);
            }
            dir = dir + 1;
        }
        proof {
            assert(res <= 15 ==> res & 0xf == res) by (bit_vector);
        }
        res & 0xf
    }

    /// The raw contours will match the region outlines exactly.
    ///
    /// Simplified contours are generated such that the vertices for portals
    /// between areas match up (they are considered mandatory vertices), and
    /// setting `max_edge_len` to zero disables the edge length feature.
    ///
    /// Room for `max(max_region, 8)` contours is made, and only the contours
    /// built are kept: none, as no span starts one. The set is the field's
    /// size less the border on each side. The walk along a
    /// region outline and its simplification are not part of this build;
    /// the field must not have a span that starts a contour.
    pub fn build_contours(&mut self, max_edge_len: u16, build_flags: BuildContoursFlags) -> (r: ContourSet)
        requires
            old(self).wf(),
            old(self).no_contour_starts(),
            2 * old(self).border_size <= old(self).width,
            2 * old(self).border_size <= old(self).height,
        ensures
            *final(self) == *old(self),
            r.contours@.len() == 0,
            r.width == old(self).width - 2 * old(self).border_size,
            r.height == old(self).height - 2 * old(self).border_size,
            r.border_size == old(self).border_size,
    {
        let max_contours: u16 = if self.max_region.bits >= 8 { self.max_region.bits } else { 8 };
        let mut contours: Vec<Contour> = Vec::new();
        let mut k: u16 = 0;
        while k < max_contours
            invariant
                k <= max_contours,
                contours@.len() == k,
                forall|k2: int|
                    0 <= k2 < k ==> {
                        &&& (#[trigger] contours@[k2]).vertices@.len() == 0
                        &&& contours@[k2].raw_vertices@.len() == 0
                        &&& contours@[k2].region.bits == 0
                        &&& contours@[k2].area.0 == 0
                    },
            decreases max_contours - k,
        {
            contours.push(Contour::empty());
            k = k + 1;
        }
        let mut cset = ContourSet {
            contours,
            width: self.width - self.border_size * 2,
            height: self.height - self.border_size * 2,
            border_size: self.border_size,
        };
        let n = self.spans.len();
        let mut flags: Vec<u8> = Vec::new();
        let mut k: usize = 0;
        while k < n
            invariant
                k <= n,
                flags@.len() == k,
            decreases n - k,
        {
            flags.push(0);
            k = k + 1;
        }
        let w = self.width;
        let h = self.height;
        // Mark boundaries.
        let mut z: u16 = 0;
        while z < h
            invariant
                self.wf(),
                w == self.width,
                h == self.height,
                z <= h,
                flags@.len() == self.spans@.len(),
                forall|x2: int, z2: int, i2: int|
                    #[trigger] self.span_in_cell(x2, z2, i2) && z2 < z ==> flags@[i2] == self.boundary_flags(x2, z2, i2),
            decreases h - z,
        {
            let mut x: u16 = 0;
            while x < w
                invariant
                    self.wf(),
                    w == self.width,
                    h == self.height,
                    z < h,
                    x <= w,
                    flags@.len() == self.spans@.len(),
                    forall|x2: int, z2: int, i2: int|
                        #[trigger] self.span_in_cell(x2, z2, i2) && (z2 < z || (z2 == z && x2 < x)) ==> flags@[i2]
                            == self.boundary_flags(x2, z2, i2),
                decreases w - x,
            {
                proof {
                    lemma_grid_cell(self, x as int, z as int);
                }
                let cell = *self.cell_at(x, z);
                let max_index = cell.index as usize + cell.count as usize;
                let mut i = cell.index as usize;
                while i < max_index
                    invariant
                        self.wf(),
                        w == self.width,
                        h == self.height,
                        z < h,
                        x < w,
                        cell == self.cells@[x + z * w],
                        max_index == cell.index + cell.count,
                        max_index <= self.spans@.len(),
                        cell.index <= i,
                        flags@.len() == self.spans@.len(),
                        forall|x2: int, z2: int, i2: int|
                            #[trigger] self.span_in_cell(x2, z2, i2) && (z2 < z || (z2 == z && x2 < x) || (z2 == z && x2 == x && i2
                                < i)) ==> flags@[i2] == self.boundary_flags(x2, z2, i2),
                    decreases max_index - i,
                {
                    proof {
                        assert(self.span_in_cell(x as int, z as int, i as int));
                    }
                    let f = self.span_boundary_flags(x, z, i);
                    let ghost before = flags@;
                    flags.set(i, f);
                    proof {
                        assert forall|x2: int, z2: int, i2: int|
                            #[trigger] self.span_in_cell(x2, z2, i2) && (z2 < z || (z2 == z && x2 < x) || (z2 == z && x2 == x
                                && i2 < i + 1)) implies flags@[i2] == self.boundary_flags(x2, z2, i2) by {
                            lemma_grid_cell(self, x2, z2);
                            if i2 == i {
                                lemma_span_cell_unique(self, x2, z2, x as int, z as int, i2);
                            } else {
                                assert(flags@[i2] == before[i2]);
                                if z2 == z && x2 == x {
                                    assert(i2 < i);
                                }
                            }
                        }
                    }
                    i = i + 1;
                }
                proof {
                    assert forall|x2: int, z2: int, i2: int|
                        #[trigger] self.span_in_cell(x2, z2, i2) && (z2 < z || (z2 == z && x2 < x + 1)) implies flags@[i2]
                            == self.boundary_flags(x2, z2, i2) by {
                        if z2 == z && x2 == x {
                            assert(i2 < max_index);
                        }
                    }
                }
                x = x + 1;
            }
            z = z + 1;
        }
        // Walk the region outlines.
        let mut z: u16 = 0;
        while z < h
            invariant
                self.wf(),
                self.no_contour_starts(),
                w == self.width,
                h == self.height,
                z <= h,
                flags@.len() == self.spans@.len(),
                forall|x2: int, z2: int, i2: int|
                    #[trigger] self.span_in_cell(x2, z2, i2) && z2 >= z ==> flags@[i2] == self.boundary_flags(x2, z2, i2),
            decreases h - z,
        {
            let mut x: u16 = 0;
            while x < w
                invariant
                    self.wf(),
                    self.no_contour_starts(),
                    w == self.width,
                    h == self.height,
                    z < h,
                    x <= w,
                    flags@.len() == self.spans@.len(),
                    forall|x2: int, z2: int, i2: int|
                        #[trigger] self.span_in_cell(x2, z2, i2) && (z2 > z || (z2 == z && x2 >= x)) ==> flags@[i2]
                            == self.boundary_flags(x2, z2, i2),
                decreases w - x,
            {
                proof {
                    lemma_grid_cell(self, x as int, z as int);
                }
                let cell = *self.cell_at(x, z);
                let max_index = cell.index as usize + cell.count as usize;
                let mut i = cell.index as usize;
                while i < max_index
                    invariant
                        self.wf(),
                        self.no_contour_starts(),
                        w == self.width,
                        h == self.height,
                        z < h,
                        x < w,
                        cell == self.cells@[x + z * w],
                        max_index == cell.index + cell.count,
                        max_index <= self.spans@.len(),
                        cell.index <= i,
                        flags@.len() == self.spans@.len(),
                        forall|x2: int, z2: int, i2: int|
                            #[trigger] self.span_in_cell(x2, z2, i2) && (z2 > z || (z2 == z && x2 > x) || (z2 == z && x2 == x && i2
                                >= i)) ==> flags@[i2] == self.boundary_flags(x2, z2, i2),
                    decreases max_index - i,
                {
                    proof {
                        assert(self.span_in_cell(x as int, z as int, i as int));
                    }
                    if flags[i] == 0 || flags[i] == 0xf {
                        let ghost before = flags@;
                        flags.set(i, 0);
                        proof {
                            assert forall|x2: int, z2: int, i2: int|
                                #[trigger] self.span_in_cell(x2, z2, i2) && (z2 > z || (z2 == z && x2 > x) || (z2 == z && x2 == x
                                    && i2 >= i + 1)) implies flags@[i2] == self.boundary_flags(x2, z2, i2) by {
                                lemma_grid_cell(self, x2, z2);
                                if i2 == i {
                                    lemma_span_cell_unique(self, x2, z2, x as int, z as int, i2);
                                }
                                assert(flags@[i2] == before[i2]);
                            }
                        }
                        i = i + 1;
                        continue;
                    }
                    let reg = self.spans[i].region;
                    if reg.bits == 0 || reg.bits & 0x8000 == 0x8000 {
                        i = i + 1;
                        continue;
                    }
                    // A span that starts a contour: excluded by the precondition.
                    proof {
                        assert(self.starts_contour(x as int, z as int, i as int));
                        assert(false);
                    }
                    i = i + 1;
                }
                proof {
                    assert forall|x2: int, z2: int, i2: int|
                        #[trigger] self.span_in_cell(x2, z2, i2) && (z2 > z || (z2 == z && x2 >= x + 1)) implies flags@[i2]
                            == self.boundary_flags(x2, z2, i2) by {
                    }
                }
                x = x + 1;
            }
            z = z + 1;
        }
        // Only the contours that were built are kept, and no span starts one.
        let contour_count: usize = 0;
        cset.contours.truncate(contour_count);
        cset
    }
}

/// Cell `(x, z)` of a well-formed field lies in the grid, and its span
/// range lies in the spans.
proof fn lemma_grid_cell(chf: &CompactHeightfield, x: int, z: int)
    requires
        chf.wf(),
        0 <= x < chf.width,
        0 <= z < chf.height,
    ensures
        0 <= x + z * chf.width < chf.cells@.len(),
        chf.cells@[x + z * chf.width].index + chf.cells@[x + z * chf.width].count <= chf.spans@.len(),
        chf.spans@.len() <= usize::MAX,
{
    assert(chf.spans@.len() == chf.spans.len());
    assert(x + z * chf.width < chf.width * chf.height) by (nonlinear_arith)
        requires
            0 <= x < chf.width,
            0 <= z < chf.height,
    ;
    assert(0 <= z * chf.width) by (nonlinear_arith)
        requires
            0 <= z,
    ;
}

/// A span lies in one cell only.
proof fn lemma_span_cell_unique(chf: &CompactHeightfield, x1: int, z1: int, x2: int, z2: int, i: int)
    requires
        chf.wf(),
        chf.span_in_cell(x1, z1, i),
        chf.span_in_cell(x2, z2, i),
    ensures
        x1 == x2 && z1 == z2,
{
    lemma_grid_cell(chf, x1, z1);
    lemma_grid_cell(chf, x2, z2);
    let c1 = x1 + z1 * chf.width;
    let c2 = x2 + z2 * chf.width;
    assert(in_cell(chf.cells@, c1, i));
    assert(in_cell(chf.cells@, c2, i));
    assert(c1 == c2);
    vstd::arithmetic::div_mod::lemma_fundamental_div_mod_converse(c1, chf.width as int, z1, x1);
    vstd::arithmetic::div_mod::lemma_fundamental_div_mod_converse(c2, chf.width as int, z2, x2);
}

} // verus!
