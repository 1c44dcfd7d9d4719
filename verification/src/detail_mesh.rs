//! The integer parts of the detail mesh: height patches sampled from the
//! compact heightfield, hull edges, and sub-mesh bookkeeping.

use vstd::prelude::*;
use crate::compact_heightfield::{CompactHeightfield, in_cell};
use crate::math::{dir_offset, dir_offset_x, dir_offset_z, spec_dir_offset_x, spec_dir_offset_z, spec_prev};
use crate::region::RegionId;

verus! {

/// The height of a patch cell that has no height yet.
pub const RC_UNSET_HEIGHT: u16 = 0xffff;

/// Where the vertices and triangles of one polygon's detail mesh lie.
#[derive(Debug, Default, Clone, Copy, PartialEq, Eq, Structural)]
pub struct SubMesh {
    pub first_vertex_index: usize,
    pub vertex_count: usize,
    pub first_triangle_index: usize,
    pub triangle_count: usize,
}

/// The cell bounds of a polygon.
#[derive(Debug, Default, Clone, Copy, PartialEq, Eq, Structural)]
pub struct Bounds {
    pub xmin: u16,
    pub xmax: u16,
    pub zmin: u16,
    pub zmax: u16,
}

impl Bounds {
    /// The extent along x.
    pub fn width(&self) -> (r: u16)
        requires
            self.xmin <= self.xmax,
        ensures
            r == self.xmax - self.xmin,
    {
        self.xmax - self.xmin
    }

    /// The extent along z.
    pub fn height(&self) -> (r: u16)
        requires
            self.zmin <= self.zmax,
        ensures
            r == self.zmax - self.zmin,
    {
        self.zmax - self.zmin
    }
}

/// A rectangle of the heightfield's cells with one height per cell, row by
/// row, `width` cells to a row.
#[derive(Debug, Default, Clone, PartialEq, Eq)]
pub struct HeightPatch {
    pub data: Vec<u16>,
    pub xmin: u16,
    pub zmin: u16,
    pub width: u16,
    pub height: u16,
}

impl HeightPatch {
    /// The number of cells of the patch.
    pub open spec fn spec_data_len(&self) -> int {
        self.width * self.height
    }

    /// Cell `(x, z)` has an index in `data`, computed in `i32`.
    pub open spec fn index_fits(&self, x: int, z: int) -> bool {
        &&& i32::MIN <= z * self.width <= i32::MAX
        &&& i32::MIN <= x + z * self.width <= i32::MAX
        &&& 0 <= x + z * self.width < self.data@.len()
    }

    /// The number of cells of the patch.
    pub fn data_len(&self) -> (r: usize)
        ensures
            r == self.spec_data_len(),
    {
        proof {
            vstd::arithmetic::mul::lemma_mul_upper_bound(self.width as int, 0xffff, self.height as int, 0xffff);
        }
        self.width as usize * self.height as usize
    }

    /// The height of cell `(x, z)`.
    pub fn data_at(&self, x: i32, z: i32) -> (r: &u16)
        requires
            self.index_fits(x as int, z as int),
        ensures
            *r == self.data@[x + z * self.width],
    {
        &self.data[(x + z * self.width as i32) as usize]
    }

    /// The height of cell `(x, z)`, to be written.
    pub fn data_at_mut(&mut self, x: i32, z: i32) -> (r: &mut u16)
        requires
            old(self).index_fits(x as int, z as int),
        ensures
            *r == old(self).data@[x + z * old(self).width],
            final(self).data@ == old(self).data@.update(x + z * old(self).width, *final(r)),
            final(self).xmin == old(self).xmin,
            final(self).zmin == old(self).zmin,
            final(self).width == old(self).width,
            final(self).height == old(self).height,
    {
        &mut self.data[(x + z * self.width as i32) as usize]
    }
}

/// The hull edge `(a, b)`: some hull vertex `b` is preceded by `a`.
pub open spec fn on_hull_spec(a: int, b: int, nhull: int, hull: Seq<usize>) -> bool {
    &&& a < nhull
    &&& b < nhull
    &&& exists|i: int| 0 <= i < nhull && hull[spec_prev(i, nhull)] == a && #[trigger] hull[i] == b
}

/// Returns true iff `(a, b)` is an edge of the hull. All internal sampled
/// points come after the hull, so indices past it are never on it.
pub fn on_hull(a: usize, b: usize, nhull: usize, hull: &Vec<usize>) -> (r: bool)
    requires
        nhull <= hull@.len(),
    ensures
        r == on_hull_spec(a as int, b as int, nhull as int, hull@),
{
    if a >= nhull || b >= nhull {
        return false;
    }
    let mut j = nhull - 1;
    let mut i: usize = 0;
    while i < nhull
        invariant
            nhull <= hull@.len(),
            0 < nhull,
            a < nhull,
            b < nhull,
            i <= nhull,
            j == spec_prev(i as int, nhull as int),
            forall|i2: int| 0 <= i2 < i ==> !(hull@[spec_prev(i2, nhull as int)] == a && #[trigger] hull@[i2] == b),
        decreases nhull - i,
    {
        if a == hull[j] && b == hull[i] {
            proof {
                assert(hull@[spec_prev(i as int, nhull as int)] == a && hull@[i as int] == b);
            }
            return true;
        }
        j = i;
        i = i + 1;
    }
    false
}

/// The edge flags of a triangle: bit 0, 2 and 4 mark its first, second and
/// third edge on the hull.
pub open spec fn tri_flags_spec(t: (u16, u16, u16), nhull: int, hull: Seq<usize>) -> usize {
    ((if on_hull_spec(t.0 as int, t.1 as int, nhull, hull) { 1int } else { 0int }) + (if on_hull_spec(
        t.1 as int,
        t.2 as int,
        nhull,
        hull,
    ) {
        4int
    } else {
        0int
    }) + (if on_hull_spec(t.2 as int, t.0 as int, nhull, hull) { 16int } else { 0int })) as usize
}

/// Find edges that lie on hull and mark them as such.
pub fn set_tri_flags(tris: &mut Vec<((u16, u16, u16), usize)>, nhull: usize, hull: &Vec<usize>)
    requires
        nhull <= hull@.len(),
    ensures
        final(tris)@.len() == old(tris)@.len(),
        forall|t: int|
            0 <= t < final(tris)@.len() ==> #[trigger] final(tris)@[t] == (old(tris)@[t].0, tri_flags_spec(
                old(tris)@[t].0,
                nhull as int,
                hull@,
            )),
{
    // Matches DT_DETAIL_EDGE_BOUNDARY
    let detail_edge_boundary: usize = 0x1;
    let ghost t0 = tris@;
    let mut t: usize = 0;
    while t < tris.len()
        invariant
            nhull <= hull@.len(),
            detail_edge_boundary == 1,
            tris@.len() == t0.len(),
            t <= tris@.len(),
            forall|k: int| 0 <= k < t ==> #[trigger] tris@[k] == (t0[k].0, tri_flags_spec(t0[k].0, nhull as int, hull@)),
            forall|k: int| t <= k < tris@.len() ==> #[trigger] tris@[k] == t0[k],
        decreases tris@.len() - t,
    {
        let tri = tris[t].0;
        let f0: usize = if on_hull(tri.0 as usize, tri.1 as usize, nhull, hull) { detail_edge_boundary } else { 0 };
        let f1: usize = if on_hull(tri.1 as usize, tri.2 as usize, nhull, hull) { detail_edge_boundary } else { 0 };
        let f2: usize = if on_hull(tri.2 as usize, tri.0 as usize, nhull, hull) { detail_edge_boundary } else { 0 };
        proof {
            assert(f0 <= 1 && f1 <= 1 && f2 <= 1 ==> ((f0 << 0usize) | (f1 << 2usize) | (f2 << 4usize)) == f0 + 4 * f1 + 16
                * f2) by (bit_vector);
        }
        let flags: usize = (f0 << 0usize) | (f1 << 2usize) | (f2 << 4usize);
        tris.set(t, (tri, flags));
        t = t + 1;
    }
}

/// The number of the first `n` entries of `s` equal to `v`.
pub open spec fn count_eq(s: Seq<u16>, v: u16, n: int) -> nat
    decreases n,
{
    if n <= 0 {
        0
    } else {
        count_eq(s, v, n - 1) + if s[n - 1] == v {
            1nat
        } else {
            0nat
        }
    }
}

/// Overwriting an entry equal to `v` with another value removes one `v`.
proof fn lemma_count_eq_update(s: Seq<u16>, v: u16, n: int, q: int, w: u16)
    requires
        0 <= q < n <= s.len(),
        s[q] == v,
        w != v,
    ensures
        count_eq(s.update(q, w), v, n) + 1 == count_eq(s, v, n),
    decreases n,
{
    if n - 1 != q {
        lemma_count_eq_update(s, v, n - 1, q, w);
    } else {
        lemma_count_eq_same(s, s.update(q, w), v, n - 1);
    }
}

/// Sequences that agree on their first `n` entries count alike there.
proof fn lemma_count_eq_same(s: Seq<u16>, t: Seq<u16>, v: u16, n: int)
    requires
        0 <= n <= s.len(),
        n <= t.len(),
        forall|q: int| 0 <= q < n ==> s[q] == t[q],
    ensures
        count_eq(s, v, n) == count_eq(t, v, n),
    decreases n,
{
    if n > 0 {
        lemma_count_eq_same(s, t, v, n - 1);
    }
}

/// The offsets of a cell and its eight neighbours, in the order the seed
/// search visits them.
pub open spec fn seed_offset_spec(k: int) -> (int, int) {
    if k == 0 {
        (0, 0)
    } else if k == 1 {
        (-1, -1)
    } else if k == 2 {
        (0, -1)
    } else if k == 3 {
        (1, -1)
    } else if k == 4 {
        (1, 0)
    } else if k == 5 {
        (1, 1)
    } else if k == 6 {
        (0, 1)
    } else if k == 7 {
        (-1, 1)
    } else {
        (-1, 0)
    }
}

/// The offset of the `k`-th cell of the seed search.
fn seed_offset(k: usize) -> (r: (i32, i32))
    requires
        k < 9,
    ensures
        (r.0 as int, r.1 as int) == seed_offset_spec(k as int),
{
    if k == 0 {
        (0, 0)
    } else if k == 1 {
        (-1, -1)
    } else if k == 2 {
        (0, -1)
    } else if k == 3 {
        (1, -1)
    } else if k == 4 {
        (1, 0)
    } else if k == 5 {
        (1, 1)
    } else if k == 6 {
        (0, 1)
    } else if k == 7 {
        (-1, 1)
    } else {
        (-1, 0)
    }
}

/// The sum of the `x` (`axis == 0`) or `z` (`axis == 2`) coordinates of the
/// first `n` polygon vertices.
pub open spec fn coord_sum(verts: Seq<(i32, i32, i32)>, poly: Seq<u16>, n: int, axis: int) -> int
    decreases n,
{
    if n <= 0 {
        0
    } else {
        coord_sum(verts, poly, n - 1, axis) + if axis == 0 {
            verts[poly[n - 1] as int].0 as int
        } else {
            verts[poly[n - 1] as int].2 as int
        }
    }
}

/// The integer mean of `n` coordinates summing to `sum`, rounded toward
/// zero.
pub open spec fn centre_coord(sum: int, n: int) -> int {
    if sum >= 0 {
        sum / n
    } else {
        -((-sum) / n)
    }
}

/// `(a, b, c)` comes before `(x, y, z)` in lexicographic order.
pub open spec fn lex_before(a: int, b: int, c: int, x: int, y: int, z: int) -> bool {
    a < x || (a == x && (b < y || (b == y && c < z)))
}

/// `data` with its first `n` entries cleared to 0.
pub open spec fn cleared(data: Seq<u16>, n: int) -> Seq<u16> {
    Seq::new(data.len(), |q: int| if q < n { 0u16 } else { data[q] })
}

/// The direction that leads from `(x, z)` toward the centre `(cx, cz)`:
/// along z when already in the centre's column, else along x.
pub open spec fn direction_toward(x: int, z: int, cx: int, cz: int) -> int {
    if x == cx {
        if cz > z {
            1
        } else {
            3
        }
    } else if cx > x {
        2
    } else {
        0
    }
}

impl HeightPatch {
    /// Cell `(x, z)`, in field coordinates without the border, lies in the
    /// patch.
    pub open spec fn in_patch(&self, x: int, z: int) -> bool {
        &&& self.xmin <= x < self.xmin + self.width
        &&& self.zmin <= z < self.zmin + self.height
    }

    /// The patch, offset by the border `bs`, lies inside the field's grid,
    /// and its cells have data.
    pub open spec fn fits_field(&self, chf: &CompactHeightfield, bs: int) -> bool {
        &&& self.xmin + bs + self.width <= chf.width
        &&& self.zmin + bs + self.height <= chf.height
        &&& self.spec_data_len() <= self.data@.len()
        &&& self.spec_data_len() <= 0x7fff_ffff
        &&& chf.cells@.len() <= 0x7fff_ffff
        &&& chf.spans@.len() <= 0x7fff_ffff
    }

    /// Span `i` of the cell at offset `k` of polygon vertex `j` can start
    /// the walk: the cell lies in the patch and the span's height is within
    /// the search range of the vertex height.
    pub open spec fn seed_candidate(
        &self,
        chf: &CompactHeightfield,
        poly: Seq<u16>,
        verts: Seq<(i32, i32, i32)>,
        bs: int,
        j: int,
        k: int,
        i: int,
    ) -> bool {
        let v = verts[poly[j] as int];
        let ax = v.0 + seed_offset_spec(k).0;
        let az = v.2 + seed_offset_spec(k).1;
        let d = v.1 - chf.spans@[i].y;
        &&& self.in_patch(ax, az)
        &&& chf.span_in_cell(ax + bs, az + bs, i)
        &&& -0xffff < d < 0xffff
    }

    /// The height gap between span `i` and polygon vertex `j`.
    pub open spec fn seed_gap(chf: &CompactHeightfield, poly: Seq<u16>, verts: Seq<(i32, i32, i32)>, j: int, i: int) -> int {
        let d = verts[poly[j] as int].1 - chf.spans@[i].y;
        if d < 0 {
            -d
        } else {
            d
        }
    }

    /// The candidate `(j, k, i)` is where the walk starts: no candidate lies
    /// nearer in height, and every candidate before it, in the order of
    /// vertices, then offsets, then spans, lies farther.
    pub open spec fn nearest_seed(
        &self,
        chf: &CompactHeightfield,
        poly: Seq<u16>,
        verts: Seq<(i32, i32, i32)>,
        bs: int,
        npoly: int,
        j: int,
        k: int,
        i: int,
    ) -> bool {
        &&& 0 <= j < npoly
        &&& 0 <= k < 9
        &&& self.seed_candidate(chf, poly, verts, bs, j, k, i)
        &&& forall|j2: int, k2: int, i2: int|
            0 <= j2 < npoly && 0 <= k2 < 9 && #[trigger] self.seed_candidate(chf, poly, verts, bs, j2, k2, i2) ==> {
                &&& HeightPatch::seed_gap(chf, poly, verts, j2, i2) >= HeightPatch::seed_gap(chf, poly, verts, j, i)
                &&& (lex_before(j2, k2, i2, j, k, i) ==> HeightPatch::seed_gap(chf, poly, verts, j2, i2)
                    > HeightPatch::seed_gap(chf, poly, verts, j, i))
            }
    }

    /// The polygon's vertices can be read and their coordinates summed in
    /// `i32`.
    pub open spec fn poly_verts_ok(poly: Seq<u16>, npoly: int, verts: Seq<(i32, i32, i32)>) -> bool {
        &&& 0 < npoly <= poly.len()
        &&& npoly <= i32::MAX
        &&& forall|j: int| 0 <= j < npoly ==> (#[trigger] poly[j] as int) < verts.len()
        &&& forall|j: int|
            0 <= j < npoly ==> {
                let v = #[trigger] verts[poly[j] as int];
                &&& i32::MIN < v.0 < i32::MAX
                &&& i32::MIN < v.2 < i32::MAX
                &&& i32::MIN + 0x10000 <= v.1
            }
        &&& forall|m: int|
            0 <= m <= npoly ==> i32::MIN <= #[trigger] coord_sum(verts, poly, m, 0) <= i32::MAX && i32::MIN <= coord_sum(
                verts,
                poly,
                m,
                2,
            ) <= i32::MAX
    }

    /// The walk's stack and cell marks after the neighbours of span `e` in
    /// the first `m` of the directions `dirs` have been looked at: a linked
    /// neighbour inside the patch whose cell is not marked yet gets its cell
    /// marked and is pushed.
    pub open spec fn walk_push(
        &self,
        chf: CompactHeightfield,
        bs: int,
        e: (i32, i32, usize),
        dirs: Seq<u8>,
        stack: Seq<(i32, i32, usize)>,
        data: Seq<u16>,
        m: int,
    ) -> (Seq<(i32, i32, usize)>, Seq<u16>)
        decreases m,
    {
        if m <= 0 {
            (stack, data)
        } else {
            let prev = self.walk_push(chf, bs, e, dirs, stack, data, m - 1);
            let dir = dirs[m - 1];
            match chf.spans@[e.2 as int].spec_con(dir) {
                None => prev,
                Some(con) => {
                    let nx = e.0 + spec_dir_offset_x(dir);
                    let nz = e.1 + spec_dir_offset_z(dir);
                    let q = (nx - self.xmin) + (nz - self.zmin) * self.width;
                    if self.in_patch(nx, nz) && prev.1[q] == 0 {
                        (
                            prev.0.push(
                                (nx as i32, nz as i32, (chf.cells@[(nx + bs) + (nz + bs) * chf.width].index + con) as usize),
                            ),
                            prev.1.update(q, 1),
                        )
                    } else {
                        prev
                    }
                },
            }
        }
    }

    /// One step of the walk toward the centre `(cx, cz)`. The state is the
    /// stack, the cell marks, the order of the directions, the span last
    /// taken from the stack and whether the walk has ended: it ends when the
    /// stack is empty or the span taken lies in the centre's cell. Otherwise
    /// the direction toward the centre is swapped into the last place of the
    /// order, so that its neighbour is pushed last and taken next.
    pub open spec fn walk_step(
        &self,
        chf: CompactHeightfield,
        bs: int,
        cx: int,
        cz: int,
        st: (Seq<(i32, i32, usize)>, Seq<u16>, Seq<u8>, (i32, i32, usize), bool),
    ) -> (Seq<(i32, i32, usize)>, Seq<u16>, Seq<u8>, (i32, i32, usize), bool) {
        let (stack, data, dirs, cur, done) = st;
        if done {
            st
        } else if stack.len() == 0 {
            (stack, data, dirs, cur, true)
        } else {
            let e = stack.last();
            let rest = stack.drop_last();
            if e.0 == cx && e.1 == cz {
                (rest, data, dirs, e, true)
            } else {
                let d = direction_toward(e.0 as int, e.1 as int, cx, cz);
                let dirs2 = dirs.update(d, dirs[3]).update(3, dirs[d]);
                let pushed = self.walk_push(chf, bs, e, dirs2, rest, data, 4);
                (pushed.0, pushed.1, dirs2, e, false)
            }
        }
    }

    /// The walk's state before its first step: the stack holds `start`, the
    /// patch's cell marks are cleared and the directions come in order.
    pub open spec fn walk_start(
        &self,
        start: (i32, i32, usize),
    ) -> (Seq<(i32, i32, usize)>, Seq<u16>, Seq<u8>, (i32, i32, usize), bool) {
        (seq![start], cleared(self.data@, self.spec_data_len()), seq![0u8, 1u8, 2u8, 3u8], start, false)
    }

    /// The walk's state after `k` steps from `st`.
    pub open spec fn walk(
        &self,
        chf: CompactHeightfield,
        bs: int,
        cx: int,
        cz: int,
        st: (Seq<(i32, i32, usize)>, Seq<u16>, Seq<u8>, (i32, i32, usize), bool),
        k: nat,
    ) -> (Seq<(i32, i32, usize)>, Seq<u16>, Seq<u8>, (i32, i32, usize), bool)
        decreases k,
    {
        if k == 0 {
            st
        } else {
            self.walk_step(chf, bs, cx, cz, self.walk(chf, bs, cx, cz, st, (k - 1) as nat))
        }
    }

    /// `seed` is where the walk toward the polygon's centre stops, in field
    /// coordinates with the border: the walk starts from the nearest seed
    /// candidate `(j0, k0, start.2)` and ends after `k` steps.
    pub open spec fn centre_seed(
        &self,
        chf: &CompactHeightfield,
        poly: Seq<u16>,
        verts: Seq<(i32, i32, i32)>,
        bs: int,
        npoly: int,
        seed: (i32, i32, usize),
    ) -> bool {
        exists|start: (i32, i32, usize), k: nat, j0: int, k0: int|
            {
                let v = verts[poly[j0] as int];
                let st = #[trigger] self.walk(
                    *chf,
                    bs,
                    centre_coord(coord_sum(verts, poly, npoly, 0), npoly),
                    centre_coord(coord_sum(verts, poly, npoly, 2), npoly),
                    self.walk_start(start),
                    k,
                );
                &&& #[trigger] self.nearest_seed(chf, poly, verts, bs, npoly, j0, k0, start.2 as int)
                &&& start.0 == v.0 + seed_offset_spec(k0).0
                &&& start.1 == v.2 + seed_offset_spec(k0).1
                &&& self.in_patch(start.0 as int, start.1 as int)
                &&& chf.span_in_cell(start.0 + bs, start.1 + bs, start.2 as int)
                &&& st.4
                &&& seed == ((st.3.0 + bs) as i32, (st.3.1 + bs) as i32, st.3.2)
            }
    }

    /// Seeds `array` with one span to flood the patch from, given in field
    /// coordinates with the border. The walk starts from the span nearest in
    /// height to a polygon vertex, among the cells around the vertices (the
    /// first such span in the order of vertices, offsets and spans), and
    /// goes depth first toward the integer centre of the polygon, preferring
    /// the direction toward it; the seed is the span where it stops. All the
    /// patch's heights are then unset but the seed's.
    pub fn seed_array_with_poly_center(
        &mut self,
        chf: &CompactHeightfield,
        poly: &Vec<u16>,
        npoly: usize,
        verts: &Vec<(i32, i32, i32)>,
        bs: u16,
        array: &mut Vec<(i32, i32, usize)>,
    )
        requires
            chf.wf(),
            old(self).fits_field(chf, bs as int),
            HeightPatch::poly_verts_ok(poly@, npoly as int, verts@),
            exists|j: int, k: int, i: int|
                0 <= j < npoly && 0 <= k < 9 && #[trigger] old(self).seed_candidate(chf, poly@, verts@, bs as int, j, k, i),
        ensures
            final(self).xmin == old(self).xmin,
            final(self).zmin == old(self).zmin,
            final(self).width == old(self).width,
            final(self).height == old(self).height,
            final(self).data@.len() == old(self).data@.len(),
            final(array)@.len() == 1,
            old(self).centre_seed(chf, poly@, verts@, bs as int, npoly as int, final(array)@[0]),
            ({
                let s = final(array)@[0];
                &&& old(self).in_patch(s.0 - bs, s.1 - bs)
                &&& chf.span_in_cell(s.0 as int, s.1 as int, s.2 as int)
                &&& forall|q: int|
                    0 <= q < final(self).data@.len() ==> #[trigger] final(self).data@[q] == (if q == (s.0 - bs - old(
                        self,
                    ).xmin) + (s.1 - bs - old(self).zmin) * old(self).width {
                        chf.spans@[s.2 as int].y
                    } else if q < old(self).spec_data_len() {
                        0xffff
                    } else {
                        old(self).data@[q]
                    })
            }),
    {
        proof {
            assert(chf.spans.len() == chf.spans@.len());
            assert(chf.cells.len() == chf.cells@.len());
        }
        let ghost old_data = self.data@;
        let ghost old_self = *self;
        let xmin = self.xmin as i32;
        let zmin = self.zmin as i32;
        let pw = self.width as i32;
        let ph = self.height as i32;
        let bsi = bs as i32;
        let cw = chf.width as i32;
        // Find cell closest to a poly vertex
        let mut start_cell_x: i32 = 0;
        let mut start_cell_z: i32 = 0;
        let mut start_span_index: Option<usize> = None;
        let mut dmin: i32 = RC_UNSET_HEIGHT as i32;
        let ghost mut gj0: int = 0;
        let ghost mut gk0: int = 0;
        let mut j: usize = 0;
        while j < npoly && dmin > 0
            invariant
                chf.wf(),
                self.fits_field(chf, bs as int),
                HeightPatch::poly_verts_ok(poly@, npoly as int, verts@),
                xmin == self.xmin,
                zmin == self.zmin,
                pw == self.width,
                ph == self.height,
                bsi == bs,
                cw == chf.width,
                j <= npoly,
                start_span_index is None ==> dmin == 0xffff && forall|j2: int, k2: int, i2: int|
                    0 <= j2 < j && 0 <= k2 < 9 ==> !#[trigger] self.seed_candidate(chf, poly@, verts@, bs as int, j2, k2, i2),
                start_span_index matches Some(si) ==> self.in_patch(start_cell_x as int, start_cell_z as int)
                    && chf.span_in_cell(start_cell_x + bs, start_cell_z + bs, si as int),
                dmin <= 0 ==> start_span_index is Some,
                0 <= dmin <= 0xffff,
                start_span_index matches Some(si) ==> 0 <= gj0 < npoly && 0 <= gk0 < 9 && self.seed_candidate(chf, poly@, verts@, bs as int, gj0, gk0, si as int)
                    && start_cell_x == verts@[poly@[gj0] as int].0 + seed_offset_spec(gk0).0
                    && start_cell_z == verts@[poly@[gj0] as int].2 + seed_offset_spec(gk0).1
                    && dmin == HeightPatch::seed_gap(chf, poly@, verts@, gj0, si as int),
                start_span_index matches Some(si) ==> forall|j2: int, k2: int, i2: int|
                    0 <= j2 && 0 <= k2 < 9 && #[trigger] self.seed_candidate(chf, poly@, verts@, bs as int, j2, k2, i2) && lex_before(j2, k2, i2, gj0, gk0, si as int)
                        ==> HeightPatch::seed_gap(chf, poly@, verts@, j2, i2) > dmin,
                forall|j2: int, k2: int, i2: int|
                    0 <= j2 && 0 <= k2 < 9 && #[trigger] self.seed_candidate(chf, poly@, verts@, bs as int, j2, k2, i2) && lex_before(j2, k2, i2, j as int, 0, 0)
                        ==> start_span_index is Some && HeightPatch::seed_gap(chf, poly@, verts@, j2, i2) >= dmin,
            decreases npoly - j,
        {
            let pj = poly[j] as usize;
            let v = verts[pj];
            let mut k: usize = 0;
            while k < 9 && dmin > 0
                invariant
                    chf.wf(),
                    self.fits_field(chf, bs as int),
                    HeightPatch::poly_verts_ok(poly@, npoly as int, verts@),
                    xmin == self.xmin,
                    zmin == self.zmin,
                    pw == self.width,
                    ph == self.height,
                    bsi == bs,
                    cw == chf.width,
                    j < npoly,
                    pj == poly@[j as int],
                    v == verts@[pj as int],
                    k <= 9,
                    start_span_index is None ==> dmin == 0xffff && (forall|j2: int, k2: int, i2: int|
                        0 <= j2 < j && 0 <= k2 < 9 ==> !#[trigger] self.seed_candidate(chf, poly@, verts@, bs as int, j2, k2, i2))
                        && (forall|k2: int, i2: int|
                        0 <= k2 < k ==> !#[trigger] self.seed_candidate(chf, poly@, verts@, bs as int, j as int, k2, i2)),
                    start_span_index matches Some(si) ==> self.in_patch(start_cell_x as int, start_cell_z as int)
                        && chf.span_in_cell(start_cell_x + bs, start_cell_z + bs, si as int),
                    dmin <= 0 ==> start_span_index is Some,
                    0 <= dmin <= 0xffff,
                    start_span_index matches Some(si) ==> 0 <= gj0 < npoly && 0 <= gk0 < 9 && self.seed_candidate(chf, poly@, verts@, bs as int, gj0, gk0, si as int)
                        && start_cell_x == verts@[poly@[gj0] as int].0 + seed_offset_spec(gk0).0
                        && start_cell_z == verts@[poly@[gj0] as int].2 + seed_offset_spec(gk0).1
                        && dmin == HeightPatch::seed_gap(chf, poly@, verts@, gj0, si as int),
                    start_span_index matches Some(si) ==> forall|j2: int, k2: int, i2: int|
                        0 <= j2 && 0 <= k2 < 9 && #[trigger] self.seed_candidate(chf, poly@, verts@, bs as int, j2, k2, i2) && lex_before(j2, k2, i2, gj0, gk0, si as int)
                            ==> HeightPatch::seed_gap(chf, poly@, verts@, j2, i2) > dmin,
                    forall|j2: int, k2: int, i2: int|
                        0 <= j2 && 0 <= k2 < 9 && #[trigger] self.seed_candidate(chf, poly@, verts@, bs as int, j2, k2, i2) && lex_before(j2, k2, i2, j as int, k as int, 0)
                            ==> start_span_index is Some && HeightPatch::seed_gap(chf, poly@, verts@, j2, i2) >= dmin,
                decreases 9 - k,
            {
                let (ox, oz) = seed_offset(k);
                let ax = v.0 + ox;
                let ay = v.1;
                let az = v.2 + oz;
                if ax < xmin || ax >= xmin + pw || az < zmin || az >= zmin + ph {
                    proof {
                        assert forall|i2: int| !#[trigger] self.seed_candidate(chf, poly@, verts@, bs as int, j as int, k as int, i2) by {}
                    }
                    k = k + 1;
                    continue;
                }
                proof {
                    lemma_patch_cell(self, chf, bs as int, ax as int, az as int);
                }
                let cell = chf.cells[((ax + bsi) + (az + bsi) * cw) as usize];
                let max_index = cell.index as usize + cell.count as usize;
                let mut i = cell.index as usize;
                while i < max_index
                    invariant
                        chf.wf(),
                        self.fits_field(chf, bs as int),
                        HeightPatch::poly_verts_ok(poly@, npoly as int, verts@),
                        j < npoly,
                        pj == poly@[j as int],
                        v == verts@[pj as int],
                        k < 9,
                        (ax as int, az as int) == (v.0 + seed_offset_spec(k as int).0, v.2 + seed_offset_spec(k as int).1),
                        ay == v.1,
                        i32::MIN + 0x10000 <= ay,
                        self.in_patch(ax as int, az as int),
                        cell == chf.cells@[(ax + bs) + (az + bs) * chf.width],
                        max_index == cell.index + cell.count,
                        max_index <= chf.spans@.len(),
                        cell.index <= i,
                        start_span_index is None ==> dmin == 0xffff && (forall|j2: int, k2: int, i2: int|
                            0 <= j2 < j && 0 <= k2 < 9 ==> !#[trigger] self.seed_candidate(chf, poly@, verts@, bs as int, j2, k2, i2))
                            && (forall|k2: int, i2: int|
                            0 <= k2 < k ==> !#[trigger] self.seed_candidate(chf, poly@, verts@, bs as int, j as int, k2, i2))
                            && (forall|i2: int|
                            cell.index <= i2 < i ==> !#[trigger] self.seed_candidate(chf, poly@, verts@, bs as int, j as int, k as int, i2)),
                        start_span_index matches Some(si) ==> self.in_patch(start_cell_x as int, start_cell_z as int)
                            && chf.span_in_cell(start_cell_x + bs, start_cell_z + bs, si as int),
                        dmin <= 0 ==> start_span_index is Some,
                        0 <= dmin <= 0xffff,
                        start_span_index matches Some(si) ==> 0 <= gj0 < npoly && 0 <= gk0 < 9 && self.seed_candidate(chf, poly@, verts@, bs as int, gj0, gk0, si as int)
                            && start_cell_x == verts@[poly@[gj0] as int].0 + seed_offset_spec(gk0).0
                            && start_cell_z == verts@[poly@[gj0] as int].2 + seed_offset_spec(gk0).1
                            && dmin == HeightPatch::seed_gap(chf, poly@, verts@, gj0, si as int),
                        start_span_index matches Some(si) ==> forall|j2: int, k2: int, i2: int|
                            0 <= j2 && 0 <= k2 < 9 && #[trigger] self.seed_candidate(chf, poly@, verts@, bs as int, j2, k2, i2) && lex_before(j2, k2, i2, gj0, gk0, si as int)
                                ==> HeightPatch::seed_gap(chf, poly@, verts@, j2, i2) > dmin,
                        forall|j2: int, k2: int, i2: int|
                            0 <= j2 && 0 <= k2 < 9 && #[trigger] self.seed_candidate(chf, poly@, verts@, bs as int, j2, k2, i2) && lex_before(j2, k2, i2, j as int, k as int, i as int)
                                ==> start_span_index is Some && HeightPatch::seed_gap(chf, poly@, verts@, j2, i2) >= dmin,
                    decreases max_index - i,
                {
                    let s = chf.spans[i];
                    let diff = ay - s.y as i32;
                    let d = if diff < 0 { -diff } else { diff };
                    if d < dmin {
                        start_cell_x = ax;
                        start_cell_z = az;
                        start_span_index = Some(i);
                        dmin = d;
                        proof {
                            gj0 = j as int;
                            gk0 = k as int;
                        }
                    }
                    i = i + 1;
                }
                proof {
                    assert forall|i2: int| !#[trigger] self.seed_candidate(chf, poly@, verts@, bs as int, j as int, k as int, i2)
                        || start_span_index is Some by {
                        if self.seed_candidate(chf, poly@, verts@, bs as int, j as int, k as int, i2) && start_span_index is None {
                            lemma_span_cell_unique_ch(chf, ax + bs, az + bs, i2);
                        }
                    }
                }
                k = k + 1;
            }
            j = j + 1;
        }
        let start_span_index = match start_span_index {
            Some(si) => {
                proof {
                    assert forall|j2: int, k2: int, i2: int|
                        0 <= j2 < npoly && 0 <= k2 < 9 && #[trigger] self.seed_candidate(chf, poly@, verts@, bs as int, j2, k2, i2) implies {
                        &&& HeightPatch::seed_gap(chf, poly@, verts@, j2, i2) >= HeightPatch::seed_gap(chf, poly@, verts@, gj0, si as int)
                        &&& (lex_before(j2, k2, i2, gj0, gk0, si as int) ==> HeightPatch::seed_gap(chf, poly@, verts@, j2, i2)
                            > HeightPatch::seed_gap(chf, poly@, verts@, gj0, si as int))
                    } by {
                        if !lex_before(j2, k2, i2, j as int, 0, 0) {
                            assert(dmin <= 0);
                        }
                    }
                    assert(old_self.nearest_seed(chf, poly@, verts@, bs as int, npoly as int, gj0, gk0, si as int));
                }
                si
            },
            None => {
                proof {
                    let (j2, k2, i2) = choose|j2: int, k2: int, i2: int|
                        0 <= j2 < npoly && 0 <= k2 < 9 && #[trigger] self.seed_candidate(chf, poly@, verts@, bs as int, j2, k2, i2);
                    assert(!self.seed_candidate(chf, poly@, verts@, bs as int, j2, k2, i2));
                }
                0
            },
        };
        // Find center of the polygon
        let mut pcx: i32 = 0;
        let mut pcz: i32 = 0;
        let mut j: usize = 0;
        while j < npoly
            invariant
                HeightPatch::poly_verts_ok(poly@, npoly as int, verts@),
                j <= npoly,
                pcx == coord_sum(verts@, poly@, j as int, 0),
                pcz == coord_sum(verts@, poly@, j as int, 2),
            decreases npoly - j,
        {
            let pj = poly[j] as usize;
            proof {
                assert(i32::MIN <= coord_sum(verts@, poly@, j + 1, 0) <= i32::MAX);
                assert(i32::MIN <= coord_sum(verts@, poly@, j + 1, 2) <= i32::MAX);
            }
            pcx = pcx + verts[pj].0;
            pcz = pcz + verts[pj].2;
            j = j + 1;
        }
        let n = npoly as i32;
        let pcx: i32 = if pcx >= 0 { pcx / n } else { -((-(pcx as i64)) / n as i64) as i32 };
        let pcz: i32 = if pcz >= 0 { pcz / n } else { -((-(pcz as i64)) / n as i64) as i32 };
        proof {
            assert(pcx == centre_coord(coord_sum(verts@, poly@, npoly as int, 0), npoly as int));
            assert(pcz == centre_coord(coord_sum(verts@, poly@, npoly as int, 2), npoly as int));
        }
        // Use seeds array as a stack for DFS
        array.clear();
        array.push((start_cell_x, start_cell_z, start_span_index));
        let data_len = self.data_len();
        let mut q: usize = 0;
        while q < data_len
            invariant
                self.fits_field(chf, bs as int),
                data_len == self.spec_data_len(),
                xmin == self.xmin,
                zmin == self.zmin,
                pw == self.width,
                ph == self.height,
                self.data@.len() == old_data.len(),
                q <= data_len,
                forall|q2: int| 0 <= q2 < q ==> #[trigger] self.data@[q2] == 0,
                forall|q2: int| data_len <= q2 < self.data@.len() ==> #[trigger] self.data@[q2] == old_data[q2],
            decreases data_len - q,
        {
            self.data.set(q, 0);
            q = q + 1;
        }
        // DFS to move to the center. Note that we need a DFS here and can not just move
        // directly towards the center without recording intermediate nodes, even though the polygons
        // are convex. In very rare we can get stuck due to contour simplification if we do not
        // record nodes.
        let ghost start = (start_cell_x, start_cell_z, start_span_index);
        let ghost s0 = old_self.walk_start(start);
        let ghost gcx = pcx as int;
        let ghost gcz = pcz as int;
        let mut dirs: Vec<u8> = vec![0, 1, 2, 3];
        let mut cx: i32 = start_cell_x;
        let mut cz: i32 = start_cell_z;
        let mut ci: usize = start_span_index;
        let mut done = false;
        let ghost mut iters: nat = 0;
        proof {
            assert(self.data@ =~= cleared(old_data, data_len as int));
            assert(dirs@ =~= seq![0u8, 1u8, 2u8, 3u8]);
            assert(array@ =~= seq![start]);
        }
        while !done
            invariant
                old_self.xmin == self.xmin,
                old_self.zmin == self.zmin,
                old_self.width == self.width,
                old_self.height == self.height,
                gcx == pcx,
                gcz == pcz,
                dirs@.len() == 4,
                forall|t: int| 0 <= t < 4 ==> #[trigger] dirs@[t] < 4,
                old_self.walk(*chf, bs as int, gcx, gcz, s0, iters) == (array@, self.data@, dirs@, (cx, cz, ci), done),
                chf.wf(),
                self.fits_field(chf, bs as int),
                xmin == self.xmin,
                zmin == self.zmin,
                pw == self.width,
                ph == self.height,
                bsi == bs,
                cw == chf.width,
                data_len == self.spec_data_len(),
                self.data@.len() == old_data.len(),
                forall|q2: int| data_len <= q2 < self.data@.len() ==> #[trigger] self.data@[q2] == old_data[q2],
                self.in_patch(cx as int, cz as int),
                chf.span_in_cell(cx + bs, cz + bs, ci as int),
                forall|t: int|
                    0 <= t < array@.len() ==> {
                        let e = #[trigger] array@[t];
                        &&& self.in_patch(e.0 as int, e.1 as int)
                        &&& chf.span_in_cell(e.0 + bs, e.1 + bs, e.2 as int)
                    },
            decreases (if done { 0int } else { 1int }), count_eq(self.data@, 0, data_len as int), array@.len(),
        {
            let ghost prev = (array@, self.data@, dirs@, (cx, cz, ci), done);
            if array.len() == 0 {
                done = true;
                proof {
                    iters = iters + 1;
                }
                continue;
            }
            let e = array.pop().unwrap();
            let ghost rest = array@;
            cx = e.0;
            cz = e.1;
            ci = e.2;
            if cx == pcx && cz == pcz {
                done = true;
                proof {
                    assert(e == prev.0.last());
                    iters = iters + 1;
                }
                continue;
            }
            // If we are already at the correct X-position, prefer direction
            // directly towards the center in the Y-axis; otherwise prefer
            // direction in the X-axis
            let direct_dir = if cx == pcx {
                dir_offset(0, if pcz > cz { 1 } else { -1 })
            } else {
                dir_offset(if pcx > cx { 1 } else { -1 }, 0)
            } as usize;
            proof {
                lemma_patch_cell(self, chf, bs as int, cx as int, cz as int);
            }
            let cs = chf.spans[ci];
            let t_direct = dirs[direct_dir];
            let t_last = dirs[3];
            dirs.set(direct_dir, t_last);
            dirs.set(3, t_direct);
            let ghost zeros0 = count_eq(self.data@, 0, data_len as int);
            let ghost len0 = array@.len();
            let ghost data0 = self.data@;
            proof {
                assert(e == prev.0.last());
                assert(direct_dir == direction_toward(e.0 as int, e.1 as int, gcx, gcz));
                assert(dirs@ =~= prev.2.update(direct_dir as int, prev.2[3]).update(3, prev.2[direct_dir as int]));
            }
            let mut slot: usize = 0;
            while slot < 4
                invariant
                    old_self.xmin == self.xmin,
                    old_self.zmin == self.zmin,
                    old_self.width == self.width,
                    old_self.height == self.height,
                    dirs@.len() == 4,
                    forall|t: int| 0 <= t < 4 ==> #[trigger] dirs@[t] < 4,
                    e == (cx, cz, ci),
                    old_self.walk_push(*chf, bs as int, e, dirs@, rest, data0, slot as int) == (array@, self.data@),
                    chf.wf(),
                    self.fits_field(chf, bs as int),
                    xmin == self.xmin,
                    zmin == self.zmin,
                    pw == self.width,
                    ph == self.height,
                    bsi == bs,
                    cw == chf.width,
                    data_len == self.spec_data_len(),
                    self.data@.len() == old_data.len(),
                    forall|q2: int| data_len <= q2 < self.data@.len() ==> #[trigger] self.data@[q2] == old_data[q2],
                    direct_dir < 4,
                    slot <= 4,
                    cs == chf.spans@[ci as int],
                    self.in_patch(cx as int, cz as int),
                    chf.span_in_cell(cx + bs, cz + bs, ci as int),
                    count_eq(self.data@, 0, data_len as int) + (array@.len() - len0) <= zeros0,
                    array@.len() >= len0,
                    forall|t: int|
                        0 <= t < array@.len() ==> {
                            let e = #[trigger] array@[t];
                            &&& self.in_patch(e.0 as int, e.1 as int)
                            &&& chf.span_in_cell(e.0 + bs, e.1 + bs, e.2 as int)
                        },
                decreases 4 - slot,
            {
                let dir: u8 = dirs[slot];
                if let Some(con) = cs.con(dir) {
                    let new_x = cx + dir_offset_x(dir) as i32;
                    let new_z = cz + dir_offset_z(dir) as i32;
                    let hpx = new_x - xmin;
                    let hpz = new_z - zmin;
                    if !(hpx < 0 || hpx >= pw || hpz < 0 || hpz >= ph) {
                        proof {
                            lemma_patch_index(self, hpx as int, hpz as int);
                        }
                        if *self.data_at(hpx, hpz) == 0 {
                            proof {
                                lemma_count_eq_update(self.data@, 0, data_len as int, hpx + hpz * pw, 1);
                                lemma_patch_cell(self, chf, bs as int, new_x as int, new_z as int);
                                lemma_neighbour_in_cell(chf, cx + bs, cz + bs, ci as int, dir);
                            }
                            *self.data_at_mut(hpx, hpz) = 1;
                            let cell = chf.cells[((new_x + bsi) + (new_z + bsi) * cw) as usize];
                            let new_index = cell.index as i32 + con as i32;
                            array.push((new_x, new_z, new_index as usize));
                        }
                    }
                }
                slot = slot + 1;
            }
            proof {
                assert(old_self.walk(*chf, bs as int, gcx, gcz, s0, iters + 1) == old_self.walk_step(*chf, bs as int, gcx, gcz, prev));
                iters = iters + 1;
            }
        }
        proof {
            assert(old_self.walk(*chf, bs as int, gcx, gcz, old_self.walk_start(start), iters).4);
            assert(old_self.nearest_seed(chf, poly@, verts@, bs as int, npoly as int, gj0, gk0, start.2 as int));
        }
        array.clear();
        // getHeightData seeds are given in coordinates with borders
        array.push((cx + bsi, cz + bsi, ci));
        let mut q: usize = 0;
        while q < data_len
            invariant
                self.fits_field(chf, bs as int),
                data_len == self.spec_data_len(),
                xmin == self.xmin,
                zmin == self.zmin,
                pw == self.width,
                ph == self.height,
                self.data@.len() == old_data.len(),
                q <= data_len,
                forall|q2: int| 0 <= q2 < q ==> #[trigger] self.data@[q2] == 0xffff,
                forall|q2: int| data_len <= q2 < self.data@.len() ==> #[trigger] self.data@[q2] == old_data[q2],
            decreases data_len - q,
        {
            self.data.set(q, RC_UNSET_HEIGHT);
            q = q + 1;
        }
        proof {
            lemma_patch_index(self, (cx - xmin) as int, (cz - zmin) as int);
            lemma_patch_cell(self, chf, bs as int, cx as int, cz as int);
        }
        let cs = chf.spans[ci];
        self.data.set(((cx - xmin) + (cz - zmin) * pw) as usize, cs.y);
    }
}

/// Pushing the neighbours during the walk reads of the patch only its place
/// and size.
proof fn lemma_walk_push_same_patch(
    hp1: HeightPatch,
    hp2: HeightPatch,
    chf: CompactHeightfield,
    bs: int,
    e: (i32, i32, usize),
    dirs: Seq<u8>,
    stack: Seq<(i32, i32, usize)>,
    data: Seq<u16>,
    m: int,
)
    requires
        hp1.xmin == hp2.xmin,
        hp1.zmin == hp2.zmin,
        hp1.width == hp2.width,
        hp1.height == hp2.height,
    ensures
        hp1.walk_push(chf, bs, e, dirs, stack, data, m) == hp2.walk_push(chf, bs, e, dirs, stack, data, m),
    decreases m,
{
    if m > 0 {
        lemma_walk_push_same_patch(hp1, hp2, chf, bs, e, dirs, stack, data, m - 1);
    }
}

/// The walk reads of the patch only its place and size.
proof fn lemma_walk_same_patch(
    hp1: HeightPatch,
    hp2: HeightPatch,
    chf: CompactHeightfield,
    bs: int,
    cx: int,
    cz: int,
    st: (Seq<(i32, i32, usize)>, Seq<u16>, Seq<u8>, (i32, i32, usize), bool),
    k: nat,
)
    requires
        hp1.xmin == hp2.xmin,
        hp1.zmin == hp2.zmin,
        hp1.width == hp2.width,
        hp1.height == hp2.height,
    ensures
        hp1.walk(chf, bs, cx, cz, st, k) == hp2.walk(chf, bs, cx, cz, st, k),
    decreases k,
{
    if k > 0 {
        lemma_walk_same_patch(hp1, hp2, chf, bs, cx, cz, st, (k - 1) as nat);
        let prev = hp1.walk(chf, bs, cx, cz, st, (k - 1) as nat);
        let (stack, data, dirs, cur, done) = prev;
        if !done && stack.len() > 0 {
            let e = stack.last();
            let d = direction_toward(e.0 as int, e.1 as int, cx, cz);
            let dirs2 = dirs.update(d, dirs[3]).update(3, dirs[d]);
            lemma_walk_push_same_patch(hp1, hp2, chf, bs, e, dirs2, stack.drop_last(), data, 4);
        }
        assert(hp1.walk_step(chf, bs, cx, cz, prev) == hp2.walk_step(chf, bs, cx, cz, prev));
    }
}

/// Where the walk toward the centre stops depends on the patch only through
/// its place, its size, and the entries past its cells.
proof fn lemma_centre_seed_same_patch(
    hp1: HeightPatch,
    hp2: HeightPatch,
    chf: &CompactHeightfield,
    poly: Seq<u16>,
    verts: Seq<(i32, i32, i32)>,
    bs: int,
    npoly: int,
    seed: (i32, i32, usize),
)
    requires
        hp1.xmin == hp2.xmin,
        hp1.zmin == hp2.zmin,
        hp1.width == hp2.width,
        hp1.height == hp2.height,
        cleared(hp1.data@, hp1.spec_data_len()) == cleared(hp2.data@, hp2.spec_data_len()),
        hp1.centre_seed(chf, poly, verts, bs, npoly, seed),
    ensures
        hp2.centre_seed(chf, poly, verts, bs, npoly, seed),
{
    let cx = centre_coord(coord_sum(verts, poly, npoly, 0), npoly);
    let cz = centre_coord(coord_sum(verts, poly, npoly, 2), npoly);
    let (start, k, j0, k0) = choose|start: (i32, i32, usize), k: nat, j0: int, k0: int|
        {
            let v = verts[poly[j0] as int];
            let st = #[trigger] hp1.walk(*chf, bs, cx, cz, hp1.walk_start(start), k);
            &&& #[trigger] hp1.nearest_seed(chf, poly, verts, bs, npoly, j0, k0, start.2 as int)
            &&& start.0 == v.0 + seed_offset_spec(k0).0
            &&& start.1 == v.2 + seed_offset_spec(k0).1
            &&& hp1.in_patch(start.0 as int, start.1 as int)
            &&& chf.span_in_cell(start.0 + bs, start.1 + bs, start.2 as int)
            &&& st.4
            &&& seed == ((st.3.0 + bs) as i32, (st.3.1 + bs) as i32, st.3.2)
        };
    assert(hp1.walk_start(start) == hp2.walk_start(start));
    lemma_walk_same_patch(hp1, hp2, *chf, bs, cx, cz, hp1.walk_start(start), k);
    assert forall|j2: int, k2: int, i2: int|
        0 <= j2 < npoly && 0 <= k2 < 9 && #[trigger] hp2.seed_candidate(chf, poly, verts, bs, j2, k2, i2) implies {
        &&& HeightPatch::seed_gap(chf, poly, verts, j2, i2) >= HeightPatch::seed_gap(chf, poly, verts, j0, start.2 as int)
        &&& (lex_before(j2, k2, i2, j0, k0, start.2 as int) ==> HeightPatch::seed_gap(chf, poly, verts, j2, i2)
            > HeightPatch::seed_gap(chf, poly, verts, j0, start.2 as int))
    } by {
        assert(hp1.seed_candidate(chf, poly, verts, bs, j2, k2, i2));
    }
    assert(hp2.seed_candidate(chf, poly, verts, bs, j0, k0, start.2 as int));
    assert(hp2.nearest_seed(chf, poly, verts, bs, npoly, j0, k0, start.2 as int));
    assert(hp2.walk(*chf, bs, cx, cz, hp2.walk_start(start), k).4);
}

/// Cell `(x, z)` of the patch, with the border added, is a cell of the
/// field's grid, found at an index that fits in `i32`.
proof fn lemma_patch_cell(hp: &HeightPatch, chf: &CompactHeightfield, bs: int, x: int, z: int)
    requires
        chf.wf(),
        hp.fits_field(chf, bs),
        hp.in_patch(x, z),
        0 <= bs,
    ensures
        0 <= (x + bs) + (z + bs) * chf.width < chf.cells@.len(),
        (x + bs) + (z + bs) * chf.width <= 0x7fff_ffff,
        (z + bs) * chf.width <= 0x7fff_ffff,
        chf.cells@[(x + bs) + (z + bs) * chf.width].index + chf.cells@[(x + bs) + (z + bs) * chf.width].count
            <= chf.spans@.len(),
{
    assert((x + bs) + (z + bs) * chf.width < chf.width * chf.height) by (nonlinear_arith)
        requires
            0 <= x + bs < chf.width,
            0 <= z + bs < chf.height,
    ;
    assert(0 <= (z + bs) * chf.width) by (nonlinear_arith)
        requires
            0 <= z + bs,
    ;
}

/// Cell `(x, z)` of the patch has its height in `data`, at an index that
/// fits in `i32`.
proof fn lemma_patch_index(hp: &HeightPatch, x: int, z: int)
    requires
        0 <= x < hp.width,
        0 <= z < hp.height,
        hp.spec_data_len() <= hp.data@.len(),
        hp.spec_data_len() <= 0x7fff_ffff,
    ensures
        hp.index_fits(x, z),
        x + z * hp.width < hp.spec_data_len(),
{
    assert(x + z * hp.width < hp.width * hp.height) by (nonlinear_arith)
        requires
            0 <= x < hp.width,
            0 <= z < hp.height,
    ;
    assert(0 <= z * hp.width) by (nonlinear_arith)
        requires
            0 <= z,
    ;
}

/// A span lies in one cell of the grid only.
proof fn lemma_span_cell_unique_ch(chf: &CompactHeightfield, x: int, z: int, i: int)
    requires
        chf.wf(),
    ensures
        forall|x2: int, z2: int| chf.span_in_cell(x2, z2, i) && chf.span_in_cell(x, z, i) ==> x2 == x && z2 == z,
{
    assert forall|x2: int, z2: int| chf.span_in_cell(x2, z2, i) && chf.span_in_cell(x, z, i) implies x2 == x && z2 == z by {
        assert(x2 + z2 * chf.width < chf.width * chf.height) by (nonlinear_arith)
            requires
                0 <= x2 < chf.width,
                0 <= z2 < chf.height,
        ;
        assert(x + z * chf.width < chf.width * chf.height) by (nonlinear_arith)
            requires
                0 <= x < chf.width,
                0 <= z < chf.height,
        ;
        assert(0 <= z2 * chf.width) by (nonlinear_arith)
            requires
                0 <= z2,
        ;
        assert(0 <= z * chf.width) by (nonlinear_arith)
            requires
                0 <= z,
        ;
        assert(in_cell(chf.cells@, x2 + z2 * chf.width, i));
        assert(in_cell(chf.cells@, x + z * chf.width, i));
        vstd::arithmetic::div_mod::lemma_fundamental_div_mod_converse(x + z * chf.width, chf.width as int, z, x);
        vstd::arithmetic::div_mod::lemma_fundamental_div_mod_converse(x2 + z2 * chf.width, chf.width as int, z2, x2);
    }
}

/// The connection of span `i` of cell `(x, z)` in direction `dir` leads to
/// a span of the neighbour cell.
proof fn lemma_neighbour_in_cell(chf: &CompactHeightfield, x: int, z: int, i: int, dir: u8)
    requires
        chf.wf(),
        chf.span_in_cell(x, z, i),
        dir < 4,
        chf.spans@[i].spec_con(dir) is Some,
    ensures
        chf.span_in_cell(
            x + spec_dir_offset_x(dir),
            z + spec_dir_offset_z(dir),
            chf.cells@[(x + spec_dir_offset_x(dir)) + (z + spec_dir_offset_z(dir)) * chf.width].index + chf.spans@[i].spec_con(
                dir,
            )->0,
        ),
{
    let c = x + z * chf.width;
    assert(c < chf.width * chf.height) by (nonlinear_arith)
        requires
            0 <= x < chf.width,
            0 <= z < chf.height,
            c == x + z * chf.width,
    ;
    assert(0 <= z * chf.width) by (nonlinear_arith)
        requires
            0 <= z,
    ;
    vstd::arithmetic::div_mod::lemma_fundamental_div_mod_converse(c, chf.width as int, z, x);
    assert(in_cell(chf.cells@, c, i));
    assert(chf.spans@[i].spec_con(dir) is Some);
}

/// The first span among `lo..hi` of region `region`.
pub open spec fn first_region_span(chf: &CompactHeightfield, lo: int, hi: int, region: RegionId) -> Option<int>
    decreases hi - lo,
{
    if lo >= hi {
        None
    } else if chf.spans@[lo].region == region {
        Some(lo)
    } else {
        first_region_span(chf, lo + 1, hi, region)
    }
}

/// The span found by [`first_region_span`] lies in `lo..hi`.
proof fn lemma_first_region_span_range(chf: &CompactHeightfield, lo: int, hi: int, region: RegionId)
    ensures
        first_region_span(chf, lo, hi, region) matches Some(i) ==> lo <= i < hi && chf.spans@[i].region == region,
    decreases hi - lo,
{
    if lo < hi && chf.spans@[lo].region != region {
        lemma_first_region_span_range(chf, lo + 1, hi, region);
    }
}

/// Some span of the field has height `h`.
pub open spec fn is_span_height(chf: &CompactHeightfield, h: u16) -> bool {
    exists|i: int| 0 <= i < chf.spans@.len() && #[trigger] chf.spans@[i].y == h
}

impl HeightPatch {
    /// The cell of the field under patch cell `(hx, hz)`.
    pub open spec fn field_cell(&self, chf: &CompactHeightfield, bs: int, hx: int, hz: int) -> int {
        (self.xmin + hx + bs) + (self.zmin + hz + bs) * chf.width
    }

    /// The first span of region `region` in the field cell under patch
    /// cell `(hx, hz)`.
    pub open spec fn region_span_at(&self, chf: &CompactHeightfield, bs: int, hx: int, hz: int, region: RegionId) -> Option<int> {
        let c = chf.cells@[self.field_cell(chf, bs, hx, hz)];
        first_region_span(chf, c.index as int, c.index + c.count, region)
    }

    /// The field cell under patch cell `(hx, hz)` holds a span of region
    /// `region`.
    pub open spec fn has_region_span(&self, chf: &CompactHeightfield, bs: int, hx: int, hz: int, region: RegionId) -> bool {
        self.region_span_at(chf, bs, hx, hz, region) is Some
    }

    /// Some cell of the patch holds a span of region `region`.
    pub open spec fn patch_has_region(&self, chf: &CompactHeightfield, bs: int, region: RegionId) -> bool {
        exists|hx: int, hz: int|
            0 <= hx < self.width && 0 <= hz < self.height && #[trigger] self.has_region_span(chf, bs, hx, hz, region)
    }

    /// The heights of the patch hold the first span of `region` of each
    /// cell that has one.
    pub open spec fn region_heights(&self, chf: &CompactHeightfield, bs: int, region: RegionId, data: Seq<u16>) -> bool {
        forall|hx: int, hz: int|
            0 <= hx < self.width && 0 <= hz < self.height && #[trigger] self.has_region_span(chf, bs, hx, hz, region)
                ==> data[hx + hz * self.width] == chf.spans@[self.region_span_at(chf, bs, hx, hz, region)->0].y
    }

    /// The flood's seeds from the region: of the first `m` patch cells, row
    /// after row, the first span of `region` of each cell that has one, where
    /// that span lies on the region's border; in field coordinates with the
    /// border.
    pub open spec fn region_seeds(&self, chf: &CompactHeightfield, bs: int, region: RegionId, m: int) -> Seq<(i32, i32, usize)>
        decreases m,
    {
        if m <= 0 || self.width == 0 {
            seq![]
        } else {
            let prev = self.region_seeds(chf, bs, region, m - 1);
            let hx = (m - 1) % (self.width as int);
            let hz = (m - 1) / (self.width as int);
            match self.region_span_at(chf, bs, hx, hz, region) {
                Some(i) => if chf.region_border_spec(self.xmin + hx + bs, self.zmin + hz + bs, i, region) {
                    prev.push(((self.xmin + hx + bs) as i32, (self.zmin + hz + bs) as i32, i as usize))
                } else {
                    prev
                },
                None => prev,
            }
        }
    }

    /// The heights before the flood from the region: each patch cell holds
    /// the height of its first span of `region`, or is unset; entries past
    /// the patch are those of `data`.
    pub open spec fn region_data(&self, chf: &CompactHeightfield, bs: int, region: RegionId, data: Seq<u16>) -> Seq<u16> {
        Seq::new(
            data.len(),
            |q: int|
                if q < self.spec_data_len() && self.has_region_span(chf, bs, q % (self.width as int), q / (self.width as int), region) {
                    chf.spans@[self.region_span_at(chf, bs, q % (self.width as int), q / (self.width as int), region)->0].y
                } else if q < self.spec_data_len() {
                    0xffffu16
                } else {
                    data[q]
                },
        )
    }

    /// The heights before the flood from the seed `seed` of height `y`: only
    /// the seed's cell is set; entries past the patch are those of the patch.
    pub open spec fn seed_data(&self, bs: int, seed: (i32, i32, usize), y: u16) -> Seq<u16> {
        Seq::new(
            self.data@.len(),
            |q: int|
                if q == (seed.0 - bs - self.xmin) + (seed.1 - bs - self.zmin) * self.width {
                    y
                } else if q < self.spec_data_len() {
                    0xffffu16
                } else {
                    self.data@[q]
                },
        )
    }

    /// The flood's queue and heights after the neighbours of span `e` in the
    /// first `m` directions have been looked at: a linked neighbour whose
    /// patch cell is still unset gets its span's height there and is queued.
    pub open spec fn flood_push(
        &self,
        chf: &CompactHeightfield,
        bs: int,
        e: (i32, i32, usize),
        pending: Seq<(i32, i32, usize)>,
        data: Seq<u16>,
        m: int,
    ) -> (Seq<(i32, i32, usize)>, Seq<u16>)
        decreases m,
    {
        if m <= 0 {
            (pending, data)
        } else {
            let prev = self.flood_push(chf, bs, e, pending, data, m - 1);
            let dir = (m - 1) as u8;
            match chf.spans@[e.2 as int].spec_con(dir) {
                None => prev,
                Some(con) => {
                    let ax = e.0 + spec_dir_offset_x(dir);
                    let az = e.1 + spec_dir_offset_z(dir);
                    let hx = ax - self.xmin - bs;
                    let hz = az - self.zmin - bs;
                    let q = hx + hz * self.width;
                    if 0 <= hx < self.width && 0 <= hz < self.height && prev.1[q] == 0xffff {
                        let ai = chf.cells@[ax + az * chf.width].index + con;
                        (prev.0.push((ax as i32, az as i32, ai as usize)), prev.1.update(q, chf.spans@[ai].y))
                    } else {
                        prev
                    }
                },
            }
        }
    }

    /// One step of the breadth-first flood: the first queued span is taken
    /// and its unset neighbours are filled and queued.
    pub open spec fn flood_step(
        &self,
        chf: &CompactHeightfield,
        bs: int,
        st: (Seq<(i32, i32, usize)>, Seq<u16>),
    ) -> (Seq<(i32, i32, usize)>, Seq<u16>) {
        if st.0.len() == 0 {
            st
        } else {
            self.flood_push(chf, bs, st.0[0], st.0.drop_first(), st.1, 4)
        }
    }

    /// The flood's queue and heights after `k` steps from `st`.
    pub open spec fn flood(
        &self,
        chf: &CompactHeightfield,
        bs: int,
        st: (Seq<(i32, i32, usize)>, Seq<u16>),
        k: nat,
    ) -> (Seq<(i32, i32, usize)>, Seq<u16>)
        decreases k,
    {
        if k == 0 {
            st
        } else {
            self.flood_step(chf, bs, self.flood(chf, bs, st, (k - 1) as nat))
        }
    }

    /// Fills the patch with the heights under polygon `poly`: the spans of
    /// `region` are copied and flood-filled from the region's border (or
    /// from the span where the walk toward the polygon's centre stops, when
    /// the region has no span in the patch) over the connected spans of the
    /// field, breadth first; cells not reached stay unset.
    ///
    /// Reads of the field are offset by the border size `bs`, since it is
    /// already removed from the polygon mesh vertices.
    pub fn get_height_data(
        &mut self,
        chf: &CompactHeightfield,
        poly: &Vec<u16>,
        npoly: usize,
        verts: &Vec<(i32, i32, i32)>,
        bs: u16,
        queue: &mut Vec<(i32, i32, usize)>,
        region: RegionId,
    )
        requires
            chf.wf(),
            old(self).fits_field(chf, bs as int),
            old(self).spec_data_len() <= old(self).data@.len(),
            forall|i: int| 0 <= i < chf.spans@.len() ==> #[trigger] chf.spans@[i].y != 0xffff,
            region.bits != 0 && old(self).width > 0 && old(self).height > 0 ==> (old(self).xmin + bs + old(self).width - 1) + (
            old(self).zmin + bs + old(self).height - 1) * chf.width <= 0xffff,
            region.bits == 0 || !old(self).patch_has_region(chf, bs as int, region) ==> {
                &&& HeightPatch::poly_verts_ok(poly@, npoly as int, verts@)
                &&& exists|j: int, k: int, i: int|
                    0 <= j < npoly && 0 <= k < 9 && #[trigger] old(self).seed_candidate(chf, poly@, verts@, bs as int, j, k, i)
            },
        ensures
            final(self).xmin == old(self).xmin,
            final(self).zmin == old(self).zmin,
            final(self).width == old(self).width,
            final(self).height == old(self).height,
            final(self).data@.len() == old(self).data@.len(),
            region.bits != 0 ==> old(self).region_heights(chf, bs as int, region, final(self).data@),
            forall|q: int|
                0 <= q < old(self).spec_data_len() ==> #[trigger] final(self).data@[q] == 0xffff || is_span_height(
                    chf,
                    final(self).data@[q],
                ),
            forall|q: int|
                old(self).spec_data_len() <= q < final(self).data@.len() ==> #[trigger] final(self).data@[q] == old(self).data@[q],
            exists|st0: (Seq<(i32, i32, usize)>, Seq<u16>), k: nat|
                {
                    let st = #[trigger] old(self).flood(chf, bs as int, st0, k);
                    &&& (if region.bits != 0 && old(self).patch_has_region(chf, bs as int, region) {
                        st0 == (
                            old(self).region_seeds(chf, bs as int, region, old(self).height * old(self).width),
                            old(self).region_data(chf, bs as int, region, old(self).data@),
                        )
                    } else {
                        &&& st0.0.len() == 1
                        &&& old(self).centre_seed(chf, poly@, verts@, bs as int, npoly as int, st0.0[0])
                        &&& st0.1 == old(self).seed_data(bs as int, st0.0[0], chf.spans@[st0.0[0].2 as int].y)
                    })
                    &&& st.0.len() == 0
                    &&& final(self).data@ == st.1
                },
    {
        let ghost old_data = self.data@;
        let ghost hp0 = *self;
        proof {
            assert(chf.spans.len() == chf.spans@.len());
        }
        queue.clear();
        let data_len = self.data_len();
        let mut q: usize = 0;
        while q < data_len
            invariant
                self.fits_field(chf, bs as int),
                data_len == self.spec_data_len(),
                data_len <= self.data@.len(),
                self.xmin == hp0.xmin,
                self.zmin == hp0.zmin,
                self.width == hp0.width,
                self.height == hp0.height,
                self.data@.len() == old_data.len(),
                q <= data_len,
                forall|q2: int| 0 <= q2 < q ==> #[trigger] self.data@[q2] == 0xffff,
                forall|q2: int| data_len <= q2 < self.data@.len() ==> #[trigger] self.data@[q2] == old_data[q2],
            decreases data_len - q,
        {
            self.data.set(q, RC_UNSET_HEIGHT);
            q = q + 1;
        }
        let mut empty = true;
        // We cannot sample from this poly if it was created from polys
        // of different regions. If it was then it could potentially be overlapping
        // with polys of that region and the heights sampled here could be wrong.
        if region.bits != 0 {
            // Copy the height from the same region, and mark region borders
            // as seed points to fill the rest.
            proof {
                assert forall|hx2: int, hz2: int| 0 <= hx2 < self.width && 0 <= hz2 < self.height implies self.data@[
                    #[trigger] (hx2 + hz2 * self.width)] == 0xffff by {
                    lemma_patch_index(self, hx2, hz2);
                }
                assert(queue@ =~= hp0.region_seeds(chf, bs as int, region, 0 * self.width));
            }
            let mut hz: u16 = 0;
            while hz < self.height
                invariant
                    chf.wf(),
                    self.fits_field(chf, bs as int),
                    data_len == self.spec_data_len(),
                    data_len <= self.data@.len(),
                    self.xmin == hp0.xmin,
                    self.zmin == hp0.zmin,
                    self.width == hp0.width,
                    self.height == hp0.height,
                    self.data@.len() == old_data.len(),
                    region.bits != 0,
                    self.width > 0 && self.height > 0 ==> (self.xmin + bs + self.width - 1) + (self.zmin + bs + self.height
                        - 1) * chf.width <= 0xffff,
                    hz <= self.height,
                    forall|q2: int| data_len <= q2 < self.data@.len() ==> #[trigger] self.data@[q2] == old_data[q2],
                    forall|q2: int| 0 <= q2 < data_len ==> #[trigger] self.data@[q2] == 0xffff || is_span_height(chf, self.data@[q2]),
                    forall|hx2: int, hz2: int|
                        0 <= hx2 < self.width && 0 <= hz2 < hz && #[trigger] hp0.has_region_span(chf, bs as int, hx2, hz2, region)
                            ==> self.data@[hx2 + hz2 * self.width] == chf.spans@[hp0.region_span_at(chf, bs as int, hx2, hz2, region)->0].y,
                    empty ==> forall|hx2: int, hz2: int|
                        0 <= hx2 < self.width && 0 <= hz2 < hz ==> !#[trigger] hp0.has_region_span(chf, bs as int, hx2, hz2, region),
                    forall|t: int|
                        0 <= t < queue@.len() ==> {
                            let e = #[trigger] queue@[t];
                            &&& chf.span_in_cell(e.0 as int, e.1 as int, e.2 as int)
                            &&& 0 <= e.0 - self.xmin - bs < self.width
                            &&& 0 <= e.1 - self.zmin - bs < self.height
                        },
                    queue@ == hp0.region_seeds(chf, bs as int, region, hz * self.width),
                    !empty ==> hp0.patch_has_region(chf, bs as int, region),
                    forall|hx2: int, hz2: int|
                        0 <= hx2 < self.width && 0 <= hz2 < self.height && !(hz2 < hz && hp0.has_region_span(chf, bs as int, hx2, hz2, region))
                            ==> self.data@[#[trigger] (hx2 + hz2 * self.width)] == 0xffff,
                decreases self.height - hz,
            {
                let z = self.zmin + hz + bs;
                let mut hx: u16 = 0;
                while hx < self.width
                    invariant
                        chf.wf(),
                        self.fits_field(chf, bs as int),
                        data_len == self.spec_data_len(),
                        data_len <= self.data@.len(),
                        self.xmin == hp0.xmin,
                        self.zmin == hp0.zmin,
                        self.width == hp0.width,
                        self.height == hp0.height,
                        self.data@.len() == old_data.len(),
                        region.bits != 0,
                        self.width > 0 ==> (self.xmin + bs + self.width - 1) + (self.zmin + bs + self.height - 1) * chf.width
                            <= 0xffff,
                        hz < self.height,
                        z == self.zmin + hz + bs,
                        hx <= self.width,
                        forall|q2: int| data_len <= q2 < self.data@.len() ==> #[trigger] self.data@[q2] == old_data[q2],
                        forall|q2: int| 0 <= q2 < data_len ==> #[trigger] self.data@[q2] == 0xffff || is_span_height(chf, self.data@[q2]),
                        forall|hx2: int, hz2: int|
                            0 <= hx2 < self.width && 0 <= hz2 < self.height && (hz2 < hz || (hz2 == hz && hx2 < hx)) && #[trigger] hp0.has_region_span(chf, bs as int, hx2, hz2, region) ==> self.data@[hx2 + hz2 * self.width] == chf.spans@[hp0.region_span_at(chf, bs as int, hx2, hz2, region)->0].y,
                        empty ==> forall|hx2: int, hz2: int|
                            0 <= hx2 < self.width && 0 <= hz2 < self.height && (hz2 < hz || (hz2 == hz && hx2 < hx)) ==> !#[trigger] hp0.has_region_span(chf, bs as int, hx2, hz2, region),
                        forall|t: int|
                            0 <= t < queue@.len() ==> {
                                let e = #[trigger] queue@[t];
                                &&& chf.span_in_cell(e.0 as int, e.1 as int, e.2 as int)
                                &&& 0 <= e.0 - self.xmin - bs < self.width
                                &&& 0 <= e.1 - self.zmin - bs < self.height
                            },
                        queue@ == hp0.region_seeds(chf, bs as int, region, hx + hz * self.width),
                        !empty ==> hp0.patch_has_region(chf, bs as int, region),
                        forall|hx2: int, hz2: int|
                            0 <= hx2 < self.width && 0 <= hz2 < self.height && !((hz2 < hz || (hz2 == hz && hx2 < hx)) && hp0.has_region_span(chf, bs as int, hx2, hz2, region))
                                ==> self.data@[#[trigger] (hx2 + hz2 * self.width)] == 0xffff,
                    decreases self.width - hx,
                {
                    let x = self.xmin + hx + bs;
                    proof {
                        lemma_patch_cell(self, chf, bs as int, (self.xmin + hx) as int, (self.zmin + hz) as int);
                        lemma_patch_index(self, hx as int, hz as int);
                        assert(x + z * chf.width <= (self.xmin + bs + self.width - 1) + (self.zmin + bs + self.height - 1) * chf.width) by (nonlinear_arith)
                            requires
                                x <= self.xmin + bs + self.width - 1,
                                z <= self.zmin + bs + self.height - 1,
                        ;
                    }
                    let c = chf.cells[(x + z * chf.width) as usize];
                    let end = c.index as usize + c.count as usize;
                    let mut i = c.index as usize;
                    let mut found = false;
                    while i < end && !found
                        invariant
                            chf.wf(),
                            self.fits_field(chf, bs as int),
                            data_len == self.spec_data_len(),
                            data_len <= self.data@.len(),
                            self.xmin == hp0.xmin,
                            self.zmin == hp0.zmin,
                            self.width == hp0.width,
                            self.height == hp0.height,
                            self.data@.len() == old_data.len(),
                            hz < self.height,
                            hx < self.width,
                            z == self.zmin + hz + bs,
                            x == self.xmin + hx + bs,
                            c == chf.cells@[self.field_cell(chf, bs as int, hx as int, hz as int)],
                            end == c.index + c.count,
                            end <= chf.spans@.len(),
                            c.index <= i <= end,
                            !found ==> first_region_span(chf, c.index as int, end as int, region) == first_region_span(
                                chf,
                                i as int,
                                end as int,
                                region,
                            ),
                            found ==> hp0.has_region_span(chf, bs as int, hx as int, hz as int, region)
                                && self.data@[hx + hz * self.width] == chf.spans@[hp0.region_span_at(chf, bs as int, hx as int, hz as int, region)->0].y
                                && !empty,
                            forall|q2: int| data_len <= q2 < self.data@.len() ==> #[trigger] self.data@[q2] == old_data[q2],
                            forall|q2: int| 0 <= q2 < data_len ==> #[trigger] self.data@[q2] == 0xffff || is_span_height(chf, self.data@[q2]),
                            forall|hx2: int, hz2: int|
                                0 <= hx2 < self.width && 0 <= hz2 < self.height && (hz2 < hz || (hz2 == hz && hx2 < hx)) && #[trigger] hp0.has_region_span(chf, bs as int, hx2, hz2, region) ==> self.data@[hx2 + hz2 * self.width] == chf.spans@[hp0.region_span_at(chf, bs as int, hx2, hz2, region)->0].y,
                            empty ==> forall|hx2: int, hz2: int|
                                0 <= hx2 < self.width && 0 <= hz2 < self.height && (hz2 < hz || (hz2 == hz && hx2 < hx)) ==> !#[trigger] hp0.has_region_span(chf, bs as int, hx2, hz2, region),
                            forall|t: int|
                                0 <= t < queue@.len() ==> {
                                    let e = #[trigger] queue@[t];
                                    &&& chf.span_in_cell(e.0 as int, e.1 as int, e.2 as int)
                                    &&& 0 <= e.0 - self.xmin - bs < self.width
                                    &&& 0 <= e.1 - self.zmin - bs < self.height
                                },
                            found ==> i < end && first_region_span(chf, c.index as int, end as int, region) == Some(i as int),
                            !found ==> queue@ == hp0.region_seeds(chf, bs as int, region, hx + hz * self.width),
                            !empty ==> hp0.patch_has_region(chf, bs as int, region),
                            found ==> queue@ == (if chf.region_border_spec(x as int, z as int, i as int, region) {
                                hp0.region_seeds(chf, bs as int, region, hx + hz * self.width).push((x as i32, z as i32, i))
                            } else {
                                hp0.region_seeds(chf, bs as int, region, hx + hz * self.width)
                            }),
                            forall|hx2: int, hz2: int|
                                0 <= hx2 < self.width && 0 <= hz2 < self.height && !((hz2 < hz || (hz2 == hz && hx2 < hx)) && hp0.has_region_span(chf, bs as int, hx2, hz2, region))
                                    && !(found && hx2 == hx && hz2 == hz) ==> self.data@[#[trigger] (hx2 + hz2 * self.width)] == 0xffff,
                        decreases end - i, (if found { 0int } else { 1int }),
                    {
                        let s = chf.spans[i];
                        if s.region == region {
                            // Store height
                            proof {
                                lemma_patch_index(self, hx as int, hz as int);
                                lemma_patch_index_unique_all(self, hx as int, hz as int);
                            }
                            let ghost before = self.data@;
                            *self.data_at_mut(hx as i32, hz as i32) = s.y;
                            empty = false;
                            proof {
                                assert(first_region_span(chf, i as int, end as int, region) == Some(i as int));
                                assert(hp0.has_region_span(chf, bs as int, hx as int, hz as int, region));
                                assert(is_span_height(chf, s.y));
                                assert forall|q2: int| 0 <= q2 < data_len implies #[trigger] self.data@[q2] == 0xffff || is_span_height(
                                    chf,
                                    self.data@[q2],
                                ) by {
                                    if q2 != hx + hz * self.width {
                                        assert(self.data@[q2] == before[q2]);
                                    }
                                }
                                assert forall|q2: int| data_len <= q2 < self.data@.len() implies #[trigger] self.data@[q2] == old_data[q2] by {
                                    assert(self.data@[q2] == before[q2]);
                                }
                                assert forall|hx2: int, hz2: int|
                                    0 <= hx2 < self.width && 0 <= hz2 < self.height && (hz2 < hz || (hz2 == hz && hx2 < hx))
                                        && #[trigger] hp0.has_region_span(chf, bs as int, hx2, hz2, region) implies self.data@[hx2
                                    + hz2 * self.width] == chf.spans@[hp0.region_span_at(chf, bs as int, hx2, hz2, region)->0].y by {
                                    lemma_patch_index(self, hx2, hz2);
                                    lemma_patch_index_unique_all(self, hx as int, hz as int);
                                    assert(hx2 + hz2 * self.width != hx + hz * self.width);
                                    assert(self.data@[hx2 + hz2 * self.width] == before[hx2 + hz2 * self.width]);
                                }
                                assert forall|hx2: int, hz2: int|
                                    0 <= hx2 < self.width && 0 <= hz2 < self.height && !((hz2 < hz || (hz2 == hz && hx2 < hx))
                                        && hp0.has_region_span(chf, bs as int, hx2, hz2, region)) && !(hx2 == hx && hz2 == hz)
                                        implies self.data@[#[trigger] (hx2 + hz2 * self.width)] == 0xffff by {
                                    lemma_patch_index(self, hx2, hz2);
                                    assert(hx2 + hz2 * self.width != hx + hz * self.width);
                                    assert(self.data@[hx2 + hz2 * self.width] == before[hx2 + hz2 * self.width]);
                                }
                            }
                            // If any of the neighbours is not in same region,
                            // add the current location as flood fill start
                            if chf.on_region_border(x, z, i, region) {
                                queue.push((x as i32, z as i32, i));
                            }
                            found = true;
                        } else {
                            i = i + 1;
                        }
                    }
                    proof {
                        if !found {
                            assert(first_region_span(chf, end as int, end as int, region) is None);
                        }
                        let m = hx + hz * self.width;
                        vstd::arithmetic::div_mod::lemma_fundamental_div_mod_converse(m, self.width as int, hz as int, hx as int);
                        assert(hp0.region_span_at(chf, bs as int, hx as int, hz as int, region) == (if found {
                            Some(i as int)
                        } else {
                            None
                        }));
                        assert(hp0.region_seeds(chf, bs as int, region, m + 1) == (if found && chf.region_border_spec(
                            x as int,
                            z as int,
                            i as int,
                            region,
                        ) {
                            hp0.region_seeds(chf, bs as int, region, m).push((x as i32, z as i32, i))
                        } else {
                            hp0.region_seeds(chf, bs as int, region, m)
                        }));
                    }
                    hx = hx + 1;
                }
                proof {
                    assert(hx + hz * self.width == (hz + 1) * self.width) by (nonlinear_arith)
                        requires
                            hx == self.width,
                    ;
                }
                hz = hz + 1;
            }
        }
        // if the polygon does not contain any points from the current region (rare, but happens)
        // or if it could potentially be overlapping polygons of the same region,
        // then use the center as the seed point.
        if empty {
            proof {
                if region.bits != 0 {
                    assert(!hp0.patch_has_region(chf, bs as int, region));
                }
                let (j0, k0, i0) = choose|j0: int, k0: int, i0: int|
                    0 <= j0 < npoly && 0 <= k0 < 9 && #[trigger] hp0.seed_candidate(chf, poly@, verts@, bs as int, j0, k0, i0);
                assert(self.seed_candidate(chf, poly@, verts@, bs as int, j0, k0, i0));
            }
            let ghost hp_call = *self;
            self.seed_array_with_poly_center(chf, poly, npoly, verts, bs, queue);
            proof {
                assert(cleared(hp_call.data@, hp_call.spec_data_len()) =~= cleared(hp0.data@, hp0.spec_data_len()));
                lemma_centre_seed_same_patch(hp_call, hp0, chf, poly@, verts@, bs as int, npoly as int, queue@[0]);
                assert(self.data@ =~= hp0.seed_data(bs as int, queue@[0], chf.spans@[queue@[0].2 as int].y));
                let sd = queue@[0];
                lemma_patch_index(self, sd.0 - bs - self.xmin, sd.1 - bs - self.zmin);
                lemma_span_index(chf, sd.0 as int, sd.1 as int, sd.2 as int);
                assert(is_span_height(chf, chf.spans@[sd.2 as int].y));
                assert forall|q2: int| 0 <= q2 < data_len implies #[trigger] self.data@[q2] == 0xffff || is_span_height(
                    chf,
                    self.data@[q2],
                ) by {
                    assert(chf.spans@[sd.2 as int].y == chf.spans@[sd.2 as int].y);
                }
            }
        }
        let ghost patch_data = self.data@;
        proof {
            if region.bits != 0 {
                assert forall|hx: int, hz: int|
                    0 <= hx < hp0.width && 0 <= hz < hp0.height && #[trigger] hp0.has_region_span(chf, bs as int, hx, hz, region) implies patch_data[hx + hz * hp0.width] == chf.spans@[hp0.region_span_at(chf, bs as int, hx, hz, region)->0].y by {
                    assert(!empty);
                }
            }
        }
        let retract_size: usize = 256;
        let mut head: usize = 0;
        let ghost flood_start = (queue@, self.data@);
        let ghost mut steps: nat = 0;
        proof {
            if region.bits != 0 && hp0.patch_has_region(chf, bs as int, region) {
                assert(!empty);
                assert(queue@ == hp0.region_seeds(chf, bs as int, region, hp0.height * hp0.width));
                assert forall|q: int| 0 <= q < self.data@.len() implies #[trigger] self.data@[q] == hp0.region_data(
                    chf,
                    bs as int,
                    region,
                    old_data,
                )[q] by {
                    if q < data_len {
                        let hx = q % (hp0.width as int);
                        let hz = q / (hp0.width as int);
                        vstd::arithmetic::div_mod::lemma_fundamental_div_mod(q, hp0.width as int);
                        assert(0 <= hz < hp0.height) by (nonlinear_arith)
                            requires
                                q == hp0.width * hz + hx,
                                0 <= hx < hp0.width,
                                0 <= q < hp0.width * hp0.height,
                        ;
                        assert(q == hx + hz * hp0.width) by (nonlinear_arith)
                            requires
                                q == hp0.width * hz + hx,
                        ;
                        if hp0.has_region_span(chf, bs as int, hx, hz, region) {
                            assert(patch_data[hx + hz * hp0.width] == chf.spans@[hp0.region_span_at(chf, bs as int, hx, hz, region)->0].y);
                        } else {
                            assert(self.data@[hx + hz * self.width] == 0xffff);
                        }
                    }
                }
                assert(self.data@ =~= hp0.region_data(chf, bs as int, region, old_data));
            } else {
                assert(empty);
            }
        }
        proof {
            assert(queue@.subrange(0, queue@.len() as int) =~= queue@);
        }
        // We assume the seed is centered in the polygon, so a BFS to collect
        // height data will ensure we do not move onto overlapping polygons and
        // sample wrong heights.
        while head < queue.len()
            invariant
                chf.wf(),
                self.fits_field(chf, bs as int),
                data_len == self.spec_data_len(),
                data_len <= self.data@.len(),
                self.xmin == hp0.xmin,
                self.zmin == hp0.zmin,
                self.width == hp0.width,
                self.height == hp0.height,
                self.data@.len() == old_data.len(),
                retract_size == 256,
                forall|i: int| 0 <= i < chf.spans@.len() ==> #[trigger] chf.spans@[i].y != 0xffff,
                head <= queue@.len(),
                head < 256,
                hp0.flood(chf, bs as int, flood_start, steps) == (queue@.subrange(head as int, queue@.len() as int), self.data@),
                forall|q2: int| data_len <= q2 < self.data@.len() ==> #[trigger] self.data@[q2] == old_data[q2],
                forall|q2: int|
                    0 <= q2 < data_len ==> #[trigger] self.data@[q2] == patch_data[q2] || is_span_height(chf, self.data@[q2]),
                forall|q2: int| 0 <= q2 < data_len && patch_data[q2] != 0xffff ==> #[trigger] self.data@[q2] == patch_data[q2],
                forall|t: int|
                    0 <= t < queue@.len() ==> {
                        let e = #[trigger] queue@[t];
                        &&& chf.span_in_cell(e.0 as int, e.1 as int, e.2 as int)
                        &&& 0 <= e.0 - self.xmin - bs < self.width
                        &&& 0 <= e.1 - self.zmin - bs < self.height
                    },
            decreases count_eq(self.data@, 0xffff, self.data@.len() as int), queue@.len() - head,
        {
            let ghost prev = (queue@.subrange(head as int, queue@.len() as int), self.data@);
            let (cx, cz, ci) = queue[head];
            head = head + 1;
            proof {
                assert(prev.0.drop_first() =~= queue@.subrange(head as int, queue@.len() as int));
            }
            if head >= retract_size {
                head = 0;
                let ghost q0 = queue@;
                let len = queue.len();
                let mut t: usize = retract_size;
                while t < len
                    invariant
                        len == q0.len(),
                        256 <= t <= len,
                        retract_size == 256,
                        queue@.len() == len,
                        forall|t2: int| 0 <= t2 < t - 256 ==> #[trigger] queue@[t2] == q0[t2 + 256],
                        forall|t2: int| t - 256 <= t2 < len ==> #[trigger] queue@[t2] == q0[t2],
                    decreases len - t,
                {
                    let e = queue[t];
                    queue.set(t - retract_size, e);
                    t = t + 1;
                }
                queue.truncate(len - retract_size);
                proof {
                    assert forall|t2: int| 0 <= t2 < queue@.len() implies #[trigger] queue@[t2] == q0[t2 + 256] by {}
                    assert(queue@.subrange(0, queue@.len() as int) =~= q0.subrange(256, q0.len() as int));
                }
            }
            proof {
                lemma_span_index(chf, cx as int, cz as int, ci as int);
            }
            let cs = chf.spans[ci];
            let ghost count0 = count_eq(self.data@, 0xffff, self.data@.len() as int);
            let ghost pending0 = queue@.len() - head;
            let ghost rest = queue@.subrange(head as int, queue@.len() as int);
            let ghost data0 = self.data@;
            let mut dir: u8 = 0;
            while dir < 4
                invariant
                    hp0.flood_push(chf, bs as int, (cx, cz, ci), rest, data0, dir as int) == (queue@.subrange(head as int, queue@.len() as int), self.data@),
                    prev.0.len() > 0 && prev.0[0] == (cx, cz, ci),
                    prev.0.drop_first() == rest,
                    prev.1 == data0,
                    chf.wf(),
                    self.fits_field(chf, bs as int),
                    data_len == self.spec_data_len(),
                    data_len <= self.data@.len(),
                    self.xmin == hp0.xmin,
                    self.zmin == hp0.zmin,
                    self.width == hp0.width,
                    self.height == hp0.height,
                    self.data@.len() == old_data.len(),
                    forall|i: int| 0 <= i < chf.spans@.len() ==> #[trigger] chf.spans@[i].y != 0xffff,
                    head <= queue@.len(),
                    dir <= 4,
                    cs == chf.spans@[ci as int],
                    chf.span_in_cell(cx as int, cz as int, ci as int),
                    count_eq(self.data@, 0xffff, self.data@.len() as int) + (queue@.len() - head) <= count0 + pending0,
                    count_eq(self.data@, 0xffff, self.data@.len() as int) <= count0,
                    queue@.len() - head >= pending0,
                    forall|q2: int| data_len <= q2 < self.data@.len() ==> #[trigger] self.data@[q2] == old_data[q2],
                    forall|q2: int|
                        0 <= q2 < data_len ==> #[trigger] self.data@[q2] == patch_data[q2] || is_span_height(chf, self.data@[q2]),
                    forall|q2: int| 0 <= q2 < data_len && patch_data[q2] != 0xffff ==> #[trigger] self.data@[q2] == patch_data[q2],
                    forall|t: int|
                        0 <= t < queue@.len() ==> {
                            let e = #[trigger] queue@[t];
                            &&& chf.span_in_cell(e.0 as int, e.1 as int, e.2 as int)
                            &&& 0 <= e.0 - self.xmin - bs < self.width
                            &&& 0 <= e.1 - self.zmin - bs < self.height
                        },
                decreases 4 - dir,
            {
                if let Some(con) = cs.con(dir) {
                    proof {
                        lemma_neighbour_in_cell(chf, cx as int, cz as int, ci as int, dir);
                    }
                    let ax = cx + dir_offset_x(dir) as i32;
                    let az = cz + dir_offset_z(dir) as i32;
                    let hx = ax - self.xmin as i32 - bs as i32;
                    let hz = az - self.zmin as i32 - bs as i32;
                    if !(hx as u16 >= self.width || hz as u16 >= self.height) {
                        proof {
                            lemma_bfs_cell(self, chf, bs as int, ax as int, az as int, hx, hz);
                        }
                        if *self.data_at(hx, hz) == RC_UNSET_HEIGHT {
                            proof {
                                lemma_grid_index(chf, ax as int, az as int);
                            }
                            let a_i = chf.cells[(ax + az * chf.width as i32) as usize].index as usize + con as usize;
                            let a_s = chf.spans[a_i];
                            let ghost before = self.data@;
                            proof {
                                lemma_count_eq_update(self.data@, 0xffff, self.data@.len() as int, hx + hz * self.width, a_s.y);
                                assert(is_span_height(chf, a_s.y));
                            }
                            let ghost qb = queue@;
                            *self.data_at_mut(hx, hz) = a_s.y;
                            queue.push((ax, az, a_i));
                            proof {
                                assert(queue@.subrange(head as int, queue@.len() as int) =~= qb.subrange(head as int, qb.len() as int).push((ax, az, a_i)));
                                assert forall|q2: int| 0 <= q2 < data_len implies #[trigger] self.data@[q2] == patch_data[q2]
                                    || is_span_height(chf, self.data@[q2]) by {
                                    if q2 != hx + hz * self.width {
                                        assert(self.data@[q2] == before[q2]);
                                    }
                                }
                                assert forall|q2: int| 0 <= q2 < data_len && patch_data[q2] != 0xffff implies #[trigger] self.data@[q2]
                                    == patch_data[q2] by {
                                    if q2 != hx + hz * self.width {
                                        assert(self.data@[q2] == before[q2]);
                                    } else {
                                        assert(before[q2] == 0xffff);
                                    }
                                }
                            }
                        }
                    }
                }
                dir = dir + 1;
            }
            proof {
                assert(hp0.flood(chf, bs as int, flood_start, steps + 1) == hp0.flood_step(chf, bs as int, prev));
                steps = steps + 1;
            }
        }
        proof {
            assert(queue@.subrange(head as int, queue@.len() as int).len() == 0);
            if region.bits != 0 {
                assert forall|hx: int, hz: int|
                    0 <= hx < self.width && 0 <= hz < self.height && #[trigger] hp0.has_region_span(chf, bs as int, hx, hz, region) implies self.data@[hx + hz * self.width] == chf.spans@[hp0.region_span_at(chf, bs as int, hx, hz, region)->0].y by {
                    lemma_patch_index(self, hx, hz);
                    let y = chf.spans@[hp0.region_span_at(chf, bs as int, hx, hz, region)->0].y;
                    assert(patch_data[hx + hz * hp0.width] == y);
                    lemma_first_region_span_range(chf, chf.cells@[hp0.field_cell(chf, bs as int, hx, hz)].index as int,
                        chf.cells@[hp0.field_cell(chf, bs as int, hx, hz)].index + chf.cells@[hp0.field_cell(chf, bs as int, hx, hz)].count, region);
                    lemma_patch_cell(self, chf, bs as int, hp0.xmin + hx, hp0.zmin + hz);
                }
            }
        }
    }
}

impl CompactHeightfield {
    /// Some neighbour of span `i` of cell `(x, z)` lies outside region
    /// `region`.
    pub open spec fn region_border_spec(&self, x: int, z: int, i: int, region: RegionId) -> bool {
        exists|dir: u8|
            dir < 4 && #[trigger] self.spans@[i].spec_con(dir) is Some && self.spans@[self.neighbour_of(
                x,
                z,
                dir,
                self.spans@[i].spec_con(dir)->0,
            ).2].region != region
    }

    /// Whether some neighbour of span `i` of cell `(x, z)` lies outside
    /// region `region`.
    fn on_region_border(&self, x: u16, z: u16, i: usize, region: RegionId) -> (r: bool)
        requires
            self.wf(),
            self.span_in_cell(x as int, z as int, i as int),
            i < self.spans@.len(),
        ensures
            r == self.region_border_spec(x as int, z as int, i as int, region),
    {
        let s = self.spans[i];
        let mut dir: u8 = 0;
        while dir < 4
            invariant
                self.wf(),
                self.span_in_cell(x as int, z as int, i as int),
                s == self.spans@[i as int],
                dir <= 4,
                forall|d: u8|
                    d < dir ==> !(#[trigger] self.spans@[i as int].spec_con(d) is Some && self.spans@[self.neighbour_of(
                        x as int,
                        z as int,
                        d,
                        self.spans@[i as int].spec_con(d)->0,
                    ).2].region != region),
            decreases 4 - dir,
        {
            if let Some(con) = s.con(dir) {
                let (_a_x, _a_z, a_i) = self.con_indices(x, z, i, dir, con);
                if self.spans[a_i].region != region {
                    return true;
                }
            }
            dir = dir + 1;
        }
        false
    }
}

/// Patch cell `(hx, hz)` that the flood steps to has an index in `data`.
proof fn lemma_bfs_cell(hp: &HeightPatch, chf: &CompactHeightfield, bs: int, ax: int, az: int, hx: i32, hz: i32)
    requires
        chf.wf(),
        hp.fits_field(chf, bs),
        hp.spec_data_len() <= hp.data@.len(),
        0 <= bs,
        0 <= ax < chf.width,
        0 <= az < chf.height,
        hx == ax - hp.xmin - bs,
        hz == az - hp.zmin - bs,
        !(hx as u16 >= hp.width || hz as u16 >= hp.height),
    ensures
        0 <= hx < hp.width,
        0 <= hz < hp.height,
        hp.index_fits(hx as int, hz as int),
        hx + hz * hp.width < hp.spec_data_len(),
{
    assert(-0x20000 < hx < 0x10000);
    assert(-0x20000 < hz < 0x10000);
    assert(hx < 0 ==> hx as u16 >= hp.width) by {
        if hx < 0 {
            if hx >= -0x10000 {
                assert(hx as u16 == hx + 0x10000) by (bit_vector)
                    requires
                        -0x10000 <= hx < 0,
                ;
                assert(hp.xmin + bs + hp.width <= chf.width);
                assert(hp.width <= 0xffff);
                assert(hx + 0x10000 > hp.width);
            } else {
                assert(hx as u16 == hx + 0x20000) by (bit_vector)
                    requires
                        -0x20000 <= hx < -0x10000,
                ;
            }
        }
    }
    assert(hz < 0 ==> hz as u16 >= hp.height) by {
        if hz < 0 {
            if hz >= -0x10000 {
                assert(hz as u16 == hz + 0x10000) by (bit_vector)
                    requires
                        -0x10000 <= hz < 0,
                ;
            } else {
                assert(hz as u16 == hz + 0x20000) by (bit_vector)
                    requires
                        -0x20000 <= hz < -0x10000,
                ;
            }
        }
    }
    assert(hx >= 0 ==> hx as u16 == hx) by (bit_vector)
        requires
            hx < 0x10000,
    ;
    assert(hz >= 0 ==> hz as u16 == hz) by (bit_vector)
        requires
            hz < 0x10000,
    ;
    assert(hx + hz * hp.width < hp.width * hp.height) by (nonlinear_arith)
        requires
            0 <= hx < hp.width,
            0 <= hz < hp.height,
    ;
    assert(0 <= hz * hp.width) by (nonlinear_arith)
        requires
            0 <= hz,
    ;
}

/// A span in a cell of the grid is a span of the field.
proof fn lemma_span_index(chf: &CompactHeightfield, x: int, z: int, i: int)
    requires
        chf.wf(),
        chf.span_in_cell(x, z, i),
    ensures
        0 <= i < chf.spans@.len(),
{
    assert(x + z * chf.width < chf.width * chf.height) by (nonlinear_arith)
        requires
            0 <= x < chf.width,
            0 <= z < chf.height,
    ;
    assert(0 <= z * chf.width) by (nonlinear_arith)
        requires
            0 <= z,
    ;
    assert(chf.cells@[x + z * chf.width].index + chf.cells@[x + z * chf.width].count <= chf.spans@.len());
}

/// Cell `(x, z)` of the grid has an index that fits in `i32`.
proof fn lemma_grid_index(chf: &CompactHeightfield, x: int, z: int)
    requires
        chf.wf(),
        0 <= x < chf.width,
        0 <= z < chf.height,
        chf.cells@.len() <= 0x7fff_ffff,
    ensures
        0 <= x + z * chf.width < chf.cells@.len(),
        0 <= z * chf.width,
{
    assert(x + z * chf.width < chf.width * chf.height) by (nonlinear_arith)
        requires
            0 <= x < chf.width,
            0 <= z < chf.height,
    ;
    assert(0 <= z * chf.width) by (nonlinear_arith)
        requires
            0 <= z,
    ;
}

/// Distinct cells of the patch have distinct indices.
proof fn lemma_patch_index_unique_all(hp: &HeightPatch, hx: int, hz: int)
    requires
        0 <= hx < hp.width,
        0 <= hz < hp.height,
    ensures
        forall|hx2: int, hz2: int|
            0 <= hx2 < hp.width && 0 <= hz2 < hp.height && #[trigger] (hx2 + hz2 * hp.width) == hx + hz * hp.width ==> hx2 == hx && hz2 == hz,
{
    assert forall|hx2: int, hz2: int|
        0 <= hx2 < hp.width && 0 <= hz2 < hp.height && #[trigger] (hx2 + hz2 * hp.width) == hx + hz * hp.width implies hx2 == hx && hz2 == hz by {
        vstd::arithmetic::div_mod::lemma_fundamental_div_mod_converse(hx + hz * hp.width, hp.width as int, hz, hx);
        vstd::arithmetic::div_mod::lemma_fundamental_div_mod_converse(hx2 + hz2 * hp.width, hp.width as int, hz2, hx2);
    }
}

} // verus!
