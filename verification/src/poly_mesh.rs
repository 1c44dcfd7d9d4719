//! Polygon meshes built from contours: triangulation, polygon merging,
//! vertex welding and edge adjacency.

use vstd::prelude::*;
use crate::math::{next, prev, spec_next, spec_prev};
use crate::area::AreaType;
use crate::polygon::{MeshVertex, area2_fits, all_area2_fit, left_spec, uleft};
use crate::region::RegionId;

verus! {

/// Why a polygon mesh could not be built.
#[derive(Debug, Clone, Copy, PartialEq, Eq, Structural)]
pub enum PolygonMeshError {
    /// Too many vertices: `actual` > `max`.
    TooManyVertices { actual: usize, max: usize },
    /// Too many polygons: `actual` > `max`.
    TooManyPolygons { actual: usize, max: usize },
    /// Invalid contour. This sometimes happens if the contour simplification
    /// is too aggressive.
    InvalidContour,
}

/// A value which indicates an invalid index within a mesh.
/// This does not necessarily indicate an error.
pub const RC_MESH_NULL_IDX: u16 = 0xffff;

/// The number of hash buckets used to weld vertices.
pub const VERTEX_BUCKET_COUNT: usize = 0x1000;

/// The number of vertices of the polygon stored from `start`, scanning
/// from its `k`-th slot: the first null slot among its `nvp` slots (or the
/// end of the array) ends it, and a polygon with no null slot has `nvp`.
pub open spec fn count_from(p: Seq<u16>, start: int, k: int, nvp: int) -> int
    decreases nvp - k,
{
    if k >= nvp || start + k >= p.len() {
        nvp
    } else if p[start + k] == 0xffff {
        k
    } else {
        count_from(p, start, k + 1, nvp)
    }
}

/// The number of vertices of the polygon stored from `start`.
pub open spec fn poly_vert_count(p: Seq<u16>, start: int, nvp: int) -> int {
    count_from(p, start, 0, nvp)
}

/// A polygon has between 0 and `nvp` vertices; the slots before the count
/// hold vertices, and the count, when below `nvp`, is a null slot or the end
/// of the array.
pub proof fn lemma_count_from(p: Seq<u16>, start: int, k: int, nvp: int)
    requires
        0 <= start,
        0 <= k <= nvp,
    ensures
        k <= count_from(p, start, k, nvp) <= nvp,
        forall|q: int| start + k <= q < start + count_from(p, start, k, nvp) && q < p.len() ==> p[q] != 0xffff,
        count_from(p, start, k, nvp) < nvp ==> (start + count_from(p, start, k, nvp) < p.len() && p[start
            + count_from(p, start, k, nvp)] == 0xffff),
    decreases nvp - k,
{
    if k < nvp && start + k < p.len() && p[start + k] != 0xffff {
        lemma_count_from(p, start, k + 1, nvp);
    }
}

/// Counts the vertices of the polygon stored from `start`: its slots up to
/// the first null index, at most `nvp`. The slots read must lie in `p`.
pub fn count_poly_verts(p: &Vec<u16>, start: usize, nvp: usize) -> (r: usize)
    requires
        start <= p@.len(),
        start + nvp <= p@.len() || poly_vert_count(p@, start as int, nvp as int) < nvp,
    ensures
        r == poly_vert_count(p@, start as int, nvp as int),
        r <= nvp,
{
    proof {
        lemma_count_from(p@, start as int, 0, nvp as int);
    }
    let mut k: usize = 0;
    while k < nvp && k < p.len() - start
        invariant
            start <= p@.len(),
            k <= nvp,
            start + k <= p@.len(),
            count_from(p@, start as int, 0, nvp as int) == count_from(p@, start as int, k as int, nvp as int),
        decreases nvp - k,
    {
        if p[start + k] == RC_MESH_NULL_IDX {
            return k;
        }
        k = k + 1;
    }
    nvp
}

/// Writes `value` at `*index` and advances the index.
pub fn push_back<T: Copy>(value: T, vec: &mut Vec<T>, index: &mut usize)
    requires
        *old(index) < old(vec)@.len(),
    ensures
        final(vec)@ == old(vec)@.update(*old(index) as int, value),
        *final(index) == *old(index) + 1,
{
    proof {
        assert(vec.len() == vec@.len());
    }
    vec.set(*index, value);
    *index = *index + 1;
}

/// Shifts the first `*index` items one place up, writes `value` in front
/// and advances the index.
pub fn push_front<T: Copy>(value: T, vec: &mut Vec<T>, index: &mut usize)
    requires
        *old(index) < old(vec)@.len(),
    ensures
        *final(index) == *old(index) + 1,
        final(vec)@ == seq![value] + old(vec)@.subrange(0, *old(index) as int) + old(vec)@.subrange(
            *old(index) + 1,
            old(vec)@.len() as int,
        ),
{
    let ghost v0 = vec@;
    let ghost idx0 = *index as int;
    proof {
        assert(vec.len() == vec@.len());
    }
    *index = *index + 1;
    let mut i = *index - 1;
    while i > 0
        invariant
            0 <= i <= idx0,
            idx0 < v0.len(),
            vec@.len() == v0.len(),
            forall|m: int| i < m <= idx0 ==> #[trigger] vec@[m] == v0[m - 1],
            forall|m: int| 0 <= m <= i ==> #[trigger] vec@[m] == v0[m],
            forall|m: int| idx0 < m < v0.len() ==> #[trigger] vec@[m] == v0[m],
        decreases i,
    {
        let v = vec[i - 1];
        vec.set(i, v);
        i = i - 1;
    }
    vec.set(0, value);
    proof {
        assert(vec@ =~= seq![value] + v0.subrange(0, idx0) + v0.subrange(idx0 + 1, v0.len() as int));
    }
}

/// `s` with `w` written over its slots from `at`.
pub open spec fn write_at(s: Seq<u16>, at: int, w: Seq<u16>) -> Seq<u16> {
    Seq::new(s.len(), |k: int| if at <= k < at + w.len() { w[k - at] } else { s[k] })
}

/// The vertices of the polygon at `pa` from edge `ea` on, followed by those
/// of the polygon at `pb` from edge `eb` on, each without the shared edge's
/// second end.
pub open spec fn merged_poly(p: Seq<u16>, pa: int, pb: int, ea: int, eb: int, nvp: int) -> Seq<u16> {
    let na = poly_vert_count(p, pa, nvp);
    let nb = poly_vert_count(p, pb, nvp);
    Seq::new((na - 1) as nat, |i: int| p[pa + (ea + 1 + i) % na]) + Seq::new(
        (nb - 1) as nat,
        |i: int| p[pb + (eb + 1 + i) % nb],
    )
}

/// `s` padded to `nvp` slots with the null index 0xffff.
pub open spec fn padded(s: Seq<u16>, nvp: int) -> Seq<u16> {
    s + Seq::new((nvp - s.len()) as nat, |i: int| 0xffffu16)
}

/// Merges the polygon at `pb_index` into the polygon at `pa_index` along
/// their shared edges `ea` and `eb`, using the `nvp` slots at `tmp_index`
/// as scratch space (which keep a copy of the result).
pub fn merge_poly_verts(
    polys: &mut Vec<u16>,
    pa_index: usize,
    pb_index: usize,
    ea: usize,
    eb: usize,
    tmp_index: usize,
    nvp: usize,
)
    requires
        pa_index + nvp <= old(polys)@.len(),
        pb_index + nvp <= old(polys)@.len(),
        tmp_index + nvp <= old(polys)@.len(),
        tmp_index + nvp <= pa_index || pa_index + nvp <= tmp_index,
        tmp_index + nvp <= pb_index || pb_index + nvp <= tmp_index,
        1 <= poly_vert_count(old(polys)@, pa_index as int, nvp as int),
        1 <= poly_vert_count(old(polys)@, pb_index as int, nvp as int),
        poly_vert_count(old(polys)@, pa_index as int, nvp as int) + poly_vert_count(old(polys)@, pb_index as int, nvp as int)
            - 2 <= nvp,
        ea + nvp < usize::MAX,
        eb + nvp < usize::MAX,
    ensures
        final(polys)@ == write_at(
            write_at(
                old(polys)@,
                tmp_index as int,
                padded(merged_poly(old(polys)@, pa_index as int, pb_index as int, ea as int, eb as int, nvp as int), nvp as int),
            ),
            pa_index as int,
            padded(merged_poly(old(polys)@, pa_index as int, pb_index as int, ea as int, eb as int, nvp as int), nvp as int),
        ),
{
    let ghost p0 = polys@;
    proof {
        assert(polys.len() == polys@.len());
    }
    let na = count_poly_verts(polys, pa_index, nvp);
    let nb = count_poly_verts(polys, pb_index, nvp);
    let ghost m = merged_poly(p0, pa_index as int, pb_index as int, ea as int, eb as int, nvp as int);
    let ghost w = padded(m, nvp as int);
    // Merge polygons.
    let mut k: usize = 0;
    while k < nvp
        invariant
            k <= nvp,
            tmp_index + nvp <= p0.len(),
            p0.len() <= usize::MAX,
            polys@.len() == p0.len(),
            forall|q: int| 0 <= q < polys@.len() ==> #[trigger] polys@[q] == (if tmp_index <= q < tmp_index + k {
                0xffffu16
            } else {
                p0[q]
            }),
        decreases nvp - k,
    {
        polys.set(tmp_index + k, 0xffff);
        k = k + 1;
    }
    let mut n: usize = 0;
    // Add pa
    let mut i: usize = 0;
    while i < na - 1
        invariant
            na == poly_vert_count(p0, pa_index as int, nvp as int),
            nb == poly_vert_count(p0, pb_index as int, nvp as int),
            1 <= na <= nvp,
            1 <= nb <= nvp,
            na + nb - 2 <= nvp,
            p0.len() <= usize::MAX,
            i <= na - 1,
            n == i,
            ea + nvp < usize::MAX,
            pa_index + nvp <= p0.len(),
            tmp_index + nvp <= p0.len(),
            tmp_index + nvp <= pa_index || pa_index + nvp <= tmp_index,
            polys@.len() == p0.len(),
            m == merged_poly(p0, pa_index as int, pb_index as int, ea as int, eb as int, nvp as int),
            forall|q: int| 0 <= q < polys@.len() ==> #[trigger] polys@[q] == (if tmp_index <= q < tmp_index + n {
                m[q - tmp_index]
            } else if tmp_index + n <= q < tmp_index + nvp {
                0xffffu16
            } else {
                p0[q]
            }),
        decreases na - 1 - i,
    {
        let src = pa_index + (ea + 1 + i) % na;
        let v = polys[src];
        polys.set(tmp_index + n, v);
        n = n + 1;
        i = i + 1;
    }
    // Add pb
    let mut i: usize = 0;
    while i < nb - 1
        invariant
            na == poly_vert_count(p0, pa_index as int, nvp as int),
            nb == poly_vert_count(p0, pb_index as int, nvp as int),
            1 <= na <= nvp,
            1 <= nb <= nvp,
            na + nb - 2 <= nvp,
            p0.len() <= usize::MAX,
            i <= nb - 1,
            n == na - 1 + i,
            eb + nvp < usize::MAX,
            pb_index + nvp <= p0.len(),
            tmp_index + nvp <= p0.len(),
            tmp_index + nvp <= pb_index || pb_index + nvp <= tmp_index,
            polys@.len() == p0.len(),
            m == merged_poly(p0, pa_index as int, pb_index as int, ea as int, eb as int, nvp as int),
            forall|q: int| 0 <= q < polys@.len() ==> #[trigger] polys@[q] == (if tmp_index <= q < tmp_index + n {
                m[q - tmp_index]
            } else if tmp_index + n <= q < tmp_index + nvp {
                0xffffu16
            } else {
                p0[q]
            }),
        decreases nb - 1 - i,
    {
        let src = pb_index + (eb + 1 + i) % nb;
        let v = polys[src];
        polys.set(tmp_index + n, v);
        n = n + 1;
        i = i + 1;
    }
    let ghost filled = polys@;
    proof {
        assert(filled =~= write_at(p0, tmp_index as int, w));
    }
    // Copy the merged polygon over the first one.
    let mut k: usize = 0;
    while k < nvp
        invariant
            k <= nvp,
            pa_index + nvp <= p0.len(),
            tmp_index + nvp <= p0.len(),
            tmp_index + nvp <= pa_index || pa_index + nvp <= tmp_index,
            p0.len() <= usize::MAX,
            polys@.len() == p0.len(),
            filled.len() == p0.len(),
            forall|q: int| 0 <= q < polys@.len() ==> #[trigger] polys@[q] == (if pa_index <= q < pa_index + k {
                filled[tmp_index + q - pa_index]
            } else {
                filled[q]
            }),
        decreases nvp - k,
    {
        let v = polys[tmp_index + k];
        polys.set(pa_index + k, v);
        k = k + 1;
    }
    proof {
        assert(polys@ =~= write_at(filled, pa_index as int, w));
    }
}

/// The value of merging two polygons: the squared length of their shared
/// edge, and that edge's index in each polygon.
#[derive(Debug, Clone, Copy, PartialEq, Eq, Structural)]
pub struct PolyMergeValue {
    pub length_squared: u32,
    pub edge_a: usize,
    pub edge_b: usize,
}

/// Edge `i` of the polygon of `n` vertices at `start`, with its ends in
/// ascending order.
pub open spec fn edge_key(p: Seq<u16>, start: int, n: int, i: int) -> (u16, u16) {
    let v0 = p[start + i];
    let v1 = p[start + spec_next(i, n)];
    if v0 <= v1 {
        (v0, v1)
    } else {
        (v1, v0)
    }
}

/// The first edge `j' >= j` of polygon `pb` that equals edge `i` of `pa`.
pub open spec fn first_match(p: Seq<u16>, pa: int, na: int, i: int, pb: int, nb: int, j: int) -> Option<int>
    decreases nb - j,
{
    if j >= nb {
        None
    } else if edge_key(p, pa, na, i) == edge_key(p, pb, nb, j) {
        Some(j)
    } else {
        first_match(p, pa, na, i, pb, nb, j + 1)
    }
}

/// The last edge `i' < i` of `pa` shared with `pb`, with the first edge of
/// `pb` it matches.
pub open spec fn last_shared(p: Seq<u16>, pa: int, na: int, pb: int, nb: int, i: int) -> Option<(int, int)>
    decreases i,
{
    if i <= 0 {
        None
    } else {
        match first_match(p, pa, na, i - 1, pb, nb, 0) {
            Some(j) => Some((i - 1, j)),
            None => last_shared(p, pa, na, pb, nb, i - 1),
        }
    }
}

/// The squared xz-length of `a - b`, with the coordinate differences
/// wrapping in 16 bits and the sum of squares in 32 bits.
pub open spec fn wrapped_length_squared(a: MeshVertex, b: MeshVertex) -> u32 {
    let dx = (a.x - b.x + 0x10000) % 0x10000;
    let dz = (a.z - b.z + 0x10000) % 0x10000;
    ((dx * dx + dz * dz) % 0x1_0000_0000) as u32
}

/// Whether and how well the polygons at `pa` and `pb` merge: `None` when
/// the result would have more than `nvp` vertices, when they share no
/// edge, or when it would not be convex; else the squared length of the
/// shared edge and its index in each polygon.
pub open spec fn merge_value(p: Seq<u16>, pa: int, pb: int, verts: Seq<MeshVertex>, nvp: int) -> Option<(u32, int, int)> {
    let na = poly_vert_count(p, pa, nvp);
    let nb = poly_vert_count(p, pb, nvp);
    if na + nb - 2 > nvp {
        None
    } else {
        match last_shared(p, pa, na, pb, nb, na) {
            None => None,
            Some((ea, eb)) => {
                let va = p[pa + (ea + na - 1) % na] as int;
                let vb = p[pa + ea] as int;
                let vc = p[pb + (eb + 2) % nb] as int;
                let va2 = p[pb + (eb + nb - 1) % nb] as int;
                let vb2 = p[pb + eb] as int;
                let vc2 = p[pa + (ea + 2) % na] as int;
                if !left_spec(verts[va], verts[vb], verts[vc]) {
                    None
                } else if !left_spec(verts[va2], verts[vb2], verts[vc2]) {
                    None
                } else {
                    Some(
                        (
                            wrapped_length_squared(verts[p[pa + ea] as int], verts[p[pa + (ea + 1) % na] as int]),
                            ea,
                            eb,
                        ),
                    )
                }
            },
        }
    }
}

/// The first `n` slots from `start` hold vertex indices below `nverts`.
pub open spec fn slots_in_range(p: Seq<u16>, start: int, n: int, nverts: int) -> bool {
    forall|q: int| start <= q < start + n ==> (#[trigger] p[q]) < nverts
}

/// How well the polygons at `pa` and `pb` merge into one convex polygon
/// of at most `nvp` vertices; see [`merge_value`].
pub fn get_poly_merge_value(
    polys: &Vec<u16>,
    pa: usize,
    pb: usize,
    verts: &Vec<MeshVertex>,
    nvp: usize,
) -> (r: Option<PolyMergeValue>)
    requires
        pa + nvp <= polys@.len(),
        pb + nvp <= polys@.len(),
        poly_vert_count(polys@, pa as int, nvp as int) + poly_vert_count(polys@, pb as int, nvp as int) >= 2,
        slots_in_range(polys@, pa as int, poly_vert_count(polys@, pa as int, nvp as int), verts@.len() as int),
        slots_in_range(polys@, pb as int, poly_vert_count(polys@, pb as int, nvp as int), verts@.len() as int),
        all_area2_fit(verts@),
    ensures
        match r {
            Some(v) => merge_value(polys@, pa as int, pb as int, verts@, nvp as int) == Some(
                (v.length_squared, v.edge_a as int, v.edge_b as int),
            ),
            None => merge_value(polys@, pa as int, pb as int, verts@, nvp as int) is None,
        },
{
    proof {
        assert(polys.len() == polys@.len());
    }
    let na = count_poly_verts(polys, pa, nvp);
    let nb = count_poly_verts(polys, pb, nvp);
    // If the merged polygon would be too big, do not merge
    // (`na + nb - 2 > nvp`, with both counts at most `nvp`).
    if na >= 2 && na - 2 > nvp - nb {
        return None;
    }
    // Check if the polygons share an edge.
    let mut ea: Option<usize> = None;
    let mut eb: Option<usize> = None;
    let mut i: usize = 0;
    while i < na
        invariant
            na == poly_vert_count(polys@, pa as int, nvp as int),
            nb == poly_vert_count(polys@, pb as int, nvp as int),
            na <= nvp,
            nb <= nvp,
            polys@.len() <= usize::MAX,
            pa + nvp <= polys@.len(),
            pb + nvp <= polys@.len(),
            i <= na,
            match last_shared(polys@, pa as int, na as int, pb as int, nb as int, i as int) {
                Some((x, y)) => ea == Some(x as usize) && eb == Some(y as usize),
                None => ea is None && eb is None,
            },
        decreases na - i,
    {
        let ni = next(i, na);
        let a0 = polys[pa + i];
        let a1 = polys[pa + ni];
        let (va0, va1) = if a0 <= a1 { (a0, a1) } else { (a1, a0) };
        let mut j: usize = 0;
        let mut found = false;
        while j < nb && !found
            invariant
                na == poly_vert_count(polys@, pa as int, nvp as int),
                nb == poly_vert_count(polys@, pb as int, nvp as int),
                nb <= nvp,
                polys@.len() <= usize::MAX,
                pb + nvp <= polys@.len(),
                i < na,
                j <= nb,
                (va0, va1) == edge_key(polys@, pa as int, na as int, i as int),
                found ==> j < nb && first_match(polys@, pa as int, na as int, i as int, pb as int, nb as int, 0) == Some(
                    j as int,
                ),
                !found ==> first_match(polys@, pa as int, na as int, i as int, pb as int, nb as int, 0) == first_match(
                    polys@,
                    pa as int,
                    na as int,
                    i as int,
                    pb as int,
                    nb as int,
                    j as int,
                ),
            decreases 2 * (nb - j) + (if found { 0int } else { 1int }),
        {
            let nj = next(j, nb);
            let b0 = polys[pb + j];
            let b1 = polys[pb + nj];
            let (vb0, vb1) = if b0 <= b1 { (b0, b1) } else { (b1, b0) };
            if va0 == vb0 && va1 == vb1 {
                found = true;
            } else {
                j = j + 1;
            }
        }
        if found {
            ea = Some(i);
            eb = Some(j);
        }
        i = i + 1;
    }
    // No common edge, cannot merge.
    let (ea, eb) = match (ea, eb) {
        (Some(a), Some(b)) => (a, b),
        _ => {
            return None;
        },
    };
    proof {
        lemma_count_from(polys@, pa as int, 0, nvp as int);
        lemma_count_from(polys@, pb as int, 0, nvp as int);
        lemma_last_shared_range(polys@, pa as int, na as int, pb as int, nb as int, na as int);
    }
    proof {
        lemma_prev_mod(ea as int, na as int);
        lemma_prev_mod(eb as int, nb as int);
    }
    // Check to see if the merged polygon would be convex.
    let mut va = polys[pa + prev(ea, na)] as usize;
    let mut vb = polys[pa + ea] as usize;
    let mut vc = polys[pb + (eb + 2) % nb] as usize;
    proof {
        assert(area2_fits(verts@[va as int], verts@[vb as int], verts@[vc as int]));
    }
    if !uleft(verts[va], verts[vb], verts[vc]) {
        return None;
    }
    va = polys[pb + prev(eb, nb)] as usize;
    vb = polys[pb + eb] as usize;
    vc = polys[pa + (ea + 2) % na] as usize;
    proof {
        assert(area2_fits(verts@[va as int], verts@[vb as int], verts@[vc as int]));
    }
    if !uleft(verts[va], verts[vb], verts[vc]) {
        return None;
    }
    va = polys[pa + ea] as usize;
    vb = polys[pa + (ea + 1) % na] as usize;
    let a = verts[va];
    let b = verts[vb];
    // The coordinate differences wrap in 16 bits, the sum of squares in 32.
    let dx: u64 = ((a.x as u64 + 0x10000) - b.x as u64) % 0x10000;
    let dz: u64 = ((a.z as u64 + 0x10000) - b.z as u64) % 0x10000;
    proof {
        assert(dx * dx < 0x1_0000_0000) by (nonlinear_arith)
            requires
                dx < 0x10000,
        ;
        assert(dz * dz < 0x1_0000_0000) by (nonlinear_arith)
            requires
                dz < 0x10000,
        ;
    }
    let length_squared = ((dx * dx + dz * dz) % 0x1_0000_0000) as u32;
    Some(PolyMergeValue { length_squared, edge_a: ea, edge_b: eb })
}

/// Stepping back one place in a cycle of `n` is adding `n - 1` modulo `n`.
proof fn lemma_prev_mod(e: int, n: int)
    requires
        0 <= e < n,
    ensures
        (e + n - 1) % n == spec_prev(e, n),
{
    if e == 0 {
        vstd::arithmetic::div_mod::lemma_small_mod((n - 1) as nat, n as nat);
    } else {
        vstd::arithmetic::div_mod::lemma_mod_add_multiples_vanish(e - 1, n);
        vstd::arithmetic::div_mod::lemma_small_mod((e - 1) as nat, n as nat);
    }
}

/// The edges found by [`last_shared`] lie in both polygons.
pub proof fn lemma_last_shared_range(p: Seq<u16>, pa: int, na: int, pb: int, nb: int, i: int)
    ensures
        last_shared(p, pa, na, pb, nb, i) matches Some((x, y)) ==> 0 <= x < i && 0 <= y < nb,
    decreases i,
{
    if i > 0 {
        lemma_first_match_range(p, pa, na, i - 1, pb, nb, 0);
        lemma_last_shared_range(p, pa, na, pb, nb, i - 1);
    }
}

/// The edge found by [`first_match`] lies in `pb`, from `j` on.
proof fn lemma_first_match_range(p: Seq<u16>, pa: int, na: int, i: int, pb: int, nb: int, j: int)
    ensures
        first_match(p, pa, na, i, pb, nb, j) matches Some(y) ==> j <= y < nb,
    decreases nb - j,
{
    if j < nb {
        lemma_first_match_range(p, pa, na, i, pb, nb, j + 1);
    }
}

/// The hash bucket of a vertex: a dot product with three large primes,
/// wrapping in 32 bits, reduced to the bucket count.
pub open spec fn vertex_hash(v: MeshVertex) -> int {
    ((0x8da6b343 * v.x + 0xd8163841 * v.y + 0xcb1ab31f * v.z) % 0x1_0000_0000) % 0x1000
}

/// Hashes a vertex into one of the [`VERTEX_BUCKET_COUNT`] buckets.
pub fn compute_vertex_hash(vertex: MeshVertex) -> (r: usize)
    ensures
        r == vertex_hash(vertex),
        r < VERTEX_BUCKET_COUNT,
{
    // Large multiplicative constants; here arbitrarily chosen primes.
    let n: u64 = (0x8da6b343u64 * vertex.x as u64 + 0xd8163841u64 * vertex.y as u64 + 0xcb1ab31fu64 * vertex.z as u64)
        % 0x1_0000_0000;
    (n % 0x1000) as usize
}

/// The bucket a vertex is welded in: its hash with the height left out.
pub open spec fn weld_bucket(v: MeshVertex) -> int {
    vertex_hash(MeshVertex { x: v.x, y: 0, z: v.z })
}

/// Vertex `v` is welded to `w`: the same column, at most 2 apart in height.
pub open spec fn welds_to(w: MeshVertex, v: MeshVertex) -> bool {
    w.x == v.x && w.z == v.z && -2 <= w.y - v.y <= 2
}

/// The bucket chains index the first `n` vertices: `first[b]` is the
/// newest vertex of bucket `b`, and `next[i]` the newest vertex older than
/// `i` in the bucket of `i`.
pub open spec fn weld_chains_ok(verts: Seq<MeshVertex>, first: Seq<Option<u16>>, next: Seq<Option<u16>>, n: int) -> bool {
    &&& first.len() == 0x1000
    &&& n <= verts.len()
    &&& n <= next.len()
    &&& forall|b: int|
        0 <= b < 0x1000 ==> match #[trigger] first[b] {
            None => forall|k: int| 0 <= k < n ==> weld_bucket(#[trigger] verts[k]) != b,
            Some(i) => {
                &&& i < n
                &&& weld_bucket(verts[i as int]) == b
                &&& forall|k: int| i < k < n ==> weld_bucket(#[trigger] verts[k]) != b
            },
        }
    &&& forall|i: int|
        0 <= i < n ==> match #[trigger] next[i] {
            None => forall|k: int| 0 <= k < i ==> weld_bucket(#[trigger] verts[k]) != weld_bucket(verts[i]),
            Some(j) => {
                &&& j < i
                &&& weld_bucket(verts[j as int]) == weld_bucket(verts[i])
                &&& forall|k: int| j < k < i ==> weld_bucket(#[trigger] verts[k]) != weld_bucket(verts[i])
            },
        }
}

/// Some vertex below `n` welds to `v`.
pub open spec fn has_weld(verts: Seq<MeshVertex>, n: int, v: MeshVertex) -> bool {
    exists|k: int| 0 <= k < n && welds_to(#[trigger] verts[k], v)
}

/// Adds `vertex` to the welded vertex set and returns its index: the newest
/// existing vertex in the same column at most 2 apart in height, or else a
/// new vertex at index `*nverts`.
pub fn add_vertex(
    vertex: MeshVertex,
    verts: &mut Vec<MeshVertex>,
    first_vert: &mut Vec<Option<u16>>,
    next_vert: &mut Vec<Option<u16>>,
    nverts: &mut u16,
) -> (r: u16)
    requires
        weld_chains_ok(old(verts)@, old(first_vert)@, old(next_vert)@, *old(nverts) as int),
        !has_weld(old(verts)@, *old(nverts) as int, vertex) ==> {
            &&& (*old(nverts) as int) < old(verts)@.len()
            &&& (*old(nverts) as int) < old(next_vert)@.len()
            &&& *old(nverts) < u16::MAX
        },
    ensures
        weld_chains_ok(final(verts)@, final(first_vert)@, final(next_vert)@, *final(nverts) as int),
        final(verts)@.len() == old(verts)@.len(),
        final(next_vert)@.len() == old(next_vert)@.len(),
        has_weld(old(verts)@, *old(nverts) as int, vertex) ==> {
            &&& r < *old(nverts)
            &&& welds_to(old(verts)@[r as int], vertex)
            &&& forall|k: int| r < k < *old(nverts) ==> !welds_to(#[trigger] old(verts)@[k], vertex)
            &&& final(verts)@ == old(verts)@
            &&& *final(nverts) == *old(nverts)
        },
        !has_weld(old(verts)@, *old(nverts) as int, vertex) ==> {
            &&& r == *old(nverts)
            &&& *final(nverts) == *old(nverts) + 1
            &&& final(verts)@ == old(verts)@.update(r as int, vertex)
        },
{
    let ghost n = *nverts as int;
    let key = MeshVertex { x: vertex.x, y: 0, z: vertex.z };
    let bucket = compute_vertex_hash(key);
    let mut i_iter = first_vert[bucket];
    while i_iter.is_some()
        invariant
            weld_chains_ok(verts@, first_vert@, next_vert@, n),
            n == *nverts,
            bucket == weld_bucket(vertex),
            bucket < 0x1000,
            match i_iter {
                Some(i) => {
                    &&& i < n
                    &&& weld_bucket(verts@[i as int]) == bucket
                    &&& forall|k: int| i < k < n && weld_bucket(#[trigger] verts@[k]) == bucket ==> !welds_to(verts@[k], vertex)
                },
                None => forall|k: int| 0 <= k < n && weld_bucket(#[trigger] verts@[k]) == bucket ==> !welds_to(verts@[k], vertex),
            },
        decreases (match i_iter {
            Some(i) => i as int + 1,
            None => 0,
        }),
    {
        let i = match i_iter {
            Some(i) => i,
            None => 0,
        };
        let v = verts[i as usize];
        if v.x == vertex.x && (v.y as i32 - vertex.y as i32) <= 2 && (v.y as i32 - vertex.y as i32) >= -2 && v.z
            == vertex.z {
            proof {
                assert forall|k: int| i < k < n implies !welds_to(#[trigger] verts@[k], vertex) by {
                    if welds_to(verts@[k], vertex) {
                        assert(weld_bucket(verts@[k]) == weld_bucket(vertex));
                    }
                }
            }
            return i;
        }
        proof {
            assert(next_vert@[i as int] matches Some(j) ==> j < i);
        }
        i_iter = next_vert[i as usize];
    }
    proof {
        assert(!has_weld(verts@, n, vertex)) by {
            if has_weld(verts@, n, vertex) {
                let k = choose|k: int| 0 <= k < n && welds_to(#[trigger] verts@[k], vertex);
                assert(weld_bucket(verts@[k]) == weld_bucket(vertex));
            }
        }
    }
    // Could not find, create new.
    let i = *nverts;
    *nverts = *nverts + 1;
    let ghost old_first = first_vert@;
    let ghost old_next = next_vert@;
    let ghost old_verts = verts@;
    verts.set(i as usize, vertex);
    let head = first_vert[bucket];
    next_vert.set(i as usize, head);
    first_vert.set(bucket, Some(i));
    proof {
        assert(weld_bucket(verts@[i as int]) == bucket);
        assert forall|k: int| 0 <= k < n implies #[trigger] verts@[k] == old_verts[k] by {}
        assert forall|b: int| 0 <= b < 0x1000 implies match #[trigger] first_vert@[b] {
            None => forall|k: int| 0 <= k < n + 1 ==> weld_bucket(#[trigger] verts@[k]) != b,
            Some(i2) => {
                &&& i2 < n + 1
                &&& weld_bucket(verts@[i2 as int]) == b
                &&& forall|k: int| i2 < k < n + 1 ==> weld_bucket(#[trigger] verts@[k]) != b
            },
        } by {
            if b != bucket {
                assert(first_vert@[b] == old_first[b]);
                match old_first[b] {
                    None => {
                        assert forall|k: int| 0 <= k < n + 1 implies weld_bucket(#[trigger] verts@[k]) != b by {
                            if k < n {
                                assert(verts@[k] == old_verts[k]);
                            }
                        }
                    },
                    Some(i2) => {
                        assert forall|k: int| i2 < k < n + 1 implies weld_bucket(#[trigger] verts@[k]) != b by {
                            if k < n {
                                assert(verts@[k] == old_verts[k]);
                            }
                        }
                    },
                }
            }
        }
        assert forall|i2: int| 0 <= i2 < n + 1 implies match #[trigger] next_vert@[i2] {
            None => forall|k: int| 0 <= k < i2 ==> weld_bucket(#[trigger] verts@[k]) != weld_bucket(verts@[i2]),
            Some(j) => {
                &&& j < i2
                &&& weld_bucket(verts@[j as int]) == weld_bucket(verts@[i2])
                &&& forall|k: int| j < k < i2 ==> weld_bucket(#[trigger] verts@[k]) != weld_bucket(verts@[i2])
            },
        } by {
            if i2 < n {
                assert(next_vert@[i2] == old_next[i2]);
                assert(verts@[i2] == old_verts[i2]);
                match old_next[i2] {
                    None => {
                        assert forall|k: int| 0 <= k < i2 implies weld_bucket(#[trigger] verts@[k]) != weld_bucket(verts@[i2]) by {
                            assert(verts@[k] == old_verts[k]);
                        }
                    },
                    Some(j) => {
                        assert(verts@[j as int] == old_verts[j as int]);
                        assert forall|k: int| j < k < i2 implies weld_bucket(#[trigger] verts@[k]) != weld_bucket(verts@[i2]) by {
                            assert(verts@[k] == old_verts[k]);
                        }
                    },
                }
            } else {
                assert(next_vert@[i2] == old_first[bucket as int]);
                match old_first[bucket as int] {
                    None => {
                        assert forall|k: int| 0 <= k < i2 implies weld_bucket(#[trigger] verts@[k]) != weld_bucket(verts@[i2]) by {
                            assert(verts@[k] == old_verts[k]);
                        }
                    },
                    Some(j) => {
                        assert(verts@[j as int] == old_verts[j as int]);
                        assert forall|k: int| j < k < i2 implies weld_bucket(#[trigger] verts@[k]) != weld_bucket(verts@[i2]) by {
                            assert(verts@[k] == old_verts[k]);
                        }
                    },
                }
            }
        }
    }
    i
}

/// A polygon mesh while it is being built; polygons and vertices past
/// `npolys` and `nvertices` are spare capacity.
#[derive(Debug, Clone, PartialEq)]
pub struct InternalPolygonMesh {
    /// The mesh vertices.
    pub vertices: Vec<MeshVertex>,
    /// The number of vertices in use.
    pub nvertices: u16,
    /// Polygon and neighbor data: `2 * vertices_per_polygon` slots per
    /// polygon, its vertices and then its neighbours.
    pub polygons: Vec<u16>,
    /// The number of polygons in use.
    pub npolys: usize,
    /// The region id assigned to each polygon.
    pub regions: Vec<RegionId>,
    /// The flags assigned to each polygon.
    pub flags: Vec<u16>,
    /// The area id assigned to each polygon.
    pub areas: Vec<AreaType>,
    /// The number of allocated polygons.
    pub max_polygons: usize,
    /// The maximum number of vertices per polygon.
    pub vertices_per_polygon: usize,
    /// The AABB border size used to generate the source data from which the
    /// mesh was derived.
    pub border_size: u16,
}

/// An edge of the mesh while adjacency is found: its ends (ascending), the
/// two polygons that share it and its index in each.
#[derive(Debug, Clone, Copy)]
struct Edge {
    vert: (u16, u16),
    poly_edge: (u16, u16),
    poly: (u16, u16),
}

/// The slot of polygon `i` from which its `2 * nvp` slots start.
pub open spec fn poly_base(i: int, nvp: int) -> int {
    i * nvp * 2
}

/// Edge `j` of polygon `i`: from its vertex `j` to the next one, wrapping
/// to vertex 0 after the last slot or before a null slot.
pub open spec fn edge_of(p: Seq<u16>, nvp: int, i: int, j: int) -> (u16, u16) {
    let b = poly_base(i, nvp);
    let v1 = if j + 1 >= nvp || p[b + j + 1] == 0xffff {
        p[b]
    } else {
        p[b + j + 1]
    };
    (p[b + j], v1)
}

/// Polygon `k` has an edge running opposite to edge `j` of polygon `i`.
pub open spec fn shares_edge(p: Seq<u16>, nvp: int, i: int, j: int, k: int) -> bool {
    exists|j2: int|
        0 <= j2 < poly_vert_count(p, poly_base(k, nvp), nvp) && #[trigger] edge_of(p, nvp, k, j2) == (
            edge_of(p, nvp, i, j).1,
            edge_of(p, nvp, i, j).0,
        )
}

/// Vertex slot `j` of polygon `i`.
pub open spec fn vertex_at(p: Seq<u16>, nvp: int, i: int, j: int) -> u16 {
    p[poly_base(i, nvp) + j]
}

/// Every vertex of the first `npolys` polygons is below `nverts`.
pub open spec fn vertex_slots_ok(p: Seq<u16>, npolys: int, nvp: int, nverts: int) -> bool {
    forall|i: int, j: int|
        0 <= i < npolys && 0 <= j < poly_vert_count(p, poly_base(i, nvp), nvp) ==> #[trigger] vertex_at(p, nvp, i, j)
            < nverts
}

/// The neighbour slot `j` of polygon `i` is either as before, or names
/// another polygon that shares edge `j`.
pub open spec fn neighbour_sound(old_p: Seq<u16>, new_p: Seq<u16>, npolys: int, nvp: int, i: int, j: int) -> bool {
    let s = new_p[poly_base(i, nvp) + nvp + j];
    ||| s == old_p[poly_base(i, nvp) + nvp + j]
    ||| {
        &&& s < npolys
        &&& s != i
        &&& j < poly_vert_count(old_p, poly_base(i, nvp), nvp)
        &&& shares_edge(old_p, nvp, i, j, s as int)
    }
}

/// The slot of polygon `i` is a vertex slot, or lies after the polygons.
pub open spec fn kept_slot(q: int, npolys: int, nvp: int) -> bool {
    ||| q >= poly_base(npolys, nvp)
    ||| q % (2 * nvp) < nvp
}

/// Slot `j` of polygon `i` holds one of its vertices, and so starts one of
/// its edges.
pub open spec fn valid_edge(p: Seq<u16>, npolys: int, nvp: int, i: int, j: int) -> bool {
    &&& 0 <= i < npolys
    &&& 0 <= j < poly_vert_count(p, poly_base(i, nvp), nvp)
}

/// No directed edge is walked twice: two polygon edges that run from the
/// same vertex to the same vertex are one edge of one polygon.
pub open spec fn unique_edges(p: Seq<u16>, npolys: int, nvp: int) -> bool {
    forall|i1: int, j1: int, i2: int, j2: int|
        valid_edge(p, npolys, nvp, i1, j1) && valid_edge(p, npolys, nvp, i2, j2) && #[trigger] edge_of(p, nvp, i1, j1)
            == #[trigger] edge_of(p, nvp, i2, j2) ==> i1 == i2 && j1 == j2
}

/// Edge `j2` of polygon `k`, another polygon, runs opposite to edge `j` of
/// polygon `i`, which joins two distinct vertices.
pub open spec fn opposite_edge(p: Seq<u16>, npolys: int, nvp: int, i: int, j: int, k: int, j2: int) -> bool {
    &&& valid_edge(p, npolys, nvp, k, j2)
    &&& k != i
    &&& edge_of(p, nvp, i, j).0 != edge_of(p, nvp, i, j).1
    &&& edge_of(p, nvp, k, j2) == (edge_of(p, nvp, i, j).1, edge_of(p, nvp, i, j).0)
}

/// `(a, b)` comes before `(i, j)` in the order the polygon edges are
/// visited.
spec fn visited_before(a: int, b: int, i: int, j: int) -> bool {
    a < i || (a == i && b < j)
}

/// The recorded edges are in visiting order of their first polygon edge.
spec fn keys_ordered(edges: Seq<Edge>, count: int) -> bool {
    forall|e1: int, e2: int|
        0 <= e1 < e2 < count ==> visited_before(
            (#[trigger] edges[e1]).poly.0 as int,
            edges[e1].poly_edge.0 as int,
            (#[trigger] edges[e2]).poly.0 as int,
            edges[e2].poly_edge.0 as int,
        )
}

/// Every recorded edge comes from a polygon edge visited before `(i, j)`.
spec fn keys_before(edges: Seq<Edge>, count: int, i: int, j: int) -> bool {
    forall|e: int| 0 <= e < count ==> visited_before((#[trigger] edges[e]).poly.0 as int, edges[e].poly_edge.0 as int, i, j)
}

/// Edge `j` of polygon `i` has been recorded.
spec fn recorded(edges: Seq<Edge>, count: int, i: int, j: int) -> bool {
    exists|e: int| 0 <= e < count && (#[trigger] edges[e]).poly.0 == i && edges[e].poly_edge.0 == j
}

/// Every ascending polygon edge visited before `(i, j)` has been recorded.
spec fn recorded_upto(p: Seq<u16>, npolys: int, nvp: int, edges: Seq<Edge>, count: int, i: int, j: int) -> bool {
    forall|i2: int, j2: int|
        valid_edge(p, npolys, nvp, i2, j2) && visited_before(i2, j2, i, j) && (#[trigger] edge_of(p, nvp, i2, j2)).0
            < edge_of(p, nvp, i2, j2).1 ==> recorded(edges, count, i2, j2)
}

/// The lists of edges by start vertex are complete: `first[v]` is the
/// newest edge starting at `v`, and `first[nv + e]` the newest edge before
/// `e` with the same start.
spec fn chains_exact(nv: int, first: Seq<u16>, edges: Seq<Edge>, count: int) -> bool {
    &&& forall|v: int|
        0 <= v < nv ==> {
            &&& #[trigger] first[v] == 0xffff ==> forall|e: int| 0 <= e < count ==> (#[trigger] edges[e]).vert.0 != v
            &&& first[v] != 0xffff ==> {
                &&& first[v] < count
                &&& edges[first[v] as int].vert.0 == v
                &&& forall|e: int| first[v] < e < count ==> (#[trigger] edges[e]).vert.0 != v
            }
        }
    &&& forall|e: int|
        0 <= e < count ==> {
            &&& #[trigger] first[nv + e] == 0xffff ==> forall|e2: int| 0 <= e2 < e ==> (#[trigger] edges[e2]).vert.0 != edges[e].vert.0
            &&& first[nv + e] != 0xffff ==> {
                &&& first[nv + e] < e
                &&& edges[first[nv + e] as int].vert.0 == edges[e].vert.0
                &&& forall|e2: int| first[nv + e] < e2 < e ==> (#[trigger] edges[e2]).vert.0 != edges[e].vert.0
            }
        }
}

/// The edges keep the ends and the first polygon edge they were recorded
/// with.
spec fn same_keys(edges: Seq<Edge>, edges1: Seq<Edge>, count: int) -> bool {
    &&& edges.len() == edges1.len()
    &&& forall|e: int|
        0 <= e < count ==> {
            &&& (#[trigger] edges[e]).vert == edges1[e].vert
            &&& edges[e].poly.0 == edges1[e].poly.0
            &&& edges[e].poly_edge.0 == edges1[e].poly_edge.0
        }
}

/// A matched edge was matched by a polygon edge visited before `(i, j)`.
spec fn matched_before(edges: Seq<Edge>, count: int, i: int, j: int) -> bool {
    forall|e: int|
        0 <= e < count && (#[trigger] edges[e]).poly.0 != edges[e].poly.1 ==> visited_before(
            edges[e].poly.1 as int,
            edges[e].poly_edge.1 as int,
            i,
            j,
        )
}

/// Each descending polygon edge visited before `(i, j)` is the match of
/// every recorded edge of another polygon that runs opposite to it.
spec fn matched_upto(p: Seq<u16>, npolys: int, nvp: int, edges: Seq<Edge>, count: int, i: int, j: int) -> bool {
    forall|i2: int, j2: int, e: int|
        #![trigger edge_of(p, nvp, i2, j2), edges[e]]
        valid_edge(p, npolys, nvp, i2, j2) && visited_before(i2, j2, i, j) && edge_of(p, nvp, i2, j2).0 > edge_of(
            p,
            nvp,
            i2,
            j2,
        ).1 && 0 <= e < count && edges[e].vert == (edge_of(p, nvp, i2, j2).1, edge_of(p, nvp, i2, j2).0) && edges[e].poly.0
            != i2 ==> edges[e].poly.1 == i2 && edges[e].poly_edge.1 == j2
}

/// The neighbour slot of polygon edge `(i, j)` in `p`.
spec fn slot_of(p: Seq<u16>, nvp: int, i: int, j: int) -> u16 {
    p[poly_base(i, nvp) + nvp + j]
}

impl InternalPolygonMesh {
    /// The edges found so far are edges of the polygons, and a matched edge
    /// runs opposite in the second polygon.
    spec fn edges_ok(&self, edges: Seq<Edge>, count: int) -> bool {
        let p = self.polygons@;
        let nvp = self.vertices_per_polygon as int;
        forall|e: int|
            0 <= e < count ==> {
                let ed = #[trigger] edges[e];
                &&& ed.vert.0 < ed.vert.1
                &&& ed.poly.0 < self.npolys
                &&& ed.poly_edge.0 < poly_vert_count(p, poly_base(ed.poly.0 as int, nvp), nvp)
                &&& edge_of(p, nvp, ed.poly.0 as int, ed.poly_edge.0 as int) == ed.vert
                &&& ed.poly.1 < self.npolys
                &&& ed.poly.0 != ed.poly.1 ==> {
                    &&& ed.poly_edge.1 < poly_vert_count(p, poly_base(ed.poly.1 as int, nvp), nvp)
                    &&& edge_of(p, nvp, ed.poly.1 as int, ed.poly_edge.1 as int) == (ed.vert.1, ed.vert.0)
                }
            }
    }

    /// `first[v]` heads the list of edges starting at vertex `v`, and
    /// `first[nverts + e]` links edge `e` to an older edge with the same
    /// start; the lists end in the null index.
    spec fn chains_ok(&self, first: Seq<u16>, edges: Seq<Edge>, count: int) -> bool {
        let nv = self.nvertices as int;
        &&& forall|v: int|
            0 <= v < nv ==> (#[trigger] first[v] == 0xffff || (first[v] < count && edges[first[v] as int].vert.0 == v))
        &&& forall|e: int|
            0 <= e < count ==> (#[trigger] first[nv + e] == 0xffff || (first[nv + e] < e && edges[first[nv
                + e] as int].vert.0 == edges[e].vert.0))
    }

    /// Finds, for each polygon edge, the polygon on its other side and
    /// stores it in the edge's neighbour slot.
    ///
    /// An edge is recorded when a later polygon walks it the other way; a
    /// neighbour slot that is written names another polygon sharing that
    /// edge, and every other slot keeps its value. When no directed edge is
    /// walked twice, every edge that another polygon walks the other way
    /// gets that polygon in its slot.
    pub fn build_mesh_adjacency(&mut self) -> (r: Result<(), PolygonMeshError>)
        requires
            poly_base(old(self).npolys as int, old(self).vertices_per_polygon as int) <= old(self).polygons@.len(),
            old(self).npolys * old(self).vertices_per_polygon < 0xffff,
            vertex_slots_ok(
                old(self).polygons@,
                old(self).npolys as int,
                old(self).vertices_per_polygon as int,
                old(self).nvertices as int,
            ),
        ensures
            r is Ok,
            final(self).polygons@.len() == old(self).polygons@.len(),
            *final(self) == (InternalPolygonMesh { polygons: final(self).polygons, ..*old(self) }),
            forall|q: int|
                0 <= q < old(self).polygons@.len() && kept_slot(
                    q,
                    old(self).npolys as int,
                    old(self).vertices_per_polygon as int,
                ) ==> #[trigger] final(self).polygons@[q] == old(self).polygons@[q],
            forall|i: int, j: int|
                0 <= i < old(self).npolys && 0 <= j < old(self).vertices_per_polygon ==> #[trigger] neighbour_sound(
                    old(self).polygons@,
                    final(self).polygons@,
                    old(self).npolys as int,
                    old(self).vertices_per_polygon as int,
                    i,
                    j,
                ),
            unique_edges(old(self).polygons@, old(self).npolys as int, old(self).vertices_per_polygon as int) ==> forall|
                i: int,
                j: int,
                k: int,
                j2: int,
            |
                valid_edge(old(self).polygons@, old(self).npolys as int, old(self).vertices_per_polygon as int, i, j)
                    && #[trigger] opposite_edge(
                    old(self).polygons@,
                    old(self).npolys as int,
                    old(self).vertices_per_polygon as int,
                    i,
                    j,
                    k,
                    j2,
                ) ==> final(self).polygons@[poly_base(i, old(self).vertices_per_polygon as int) + old(
                    self,
                ).vertices_per_polygon + j] == k,
    {
        let nvp = self.vertices_per_polygon;
        let npolys = self.npolys;
        let nverts = self.nvertices as usize;
        let ghost p0 = self.polygons@;
        let ghost m0 = *self;
        proof {
            assert(self.polygons.len() == self.polygons@.len());
        }
        // Based on code by Eric Lengyel from:
        // https://web.archive.org/web/20080704083314/http://www.terathon.com/code/edges.php
        let max_edge_count = npolys * nvp;
        let mut first_edge: Vec<u16> = Vec::new();
        let mut k: usize = 0;
        while k < nverts + max_edge_count
            invariant
                first_edge@.len() == k,
                nverts <= 0xffff,
                max_edge_count < 0xffff,
                k <= nverts + max_edge_count,
                forall|q: int| 0 <= q < k ==> #[trigger] first_edge@[q] == 0xffff,
            decreases nverts + max_edge_count - k,
        {
            first_edge.push(RC_MESH_NULL_IDX);
            k = k + 1;
        }
        let next_edge_index = nverts;
        let mut edge_count: usize = 0;
        let mut edges: Vec<Edge> = Vec::new();
        let mut k: usize = 0;
        while k < max_edge_count
            invariant
                edges@.len() == k,
                k <= max_edge_count,
            decreases max_edge_count - k,
        {
            edges.push(Edge { vert: (0, 0), poly_edge: (0, 0), poly: (0, 0) });
            k = k + 1;
        }
        let mut i: usize = 0;
        while i < npolys
            invariant
                *self == m0,
                nvp == self.vertices_per_polygon,
                npolys == self.npolys,
                nverts == self.nvertices,
                next_edge_index == nverts,
                max_edge_count == npolys * nvp,
                max_edge_count < 0xffff,
                poly_base(npolys as int, nvp as int) <= self.polygons@.len(),
                self.polygons@.len() <= usize::MAX,
                vertex_slots_ok(self.polygons@, npolys as int, nvp as int, nverts as int),
                first_edge@.len() == nverts + max_edge_count,
                edges@.len() == max_edge_count,
                i <= npolys,
                edge_count <= i * nvp,
                self.edges_ok(edges@, edge_count as int),
                self.chains_ok(first_edge@, edges@, edge_count as int),
                p0 == self.polygons@,
                matched_before(edges@, edge_count as int, 0, 0),
                keys_ordered(edges@, edge_count as int),
                keys_before(edges@, edge_count as int, i as int, 0),
                recorded_upto(p0, npolys as int, nvp as int, edges@, edge_count as int, i as int, 0),
                chains_exact(nverts as int, first_edge@, edges@, edge_count as int),
            decreases npolys - i,
        {
            proof {
                assert(poly_base(i as int + 1, nvp as int) <= poly_base(npolys as int, nvp as int)) by (nonlinear_arith)
                    requires
                        i < npolys,
                ;
                assert(poly_base(i as int + 1, nvp as int) == poly_base(i as int, nvp as int) + 2 * nvp) by (nonlinear_arith);
                assert((i + 1) * nvp <= npolys * nvp) by (nonlinear_arith)
                    requires
                        i < npolys,
                ;
                assert((i + 1) * nvp == i * nvp + nvp) by (nonlinear_arith);
                lemma_count_from(self.polygons@, poly_base(i as int, nvp as int), 0, nvp as int);
            }
            let base = i * nvp * 2;
            let ghost cnt = poly_vert_count(self.polygons@, base as int, nvp as int);
            let mut j: usize = 0;
            while j < nvp && self.polygons[base + j] != RC_MESH_NULL_IDX
                invariant
                    *self == m0,
                    nvp == self.vertices_per_polygon,
                    npolys == self.npolys,
                    nverts == self.nvertices,
                    next_edge_index == nverts,
                    max_edge_count == npolys * nvp,
                    max_edge_count < 0xffff,
                    i < npolys,
                    base == poly_base(i as int, nvp as int),
                    base + 2 * nvp <= self.polygons@.len(),
                    cnt == poly_vert_count(self.polygons@, base as int, nvp as int),
                    cnt <= nvp,
                    forall|q: int| base <= q < base + cnt ==> self.polygons@[q] != 0xffff,
                    cnt < nvp ==> self.polygons@[base + cnt] == 0xffff,
                    vertex_slots_ok(self.polygons@, npolys as int, nvp as int, nverts as int),
                    first_edge@.len() == nverts + max_edge_count,
                    edges@.len() == max_edge_count,
                    j <= cnt,
                    edge_count <= i * nvp + j,
                    i * nvp + nvp <= max_edge_count,
                    self.edges_ok(edges@, edge_count as int),
                    self.chains_ok(first_edge@, edges@, edge_count as int),
                    p0 == self.polygons@,
                    matched_before(edges@, edge_count as int, 0, 0),
                    keys_ordered(edges@, edge_count as int),
                    keys_before(edges@, edge_count as int, i as int, j as int),
                    recorded_upto(p0, npolys as int, nvp as int, edges@, edge_count as int, i as int, j as int),
                    chains_exact(nverts as int, first_edge@, edges@, edge_count as int),
                decreases nvp - j,
            {
                let v0 = self.polygons[base + j];
                let v1 = if j + 1 >= nvp || self.polygons[base + j + 1] == RC_MESH_NULL_IDX {
                    self.polygons[base]
                } else {
                    self.polygons[base + j + 1]
                };
                proof {
                    assert(j < cnt);
                    assert(vertex_at(self.polygons@, nvp as int, i as int, j as int) < nverts);
                    assert(vertex_at(self.polygons@, nvp as int, i as int, 0) < nverts);
                    if !(j + 1 >= nvp || self.polygons@[base + j + 1] == 0xffff) {
                        assert(j + 1 < cnt);
                        assert(vertex_at(self.polygons@, nvp as int, i as int, j + 1) < nverts);
                    }
                    assert(edge_of(self.polygons@, nvp as int, i as int, j as int) == (v0, v1));
                }
                if v0 < v1 {
                    proof {
                        assert(i < 0xffff && j < 0xffff) by (nonlinear_arith)
                            requires
                                i < npolys,
                                j < nvp,
                                npolys * nvp < 0xffff,
                        ;
                    }
                    let ghost old_edges = edges@;
                    let ghost old_first = first_edge@;
                    let edge = Edge { vert: (v0, v1), poly: (i as u16, i as u16), poly_edge: (j as u16, 0) };
                    edges.set(edge_count, edge);
                    // Insert edge
                    let head = first_edge[v0 as usize];
                    first_edge.set(next_edge_index + edge_count, head);
                    first_edge.set(v0 as usize, edge_count as u16);
                    proof {
                        assert forall|e: int| 0 <= e < edge_count + 1 implies {
                            let ed = #[trigger] edges@[e];
                            &&& ed.vert.0 < ed.vert.1
                            &&& ed.poly.0 < self.npolys
                            &&& ed.poly_edge.0 < poly_vert_count(self.polygons@, poly_base(ed.poly.0 as int, nvp as int), nvp as int)
                            &&& edge_of(self.polygons@, nvp as int, ed.poly.0 as int, ed.poly_edge.0 as int) == ed.vert
                            &&& ed.poly.1 < self.npolys
                            &&& ed.poly.0 != ed.poly.1 ==> {
                                &&& ed.poly_edge.1 < poly_vert_count(self.polygons@, poly_base(ed.poly.1 as int, nvp as int), nvp as int)
                                &&& edge_of(self.polygons@, nvp as int, ed.poly.1 as int, ed.poly_edge.1 as int) == (ed.vert.1, ed.vert.0)
                            }
                        } by {
                            if e < edge_count {
                                assert(edges@[e] == old_edges[e]);
                            }
                        }
                        assert forall|v: int| 0 <= v < nverts implies (#[trigger] first_edge@[v] == 0xffff || (first_edge@[v] < edge_count + 1
                            && edges@[first_edge@[v] as int].vert.0 == v)) by {
                            if v != v0 {
                                assert(first_edge@[v] == old_first[v]);
                                if old_first[v] != 0xffff {
                                    assert(edges@[old_first[v] as int] == old_edges[old_first[v] as int]);
                                }
                            }
                        }
                        assert forall|e: int| 0 <= e < edge_count + 1 implies (#[trigger] first_edge@[nverts + e] == 0xffff || (
                        first_edge@[nverts + e] < e && edges@[first_edge@[nverts + e] as int].vert.0 == edges@[e].vert.0)) by {
                            if e < edge_count {
                                assert(first_edge@[nverts + e] == old_first[nverts + e]);
                                assert(edges@[e] == old_edges[e]);
                                if old_first[nverts + e] != 0xffff {
                                    assert(edges@[old_first[nverts + e] as int] == old_edges[old_first[nverts + e] as int]);
                                }
                            } else {
                                assert(first_edge@[nverts + e] == old_first[v0 as int]);
                                if old_first[v0 as int] != 0xffff {
                                    assert(edges@[old_first[v0 as int] as int] == old_edges[old_first[v0 as int] as int]);
                                }
                            }
                        }
                        lemma_chains_insert(nverts as int, old_first, old_edges, edge_count as int, first_edge@, edges@, edge);
                        assert forall|e: int| 0 <= e < edge_count + 1 && (#[trigger] edges@[e]).poly.0 != edges@[e].poly.1 implies visited_before(
                            edges@[e].poly.1 as int,
                            edges@[e].poly_edge.1 as int,
                            0,
                            0,
                        ) by {
                            if e < edge_count {
                                assert(edges@[e] == old_edges[e]);
                            }
                        }
                        assert forall|e1: int, e2: int| 0 <= e1 < e2 < edge_count + 1 implies visited_before(
                            (#[trigger] edges@[e1]).poly.0 as int,
                            edges@[e1].poly_edge.0 as int,
                            (#[trigger] edges@[e2]).poly.0 as int,
                            edges@[e2].poly_edge.0 as int,
                        ) by {
                            assert(edges@[e1] == old_edges[e1]);
                            if e2 < edge_count {
                                assert(edges@[e2] == old_edges[e2]);
                            } else {
                                assert(visited_before(old_edges[e1].poly.0 as int, old_edges[e1].poly_edge.0 as int, i as int, j as int));
                            }
                        }
                        assert forall|e: int| 0 <= e < edge_count + 1 implies visited_before(
                            (#[trigger] edges@[e]).poly.0 as int,
                            edges@[e].poly_edge.0 as int,
                            i as int,
                            j + 1,
                        ) by {
                            if e < edge_count {
                                assert(edges@[e] == old_edges[e]);
                            }
                        }
                        assert forall|i2: int, j2: int|
                            valid_edge(p0, npolys as int, nvp as int, i2, j2) && visited_before(i2, j2, i as int, j + 1) && (#[trigger] edge_of(
                                p0,
                                nvp as int,
                                i2,
                                j2,
                            )).0 < edge_of(p0, nvp as int, i2, j2).1 implies recorded(edges@, edge_count + 1, i2, j2) by {
                            if i2 == i && j2 == j {
                                assert(edges@[edge_count as int].poly.0 == i2 && edges@[edge_count as int].poly_edge.0 == j2);
                            } else {
                                lemma_recorded_keep(old_edges, edges@, edge_count as int, edge_count + 1, i2, j2);
                            }
                        }
                    }
                    edge_count = edge_count + 1;
                } else {
                    proof {
                        assert forall|i2: int, j2: int|
                            valid_edge(p0, npolys as int, nvp as int, i2, j2) && visited_before(i2, j2, i as int, j + 1) && (#[trigger] edge_of(
                                p0,
                                nvp as int,
                                i2,
                                j2,
                            )).0 < edge_of(p0, nvp as int, i2, j2).1 implies recorded(edges@, edge_count as int, i2, j2) by {
                            if i2 == i && j2 == j {
                                assert(false);
                            }
                        }
                    }
                }
                j = j + 1;
            }
            proof {
                assert(j == cnt);
                assert forall|i2: int, j2: int|
                    valid_edge(p0, npolys as int, nvp as int, i2, j2) && visited_before(i2, j2, i + 1, 0) && (#[trigger] edge_of(
                        p0,
                        nvp as int,
                        i2,
                        j2,
                    )).0 < edge_of(p0, nvp as int, i2, j2).1 implies recorded(edges@, edge_count as int, i2, j2) by {
                    assert(visited_before(i2, j2, i as int, j as int));
                }
            }
            i = i + 1;
        }
        // Match each edge with the polygon that walks it the other way.
        let ghost edges1 = edges@;
        let ghost uniq = unique_edges(p0, npolys as int, nvp as int);
        let mut i: usize = 0;
        while i < npolys
            invariant
                *self == m0,
                p0 == self.polygons@,
                nvp == self.vertices_per_polygon,
                npolys == self.npolys,
                nverts == self.nvertices,
                next_edge_index == nverts,
                max_edge_count == npolys * nvp,
                max_edge_count < 0xffff,
                poly_base(npolys as int, nvp as int) <= self.polygons@.len(),
                self.polygons@.len() <= usize::MAX,
                vertex_slots_ok(self.polygons@, npolys as int, nvp as int, nverts as int),
                first_edge@.len() == nverts + max_edge_count,
                edges@.len() == max_edge_count,
                edge_count <= max_edge_count,
                i <= npolys,
                self.edges_ok(edges@, edge_count as int),
                self.chains_ok(first_edge@, edges@, edge_count as int),
                uniq == unique_edges(p0, npolys as int, nvp as int),
                same_keys(edges@, edges1, edge_count as int),
                keys_ordered(edges1, edge_count as int),
                self.edges_ok(edges1, edge_count as int),
                chains_exact(nverts as int, first_edge@, edges1, edge_count as int),
                recorded_upto(p0, npolys as int, nvp as int, edges1, edge_count as int, npolys as int, 0),
                matched_before(edges@, edge_count as int, i as int, 0),
                uniq ==> matched_upto(p0, npolys as int, nvp as int, edges@, edge_count as int, i as int, 0),
            decreases npolys - i,
        {
            proof {
                assert(poly_base(i as int + 1, nvp as int) <= poly_base(npolys as int, nvp as int)) by (nonlinear_arith)
                    requires
                        i < npolys,
                ;
                assert(poly_base(i as int + 1, nvp as int) == poly_base(i as int, nvp as int) + 2 * nvp) by (nonlinear_arith);
                lemma_count_from(self.polygons@, poly_base(i as int, nvp as int), 0, nvp as int);
            }
            let base = i * nvp * 2;
            let nv = count_poly_verts(&self.polygons, base, nvp);
            let mut j: usize = 0;
            while j < nv && self.polygons[base + j] != RC_MESH_NULL_IDX
                invariant
                    *self == m0,
                    p0 == self.polygons@,
                    nvp == self.vertices_per_polygon,
                    npolys == self.npolys,
                    nverts == self.nvertices,
                    next_edge_index == nverts,
                    max_edge_count == npolys * nvp,
                    max_edge_count < 0xffff,
                    i < npolys,
                    base == poly_base(i as int, nvp as int),
                    base + 2 * nvp <= self.polygons@.len(),
                    self.polygons@.len() <= usize::MAX,
                    nv == poly_vert_count(self.polygons@, base as int, nvp as int),
                    nv <= nvp,
                    forall|q: int| base <= q < base + nv ==> self.polygons@[q] != 0xffff,
                    nv < nvp ==> self.polygons@[base + nv] == 0xffff,
                    vertex_slots_ok(self.polygons@, npolys as int, nvp as int, nverts as int),
                    first_edge@.len() == nverts + max_edge_count,
                    edges@.len() == max_edge_count,
                    edge_count <= max_edge_count,
                    j <= nv,
                    self.edges_ok(edges@, edge_count as int),
                    self.chains_ok(first_edge@, edges@, edge_count as int),
                    uniq == unique_edges(p0, npolys as int, nvp as int),
                    same_keys(edges@, edges1, edge_count as int),
                    keys_ordered(edges1, edge_count as int),
                    self.edges_ok(edges1, edge_count as int),
                    chains_exact(nverts as int, first_edge@, edges1, edge_count as int),
                    recorded_upto(p0, npolys as int, nvp as int, edges1, edge_count as int, npolys as int, 0),
                    matched_before(edges@, edge_count as int, i as int, j as int),
                    uniq ==> matched_upto(p0, npolys as int, nvp as int, edges@, edge_count as int, i as int, j as int),
                decreases nv - j,
            {
                let v0 = self.polygons[base + j];
                let v1 = if j + 1 >= nvp || self.polygons[base + j + 1] == RC_MESH_NULL_IDX {
                    self.polygons[base]
                } else {
                    self.polygons[base + j + 1]
                };
                proof {
                    assert(vertex_at(self.polygons@, nvp as int, i as int, j as int) < nverts);
                    assert(vertex_at(self.polygons@, nvp as int, i as int, 0) < nverts);
                    if !(j + 1 >= nvp || self.polygons@[base + j + 1] == 0xffff) {
                        assert(j + 1 < nv);
                        assert(vertex_at(self.polygons@, nvp as int, i as int, j + 1) < nverts);
                    }
                    assert(edge_of(self.polygons@, nvp as int, i as int, j as int) == (v0, v1));
                    assert(valid_edge(p0, npolys as int, nvp as int, i as int, j as int));
                    assert(i < 0xffff && j < 0xffff) by (nonlinear_arith)
                        requires
                            i < npolys,
                            j < nvp,
                            npolys * nvp < 0xffff,
                    ;
                }
                if v0 > v1 {
                    let ghost before_walk = edges@;
                    let ghost mut em: int = 0;
                    let mut e = first_edge[v1 as usize];
                    let mut done = false;
                    while e != RC_MESH_NULL_IDX && !done
                        invariant
                            *self == m0,
                            p0 == self.polygons@,
                            npolys == self.npolys,
                            nvp == self.vertices_per_polygon,
                            nverts == self.nvertices,
                            next_edge_index == nverts,
                            max_edge_count < 0xffff,
                            i < npolys,
                            i < 0xffff,
                            j < nv,
                            j < 0xffff,
                            nv == poly_vert_count(self.polygons@, poly_base(i as int, nvp as int), nvp as int),
                            edge_of(self.polygons@, nvp as int, i as int, j as int) == (v0, v1),
                            v1 < nverts,
                            first_edge@.len() == nverts + max_edge_count,
                            edges@.len() == max_edge_count,
                            edge_count <= max_edge_count,
                            e == 0xffff || (e < edge_count && edges@[e as int].vert.0 == v1),
                            self.edges_ok(edges@, edge_count as int),
                            self.chains_ok(first_edge@, edges@, edge_count as int),
                            same_keys(edges@, edges1, edge_count as int),
                            chains_exact(nverts as int, first_edge@, edges1, edge_count as int),
                            before_walk.len() == edges@.len(),
                            same_keys(before_walk, edges1, edge_count as int),
                            !done ==> edges@ == before_walk,
                            !done ==> forall|e2: int|
                                0 <= e2 < edge_count && edges1[e2].vert.0 == v1 && (e == 0xffff || e2 > e) ==> !(
                                (#[trigger] before_walk[e2]).vert.1 == v0 && before_walk[e2].poly.0 == before_walk[e2].poly.1),
                            done ==> {
                                &&& 0 <= em < edge_count
                                &&& edges1[em].vert == (v1, v0)
                                &&& before_walk[em].poly.0 == before_walk[em].poly.1
                                &&& edges@ == before_walk.update(
                                    em,
                                    Edge {
                                        vert: before_walk[em].vert,
                                        poly_edge: (before_walk[em].poly_edge.0, j as u16),
                                        poly: (before_walk[em].poly.0, i as u16),
                                    },
                                )
                            },
                        decreases (if done || e == 0xffff { 0int } else { e as int + 1 }),
                    {
                        let edge = edges[e as usize];
                        if edge.vert.1 == v0 && edge.poly.0 == edge.poly.1 {
                            let ghost old_edges = edges@;
                            edges.set(
                                e as usize,
                                Edge {
                                    vert: edge.vert,
                                    poly_edge: (edge.poly_edge.0, j as u16),
                                    poly: (edge.poly.0, i as u16),
                                },
                            );
                            proof {
                                em = e as int;
                                assert forall|e2: int| 0 <= e2 < edge_count implies {
                                    let ed = #[trigger] edges@[e2];
                                    &&& ed.vert.0 < ed.vert.1
                                    &&& ed.poly.0 < self.npolys
                                    &&& ed.poly_edge.0 < poly_vert_count(self.polygons@, poly_base(ed.poly.0 as int, nvp as int), nvp as int)
                                    &&& edge_of(self.polygons@, nvp as int, ed.poly.0 as int, ed.poly_edge.0 as int) == ed.vert
                                    &&& ed.poly.1 < self.npolys
                                    &&& ed.poly.0 != ed.poly.1 ==> {
                                        &&& ed.poly_edge.1 < poly_vert_count(self.polygons@, poly_base(ed.poly.1 as int, nvp as int), nvp as int)
                                        &&& edge_of(self.polygons@, nvp as int, ed.poly.1 as int, ed.poly_edge.1 as int) == (ed.vert.1, ed.vert.0)
                                    }
                                } by {
                                    if e2 != e {
                                        assert(edges@[e2] == old_edges[e2]);
                                    }
                                }
                                assert forall|v: int| 0 <= v < nverts implies (#[trigger] first_edge@[v] == 0xffff || (first_edge@[v] < edge_count
                                    && edges@[first_edge@[v] as int].vert.0 == v)) by {
                                    if first_edge@[v] != 0xffff {
                                        assert(edges@[first_edge@[v] as int].vert == old_edges[first_edge@[v] as int].vert);
                                    }
                                }
                                assert forall|e2: int| 0 <= e2 < edge_count implies (#[trigger] first_edge@[nverts + e2] == 0xffff || (
                                first_edge@[nverts + e2] < e2 && edges@[first_edge@[nverts + e2] as int].vert.0 == edges@[e2].vert.0)) by {
                                    assert(edges@[e2].vert == old_edges[e2].vert);
                                    if first_edge@[nverts + e2] != 0xffff {
                                        assert(edges@[first_edge@[nverts + e2] as int].vert == old_edges[first_edge@[nverts + e2] as int].vert);
                                    }
                                }
                                assert forall|e2: int| 0 <= e2 < edge_count implies {
                                    &&& (#[trigger] edges@[e2]).vert == edges1[e2].vert
                                    &&& edges@[e2].poly.0 == edges1[e2].poly.0
                                    &&& edges@[e2].poly_edge.0 == edges1[e2].poly_edge.0
                                } by {
                                    if e2 != e {
                                        assert(edges@[e2] == old_edges[e2]);
                                    }
                                }
                            }
                            done = true;
                        } else {
                            proof {
                                assert(edges1[e as int].vert.0 == v1);
                            }
                            e = first_edge[next_edge_index + e as usize];
                        }
                    }
                    proof {
                        lemma_walk_matched(
                            *self,
                            p0,
                            edges1,
                            before_walk,
                            edges@,
                            edge_count as int,
                            i as int,
                            j as int,
                            v0,
                            v1,
                            done,
                            em,
                            uniq,
                        );
                    }
                } else {
                    proof {
                        if uniq {
                            assert forall|i2: int, j2: int, e: int|
                                #![trigger edge_of(p0, nvp as int, i2, j2), edges@[e]]
                                valid_edge(p0, npolys as int, nvp as int, i2, j2) && visited_before(i2, j2, i as int, j + 1) && edge_of(
                                    p0,
                                    nvp as int,
                                    i2,
                                    j2,
                                ).0 > edge_of(p0, nvp as int, i2, j2).1 && 0 <= e < edge_count && edges@[e].vert == (
                                    edge_of(p0, nvp as int, i2, j2).1,
                                    edge_of(p0, nvp as int, i2, j2).0,
                                ) && edges@[e].poly.0 != i2 implies edges@[e].poly.1 == i2 && edges@[e].poly_edge.1 == j2 by {
                                if i2 == i && j2 == j {
                                    assert(false);
                                }
                            }
                        }
                    }
                }
                j = j + 1;
            }
            proof {
                assert(j == nv);
                if uniq {
                    assert forall|i2: int, j2: int, e: int|
                        #![trigger edge_of(p0, nvp as int, i2, j2), edges@[e]]
                        valid_edge(p0, npolys as int, nvp as int, i2, j2) && visited_before(i2, j2, i + 1, 0) && edge_of(
                            p0,
                            nvp as int,
                            i2,
                            j2,
                        ).0 > edge_of(p0, nvp as int, i2, j2).1 && 0 <= e < edge_count && edges@[e].vert == (
                            edge_of(p0, nvp as int, i2, j2).1,
                            edge_of(p0, nvp as int, i2, j2).0,
                        ) && edges@[e].poly.0 != i2 implies edges@[e].poly.1 == i2 && edges@[e].poly_edge.1 == j2 by {
                        assert(visited_before(i2, j2, i as int, j as int));
                    }
                }
            }
            i = i + 1;
        }
        // Store adjacency
        let ghost m1 = *self;
        let mut k: usize = 0;
        while k < edge_count
            invariant
                m1 == m0,
                self.polygons@.len() == p0.len(),
                *self == (InternalPolygonMesh { polygons: self.polygons, ..m0 }),
                nvp == m0.vertices_per_polygon,
                npolys == m0.npolys,
                max_edge_count == npolys * nvp,
                max_edge_count < 0xffff,
                poly_base(npolys as int, nvp as int) <= p0.len(),
                p0.len() <= usize::MAX,
                edges@.len() == max_edge_count,
                edge_count <= max_edge_count,
                k <= edge_count,
                m1.edges_ok(edges@, edge_count as int),
                m1.polygons@ == p0,
                uniq == unique_edges(p0, npolys as int, nvp as int),
                same_keys(edges@, edges1, edge_count as int),
                keys_ordered(edges1, edge_count as int),
                m1.edges_ok(edges1, edge_count as int),
                recorded_upto(p0, npolys as int, nvp as int, edges1, edge_count as int, npolys as int, 0),
                uniq ==> matched_upto(p0, npolys as int, nvp as int, edges@, edge_count as int, npolys as int, 0),
                uniq ==> forall|e2: int|
                    0 <= e2 < k && (#[trigger] edges@[e2]).poly.0 != edges@[e2].poly.1 ==> {
                        &&& slot_of(self.polygons@, nvp as int, edges@[e2].poly.0 as int, edges@[e2].poly_edge.0 as int)
                            == edges@[e2].poly.1
                        &&& slot_of(self.polygons@, nvp as int, edges@[e2].poly.1 as int, edges@[e2].poly_edge.1 as int)
                            == edges@[e2].poly.0
                    },
                forall|q: int| 0 <= q < p0.len() && kept_slot(q, npolys as int, nvp as int) ==> #[trigger] self.polygons@[q] == p0[q],
                forall|i2: int, j2: int|
                    0 <= i2 < npolys && 0 <= j2 < nvp ==> #[trigger] neighbour_sound(
                        p0,
                        self.polygons@,
                        npolys as int,
                        nvp as int,
                        i2,
                        j2,
                    ),
            decreases edge_count - k,
        {
            let e = edges[k];
            if e.poly.0 != e.poly.1 {
                proof {
                    assert(m1.edges_ok(edges@, edge_count as int));
                    assert(edges@[k as int] == e);
                }
                let a = e.poly.0 as usize;
                let b = e.poly.1 as usize;
                let ja = e.poly_edge.0 as usize;
                let jb = e.poly_edge.1 as usize;
                proof {
                    lemma_count_from(p0, poly_base(a as int, nvp as int), 0, nvp as int);
                    lemma_count_from(p0, poly_base(b as int, nvp as int), 0, nvp as int);
                    lemma_neighbour_slot(a as int, ja as int, npolys as int, nvp as int);
                    lemma_neighbour_slot(b as int, jb as int, npolys as int, nvp as int);
                    assert(edge_of(p0, nvp as int, b as int, jb as int) == (e.vert.1, e.vert.0));
                    assert(edge_of(p0, nvp as int, a as int, ja as int) == e.vert);
                }
                let ghost before = self.polygons@;
                let idx0 = a * nvp * 2 + nvp + ja;
                self.polygons.set(idx0, e.poly.1);
                let idx1 = b * nvp * 2 + nvp + jb;
                self.polygons.set(idx1, e.poly.0);
                proof {
                    if uniq {
                        assert(idx0 != idx1) by {
                            if idx0 == idx1 {
                                lemma_neighbour_slot_unique(a as int, ja as int, b as int, jb as int, nvp as int);
                            }
                        }
                        assert forall|e2: int| 0 <= e2 < k + 1 && (#[trigger] edges@[e2]).poly.0 != edges@[e2].poly.1 implies {
                            &&& slot_of(self.polygons@, nvp as int, edges@[e2].poly.0 as int, edges@[e2].poly_edge.0 as int)
                                == edges@[e2].poly.1
                            &&& slot_of(self.polygons@, nvp as int, edges@[e2].poly.1 as int, edges@[e2].poly_edge.1 as int)
                                == edges@[e2].poly.0
                        } by {
                            let x = edges@[e2];
                            let sa = poly_base(x.poly.0 as int, nvp as int) + nvp + x.poly_edge.0;
                            let sb = poly_base(x.poly.1 as int, nvp as int) + nvp + x.poly_edge.1;
                            assert(idx0 == poly_base(a as int, nvp as int) + nvp + ja);
                            assert(idx1 == poly_base(b as int, nvp as int) + nvp + jb);
                            if e2 < k {
                                lemma_count_from(p0, poly_base(x.poly.0 as int, nvp as int), 0, nvp as int);
                                lemma_count_from(p0, poly_base(x.poly.1 as int, nvp as int), 0, nvp as int);
                                lemma_neighbour_slot(x.poly.0 as int, x.poly_edge.0 as int, npolys as int, nvp as int);
                                lemma_neighbour_slot(x.poly.1 as int, x.poly_edge.1 as int, npolys as int, nvp as int);
                                lemma_slots_distinct(m1, edges@, edges1, edge_count as int, e2, k as int);
                                assert(sa != idx0 && sa != idx1 && sb != idx0 && sb != idx1);
                                assert(self.polygons@[sa] == before[sa]);
                                assert(self.polygons@[sb] == before[sb]);
                            } else {
                                assert(x == e);
                                assert(sa == idx0 && sb == idx1);
                            }
                        }
                    }
                    assert forall|q: int| 0 <= q < p0.len() && kept_slot(q, npolys as int, nvp as int) implies #[trigger] self.polygons@[q]
                        == p0[q] by {
                        assert(q != idx0 && q != idx1);
                        assert(self.polygons@[q] == before[q]);
                    }
                    assert forall|i2: int, j2: int| 0 <= i2 < npolys && 0 <= j2 < nvp implies #[trigger] neighbour_sound(
                        p0,
                        self.polygons@,
                        npolys as int,
                        nvp as int,
                        i2,
                        j2,
                    ) by {
                        let q = poly_base(i2, nvp as int) + nvp + j2;
                        lemma_neighbour_slot(i2, j2, npolys as int, nvp as int);
                        if q == idx1 {
                            lemma_neighbour_slot_unique(i2, j2, b as int, jb as int, nvp as int);
                            assert(shares_edge(p0, nvp as int, b as int, jb as int, a as int));
                        } else if q == idx0 {
                            lemma_neighbour_slot_unique(i2, j2, a as int, ja as int, nvp as int);
                            assert(shares_edge(p0, nvp as int, a as int, ja as int, b as int));
                        } else {
                            assert(self.polygons@[q] == before[q]);
                            assert(neighbour_sound(p0, before, npolys as int, nvp as int, i2, j2));
                        }
                    }
                }
            }
            k = k + 1;
        }
        proof {
            if uniq {
                assert forall|i2: int, j2: int, k2: int, l2: int|
                    valid_edge(p0, npolys as int, nvp as int, i2, j2) && #[trigger] opposite_edge(
                        p0,
                        npolys as int,
                        nvp as int,
                        i2,
                        j2,
                        k2,
                        l2,
                    ) implies self.polygons@[poly_base(i2, nvp as int) + nvp + j2] == k2 by {
                    let ev = edge_of(p0, nvp as int, i2, j2);
                    if ev.0 < ev.1 {
                        assert(visited_before(i2, j2, npolys as int, 0));
                        assert(edge_of(p0, nvp as int, i2, j2).0 < edge_of(p0, nvp as int, i2, j2).1);
                        assert(recorded(edges1, edge_count as int, i2, j2));
                        let w = choose|w: int|
                            0 <= w < edge_count && (#[trigger] edges1[w]).poly.0 == i2 && edges1[w].poly_edge.0 == j2;
                        assert(edges@[w].vert == edges1[w].vert);
                        assert(edges1[w].vert == ev);
                        assert(visited_before(k2, l2, npolys as int, 0));
                        assert(edge_of(p0, nvp as int, k2, l2) == (ev.1, ev.0));
                        assert(edges@[w].poly.1 == k2 && edges@[w].poly_edge.1 == l2);
                    } else {
                        assert(visited_before(k2, l2, npolys as int, 0));
                        assert(edge_of(p0, nvp as int, k2, l2).0 < edge_of(p0, nvp as int, k2, l2).1);
                        assert(recorded(edges1, edge_count as int, k2, l2));
                        let w = choose|w: int|
                            0 <= w < edge_count && (#[trigger] edges1[w]).poly.0 == k2 && edges1[w].poly_edge.0 == l2;
                        assert(edges@[w].vert == edges1[w].vert);
                        assert(edges1[w].vert == (ev.1, ev.0));
                        assert(visited_before(i2, j2, npolys as int, 0));
                        assert(edge_of(p0, nvp as int, i2, j2) == ev);
                        assert(edges@[w].poly.1 == i2 && edges@[w].poly_edge.1 == j2);
                    }
                }
            }
        }
        Ok(())
    }
}

/// The neighbour slot `j` of polygon `i` lies inside the polygons and is
/// not a kept slot.
proof fn lemma_neighbour_slot(i: int, j: int, npolys: int, nvp: int)
    requires
        0 <= i < npolys,
        0 <= j < nvp,
    ensures
        poly_base(i, nvp) + nvp + j < poly_base(npolys, nvp),
        0 <= poly_base(i, nvp),
        !kept_slot(poly_base(i, nvp) + nvp + j, npolys, nvp),
{
    assert(poly_base(i, nvp) + 2 * nvp <= poly_base(npolys, nvp)) by (nonlinear_arith)
        requires
            0 <= i < npolys,
            0 <= nvp,
    ;
    assert(0 <= poly_base(i, nvp)) by (nonlinear_arith)
        requires
            0 <= i,
            0 <= nvp,
    ;
    assert(poly_base(i, nvp) == i * (2 * nvp)) by (nonlinear_arith);
    vstd::arithmetic::div_mod::lemma_fundamental_div_mod_converse(i * (2 * nvp) + nvp + j, 2 * nvp, i, nvp + j);
}

/// Distinct (polygon, edge) pairs have distinct neighbour slots.
proof fn lemma_neighbour_slot_unique(i: int, j: int, i2: int, j2: int, nvp: int)
    requires
        0 <= i,
        0 <= i2,
        0 <= j < nvp,
        0 <= j2 < nvp,
        poly_base(i, nvp) + nvp + j == poly_base(i2, nvp) + nvp + j2,
    ensures
        i == i2 && j == j2,
{
    assert(poly_base(i, nvp) == i * (2 * nvp)) by (nonlinear_arith);
    assert(poly_base(i2, nvp) == i2 * (2 * nvp)) by (nonlinear_arith);
    vstd::arithmetic::div_mod::lemma_fundamental_div_mod_converse(i * (2 * nvp) + nvp + j, 2 * nvp, i, nvp + j);
    vstd::arithmetic::div_mod::lemma_fundamental_div_mod_converse(i2 * (2 * nvp) + nvp + j2, 2 * nvp, i2, nvp + j2);
}

/// Recording a new edge as the newest of its start vertex keeps the edge
/// lists complete.
proof fn lemma_chains_insert(
    nv: int,
    first: Seq<u16>,
    edges: Seq<Edge>,
    count: int,
    first2: Seq<u16>,
    edges2: Seq<Edge>,
    ed: Edge,
)
    requires
        chains_exact(nv, first, edges, count),
        0 <= ed.vert.0 < nv,
        0 <= count < edges.len(),
        count < 0xffff,
        nv + count < first.len(),
        edges2 == edges.update(count, ed),
        first2 == first.update(nv + count, first[ed.vert.0 as int]).update(ed.vert.0 as int, count as u16),
    ensures
        chains_exact(nv, first2, edges2, count + 1),
{
    let v0 = ed.vert.0 as int;
    assert forall|v: int| 0 <= v < nv implies {
        &&& #[trigger] first2[v] == 0xffff ==> forall|e: int| 0 <= e < count + 1 ==> (#[trigger] edges2[e]).vert.0 != v
        &&& first2[v] != 0xffff ==> {
            &&& first2[v] < count + 1
            &&& edges2[first2[v] as int].vert.0 == v
            &&& forall|e: int| first2[v] < e < count + 1 ==> (#[trigger] edges2[e]).vert.0 != v
        }
    } by {
        if v != v0 {
            assert(first2[v] == first[v]);
            assert forall|e: int| 0 <= e < count implies #[trigger] edges2[e] == edges[e] by {}
            if first[v] == 0xffff {
                assert forall|e: int| 0 <= e < count + 1 implies (#[trigger] edges2[e]).vert.0 != v by {
                    if e < count {
                        assert(edges2[e] == edges[e]);
                    }
                }
            } else {
                assert(edges2[first[v] as int] == edges[first[v] as int]);
                assert forall|e: int| first2[v] < e < count + 1 implies (#[trigger] edges2[e]).vert.0 != v by {
                    if e < count {
                        assert(edges2[e] == edges[e]);
                    }
                }
            }
        }
    }
    assert forall|e: int| 0 <= e < count + 1 implies {
        &&& #[trigger] first2[nv + e] == 0xffff ==> forall|e2: int| 0 <= e2 < e ==> (#[trigger] edges2[e2]).vert.0 != edges2[e].vert.0
        &&& first2[nv + e] != 0xffff ==> {
            &&& first2[nv + e] < e
            &&& edges2[first2[nv + e] as int].vert.0 == edges2[e].vert.0
            &&& forall|e2: int| first2[nv + e] < e2 < e ==> (#[trigger] edges2[e2]).vert.0 != edges2[e].vert.0
        }
    } by {
        if e < count {
            assert(first2[nv + e] == first[nv + e]);
            assert(edges2[e] == edges[e]);
            assert forall|e2: int| 0 <= e2 < e implies #[trigger] edges2[e2] == edges[e2] by {}
            if first[nv + e] != 0xffff {
                assert(edges2[first[nv + e] as int] == edges[first[nv + e] as int]);
            }
        } else {
            assert(first2[nv + e] == first[v0]);
            assert forall|e2: int| 0 <= e2 < e implies #[trigger] edges2[e2] == edges[e2] by {}
            if first[v0] != 0xffff {
                assert(edges2[first[v0] as int] == edges[first[v0] as int]);
            }
        }
    }
}

/// A recorded polygon edge stays recorded while the edges keep their first
/// polygon edge and more may follow.
proof fn lemma_recorded_keep(edges: Seq<Edge>, edges2: Seq<Edge>, count: int, count2: int, i: int, j: int)
    requires
        recorded(edges, count, i, j),
        count <= count2,
        count <= edges2.len(),
        forall|e: int| 0 <= e < count ==> (#[trigger] edges2[e]).poly.0 == edges[e].poly.0 && edges2[e].poly_edge.0 == edges[e].poly_edge.0,
    ensures
        recorded(edges2, count2, i, j),
{
    let w = choose|w: int| 0 <= w < count && (#[trigger] edges[w]).poly.0 == i && edges[w].poly_edge.0 == j;
    assert(edges2[w].poly.0 == i && edges2[w].poly_edge.0 == j);
}

/// Under unique directed edges, two recorded edges with the same ends are
/// the same edge.
proof fn lemma_vert_unique(m: InternalPolygonMesh, edges: Seq<Edge>, count: int, e1: int, e2: int)
    requires
        m.edges_ok(edges, count),
        keys_ordered(edges, count),
        unique_edges(m.polygons@, m.npolys as int, m.vertices_per_polygon as int),
        0 <= e1 < count,
        0 <= e2 < count,
        edges[e1].vert == edges[e2].vert,
    ensures
        e1 == e2,
{
    let p = m.polygons@;
    let nvp = m.vertices_per_polygon as int;
    let a = edges[e1];
    let b = edges[e2];
    assert(valid_edge(p, m.npolys as int, nvp, a.poly.0 as int, a.poly_edge.0 as int));
    assert(valid_edge(p, m.npolys as int, nvp, b.poly.0 as int, b.poly_edge.0 as int));
    assert(edge_of(p, nvp, a.poly.0 as int, a.poly_edge.0 as int) == edge_of(p, nvp, b.poly.0 as int, b.poly_edge.0 as int));
    if e1 < e2 {
        assert(visited_before(a.poly.0 as int, a.poly_edge.0 as int, b.poly.0 as int, b.poly_edge.0 as int));
    } else if e2 < e1 {
        assert(visited_before(b.poly.0 as int, b.poly_edge.0 as int, a.poly.0 as int, a.poly_edge.0 as int));
    }
}

/// After the walk for the descending polygon edge `(i, j)` from `v0` to
/// `v1`, the edges matched so far and their matches are those of the edges
/// visited up to `(i, j)`.
proof fn lemma_walk_matched(
    m: InternalPolygonMesh,
    p0: Seq<u16>,
    edges1: Seq<Edge>,
    before: Seq<Edge>,
    after: Seq<Edge>,
    count: int,
    i: int,
    j: int,
    v0: u16,
    v1: u16,
    done: bool,
    em: int,
    uniq: bool,
)
    requires
        p0 == m.polygons@,
        valid_edge(p0, m.npolys as int, m.vertices_per_polygon as int, i, j),
        edge_of(p0, m.vertices_per_polygon as int, i, j) == (v0, v1),
        v0 > v1,
        0 <= i < 0xffff,
        0 <= j < 0xffff,
        0 <= count <= before.len(),
        before.len() == after.len(),
        uniq == unique_edges(p0, m.npolys as int, m.vertices_per_polygon as int),
        m.edges_ok(edges1, count),
        keys_ordered(edges1, count),
        m.edges_ok(before, count),
        same_keys(before, edges1, count),
        matched_before(before, count, i, j),
        uniq ==> matched_upto(p0, m.npolys as int, m.vertices_per_polygon as int, before, count, i, j),
        !done ==> after == before,
        !done ==> forall|e2: int|
            0 <= e2 < count && edges1[e2].vert.0 == v1 ==> !((#[trigger] before[e2]).vert.1 == v0 && before[e2].poly.0
                == before[e2].poly.1),
        done ==> {
            &&& 0 <= em < count
            &&& edges1[em].vert == (v1, v0)
            &&& before[em].poly.0 == before[em].poly.1
            &&& after == before.update(
                em,
                Edge {
                    vert: before[em].vert,
                    poly_edge: (before[em].poly_edge.0, j as u16),
                    poly: (before[em].poly.0, i as u16),
                },
            )
        },
    ensures
        matched_before(after, count, i, j + 1),
        uniq ==> matched_upto(p0, m.npolys as int, m.vertices_per_polygon as int, after, count, i, j + 1),
{
    let nvp = m.vertices_per_polygon as int;
    let npolys = m.npolys as int;
    assert forall|e: int| 0 <= e < count && (#[trigger] after[e]).poly.0 != after[e].poly.1 implies visited_before(
        after[e].poly.1 as int,
        after[e].poly_edge.1 as int,
        i,
        j + 1,
    ) by {
        if !(done && e == em) {
            assert(after[e] == before[e]);
        }
    }
    if uniq {
        assert forall|i2: int, j2: int, e: int|
            #![trigger edge_of(p0, nvp, i2, j2), after[e]]
            valid_edge(p0, npolys, nvp, i2, j2) && visited_before(i2, j2, i, j + 1) && edge_of(p0, nvp, i2, j2).0 > edge_of(
                p0,
                nvp,
                i2,
                j2,
            ).1 && 0 <= e < count && after[e].vert == (edge_of(p0, nvp, i2, j2).1, edge_of(p0, nvp, i2, j2).0)
                && after[e].poly.0 != i2 implies after[e].poly.1 == i2 && after[e].poly_edge.1 == j2 by {
            assert(after[e].vert == before[e].vert);
            assert(before[e].vert == edges1[e].vert);
            if visited_before(i2, j2, i, j) {
                if done && e == em {
                    assert(edge_of(p0, nvp, i2, j2) == edge_of(p0, nvp, i, j));
                    assert(i2 == i && j2 == j);
                } else {
                    assert(after[e] == before[e]);
                    assert(edge_of(p0, nvp, i2, j2) == edge_of(p0, nvp, i2, j2));
                }
            } else {
                assert(i2 == i && j2 == j);
                if done {
                    lemma_vert_unique(m, edges1, count, e, em);
                } else {
                    assert(edges1[e].vert.0 == v1);
                    assert(before[e].poly.0 != before[e].poly.1);
                    let b = before[e];
                    assert(visited_before(b.poly.1 as int, b.poly_edge.1 as int, i, j));
                    assert(valid_edge(p0, npolys, nvp, b.poly.1 as int, b.poly_edge.1 as int));
                    assert(edge_of(p0, nvp, b.poly.1 as int, b.poly_edge.1 as int) == edge_of(p0, nvp, i, j));
                }
            }
        }
    }
}

/// Under unique directed edges, the neighbour slots written for two
/// different matched edges are four different slots.
proof fn lemma_slots_distinct(m: InternalPolygonMesh, edges: Seq<Edge>, edges1: Seq<Edge>, count: int, e1: int, e2: int)
    requires
        unique_edges(m.polygons@, m.npolys as int, m.vertices_per_polygon as int),
        m.edges_ok(edges, count),
        m.edges_ok(edges1, count),
        keys_ordered(edges1, count),
        same_keys(edges, edges1, count),
        0 <= e1 < count,
        0 <= e2 < count,
        e1 != e2,
        edges[e1].poly.0 != edges[e1].poly.1,
        edges[e2].poly.0 != edges[e2].poly.1,
    ensures
        ({
            let nvp = m.vertices_per_polygon as int;
            let x = edges[e1];
            let y = edges[e2];
            let sa1 = poly_base(x.poly.0 as int, nvp) + nvp + x.poly_edge.0;
            let sb1 = poly_base(x.poly.1 as int, nvp) + nvp + x.poly_edge.1;
            let sa2 = poly_base(y.poly.0 as int, nvp) + nvp + y.poly_edge.0;
            let sb2 = poly_base(y.poly.1 as int, nvp) + nvp + y.poly_edge.1;
            &&& sa1 != sa2
            &&& sa1 != sb2
            &&& sb1 != sa2
            &&& sb1 != sb2
        }),
{
    let p = m.polygons@;
    let nvp = m.vertices_per_polygon as int;
    let x = edges[e1];
    let y = edges[e2];
    lemma_count_from(p, poly_base(x.poly.0 as int, nvp), 0, nvp);
    lemma_count_from(p, poly_base(x.poly.1 as int, nvp), 0, nvp);
    lemma_count_from(p, poly_base(y.poly.0 as int, nvp), 0, nvp);
    lemma_count_from(p, poly_base(y.poly.1 as int, nvp), 0, nvp);
    assert(x.vert == edges1[e1].vert);
    assert(y.vert == edges1[e2].vert);
    let sa1 = poly_base(x.poly.0 as int, nvp) + nvp + x.poly_edge.0;
    let sb1 = poly_base(x.poly.1 as int, nvp) + nvp + x.poly_edge.1;
    let sa2 = poly_base(y.poly.0 as int, nvp) + nvp + y.poly_edge.0;
    let sb2 = poly_base(y.poly.1 as int, nvp) + nvp + y.poly_edge.1;
    if sa1 == sa2 {
        lemma_neighbour_slot_unique(x.poly.0 as int, x.poly_edge.0 as int, y.poly.0 as int, y.poly_edge.0 as int, nvp);
        lemma_vert_unique(m, edges1, count, e1, e2);
    }
    if sa1 == sb2 {
        lemma_neighbour_slot_unique(x.poly.0 as int, x.poly_edge.0 as int, y.poly.1 as int, y.poly_edge.1 as int, nvp);
    }
    if sb1 == sa2 {
        lemma_neighbour_slot_unique(x.poly.1 as int, x.poly_edge.1 as int, y.poly.0 as int, y.poly_edge.0 as int, nvp);
    }
    if sb1 == sb2 {
        lemma_neighbour_slot_unique(x.poly.1 as int, x.poly_edge.1 as int, y.poly.1 as int, y.poly_edge.1 as int, nvp);
        lemma_vert_unique(m, edges1, count, e1, e2);
    }
}

/// Represents a polygon mesh suitable for use in building a navigation mesh.
#[derive(Debug, Clone, PartialEq)]
pub struct PolygonMesh {
    /// The mesh vertices.
    pub vertices: Vec<MeshVertex>,
    /// Polygon and neighbor data. [Length: [`Self::polygon_count`] * 2 * [`Self::vertices_per_polygon`]]
    pub polygons: Vec<u16>,
    /// The region id assigned to each polygon.
    pub regions: Vec<RegionId>,
    /// The flags assigned to each polygon.
    pub flags: Vec<u16>,
    /// The area id assigned to each polygon.
    pub areas: Vec<AreaType>,
    /// The number of allocated polygons
    pub max_polygons: usize,
    /// The maximum number of vertices per polygon
    pub vertices_per_polygon: usize,
    /// The AABB border size used to generate the source data from which the mesh was derived.
    pub border_size: u16,
}

impl PolygonMesh {
    /// The number of polygons in the mesh. Note that this is different from `polygons.len()`.
    pub fn polygon_count(&self) -> (r: usize)
        requires
            0 < self.vertices_per_polygon,
            2 * self.vertices_per_polygon <= usize::MAX,
        ensures
            r as int == self.polygons@.len() as int / (2 * self.vertices_per_polygon as int),
    {
        self.polygons.len() / (2 * self.vertices_per_polygon)
    }
}

impl PolygonMesh {
    /// The finished mesh of a mesh under construction: the first `npolys`
    /// entries of its polygon data and its first `nvertices` vertices.
    pub fn from_internal(value: InternalPolygonMesh) -> (r: PolygonMesh)
        ensures
            r.vertices@ == (if value.nvertices < value.vertices@.len() {
                value.vertices@.take(value.nvertices as int)
            } else {
                value.vertices@
            }),
            r.polygons@ == (if value.npolys < value.polygons@.len() {
                value.polygons@.take(value.npolys as int)
            } else {
                value.polygons@
            }),
            r.regions == value.regions,
            r.flags == value.flags,
            r.areas == value.areas,
            r.max_polygons == value.max_polygons,
            r.vertices_per_polygon == value.vertices_per_polygon,
            r.border_size == value.border_size,
    {
        let mut value = value;
        value.polygons.truncate(value.npolys);
        value.vertices.truncate(value.nvertices as usize);
        PolygonMesh {
            vertices: value.vertices,
            polygons: value.polygons,
            regions: value.regions,
            flags: value.flags,
            areas: value.areas,
            max_polygons: value.max_polygons,
            vertices_per_polygon: value.vertices_per_polygon,
            border_size: value.border_size,
        }
    }
}

/// The number of slots among the first `j` of the polygon at `base` that
/// hold `rem`.
pub open spec fn occ_upto(p: Seq<u16>, base: int, rem: u16, j: int) -> int
    decreases j,
{
    if j <= 0 {
        0
    } else {
        occ_upto(p, base, rem, j - 1) + if p[base + j - 1] == rem {
            1int
        } else {
            0int
        }
    }
}

/// The number of vertices of polygon `i`.
pub open spec fn nv_of(p: Seq<u16>, nvp: int, i: int) -> int {
    poly_vert_count(p, poly_base(i, nvp), nvp)
}

/// The number of times `rem` occurs among the vertices of polygon `i`.
pub open spec fn occ_of(p: Seq<u16>, nvp: int, i: int, rem: u16) -> int {
    occ_upto(p, poly_base(i, nvp), rem, nv_of(p, nvp, i))
}

/// The number of times `rem` occurs in the first `i` polygons.
pub open spec fn touched_upto(p: Seq<u16>, nvp: int, rem: u16, i: int) -> int
    decreases i,
{
    if i <= 0 {
        0
    } else {
        touched_upto(p, nvp, rem, i - 1) + occ_of(p, nvp, i - 1, rem)
    }
}

/// The edges left over the first `i` polygons once the polygons holding
/// `rem` are removed: each such polygon of `n` vertices, `k` of them `rem`,
/// leaves `n - (k + 1)`.
pub open spec fn remaining_upto(p: Seq<u16>, nvp: int, rem: u16, i: int) -> int
    decreases i,
{
    if i <= 0 {
        0
    } else {
        remaining_upto(p, nvp, rem, i - 1) + if occ_of(p, nvp, i - 1, rem) != 0 {
            nv_of(p, nvp, i - 1) - (occ_of(p, nvp, i - 1, rem) + 1)
        } else {
            0
        }
    }
}

/// The edge from slot `j - 1` (cyclically) to slot `j` of the polygon at
/// `base` touches `rem`; the value is its other end (or `rem` itself when
/// both are `rem`).
pub open spec fn pair_value(p: Seq<u16>, base: int, nv: int, j: int, rem: u16) -> Option<u16> {
    let a = p[base + j];
    let b = p[base + if j == 0 {
        nv - 1
    } else {
        j - 1
    }];
    if a == rem || b == rem {
        Some(
            if b != rem {
                b
            } else {
                a
            },
        )
    } else {
        None
    }
}

/// The values of the first `j` slot pairs of the polygon at `base` that
/// touch `rem`.
pub open spec fn pairs_upto(p: Seq<u16>, base: int, nv: int, rem: u16, j: int) -> Seq<u16>
    decreases j,
{
    if j <= 0 {
        seq![]
    } else {
        match pair_value(p, base, nv, j - 1, rem) {
            Some(b) => pairs_upto(p, base, nv, rem, j - 1).push(b),
            None => pairs_upto(p, base, nv, rem, j - 1),
        }
    }
}

/// The values of the slot pairs touching `rem` over the first `i` polygons.
pub open spec fn all_pairs_upto(p: Seq<u16>, nvp: int, rem: u16, i: int) -> Seq<u16>
    decreases i,
{
    if i <= 0 {
        seq![]
    } else {
        all_pairs_upto(p, nvp, rem, i - 1) + pairs_upto(p, poly_base(i - 1, nvp), nv_of(p, nvp, i - 1), rem, nv_of(p, nvp, i - 1))
    }
}

/// The distinct values of `vals`, in order of first appearance, each with
/// the number of times it occurs.
pub open spec fn tally(vals: Seq<u16>) -> Seq<(u16, nat)>
    decreases vals.len(),
{
    if vals.len() == 0 {
        seq![]
    } else {
        tally_add(tally(vals.drop_last()), vals.last())
    }
}

/// One more occurrence of `v` in a tally.
pub open spec fn tally_add(acc: Seq<(u16, nat)>, v: u16) -> Seq<(u16, nat)> {
    if exists|t: int| 0 <= t < acc.len() && (#[trigger] acc[t]).0 == v {
        let t = choose|t: int| 0 <= t < acc.len() && (#[trigger] acc[t]).0 == v;
        acc.update(t, (v, acc[t].1 + 1))
    } else {
        acc.push((v, 1nat))
    }
}

/// The values of a tally are distinct.
pub open spec fn tally_distinct(acc: Seq<(u16, nat)>) -> bool {
    forall|t1: int, t2: int| 0 <= t1 < t2 < acc.len() ==> (#[trigger] acc[t1]).0 != (#[trigger] acc[t2]).0
}

/// The number of entries of the tally seen fewer than twice.
pub open spec fn rare_upto(acc: Seq<(u16, nat)>, n: int) -> int
    decreases n,
{
    if n <= 0 {
        0
    } else {
        rare_upto(acc, n - 1) + if acc[n - 1].1 < 2 {
            1int
        } else {
            0int
        }
    }
}

/// Whether the vertex `rem` of the first `npolys` polygons can be removed:
/// the polygons around it leave more than two edges, and their edges at
/// `rem` leave at most two open ones: other ends met only once.
pub open spec fn can_remove_spec(p: Seq<u16>, nvp: int, npolys: int, rem: u16) -> bool {
    let acc = tally(all_pairs_upto(p, nvp, rem, npolys));
    &&& remaining_upto(p, nvp, rem, npolys) > 2
    &&& rare_upto(acc, acc.len() as int) <= 2
}

/// A tally keeps its values distinct.
proof fn lemma_tally_distinct(vals: Seq<u16>)
    ensures
        tally_distinct(tally(vals)),
    decreases vals.len(),
{
    if vals.len() > 0 {
        lemma_tally_distinct(vals.drop_last());
        let acc = tally(vals.drop_last());
        let v = vals.last();
        if exists|t: int| 0 <= t < acc.len() && (#[trigger] acc[t]).0 == v {
            let t = choose|t: int| 0 <= t < acc.len() && (#[trigger] acc[t]).0 == v;
            let acc2 = acc.update(t, (v, acc[t].1 + 1));
            assert forall|t1: int, t2: int| 0 <= t1 < t2 < acc2.len() implies (#[trigger] acc2[t1]).0 != (#[trigger] acc2[t2]).0 by {
                assert(acc2[t1].0 == acc[t1].0);
                assert(acc2[t2].0 == acc[t2].0);
            }
        } else {
            let acc2 = acc.push((v, 1nat));
            assert forall|t1: int, t2: int| 0 <= t1 < t2 < acc2.len() implies (#[trigger] acc2[t1]).0 != (#[trigger] acc2[t2]).0 by {
                if t2 == acc.len() {
                    assert(acc2[t1] == acc[t1]);
                } else {
                    assert(acc2[t1] == acc[t1]);
                    assert(acc2[t2] == acc[t2]);
                }
            }
        }
    }
}

/// A tally never has more entries than values counted.
/// Each slot pair touching `rem` has `rem` in its slot or in the slot
/// before it, so the first `j` pairs number at most the occurrences of
/// `rem` among the first `j` slots plus among the slots before them.
proof fn lemma_pairs_len(p: Seq<u16>, base: int, nv: int, rem: u16, j: int)
    requires
        0 <= j <= nv,
    ensures
        pairs_upto(p, base, nv, rem, j).len() <= occ_upto(p, base, rem, j) + (if j >= 1 {
            occ_upto(p, base, rem, j - 1) + (if p[base + nv - 1] == rem {
                1int
            } else {
                0int
            })
        } else {
            0int
        }),
    decreases j,
{
    if j >= 1 {
        lemma_pairs_len(p, base, nv, rem, j - 1);
    }
}

/// The slot pairs touching `rem` number at most twice its occurrences.
pub(crate) proof fn lemma_all_pairs_len(p: Seq<u16>, nvp: int, rem: u16, i: int)
    requires
        0 <= i,
    ensures
        all_pairs_upto(p, nvp, rem, i).len() <= 2 * touched_upto(p, nvp, rem, i),
    decreases i,
{
    if i > 0 {
        lemma_all_pairs_len(p, nvp, rem, i - 1);
        let nv = nv_of(p, nvp, i - 1);
        if nv >= 1 {
            lemma_pairs_len(p, poly_base(i - 1, nvp), nv, rem, nv);
        }
    }
}

proof fn lemma_tally_len(vals: Seq<u16>)
    ensures
        tally(vals).len() <= vals.len(),
        forall|t: int| 0 <= t < tally(vals).len() ==> (#[trigger] tally(vals)[t]).1 <= vals.len(),
    decreases vals.len(),
{
    if vals.len() > 0 {
        lemma_tally_len(vals.drop_last());
    }
}

/// `rare_upto` counts at most `n`.
proof fn lemma_rare_le(acc: Seq<(u16, nat)>, n: int)
    requires
        0 <= n,
    ensures
        0 <= rare_upto(acc, n) <= n,
    decreases n,
{
    if n > 0 {
        lemma_rare_le(acc, n - 1);
    }
}

impl InternalPolygonMesh {
    /// Checks whether vertex `rem` can be removed from the mesh.
    ///
    /// There must remain more than two edges once the polygons around it
    /// are removed (this catches the tip of a triangle marked for deletion
    /// that no other polygon shares), and at most two of the edges at `rem`
    /// may be open (this catches two non-adjacent polygons sharing it).
    /// The edges at `rem` are those between consecutive vertices of each
    /// polygon, the last joined to the first. Once more than two edges
    /// remain, every polygon must have a vertex, and the count of each edge
    /// at `rem` must fit in 16 bits.
    pub fn can_remove_vertex(&self, rem: u16) -> (r: bool)
        requires
            poly_base(self.npolys as int, self.vertices_per_polygon as int) <= self.polygons@.len(),
            remaining_upto(self.polygons@, self.vertices_per_polygon as int, rem, self.npolys as int) > 2 ==> {
                &&& forall|i: int|
                    0 <= i < self.npolys ==> #[trigger] nv_of(self.polygons@, self.vertices_per_polygon as int, i) >= 1
                &&& all_pairs_upto(self.polygons@, self.vertices_per_polygon as int, rem, self.npolys as int).len() <= 0xffff
            },
        ensures
            r == can_remove_spec(self.polygons@, self.vertices_per_polygon as int, self.npolys as int, rem),
    {
        let nvp = self.vertices_per_polygon;
        let npolys = self.npolys;
        let ghost p = self.polygons@;
        proof {
            assert(self.polygons.len() == self.polygons@.len());
        }
        // Count number of polygons to remove.
        let mut num_touched_verts: usize = 0;
        // A polygon whose every vertex is `rem` counts minus one.
        let mut num_remaining_edges: i64 = 0;
        proof {
            assert(npolys * nvp * 2 <= p.len()) by (nonlinear_arith)
                requires
                    poly_base(npolys as int, nvp as int) <= p.len(),
            ;
        }
        let mut i: usize = 0;
        while i < npolys
            invariant
                nvp == self.vertices_per_polygon,
                npolys == self.npolys,
                p == self.polygons@,
                p.len() <= usize::MAX,
                poly_base(npolys as int, nvp as int) <= p.len(),
                npolys * nvp * 2 <= p.len(),
                i <= npolys,
                num_touched_verts == touched_upto(p, nvp as int, rem, i as int),
                num_remaining_edges == remaining_upto(p, nvp as int, rem, i as int),
                num_touched_verts <= i * nvp,
                -(i as int) <= num_remaining_edges <= i * nvp,
            decreases npolys - i,
        {
            proof {
                lemma_poly_block(i as int, npolys as int, nvp as int);
                lemma_count_from(p, poly_base(i as int, nvp as int), 0, nvp as int);
            }
            let base = i * nvp * 2;
            let nv = count_poly_verts(&self.polygons, base, nvp);
            let mut num_removed: usize = 0;
            let mut num_verts: usize = 0;
            let mut j: usize = 0;
            while j < nv
                invariant
                    p == self.polygons@,
                    p.len() <= usize::MAX,
                    base + 2 * nvp <= p.len(),
                    nv <= nvp,
                    j <= nv,
                    num_verts == j,
                    num_removed == occ_upto(p, base as int, rem, j as int),
                    num_removed <= j,
                decreases nv - j,
            {
                if self.polygons[base + j] == rem {
                    num_removed = num_removed + 1;
                }
                num_verts = num_verts + 1;
                j = j + 1;
            }
            proof {
                assert(occ_of(p, nvp as int, i as int, rem) == num_removed);
                assert(i * nvp + nvp == (i + 1) * nvp) by (nonlinear_arith);
            }
            num_touched_verts = num_touched_verts + num_removed;
            proof {
                assert((i + 1) * nvp <= npolys * nvp) by (nonlinear_arith)
                    requires
                        i < npolys,
                ;
                assert(nvp <= (i + 1) * nvp) by (nonlinear_arith);
                assert(npolys * nvp <= 0x7fff_ffff_ffff_ffff);
            }
            if num_removed != 0 {
                let nv_i: i64 = num_verts as i64;
                let nr_i: i64 = num_removed as i64;
                proof {
                    assert(npolys <= npolys * nvp) by (nonlinear_arith)
                        requires
                            nvp >= 1,
                    ;
                }
                num_remaining_edges = (num_remaining_edges + (nv_i - nr_i)) - 1;
            }
            i = i + 1;
        }
        // There would be too few edges remaining to create a polygon.
        // This can happen for example when a tip of a triangle is marked
        // as deletion, but there are no other polys that share the vertex.
        // In this case, the vertex should not be removed.
        if num_remaining_edges <= 2 {
            return false;
        }
        proof {
            assert(num_touched_verts <= npolys * nvp);
            assert(npolys * nvp * 2 <= p.len()) by (nonlinear_arith)
                requires
                    poly_base(npolys as int, nvp as int) <= p.len(),
            ;
        }
        // Find edges which share the removed vertex.
        let max_edges = num_touched_verts * 2;
        let mut nedges: usize = 0;
        // Format: [poly1, poly2, vertex share count]
        let mut edges: Vec<(u16, u16, u16)> = Vec::new();
        let mut k: usize = 0;
        while k < max_edges
            invariant
                edges@.len() == k,
                k <= max_edges,
                forall|t: int| 0 <= t < k ==> #[trigger] edges@[t] == (0u16, 0u16, 0u16),
            decreases max_edges - k,
        {
            edges.push((0, 0, 0));
            k = k + 1;
        }
        let ghost all = all_pairs_upto(p, nvp as int, rem, npolys as int);
        proof {
            lemma_all_pairs_prefix(p, nvp as int, rem, npolys as int);
            lemma_tally_len(all);
            lemma_all_pairs_len(p, nvp as int, rem, npolys as int);
        }
        let mut i: usize = 0;
        while i < npolys
            invariant
                nvp == self.vertices_per_polygon,
                npolys == self.npolys,
                p == self.polygons@,
                p.len() <= usize::MAX,
                poly_base(npolys as int, nvp as int) <= p.len(),
                forall|i2: int| 0 <= i2 < npolys ==> #[trigger] nv_of(p, nvp as int, i2) >= 1,
                tally(all).len() <= max_edges,
                max_edges == 2 * touched_upto(p, nvp as int, rem, npolys as int),
                all == all_pairs_upto(p, nvp as int, rem, npolys as int),
                all.len() <= 0xffff,
                forall|i2: int| 0 <= i2 <= npolys ==> #[trigger] all_pairs_upto(p, nvp as int, rem, i2).len() <= all.len()
                    && tally(all_pairs_upto(p, nvp as int, rem, i2)).len() <= tally(all).len(),
                i <= npolys,
                edges@.len() == max_edges,
                nedges == tally(all_pairs_upto(p, nvp as int, rem, i as int)).len(),
                forall|t: int|
                    0 <= t < nedges ==> (#[trigger] edges@[t]).1 == tally(all_pairs_upto(p, nvp as int, rem, i as int))[t].0
                        && edges@[t].2 == tally(all_pairs_upto(p, nvp as int, rem, i as int))[t].1,
                forall|t: int| nedges <= t < max_edges ==> #[trigger] edges@[t] == (0u16, 0u16, 0u16),
            decreases npolys - i,
        {
            proof {
                lemma_poly_block(i as int, npolys as int, nvp as int);
                lemma_count_from(p, poly_base(i as int, nvp as int), 0, nvp as int);
            }
            let base = i * nvp * 2;
            let nv = count_poly_verts(&self.polygons, base, nvp);
            let ghost before = all_pairs_upto(p, nvp as int, rem, i as int);
            proof {
                assert(nv_of(p, nvp as int, i as int) >= 1);
                assert(all_pairs_upto(p, nvp as int, rem, i + 1) == before + pairs_upto(p, base as int, nv as int, rem, nv as int));
            }
            // Collect edges which touches the removed vertex.
            let mut j: usize = 0;
            while j < nv
                invariant
                    p == self.polygons@,
                    p.len() <= usize::MAX,
                    base + 2 * nvp <= p.len(),
                    1 <= nv <= nvp,
                    j <= nv,
                    edges@.len() == max_edges,
                    tally(before + pairs_upto(p, base as int, nv as int, rem, nv as int)).len() <= max_edges,
                    (before + pairs_upto(p, base as int, nv as int, rem, nv as int)).len() <= 0xffff,
                    nedges == tally(before + pairs_upto(p, base as int, nv as int, rem, j as int)).len(),
                    forall|t: int|
                        0 <= t < nedges ==> (#[trigger] edges@[t]).1 == tally(before + pairs_upto(p, base as int, nv as int, rem, j as int))[t].0
                            && edges@[t].2 == tally(before + pairs_upto(p, base as int, nv as int, rem, j as int))[t].1,
                    forall|t: int| nedges <= t < max_edges ==> #[trigger] edges@[t] == (0u16, 0u16, 0u16),
                decreases nv - j,
            {
                let k = if j == 0 {
                    nv - 1
                } else {
                    j - 1
                };
                let a0 = self.polygons[base + j];
                let b0 = self.polygons[base + k];
                if !(a0 == rem || b0 == rem) {
                    proof {
                        assert(pairs_upto(p, base as int, nv as int, rem, j + 1) == pairs_upto(p, base as int, nv as int, rem, j as int));
                    }
                    j = j + 1;
                    continue;
                }
                // Arrange edge so that a=rem.
                let (a, b) = if b0 != rem { (a0, b0) } else { (b0, a0) };
                let ghost vals = before + pairs_upto(p, base as int, nv as int, rem, j as int);
                let ghost vals2 = before + pairs_upto(p, base as int, nv as int, rem, j + 1);
                proof {
                    assert(pairs_upto(p, base as int, nv as int, rem, j + 1) == pairs_upto(p, base as int, nv as int, rem, j as int).push(b));
                    assert(vals2 == vals.push(b));
                    assert(vals2.drop_last() == vals);
                    lemma_tally_distinct(vals);
                    lemma_tally_len(vals);
                    lemma_pairs_prefix(p, base as int, nv as int, rem, j + 1, nv as int);
                    let full = before + pairs_upto(p, base as int, nv as int, rem, nv as int);
                    assert(vals2 == full.take(vals2.len() as int));
                    lemma_tally_take(full, vals2.len() as int);
                    lemma_tally_prefix(vals, seq![b]);
                    assert(vals + seq![b] == vals2);
                }
                // Check if the edge exists
                let mut found = false;
                let ghost acc = tally(vals);
                let mut t: usize = 0;
                while t < nedges
                    invariant
                        nedges == acc.len(),
                        nedges <= max_edges,
                        edges@.len() == max_edges,
                        tally_distinct(acc),
                        vals2.len() <= 0xffff,
                        forall|t2: int| 0 <= t2 < acc.len() ==> (#[trigger] acc[t2]).1 < vals2.len(),
                        t <= nedges,
                        found <==> exists|t2: int| 0 <= t2 < t && (#[trigger] acc[t2]).0 == b,
                        forall|t2: int|
                            0 <= t2 < nedges ==> (#[trigger] edges@[t2]).1 == acc[t2].0 && edges@[t2].2 == (if t2 < t && acc[t2].0 == b {
                                acc[t2].1 as int + 1
                            } else {
                                acc[t2].1 as int
                            }),
                        forall|t2: int| nedges <= t2 < max_edges ==> #[trigger] edges@[t2] == (0u16, 0u16, 0u16),
                    decreases nedges - t,
                {
                    let e = edges[t];
                    if e.1 == b {
                        // Exists, increment vertex share count.
                        edges.set(t, (e.0, e.1, e.2 + 1));
                        found = true;
                    }
                    t = t + 1;
                }
                // Add new edge
                if !found {
                    edges.set(nedges, (a, b, 1));
                    nedges = nedges + 1;
                }
                proof {
                    let acc2 = tally(vals2);
                    assert(acc2 == tally_add(acc, b));
                    if found {
                        let t0 = choose|t0: int| 0 <= t0 < acc.len() && (#[trigger] acc[t0]).0 == b;
                        assert forall|t2: int| 0 <= t2 < nedges implies (#[trigger] edges@[t2]).1 == acc2[t2].0 && edges@[t2].2 == acc2[t2].1 by {
                            if t2 != t0 && acc[t2].0 == b {
                                assert(acc[t0].0 == acc[t2].0);
                            }
                        }
                    } else {
                        assert(!(exists|t2: int| 0 <= t2 < acc.len() && (#[trigger] acc[t2]).0 == b));
                    }
                }
                j = j + 1;
            }
            proof {
                assert(before + pairs_upto(p, base as int, nv as int, rem, nv as int) == all_pairs_upto(p, nvp as int, rem, i + 1));
            }
            i = i + 1;
        }
        // There should be no more than 2 open edges.
        // This catches the case that two non-adjacent polygons
        // share the removed vertex. In that case, do not remove the vertex.
        let mut num_open_edges: usize = 0;
        let mut t: usize = 0;
        while t < nedges
            invariant
                edges@.len() == max_edges,
                nedges == tally(all).len(),
                nedges <= max_edges,
                all == all_pairs_upto(p, nvp as int, rem, npolys as int),
                forall|t2: int| 0 <= t2 < nedges ==> (#[trigger] edges@[t2]).2 == tally(all)[t2].1,
                t <= nedges,
                num_open_edges == rare_upto(tally(all), t as int),
                num_open_edges <= t,
            decreases nedges - t,
        {
            if edges[t].2 < 2 {
                num_open_edges = num_open_edges + 1;
            }
            t = t + 1;
        }
        num_open_edges <= 2
    }
}

/// Polygon `i` of `npolys` has its `2 * nvp` slots inside the first
/// `npolys` polygons.
proof fn lemma_poly_block(i: int, npolys: int, nvp: int)
    requires
        0 <= i < npolys,
        0 <= nvp,
    ensures
        poly_base(i, nvp) + 2 * nvp <= poly_base(npolys, nvp),
        poly_base(i + 1, nvp) == poly_base(i, nvp) + 2 * nvp,
        0 <= poly_base(i, nvp),
        i * nvp + nvp <= npolys * nvp,
{
    assert(poly_base(i, nvp) + 2 * nvp <= poly_base(npolys, nvp)) by (nonlinear_arith)
        requires
            0 <= i < npolys,
            0 <= nvp,
    ;
    assert(poly_base(i + 1, nvp) == poly_base(i, nvp) + 2 * nvp) by (nonlinear_arith);
    assert(0 <= poly_base(i, nvp)) by (nonlinear_arith)
        requires
            0 <= i,
            0 <= nvp,
    ;
    assert(i * nvp + nvp <= npolys * nvp) by (nonlinear_arith)
        requires
            0 <= i < npolys,
            0 <= nvp,
    ;
}

/// The slot pairs of a prefix of a polygon start the pairs of the whole
/// polygon.
proof fn lemma_pairs_prefix(p: Seq<u16>, base: int, nv: int, rem: u16, j: int, n: int)
    requires
        0 <= j <= n,
    ensures
        pairs_upto(p, base, nv, rem, j).len() <= pairs_upto(p, base, nv, rem, n).len(),
        pairs_upto(p, base, nv, rem, n).take(pairs_upto(p, base, nv, rem, j).len() as int) == pairs_upto(p, base, nv, rem, j),
    decreases n - j,
{
    if j < n {
        lemma_pairs_prefix(p, base, nv, rem, j, n - 1);
        let a = pairs_upto(p, base, nv, rem, j);
        let m = pairs_upto(p, base, nv, rem, n - 1);
        let f = pairs_upto(p, base, nv, rem, n);
        assert(f.take(m.len() as int) == m);
        assert(f.take(a.len() as int) =~= m.take(a.len() as int));
    }
}

/// The tally of a prefix has no more entries than the tally of the whole.
proof fn lemma_tally_take(s: Seq<u16>, n: int)
    requires
        0 <= n <= s.len(),
    ensures
        tally(s.take(n)).len() <= tally(s).len(),
{
    assert(s == s.take(n) + s.skip(n));
    lemma_tally_prefix(s.take(n), s.skip(n));
}

/// The pairs of fewer polygons are a prefix: their count and tally size do
/// not exceed those of all polygons.
proof fn lemma_all_pairs_prefix(p: Seq<u16>, nvp: int, rem: u16, n: int)
    requires
        0 <= n,
    ensures
        forall|i2: int| 0 <= i2 <= n ==> #[trigger] all_pairs_upto(p, nvp, rem, i2).len() <= all_pairs_upto(p, nvp, rem, n).len()
            && tally(all_pairs_upto(p, nvp, rem, i2)).len() <= tally(all_pairs_upto(p, nvp, rem, n)).len(),
    decreases n,
{
    if n > 0 {
        lemma_all_pairs_prefix(p, nvp, rem, n - 1);
        let a = all_pairs_upto(p, nvp, rem, n - 1);
        let b = pairs_upto(p, poly_base(n - 1, nvp), nv_of(p, nvp, n - 1), rem, nv_of(p, nvp, n - 1));
        lemma_tally_prefix(a, b);
    }
}

/// Counting more values never shrinks a tally.
proof fn lemma_tally_prefix(a: Seq<u16>, b: Seq<u16>)
    ensures
        tally(a).len() <= tally(a + b).len(),
    decreases b.len(),
{
    if b.len() > 0 {
        lemma_tally_prefix(a, b.drop_last());
        assert((a + b).drop_last() == a + b.drop_last());
    }
}


/// Welding is idempotent: once a vertex has been added, adding it again
/// returns the same index and adds nothing. Given the result `r` of a first
/// call as [`add_vertex`] states it, the state after that call makes a
/// second call find `r`.
pub proof fn law_weld_idempotent(verts: Seq<MeshVertex>, n: int, v: MeshVertex, r: int)
    requires
        0 <= n < verts.len(),
        has_weld(verts, n, v) ==> {
            &&& 0 <= r < n
            &&& welds_to(verts[r], v)
            &&& forall|k: int| r < k < n ==> !welds_to(#[trigger] verts[k], v)
        },
        !has_weld(verts, n, v) ==> r == n,
    ensures
        ({
            let verts2 = if has_weld(verts, n, v) { verts } else { verts.update(n, v) };
            let n2 = if has_weld(verts, n, v) { n } else { n + 1 };
            &&& has_weld(verts2, n2, v)
            &&& 0 <= r < n2
            &&& welds_to(verts2[r], v)
            &&& forall|k: int| r < k < n2 ==> !welds_to(#[trigger] verts2[k], v)
        }),
{
    if !has_weld(verts, n, v) {
        let verts2 = verts.update(n, v);
        assert(welds_to(verts2[n], v));
    }
}

} // verus!
