//! Removal of a vertex from a polygon mesh under construction: the
//! polygons around it are removed, and the hole they leave is triangulated
//! and merged into polygons again.

use vstd::prelude::*;
use crate::area::AreaType;
use crate::math::prev;
use crate::polygon::{MeshVertex, all_area2_fit};
use crate::region::RegionId;
use crate::poly_mesh::{
    InternalPolygonMesh,
    PolygonMeshError,
    poly_base,
    poly_vert_count,
    count_from,
    lemma_count_from,
    count_poly_verts,
    vertex_slots_ok,
    vertex_at,
    nv_of,
    slots_in_range,
    get_poly_merge_value,
    merge_poly_verts,
    merge_value,
    padded,
    merged_poly,
    write_at,
    push_back,
    push_front,
    lemma_last_shared_range,
};
use crate::triangulation::{triangulate, masked, corner_triangle};

verus! {

/// Polygon `i` of the mesh data `p` has `v` among its vertices.
pub open spec fn poly_has(p: Seq<u16>, nvp: int, i: int, v: u16) -> bool {
    exists|j: int| 0 <= j < nv_of(p, nvp, i) && #[trigger] vertex_at(p, nvp, i, j) == v
}

/// The number of vertices of polygon `j` of the packed polygon list `p`,
/// `nvp` slots per polygon.
pub open spec fn packed_count(p: Seq<u16>, nvp: int, j: int) -> int {
    poly_vert_count(p, j * nvp, nvp)
}

/// The first `n` polygons of the packed list `p` have at least three
/// vertices, all below `nverts`.
pub open spec fn packed_ok(p: Seq<u16>, n: int, nvp: int, nverts: int) -> bool {
    &&& (n + 1) * nvp <= p.len()
    &&& forall|j: int| 0 <= j < n ==> 3 <= #[trigger] packed_count(p, nvp, j)
    &&& forall|j: int| 0 <= j < n ==> slots_in_range(p, j * nvp, #[trigger] packed_count(p, nvp, j), nverts)
}

/// The vertex index `v` once vertex `rem` is taken out of the list.
pub open spec fn shifted(v: u16, rem: u16) -> u16 {
    if v > rem {
        (v - 1) as u16
    } else {
        v
    }
}

/// Truncating an index to 16 bits never makes it larger.
proof fn lemma_u16_cast_le(a: usize)
    ensures
        (a as u16) as int <= a,
{
    assert((a as u16) as usize <= a) by (bit_vector);
}

/// A small index list entry is its own vertex index.
proof fn lemma_masked_small(v: usize)
    requires
        v < 0x1000_0000,
    ensures
        masked(v) == v,
{
    assert(v & 0x0fffffffusize == v) by (bit_vector)
        requires
            v < 0x1000_0000,
    ;
}

/// The shifted index is one less above `rem`.
proof fn lemma_shifted(v: u16, rem: u16)
    ensures
        shifted(v, rem) as int == (if v > rem { v - 1 } else { v as int }),
{
    if v > rem {
        assert(v >= 1 ==> ((v - 1) as u16) as int == v - 1) by (bit_vector);
    }
}

/// Two slot ranges of `nvp` slots have their null indices at the same
/// places, so they hold polygons with the same vertex count.
proof fn lemma_count_same(p: Seq<u16>, sa: int, q: Seq<u16>, sb: int, nvp: int, k: int)
    requires
        0 <= sa,
        0 <= sb,
        0 <= k <= nvp,
        sa + nvp <= p.len(),
        sb + nvp <= q.len(),
        forall|t: int| 0 <= t < nvp ==> (#[trigger] p[sa + t] == 0xffff) == (q[sb + t] == 0xffff),
    ensures
        count_from(p, sa, k, nvp) == count_from(q, sb, k, nvp),
    decreases nvp - k,
{
    if k < nvp {
        assert((p[sa + k] == 0xffff) == (q[sb + k] == 0xffff));
        lemma_count_same(p, sa, q, sb, nvp, k + 1);
    }
}

/// A polygon written as a vertex list padded with null indices has as many
/// vertices as the list.
pub(crate) proof fn lemma_count_padded(p: Seq<u16>, at: int, m: Seq<u16>, nvp: int, k: int)
    requires
        0 <= at,
        at + nvp <= p.len(),
        0 <= k <= m.len() <= nvp,
        forall|t: int| 0 <= t < m.len() ==> m[t] != 0xffff,
        forall|t: int| 0 <= t < nvp ==> p[at + t] == padded(m, nvp)[t],
    ensures
        count_from(p, at, k, nvp) == m.len(),
    decreases nvp - k,
{
    if k < m.len() {
        assert(padded(m, nvp)[k] == m[k]);
        assert(p[at + k] == m[k]);
        lemma_count_padded(p, at, m, nvp, k + 1);
    } else if k < nvp {
        assert(padded(m, nvp)[k] == 0xffff);
        assert(p[at + k] == 0xffff);
    }
}

/// Polygon `i` of `n` has its slots inside the first `n` polygons.
pub(crate) proof fn lemma_poly_in(i: int, n: int, nvp: int)
    requires
        0 <= i < n,
        0 <= nvp,
    ensures
        0 <= poly_base(i, nvp),
        poly_base(i, nvp) + 2 * nvp <= poly_base(n, nvp),
        poly_base(i + 1, nvp) == poly_base(i, nvp) + 2 * nvp,
{
    assert(i * nvp * 2 + 2 * nvp <= n * nvp * 2) by (nonlinear_arith)
        requires
            0 <= i < n,
            0 <= nvp,
    ;
    assert((i + 1) * nvp * 2 == i * nvp * 2 + 2 * nvp) by (nonlinear_arith);
    assert(0 <= i * nvp * 2) by (nonlinear_arith)
        requires
            0 <= i,
            0 <= nvp,
    ;
}

/// The slots of packed polygon `j` come before those of polygon `n > j`.
pub(crate) proof fn lemma_packed_order(j: int, n: int, nvp: int)
    requires
        0 <= j < n,
        0 <= nvp,
    ensures
        0 <= j * nvp,
        j * nvp + nvp <= n * nvp,
        (j + 1) * nvp == j * nvp + nvp,
{
    assert(j * nvp + nvp <= n * nvp) by (nonlinear_arith)
        requires
            0 <= j < n,
            0 <= nvp,
    ;
    assert((j + 1) * nvp == j * nvp + nvp) by (nonlinear_arith);
    assert(0 <= j * nvp) by (nonlinear_arith)
        requires
            0 <= j,
            0 <= nvp,
    ;
}

/// A polygon whose `nvp` slots are copied keeps its vertex count and its
/// vertices.
pub(crate) proof fn lemma_packed_same(p: Seq<u16>, sp: int, q: Seq<u16>, sq: int, nvp: int, nverts: int)
    requires
        0 <= sp,
        0 <= sq,
        0 <= nvp,
        sp + nvp <= p.len(),
        sq + nvp <= q.len(),
        forall|t: int| 0 <= t < nvp ==> #[trigger] p[sp + t] == q[sq + t],
    ensures
        poly_vert_count(p, sp, nvp) == poly_vert_count(q, sq, nvp),
        slots_in_range(p, sp, poly_vert_count(p, sp, nvp), nverts) == slots_in_range(
            q,
            sq,
            poly_vert_count(q, sq, nvp),
            nverts,
        ),
{
    assert forall|t: int| 0 <= t < nvp implies (#[trigger] p[sp + t] == 0xffff) == (q[sq + t] == 0xffff) by {
        assert(p[sp + t] == q[sq + t]);
    }
    lemma_count_same(p, sp, q, sq, nvp, 0);
    lemma_count_from(p, sp, 0, nvp);
    let n = poly_vert_count(p, sp, nvp);
    if slots_in_range(p, sp, n, nverts) {
        assert forall|x: int| sq <= x < sq + n implies (#[trigger] q[x]) < nverts by {
            assert(p[sp + (x - sq)] == q[sq + (x - sq)]);
        }
    }
    if slots_in_range(q, sq, n, nverts) {
        assert forall|x: int| sp <= x < sp + n implies (#[trigger] p[x]) < nverts by {
            assert(p[sp + (x - sp)] == q[sq + (x - sp)]);
        }
    }
}

/// The region shared by three corners, or no region when they differ.
pub open spec fn common_region(a: RegionId, b: RegionId, c: RegionId) -> RegionId {
    if a != b || b != c {
        RegionId { bits: 0 }
    } else {
        a
    }
}

/// Packed polygon `j` of `polys` is triangle `t` of `tris`, whose corners
/// are distinct: its three hole vertices padded with null indices, the
/// region its corners share and the area of its first corner.
pub open spec fn triangle_polygon(
    polys: Seq<u16>,
    pregs: Seq<RegionId>,
    pareas: Seq<AreaType>,
    j: int,
    nvp: int,
    hole: Seq<u16>,
    hreg: Seq<RegionId>,
    harea: Seq<AreaType>,
    tr: (u16, u16, u16),
) -> bool {
    &&& tr.0 != tr.1 && tr.0 != tr.2 && tr.1 != tr.2
    &&& polys.subrange(j * nvp, j * nvp + nvp) == padded(
        seq![hole[tr.0 as int], hole[tr.1 as int], hole[tr.2 as int]],
        nvp,
    )
    &&& pregs[j] == common_region(hreg[tr.0 as int], hreg[tr.1 as int], hreg[tr.2 as int])
    &&& pareas[j] == harea[tr.0 as int]
}

/// Packed polygon `j` is one of the first `ntris` triangles of `tris`.
pub open spec fn from_triangles(
    polys: Seq<u16>,
    pregs: Seq<RegionId>,
    pareas: Seq<AreaType>,
    j: int,
    nvp: int,
    hole: Seq<u16>,
    hreg: Seq<RegionId>,
    harea: Seq<AreaType>,
    tris: Seq<(u16, u16, u16)>,
    ntris: int,
) -> bool {
    exists|t: int| 0 <= t < ntris && triangle_polygon(polys, pregs, pareas, j, nvp, hole, hreg, harea, #[trigger] tris[t])
}

/// Builds the packed polygons of the hole's triangles: each triangle with
/// three distinct corners becomes a polygon of `nvp` slots holding its
/// hole vertices, with the region its corners share (none when they
/// differ) and the area of its first corner. The list has room for
/// `ntris + 1` polygons, the last being scratch space for merging.
pub(crate) fn hole_polygons(
    hole: &Vec<u16>,
    hreg: &Vec<RegionId>,
    harea: &Vec<AreaType>,
    nhole: usize,
    tris: &Vec<(u16, u16, u16)>,
    ntris: usize,
    nvp: usize,
    nverts: u16,
) -> (r: (Vec<u16>, Vec<RegionId>, Vec<AreaType>, usize))
    requires
        3 <= nvp,
        (ntris + 1) * nvp <= usize::MAX,
        ntris <= tris@.len(),
        nhole <= hole@.len(),
        nhole <= hreg@.len(),
        nhole <= harea@.len(),
        forall|t: int| 0 <= t < nhole ==> (#[trigger] hole@[t]) < nverts,
        forall|t: int|
            0 <= t < ntris ==> {
                &&& (#[trigger] tris@[t]).0 < nhole
                &&& tris@[t].1 < nhole
                &&& tris@[t].2 < nhole
            },
    ensures
        r.0@.len() == (ntris + 1) * nvp,
        r.1@.len() == ntris,
        r.2@.len() == ntris,
        r.3 <= ntris,
        forall|t: int|
            0 <= t < ntris && (#[trigger] tris@[t]).0 != tris@[t].1 && tris@[t].0 != tris@[t].2 && tris@[t].1 != tris@[t].2 ==> r.3
                >= 1,
        packed_ok(r.0@, r.3 as int, nvp as int, nverts as int),
        forall|j: int|
            0 <= j < r.3 ==> #[trigger] from_triangles(
                r.0@,
                r.1@,
                r.2@,
                j,
                nvp as int,
                hole@,
                hreg@,
                harea@,
                tris@,
                ntris as int,
            ),
{
    proof {
        lemma_packed_order(0, ntris as int + 1, nvp as int);
        assert(ntris + 1 <= (ntris + 1) * nvp) by (nonlinear_arith)
            requires
                3 <= nvp,
        ;
    }
    let plen = (ntris + 1) * nvp;
    let mut polys: Vec<u16> = Vec::new();
    let mut k: usize = 0;
    while k < plen
        invariant
            k <= plen,
            polys@.len() == k,
            forall|q: int| 0 <= q < k ==> #[trigger] polys@[q] == 0xffffu16,
        decreases plen - k,
    {
        polys.push(0xffff);
        k = k + 1;
    }
    let mut pregs: Vec<RegionId> = Vec::new();
    let mut pareas: Vec<AreaType> = Vec::new();
    let mut k: usize = 0;
    while k < ntris
        invariant
            k <= ntris,
            pregs@.len() == k,
            pareas@.len() == k,
        decreases ntris - k,
    {
        pregs.push(RegionId { bits: 0 });
        pareas.push(AreaType(0));
        k = k + 1;
    }
    let mut np: usize = 0;
    let mut t: usize = 0;
    while t < ntris
        invariant
            t <= ntris,
            np <= t,
            forall|t2: int|
                0 <= t2 < t && (#[trigger] tris@[t2]).0 != tris@[t2].1 && tris@[t2].0 != tris@[t2].2 && tris@[t2].1
                    != tris@[t2].2 ==> np >= 1,
            3 <= nvp,
            plen == (ntris + 1) * nvp,
            plen <= usize::MAX,
            polys@.len() == plen,
            pregs@.len() == ntris,
            pareas@.len() == ntris,
            ntris <= tris@.len(),
            nhole <= hole@.len(),
            nhole <= hreg@.len(),
            nhole <= harea@.len(),
            forall|t2: int| 0 <= t2 < nhole ==> (#[trigger] hole@[t2]) < nverts,
            forall|t2: int|
                0 <= t2 < ntris ==> {
                    &&& (#[trigger] tris@[t2]).0 < nhole
                    &&& tris@[t2].1 < nhole
                    &&& tris@[t2].2 < nhole
                },
            forall|q: int| np * nvp <= q < plen ==> #[trigger] polys@[q] == 0xffffu16,
            packed_ok(polys@, np as int, nvp as int, nverts as int),
            forall|j: int|
                0 <= j < np ==> #[trigger] from_triangles(
                    polys@,
                    pregs@,
                    pareas@,
                    j,
                    nvp as int,
                    hole@,
                    hreg@,
                    harea@,
                    tris@,
                    ntris as int,
                ),
        decreases ntris - t,
    {
        let tr = tris[t];
        if tr.0 != tr.1 && tr.0 != tr.2 && tr.1 != tr.2 {
            let x = tr.0 as usize;
            let y = tr.1 as usize;
            let z = tr.2 as usize;
            proof {
                lemma_packed_order(np as int, ntris as int + 1, nvp as int);
            }
            let base = np * nvp;
            let ghost pb = polys@;
            let ghost rb = pregs@;
            let ghost ab = pareas@;
            let hx = hole[x];
            let hy = hole[y];
            let hz = hole[z];
            polys.set(base, hx);
            polys.set(base + 1, hy);
            polys.set(base + 2, hz);
            let reg = if hreg[x] != hreg[y] || hreg[y] != hreg[z] {
                RegionId { bits: 0 }
            } else {
                hreg[x]
            };
            pregs.set(np, reg);
            pareas.set(np, harea[x]);
            proof {
                let pn = polys@;
                let m = seq![hx, hy, hz];
                assert forall|t2: int| 0 <= t2 < nvp implies pn[base + t2] == padded(m, nvp as int)[t2] by {
                    if t2 >= 3 {
                        assert(pb[base + t2] == 0xffffu16);
                    }
                }
                assert(pn.subrange(base as int, base + nvp) =~= padded(m, nvp as int));
                lemma_count_padded(pn, base as int, m, nvp as int, 0);
                assert(tris@[t as int] == tr);
                assert forall|j: int| 0 <= j < np + 1 implies {
                    &&& 3 <= #[trigger] packed_count(pn, nvp as int, j)
                    &&& slots_in_range(pn, j * nvp, packed_count(pn, nvp as int, j), nverts as int)
                } by {
                    if j < np {
                        lemma_packed_order(j, np as int, nvp as int);
                        assert forall|t2: int| 0 <= t2 < nvp implies #[trigger] pn[j * nvp + t2] == pb[j * nvp + t2] by {
                        }
                        lemma_packed_same(pn, j * nvp, pb, j * nvp, nvp as int, nverts as int);
                        assert(3 <= packed_count(pb, nvp as int, j));
                    } else {
                        assert(j == np);
                        assert forall|x2: int| j * nvp <= x2 < j * nvp + packed_count(pn, nvp as int, j) implies (#[trigger] pn[x2]) < nverts by {
                            assert(pn[x2] == m[x2 - base]);
                        }
                    }
                }
                assert forall|q: int| (np + 1) * nvp <= q < plen implies #[trigger] pn[q] == 0xffffu16 by {
                    assert(pn[q] == pb[q]);
                }
                assert forall|j: int| 0 <= j < np + 1 implies #[trigger] from_triangles(
                    pn,
                    pregs@,
                    pareas@,
                    j,
                    nvp as int,
                    hole@,
                    hreg@,
                    harea@,
                    tris@,
                    ntris as int,
                ) by {
                    if j < np {
                        lemma_packed_order(j, np as int, nvp as int);
                        assert(from_triangles(pb, rb, ab, j, nvp as int, hole@, hreg@, harea@, tris@, ntris as int));
                        let t2 = choose|t2: int|
                            0 <= t2 < ntris && triangle_polygon(
                                pb,
                                rb,
                                ab,
                                j,
                                nvp as int,
                                hole@,
                                hreg@,
                                harea@,
                                #[trigger] tris@[t2],
                            );
                        assert(pn.subrange(j * nvp, j * nvp + nvp) =~= pb.subrange(j * nvp, j * nvp + nvp));
                        assert(pregs@[j] == rb[j]);
                        assert(pareas@[j] == ab[j]);
                        assert(triangle_polygon(pn, pregs@, pareas@, j, nvp as int, hole@, hreg@, harea@, tris@[t2]));
                    } else {
                        assert(hole@[tr.0 as int] == hx);
                        assert(hole@[tr.1 as int] == hy);
                        assert(hole@[tr.2 as int] == hz);
                        assert(pn.subrange(j * nvp, j * nvp + nvp) == padded(m, nvp as int));
                        assert(triangle_polygon(pn, pregs@, pareas@, j, nvp as int, hole@, hreg@, harea@, tris@[t as int]));
                    }
                }
                if np + 1 < ntris {
                    lemma_packed_order(np as int + 1, ntris as int + 1, nvp as int);
                } else {
                    assert((np + 2) * nvp == (ntris + 1) * nvp);
                }
            }
            np = np + 1;
        }
        t = t + 1;
    }
    (polys, pregs, pareas, np)
}

/// The slot ranges of two different packed polygons do not overlap.
proof fn lemma_packed_disjoint(j: int, k: int, nvp: int)
    requires
        0 <= j,
        0 <= k,
        j != k,
        0 <= nvp,
    ensures
        j * nvp + nvp <= k * nvp || k * nvp + nvp <= j * nvp,
        0 <= j * nvp,
        0 <= k * nvp,
{
    if j < k {
        lemma_packed_order(j, k, nvp);
    } else {
        lemma_packed_order(k, j, nvp);
    }
}

/// How well packed polygons `j` and `k` merge; see [`merge_value`].
pub open spec fn pair_merge(p: Seq<u16>, j: int, k: int, verts: Seq<MeshVertex>, nvp: int) -> Option<(u32, int, int)> {
    merge_value(p, j * nvp, k * nvp, verts, nvp)
}

/// Merging packed polygons `j` and `k` gains at most `bound`: they do not
/// merge, or their shared edge's squared length is at most `bound`.
pub open spec fn merge_at_most(p: Seq<u16>, j: int, k: int, verts: Seq<MeshVertex>, nvp: int, bound: int) -> bool {
    match pair_merge(p, j, k, verts, nvp) {
        Some((len, _, _)) => len <= bound,
        None => true,
    }
}

/// No two of the first `n` packed polygons merge along an edge of positive
/// length.
pub open spec fn merge_done(p: Seq<u16>, n: int, verts: Seq<MeshVertex>, nvp: int) -> bool {
    forall|j: int, k: int| 0 <= j < k < n ==> #[trigger] merge_at_most(p, j, k, verts, nvp, 0)
}

/// Finds the pair of the first `n` packed polygons whose merge gains most
/// (the first such pair in order): the squared length of its shared edge
/// (0 when no pair merges along an edge of positive length), the two
/// polygons and the shared edge's index in each.
fn best_merge(polys: &Vec<u16>, n: usize, nvp: usize, verts: &Vec<MeshVertex>, nverts: u16) -> (r: (
    u32,
    usize,
    usize,
    usize,
    usize,
))
    requires
        1 <= n,
        3 <= nvp,
        packed_ok(polys@, n as int, nvp as int, nverts as int),
        polys@.len() <= usize::MAX,
        nverts <= verts@.len(),
        all_area2_fit(verts@),
    ensures
        r.0 > 0 ==> r.1 < r.2 < n && pair_merge(polys@, r.1 as int, r.2 as int, verts@, nvp as int) == Some(
            (r.0, r.3 as int, r.4 as int),
        ),
        forall|j: int, k: int| 0 <= j < k < n ==> #[trigger] merge_at_most(polys@, j, k, verts@, nvp as int, r.0 as int),
{
    let mut best_val: u32 = 0;
    let mut best_pa: usize = 0;
    let mut best_pb: usize = 0;
    let mut best_ea: usize = 0;
    let mut best_eb: usize = 0;
    let mut j: usize = 0;
    while j + 1 < n
        invariant
            j < n,
            3 <= nvp,
            packed_ok(polys@, n as int, nvp as int, nverts as int),
            polys@.len() <= usize::MAX,
            nverts <= verts@.len(),
            all_area2_fit(verts@),
            best_val > 0 ==> best_pa < best_pb < n && pair_merge(polys@, best_pa as int, best_pb as int, verts@, nvp as int)
                == Some((best_val, best_ea as int, best_eb as int)),
            forall|j2: int, k2: int|
                0 <= j2 < j && j2 < k2 < n ==> #[trigger] merge_at_most(polys@, j2, k2, verts@, nvp as int, best_val as int),
        decreases n - j,
    {
        let mut k: usize = j + 1;
        while k < n
            invariant
                j < k <= n,
                3 <= nvp,
                packed_ok(polys@, n as int, nvp as int, nverts as int),
                polys@.len() <= usize::MAX,
                nverts <= verts@.len(),
                all_area2_fit(verts@),
                best_val > 0 ==> best_pa < best_pb < n && pair_merge(polys@, best_pa as int, best_pb as int, verts@, nvp as int)
                    == Some((best_val, best_ea as int, best_eb as int)),
                forall|j2: int, k2: int|
                    0 <= j2 < j && j2 < k2 < n ==> #[trigger] merge_at_most(polys@, j2, k2, verts@, nvp as int, best_val as int),
                forall|k2: int| j < k2 < k ==> #[trigger] merge_at_most(polys@, j as int, k2, verts@, nvp as int, best_val as int),
            decreases n - k,
        {
            proof {
                lemma_packed_order(j as int, n as int + 1, nvp as int);
                lemma_packed_order(k as int, n as int + 1, nvp as int);
                let cj = packed_count(polys@, nvp as int, j as int);
                let ck = packed_count(polys@, nvp as int, k as int);
                assert(3 <= cj);
                assert(3 <= ck);
                assert(slots_in_range(polys@, j * nvp, cj, nverts as int));
                assert(slots_in_range(polys@, k * nvp, ck, nverts as int));
            }
            let ghost bv0 = best_val;
            let v = get_poly_merge_value(polys, j * nvp, k * nvp, verts, nvp);
            match v {
                Some(val) => {
                    if val.length_squared > best_val {
                        best_val = val.length_squared;
                        best_pa = j;
                        best_pb = k;
                        best_ea = val.edge_a;
                        best_eb = val.edge_b;
                    }
                },
                None => {},
            }
            proof {
                assert(merge_at_most(polys@, j as int, k as int, verts@, nvp as int, best_val as int));
                assert forall|j2: int, k2: int|
                    0 <= j2 < j && j2 < k2 < n implies #[trigger] merge_at_most(polys@, j2, k2, verts@, nvp as int, best_val as int) by {
                    assert(merge_at_most(polys@, j2, k2, verts@, nvp as int, bv0 as int));
                }
                assert forall|k2: int| j < k2 < k + 1 implies #[trigger] merge_at_most(polys@, j as int, k2, verts@, nvp as int, best_val as int) by {
                    if k2 < k {
                        assert(merge_at_most(polys@, j as int, k2, verts@, nvp as int, bv0 as int));
                    }
                }
            }
            k = k + 1;
        }
        j = j + 1;
    }
    (best_val, best_pa, best_pb, best_ea, best_eb)
}

/// The first `n` slots from `start` hold values that satisfy `good`.
pub open spec fn vals_ok(p: Seq<u16>, start: int, n: int, good: spec_fn(u16) -> bool) -> bool {
    forall|q: int| start <= q < start + n ==> good(#[trigger] p[q])
}

/// The vertices of the first `n` packed polygons satisfy `good`.
pub open spec fn all_vals_ok(p: Seq<u16>, n: int, nvp: int, good: spec_fn(u16) -> bool) -> bool {
    forall|j: int| 0 <= j < n ==> #[trigger] vals_ok(p, j * nvp, packed_count(p, nvp, j), good)
}

/// A polygon whose `nvp` slots are copied keeps vertices that satisfy
/// `good`.
pub(crate) proof fn lemma_packed_vals(p: Seq<u16>, sp: int, q: Seq<u16>, sq: int, nvp: int, good: spec_fn(u16) -> bool)
    requires
        0 <= sp,
        0 <= sq,
        0 <= nvp,
        sp + nvp <= p.len(),
        sq + nvp <= q.len(),
        forall|t: int| 0 <= t < nvp ==> #[trigger] p[sp + t] == q[sq + t],
        vals_ok(q, sq, poly_vert_count(q, sq, nvp), good),
    ensures
        poly_vert_count(p, sp, nvp) == poly_vert_count(q, sq, nvp),
        vals_ok(p, sp, poly_vert_count(p, sp, nvp), good),
{
    lemma_packed_same(p, sp, q, sq, nvp, 0);
    lemma_count_from(p, sp, 0, nvp);
    assert forall|x: int| sp <= x < sp + poly_vert_count(p, sp, nvp) implies good(#[trigger] p[x]) by {
        assert(p[sp + (x - sp)] == q[sq + (x - sp)]);
    }
}

/// Merging polygons `pa` and `pb` into `pa` and moving the last polygon into
/// `pb` keeps every vertex satisfying `good`.
proof fn lemma_merge_keeps_vals(
    p0: Seq<u16>,
    p1: Seq<u16>,
    p2: Seq<u16>,
    m: Seq<u16>,
    n: int,
    pa: int,
    pb: int,
    tmp: int,
    nvp: int,
    good: spec_fn(u16) -> bool,
)
    requires
        3 <= nvp,
        0 <= pa < pb < n,
        n * nvp <= tmp,
        tmp + nvp <= p0.len(),
        m.len() <= nvp,
        p1 == write_at(write_at(p0, tmp, padded(m, nvp)), pa * nvp, padded(m, nvp)),
        p2.len() == p1.len(),
        forall|q: int| 0 <= q < p1.len() ==> #[trigger] p2[q] == (if pb * nvp <= q < pb * nvp + nvp {
            p1[(n - 1) * nvp + (q - pb * nvp)]
        } else {
            p1[q]
        }),
        packed_count(p1, nvp, pa) == m.len(),
        forall|i: int| 0 <= i < m.len() ==> good(#[trigger] m[i]),
        all_vals_ok(p0, n, nvp, good),
    ensures
        all_vals_ok(p2, n - 1, nvp, good),
{
    let last = n - 1;
    lemma_packed_order(last, n, nvp);
    assert forall|j: int| 0 <= j < last implies #[trigger] vals_ok(p2, j * nvp, packed_count(p2, nvp, j), good) by {
        lemma_packed_order(j, last, nvp);
        lemma_packed_order(j, n, nvp);
        if j == pa {
            lemma_packed_disjoint(j, pb, nvp);
            assert forall|t: int| 0 <= t < nvp implies #[trigger] p2[j * nvp + t] == p1[j * nvp + t] by {
            }
            lemma_packed_same(p2, j * nvp, p1, j * nvp, nvp, 0);
            assert forall|x: int| j * nvp <= x < j * nvp + packed_count(p2, nvp, j) implies good(#[trigger] p2[x]) by {
                assert(p2[x] == p1[x]);
                assert(p1[x] == padded(m, nvp)[x - pa * nvp]);
                assert(padded(m, nvp)[x - pa * nvp] == m[x - pa * nvp]);
            }
        } else if j == pb {
            lemma_packed_disjoint(last, pa, nvp);
            assert(vals_ok(p0, last * nvp, packed_count(p0, nvp, last), good));
            assert forall|t: int| 0 <= t < nvp implies #[trigger] p1[last * nvp + t] == p0[last * nvp + t] by {
            }
            lemma_packed_vals(p1, last * nvp, p0, last * nvp, nvp, good);
            assert forall|t: int| 0 <= t < nvp implies #[trigger] p2[j * nvp + t] == p1[last * nvp + t] by {
            }
            lemma_packed_vals(p2, j * nvp, p1, last * nvp, nvp, good);
        } else {
            lemma_packed_disjoint(j, pa, nvp);
            lemma_packed_disjoint(j, pb, nvp);
            assert(vals_ok(p0, j * nvp, packed_count(p0, nvp, j), good));
            assert forall|t: int| 0 <= t < nvp implies #[trigger] p2[j * nvp + t] == p0[j * nvp + t] by {
            }
            lemma_packed_vals(p2, j * nvp, p0, j * nvp, nvp, good);
        }
    }
}

/// Merges the first `np` packed polygons pairwise, the pair that gains
/// most first, until no pair merges along an edge of positive length
/// (see [`best_merge`]). The merged polygon takes the first polygon's place
/// and keeps its region when both regions agree (else no region); the last
/// polygon, with its region and area, takes the second one's place. The
/// slots after the first `ntris` polygons are scratch space. Returns the
/// number of polygons left.
#[verifier::rlimit(40)]
pub(crate) fn merge_hole_polygons(
    polys: &mut Vec<u16>,
    pregs: &mut Vec<RegionId>,
    pareas: &mut Vec<AreaType>,
    np: usize,
    ntris: usize,
    nvp: usize,
    verts: &Vec<MeshVertex>,
    nverts: u16,
    Ghost(good): Ghost<spec_fn(u16) -> bool>,
) -> (r: usize)
    requires
        3 <= nvp,
        1 <= np <= ntris,
        old(polys)@.len() == (ntris + 1) * nvp,
        (ntris + 1) * nvp <= usize::MAX,
        old(pregs)@.len() == ntris,
        old(pareas)@.len() == ntris,
        packed_ok(old(polys)@, np as int, nvp as int, nverts as int),
        all_vals_ok(old(polys)@, np as int, nvp as int, good),
        nverts <= verts@.len(),
        all_area2_fit(verts@),
    ensures
        1 <= r <= np,
        final(polys)@.len() == old(polys)@.len(),
        final(pregs)@.len() == ntris,
        final(pareas)@.len() == ntris,
        packed_ok(final(polys)@, r as int, nvp as int, nverts as int),
        all_vals_ok(final(polys)@, r as int, nvp as int, good),
        merge_done(final(polys)@, r as int, verts@, nvp as int),
{
    if nvp <= 3 {
        // Two polygons of three or more vertices never fit in three slots.
        proof {
            assert forall|j: int, k: int| 0 <= j < k < np implies #[trigger] merge_at_most(
                polys@,
                j,
                k,
                verts@,
                nvp as int,
                0,
            ) by {
                assert(3 <= packed_count(polys@, nvp as int, j));
                assert(3 <= packed_count(polys@, nvp as int, k));
            }
        }
        return np;
    }
    proof {
        assert(2 * nvp <= (ntris + 1) * nvp) by (nonlinear_arith)
            requires
                1 <= ntris,
                0 <= nvp,
        ;
        if np < ntris {
            lemma_packed_order(np as int, ntris as int, nvp as int);
        }
        lemma_packed_order(ntris as int, ntris as int + 1, nvp as int);
    }
    let tmp_index = ntris * nvp;
    let mut n = np;
    loop
        invariant
            3 < nvp,
            1 <= n <= np <= ntris,
            polys@.len() == (ntris + 1) * nvp,
            (ntris + 1) * nvp <= usize::MAX,
            2 * nvp <= (ntris + 1) * nvp,
            tmp_index == ntris * nvp,
            tmp_index + nvp == polys@.len(),
            n * nvp <= tmp_index,
            pregs@.len() == ntris,
            pareas@.len() == ntris,
            packed_ok(polys@, n as int, nvp as int, nverts as int),
            all_vals_ok(polys@, n as int, nvp as int, good),
            nverts <= verts@.len(),
            all_area2_fit(verts@),
        ensures
            1 <= n <= np,
            polys@.len() == (ntris + 1) * nvp,
            pregs@.len() == ntris,
            pareas@.len() == ntris,
            packed_ok(polys@, n as int, nvp as int, nverts as int),
            all_vals_ok(polys@, n as int, nvp as int, good),
            merge_done(polys@, n as int, verts@, nvp as int),
        decreases n,
    {
        let (best_val, best_pa, best_pb, best_ea, best_eb) = best_merge(polys, n, nvp, verts, nverts);
        if best_val == 0 {
            break;
        }
        let ghost p0 = *polys;
        let ghost p0s = polys@;
        let ghost na = packed_count(p0s, nvp as int, best_pa as int);
        let ghost nb = packed_count(p0s, nvp as int, best_pb as int);
        proof {
            lemma_packed_order(best_pa as int, best_pb as int, nvp as int);
            lemma_packed_order(best_pb as int, n as int, nvp as int);
            lemma_packed_order(best_pa as int, n as int, nvp as int);
            assert(3 <= na);
            assert(3 <= nb);
            lemma_count_from(p0s, best_pa * nvp, 0, nvp as int);
            lemma_count_from(p0s, best_pb * nvp, 0, nvp as int);
            lemma_last_shared_range(p0s, best_pa * nvp, na, best_pb * nvp, nb, na);
            assert(best_ea < na);
            assert(best_eb < nb);
        }
        let pa_index = best_pa * nvp;
        let pb_index = best_pb * nvp;
        merge_poly_verts(polys, pa_index, pb_index, best_ea, best_eb, tmp_index, nvp);
        let ghost p1 = polys@;
        let ghost m = merged_poly(p0s, pa_index as int, pb_index as int, best_ea as int, best_eb as int, nvp as int);
        proof {
            assert(m.len() == na - 1 + nb - 1);
            assert forall|i: int| 0 <= i < m.len() implies #[trigger] m[i] < nverts by {
                if i < na - 1 {
                    vstd::arithmetic::div_mod::lemma_mod_bound(best_ea + 1 + i, na);
                    assert(m[i] == p0s[pa_index + (best_ea + 1 + i) % na]);
                } else {
                    vstd::arithmetic::div_mod::lemma_mod_bound(best_eb + 1 + (i - (na - 1)), nb);
                    assert(m[i] == p0s[pb_index + (best_eb + 1 + (i - (na - 1))) % nb]);
                }
            }
            assert forall|t: int| 0 <= t < nvp implies p1[pa_index + t] == padded(m, nvp as int)[t] by {
            }
            lemma_count_padded(p1, pa_index as int, m, nvp as int, 0);
            assert(vals_ok(p0s, best_pa * nvp, packed_count(p0s, nvp as int, best_pa as int), good));
            assert(vals_ok(p0s, best_pb * nvp, packed_count(p0s, nvp as int, best_pb as int), good));
            assert forall|i: int| 0 <= i < m.len() implies good(#[trigger] m[i]) by {
                if i < na - 1 {
                    vstd::arithmetic::div_mod::lemma_mod_bound(best_ea + 1 + i, na);
                    assert(m[i] == p0s[pa_index + (best_ea + 1 + i) % na]);
                } else {
                    vstd::arithmetic::div_mod::lemma_mod_bound(best_eb + 1 + (i - (na - 1)), nb);
                    assert(m[i] == p0s[pb_index + (best_eb + 1 + (i - (na - 1))) % nb]);
                }
            }
        }
        if pregs[best_pa] != pregs[best_pb] {
            pregs.set(best_pa, RegionId { bits: 0 });
        }
        let last = n - 1;
        proof {
            if best_pb < last {
                lemma_packed_order(best_pb as int, last as int, nvp as int);
            }
            lemma_packed_order(last as int, n as int, nvp as int);
        }
        let last_index = last * nvp;
        let mut t: usize = 0;
        while t < nvp
            invariant
                t <= nvp,
                polys@.len() == p1.len(),
                pb_index + nvp <= last_index + nvp <= tmp_index,
                pb_index == last_index || pb_index + nvp <= last_index,
                tmp_index + nvp <= p1.len(),
                p1.len() <= usize::MAX,
                forall|q: int| 0 <= q < p1.len() ==> #[trigger] polys@[q] == (if pb_index <= q < pb_index + t {
                    p1[last_index + (q - pb_index)]
                } else {
                    p1[q]
                }),
            decreases nvp - t,
        {
            let v = polys[last_index + t];
            polys.set(pb_index + t, v);
            t = t + 1;
        }
        let r_last = pregs[last];
        pregs.set(best_pb, r_last);
        let a_last = pareas[last];
        pareas.set(best_pb, a_last);
        proof {
            let p2 = polys@;
            assert forall|j: int| 0 <= j < last implies {
                &&& 3 <= #[trigger] packed_count(p2, nvp as int, j)
                &&& slots_in_range(p2, j * nvp, packed_count(p2, nvp as int, j), nverts as int)
            } by {
                lemma_packed_order(j, last as int, nvp as int);
                if j == best_pa {
                    lemma_packed_disjoint(j, best_pb as int, nvp as int);
                    assert forall|t2: int| 0 <= t2 < nvp implies #[trigger] p2[j * nvp + t2] == p1[j * nvp + t2] by {
                    }
                    lemma_packed_same(p2, j * nvp, p1, j * nvp, nvp as int, nverts as int);
                    assert forall|x: int| j * nvp <= x < j * nvp + m.len() implies (#[trigger] p1[x]) < nverts by {
                        assert(p1[x] == padded(m, nvp as int)[x - pa_index]);
                        assert(m[x - pa_index] < nverts);
                    }
                } else if j == best_pb {
                    lemma_packed_disjoint(last as int, best_pa as int, nvp as int);
                    assert forall|t2: int| 0 <= t2 < nvp implies #[trigger] p2[j * nvp + t2] == p1[last_index + t2] by {
                    }
                    lemma_packed_same(p2, j * nvp, p1, last_index as int, nvp as int, nverts as int);
                    assert forall|t2: int| 0 <= t2 < nvp implies #[trigger] p1[last_index + t2] == p0s[last * nvp + t2] by {
                    }
                    lemma_packed_same(p1, last_index as int, p0s, last * nvp, nvp as int, nverts as int);
                    assert(3 <= packed_count(p0s, nvp as int, last as int));
                } else {
                    lemma_packed_disjoint(j, best_pa as int, nvp as int);
                    lemma_packed_disjoint(j, best_pb as int, nvp as int);
                    assert forall|t2: int| 0 <= t2 < nvp implies #[trigger] p2[j * nvp + t2] == p0s[j * nvp + t2] by {
                    }
                    lemma_packed_same(p2, j * nvp, p0s, j * nvp, nvp as int, nverts as int);
                    assert(3 <= packed_count(p0s, nvp as int, j));
                }
            }
            assert(packed_ok(p2, last as int, nvp as int, nverts as int));
            lemma_merge_keeps_vals(
                p0s,
                p1,
                p2,
                m,
                n as int,
                best_pa as int,
                best_pb as int,
                tmp_index as int,
                nvp as int,
                good,
            );
        }
        n = last;
    }
    n
}

/// Polygon `k` of `(p, r, a)` has the vertex slots, region and area of
/// polygon `j` of `(p0, r0, a0)`.
pub open spec fn same_poly(
    p: Seq<u16>,
    r: Seq<RegionId>,
    a: Seq<AreaType>,
    k: int,
    p0: Seq<u16>,
    r0: Seq<RegionId>,
    a0: Seq<AreaType>,
    j: int,
    nvp: int,
) -> bool {
    &&& forall|t: int| 0 <= t < nvp ==> #[trigger] p[poly_base(k, nvp) + t] == p0[poly_base(j, nvp) + t]
    &&& r[k] == r0[j]
    &&& a[k] == a0[j]
}

/// `j` occurs in `orig`.
pub open spec fn listed(orig: Seq<int>, j: int) -> bool {
    exists|k: int| 0 <= k < orig.len() && #[trigger] orig[k] == j
}

/// Polygon `i` of the new mesh `(p, r, a)` is polygon `j` of the old mesh
/// `(p0, r0, a0)` with its vertex indices moved down past `rem`, and the
/// same region and area.
pub open spec fn kept_poly(
    p: Seq<u16>,
    r: Seq<RegionId>,
    a: Seq<AreaType>,
    i: int,
    p0: Seq<u16>,
    r0: Seq<RegionId>,
    a0: Seq<AreaType>,
    j: int,
    nvp: int,
    rem: u16,
) -> bool {
    &&& nv_of(p, nvp, i) == nv_of(p0, nvp, j)
    &&& forall|t: int| 0 <= t < nv_of(p0, nvp, j) ==> #[trigger] vertex_at(p, nvp, i, t) == shifted(vertex_at(p0, nvp, j, t), rem)
    &&& r[i] == r0[j]
    &&& a[i] == a0[j]
}

/// Polygon `j` of the old mesh is kept among the first `n` polygons of the
/// new one.
pub open spec fn kept_in(
    p: Seq<u16>,
    r: Seq<RegionId>,
    a: Seq<AreaType>,
    n: int,
    p0: Seq<u16>,
    r0: Seq<RegionId>,
    a0: Seq<AreaType>,
    j: int,
    nvp: int,
    rem: u16,
) -> bool {
    exists|i: int| 0 <= i < n && #[trigger] kept_poly(p, r, a, i, p0, r0, a0, j, nvp, rem)
}

/// Kept polygons stay kept when only the slots, regions and areas from
/// polygon `kept` on change.
proof fn lemma_kept_stays(
    p: Seq<u16>,
    r: Seq<RegionId>,
    a: Seq<AreaType>,
    q: Seq<u16>,
    rq: Seq<RegionId>,
    aq: Seq<AreaType>,
    kept: int,
    p0: Seq<u16>,
    r0: Seq<RegionId>,
    a0: Seq<AreaType>,
    orig: Seq<int>,
    nvp: int,
    rem: u16,
)
    requires
        orig.len() == kept,
        0 <= nvp,
        poly_base(kept, nvp) <= p.len(),
        p.len() == q.len(),
        forall|x: int| 0 <= x < poly_base(kept, nvp) ==> #[trigger] q[x] == p[x],
        forall|i: int| 0 <= i < kept ==> #[trigger] rq[i] == r[i] && aq[i] == a[i],
        forall|i: int| 0 <= i < kept ==> #[trigger] kept_poly(p, r, a, i, p0, r0, a0, orig[i], nvp, rem),
    ensures
        forall|i: int| 0 <= i < kept ==> #[trigger] kept_poly(q, rq, aq, i, p0, r0, a0, orig[i], nvp, rem),
{
    assert forall|i: int| 0 <= i < kept implies #[trigger] kept_poly(q, rq, aq, i, p0, r0, a0, orig[i], nvp, rem) by {
        assert(kept_poly(p, r, a, i, p0, r0, a0, orig[i], nvp, rem));
        lemma_poly_in(i, kept, nvp);
        assert forall|t: int| 0 <= t < nvp implies #[trigger] q[poly_base(i, nvp) + t] == p[poly_base(i, nvp) + t] by {
        }
        lemma_packed_same(q, poly_base(i, nvp), p, poly_base(i, nvp), nvp, 0);
        assert forall|t: int| 0 <= t < nv_of(p0, nvp, orig[i]) implies #[trigger] vertex_at(q, nvp, i, t) == shifted(
            vertex_at(p0, nvp, orig[i], t),
            rem,
        ) by {
            lemma_count_from(p, poly_base(i, nvp), 0, nvp);
            assert(vertex_at(p, nvp, i, t) == shifted(vertex_at(p0, nvp, orig[i], t), rem));
            assert(q[poly_base(i, nvp) + t] == p[poly_base(i, nvp) + t]);
        }
    }
}

/// Every old polygon listed in `orig` is kept among the first `n >= kept`
/// polygons.
proof fn lemma_kept_in(
    p: Seq<u16>,
    r: Seq<RegionId>,
    a: Seq<AreaType>,
    n: int,
    p0: Seq<u16>,
    r0: Seq<RegionId>,
    a0: Seq<AreaType>,
    orig: Seq<int>,
    nvp: int,
    rem: u16,
    old_n: int,
)
    requires
        orig.len() <= n,
        forall|i: int| 0 <= i < orig.len() ==> #[trigger] kept_poly(p, r, a, i, p0, r0, a0, orig[i], nvp, rem),
        forall|j: int| 0 <= j < old_n && !poly_has(p0, nvp, j, rem) ==> #[trigger] listed(orig, j),
    ensures
        forall|j: int|
            0 <= j < old_n && !poly_has(p0, nvp, j, rem) ==> #[trigger] kept_in(p, r, a, n, p0, r0, a0, j, nvp, rem),
{
    assert forall|j: int| 0 <= j < old_n && !poly_has(p0, nvp, j, rem) implies #[trigger] kept_in(
        p,
        r,
        a,
        n,
        p0,
        r0,
        a0,
        j,
        nvp,
        rem,
    ) by {
        assert(listed(orig, j));
        let k = choose|k: int| 0 <= k < orig.len() && #[trigger] orig[k] == j;
        assert(kept_poly(p, r, a, k, p0, r0, a0, orig[k], nvp, rem));
    }
}

impl InternalPolygonMesh {
    /// Appends the packed polygon at `at` of `polys` (`vertices_per_polygon`
    /// slots) as a new polygon with no neighbours, the given region and
    /// area.
    pub(crate) fn append_polygon(&mut self, polys: &Vec<u16>, at: usize, reg: RegionId, area: AreaType)
        requires
            3 <= old(self).vertices_per_polygon <= 0x100,
            old(self).npolys < old(self).regions@.len(),
            old(self).npolys < old(self).areas@.len(),
            poly_base(old(self).npolys + 1, old(self).vertices_per_polygon as int) <= old(self).polygons@.len(),
            at + old(self).vertices_per_polygon <= polys@.len(),
            3 <= poly_vert_count(polys@, at as int, old(self).vertices_per_polygon as int),
            slots_in_range(
                polys@,
                at as int,
                poly_vert_count(polys@, at as int, old(self).vertices_per_polygon as int),
                old(self).nvertices as int,
            ),
            vertex_slots_ok(
                old(self).polygons@,
                old(self).npolys as int,
                old(self).vertices_per_polygon as int,
                old(self).nvertices as int,
            ),
            forall|i: int|
                0 <= i < old(self).npolys ==> 3 <= #[trigger] nv_of(old(self).polygons@, old(self).vertices_per_polygon as int, i),
        ensures
            *final(self) == (InternalPolygonMesh {
                polygons: final(self).polygons,
                regions: final(self).regions,
                areas: final(self).areas,
                npolys: final(self).npolys,
                ..*old(self)
            }),
            final(self).npolys == old(self).npolys + 1,
            final(self).polygons@ == write_at(
                old(self).polygons@,
                poly_base(old(self).npolys as int, old(self).vertices_per_polygon as int),
                padded(
                    polys@.subrange(at as int, at + old(self).vertices_per_polygon),
                    2 * old(self).vertices_per_polygon,
                ),
            ),
            final(self).regions@ == old(self).regions@.update(old(self).npolys as int, reg),
            final(self).areas@ == old(self).areas@.update(old(self).npolys as int, area),
            vertex_slots_ok(
                final(self).polygons@,
                final(self).npolys as int,
                final(self).vertices_per_polygon as int,
                final(self).nvertices as int,
            ),
            forall|i: int|
                0 <= i < final(self).npolys ==> 3 <= #[trigger] nv_of(
                    final(self).polygons@,
                    final(self).vertices_per_polygon as int,
                    i,
                ),
    {
        let nvp = self.vertices_per_polygon;
        let n = self.npolys;
        proof {
            assert(self.polygons.len() == self.polygons@.len());
            assert(self.regions.len() == self.regions@.len());
            assert(self.areas.len() == self.areas@.len());
            assert(polys.len() == polys@.len());
            lemma_poly_in(n as int, n as int + 1, nvp as int);
        }
        let base = n * nvp * 2;
        let ghost before = self.polygons@;
        let ghost snap = *self;
        let mut t: usize = 0;
        while t < nvp
            invariant
                *self == (InternalPolygonMesh { polygons: self.polygons, ..snap }),
                t <= nvp,
                base == poly_base(n as int, nvp as int),
                base + nvp * 2 <= before.len(),
                before.len() <= usize::MAX,
                self.polygons@.len() == before.len(),
                at + nvp <= polys@.len(),
                polys@.len() <= usize::MAX,
                forall|q: int|
                    0 <= q < before.len() ==> #[trigger] self.polygons@[q] == (if base <= q < base + t {
                        polys@[at + (q - base)]
                    } else if base + nvp <= q < base + nvp + t {
                        0xffffu16
                    } else {
                        before[q]
                    }),
            decreases nvp - t,
        {
            let v = polys[at + t];
            self.polygons.set(base + t, v);
            self.polygons.set(base + nvp + t, 0xffff);
            t = t + 1;
        }
        self.regions.set(n, reg);
        self.areas.set(n, area);
        self.npolys = n + 1;
        proof {
            let pn = self.polygons@;
            let w = padded(polys@.subrange(at as int, at + nvp), 2 * nvp);
            assert(pn =~= write_at(before, base as int, w)) by {
                assert forall|q: int| 0 <= q < pn.len() implies pn[q] == write_at(before, base as int, w)[q] by {
                    if base <= q < base + nvp {
                        assert(w[q - base] == polys@[at + (q - base)]);
                    }
                }
            }
            assert forall|t2: int| 0 <= t2 < nvp implies #[trigger] pn[base + t2] == polys@[at + t2] by {
            }
                        assert forall|i: int| 0 <= i < n + 1 implies {
                &&& 3 <= #[trigger] nv_of(pn, nvp as int, i)
                &&& slots_in_range(pn, poly_base(i, nvp as int), nv_of(pn, nvp as int, i), self.nvertices as int)
            } by {
                if i < n {
                    lemma_poly_in(i, n as int, nvp as int);
                    assert forall|t2: int| 0 <= t2 < nvp implies #[trigger] pn[poly_base(i, nvp as int) + t2] == before[poly_base(
                        i,
                        nvp as int,
                    ) + t2] by {
                    }
                    lemma_packed_same(pn, poly_base(i, nvp as int), before, poly_base(i, nvp as int), nvp as int, self.nvertices as int);
                    assert(3 <= nv_of(before, nvp as int, i));
                    assert forall|x: int|
                        poly_base(i, nvp as int) <= x < poly_base(i, nvp as int) + nv_of(before, nvp as int, i) implies (#[trigger] before[x])
                        < self.nvertices by {
                        assert(vertex_at(before, nvp as int, i, x - poly_base(i, nvp as int)) < self.nvertices);
                    }
                } else {
                    lemma_packed_same(pn, base as int, polys@, at as int, nvp as int, self.nvertices as int);
                }
            }
            assert forall|i: int, j: int|
                0 <= i < n + 1 && 0 <= j < poly_vert_count(pn, poly_base(i, nvp as int), nvp as int) implies #[trigger] vertex_at(
                pn,
                nvp as int,
                i,
                j,
            ) < self.nvertices by {
                assert(slots_in_range(pn, poly_base(i, nvp as int), nv_of(pn, nvp as int, i), self.nvertices as int));
                assert(pn[poly_base(i, nvp as int) + j] < self.nvertices);
            }
        }
    }

    /// Removes vertex `rem`: the polygons that use it are removed, the
    /// vertices above it move down one place (and so do the indices that
    /// name them), and the hole left by the removed polygons is
    /// triangulated and merged into polygons of at most
    /// `vertices_per_polygon` vertices, each with the region of its corners
    /// (or no region when they differ) and the area of its first corner.
    /// Every polygon that does not use `rem` is kept, with its region and
    /// area. New polygons are stored while fewer than `max_tris` are in
    /// use; storing the one that reaches `max_tris` fails with
    /// `TooManyPolygons`. Fails with `InvalidContour` when the hole cannot
    /// be triangulated. The scratch list of new polygons, of up to
    /// `npolys * vertices_per_polygon + 1` polygons, must fit in memory.
    #[verifier::rlimit(40)]
    pub fn remove_vertex(&mut self, rem: u16, max_tris: usize) -> (r: Result<(), PolygonMeshError>)
        requires
            3 <= old(self).vertices_per_polygon <= 0x100,
            old(self).npolys <= max_tris <= 0x10000,
            poly_base(max_tris as int, old(self).vertices_per_polygon as int) <= old(self).polygons@.len(),
            max_tris <= old(self).regions@.len(),
            max_tris <= old(self).areas@.len(),
            (old(self).npolys * old(self).vertices_per_polygon + 2) * old(self).vertices_per_polygon <= usize::MAX,
            rem < old(self).nvertices,
            old(self).nvertices as int <= old(self).vertices@.len(),
            vertex_slots_ok(
                old(self).polygons@,
                old(self).npolys as int,
                old(self).vertices_per_polygon as int,
                old(self).nvertices as int,
            ),
            forall|i: int|
                0 <= i < old(self).npolys ==> 3 <= #[trigger] nv_of(old(self).polygons@, old(self).vertices_per_polygon as int, i),
            all_area2_fit(old(self).vertices@),
        ensures
            final(self).vertices_per_polygon == old(self).vertices_per_polygon,
            final(self).max_polygons == old(self).max_polygons,
            final(self).border_size == old(self).border_size,
            final(self).flags == old(self).flags,
            final(self).polygons@.len() == old(self).polygons@.len(),
            final(self).regions@.len() == old(self).regions@.len(),
            final(self).areas@.len() == old(self).areas@.len(),
            final(self).vertices@.len() == old(self).vertices@.len(),
            final(self).npolys <= max_tris,
            all_area2_fit(final(self).vertices@),
            final(self).nvertices == old(self).nvertices - 1,
            forall|k: int|
                0 <= k < old(self).nvertices - 1 ==> #[trigger] final(self).vertices@[k] == old(self).vertices@[if k < rem {
                    k
                } else {
                    k + 1
                }],
            vertex_slots_ok(
                final(self).polygons@,
                final(self).npolys as int,
                final(self).vertices_per_polygon as int,
                final(self).nvertices as int,
            ),
            forall|i: int|
                0 <= i < final(self).npolys ==> 3 <= #[trigger] nv_of(
                    final(self).polygons@,
                    final(self).vertices_per_polygon as int,
                    i,
                ),
            (forall|j: int|
                0 <= j < old(self).npolys ==> !#[trigger] poly_has(
                    old(self).polygons@,
                    old(self).vertices_per_polygon as int,
                    j,
                    rem,
                )) ==> r is Ok && final(self).npolys == old(self).npolys,
            forall|j: int|
                0 <= j < old(self).npolys && !poly_has(old(self).polygons@, old(self).vertices_per_polygon as int, j, rem)
                    ==> #[trigger] kept_in(
                    final(self).polygons@,
                    final(self).regions@,
                    final(self).areas@,
                    final(self).npolys as int,
                    old(self).polygons@,
                    old(self).regions@,
                    old(self).areas@,
                    j,
                    old(self).vertices_per_polygon as int,
                    rem,
                ),
            match r {
                Ok(()) => true,
                Err(e) => e == PolygonMeshError::InvalidContour || (e == (PolygonMeshError::TooManyPolygons {
                    actual: max_tris,
                    max: max_tris,
                }) && final(self).npolys == max_tris),
            },
    {
        let nvp = self.vertices_per_polygon;
        let ghost p0 = self.polygons@;
        proof {
            assert(self.polygons.len() == self.polygons@.len());
        }
        let ghost nverts0 = self.nvertices as int;
        let ghost verts0 = self.vertices@;
        proof {
            assert(self.polygons.len() == self.polygons@.len());
            assert(self.vertices.len() == self.vertices@.len());
            assert(self.regions.len() == self.regions@.len());
            assert(self.areas.len() == self.areas@.len());
            assert(max_tris * nvp * 2 <= 0x10000 * 0x100 * 2) by (nonlinear_arith)
                requires
                    max_tris <= 0x10000,
                    nvp <= 0x100,
            ;
        }
        let old_npolys = self.npolys;
        proof {
            assert(old_npolys * nvp <= 0x10000 * 0x100) by (nonlinear_arith)
                requires
                    old_npolys <= 0x10000,
                    nvp <= 0x100,
            ;
        }
        let cap = old_npolys * nvp + 1;
        // Edges of the removed polygons that do not touch `rem`:
        // (start, end, region, area).
        let mut edges: Vec<(u16, u16, RegionId, AreaType)> = Vec::new();
        let mut k: usize = 0;
        while k < cap
            invariant
                k <= cap,
                edges@.len() == k,
            decreases cap - k,
        {
            edges.push((0, 0, RegionId { bits: 0 }, AreaType(0)));
            k = k + 1;
        }
        let mut nedges: usize = 0;
        // The old polygon now stored at each index.
        let ghost r0 = self.regions@;
        let ghost a0 = self.areas@;
        let ghost mut orig: Seq<int> = Seq::new(old_npolys as nat, |k: int| k);
        proof {
            assert forall|j: int| 0 <= j < old_npolys && !poly_has(p0, nvp as int, j, rem) implies #[trigger] listed(orig, j) by {
                assert(orig[j] == j);
            }
        }
        let mut i: usize = 0;
        while i < self.npolys
            invariant
                p0 == old(self).polygons@,
                r0 == old(self).regions@,
                a0 == old(self).areas@,
                old_npolys == old(self).npolys,
                orig.len() == self.npolys,
                forall|k: int| 0 <= k < self.npolys ==> 0 <= #[trigger] orig[k] < old_npolys,
                forall|k: int|
                    0 <= k < self.npolys ==> #[trigger] same_poly(
                        self.polygons@,
                        self.regions@,
                        self.areas@,
                        k,
                        p0,
                        r0,
                        a0,
                        orig[k],
                        nvp as int,
                    ),
                forall|j: int| 0 <= j < old_npolys && !poly_has(p0, nvp as int, j, rem) ==> #[trigger] listed(orig, j),
                (forall|j: int| 0 <= j < old_npolys ==> !#[trigger] poly_has(p0, nvp as int, j, rem)) ==> self.npolys == old_npolys,
                nvp == self.vertices_per_polygon,
                3 <= nvp <= 0x100,
                self.npolys <= old_npolys <= max_tris <= 0x10000,
                cap == old_npolys * nvp + 1,
                edges@.len() == cap,
                nedges <= (old_npolys - self.npolys) * nvp,
                self.polygons@.len() == p0.len(),
                p0.len() <= usize::MAX,
                max_tris * nvp * 2 <= 0x10000 * 0x100 * 2,
                poly_base(max_tris as int, nvp as int) <= p0.len(),
                self.regions@.len() == old(self).regions@.len(),
                self.areas@.len() == old(self).areas@.len(),
                self.max_polygons == old(self).max_polygons,
                self.border_size == old(self).border_size,
                self.flags == old(self).flags,
                max_tris <= self.regions@.len(),
                max_tris <= self.areas@.len(),
                self.vertices@ == verts0,
                self.nvertices == nverts0,
                rem < nverts0,
                i <= self.npolys,
                vertex_slots_ok(self.polygons@, self.npolys as int, nvp as int, nverts0),
                forall|i2: int| 0 <= i2 < self.npolys ==> 3 <= #[trigger] nv_of(self.polygons@, nvp as int, i2),
                forall|i2: int| 0 <= i2 < i ==> !#[trigger] poly_has(self.polygons@, nvp as int, i2, rem),
                forall|t: int|
                    0 <= t < nedges ==> {
                        &&& (#[trigger] edges@[t]).0 < nverts0
                        &&& edges@[t].1 < nverts0
                        &&& edges@[t].0 != rem
                        &&& edges@[t].1 != rem
                    },
            decreases self.npolys - i, self.npolys,
        {
            proof {
                assert(i * nvp * 2 + nvp * 2 <= max_tris * nvp * 2) by (nonlinear_arith)
                    requires
                        i < max_tris,
                ;
            }
            let base = i * nvp * 2;
            proof {
                lemma_count_from(self.polygons@, base as int, 0, nvp as int);
            }
            let nv = count_poly_verts(&self.polygons, base, nvp);
            let mut has_rem = false;
            let mut j: usize = 0;
            while j < nv
                invariant
                    base + nvp * 2 <= self.polygons@.len(),
                    self.polygons@.len() <= usize::MAX,
                    nv <= nvp,
                    nv == nv_of(self.polygons@, nvp as int, i as int),
                    base == poly_base(i as int, nvp as int),
                    j <= nv,
                    has_rem <==> exists|j2: int| 0 <= j2 < j && #[trigger] vertex_at(self.polygons@, nvp as int, i as int, j2) == rem,
                decreases nv - j,
            {
                if self.polygons[base + j] == rem {
                    has_rem = true;
                }
                proof {
                    assert(vertex_at(self.polygons@, nvp as int, i as int, j as int) == self.polygons@[base + j]);
                }
                j = j + 1;
            }
            if !has_rem {
                i = i + 1;
                continue;
            }
            // Collect edges which do not touch the removed vertex.
            let reg = self.regions[i];
            let area = self.areas[i];
            let ghost nedges0 = nedges;
            let mut j: usize = 0;
            while j < nv
                invariant
                    base + nvp * 2 <= self.polygons@.len(),
                    self.polygons@.len() <= usize::MAX,
                    3 <= nv <= nvp,
                    nv == nv_of(self.polygons@, nvp as int, i as int),
                    base == poly_base(i as int, nvp as int),
                    i < self.npolys,
                    vertex_slots_ok(self.polygons@, self.npolys as int, nvp as int, nverts0),
                    j <= nv,
                    edges@.len() == cap,
                    nedges0 <= (old_npolys - self.npolys) * nvp,
                    nedges <= nedges0 + j,
                    self.npolys <= old_npolys,
                    cap == old_npolys * nvp + 1,
                    forall|t: int|
                        0 <= t < nedges ==> {
                            &&& (#[trigger] edges@[t]).0 < nverts0
                            &&& edges@[t].1 < nverts0
                            &&& edges@[t].0 != rem
                            &&& edges@[t].1 != rem
                        },
                decreases nv - j,
            {
                let pk = prev(j, nv);
                let a = self.polygons[base + pk];
                let b = self.polygons[base + j];
                proof {
                    assert(vertex_at(self.polygons@, nvp as int, i as int, pk as int) == a);
                    assert(vertex_at(self.polygons@, nvp as int, i as int, j as int) == b);
                    assert((old_npolys - self.npolys) * nvp + nv <= (old_npolys - self.npolys + 1) * nvp) by (nonlinear_arith)
                        requires
                            nv <= nvp,
                    ;
                    assert((old_npolys - self.npolys + 1) * nvp <= old_npolys * nvp) by (nonlinear_arith)
                        requires
                            self.npolys >= 1,
                            self.npolys <= old_npolys,
                    ;
                }
                if a != rem && b != rem {
                    edges.set(nedges, (a, b, reg, area));
                    nedges = nedges + 1;
                }
                j = j + 1;
            }
            // Remove the polygon: the last one takes its place.
            let last = self.npolys - 1;
            proof {
                assert(last * nvp * 2 + nvp * 2 <= max_tris * nvp * 2) by (nonlinear_arith)
                    requires
                        last < max_tris,
                ;
                assert(i == last || base + nvp * 2 <= last * nvp * 2) by (nonlinear_arith)
                    requires
                        i <= last,
                        base == i * nvp * 2,
                ;
            }
            let last_base = last * nvp * 2;
            proof {
                assert((old_npolys - self.npolys) * nvp + nv <= (old_npolys - last) * nvp) by (nonlinear_arith)
                    requires
                        nv <= nvp,
                        last + 1 == self.npolys,
                ;
            }
            let ghost before = self.polygons@;
            let ghost rb = self.regions@;
            let ghost ab = self.areas@;
            let ghost snap = *self;
            let mut t: usize = 0;
            while t < nvp
                invariant
                    *self == (InternalPolygonMesh { polygons: self.polygons, ..snap }),
                    base + nvp * 2 <= self.polygons@.len(),
                    last_base + nvp * 2 <= self.polygons@.len(),
                    self.polygons@.len() <= usize::MAX,
                    i == last || base + nvp * 2 <= last_base,
                    self.polygons@.len() == before.len(),
                    base == poly_base(i as int, nvp as int),
                    last_base == poly_base(last as int, nvp as int),
                    i <= last,
                    t <= nvp,
                    forall|q: int|
                        0 <= q < before.len() ==> #[trigger] self.polygons@[q] == (if base <= q < base + t {
                            before[last_base + (q - base)]
                        } else if base + nvp <= q < base + nvp + t {
                            0xffffu16
                        } else {
                            before[q]
                        }),
                decreases nvp - t,
            {
                let v = self.polygons[last_base + t];
                self.polygons.set(base + t, v);
                self.polygons.set(base + nvp + t, 0xffff);
                t = t + 1;
            }
            let r_last = self.regions[last];
            self.regions.set(i, r_last);
            let a_last = self.areas[last];
            self.areas.set(i, a_last);
            self.npolys = last;
            proof {
                let pn = self.polygons@;
                lemma_count_same(pn, base as int, before, last_base as int, nvp as int, 0);
                assert forall|i2: int| 0 <= i2 < self.npolys implies 3 <= #[trigger] nv_of(pn, nvp as int, i2) by {
                    if i2 != i {
                        assert(i2 * nvp * 2 + nvp * 2 <= base || base + nvp * 2 <= i2 * nvp * 2) by (nonlinear_arith)
                            requires
                                i2 != i,
                                base == i * nvp * 2,
                        ;
                        lemma_poly_in(i2, max_tris as int, nvp as int);
                        lemma_count_same(pn, poly_base(i2, nvp as int), before, poly_base(i2, nvp as int), nvp as int, 0);
                        assert(nv_of(before, nvp as int, i2) >= 3);
                    } else {
                        assert forall|t: int| 0 <= t < nvp implies (#[trigger] pn[base + t] == 0xffff) == (before[last_base + t] == 0xffff) by {
                        }
                        lemma_count_same(pn, base as int, before, last_base as int, nvp as int, 0);
                        assert(nv_of(before, nvp as int, last as int) >= 3);
                    }
                }
                assert(vertex_slots_ok(pn, self.npolys as int, nvp as int, nverts0)) by {
                    assert forall|i2: int, j2: int|
                        0 <= i2 < self.npolys && 0 <= j2 < poly_vert_count(pn, poly_base(i2, nvp as int), nvp as int)
                            implies #[trigger] vertex_at(pn, nvp as int, i2, j2) < nverts0 by {
                        if i2 != i {
                            assert(i2 * nvp * 2 + nvp * 2 <= base || base + nvp * 2 <= i2 * nvp * 2) by (nonlinear_arith)
                                requires
                                    i2 != i,
                                    base == i * nvp * 2,
                            ;
                            lemma_poly_in(i2, max_tris as int, nvp as int);
                            lemma_count_same(pn, poly_base(i2, nvp as int), before, poly_base(i2, nvp as int), nvp as int, 0);
                            lemma_count_from(before, poly_base(i2, nvp as int), 0, nvp as int);
                            assert(pn[poly_base(i2, nvp as int) + j2] == before[poly_base(i2, nvp as int) + j2]);
                            assert(vertex_at(before, nvp as int, i2, j2) < nverts0);
                        } else {
                            assert forall|t: int| 0 <= t < nvp implies (#[trigger] pn[base + t] == 0xffff) == (before[last_base + t] == 0xffff) by {
                            }
                            lemma_count_same(pn, base as int, before, last_base as int, nvp as int, 0);
                            lemma_count_from(before, last_base as int, 0, nvp as int);
                            assert(pn[base + j2] == before[last_base + j2]);
                            assert(vertex_at(before, nvp as int, last as int, j2) < nverts0);
                        }
                    }
                }
                assert forall|i2: int| 0 <= i2 < i implies !#[trigger] poly_has(pn, nvp as int, i2, rem) by {
                    assert(i2 * nvp * 2 + nvp * 2 <= base) by (nonlinear_arith)
                        requires
                            i2 < i,
                            base == i * nvp * 2,
                    ;
                    lemma_poly_in(i2, max_tris as int, nvp as int);
                    lemma_count_same(pn, poly_base(i2, nvp as int), before, poly_base(i2, nvp as int), nvp as int, 0);
                    lemma_count_from(before, poly_base(i2, nvp as int), 0, nvp as int);
                    if poly_has(pn, nvp as int, i2, rem) {
                        let j2 = choose|j2: int| 0 <= j2 < nv_of(pn, nvp as int, i2) && #[trigger] vertex_at(pn, nvp as int, i2, j2) == rem;
                        assert(pn[poly_base(i2, nvp as int) + j2] == before[poly_base(i2, nvp as int) + j2]);
                        assert(vertex_at(before, nvp as int, i2, j2) == rem);
                        assert(poly_has(before, nvp as int, i2, rem));
                    }
                }
            }
            proof {
                let pn = self.polygons@;
                let ob = orig;
                let oi = ob[i as int];
                let ol = ob[last as int];
                lemma_poly_in(oi, max_tris as int, nvp as int);
                lemma_poly_in(ol, max_tris as int, nvp as int);
                lemma_poly_in(i as int, max_tris as int, nvp as int);
                assert(same_poly(before, rb, ab, i as int, p0, r0, a0, oi, nvp as int));
                assert(same_poly(before, rb, ab, last as int, p0, r0, a0, ol, nvp as int));
                // The removed polygon's old counterpart has `rem`.
                lemma_packed_same(before, base as int, p0, poly_base(oi, nvp as int), nvp as int, 0);
                let jr = choose|j2: int| 0 <= j2 < nv && #[trigger] vertex_at(before, nvp as int, i as int, j2) == rem;
                assert(before[base + jr] == p0[poly_base(oi, nvp as int) + jr]);
                assert(vertex_at(p0, nvp as int, oi, jr) == rem);
                assert(poly_has(p0, nvp as int, oi, rem));
                orig = ob.update(i as int, ol).take(last as int);
                assert forall|k: int| 0 <= k < last implies #[trigger] same_poly(
                    pn,
                    self.regions@,
                    self.areas@,
                    k,
                    p0,
                    r0,
                    a0,
                    orig[k],
                    nvp as int,
                ) by {
                    lemma_poly_in(k, max_tris as int, nvp as int);
                    if k == i {
                        assert forall|t: int| 0 <= t < nvp implies #[trigger] pn[poly_base(k, nvp as int) + t] == p0[poly_base(
                            orig[k],
                            nvp as int,
                        ) + t] by {
                            assert(before[poly_base(last as int, nvp as int) + t] == p0[poly_base(ol, nvp as int) + t]);
                        }
                    } else {
                        assert(same_poly(before, rb, ab, k, p0, r0, a0, ob[k], nvp as int));
                        assert(k * nvp * 2 + nvp * 2 <= base || base + nvp * 2 <= k * nvp * 2) by (nonlinear_arith)
                            requires
                                k != i,
                                base == i * nvp * 2,
                        ;
                        assert forall|t: int| 0 <= t < nvp implies #[trigger] pn[poly_base(k, nvp as int) + t] == p0[poly_base(
                            orig[k],
                            nvp as int,
                        ) + t] by {
                            assert(before[poly_base(k, nvp as int) + t] == p0[poly_base(ob[k], nvp as int) + t]);
                        }
                    }
                }
                assert forall|k: int| 0 <= k < last implies 0 <= #[trigger] orig[k] < old_npolys by {
                    if k != i {
                        assert(0 <= ob[k] < old_npolys);
                    }
                }
                assert forall|j: int| 0 <= j < old_npolys && !poly_has(p0, nvp as int, j, rem) implies #[trigger] listed(orig, j) by {
                    assert(listed(ob, j));
                    let k0 = choose|k0: int| 0 <= k0 < ob.len() && #[trigger] ob[k0] == j;
                    if k0 == last {
                        assert(orig[i as int] == j);
                    } else {
                        assert(k0 != i);
                        assert(orig[k0] == j);
                    }
                }
            }
        }
        proof {
            assert(nedges > 0 ==> self.npolys < old_npolys) by (nonlinear_arith)
                requires
                    nedges <= (old_npolys - self.npolys) * nvp,
                    self.npolys <= old_npolys,
            ;
            assert((forall|j: int| 0 <= j < old_npolys ==> !#[trigger] poly_has(p0, nvp as int, j, rem)) ==> nedges == 0);
        }
        // Remove the vertex.
        let nverts = self.nvertices;
        let ghost snap = *self;
        let mut k: usize = rem as usize;
        while k + 1 < nverts as usize
            invariant
                *self == (InternalPolygonMesh { vertices: self.vertices, ..snap }),
                rem as int <= k,
                k < nverts,
                nverts == nverts0,
                nverts0 <= verts0.len(),
                self.vertices@.len() == verts0.len(),
                forall|m: int|
                    0 <= m < verts0.len() ==> #[trigger] self.vertices@[m] == (if rem <= m < k {
                        verts0[m + 1]
                    } else {
                        verts0[m]
                    }),
            decreases nverts - k,
        {
            let v = self.vertices[k + 1];
            self.vertices.set(k, v);
            k = k + 1;
        }
        self.nvertices = nverts - 1;
        let nverts1 = nverts - 1;
        proof {
            assert forall|a: int, b: int, c: int|
                0 <= a < self.vertices@.len() && 0 <= b < self.vertices@.len() && 0 <= c < self.vertices@.len() implies #[trigger] crate::polygon::area2_fits(
                self.vertices@[a],
                self.vertices@[b],
                self.vertices@[c],
            ) by {
                let a0 = if rem <= a < k { a + 1 } else { a };
                let b0 = if rem <= b < k { b + 1 } else { b };
                let c0 = if rem <= c < k { c + 1 } else { c };
                assert(crate::polygon::area2_fits(verts0[a0], verts0[b0], verts0[c0]));
            }
        }
        // Adjust the indices to the new vertex list.
        let ghost before_adjust = self.polygons@;
        let ghost snap_adj = *self;
        proof {
            assert forall|k: int| 0 <= k < self.npolys implies #[trigger] same_poly(
                before_adjust,
                snap_adj.regions@,
                snap_adj.areas@,
                k,
                p0,
                r0,
                a0,
                orig[k],
                nvp as int,
            ) by {
                assert(same_poly(self.polygons@, self.regions@, self.areas@, k, p0, r0, a0, orig[k], nvp as int));
            }
        }
        proof {
            assert(nedges <= old_npolys * nvp) by (nonlinear_arith)
                requires
                    nedges <= (old_npolys - self.npolys) * nvp,
                    self.npolys <= old_npolys,
            ;
        }
        let mut i: usize = 0;
        while i < self.npolys
            invariant
                *self == (InternalPolygonMesh { polygons: self.polygons, ..snap_adj }),
                snap_adj.npolys == self.npolys,
                before_adjust.len() <= usize::MAX,
                max_tris * nvp * 2 <= 0x10000 * 0x100 * 2,
                vertex_slots_ok(before_adjust, self.npolys as int, nvp as int, nverts0),
                forall|i2: int| 0 <= i2 < self.npolys ==> !#[trigger] poly_has(before_adjust, nvp as int, i2, rem),
                forall|i2: int| 0 <= i2 < self.npolys ==> 3 <= #[trigger] nv_of(before_adjust, nvp as int, i2),
                nvp == self.vertices_per_polygon,
                3 <= nvp <= 0x100,
                self.npolys <= max_tris <= 0x10000,
                poly_base(max_tris as int, nvp as int) <= self.polygons@.len(),
                self.polygons@.len() == before_adjust.len(),
                nverts1 + 1 == nverts0,
                i <= self.npolys,
                forall|q: int| poly_base(i as int, nvp as int) <= q < before_adjust.len() ==> #[trigger] self.polygons@[q] == before_adjust[q],
                forall|i2: int, j: int|
                    0 <= i2 < i && 0 <= j < nvp ==> #[trigger] vertex_at(self.polygons@, nvp as int, i2, j) == (if j < nv_of(
                        before_adjust,
                        nvp as int,
                        i2,
                    ) {
                        shifted(vertex_at(before_adjust, nvp as int, i2, j), rem)
                    } else {
                        vertex_at(before_adjust, nvp as int, i2, j)
                    }),
            decreases self.npolys - i,
        {
            proof {
                assert(i * nvp * 2 + nvp * 2 <= max_tris * nvp * 2) by (nonlinear_arith)
                    requires
                        i < max_tris,
                ;
                lemma_count_from(before_adjust, poly_base(i as int, nvp as int), 0, nvp as int);
            }
            let base = i * nvp * 2;
            let ghost pa = self.polygons@;
            proof {
                lemma_count_same(pa, base as int, before_adjust, base as int, nvp as int, 0);
            }
            let nv = count_poly_verts(&self.polygons, base, nvp);
            let ghost snap = *self;
            let mut j: usize = 0;
            while j < nv
                invariant
                    *self == (InternalPolygonMesh { polygons: self.polygons, ..snap }),
                    base == poly_base(i as int, nvp as int),
                    base + nvp * 2 <= before_adjust.len(),
                    before_adjust.len() <= usize::MAX,
                    self.polygons@.len() == before_adjust.len(),
                    nv == nv_of(before_adjust, nvp as int, i as int),
                    nv <= nvp,
                    j <= nv,
                    forall|q: int|
                        0 <= q < before_adjust.len() ==> #[trigger] self.polygons@[q] == (if base <= q < base + j {
                            shifted(pa[q], rem)
                        } else {
                            pa[q]
                        }),
                decreases nv - j,
            {
                let v = self.polygons[base + j];
                if v > rem {
                    self.polygons.set(base + j, v - 1);
                }
                j = j + 1;
            }
            proof {
                lemma_poly_in(i as int, max_tris as int, nvp as int);
                assert forall|i2: int, j2: int| 0 <= i2 < i + 1 && 0 <= j2 < nvp implies #[trigger] vertex_at(
                    self.polygons@,
                    nvp as int,
                    i2,
                    j2,
                ) == (if j2 < nv_of(before_adjust, nvp as int, i2) {
                    shifted(vertex_at(before_adjust, nvp as int, i2, j2), rem)
                } else {
                    vertex_at(before_adjust, nvp as int, i2, j2)
                }) by {
                    if i2 < i {
                        assert(i2 * nvp * 2 + nvp * 2 <= base) by (nonlinear_arith)
                            requires
                                i2 < i,
                                base == i * nvp * 2,
                        ;
                        assert(vertex_at(pa, nvp as int, i2, j2) == vertex_at(self.polygons@, nvp as int, i2, j2));
                    } else {
                        assert(pa[base + j2] == before_adjust[base + j2]);
                    }
                }
            }
            i = i + 1;
        }
        proof {
            let pn = self.polygons@;
            assert forall|i2: int| 0 <= i2 < self.npolys implies {
                &&& 3 <= #[trigger] nv_of(pn, nvp as int, i2)
                &&& nv_of(pn, nvp as int, i2) == nv_of(before_adjust, nvp as int, i2)
                &&& forall|j2: int| 0 <= j2 < nv_of(pn, nvp as int, i2) ==> #[trigger] vertex_at(pn, nvp as int, i2, j2) < nverts1
            } by {
                lemma_poly_in(i2, max_tris as int, nvp as int);
                lemma_count_from(before_adjust, poly_base(i2, nvp as int), 0, nvp as int);
                assert forall|t: int| 0 <= t < nvp implies (#[trigger] pn[poly_base(i2, nvp as int) + t] == 0xffff) == (before_adjust[poly_base(
                    i2,
                    nvp as int,
                ) + t] == 0xffff) by {
                    assert(vertex_at(pn, nvp as int, i2, t) == pn[poly_base(i2, nvp as int) + t]);
                    if t < nv_of(before_adjust, nvp as int, i2) {
                        assert(vertex_at(before_adjust, nvp as int, i2, t) < nverts0);
                    }
                }
                lemma_count_same(pn, poly_base(i2, nvp as int), before_adjust, poly_base(i2, nvp as int), nvp as int, 0);
                assert forall|j2: int| 0 <= j2 < nv_of(pn, nvp as int, i2) implies #[trigger] vertex_at(pn, nvp as int, i2, j2) < nverts1 by {
                    assert(vertex_at(before_adjust, nvp as int, i2, j2) < nverts0);
                    if vertex_at(before_adjust, nvp as int, i2, j2) == rem {
                        assert(poly_has(before_adjust, nvp as int, i2, rem));
                    }
                }
            }
            assert forall|i2: int, j2: int|
                0 <= i2 < self.npolys && 0 <= j2 < poly_vert_count(pn, poly_base(i2, nvp as int), nvp as int) implies #[trigger] vertex_at(
                pn,
                nvp as int,
                i2,
                j2,
            ) < nverts1 by {
                assert(3 <= nv_of(pn, nvp as int, i2));
            }
            assert(vertex_slots_ok(pn, self.npolys as int, nvp as int, nverts1 as int));
            assert forall|k: int| 0 <= k < self.npolys implies #[trigger] kept_poly(
                pn,
                self.regions@,
                self.areas@,
                k,
                p0,
                r0,
                a0,
                orig[k],
                nvp as int,
                rem,
            ) by {
                let ok = orig[k];
                assert(0 <= ok < old_npolys);
                assert(same_poly(before_adjust, snap_adj.regions@, snap_adj.areas@, k, p0, r0, a0, ok, nvp as int));
                lemma_poly_in(k, max_tris as int, nvp as int);
                lemma_poly_in(ok, max_tris as int, nvp as int);
                lemma_packed_same(before_adjust, poly_base(k, nvp as int), p0, poly_base(ok, nvp as int), nvp as int, 0);
                assert(nv_of(pn, nvp as int, k) == nv_of(before_adjust, nvp as int, k));
                assert forall|t: int| 0 <= t < nv_of(p0, nvp as int, ok) implies #[trigger] vertex_at(pn, nvp as int, k, t) == shifted(
                    vertex_at(p0, nvp as int, ok, t),
                    rem,
                ) by {
                    lemma_count_from(p0, poly_base(ok, nvp as int), 0, nvp as int);
                    assert(before_adjust[poly_base(k, nvp as int) + t] == p0[poly_base(ok, nvp as int) + t]);
                    assert(vertex_at(pn, nvp as int, k, t) == shifted(vertex_at(before_adjust, nvp as int, k, t), rem));
                }
            }
        }
        let mut t: usize = 0;
        while t < nedges
            invariant
                nedges <= edges@.len(),
                t <= nedges,
                nverts1 + 1 == nverts0,
                rem < nverts0,
                forall|t2: int|
                    0 <= t2 < nedges ==> {
                        &&& (#[trigger] edges@[t2]).0 < (if t2 < t { nverts1 as int } else { nverts0 })
                        &&& edges@[t2].1 < (if t2 < t { nverts1 as int } else { nverts0 })
                        &&& t2 >= t ==> edges@[t2].0 != rem && edges@[t2].1 != rem
                    },
            decreases nedges - t,
        {
            let e = edges[t];
            let ghost eb = edges@;
            edges.set(t, (shifted_exec(e.0, rem), shifted_exec(e.1, rem), e.2, e.3));
            proof {
                assert(e == eb[t as int]);
                assert(e.0 < nverts0 && e.0 != rem && e.1 < nverts0 && e.1 != rem);
                lemma_shifted(e.0, rem);
                lemma_shifted(e.1, rem);
                assert(shifted(e.0, rem) < nverts1);
                assert(shifted(e.1, rem) < nverts1);
                assert forall|t2: int| 0 <= t2 < nedges && t2 != t implies #[trigger] edges@[t2] == eb[t2] by {
                }
            }
            t = t + 1;
        }
        let ghost adjusted = self.polygons@;
        let ghost snap_fill = *self;
        proof {
            assert(self.npolys <= max_tris);
            assert(self.nvertices == nverts1);
            assert forall|k: int| 0 <= k < nverts0 - 1 implies #[trigger] self.vertices@[k] == verts0[if k < rem {
                k
            } else {
                k + 1
            }] by {
            }
            assert(vertex_slots_ok(self.polygons@, self.npolys as int, nvp as int, nverts1 as int));
            assert(orig.len() == self.npolys);
            lemma_kept_in(
                self.polygons@,
                self.regions@,
                self.areas@,
                self.npolys as int,
                p0,
                r0,
                a0,
                orig,
                nvp as int,
                rem,
                old_npolys as int,
            );
        }
        if nedges == 0 {
            return Ok(());
        }
        // Start with one edge, and keep joining connected edges to the
        // front and back of the hole's outline.
        let n_total = nedges;
        proof {
            assert(!(forall|j: int| 0 <= j < old_npolys ==> !#[trigger] poly_has(p0, nvp as int, j, rem)));
            assert(n_total <= old_npolys * nvp);
            assert(self.npolys < old_npolys);
        }
        let hcap = nedges + 1;
        let mut hole: Vec<u16> = Vec::new();
        let mut hreg: Vec<RegionId> = Vec::new();
        let mut harea: Vec<AreaType> = Vec::new();
        let mut k: usize = 0;
        while k < hcap
            invariant
                k <= hcap,
                hole@.len() == k,
                hreg@.len() == k,
                harea@.len() == k,
            decreases hcap - k,
        {
            hole.push(0);
            hreg.push(RegionId { bits: 0 });
            harea.push(AreaType(0));
            k = k + 1;
        }
        let mut nhole: usize = 0;
        let mut nhreg: usize = 0;
        let mut nharea: usize = 0;
        let e0 = edges[0];
        push_back(e0.0, &mut hole, &mut nhole);
        push_back(e0.2, &mut hreg, &mut nhreg);
        push_back(e0.3, &mut harea, &mut nharea);
        while nedges != 0
            invariant
                nhole == nhreg,
                nhole == nharea,
                hole@.len() == hcap,
                hreg@.len() == hcap,
                harea@.len() == hcap,
                hcap == n_total + 1,
                nhole + nedges == n_total + 1,
                1 <= nhole,
                nedges <= edges@.len(),
                forall|t2: int| 0 <= t2 < nedges ==> (#[trigger] edges@[t2]).0 < nverts1 && edges@[t2].1 < nverts1,
                forall|t2: int| 0 <= t2 < nhole ==> (#[trigger] hole@[t2]) < nverts1,
            decreases nedges,
        {
            let ghost nedges_start = nedges;
            let mut matched = false;
            let mut i: usize = 0;
            while i < nedges
                invariant
                    nhole == nhreg,
                    nhole == nharea,
                    hole@.len() == hcap,
                    hreg@.len() == hcap,
                    harea@.len() == hcap,
                    hcap == n_total + 1,
                    nhole + nedges == n_total + 1,
                    1 <= nhole,
                    nedges <= edges@.len(),
                    i <= nedges,
                    matched ==> nedges < nedges_start,
                    !matched ==> nedges == nedges_start,
                    forall|t2: int| 0 <= t2 < nedges ==> (#[trigger] edges@[t2]).0 < nverts1 && edges@[t2].1 < nverts1,
                    forall|t2: int| 0 <= t2 < nhole ==> (#[trigger] hole@[t2]) < nverts1,
                decreases nedges - i,
            {
                let e = edges[i];
                let ea = e.0;
                let eb = e.1;
                let mut add = false;
                let ghost hole_b = hole@;
                if hole[0] == eb {
                    // The edge joins the front of the outline.
                    push_front(ea, &mut hole, &mut nhole);
                    push_front(e.2, &mut hreg, &mut nhreg);
                    push_front(e.3, &mut harea, &mut nharea);
                    add = true;
                    proof {
                        assert forall|t2: int| 0 <= t2 < nhole implies (#[trigger] hole@[t2]) < nverts1 by {
                            if t2 > 0 {
                                assert(hole@[t2] == hole_b[t2 - 1]);
                            }
                        }
                    }
                } else if hole[nhole - 1] == ea {
                    // The edge joins the back of the outline.
                    push_back(eb, &mut hole, &mut nhole);
                    push_back(e.2, &mut hreg, &mut nhreg);
                    push_back(e.3, &mut harea, &mut nharea);
                    add = true;
                }
                if add {
                    // The edge is used; the last one takes its place.
                    let last = edges[nedges - 1];
                    edges.set(i, last);
                    nedges = nedges - 1;
                    matched = true;
                } else {
                    i = i + 1;
                }
            }
            if !matched {
                break;
            }
        }
        // Triangulate the hole.
        let mut tverts: Vec<(MeshVertex, usize)> = Vec::new();
        let mut thole: Vec<usize> = Vec::new();
        let mut tris: Vec<(u16, u16, u16)> = Vec::new();
        let tlen = if nhole < 3 { 3 } else { nhole };
        let mut k: usize = 0;
        while k < tlen
            invariant
                k <= tlen,
                tlen == (if nhole < 3 { 3 } else { nhole }),
                nhole <= hole@.len(),
                nverts1 <= self.vertices@.len(),
                forall|t2: int| 0 <= t2 < nhole ==> (#[trigger] hole@[t2]) < nverts1,
                tverts@.len() == (if k < nhole { k } else { nhole }),
                thole@.len() == k,
                tris@.len() == (if k < nhole { k } else { nhole }),
                forall|t2: int| 0 <= t2 < tverts@.len() ==> (#[trigger] tverts@[t2]).0 == self.vertices@[hole@[t2] as int],
                forall|t2: int| 0 <= t2 < k ==> #[trigger] thole@[t2] == (if t2 < nhole { t2 as usize } else { 0usize }),
            decreases tlen - k,
        {
            if k < nhole {
                let v = self.vertices[hole[k] as usize];
                tverts.push((v, 0));
                tris.push((0, 0, 0));
                thole.push(k);
            } else {
                thole.push(0);
            }
            k = k + 1;
        }
        let ghost thole0 = thole@;
        proof {
            assert forall|a: int, b: int, c: int|
                0 <= a < tverts@.len() && 0 <= b < tverts@.len() && 0 <= c < tverts@.len() implies #[trigger] crate::polygon::area2_fits(
                tverts@[a].0,
                tverts@[b].0,
                tverts@[c].0,
            ) by {
                assert(crate::polygon::area2_fits(
                    self.vertices@[hole@[a] as int],
                    self.vertices@[hole@[b] as int],
                    self.vertices@[hole@[c] as int],
                ));
            }
            assert forall|t2: int| 0 <= t2 < tverts@.len() implies (#[trigger] masked(thole@[t2])) < tverts@.len() by {
                let v = thole@[t2];
                assert(v & 0x0fffffffusize == v) by (bit_vector)
                    requires
                        v < 0x1000_0000,
                ;
            }
        }
        let ntris = match triangulate(&tverts, &mut thole, &mut tris) {
            Ok(count) => count,
            Err(e) => {
                return Err(e);
            },
        };
        proof {
            assert forall|t2: int| 0 <= t2 < ntris implies {
                &&& (#[trigger] tris@[t2]).0 < nhole
                &&& tris@[t2].1 < nhole
                &&& tris@[t2].2 < nhole
            } by {
                if t2 < ntris - 1 {
                    assert(corner_triangle(thole0, tverts@.len() as int, tris@[t2]));
                    let (a, b, c) = choose|a: int, b: int, c: int|
                        0 <= a < tverts@.len() && 0 <= b < tverts@.len() && 0 <= c < tverts@.len() && a != b && b != c && a != c
                            && tris@[t2] == (
                            masked(#[trigger] thole0[a]) as u16,
                            masked(#[trigger] thole0[b]) as u16,
                            masked(#[trigger] thole0[c]) as u16,
                        );
                    lemma_masked_small(thole0[a]);
                    lemma_masked_small(thole0[b]);
                    lemma_masked_small(thole0[c]);
                    lemma_u16_cast_le(thole0[a]);
                    lemma_u16_cast_le(thole0[b]);
                    lemma_u16_cast_le(thole0[c]);
                } else {
                    let f = thole@;
                    if nhole >= 3 {
                        assert(masked(f[0]) < nhole && masked(f[1]) < nhole && masked(f[2]) < nhole);
                    } else {
                        assert(masked(f[0]) == masked(thole0[0]));
                        assert(masked(f[1]) == masked(thole0[1]));
                        assert(masked(f[2]) == masked(thole0[2]));
                        lemma_masked_small(thole0[0]);
                        lemma_masked_small(thole0[1]);
                        lemma_masked_small(thole0[2]);
                    }
                    lemma_u16_cast_le(masked(f[0]));
                    lemma_u16_cast_le(masked(f[1]));
                    lemma_u16_cast_le(masked(f[2]));
                }
            }
        }
        // Merge the hole's triangles back into polygons.
        proof {
            assert((ntris + 1) * nvp <= (old_npolys * nvp + 2) * nvp) by (nonlinear_arith)
                requires
                    ntris + 1 <= n_total + 2,
                    n_total <= old_npolys * nvp,
            ;
        }
        let (mut polys, mut pregs, mut pareas, np) = hole_polygons(&hole, &hreg, &harea, nhole, &tris, ntris, nvp, nverts1);
        if np == 0 {
            return Ok(());
        }
        let np = merge_hole_polygons(
            &mut polys,
            &mut pregs,
            &mut pareas,
            np,
            ntris,
            nvp,
            &self.vertices,
            nverts1,
            Ghost(|v: u16| true),
        );
        // Store the polygons.
        proof {
            assert(polys.len() == polys@.len());
        }
        let mut i: usize = 0;
        while i < np
            invariant
                i <= np,
                np <= ntris,
                polys@.len() == (ntris + 1) * nvp,
                pregs@.len() == ntris,
                pareas@.len() == ntris,
                packed_ok(polys@, np as int, nvp as int, nverts1 as int),
                polys@.len() <= usize::MAX,
                nvp == self.vertices_per_polygon,
                nvp == old(self).vertices_per_polygon,
                nverts1 == old(self).nvertices - 1,
                self.vertices@.len() == old(self).vertices@.len(),
                all_area2_fit(self.vertices@),
                forall|k: int|
                    0 <= k < old(self).nvertices - 1 ==> #[trigger] self.vertices@[k] == old(self).vertices@[if k < rem {
                        k
                    } else {
                        k + 1
                    }],
                3 <= nvp <= 0x100,
                self.npolys < max_tris <= 0x10000,
                poly_base(max_tris as int, nvp as int) <= self.polygons@.len(),
                self.polygons@.len() == old(self).polygons@.len(),
                self.regions@.len() == old(self).regions@.len(),
                self.areas@.len() == old(self).areas@.len(),
                self.max_polygons == old(self).max_polygons,
                self.border_size == old(self).border_size,
                self.flags == old(self).flags,
                max_tris <= self.regions@.len(),
                max_tris <= self.areas@.len(),
                self.vertices@ == snap_fill.vertices@,
                self.nvertices == nverts1,
                vertex_slots_ok(self.polygons@, self.npolys as int, nvp as int, nverts1 as int),
                forall|i2: int| 0 <= i2 < self.npolys ==> 3 <= #[trigger] nv_of(self.polygons@, nvp as int, i2),
                p0 == old(self).polygons@,
                r0 == old(self).regions@,
                a0 == old(self).areas@,
                old_npolys == old(self).npolys,
                orig.len() <= self.npolys,
                !(forall|j: int| 0 <= j < old_npolys ==> !#[trigger] poly_has(p0, nvp as int, j, rem)),
                forall|i2: int|
                    0 <= i2 < orig.len() ==> #[trigger] kept_poly(
                        self.polygons@,
                        self.regions@,
                        self.areas@,
                        i2,
                        p0,
                        r0,
                        a0,
                        orig[i2],
                        nvp as int,
                        rem,
                    ),
                forall|j: int| 0 <= j < old_npolys && !poly_has(p0, nvp as int, j, rem) ==> #[trigger] listed(orig, j),
            decreases np - i,
        {
            if self.npolys >= max_tris {
                break;
            }
            proof {
                lemma_poly_in(self.npolys as int, max_tris as int, nvp as int);
                lemma_packed_order(i as int, np as int + 1, nvp as int);
                assert(3 <= packed_count(polys@, nvp as int, i as int));
            }
            let reg = pregs[i];
            let area = pareas[i];
            let ghost pb = self.polygons@;
            let ghost rb = self.regions@;
            let ghost ab = self.areas@;
            let ghost nb = self.npolys;
            self.append_polygon(&polys, i * nvp, reg, area);
            proof {
                let kept = orig.len() as int;
                assert(poly_base(kept, nvp as int) <= poly_base(nb as int, nvp as int)) by (nonlinear_arith)
                    requires
                        kept <= nb,
                        0 <= nvp,
                ;
                lemma_kept_stays(
                    pb,
                    rb,
                    ab,
                    self.polygons@,
                    self.regions@,
                    self.areas@,
                    kept,
                    p0,
                    r0,
                    a0,
                    orig,
                    nvp as int,
                    rem,
                );
                lemma_kept_in(
                    self.polygons@,
                    self.regions@,
                    self.areas@,
                    self.npolys as int,
                    p0,
                    r0,
                    a0,
                    orig,
                    nvp as int,
                    rem,
                    old_npolys as int,
                );
            }
            if self.npolys >= max_tris {
                return Err(PolygonMeshError::TooManyPolygons { actual: self.npolys, max: max_tris });
            }
            i = i + 1;
        }
        proof {
            lemma_kept_in(
                self.polygons@,
                self.regions@,
                self.areas@,
                self.npolys as int,
                p0,
                r0,
                a0,
                orig,
                nvp as int,
                rem,
                old_npolys as int,
            );
        }
        Ok(())
    }
}

fn shifted_exec(v: u16, rem: u16) -> (r: u16)
    ensures
        r == shifted(v, rem),
{
    if v > rem {
        v - 1
    } else {
        v
    }
}

} // verus!
