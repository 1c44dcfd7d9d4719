//! Building a polygon mesh from a contour set: each contour is
//! triangulated over welded vertices, its triangles are merged into convex
//! polygons, the vertices on tile borders are removed where possible, and
//! the polygons are linked to their neighbours.

use vstd::prelude::*;
use crate::area::AreaType;
use crate::contours::{Contour, ContourSet};
use crate::polygon::{MeshVertex, area2_fits, all_area2_fit};
use crate::region::RegionId;
use crate::poly_mesh::{
    InternalPolygonMesh,
    PolygonMesh,
    PolygonMeshError,
    poly_base,
    vertex_slots_ok,
    vertex_at,
    nv_of,
    poly_vert_count,
    add_vertex,
    weld_chains_ok,
    lemma_count_from,
    touched_upto,
    occ_upto,
    lemma_all_pairs_len,
};
use crate::triangulation::{triangulate, contour_area2_fit, indices_ok, masked, corner_triangle, distinct_upto};
use crate::vertex_removal::{
    hole_polygons,
    merge_hole_polygons,
    packed_count,
    packed_ok,
    lemma_packed_order,
    lemma_packed_same,
    lemma_count_padded,
    lemma_poly_in,
    vals_ok,
    all_vals_ok,
    from_triangles,
    triangle_polygon,
};
use crate::poly_mesh::{welds_to, write_at, padded};
use crate::poly_mesh::kept_slot;

verus! {

/// The number of vertices of the first `n` contours that have at least
/// three.
pub open spec fn contour_verts(cs: Seq<Contour>, n: int) -> int
    decreases n,
{
    if n <= 0 {
        0
    } else {
        contour_verts(cs, n - 1) + if cs[n - 1].vertices@.len() >= 3 {
            cs[n - 1].vertices@.len() as int
        } else {
            0
        }
    }
}

/// The number of triangles of the first `n` contours that have at least
/// three vertices: two fewer than their vertices.
pub open spec fn contour_tris(cs: Seq<Contour>, n: int) -> int
    decreases n,
{
    if n <= 0 {
        0
    } else {
        contour_tris(cs, n - 1) + if cs[n - 1].vertices@.len() >= 3 {
            cs[n - 1].vertices@.len() - 2
        } else {
            0
        }
    }
}

/// The contour vertices lie in the first quadrant of 15-bit coordinates, so
/// that the cross products of the mesh fit in an `i32`.
pub open spec fn contour_coords_ok(cs: Seq<Contour>) -> bool {
    forall|c: int, k: int|
        0 <= c < cs.len() && 0 <= k < cs[c].vertices@.len() ==> (#[trigger] cs[c].vertices@[k]).0.x < 0x8000
            && cs[c].vertices@[k].0.z < 0x8000
}

/// `v` is a vertex of one of the contours.
pub open spec fn contour_vertex(cs: Seq<Contour>, v: MeshVertex) -> bool {
    exists|c: int, j: int| 0 <= c < cs.len() && 0 <= j < cs[c].vertices@.len() && (#[trigger] cs[c].vertices@[j]).0 == v
}

/// `v` welds to a vertex of contour `c`: the same column, at most 2 apart
/// in height.
pub open spec fn welds_into(cs: Seq<Contour>, c: int, v: MeshVertex) -> bool {
    exists|k: int| 0 <= k < cs[c].vertices@.len() && welds_to(v, (#[trigger] cs[c].vertices@[k]).0)
}

/// Polygon `p` was built from contour `c`: the contour has at least three
/// vertices, the polygon has its region and area, and every vertex of the
/// polygon welds to one of the contour's vertices.
pub open spec fn built_from(
    cs: Seq<Contour>,
    c: int,
    verts: Seq<MeshVertex>,
    polys: Seq<u16>,
    regions: Seq<RegionId>,
    areas: Seq<AreaType>,
    nvp: int,
    p: int,
) -> bool {
    &&& 0 <= c < cs.len()
    &&& cs[c].vertices@.len() >= 3
    &&& regions[p] == cs[c].region
    &&& areas[p] == cs[c].area
    &&& forall|j: int| 0 <= j < nv_of(polys, nvp, p) ==> welds_into(cs, c, verts[#[trigger] vertex_at(polys, nvp, p, j) as int])
}

/// Polygon `p` was built from one of the contours.
pub open spec fn from_some_contour(
    cs: Seq<Contour>,
    verts: Seq<MeshVertex>,
    polys: Seq<u16>,
    regions: Seq<RegionId>,
    areas: Seq<AreaType>,
    nvp: int,
    p: int,
) -> bool {
    exists|c: int| #[trigger] built_from(cs, c, verts, polys, regions, areas, nvp, p)
}

/// Some polygon among the first `n` was built from contour `c`.
pub open spec fn contour_covered(
    cs: Seq<Contour>,
    c: int,
    verts: Seq<MeshVertex>,
    polys: Seq<u16>,
    regions: Seq<RegionId>,
    areas: Seq<AreaType>,
    nvp: int,
    n: int,
) -> bool {
    exists|p: int| 0 <= p < n && #[trigger] built_from(cs, c, verts, polys, regions, areas, nvp, p)
}

/// No contour vertex is marked as lying on a tile border.
pub open spec fn no_border_vertices(cs: Seq<Contour>) -> bool {
    forall|c: int, k: int|
        0 <= c < cs.len() && 0 <= k < cs[c].vertices@.len() ==> (#[trigger] cs[c].vertices@[k]).1 & 0x10000usize == 0usize
}

/// Polygons built from contours stay so when their vertex slots, the
/// vertices they name, their regions and their areas are kept.
proof fn lemma_from_contour_kept(
    cs: Seq<Contour>,
    v1: Seq<MeshVertex>,
    p1: Seq<u16>,
    r1: Seq<RegionId>,
    a1: Seq<AreaType>,
    v2: Seq<MeshVertex>,
    p2: Seq<u16>,
    r2: Seq<RegionId>,
    a2: Seq<AreaType>,
    n: int,
    nvp: int,
    nverts: int,
)
    requires
        1 <= nvp,
        0 <= n,
        poly_base(n, nvp) <= p1.len(),
        poly_base(n, nvp) <= p2.len(),
        same_vertex_slots(p1, p2, n, nvp),
        vertex_slots_ok(p1, n, nvp, nverts),
        forall|k: int| 0 <= k < nverts ==> #[trigger] v2[k] == v1[k],
        forall|p: int| 0 <= p < n ==> #[trigger] r2[p] == r1[p] && a2[p] == a1[p],
        forall|p: int| 0 <= p < n ==> #[trigger] from_some_contour(cs, v1, p1, r1, a1, nvp, p),
    ensures
        forall|p: int| 0 <= p < n ==> #[trigger] from_some_contour(cs, v2, p2, r2, a2, nvp, p),
        forall|c: int, m: int|
            n <= m && contour_covered(cs, c, v1, p1, r1, a1, nvp, n) ==> #[trigger] contour_covered(cs, c, v2, p2, r2, a2, nvp, m),
{
    lemma_same_slots(p1, p2, n, nvp, nverts);
    assert forall|c: int, p: int| 0 <= p < n && #[trigger] built_from(cs, c, v1, p1, r1, a1, nvp, p) implies built_from(
        cs,
        c,
        v2,
        p2,
        r2,
        a2,
        nvp,
        p,
    ) by {
        assert(nv_of(p2, nvp, p) == nv_of(p1, nvp, p));
        assert(r2[p] == r1[p]);
        lemma_poly_in(p, n, nvp);
        lemma_count_from(p1, poly_base(p, nvp), 0, nvp);
        assert forall|j: int| 0 <= j < nv_of(p2, nvp, p) implies welds_into(
            cs,
            c,
            v2[#[trigger] vertex_at(p2, nvp, p, j) as int],
        ) by {
            assert(p2[poly_base(p, nvp) + j] == p1[poly_base(p, nvp) + j]);
            assert(vertex_at(p1, nvp, p, j) < nverts);
            assert(welds_into(cs, c, v1[vertex_at(p1, nvp, p, j) as int]));
        }
    }
    assert forall|c: int, m: int|
        n <= m && contour_covered(cs, c, v1, p1, r1, a1, nvp, n) implies #[trigger] contour_covered(cs, c, v2, p2, r2, a2, nvp, m) by {
        let p = choose|p: int| 0 <= p < n && #[trigger] built_from(cs, c, v1, p1, r1, a1, nvp, p);
        assert(built_from(cs, c, v2, p2, r2, a2, nvp, p));
    }
    assert forall|p: int| 0 <= p < n implies #[trigger] from_some_contour(cs, v2, p2, r2, a2, nvp, p) by {
        assert(from_some_contour(cs, v1, p1, r1, a1, nvp, p));
        let c = choose|c: int| #[trigger] built_from(cs, c, v1, p1, r1, a1, nvp, p);
        assert(nv_of(p2, nvp, p) == nv_of(p1, nvp, p));
        assert(r2[p] == r1[p]);
        lemma_poly_in(p, n, nvp);
        lemma_count_from(p1, poly_base(p, nvp), 0, nvp);
        assert forall|j: int| 0 <= j < nv_of(p2, nvp, p) implies welds_into(
            cs,
            c,
            v2[#[trigger] vertex_at(p2, nvp, p, j) as int],
        ) by {
            assert(p2[poly_base(p, nvp) + j] == p1[poly_base(p, nvp) + j]);
            assert(vertex_at(p1, nvp, p, j) < nverts);
            assert(welds_into(cs, c, v1[vertex_at(p1, nvp, p, j) as int]));
        }
        assert(built_from(cs, c, v2, p2, r2, a2, nvp, p));
    }
}

/// A polygon whose `nvp` slots are copied keeps its count and vertices
/// satisfying `good`.
proof fn lemma_packed_vals_same(p: Seq<u16>, sp: int, q: Seq<u16>, sq: int, nvp: int, good: spec_fn(u16) -> bool)
    requires
        0 <= sp,
        0 <= sq,
        0 <= nvp,
        sp + nvp <= p.len(),
        sq + nvp <= q.len(),
        forall|t: int| 0 <= t < nvp ==> #[trigger] p[sp + t] == q[sq + t],
        vals_ok(q, sq, poly_vert_count(q, sq, nvp), good),
    ensures
        poly_vert_count(p, sp, nvp) == poly_vert_count(q, sq, nvp),
        forall|x: int| sp <= x < sp + poly_vert_count(p, sp, nvp) ==> good(#[trigger] p[x]),
{
    lemma_packed_same(p, sp, q, sq, nvp, 0);
    lemma_count_from(p, sp, 0, nvp);
    assert forall|x: int| sp <= x < sp + poly_vert_count(p, sp, nvp) implies good(#[trigger] p[x]) by {
        assert(p[sp + (x - sp)] == q[sq + (x - sp)]);
    }
}

/// The vertex totals grow with the number of contours counted, and there
/// are fewer triangles than vertices.
proof fn lemma_totals_mono(cs: Seq<Contour>, a: int, b: int)
    requires
        0 <= a <= b,
    ensures
        0 <= contour_tris(cs, a) <= contour_verts(cs, a),
        contour_verts(cs, a) <= contour_verts(cs, b),
        contour_tris(cs, a) <= contour_tris(cs, b),
    decreases b,
{
    if a < b {
        lemma_totals_mono(cs, a, b - 1);
    } else if a > 0 {
        lemma_totals_mono(cs, a - 1, a - 1);
    }
}

/// Small coordinates keep the cross products in range.
proof fn lemma_small_fit(a: MeshVertex, b: MeshVertex, c: MeshVertex)
    requires
        a.x < 0x8000 && a.z < 0x8000,
        b.x < 0x8000 && b.z < 0x8000,
        c.x < 0x8000 && c.z < 0x8000,
    ensures
        area2_fits(a, b, c),
{
    let p = (b.x - a.x) * (c.z - a.z);
    let q = (c.x - a.x) * (b.z - a.z);
    assert(-0x4000_0000 < p < 0x4000_0000) by (nonlinear_arith)
        requires
            -0x8000 < b.x - a.x < 0x8000,
            -0x8000 < c.z - a.z < 0x8000,
            p == (b.x - a.x) * (c.z - a.z),
    ;
    assert(-0x4000_0000 < q < 0x4000_0000) by (nonlinear_arith)
        requires
            -0x8000 < c.x - a.x < 0x8000,
            -0x8000 < b.z - a.z < 0x8000,
            q == (c.x - a.x) * (b.z - a.z),
    ;
}

/// Vertices with small coordinates fit every cross product.
proof fn lemma_all_small_fit(verts: Seq<MeshVertex>)
    requires
        forall|k: int| 0 <= k < verts.len() ==> (#[trigger] verts[k]).x < 0x8000 && verts[k].z < 0x8000,
    ensures
        all_area2_fit(verts),
{
    assert forall|i: int, j: int, k: int|
        0 <= i < verts.len() && 0 <= j < verts.len() && 0 <= k < verts.len() implies #[trigger] area2_fits(
        verts[i],
        verts[j],
        verts[k],
    ) by {
        lemma_small_fit(verts[i], verts[j], verts[k]);
    }
}

/// A vertex bound that holds for the polygons' vertices holds for a larger
/// bound too.
proof fn lemma_slots_grow(p: Seq<u16>, n: int, nvp: int, a: int, b: int)
    requires
        vertex_slots_ok(p, n, nvp, a),
        a <= b,
    ensures
        vertex_slots_ok(p, n, nvp, b),
{
    assert forall|i: int, j: int|
        0 <= i < n && 0 <= j < poly_vert_count(p, poly_base(i, nvp), nvp) implies #[trigger] vertex_at(p, nvp, i, j) < b by {
        assert(vertex_at(p, nvp, i, j) < a);
    }
}

/// Truncating a small index to 16 bits keeps it.
proof fn lemma_small_u16(a: usize)
    requires
        a < 0x10000,
    ensures
        (a as u16) as int == a,
{
    assert((a as u16) as usize == a) by (bit_vector)
        requires
            a < 0x10000,
    ;
}

/// A small index list entry is its own vertex index.
proof fn lemma_mask_small(v: usize)
    requires
        v < 0x1000_0000,
    ensures
        masked(v) == v,
{
    assert(v & 0x0fffffffusize == v) by (bit_vector)
        requires
            v < 0x1000_0000,
    ;
}

/// The triangles of a contour of `n` vertices, triangulated from the index
/// list `0, 1, .., n - 1`, name contour vertices only.
proof fn lemma_contour_tris(
    init: Seq<usize>,
    fin: Seq<usize>,
    tris: Seq<(u16, u16, u16)>,
    n: int,
    ntris: int,
)
    requires
        3 <= n < 0x10000,
        ntris == n - 2,
        init.len() >= n,
        forall|t: int| 0 <= t < n ==> #[trigger] init[t] == t,
        tris.len() >= ntris,
        forall|t: int| 0 <= t < ntris - 1 ==> corner_triangle(init, n, #[trigger] tris[t]),
        tris[ntris - 1] == (masked(fin[0]) as u16, masked(fin[1]) as u16, masked(fin[2]) as u16),
        indices_ok(n, fin),
    ensures
        forall|t: int|
            0 <= t < ntris ==> {
                &&& (#[trigger] tris[t]).0 < n
                &&& tris[t].1 < n
                &&& tris[t].2 < n
            },
{
    assert forall|t: int| 0 <= t < ntris implies {
        &&& (#[trigger] tris[t]).0 < n
        &&& tris[t].1 < n
        &&& tris[t].2 < n
    } by {
        if t < ntris - 1 {
            assert(corner_triangle(init, n, tris[t]));
            let (a, b, c) = choose|a: int, b: int, c: int|
                0 <= a < n && 0 <= b < n && 0 <= c < n && a != b && b != c && a != c && tris[t] == (
                    masked(#[trigger] init[a]) as u16,
                    masked(#[trigger] init[b]) as u16,
                    masked(#[trigger] init[c]) as u16,
                );
            lemma_mask_small(init[a]);
            lemma_mask_small(init[b]);
            lemma_mask_small(init[c]);
            lemma_small_u16(init[a]);
            lemma_small_u16(init[b]);
            lemma_small_u16(init[c]);
        } else {
            assert(masked(fin[0]) < n && masked(fin[1]) < n && masked(fin[2]) < n);
            lemma_small_u16(masked(fin[0]));
            lemma_small_u16(masked(fin[1]));
            lemma_small_u16(masked(fin[2]));
        }
    }
}

/// `rem` occurs at most once per slot.
proof fn lemma_occ_le(p: Seq<u16>, base: int, rem: u16, j: int)
    requires
        0 <= j,
    ensures
        0 <= occ_upto(p, base, rem, j) <= j,
    decreases j,
{
    if j > 0 {
        lemma_occ_le(p, base, rem, j - 1);
    }
}

/// `rem` occurs at most `nvp` times in each polygon.
proof fn lemma_touched_le(p: Seq<u16>, nvp: int, rem: u16, n: int)
    requires
        0 <= n,
        0 <= nvp,
    ensures
        0 <= touched_upto(p, nvp, rem, n) <= n * nvp,
    decreases n,
{
    if n > 0 {
        lemma_touched_le(p, nvp, rem, n - 1);
        assert(0 <= poly_base(n - 1, nvp)) by (nonlinear_arith)
            requires
                0 <= n - 1,
                0 <= nvp,
        ;
        lemma_count_from(p, poly_base(n - 1, nvp), 0, nvp);
        lemma_occ_le(p, poly_base(n - 1, nvp), rem, nv_of(p, nvp, n - 1));
        assert((n - 1) * nvp + nvp == n * nvp) by (nonlinear_arith);
    }
}

/// The vertex slots of the first `n` polygons are the same in `p` and `q`.
pub open spec fn same_vertex_slots(p: Seq<u16>, q: Seq<u16>, n: int, nvp: int) -> bool {
    forall|i: int, t: int| 0 <= i < n && 0 <= t < nvp ==> #[trigger] q[poly_base(i, nvp) + t] == p[poly_base(i, nvp) + t]
}

/// Keeping the slots that [`kept_slot`] names keeps every vertex slot.
proof fn lemma_kept_slots(p: Seq<u16>, q: Seq<u16>, n: int, nvp: int)
    requires
        1 <= nvp,
        0 <= n,
        poly_base(n, nvp) <= p.len(),
        p.len() == q.len(),
        forall|x: int| 0 <= x < p.len() && kept_slot(x, n, nvp) ==> #[trigger] q[x] == p[x],
    ensures
        same_vertex_slots(p, q, n, nvp),
{
    assert forall|i: int, t: int| 0 <= i < n && 0 <= t < nvp implies #[trigger] q[poly_base(i, nvp) + t] == p[poly_base(i, nvp) + t] by {
        let b = poly_base(i, nvp);
        assert(b == i * (2 * nvp)) by (nonlinear_arith)
            requires
                b == i * nvp * 2,
        ;
        assert(0 <= b && b + 2 * nvp <= poly_base(n, nvp)) by (nonlinear_arith)
            requires
                b == i * nvp * 2,
                0 <= i < n,
                1 <= nvp,
        ;
        vstd::arithmetic::div_mod::lemma_fundamental_div_mod_converse(b + t, 2 * nvp, i, t);
        assert(kept_slot(b + t, n, nvp));
    }
}

/// Polygons whose vertex slots are the same have the same vertices.
proof fn lemma_same_slots(p: Seq<u16>, q: Seq<u16>, n: int, nvp: int, nverts: int)
    requires
        1 <= nvp,
        0 <= n,
        poly_base(n, nvp) <= p.len(),
        poly_base(n, nvp) <= q.len(),
        same_vertex_slots(p, q, n, nvp),
        vertex_slots_ok(p, n, nvp, nverts),
    ensures
        vertex_slots_ok(q, n, nvp, nverts),
        forall|i: int| 0 <= i < n ==> #[trigger] nv_of(q, nvp, i) == nv_of(p, nvp, i),
{
    assert forall|i: int| 0 <= i < n implies {
        &&& #[trigger] nv_of(q, nvp, i) == nv_of(p, nvp, i)
        &&& forall|j: int| 0 <= j < nv_of(q, nvp, i) ==> #[trigger] vertex_at(q, nvp, i, j) < nverts
    } by {
        let b = poly_base(i, nvp);
        assert(0 <= b && b + 2 * nvp <= poly_base(n, nvp)) by (nonlinear_arith)
            requires
                b == i * nvp * 2,
                0 <= i < n,
                1 <= nvp,
        ;
        assert forall|t: int| 0 <= t < nvp implies #[trigger] q[b + t] == p[b + t] by {
            assert(q[poly_base(i, nvp) + t] == p[poly_base(i, nvp) + t]);
        }
        lemma_packed_same(q, b, p, b, nvp, nverts);
        lemma_count_from(q, b, 0, nvp);
        assert forall|j: int| 0 <= j < nv_of(q, nvp, i) implies #[trigger] vertex_at(q, nvp, i, j) < nverts by {
            assert(q[b + j] == p[b + j]);
            assert(vertex_at(p, nvp, i, j) < nverts);
        }
    }
    assert forall|i: int, j: int|
        0 <= i < n && 0 <= j < poly_vert_count(q, poly_base(i, nvp), nvp) implies #[trigger] vertex_at(q, nvp, i, j) < nverts by {
        assert(nv_of(q, nvp, i) == nv_of(p, nvp, i));
    }
}

/// The first triangle of a contour triangulated from the index list
/// `0, 1, .., n - 1` has three different corners.
proof fn lemma_first_tri_distinct(
    init: Seq<usize>,
    fin: Seq<usize>,
    tris: Seq<(u16, u16, u16)>,
    n: int,
    ntris: int,
)
    requires
        3 <= n < 0x10000,
        ntris == n - 2,
        init.len() >= n,
        forall|t: int| 0 <= t < n ==> #[trigger] init[t] == t,
        tris.len() >= ntris,
        forall|t: int| 0 <= t < ntris - 1 ==> corner_triangle(init, n, #[trigger] tris[t]),
        tris[ntris - 1] == (masked(fin[0]) as u16, masked(fin[1]) as u16, masked(fin[2]) as u16),
        indices_ok(n, fin),
        distinct_upto(3, fin),
    ensures
        tris[0].0 != tris[0].1 && tris[0].0 != tris[0].2 && tris[0].1 != tris[0].2,
{
    if ntris >= 2 {
        assert(corner_triangle(init, n, tris[0]));
        let (a, b, c) = choose|a: int, b: int, c: int|
            0 <= a < n && 0 <= b < n && 0 <= c < n && a != b && b != c && a != c && tris[0] == (
                masked(#[trigger] init[a]) as u16,
                masked(#[trigger] init[b]) as u16,
                masked(#[trigger] init[c]) as u16,
            );
        lemma_mask_small(init[a]);
        lemma_mask_small(init[b]);
        lemma_mask_small(init[c]);
        lemma_small_u16(init[a]);
        lemma_small_u16(init[b]);
        lemma_small_u16(init[c]);
    } else {
        assert(masked(fin[0]) != masked(fin[1]));
        assert(masked(fin[0]) != masked(fin[2]));
        assert(masked(fin[1]) != masked(fin[2]));
        lemma_small_u16(masked(fin[0]));
        lemma_small_u16(masked(fin[1]));
        lemma_small_u16(masked(fin[2]));
    }
}

/// A vector of `n` copies of `v`.
fn filled<T: Copy>(v: T, n: usize) -> (r: Vec<T>)
    ensures
        r@ == Seq::new(n as nat, |i: int| v),
{
    let mut r: Vec<T> = Vec::new();
    let mut k: usize = 0;
    while k < n
        invariant
            k <= n,
            r@ == Seq::new(k as nat, |i: int| v),
        decreases n - k,
    {
        r.push(v);
        k = k + 1;
        proof {
            assert(r@ =~= Seq::new(k as nat, |i: int| v));
        }
    }
    r
}

impl ContourSet {
    /// Builds a polygon mesh from the contours, with at most
    /// `max_vertices_per_polygon` vertices per polygon.
    ///
    /// Each contour of three or more vertices is triangulated, its
    /// vertices are welded into the mesh's vertex list (the same column, at
    /// most 2 apart in height), and its triangles are merged into convex
    /// polygons with the contour's region and area. Vertices on a tile
    /// border are then removed where [`InternalPolygonMesh::can_remove_vertex`]
    /// allows, the polygons are linked to their neighbours, and when the
    /// set has a border, the open edges along the field's sides are marked
    /// as portals. Fails with `TooManyVertices` exactly when the contours
    /// hold more than `0xffff` vertices, and with `InvalidContour` when a
    /// contour cannot be triangulated. When no vertex is marked for
    /// removal, every polygon is built from one contour, whose vertices its
    /// own weld to and whose region and area it carries, and every contour
    /// of three or more vertices yields at least one polygon.
    ///
    /// The contour coordinates must be below `0x8000` so that the cross
    /// products fit in an `i32`, and, once the vertices fit, twice the
    /// polygon slots must fit the 16-bit edge indices and edge counts of
    /// the adjacency and of the vertex removal.
    pub fn into_polygon_mesh(self, max_vertices_per_polygon: usize) -> (r: Result<PolygonMesh, PolygonMeshError>)
        requires
            3 <= max_vertices_per_polygon <= 0x100,
            contour_coords_ok(self.contours@),
            contour_verts(self.contours@, self.contours@.len() as int) <= usize::MAX,
            contour_verts(self.contours@, self.contours@.len() as int) <= 0xffff ==> contour_tris(
                self.contours@,
                self.contours@.len() as int,
            ) * max_vertices_per_polygon * 2 < 0xffff,
        ensures
            (r matches Err(PolygonMeshError::TooManyVertices { actual, max }) && actual == contour_verts(
                self.contours@,
                self.contours@.len() as int,
            ) && max == 0xffff) <==> contour_verts(self.contours@, self.contours@.len() as int) > 0xffff,
            r matches Ok(m) ==> {
                &&& m.vertices_per_polygon == max_vertices_per_polygon
                &&& m.max_polygons == contour_tris(self.contours@, self.contours@.len() as int)
                &&& m.border_size == self.border_size
                &&& m.regions@.len() == contour_tris(self.contours@, self.contours@.len() as int)
                &&& m.areas@.len() == contour_tris(self.contours@, self.contours@.len() as int)
                &&& m.flags@.len() <= contour_tris(self.contours@, self.contours@.len() as int)
                &&& forall|k: int| 0 <= k < m.flags@.len() ==> m.flags@[k] == 0
                &&& m.polygons@.len() == m.flags@.len() * max_vertices_per_polygon * 2
                &&& m.vertices@.len() <= contour_verts(self.contours@, self.contours@.len() as int)
                &&& forall|k: int| 0 <= k < m.vertices@.len() ==> #[trigger] contour_vertex(self.contours@, m.vertices@[k])
                &&& vertex_slots_ok(m.polygons@, m.flags@.len() as int, max_vertices_per_polygon as int, m.vertices@.len() as int)
                &&& forall|i: int|
                    0 <= i < m.flags@.len() ==> 3 <= #[trigger] nv_of(m.polygons@, max_vertices_per_polygon as int, i)
                &&& no_border_vertices(self.contours@) ==> forall|c: int|
                    0 <= c < self.contours@.len() && self.contours@[c].vertices@.len() >= 3 ==> #[trigger] contour_covered(
                        self.contours@,
                        c,
                        m.vertices@,
                        m.polygons@,
                        m.regions@,
                        m.areas@,
                        max_vertices_per_polygon as int,
                        m.flags@.len() as int,
                    )
                &&& no_border_vertices(self.contours@) ==> forall|p: int|
                    0 <= p < m.flags@.len() ==> #[trigger] from_some_contour(
                        self.contours@,
                        m.vertices@,
                        m.polygons@,
                        m.regions@,
                        m.areas@,
                        max_vertices_per_polygon as int,
                        p,
                    )
            },
    {
        let nvp = max_vertices_per_polygon;
        let ghost cs = self.contours@;
        let ghost nc = cs.len() as int;
        let mut max_vertices: usize = 0;
        let mut max_tris: usize = 0;
        let mut longest: usize = 0;
        let mut c: usize = 0;
        while c < self.contours.len()
            invariant
                cs == self.contours@,
                nc == cs.len(),
                c <= nc,
                max_vertices == contour_verts(cs, c as int),
                max_tris == contour_tris(cs, c as int),
                contour_verts(cs, nc) <= usize::MAX,
                longest <= max_vertices,
                forall|k: int| 0 <= k < c && cs[k].vertices@.len() >= 3 ==> #[trigger] cs[k].vertices@.len() <= longest,
            decreases nc - c,
        {
            let n = self.contours[c].vertices.len();
            proof {
                lemma_totals_mono(cs, c as int + 1, nc);
                lemma_totals_mono(cs, c as int, c as int);
            }
            if n >= 3 {
                max_vertices = max_vertices + n;
                max_tris = max_tris + (n - 2);
                if n > longest {
                    longest = n;
                }
            }
            c = c + 1;
        }
        if max_vertices > 0xffff {
            return Err(PolygonMeshError::TooManyVertices { actual: max_vertices, max: 0xffff });
        }
        proof {
            lemma_totals_mono(cs, nc, nc);
            assert(max_tris * nvp * 2 < 0xffff);
            assert(max_tris * nvp <= max_tris * nvp * 2) by (nonlinear_arith)
                requires
                    0 <= max_tris * nvp,
            ;
        }
        let mut vflags: Vec<bool> = filled(false, max_vertices);
        let mut first_vert: Vec<Option<u16>> = filled(None, 0x1000);
        let mut next_vert: Vec<Option<u16>> = filled(None, max_vertices);
        let mut indices: Vec<usize> = filled(0, longest);
        let mut tris: Vec<(u16, u16, u16)> = filled((0, 0, 0), longest);
        let mut mesh = InternalPolygonMesh {
            vertices: filled(MeshVertex { x: 0, y: 0, z: 0 }, max_vertices),
            nvertices: 0,
            polygons: filled(0xffff, max_tris * nvp * 2),
            npolys: 0,
            regions: filled(RegionId { bits: 0 }, max_tris),
            flags: Vec::new(),
            areas: filled(AreaType(0), max_tris),
            max_polygons: max_tris,
            vertices_per_polygon: nvp,
            border_size: self.border_size,
        };
        let mut c: usize = 0;
        while c < self.contours.len()
            invariant
                cs == self.contours@,
                nc == cs.len(),
                c <= nc,
                contour_coords_ok(cs),
                max_vertices == contour_verts(cs, nc),
                max_vertices <= 0xffff,
                max_tris == contour_tris(cs, nc),
                max_tris * nvp * 2 < 0xffff,
                forall|k: int| 0 <= k < nc && cs[k].vertices@.len() >= 3 ==> #[trigger] cs[k].vertices@.len() <= longest,
                indices@.len() == longest,
                tris@.len() == longest,
                vflags@.len() == max_vertices,
                first_vert@.len() == 0x1000,
                next_vert@.len() == max_vertices,
                mesh.vertices@.len() == max_vertices,
                weld_chains_ok(mesh.vertices@, first_vert@, next_vert@, mesh.nvertices as int),
                mesh.nvertices <= contour_verts(cs, c as int),
                forall|k: int| 0 <= k < mesh.nvertices ==> #[trigger] contour_vertex(cs, mesh.vertices@[k]),
                forall|k: int| 0 <= k < max_vertices ==> (#[trigger] mesh.vertices@[k]).x < 0x8000 && mesh.vertices@[k].z < 0x8000,
                mesh.vertices_per_polygon == nvp,
                3 <= nvp <= 0x100,
                mesh.max_polygons == max_tris,
                mesh.border_size == self.border_size,
                mesh.flags@.len() == 0,
                mesh.polygons@.len() == max_tris * nvp * 2,
                mesh.regions@.len() == max_tris,
                mesh.areas@.len() == max_tris,
                mesh.npolys <= contour_tris(cs, c as int),
                vertex_slots_ok(mesh.polygons@, mesh.npolys as int, nvp as int, mesh.nvertices as int),
                forall|i: int| 0 <= i < mesh.npolys ==> 3 <= #[trigger] nv_of(mesh.polygons@, nvp as int, i),
            forall|p: int|
                0 <= p < mesh.npolys ==> #[trigger] from_some_contour(
                    cs,
                    mesh.vertices@,
                    mesh.polygons@,
                    mesh.regions@,
                    mesh.areas@,
                    nvp as int,
                    p,
                ),
            no_border_vertices(cs) ==> forall|k: int| 0 <= k < max_vertices ==> !#[trigger] vflags@[k],
            forall|c2: int|
                0 <= c2 < c && cs[c2].vertices@.len() >= 3 ==> #[trigger] contour_covered(
                    cs,
                    c2,
                    mesh.vertices@,
                    mesh.polygons@,
                    mesh.regions@,
                    mesh.areas@,
                    nvp as int,
                    mesh.npolys as int,
                ),
            decreases nc - c,
        {
            proof {
                lemma_totals_mono(cs, c as int + 1, nc);
                lemma_totals_mono(cs, c as int, c as int + 1);
            }
            let n = self.contours[c].vertices.len();
            if n < 3 {
                c = c + 1;
                continue;
            }
            // Triangulate the contour.
            let mut j: usize = 0;
            while j < n
                invariant
                    j <= n,
                    n <= longest,
                    indices@.len() == longest,
                    forall|t: int| 0 <= t < j ==> #[trigger] indices@[t] == t,
                decreases n - j,
            {
                indices.set(j, j);
                j = j + 1;
            }
            let ghost init = indices@;
            proof {
                assert forall|a: int, b: int, k: int|
                    0 <= a < n && 0 <= b < n && 0 <= k < n implies #[trigger] area2_fits(
                    cs[c as int].vertices@[a].0,
                    cs[c as int].vertices@[b].0,
                    cs[c as int].vertices@[k].0,
                ) by {
                    assert(cs[c as int].vertices@[a].0.x < 0x8000);
                    assert(cs[c as int].vertices@[b].0.x < 0x8000);
                    assert(cs[c as int].vertices@[k].0.x < 0x8000);
                    lemma_small_fit(cs[c as int].vertices@[a].0, cs[c as int].vertices@[b].0, cs[c as int].vertices@[k].0);
                }
                assert(contour_area2_fit(cs[c as int].vertices@));
                assert forall|k: int| 0 <= k < n implies (#[trigger] masked(init[k])) < n by {
                    lemma_mask_small(init[k]);
                }
            }
            let ntris = match triangulate(&self.contours[c].vertices, &mut indices, &mut tris) {
                Ok(count) => count,
                Err(e) => {
                    return Err(e);
                },
            };
            proof {
                lemma_contour_tris(init, indices@, tris@, n as int, ntris as int);
                assert(distinct_upto(n as int, init)) by {
                    assert forall|a: int, b: int| 0 <= a < n && 0 <= b < n && a != b implies masked(#[trigger] init[a]) != masked(
                        #[trigger] init[b],
                    ) by {
                        lemma_mask_small(init[a]);
                        lemma_mask_small(init[b]);
                    }
                }
                lemma_first_tri_distinct(init, indices@, tris@, n as int, ntris as int);
            }
            // Add and merge vertices.
            let mut welded: Vec<u16> = Vec::new();
            let ghost nv_start = mesh.nvertices as int;
            let ghost snap = mesh;
            let mut j: usize = 0;
            while j < n
                invariant
                    mesh == (InternalPolygonMesh { vertices: mesh.vertices, nvertices: mesh.nvertices, ..snap }),
                    cs == self.contours@,
                    nc == cs.len(),
                    c < nc,
                    n == cs[c as int].vertices@.len(),
                    contour_coords_ok(cs),
                    j <= n,
                    welded@.len() == j,
                    mesh.nvertices <= nv_start + j,
                    nv_start + n <= max_vertices,
                    max_vertices <= 0xffff,
                    nv_start <= mesh.nvertices,
                    forall|t: int| 0 <= t < j ==> (#[trigger] welded@[t]) < mesh.nvertices,
                    vflags@.len() == max_vertices,
                    first_vert@.len() == 0x1000,
                    next_vert@.len() == max_vertices,
                    mesh.vertices@.len() == max_vertices,
                    weld_chains_ok(mesh.vertices@, first_vert@, next_vert@, mesh.nvertices as int),
                    forall|k: int| 0 <= k < max_vertices ==> (#[trigger] mesh.vertices@[k]).x < 0x8000 && mesh.vertices@[k].z < 0x8000,
                    forall|k: int| 0 <= k < mesh.nvertices ==> #[trigger] contour_vertex(cs, mesh.vertices@[k]),
                    nv_start == snap.nvertices,
                    forall|k: int| 0 <= k < nv_start ==> #[trigger] mesh.vertices@[k] == snap.vertices@[k],
                    forall|t: int|
                        0 <= t < j ==> welds_to(mesh.vertices@[(#[trigger] welded@[t]) as int], cs[c as int].vertices@[t].0),
                    no_border_vertices(cs) ==> forall|k: int| 0 <= k < max_vertices ==> !#[trigger] vflags@[k],
                decreases n - j,
            {
                let (v, flags) = self.contours[c].vertices[j];
                proof {
                    assert(cs[c as int].vertices@[j as int].0.x < 0x8000);
                }
                let ghost vb = mesh.vertices@;
                let ghost nvb = mesh.nvertices as int;
                let idx = add_vertex(v, &mut mesh.vertices, &mut first_vert, &mut next_vert, &mut mesh.nvertices);
                proof {
                    assert(v == cs[c as int].vertices@[j as int].0);
                    assert(contour_vertex(cs, v));
                    assert forall|k: int| 0 <= k < mesh.nvertices implies #[trigger] contour_vertex(cs, mesh.vertices@[k]) by {
                        if k < nvb {
                            assert(contour_vertex(cs, vb[k]));
                        } else {
                            assert(mesh.vertices@[k] == v);
                        }
                    }
                    assert forall|k: int| 0 <= k < max_vertices implies (#[trigger] mesh.vertices@[k]).x < 0x8000
                        && mesh.vertices@[k].z < 0x8000 by {
                        assert(vb[k].x < 0x8000 && vb[k].z < 0x8000);
                    }
                    assert(welds_to(mesh.vertices@[idx as int], v));
                    assert forall|k: int| 0 <= k < nv_start implies #[trigger] mesh.vertices@[k] == snap.vertices@[k] by {
                        assert(mesh.vertices@[k] == vb[k]);
                    }
                }
                let ghost wb = welded@;
                welded.push(idx);
                proof {
                    assert forall|t: int| 0 <= t < j + 1 implies welds_to(
                        mesh.vertices@[(#[trigger] welded@[t]) as int],
                        cs[c as int].vertices@[t].0,
                    ) by {
                        if t < j {
                            assert(welded@[t] == wb[t]);
                            assert(welds_to(vb[wb[t] as int], cs[c as int].vertices@[t].0));
                            assert(mesh.vertices@[wb[t] as int] == vb[wb[t] as int]);
                        }
                    }
                    if no_border_vertices(cs) {
                        assert((cs[c as int].vertices@[j as int]).1 & 0x10000usize == 0usize);
                    }
                }
                if flags & 0x10000usize != 0 {
                    // This vertex should be removed.
                    vflags.set(idx as usize, true);
                }
                j = j + 1;
            }
            proof {
                assert forall|i: int, t: int| 0 <= i < mesh.npolys && 0 <= t < nvp implies #[trigger] mesh.polygons@[poly_base(
                    i,
                    nvp as int,
                ) + t] == snap.polygons@[poly_base(i, nvp as int) + t] by {
                }
                assert forall|p: int| 0 <= p < mesh.npolys implies #[trigger] mesh.regions@[p] == snap.regions@[p] && mesh.areas@[p]
                    == snap.areas@[p] by {
                }
                assert(poly_base(mesh.npolys as int, nvp as int) <= poly_base(max_tris as int, nvp as int)) by (nonlinear_arith)
                    requires
                        mesh.npolys <= max_tris,
                ;
                lemma_from_contour_kept(
                    cs,
                    snap.vertices@,
                    snap.polygons@,
                    snap.regions@,
                    snap.areas@,
                    mesh.vertices@,
                    mesh.polygons@,
                    mesh.regions@,
                    mesh.areas@,
                    mesh.npolys as int,
                    nvp as int,
                    nv_start,
                );
                lemma_slots_grow(mesh.polygons@, mesh.npolys as int, nvp as int, nv_start, mesh.nvertices as int);
                assert((ntris + 1) * nvp <= 0x10000 * 0x100) by (nonlinear_arith)
                    requires
                        ntris + 1 <= 0x10000,
                        nvp <= 0x100,
                ;
            }
            // Build initial polygons.
            let mut dummy_reg: Vec<RegionId> = filled(RegionId { bits: 0 }, n);
            let mut dummy_area: Vec<AreaType> = filled(AreaType(0), n);
            let (mut polys, mut pregs, mut pareas, np) = hole_polygons(
                &welded,
                &dummy_reg,
                &dummy_area,
                n,
                &tris,
                ntris,
                nvp,
                mesh.nvertices,
            );
            proof {
                assert(tris@[0].0 != tris@[0].1 && tris@[0].0 != tris@[0].2 && tris@[0].1 != tris@[0].2);
                assert(np >= 1);
            }
            if np == 0 {
                c = c + 1;
                continue;
            }
            // Merge polygons.
            let ghost vw = mesh.vertices@;
            let ghost nvw = mesh.nvertices as int;
            let ghost good = |v: u16| (v as int) < nvw && welds_into(cs, c as int, vw[v as int]);
            proof {
                lemma_all_small_fit(mesh.vertices@);
                assert forall|jp: int| 0 <= jp < np implies #[trigger] vals_ok(
                    polys@,
                    jp * nvp,
                    packed_count(polys@, nvp as int, jp),
                    good,
                ) by {
                    assert(from_triangles(polys@, pregs@, pareas@, jp, nvp as int, welded@, dummy_reg@, dummy_area@, tris@, ntris as int));
                    let t = choose|t: int|
                        0 <= t < ntris && triangle_polygon(
                            polys@,
                            pregs@,
                            pareas@,
                            jp,
                            nvp as int,
                            welded@,
                            dummy_reg@,
                            dummy_area@,
                            #[trigger] tris@[t],
                        );
                    let tr = tris@[t];
                    let m = seq![welded@[tr.0 as int], welded@[tr.1 as int], welded@[tr.2 as int]];
                    lemma_packed_order(jp, np as int + 1, nvp as int);
                    assert(polys@.subrange(jp * nvp, jp * nvp + nvp) == padded(m, nvp as int));
                    assert forall|q: int| 0 <= q < nvp implies polys@[jp * nvp + q] == padded(m, nvp as int)[q] by {
                        assert(polys@.subrange(jp * nvp, jp * nvp + nvp)[q] == polys@[jp * nvp + q]);
                    }
                    assert(welded@[tr.0 as int] < mesh.nvertices);
                    assert(welded@[tr.1 as int] < mesh.nvertices);
                    assert(welded@[tr.2 as int] < mesh.nvertices);
                    lemma_count_padded(polys@, jp * nvp, m, nvp as int, 0);
                    assert forall|x: int| jp * nvp <= x < jp * nvp + packed_count(polys@, nvp as int, jp) implies good(
                        #[trigger] polys@[x],
                    ) by {
                        let q = x - jp * nvp;
                        assert(polys@[jp * nvp + q] == padded(m, nvp as int)[q]);
                        assert(padded(m, nvp as int)[q] == m[q]);
                        assert(polys@[x] == m[q]);
                        let w = if q == 0 { tr.0 as int } else if q == 1 { tr.1 as int } else { tr.2 as int };
                        assert(m[q] == welded@[w]);
                        assert(welds_to(vw[welded@[w] as int], cs[c as int].vertices@[w].0));
                        assert(welds_into(cs, c as int, vw[welded@[w] as int]));
                    }
                }
            }
            let np = merge_hole_polygons(
                &mut polys,
                &mut pregs,
                &mut pareas,
                np,
                ntris,
                nvp,
                &mesh.vertices,
                mesh.nvertices,
                Ghost(good),
            );
            // Store polygons.
            let region = self.contours[c].region;
            let area = self.contours[c].area;
            let ghost npolys_start = mesh.npolys as int;
            let ghost vs = mesh.vertices@;
            let ghost nvs = mesh.nvertices;
            let mut j: usize = 0;
            while j < np
                invariant
                    mesh.vertices@ == vs,
                    mesh.nvertices == nvs,
                    j <= np,
                    np <= ntris,
                    ntris == n - 2,
                    npolys_start + ntris <= max_tris,
                    mesh.npolys == npolys_start + j,
                    polys@.len() == (ntris + 1) * nvp,
                    (ntris + 1) * nvp <= 0x10000 * 0x100,
                    packed_ok(polys@, np as int, nvp as int, mesh.nvertices as int),
                    mesh.vertices_per_polygon == nvp,
                    3 <= nvp <= 0x100,
                    mesh.max_polygons == max_tris,
                    mesh.border_size == self.border_size,
                    mesh.flags@.len() == 0,
                    mesh.vertices@.len() == max_vertices,
                    mesh.polygons@.len() == max_tris * nvp * 2,
                    mesh.regions@.len() == max_tris,
                    mesh.areas@.len() == max_tris,
                    vertex_slots_ok(mesh.polygons@, mesh.npolys as int, nvp as int, mesh.nvertices as int),
                    forall|i: int| 0 <= i < mesh.npolys ==> 3 <= #[trigger] nv_of(mesh.polygons@, nvp as int, i),
                    all_vals_ok(polys@, np as int, nvp as int, good),
                    forall|v: u16| #[trigger] good(v) ==> welds_into(cs, c as int, vs[v as int]),
                    0 <= c < cs.len(),
                    cs[c as int].vertices@.len() >= 3,
                    region == cs[c as int].region,
                    area == cs[c as int].area,
                    forall|p: int|
                        0 <= p < mesh.npolys ==> #[trigger] from_some_contour(
                            cs,
                            vs,
                            mesh.polygons@,
                            mesh.regions@,
                            mesh.areas@,
                            nvp as int,
                            p,
                        ),
                    forall|c2: int|
                        0 <= c2 < c && cs[c2].vertices@.len() >= 3 ==> #[trigger] contour_covered(
                            cs,
                            c2,
                            vs,
                            mesh.polygons@,
                            mesh.regions@,
                            mesh.areas@,
                            nvp as int,
                            mesh.npolys as int,
                        ),
                    j > 0 ==> contour_covered(cs, c as int, vs, mesh.polygons@, mesh.regions@, mesh.areas@, nvp as int, mesh.npolys as int),
                    1 <= np,
                decreases np - j,
            {
                proof {
                    lemma_packed_order(j as int, np as int + 1, nvp as int);
                    assert(3 <= packed_count(polys@, nvp as int, j as int));
                    assert(poly_base(mesh.npolys + 1, nvp as int) <= poly_base(max_tris as int, nvp as int)) by (nonlinear_arith)
                        requires
                            mesh.npolys + 1 <= max_tris,
                            0 <= nvp,
                    ;
                }
                let ghost pb = mesh.polygons@;
                let ghost rb = mesh.regions@;
                let ghost ab = mesh.areas@;
                let ghost nb = mesh.npolys as int;
                mesh.append_polygon(&polys, j * nvp, region, area);
                proof {
                    let pn = mesh.polygons@;
                    let base = poly_base(nb, nvp as int);
                    lemma_poly_in(nb, nb + 1, nvp as int);
                    assert forall|i: int, t: int| 0 <= i < nb && 0 <= t < nvp implies #[trigger] pn[poly_base(i, nvp as int) + t]
                        == pb[poly_base(i, nvp as int) + t] by {
                        lemma_poly_in(i, nb, nvp as int);
                    }
                    assert forall|p: int| 0 <= p < nb implies #[trigger] mesh.regions@[p] == rb[p] && mesh.areas@[p] == ab[p] by {
                    }
                    lemma_from_contour_kept(
                        cs,
                        vs,
                        pb,
                        rb,
                        ab,
                        vs,
                        pn,
                        mesh.regions@,
                        mesh.areas@,
                        nb,
                        nvp as int,
                        nvs as int,
                    );
                    // The new polygon.
                    assert forall|t: int| 0 <= t < nvp implies #[trigger] pn[base + t] == polys@[j * nvp + t] by {
                        assert(padded(polys@.subrange(j * nvp, j * nvp + nvp), 2 * nvp)[t] == polys@[j * nvp + t]);
                    }
                    assert(vals_ok(polys@, j * nvp, packed_count(polys@, nvp as int, j as int), good));
                    lemma_packed_vals_same(pn, base, polys@, j * nvp, nvp as int, good);
                    assert forall|jj: int| 0 <= jj < nv_of(pn, nvp as int, nb) implies welds_into(
                        cs,
                        c as int,
                        vs[#[trigger] vertex_at(pn, nvp as int, nb, jj) as int],
                    ) by {
                        assert(good(pn[base + jj]));
                    }
                    assert(built_from(cs, c as int, vs, pn, mesh.regions@, mesh.areas@, nvp as int, nb));
                    assert(contour_covered(cs, c as int, vs, pn, mesh.regions@, mesh.areas@, nvp as int, nb + 1));
                    assert forall|p: int| 0 <= p < mesh.npolys implies #[trigger] from_some_contour(
                        cs,
                        vs,
                        pn,
                        mesh.regions@,
                        mesh.areas@,
                        nvp as int,
                        p,
                    ) by {
                        if p == nb {
                            assert(built_from(cs, c as int, vs, pn, mesh.regions@, mesh.areas@, nvp as int, nb));
                        }
                    }
                }
                if mesh.npolys > max_tris {
                    return Err(PolygonMeshError::TooManyPolygons { actual: mesh.npolys, max: max_tris });
                }
                j = j + 1;
            }
            c = c + 1;
        }
        // Remove edge vertices.
        proof {
            lemma_all_small_fit(mesh.vertices@);
            assert(max_tris * nvp < 0xffff);
        }
        let mut i: usize = 0;
        while i < mesh.nvertices as usize
            invariant
                mesh.vertices_per_polygon == nvp,
                3 <= nvp <= 0x100,
                mesh.max_polygons == max_tris,
                mesh.border_size == self.border_size,
                mesh.flags@.len() == 0,
                mesh.vertices@.len() == max_vertices,
                mesh.nvertices <= max_vertices,
                max_vertices <= 0xffff,
                all_area2_fit(mesh.vertices@),
                mesh.polygons@.len() == max_tris * nvp * 2,
                mesh.regions@.len() == max_tris,
                mesh.areas@.len() == max_tris,
                mesh.npolys <= max_tris,
                max_tris * nvp * 2 < 0xffff,
                max_tris * nvp < 0xffff,
                vertex_slots_ok(mesh.polygons@, mesh.npolys as int, nvp as int, mesh.nvertices as int),
                forall|i2: int| 0 <= i2 < mesh.npolys ==> 3 <= #[trigger] nv_of(mesh.polygons@, nvp as int, i2),
                vflags@.len() == max_vertices,
                cs == self.contours@,
                nc == cs.len(),
                max_vertices == contour_verts(cs, nc),
                forall|k: int| 0 <= k < mesh.nvertices ==> #[trigger] contour_vertex(cs, mesh.vertices@[k]),
                no_border_vertices(cs) ==> forall|k: int| 0 <= k < max_vertices ==> !#[trigger] vflags@[k],
                no_border_vertices(cs) ==> forall|p: int|
                    0 <= p < mesh.npolys ==> #[trigger] from_some_contour(
                        cs,
                        mesh.vertices@,
                        mesh.polygons@,
                        mesh.regions@,
                        mesh.areas@,
                        nvp as int,
                        p,
                    ),
                no_border_vertices(cs) ==> forall|c2: int|
                    0 <= c2 < nc && cs[c2].vertices@.len() >= 3 ==> #[trigger] contour_covered(
                        cs,
                        c2,
                        mesh.vertices@,
                        mesh.polygons@,
                        mesh.regions@,
                        mesh.areas@,
                        nvp as int,
                        mesh.npolys as int,
                    ),
            decreases mesh.nvertices - i,
        {
            if !vflags[i] {
                i = i + 1;
                continue;
            }
            let rem = i as u16;
            proof {
                assert(!no_border_vertices(cs));
                assert(rem as int == i);
                lemma_all_pairs_len(mesh.polygons@, nvp as int, rem, mesh.npolys as int);
                lemma_touched_le(mesh.polygons@, nvp as int, rem, mesh.npolys as int);
                assert(mesh.npolys * nvp <= max_tris * nvp) by (nonlinear_arith)
                    requires
                        mesh.npolys <= max_tris,
                ;
                assert(poly_base(mesh.npolys as int, nvp as int) <= poly_base(max_tris as int, nvp as int)) by (nonlinear_arith)
                    requires
                        mesh.npolys <= max_tris,
                ;
                assert forall|i2: int| 0 <= i2 < mesh.npolys implies #[trigger] nv_of(mesh.polygons@, nvp as int, i2) >= 1 by {
                    assert(3 <= nv_of(mesh.polygons@, nvp as int, i2));
                }
            }
            if !mesh.can_remove_vertex(rem) {
                i = i + 1;
                continue;
            }
            proof {
                assert(max_tris <= max_tris * nvp) by (nonlinear_arith)
                    requires
                        1 <= nvp,
                ;
                assert((mesh.npolys * nvp + 2) * nvp <= 0x10001 * 0x100) by (nonlinear_arith)
                    requires
                        mesh.npolys * nvp < 0xffff,
                        nvp <= 0x100,
                ;
            }
            let ghost vbr = mesh.vertices@;
            match mesh.remove_vertex(rem, max_tris) {
                Ok(()) => {},
                Err(e) => {
                    return Err(e);
                },
            }
            proof {
                assert forall|k: int| 0 <= k < mesh.nvertices implies #[trigger] contour_vertex(cs, mesh.vertices@[k]) by {
                    let k0 = if k < rem { k } else { k + 1 };
                    assert(mesh.vertices@[k] == vbr[k0]);
                    assert(contour_vertex(cs, vbr[k0]));
                }
            }
            // Fix up the vertex flags.
            let nv = mesh.nvertices as usize;
            let mut j: usize = i;
            while j < nv
                invariant
                    i <= j <= nv,
                    nv + 1 <= max_vertices,
                    vflags@.len() == max_vertices,
                decreases nv - j,
            {
                let f = vflags[j + 1];
                vflags.set(j, f);
                j = j + 1;
            }
        }
        // Calculate adjacency.
        proof {
            assert(mesh.npolys * nvp <= max_tris * nvp) by (nonlinear_arith)
                requires
                    mesh.npolys <= max_tris,
            ;
            assert(poly_base(mesh.npolys as int, nvp as int) <= poly_base(max_tris as int, nvp as int)) by (nonlinear_arith)
                requires
                    mesh.npolys <= max_tris,
            ;
        }
        let ghost before_adj = mesh.polygons@;
        match mesh.build_mesh_adjacency() {
            Ok(()) => {},
            Err(e) => {
                return Err(e);
            },
        }
        proof {
            lemma_kept_slots(before_adj, mesh.polygons@, mesh.npolys as int, nvp as int);
            lemma_same_slots(before_adj, mesh.polygons@, mesh.npolys as int, nvp as int, mesh.nvertices as int);
            if no_border_vertices(cs) {
                lemma_from_contour_kept(
                    cs,
                    mesh.vertices@,
                    before_adj,
                    mesh.regions@,
                    mesh.areas@,
                    mesh.vertices@,
                    mesh.polygons@,
                    mesh.regions@,
                    mesh.areas@,
                    mesh.npolys as int,
                    nvp as int,
                    mesh.nvertices as int,
                );
            }
        }
        let ghost adjacent = mesh.polygons@;
        // Find portal edges.
        if self.border_size > 0 {
            let w = self.width;
            let h = self.height;
            let ghost before = mesh.polygons@;
            let ghost snap = mesh;
            let mut i: usize = 0;
            while i < mesh.npolys
                invariant
                    mesh == (InternalPolygonMesh { polygons: mesh.polygons, ..snap }),
                    mesh.polygons@.len() == before.len(),
                    before.len() <= usize::MAX,
                    poly_base(mesh.npolys as int, nvp as int) <= before.len(),
                    mesh.vertices_per_polygon == nvp,
                    3 <= nvp <= 0x100,
                    mesh.nvertices <= mesh.vertices@.len(),
                    vertex_slots_ok(before, mesh.npolys as int, nvp as int, mesh.nvertices as int),
                    i <= mesh.npolys,
                    forall|q: int| poly_base(i as int, nvp as int) <= q < before.len() ==> #[trigger] mesh.polygons@[q] == before[q],
                    forall|q: int| 0 <= q < before.len() && kept_slot(q, mesh.npolys as int, nvp as int) ==> #[trigger] mesh.polygons@[q] == before[q],
                decreases mesh.npolys - i,
            {
                proof {
                    assert(poly_base(i as int, nvp as int) + 2 * nvp <= poly_base(mesh.npolys as int, nvp as int)) by (nonlinear_arith)
                        requires
                            i < mesh.npolys,
                    ;
                    assert(poly_base(i as int + 1, nvp as int) == poly_base(i as int, nvp as int) + 2 * nvp) by (nonlinear_arith);
                    lemma_count_from(before, poly_base(i as int, nvp as int), 0, nvp as int);
                }
                let base = i * nvp * 2;
                proof {
                    assert(base == i * (2 * nvp)) by (nonlinear_arith)
                        requires
                            base == i * nvp * 2,
                    ;
                }
                let ghost before_i = mesh.polygons@;
                let mut j: usize = 0;
                while j < nvp
                    invariant
                        mesh == (InternalPolygonMesh { polygons: mesh.polygons, ..snap }),
                        mesh.polygons@.len() == before.len(),
                        before.len() <= usize::MAX,
                        base == poly_base(i as int, nvp as int),
                        base + 2 * nvp <= before.len(),
                        mesh.nvertices <= mesh.vertices@.len(),
                        vertex_slots_ok(before, mesh.npolys as int, nvp as int, mesh.nvertices as int),
                        i < mesh.npolys,
                        j <= nvp,
                        forall|q: int| base <= q < before.len() ==> #[trigger] before_i[q] == before[q],
                        forall|q: int|
                            0 <= q < before.len() && !(base + nvp <= q < base + 2 * nvp) ==> #[trigger] mesh.polygons@[q] == before_i[q],
                        forall|t: int| 0 <= t < j ==> #[trigger] before[base + t] != 0xffff,
                        forall|q: int| 0 <= q < before.len() && kept_slot(q, mesh.npolys as int, nvp as int) ==> #[trigger] before_i[q] == before[q],
                        base + 2 * nvp <= poly_base(mesh.npolys as int, nvp as int),
                        base == i * (2 * nvp),
                        3 <= nvp,
                    decreases nvp - j,
                {
                    if mesh.polygons[base + j] == 0xffff {
                        break;
                    }
                    // Skip connected edges.
                    if mesh.polygons[base + nvp + j] != 0xffff {
                        j = j + 1;
                        continue;
                    }
                    let nj = if j + 1 >= nvp || mesh.polygons[base + j + 1] == 0xffff {
                        0
                    } else {
                        j + 1
                    };
                    proof {
                        lemma_count_from(before, base as int, 0, nvp as int);
                        let cnt = poly_vert_count(before, base as int, nvp as int);
                        assert(j < cnt);
                        assert(vertex_at(before, nvp as int, i as int, j as int) < mesh.nvertices);
                        assert(nj < cnt);
                        assert(vertex_at(before, nvp as int, i as int, nj as int) < mesh.nvertices);
                    }
                    proof {
                        vstd::arithmetic::div_mod::lemma_fundamental_div_mod_converse(
                            base + nvp + j,
                            2 * nvp as int,
                            i as int,
                            nvp + j,
                        );
                        assert(!kept_slot(base + nvp + j, mesh.npolys as int, nvp as int));
                    }
                    let va = mesh.vertices[mesh.polygons[base + j] as usize];
                    let vb = mesh.vertices[mesh.polygons[base + nj] as usize];
                    if va.x == 0 && vb.x == 0 {
                        mesh.polygons.set(base + nvp + j, 0x8000);
                    } else if va.z == h && vb.z == h {
                        mesh.polygons.set(base + nvp + j, 0x8000 | 1);
                    } else if va.x == w && vb.x == w {
                        mesh.polygons.set(base + nvp + j, 0x8000 | 2);
                    } else if va.z == 0 && vb.z == 0 {
                        mesh.polygons.set(base + nvp + j, 0x8000 | 3);
                    }
                    j = j + 1;
                }
                proof {
                    assert forall|q: int|
                        0 <= q < before.len() && kept_slot(q, mesh.npolys as int, nvp as int) implies #[trigger] mesh.polygons@[q]
                        == before[q] by {
                        if base + nvp <= q < base + 2 * nvp {
                            vstd::arithmetic::div_mod::lemma_fundamental_div_mod_converse(q, 2 * nvp as int, i as int, q - base);
                        }
                    }
                }
                i = i + 1;
            }
        }
        proof {
            lemma_kept_slots(adjacent, mesh.polygons@, mesh.npolys as int, nvp as int);
            lemma_same_slots(adjacent, mesh.polygons@, mesh.npolys as int, nvp as int, mesh.nvertices as int);
            if no_border_vertices(cs) {
                lemma_from_contour_kept(
                    cs,
                    mesh.vertices@,
                    adjacent,
                    mesh.regions@,
                    mesh.areas@,
                    mesh.vertices@,
                    mesh.polygons@,
                    mesh.regions@,
                    mesh.areas@,
                    mesh.npolys as int,
                    nvp as int,
                    mesh.nvertices as int,
                );
            }
        }
        // The flags are left for the user to fill.
        mesh.flags = filled(0u16, mesh.npolys);
        proof {
            assert(mesh.npolys * nvp * 2 <= max_tris * nvp * 2) by (nonlinear_arith)
                requires
                    mesh.npolys <= max_tris,
            ;
        }
        let npolys = mesh.npolys;
        let nverts = mesh.nvertices as usize;
        let ghost fullp = mesh.polygons@;
        let ghost fullv = mesh.vertices@;
        let mut polygons = mesh.polygons;
        polygons.truncate(npolys * nvp * 2);
        let mut vertices = mesh.vertices;
        vertices.truncate(nverts);
        proof {
            assert forall|i: int, t: int| 0 <= i < npolys && 0 <= t < nvp implies #[trigger] polygons@[poly_base(i, nvp as int) + t]
                == fullp[poly_base(i, nvp as int) + t] by {
                assert(poly_base(i, nvp as int) + nvp <= poly_base(npolys as int, nvp as int)) by (nonlinear_arith)
                    requires
                        0 <= i < npolys,
                        3 <= nvp,
                ;
                assert(0 <= poly_base(i, nvp as int)) by (nonlinear_arith)
                    requires
                        0 <= i,
                        3 <= nvp,
                ;
            }
            lemma_same_slots(fullp, polygons@, npolys as int, nvp as int, nverts as int);
            if no_border_vertices(cs) {
                lemma_from_contour_kept(
                    cs,
                    fullv,
                    fullp,
                    mesh.regions@,
                    mesh.areas@,
                    vertices@,
                    polygons@,
                    mesh.regions@,
                    mesh.areas@,
                    npolys as int,
                    nvp as int,
                    nverts as int,
                );
            }
        }
        Ok(
            PolygonMesh {
                vertices,
                polygons,
                regions: mesh.regions,
                flags: mesh.flags,
                areas: mesh.areas,
                max_polygons: mesh.max_polygons,
                vertices_per_polygon: mesh.vertices_per_polygon,
                border_size: mesh.border_size,
            },
        )
    }
}

} // verus!
