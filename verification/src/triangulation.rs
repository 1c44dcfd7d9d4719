//! Ear-clipping triangulation of a contour polygon.
//!
//! The polygon is a cyclic list of indices into the contour vertices; the
//! top bit of an index marks a vertex whose ear may be clipped.

use vstd::prelude::*;
use crate::math::{next, prev, spec_next, spec_prev};
use crate::polygon::{
    MeshVertex, area2_fits, left_spec, left_on_spec, intersect_spec, intersect_prop_spec, vequal_spec,
    is_left, is_left_on, left_on, intersect, intersect_prop, vequal,
};
use crate::poly_mesh::PolygonMeshError;

verus! {

/// Marks a vertex of the index list whose ear can be clipped.
pub const CAN_REMOVE: usize = 0x80000000;

/// Extracts the vertex index from an entry of the index list.
pub const INDEX_MASK: usize = 0x0fffffff;

/// The vertex index held by an entry of the index list.
pub open spec fn masked(v: usize) -> usize {
    v & 0x0fffffff
}

/// Triangle `t` has as corners the vertices of three different entries of
/// the index list `init` among the first `n`, taken without their flags.
pub open spec fn corner_triangle(init: Seq<usize>, n: int, t: (u16, u16, u16)) -> bool {
    exists|a: int, b: int, c: int|
        0 <= a < n && 0 <= b < n && 0 <= c < n && a != b && b != c && a != c && t == (
            masked(#[trigger] init[a]) as u16,
            masked(#[trigger] init[b]) as u16,
            masked(#[trigger] init[c]) as u16,
        )
}

/// `area2` fits in an `i32` for every triple of contour vertices.
pub open spec fn contour_area2_fit(verts: Seq<(MeshVertex, usize)>) -> bool {
    forall|i: int, j: int, k: int|
        0 <= i < verts.len() && 0 <= j < verts.len() && 0 <= k < verts.len() ==> #[trigger] area2_fits(
            verts[i].0,
            verts[j].0,
            verts[k].0,
        )
}

/// The first `n` entries of the index list name vertices below `n`.
pub open spec fn indices_ok(n: int, indices: Seq<usize>) -> bool {
    &&& n <= indices.len()
    &&& forall|k: int| 0 <= k < n ==> (#[trigger] masked(indices[k])) < n
}

/// The vertex named by entry `i` of the index list.
pub open spec fn vert_at(verts: Seq<(MeshVertex, usize)>, indices: Seq<usize>, i: int) -> MeshVertex {
    verts[masked(indices[i]) as int].0
}

/// The diagonal `(i, j)` lies strictly inside the polygon near the `i`
/// endpoint; the cyclic neighbours of `i` are taken over all the contour
/// vertices.
pub open spec fn in_cone_spec(i: int, j: int, verts: Seq<(MeshVertex, usize)>, indices: Seq<usize>) -> bool {
    let n = verts.len() as int;
    let pi = vert_at(verts, indices, i);
    let pj = vert_at(verts, indices, j);
    let pi1 = vert_at(verts, indices, spec_next(i, n));
    let pin1 = vert_at(verts, indices, spec_prev(i, n));
    if left_on_spec(pin1, pi, pi1) {
        left_spec(pi, pj, pin1) && left_spec(pj, pi, pi1)
    } else {
        !(left_on_spec(pi, pj, pi1) && left_on_spec(pj, pi, pin1))
    }
}

/// Like [`in_cone_spec`], with collinear points accepted.
pub open spec fn in_cone_loose_spec(i: int, j: int, verts: Seq<(MeshVertex, usize)>, indices: Seq<usize>) -> bool {
    let n = verts.len() as int;
    let pi = vert_at(verts, indices, i);
    let pj = vert_at(verts, indices, j);
    let pi1 = vert_at(verts, indices, spec_next(i, n));
    let pin1 = vert_at(verts, indices, spec_prev(i, n));
    if left_on_spec(pin1, pi, pi1) {
        left_on_spec(pi, pj, pin1) && left_on_spec(pj, pi, pi1)
    } else {
        !(left_on_spec(pi, pj, pi1) && left_on_spec(pj, pi, pin1))
    }
}

/// Edge `(k, k + 1)` of the polygon is skipped when testing the diagonal
/// `(i, j)`: it touches `i` or `j`, or shares a point with the diagonal.
pub open spec fn edge_skipped(k: int, i: int, j: int, verts: Seq<(MeshVertex, usize)>, indices: Seq<usize>) -> bool {
    let n = verts.len() as int;
    let k1 = spec_next(k, n);
    let d0 = vert_at(verts, indices, i);
    let d1 = vert_at(verts, indices, j);
    let p0 = vert_at(verts, indices, k);
    let p1 = vert_at(verts, indices, k1);
    ||| k == i
    ||| k1 == i
    ||| k == j
    ||| k1 == j
    ||| vequal_spec(d0, p0)
    ||| vequal_spec(d1, p0)
    ||| vequal_spec(d0, p1)
    ||| vequal_spec(d1, p1)
}

/// `(i, j)` is a proper internal or external diagonal, ignoring the edges
/// incident to its ends: no other edge meets it.
pub open spec fn diagonal_ie_spec(i: int, j: int, verts: Seq<(MeshVertex, usize)>, indices: Seq<usize>) -> bool {
    forall|k: int|
        0 <= k < verts.len() && !#[trigger] edge_skipped(k, i, j, verts, indices) ==> !intersect_spec(
            vert_at(verts, indices, i),
            vert_at(verts, indices, j),
            vert_at(verts, indices, k),
            vert_at(verts, indices, spec_next(k, verts.len() as int)),
        )
}

/// Like [`diagonal_ie_spec`], with only proper crossings counted.
pub open spec fn diagonal_ie_loose_spec(i: int, j: int, verts: Seq<(MeshVertex, usize)>, indices: Seq<usize>) -> bool {
    forall|k: int|
        0 <= k < verts.len() && !#[trigger] edge_skipped(k, i, j, verts, indices) ==> !intersect_prop_spec(
            vert_at(verts, indices, i),
            vert_at(verts, indices, j),
            vert_at(verts, indices, k),
            vert_at(verts, indices, spec_next(k, verts.len() as int)),
        )
}

/// Entries `a` and `b` name vertices whose `area2` fits.
proof fn lemma_fit(verts: Seq<(MeshVertex, usize)>, indices: Seq<usize>, a: int, b: int, c: int)
    requires
        contour_area2_fit(verts),
        indices_ok(verts.len() as int, indices),
        0 <= a < verts.len(),
        0 <= b < verts.len(),
        0 <= c < verts.len(),
    ensures
        area2_fits(vert_at(verts, indices, a), vert_at(verts, indices, b), vert_at(verts, indices, c)),
{
    assert(masked(indices[a]) < verts.len());
    assert(masked(indices[b]) < verts.len());
    assert(masked(indices[c]) < verts.len());
    assert(area2_fits(verts[masked(indices[a]) as int].0, verts[masked(indices[b]) as int].0, verts[masked(indices[c]) as int].0));
}

/// Returns true iff the diagonal `(i, j)` is strictly internal to the
/// polygon in the neighborhood of the `i` endpoint.
fn in_cone(i: usize, j: usize, verts: &Vec<(MeshVertex, usize)>, indices: &Vec<usize>) -> (r: bool)
    requires
        contour_area2_fit(verts@),
        indices_ok(verts@.len() as int, indices@),
        i < verts@.len(),
        j < verts@.len(),
    ensures
        r == in_cone_spec(i as int, j as int, verts@, indices@),
{
    let n = verts.len();
    let ni = next(i, n);
    let pi_ = prev(i, n);
    proof {
        assert(masked(indices@[i as int]) < n);
        assert(masked(indices@[j as int]) < n);
        assert(masked(indices@[ni as int]) < n);
        assert(masked(indices@[pi_ as int]) < n);
        lemma_fit(verts@, indices@, pi_ as int, i as int, ni as int);
        lemma_fit(verts@, indices@, i as int, j as int, pi_ as int);
        lemma_fit(verts@, indices@, j as int, i as int, ni as int);
        lemma_fit(verts@, indices@, i as int, j as int, ni as int);
        lemma_fit(verts@, indices@, j as int, i as int, pi_ as int);
    }
    let pi = verts[indices[i] & INDEX_MASK].0;
    let pj = verts[indices[j] & INDEX_MASK].0;
    let pi1 = verts[indices[ni] & INDEX_MASK].0;
    let pin1 = verts[indices[pi_] & INDEX_MASK].0;
    // If P[i] is a convex vertex [ i+1 left or on (i-1,i) ].
    if is_left_on(pin1, pi, pi1) {
        is_left(pi, pj, pin1) && is_left(pj, pi, pi1)
    } else {
        // Assume (i-1,i,i+1) not collinear.
        // else P[i] is reflex.
        !(is_left_on(pi, pj, pi1) && is_left_on(pj, pi, pin1))
    }
}

/// Like [`in_cone`], with collinear points accepted.
fn in_cone_loose(i: usize, j: usize, verts: &Vec<(MeshVertex, usize)>, indices: &Vec<usize>) -> (r: bool)
    requires
        contour_area2_fit(verts@),
        indices_ok(verts@.len() as int, indices@),
        i < verts@.len(),
        j < verts@.len(),
    ensures
        r == in_cone_loose_spec(i as int, j as int, verts@, indices@),
{
    let n = verts.len();
    let ni = next(i, n);
    let pi_ = prev(i, n);
    proof {
        assert(masked(indices@[i as int]) < n);
        assert(masked(indices@[j as int]) < n);
        assert(masked(indices@[ni as int]) < n);
        assert(masked(indices@[pi_ as int]) < n);
        lemma_fit(verts@, indices@, pi_ as int, i as int, ni as int);
        lemma_fit(verts@, indices@, i as int, j as int, pi_ as int);
        lemma_fit(verts@, indices@, j as int, i as int, ni as int);
        lemma_fit(verts@, indices@, i as int, j as int, ni as int);
        lemma_fit(verts@, indices@, j as int, i as int, pi_ as int);
    }
    let pi = verts[indices[i] & INDEX_MASK].0;
    let pj = verts[indices[j] & INDEX_MASK].0;
    let pi1 = verts[indices[ni] & INDEX_MASK].0;
    let pin1 = verts[indices[pi_] & INDEX_MASK].0;
    // If P[i] is a convex vertex [ i+1 left or on (i-1,i) ].
    if left_on(pin1, pi, pi1) {
        left_on(pi, pj, pin1) && left_on(pj, pi, pi1)
    } else {
        !(left_on(pi, pj, pi1) && left_on(pj, pi, pin1))
    }
}

/// Returns true iff `(v_i, v_j)` is a proper internal *or* external
/// diagonal of the polygon, ignoring edges incident to `v_i` and `v_j`.
fn is_diagonal_internal_or_external(i: usize, j: usize, verts: &Vec<(MeshVertex, usize)>, indices: &Vec<usize>) -> (r: bool)
    requires
        contour_area2_fit(verts@),
        indices_ok(verts@.len() as int, indices@),
        i < verts@.len(),
        j < verts@.len(),
    ensures
        r == diagonal_ie_spec(i as int, j as int, verts@, indices@),
{
    let n = verts.len();
    proof {
        assert(masked(indices@[i as int]) < n);
        assert(masked(indices@[j as int]) < n);
    }
    let d0 = verts[indices[i] & INDEX_MASK].0;
    let d1 = verts[indices[j] & INDEX_MASK].0;
    // For each edge (k,k+1) of P
    let mut k: usize = 0;
    while k < n
        invariant
            contour_area2_fit(verts@),
            indices_ok(verts@.len() as int, indices@),
            n == verts@.len(),
            i < n,
            j < n,
            k <= n,
            d0 == vert_at(verts@, indices@, i as int),
            d1 == vert_at(verts@, indices@, j as int),
            forall|k2: int|
                0 <= k2 < k && !#[trigger] edge_skipped(k2, i as int, j as int, verts@, indices@) ==> !intersect_spec(
                    vert_at(verts@, indices@, i as int),
                    vert_at(verts@, indices@, j as int),
                    vert_at(verts@, indices@, k2),
                    vert_at(verts@, indices@, spec_next(k2, verts@.len() as int)),
                ),
        decreases n - k,
    {
        let k1 = next(k, n);
        // Skip edges incident to i or j
        if !((k == i) || (k1 == i) || (k == j) || (k1 == j)) {
            proof {
                assert(masked(indices@[k as int]) < n);
                assert(masked(indices@[k1 as int]) < n);
                lemma_fit(verts@, indices@, i as int, j as int, k as int);
                lemma_fit(verts@, indices@, i as int, j as int, k1 as int);
                lemma_fit(verts@, indices@, k as int, k1 as int, i as int);
                lemma_fit(verts@, indices@, k as int, k1 as int, j as int);
            }
            let p0 = verts[indices[k] & INDEX_MASK].0;
            let p1 = verts[indices[k1] & INDEX_MASK].0;
            if vequal(d0, p0) || vequal(d1, p0) || vequal(d0, p1) || vequal(d1, p1) {
                k = k + 1;
                continue;
            }
            if intersect(d0, d1, p0, p1) {
                proof {
                    assert(!edge_skipped(k as int, i as int, j as int, verts@, indices@));
                }
                return false;
            }
        }
        k = k + 1;
    }
    true
}

/// Like [`is_diagonal_internal_or_external`], with only proper crossings
/// counted.
fn is_diagonal_internal_or_external_loose(
    i: usize,
    j: usize,
    verts: &Vec<(MeshVertex, usize)>,
    indices: &Vec<usize>,
) -> (r: bool)
    requires
        contour_area2_fit(verts@),
        indices_ok(verts@.len() as int, indices@),
        i < verts@.len(),
        j < verts@.len(),
    ensures
        r == diagonal_ie_loose_spec(i as int, j as int, verts@, indices@),
{
    let n = verts.len();
    proof {
        assert(masked(indices@[i as int]) < n);
        assert(masked(indices@[j as int]) < n);
    }
    let d0 = verts[indices[i] & INDEX_MASK].0;
    let d1 = verts[indices[j] & INDEX_MASK].0;
    // For each edge (k,k+1) of P
    let mut k: usize = 0;
    while k < n
        invariant
            contour_area2_fit(verts@),
            indices_ok(verts@.len() as int, indices@),
            n == verts@.len(),
            i < n,
            j < n,
            k <= n,
            d0 == vert_at(verts@, indices@, i as int),
            d1 == vert_at(verts@, indices@, j as int),
            forall|k2: int|
                0 <= k2 < k && !#[trigger] edge_skipped(k2, i as int, j as int, verts@, indices@) ==> !intersect_prop_spec(
                    vert_at(verts@, indices@, i as int),
                    vert_at(verts@, indices@, j as int),
                    vert_at(verts@, indices@, k2),
                    vert_at(verts@, indices@, spec_next(k2, verts@.len() as int)),
                ),
        decreases n - k,
    {
        let k1 = next(k, n);
        // Skip edges incident to i or j
        if !(k == i || k1 == i || k == j || k1 == j) {
            proof {
                assert(masked(indices@[k as int]) < n);
                assert(masked(indices@[k1 as int]) < n);
                lemma_fit(verts@, indices@, i as int, j as int, k as int);
                lemma_fit(verts@, indices@, i as int, j as int, k1 as int);
                lemma_fit(verts@, indices@, k as int, k1 as int, i as int);
                lemma_fit(verts@, indices@, k as int, k1 as int, j as int);
            }
            let p0 = verts[indices[k] & INDEX_MASK].0;
            let p1 = verts[indices[k1] & INDEX_MASK].0;
            if vequal(d0, p0) || vequal(d1, p0) || vequal(d0, p1) || vequal(d1, p1) {
                k = k + 1;
                continue;
            }
            if intersect_prop(d0, d1, p0, p1) {
                proof {
                    assert(!edge_skipped(k as int, i as int, j as int, verts@, indices@));
                }
                return false;
            }
        }
        k = k + 1;
    }
    true
}

/// Returns true iff `(v_i, v_j)` is a proper internal diagonal of the polygon.
fn is_diagonal(i: usize, j: usize, verts: &Vec<(MeshVertex, usize)>, indices: &Vec<usize>) -> (r: bool)
    requires
        contour_area2_fit(verts@),
        indices_ok(verts@.len() as int, indices@),
        i < verts@.len(),
        j < verts@.len(),
    ensures
        r == (in_cone_spec(i as int, j as int, verts@, indices@) && diagonal_ie_spec(i as int, j as int, verts@, indices@)),
{
    in_cone(i, j, verts, indices) && is_diagonal_internal_or_external(i, j, verts, indices)
}

/// Like [`is_diagonal`], with collinear points accepted.
fn is_diagonal_loose(i: usize, j: usize, verts: &Vec<(MeshVertex, usize)>, indices: &Vec<usize>) -> (r: bool)
    requires
        contour_area2_fit(verts@),
        indices_ok(verts@.len() as int, indices@),
        i < verts@.len(),
        j < verts@.len(),
    ensures
        r == (in_cone_loose_spec(i as int, j as int, verts@, indices@) && diagonal_ie_loose_spec(
            i as int,
            j as int,
            verts@,
            indices@,
        )),
{
    in_cone_loose(i, j, verts, indices) && is_diagonal_internal_or_external_loose(i, j, verts, indices)
}

/// The first `n` entries of the index list name pairwise distinct vertices.
pub open spec fn distinct_upto(n: int, indices: Seq<usize>) -> bool {
    forall|a: int, b: int| 0 <= a < n && 0 <= b < n && a != b ==> masked(#[trigger] indices[a]) != masked(#[trigger] indices[b])
}

/// The two index lists name the same vertices, entry by entry.
pub open spec fn same_masks(a: Seq<usize>, b: Seq<usize>) -> bool {
    &&& a.len() == b.len()
    &&& forall|k: int| 0 <= k < a.len() ==> #[trigger] masked(a[k]) == masked(b[k])
}

/// The first `n` entries of the index list name, by their masks, the
/// entries `pos` of the initial list, which increase.
#[verifier::opaque]
spec fn kept_in_order(pos: Seq<int>, n: int, big_n: int, indices: Seq<usize>, init: Seq<usize>) -> bool {
    &&& pos.len() == n
    &&& forall|k: int| 0 <= k < n ==> 0 <= #[trigger] pos[k] < big_n
    &&& forall|a: int, b: int| 0 <= a < b < n ==> #[trigger] pos[a] < #[trigger] pos[b]
    &&& forall|k: int| 0 <= k < n ==> masked(#[trigger] indices[k]) == masked(init[pos[k]])
}

/// The corners of an ear `i`, `i1`, `i2` of the remaining list are three
/// different entries of the original list.
proof fn lemma_ear_corners(pos: Seq<int>, n: int, big_n: int, indices: Seq<usize>, init: Seq<usize>, i: int, i1: int, i2: int)
    requires
        kept_in_order(pos, n, big_n, indices, init),
        0 <= i < n,
        0 <= i1 < n,
        0 <= i2 < n,
        i != i1 && i1 != i2 && i != i2,
    ensures
        corner_triangle(
            init,
            big_n,
            (masked(indices[i]) as u16, masked(indices[i1]) as u16, masked(indices[i2]) as u16),
        ),
{
    reveal(kept_in_order);
    let a = pos[i];
    let b = pos[i1];
    let c = pos[i2];
    assert(masked(indices[i]) == masked(init[a]));
    assert(masked(indices[i1]) == masked(init[b]));
    assert(masked(indices[i2]) == masked(init[c]));
    assert(a != b && b != c && a != c) by {
        if i < i1 {
            assert(pos[i] < pos[i1]);
        } else {
            assert(pos[i1] < pos[i]);
        }
        if i1 < i2 {
            assert(pos[i1] < pos[i2]);
        } else {
            assert(pos[i2] < pos[i1]);
        }
        if i < i2 {
            assert(pos[i] < pos[i2]);
        } else {
            assert(pos[i2] < pos[i]);
        }
    }
}

/// Removing entry `i1` of the list keeps the rest in order.
proof fn lemma_kept_remove(pos: Seq<int>, n: int, big_n: int, before: Seq<usize>, after: Seq<usize>, init: Seq<usize>, i1: int)
    requires
        kept_in_order(pos, n + 1, big_n, before, init),
        0 <= i1 <= n,
        forall|m: int| 0 <= m < i1 ==> #[trigger] after[m] == before[m],
        forall|m: int| i1 <= m < n ==> #[trigger] after[m] == before[m + 1],
    ensures
        kept_in_order(pos.remove(i1), n, big_n, after, init),
{
    reveal(kept_in_order);
    let p2 = pos.remove(i1);
    assert forall|m: int| 0 <= m < n implies masked(#[trigger] after[m]) == masked(init[p2[m]]) by {
        if m < i1 {
            assert(after[m] == before[m]);
            assert(p2[m] == pos[m]);
        } else {
            assert(after[m] == before[m + 1]);
            assert(p2[m] == pos[m + 1]);
        }
    }
    assert forall|a: int, b: int| 0 <= a < b < n implies #[trigger] p2[a] < #[trigger] p2[b] by {
        let a0 = if a < i1 { a } else { a + 1 };
        let b0 = if b < i1 { b } else { b + 1 };
        assert(p2[a] == pos[a0]);
        assert(p2[b] == pos[b0]);
    }
    assert forall|k: int| 0 <= k < n implies 0 <= #[trigger] p2[k] < big_n by {
        let k0 = if k < i1 { k } else { k + 1 };
        assert(p2[k] == pos[k0]);
    }
}

/// Changing the flags of entries, not their masks, keeps the list in order.
proof fn lemma_kept_masks(pos: Seq<int>, n: int, big_n: int, before: Seq<usize>, after: Seq<usize>, init: Seq<usize>)
    requires
        kept_in_order(pos, n, big_n, before, init),
        same_masks(after, before),
        n <= before.len(),
    ensures
        kept_in_order(pos, n, big_n, after, init),
{
    reveal(kept_in_order);
    assert forall|k: int| 0 <= k < n implies masked(#[trigger] after[k]) == masked(init[pos[k]]) by {
        assert(masked(after[k]) == masked(before[k]));
    }
}

/// Setting or clearing the removal flag keeps the vertex an entry names,
/// and the flag never reaches the low 16 bits.
proof fn lemma_flag_bits(x: usize)
    ensures
        masked(x | 0x80000000usize) == masked(x),
        masked(x & 0x0fffffffusize) == masked(x),
        (x & 0x80000000usize) as u16 == 0,
{
    assert((x | 0x80000000usize) & 0x0fffffffusize == x & 0x0fffffffusize) by (bit_vector);
    assert((x & 0x0fffffffusize) & 0x0fffffffusize == x & 0x0fffffffusize) by (bit_vector);
    assert((x & 0x80000000usize) as u16 == 0) by (bit_vector);
}

/// The squared xz-distance between two points, truncated to 16 bits.
fn xz_length_squared_u16(p0: MeshVertex, p2: MeshVertex) -> (r: u16)
    ensures
        r == (((p2.x - p0.x) * (p2.x - p0.x) + (p2.z - p0.z) * (p2.z - p0.z)) % 0x10000),
{
    let dx: i64 = p2.x as i64 - p0.x as i64;
    let dz: i64 = p2.z as i64 - p0.z as i64;
    proof {
        assert(0 <= dx * dx <= 0x1_0000_0000) by (nonlinear_arith)
            requires
                -0xffff <= dx <= 0xffff,
        ;
        assert(0 <= dz * dz <= 0x1_0000_0000) by (nonlinear_arith)
            requires
                -0xffff <= dz <= 0xffff,
        ;
    }
    let len: i64 = dx * dx + dz * dz;
    let r = (len % 0x10000) as u16;
    r
}

/// The entry carries the ear flag: the vertex it names can be clipped.
pub open spec fn ear_flag(x: usize) -> bool {
    x & 0x80000000usize != 0usize
}

/// The squared xz-distance, modulo `0x10000`, between the vertices named by
/// entries `a` and `b`.
pub open spec fn diag_len(verts: Seq<(MeshVertex, usize)>, idx: Seq<usize>, a: int, b: int) -> int {
    let p0 = vert_at(verts, idx, a);
    let p2 = vert_at(verts, idx, b);
    ((p2.x - p0.x) * (p2.x - p0.x) + (p2.z - p0.z) * (p2.z - p0.z)) % 0x10000
}

/// `(i, j)` is a diagonal of the polygon.
pub open spec fn diag_spec(i: int, j: int, verts: Seq<(MeshVertex, usize)>, idx: Seq<usize>) -> bool {
    in_cone_spec(i, j, verts, idx) && diagonal_ie_spec(i, j, verts, idx)
}

/// `(i, j)` is a diagonal of the polygon when collinear points are
/// accepted.
pub open spec fn diag_loose_spec(i: int, j: int, verts: Seq<(MeshVertex, usize)>, idx: Seq<usize>) -> bool {
    in_cone_loose_spec(i, j, verts, idx) && diagonal_ie_loose_spec(i, j, verts, idx)
}

/// The length of the diagonal cutting off the ear at entry `i + 1` of the
/// first `n` entries.
pub open spec fn ear_len(verts: Seq<(MeshVertex, usize)>, idx: Seq<usize>, n: int, i: int) -> int {
    diag_len(verts, idx, i, spec_next(spec_next(i, n), n))
}

/// The entry after `i` of the first `n` entries is flagged as an ear.
pub open spec fn is_ear(idx: Seq<usize>, n: int, i: int) -> bool {
    ear_flag(idx[spec_next(i, n)])
}

/// Entry `m + 1` is the ear to clip: a flagged ear whose diagonal is
/// shortest among the flagged ears, the first such in order.
#[verifier::opaque]
pub open spec fn shortest_ear(verts: Seq<(MeshVertex, usize)>, idx: Seq<usize>, n: int, m: int) -> bool {
    &&& 0 <= m < n
    &&& is_ear(idx, n, m)
    &&& forall|i: int| 0 <= i < n && #[trigger] is_ear(idx, n, i) ==> ear_len(verts, idx, n, m) <= ear_len(verts, idx, n, i)
    &&& forall|i: int| 0 <= i < m && #[trigger] is_ear(idx, n, i) ==> ear_len(verts, idx, n, m) < ear_len(verts, idx, n, i)
}

/// With no flagged ear, entry `m + 1` is the vertex to clip under the
/// loose diagonal test, with the shortest diagonal measured from `m` to
/// the entry after the next-but-one, the first such in order.
#[verifier::opaque]
pub open spec fn shortest_loose(verts: Seq<(MeshVertex, usize)>, idx: Seq<usize>, n: int, m: int) -> bool {
    &&& 0 <= m < n
    &&& forall|i: int| 0 <= i < n ==> !#[trigger] is_ear(idx, n, i)
    &&& diag_loose_spec(m, spec_next(spec_next(m, n), n), verts, idx)
    &&& forall|i: int|
        0 <= i < n && #[trigger] diag_loose_spec(i, spec_next(spec_next(i, n), n), verts, idx) ==> diag_len(
            verts,
            idx,
            m,
            spec_next(spec_next(spec_next(m, n), n), n),
        ) <= diag_len(verts, idx, i, spec_next(spec_next(spec_next(i, n), n), n))
    &&& forall|i: int|
        0 <= i < m && #[trigger] diag_loose_spec(i, spec_next(spec_next(i, n), n), verts, idx) ==> diag_len(
            verts,
            idx,
            m,
            spec_next(spec_next(spec_next(m, n), n), n),
        ) < diag_len(verts, idx, i, spec_next(spec_next(spec_next(i, n), n), n))
}

/// One clipping step on the first `n` entries: the ear after entry `m` is
/// chosen as above, its triangle is `tri`, its vertex is removed from the
/// list, and the ear flags of the two entries around the gap are
/// recomputed; every other entry keeps its vertex and flag.
#[verifier::opaque]
pub open spec fn ear_step(
    verts: Seq<(MeshVertex, usize)>,
    before: Seq<usize>,
    after: Seq<usize>,
    n: int,
    m: int,
    tri: (u16, u16, u16),
) -> bool {
    let i1 = spec_next(m, n);
    let i2 = spec_next(i1, n);
    let ni1 = if i1 >= n - 1 { 0 } else { i1 };
    let ni = spec_prev(ni1, n - 1);
    &&& shortest_ear(verts, before, n, m) || shortest_loose(verts, before, n, m)
    &&& tri == (masked(before[m]) as u16, masked(before[i1]) as u16, masked(before[i2]) as u16)
    &&& after.len() == before.len()
    &&& forall|j: int| 0 <= j < n - 1 ==> #[trigger] masked(after[j]) == masked(before[if j < i1 { j } else { j + 1 }])
    &&& forall|j: int| n - 1 <= j < after.len() ==> #[trigger] after[j] == before[j]
    &&& forall|j: int|
        0 <= j < n - 1 && j != ni && j != ni1 ==> #[trigger] ear_flag(after[j]) == ear_flag(
            before[if j < i1 { j } else { j + 1 }],
        )
    &&& ear_flag(after[ni]) == diag_spec(spec_prev(ni, n - 1), ni1, verts, after)
    &&& ear_flag(after[ni1]) == diag_spec(ni, spec_next(ni1, n - 1), verts, after)
}

/// The flags set before clipping: each entry keeps its vertex, and the
/// entry after `i` gains the ear flag when `(i, i + 2)` is a diagonal.
#[verifier::opaque]
pub open spec fn initial_flags(verts: Seq<(MeshVertex, usize)>, init: Seq<usize>, first: Seq<usize>, n: int) -> bool {
    &&& same_masks(first, init)
    &&& forall|j: int| n <= j < first.len() ==> #[trigger] first[j] == init[j]
    &&& forall|i: int|
        0 <= i < n ==> #[trigger] ear_flag(first[spec_next(i, n)]) == (ear_flag(init[spec_next(i, n)]) || diag_spec(
            i,
            spec_next(spec_next(i, n), n),
            verts,
            init,
        ))
}

/// The clipping run that turned `init` into `last`: the list after the
/// initial flags, then one `ear_step` per clipped triangle.
pub open spec fn ear_trace(
    verts: Seq<(MeshVertex, usize)>,
    init: Seq<usize>,
    trace: Seq<Seq<usize>>,
    picks: Seq<int>,
    tris: Seq<(u16, u16, u16)>,
    steps: int,
    last: Seq<usize>,
) -> bool {
    let big_n = verts.len() as int;
    &&& trace.len() == steps + 1
    &&& picks.len() == steps
    &&& initial_flags(verts, init, trace[0], big_n)
    &&& forall|k: int| 0 <= k < steps ==> #[trigger] ear_step(verts, trace[k], trace[k + 1], big_n - k, picks[k], tris[k])
    &&& trace[steps] == last
}

/// No entry of the first `n` is a flagged ear, and no loose diagonal cuts
/// off a vertex: clipping is stuck.
pub open spec fn no_ear_left(verts: Seq<(MeshVertex, usize)>, idx: Seq<usize>, n: int) -> bool {
    forall|i: int|
        0 <= i < n ==> !#[trigger] is_ear(idx, n, i) && !diag_loose_spec(i, spec_next(spec_next(i, n), n), verts, idx)
}

/// The diagonal tests read only the vertices the entries name.
proof fn lemma_diag_masks(i: int, j: int, verts: Seq<(MeshVertex, usize)>, a: Seq<usize>, b: Seq<usize>)
    requires
        same_masks(a, b),
        a.len() >= verts.len(),
        0 <= i < verts.len(),
        0 <= j < verts.len(),
    ensures
        diag_spec(i, j, verts, a) == diag_spec(i, j, verts, b),
        diag_loose_spec(i, j, verts, a) == diag_loose_spec(i, j, verts, b),
{
    lemma_diag_masks_one(i, j, verts, a, b);
    lemma_diag_masks_one(i, j, verts, b, a);
    assert forall|k: int| 0 <= k < b.len() implies #[trigger] masked(b[k]) == masked(a[k]) by {
        assert(masked(a[k]) == masked(b[k]));
    }
}

/// One direction of [`lemma_diag_masks`].
proof fn lemma_diag_masks_one(i: int, j: int, verts: Seq<(MeshVertex, usize)>, a: Seq<usize>, b: Seq<usize>)
    requires
        a.len() == b.len(),
        forall|k: int| 0 <= k < a.len() ==> #[trigger] masked(a[k]) == masked(b[k]),
        a.len() >= verts.len(),
        0 <= i < verts.len(),
        0 <= j < verts.len(),
    ensures
        in_cone_spec(i, j, verts, a) == in_cone_spec(i, j, verts, b),
        in_cone_loose_spec(i, j, verts, a) == in_cone_loose_spec(i, j, verts, b),
        diagonal_ie_spec(i, j, verts, a) ==> diagonal_ie_spec(i, j, verts, b),
        diagonal_ie_loose_spec(i, j, verts, a) ==> diagonal_ie_loose_spec(i, j, verts, b),
{
    let n = verts.len() as int;
    assert forall|x: int| 0 <= x < n implies #[trigger] vert_at(verts, a, x) == vert_at(verts, b, x) by {
        assert(masked(a[x]) == masked(b[x]));
    }
    assert(vert_at(verts, a, i) == vert_at(verts, b, i));
    assert(vert_at(verts, a, j) == vert_at(verts, b, j));
    assert(vert_at(verts, a, spec_next(i, n)) == vert_at(verts, b, spec_next(i, n)));
    assert(vert_at(verts, a, spec_prev(i, n)) == vert_at(verts, b, spec_prev(i, n)));
    if diagonal_ie_spec(i, j, verts, a) {
        assert forall|k: int| 0 <= k < n && !#[trigger] edge_skipped(k, i, j, verts, b) implies !intersect_spec(
            vert_at(verts, b, i),
            vert_at(verts, b, j),
            vert_at(verts, b, k),
            vert_at(verts, b, spec_next(k, n)),
        ) by {
            assert(vert_at(verts, a, k) == vert_at(verts, b, k));
            assert(vert_at(verts, a, spec_next(k, n)) == vert_at(verts, b, spec_next(k, n)));
            assert(!edge_skipped(k, i, j, verts, a));
        }
    }
    if diagonal_ie_loose_spec(i, j, verts, a) {
        assert forall|k: int| 0 <= k < n && !#[trigger] edge_skipped(k, i, j, verts, b) implies !intersect_prop_spec(
            vert_at(verts, b, i),
            vert_at(verts, b, j),
            vert_at(verts, b, k),
            vert_at(verts, b, spec_next(k, n)),
        ) by {
            assert(vert_at(verts, a, k) == vert_at(verts, b, k));
            assert(vert_at(verts, a, spec_next(k, n)) == vert_at(verts, b, spec_next(k, n)));
            assert(!edge_skipped(k, i, j, verts, a));
        }
    }
}

/// Setting or clearing the ear flag.
proof fn lemma_ear_flag_bits(x: usize)
    ensures
        ear_flag(x | 0x80000000usize),
        !ear_flag(x & 0x0fffffffusize),
{
    assert((x | 0x80000000usize) & 0x80000000usize != 0usize) by (bit_vector);
    assert((x & 0x0fffffffusize) & 0x80000000usize == 0usize) by (bit_vector);
}

/// Assembles one clipping step from the list before it, the list with
/// the ear's vertex removed, and the two flag updates.
proof fn lemma_ear_step(
    verts: Seq<(MeshVertex, usize)>,
    cur: Seq<usize>,
    shifted: Seq<usize>,
    f1: Seq<usize>,
    after: Seq<usize>,
    n: int,
    m: int,
    tri: (u16, u16, u16),
)
    requires
        4 <= n <= verts.len(),
        verts.len() <= cur.len(),
        0 <= m < n,
        shortest_ear(verts, cur, n, m) || shortest_loose(verts, cur, n, m),
        tri == (
            masked(cur[m]) as u16,
            masked(cur[spec_next(m, n)]) as u16,
            masked(cur[spec_next(spec_next(m, n), n)]) as u16,
        ),
        shifted.len() == cur.len(),
        forall|j: int|
            0 <= j < n - 1 ==> #[trigger] shifted[j] == cur[if j < spec_next(m, n) {
                j
            } else {
                j + 1
            }],
        forall|j: int| n - 1 <= j < shifted.len() ==> #[trigger] shifted[j] == cur[j],
        ({
            let i1 = spec_next(m, n);
            let ni1 = if i1 >= n - 1 { 0 } else { i1 };
            let ni = spec_prev(ni1, n - 1);
            &&& f1 == shifted.update(ni, f1[ni])
            &&& masked(f1[ni]) == masked(shifted[ni])
            &&& ear_flag(f1[ni]) == diag_spec(spec_prev(ni, n - 1), ni1, verts, shifted)
            &&& after == f1.update(ni1, after[ni1])
            &&& masked(after[ni1]) == masked(f1[ni1])
            &&& ear_flag(after[ni1]) == diag_spec(ni, spec_next(ni1, n - 1), verts, f1)
        }),
    ensures
        ear_step(verts, cur, after, n, m, tri),
{
    reveal(ear_step);
    let i1 = spec_next(m, n);
    let ni1 = if i1 >= n - 1 { 0 } else { i1 };
    let ni = spec_prev(ni1, n - 1);
    assert(0 <= ni1 < n - 1);
    assert(0 <= ni < n - 1 && ni != ni1);
    assert(same_masks(shifted, f1)) by {
        assert forall|k: int| 0 <= k < shifted.len() implies #[trigger] masked(shifted[k]) == masked(f1[k]) by {
            if k != ni {
                assert(f1[k] == shifted[k]);
            }
        }
    }
    assert(same_masks(f1, after)) by {
        assert forall|k: int| 0 <= k < f1.len() implies #[trigger] masked(f1[k]) == masked(after[k]) by {
            if k != ni1 {
                assert(after[k] == f1[k]);
            }
        }
    }
    assert(same_masks(shifted, after)) by {
        assert forall|k: int| 0 <= k < shifted.len() implies #[trigger] masked(shifted[k]) == masked(after[k]) by {
            assert(masked(shifted[k]) == masked(f1[k]));
            assert(masked(f1[k]) == masked(after[k]));
        }
    }
    lemma_diag_masks(spec_prev(ni, n - 1), ni1, verts, shifted, after);
    lemma_diag_masks(ni, spec_next(ni1, n - 1), verts, f1, after);
    assert(after[ni] == f1[ni]);
    assert forall|j: int| 0 <= j < n - 1 implies #[trigger] masked(after[j]) == masked(cur[if j < i1 { j } else { j + 1 }]) by {
        assert(masked(shifted[j]) == masked(after[j]));
    }
    assert forall|j: int| n - 1 <= j < after.len() implies #[trigger] after[j] == cur[j] by {
        assert(after[j] == f1[j]);
        assert(f1[j] == shifted[j]);
    }
    assert forall|j: int|
        0 <= j < n - 1 && j != ni && j != ni1 implies #[trigger] ear_flag(after[j]) == ear_flag(
        cur[if j < i1 { j } else { j + 1 }],
    ) by {
        assert(after[j] == f1[j]);
        assert(f1[j] == shifted[j]);
    }
}

/// Picks the ear to clip among the first `n` entries: the flagged ear
/// with the shortest diagonal, or, when none is flagged, the shortest
/// loose diagonal; `None` when there is neither.
fn pick_ear(verts: &Vec<(MeshVertex, usize)>, indices: &Vec<usize>, n: usize) -> (r: Option<usize>)
    requires
        contour_area2_fit(verts@),
        3 < n <= verts@.len(),
        indices_ok(verts@.len() as int, indices@),
    ensures
        r matches Some(m) ==> m < n && (shortest_ear(verts@, indices@, n as int, m as int) || shortest_loose(
            verts@,
            indices@,
            n as int,
            m as int,
        )),
        r is None ==> forall|i: int|
            0 <= i < n ==> !#[trigger] is_ear(indices@, n as int, i) && !diag_loose_spec(
                i,
                spec_next(spec_next(i, n as int), n as int),
                verts@,
                indices@,
            ),
{
    let ghost big_n = verts@.len() as int;
    let ghost init = indices@;
    let ghost cur = indices@;
    let mut min_len: Option<u16> = None;
    let mut mini: Option<usize> = None;
    let mut i: usize = 0;
    while i < n
        invariant
            big_n == verts@.len(),
            3 < n <= big_n,
            i <= n,
            indices@.len() == init.len(),
            indices_ok(big_n, indices@),
            mini matches Some(m) ==> m < n,
            mini is Some <==> min_len is Some,
            indices@ == cur,
            mini matches Some(m) ==> {
                &&& m < i
                &&& is_ear(cur, n as int, m as int)
                &&& min_len matches Some(l) && l as int == ear_len(verts@, cur, n as int, m as int)
                &&& forall|j: int|
                    0 <= j < i && #[trigger] is_ear(cur, n as int, j) ==> ear_len(verts@, cur, n as int, m as int) <= ear_len(
                        verts@,
                        cur,
                        n as int,
                        j,
                    )
                &&& forall|j: int|
                    0 <= j < m && #[trigger] is_ear(cur, n as int, j) ==> ear_len(verts@, cur, n as int, m as int) < ear_len(
                        verts@,
                        cur,
                        n as int,
                        j,
                    )
            },
            mini is None ==> forall|j: int| 0 <= j < i ==> !#[trigger] is_ear(cur, n as int, j),
        decreases n - i,
    {
        let i1 = next(i, n);
        proof {
            assert(is_ear(cur, n as int, i as int) == ((cur[i1 as int] & CAN_REMOVE) != 0));
        }
        if (indices[i1] & CAN_REMOVE) != 0 {
            let i2 = next(i1, n);
            proof {
                assert(masked(indices@[i as int]) < big_n);
                assert(masked(indices@[i2 as int]) < big_n);
            }
            let p0 = verts[indices[i] & INDEX_MASK].0;
            let p2 = verts[indices[i2] & INDEX_MASK].0;
            let len = xz_length_squared_u16(p0, p2);
            let better = match min_len {
                None => true,
                Some(min) => len < min,
            };
            if better {
                min_len = Some(len);
                mini = Some(i);
            }
        }
        i = i + 1;
    }
    proof {
        if mini is Some {
            assert(shortest_ear(verts@, cur, n as int, mini->0 as int)) by {
                reveal(shortest_ear);
            }
        }
    }
    if mini.is_none() {
        // We might get here because the contour has overlapping segments, like this:
        //
        //  A o-o=====o---o B
        //   /  |C   D|    \.
        //  o   o     o     o
        //  :   :     :     :
        // We'll try to recover by loosing up the inCone test a bit so that a diagonal
        // like A-B or C-D can be found and we can continue.
        min_len = None;
        let mut i: usize = 0;
        while i < n
            invariant
                contour_area2_fit(verts@),
                big_n == verts@.len(),
                3 < n <= big_n,
                i <= n,
                indices@.len() == init.len(),
                indices_ok(big_n, indices@),
                mini matches Some(m) ==> m < n,
                mini is Some <==> min_len is Some,
                indices@ == cur,
                forall|j: int| 0 <= j < n ==> !#[trigger] is_ear(cur, n as int, j),
                mini matches Some(m) ==> {
                    &&& m < i
                    &&& diag_loose_spec(m as int, spec_next(spec_next(m as int, n as int), n as int), verts@, cur)
                    &&& min_len matches Some(l) && l as int == diag_len(
                        verts@,
                        cur,
                        m as int,
                        spec_next(spec_next(spec_next(m as int, n as int), n as int), n as int),
                    )
                    &&& forall|j: int|
                        0 <= j < i && #[trigger] diag_loose_spec(j, spec_next(spec_next(j, n as int), n as int), verts@, cur)
                            ==> diag_len(
                            verts@,
                            cur,
                            m as int,
                            spec_next(spec_next(spec_next(m as int, n as int), n as int), n as int),
                        ) <= diag_len(verts@, cur, j, spec_next(spec_next(spec_next(j, n as int), n as int), n as int))
                    &&& forall|j: int|
                        0 <= j < m && #[trigger] diag_loose_spec(j, spec_next(spec_next(j, n as int), n as int), verts@, cur)
                            ==> diag_len(
                            verts@,
                            cur,
                            m as int,
                            spec_next(spec_next(spec_next(m as int, n as int), n as int), n as int),
                        ) < diag_len(verts@, cur, j, spec_next(spec_next(spec_next(j, n as int), n as int), n as int))
                },
                mini is None ==> forall|j: int|
                    0 <= j < i ==> !#[trigger] diag_loose_spec(j, spec_next(spec_next(j, n as int), n as int), verts@, cur),
            decreases n - i,
        {
            let i1 = next(i, n);
            let i2 = next(i1, n);
            if is_diagonal_loose(i, i2, verts, indices) {
                let i3 = next(i2, n);
                proof {
                    assert(masked(indices@[i as int]) < big_n);
                    assert(masked(indices@[i3 as int]) < big_n);
                }
                let p0 = verts[indices[i] & INDEX_MASK].0;
                let p2 = verts[indices[i3] & INDEX_MASK].0;
                let len = xz_length_squared_u16(p0, p2);
                let better = match min_len {
                    None => true,
                    Some(min) => len < min,
                };
                if better {
                    min_len = Some(len);
                    mini = Some(i);
                }
            }
            i = i + 1;
        }
        proof {
            if mini is Some {
                assert(shortest_loose(verts@, cur, n as int, mini->0 as int)) by {
                    reveal(shortest_loose);
                }
            }
        }
    }
    proof {
        if mini is Some {
            let m = mini->0 as int;
            assert(shortest_ear(verts@, cur, n as int, m) || shortest_loose(verts@, cur, n as int, m));
        }
    }
    mini
}

/// Triangulates the contour polygon `verts` by clipping ears, shortest
/// first, using `indices` as the working index list (its first
/// `verts.len()` entries name the polygon's vertices in order).
///
/// Vertices whose two neighbours span a diagonal are flagged as ears. At
/// each step the flagged ear with the shortest diagonal (the first such in
/// order) is clipped; with no flagged ear, the vertex with the shortest
/// loose diagonal is. The clipped vertex leaves the list and the ear flags
/// of its two neighbours are recomputed ([`ear_trace`]). Each clipped ear
/// is stored with the vertices of its three corners, their flags masked
/// off. The last triangle holds the three vertices that remain, in the
/// order they have around the polygon. Returns the number of triangles, or
/// `InvalidContour` when clipping gets stuck with no ear of either kind.
#[verifier::rlimit(100)]
pub fn triangulate(
    verts: &Vec<(MeshVertex, usize)>,
    indices: &mut Vec<usize>,
    tris: &mut Vec<(u16, u16, u16)>,
) -> (r: Result<usize, PolygonMeshError>)
    requires
        contour_area2_fit(verts@),
        indices_ok(verts@.len() as int, old(indices)@),
        old(indices)@.len() >= 3,
        old(tris)@.len() >= (if verts@.len() >= 3 { verts@.len() - 2 } else { 1 }),
    ensures
        final(tris)@.len() == old(tris)@.len(),
        final(indices)@.len() == old(indices)@.len(),
        match r {
            Ok(count) => {
                &&& count == (if verts@.len() >= 3 { verts@.len() - 2 } else { 1 })
                &&& forall|t: int| 0 <= t < count - 1 ==> corner_triangle(old(indices)@, verts@.len() as int, #[trigger] final(tris)@[t])
                &&& final(tris)@[count - 1] == (
                    masked(final(indices)@[0]) as u16,
                    masked(final(indices)@[1]) as u16,
                    masked(final(indices)@[2]) as u16,
                )
                &&& forall|t: int| count <= t < final(tris)@.len() ==> #[trigger] final(tris)@[t] == old(tris)@[t]
                &&& verts@.len() >= 3 ==> indices_ok(verts@.len() as int, final(indices)@)
                &&& verts@.len() >= 3 && distinct_upto(verts@.len() as int, old(indices)@) ==> distinct_upto(
                    3,
                    final(indices)@,
                )
                &&& verts@.len() <= 3 ==> same_masks(final(indices)@, old(indices)@)
                &&& verts@.len() >= 3 ==> exists|a: int, b: int, c: int|
                    0 <= a < b < c < verts@.len() && masked(final(indices)@[0]) == masked(#[trigger] old(indices)@[a])
                        && masked(final(indices)@[1]) == masked(#[trigger] old(indices)@[b]) && masked(final(indices)@[2])
                        == masked(#[trigger] old(indices)@[c])
                &&& exists|trace: Seq<Seq<usize>>, picks: Seq<int>|
                    #[trigger] ear_trace(verts@, old(indices)@, trace, picks, final(tris)@, count - 1, final(indices)@)
            },
            Err(e) => {
                &&& e == PolygonMeshError::InvalidContour
                &&& verts@.len() > 3
                &&& exists|trace: Seq<Seq<usize>>, picks: Seq<int>, steps: int|
                    #[trigger] ear_trace(verts@, old(indices)@, trace, picks, final(tris)@, steps, final(indices)@)
                        && 0 <= steps <= verts@.len() - 4 && no_ear_left(verts@, final(indices)@, verts@.len() - steps)
            },
        },
{
    let ghost big_n = verts@.len() as int;
    let ghost init = indices@;
    let ghost was_distinct = distinct_upto(big_n, init);
    let mut n = verts.len();
    let mut ntris: usize = 0;
    // The last bit of the index is used to indicate if the vertex can be removed.
    let mut i: usize = 0;
    while i < n
        invariant
            contour_area2_fit(verts@),
            n == verts@.len(),
            big_n == n,
            i <= n,
            indices_ok(big_n, indices@),
            same_masks(indices@, init),
            forall|i0: int|
                0 <= i0 < i ==> #[trigger] ear_flag(indices@[spec_next(i0, n as int)]) == (ear_flag(init[spec_next(i0, n as int)])
                    || diag_spec(i0, spec_next(spec_next(i0, n as int), n as int), verts@, init)),
            forall|j: int|
                0 <= j < indices@.len() && !((1 <= j <= i && j < n) || (j == 0 && i == n && n > 0)) ==> #[trigger] indices@[j] == init[j],
        decreases n - i,
    {
        let i1 = next(i, n);
        let i2 = next(i1, n);
        let ghost ib = indices@;
        proof {
            lemma_diag_masks(i as int, i2 as int, verts@, indices@, init);
            assert(ib[i1 as int] == init[i1 as int]);
        }
        if is_diagonal(i, i2, verts, indices) {
            let v = indices[i1] | CAN_REMOVE;
            proof {
                lemma_flag_bits(indices@[i1 as int]);
            }
            indices.set(i1, v);
            proof {
                lemma_ear_flag_bits(ib[i1 as int]);
                assert(masked(indices@[i1 as int]) == masked(init[i1 as int]));
                assert forall|k: int| 0 <= k < indices@.len() implies #[trigger] masked(indices@[k]) == masked(init[k]) by {
                    if k != i1 {
                        assert(masked(indices@[k]) == masked(init[k]));
                    }
                }
            }
        }
        proof {
            assert forall|i0: int| 0 <= i0 < i + 1 implies #[trigger] ear_flag(indices@[spec_next(i0, n as int)]) == (ear_flag(
                init[spec_next(i0, n as int)],
            ) || diag_spec(i0, spec_next(spec_next(i0, n as int), n as int), verts@, init)) by {
                if i0 < i {
                    assert(spec_next(i0, n as int) != i1);
                    assert(indices@[spec_next(i0, n as int)] == ib[spec_next(i0, n as int)]);
                }
            }
        }
        i = i + 1;
    }
    proof {
        assert(was_distinct ==> distinct_upto(n as int, indices@)) by {
            if was_distinct {
                assert forall|a: int, b: int| 0 <= a < n && 0 <= b < n && a != b implies masked(#[trigger] indices@[a]) != masked(
                    #[trigger] indices@[b],
                ) by {
                    assert(masked(indices@[a]) == masked(init[a]));
                    assert(masked(indices@[b]) == masked(init[b]));
                }
            }
        }
    }
    let ghost mut pos: Seq<int> = Seq::new(n as nat, |k: int| k);
    let ghost mut trace: Seq<Seq<usize>> = seq![indices@];
    let ghost mut picks: Seq<int> = seq![];
    proof {
        assert forall|i0: int| 0 <= i0 < big_n implies #[trigger] ear_flag(indices@[spec_next(i0, big_n)]) == (ear_flag(
            init[spec_next(i0, big_n)],
        ) || diag_spec(i0, spec_next(spec_next(i0, big_n), big_n), verts@, init)) by {
        }
        assert forall|j: int| big_n <= j < indices@.len() implies #[trigger] indices@[j] == init[j] by {
        }
        assert(initial_flags(verts@, init, indices@, big_n)) by {
            reveal(initial_flags);
        }
    }
    proof {
        reveal(kept_in_order);
        assert forall|k: int| 0 <= k < n implies masked(#[trigger] indices@[k]) == masked(init[pos[k]]) by {
            assert(masked(indices@[k]) == masked(init[k]));
        }
        assert(big_n >= 3 ==> kept_in_order(pos, n as int, big_n, indices@, init));
    }
    while n > 3
        invariant
            contour_area2_fit(verts@),
            big_n == verts@.len(),
            big_n >= 3 ==> kept_in_order(pos, n as int, big_n, indices@, init),
            big_n <= usize::MAX,
            init == old(indices)@,
            n <= big_n,
            big_n >= 3 ==> n >= 3,
            big_n < 3 ==> n == big_n,
            ntris == big_n - n,
            indices@.len() == init.len(),
            indices_ok(big_n, indices@),
            big_n <= 3 ==> same_masks(indices@, init),
            was_distinct ==> distinct_upto(n as int, indices@),
            tris@.len() == old(tris)@.len(),
            tris@.len() >= (if big_n >= 3 { big_n - 2 } else { 1 }),
            forall|t: int| 0 <= t < ntris ==> corner_triangle(init, big_n, #[trigger] tris@[t]),
            forall|t: int| ntris <= t < tris@.len() ==> #[trigger] tris@[t] == old(tris)@[t],
            trace.len() == ntris + 1,
            picks.len() == ntris,
            initial_flags(verts@, init, trace[0], big_n),
            forall|k: int| 0 <= k < ntris ==> #[trigger] ear_step(verts@, trace[k], trace[k + 1], big_n - k, picks[k], tris@[k]),
            trace[ntris as int] == indices@,
        decreases n,
    {
        let ghost cur = indices@;
        let ghost n_old = n as int;
        let ghost ntris_old = ntris as int;
        let mini = pick_ear(verts, indices, n);
        let mini = match mini {
            Some(m) => m,
            None => {
                // The contour is messed up. This sometimes happens
                // if the contour simplification is too aggressive.
                proof {
                    assert(no_ear_left(verts@, indices@, n as int));
                    assert(ear_trace(verts@, init, trace, picks, tris@, ntris as int, indices@));
                }
                return Err(PolygonMeshError::InvalidContour);
            },
        };
        let mut i = mini;
        let mut i1 = next(i, n);
        let i2 = next(i1, n);
        let ghost tris0 = tris@;
        let ghost trace0 = trace;
        tris.set(ntris, ((indices[i] & INDEX_MASK) as u16, (indices[i1] & INDEX_MASK) as u16, (indices[i2] & INDEX_MASK) as u16));
        proof {
            lemma_ear_corners(pos, n as int, big_n, indices@, init, i as int, i1 as int, i2 as int);
            assert(corner_triangle(init, big_n, tris@[ntris as int]));
            assert forall|t: int| 0 <= t < ntris + 1 implies corner_triangle(init, big_n, #[trigger] tris@[t]) by {
                if t < ntris {
                    assert(tris@[t] == tris0[t]);
                }
            }
        }
        ntris = ntris + 1;
        // Removes P[i1] by copying P[i+1]...P[n-1] left one index.
        n = n - 1;
        let ghost before_shift = indices@;
        let mut k = i1;
        while k < n
            invariant
                n < big_n,
                indices@.len() == before_shift.len(),
                big_n <= indices@.len(),
                i1 <= k <= n,
                forall|m: int| 0 <= m < i1 ==> #[trigger] indices@[m] == before_shift[m],
                forall|m: int| i1 <= m < k ==> #[trigger] indices@[m] == before_shift[m + 1],
                forall|m: int| k <= m < indices@.len() ==> #[trigger] indices@[m] == before_shift[m],
            decreases n - k,
        {
            let v = indices[k + 1];
            indices.set(k, v);
            k = k + 1;
        }
        proof {
            lemma_kept_remove(pos, n as int, big_n, before_shift, indices@, init, i1 as int);
            pos = pos.remove(i1 as int);
            assert forall|m: int| 0 <= m < big_n implies (#[trigger] masked(indices@[m])) < big_n by {
                if i1 <= m < n {
                    assert(indices@[m] == before_shift[m + 1]);
                } else {
                    assert(indices@[m] == before_shift[m]);
                }
            }
            if was_distinct {
                assert forall|a: int, b: int| 0 <= a < n && 0 <= b < n && a != b implies masked(#[trigger] indices@[a]) != masked(
                    #[trigger] indices@[b],
                ) by {
                    let a0 = if a < i1 { a } else { a + 1 };
                    let b0 = if b < i1 { b } else { b + 1 };
                    assert(indices@[a] == before_shift[a0]);
                    assert(indices@[b] == before_shift[b0]);
                    assert(masked(before_shift[a0]) != masked(before_shift[b0]));
                }
            }
        }
        if i1 >= n {
            i1 = 0;
        }
        i = prev(i1, n);
        // Update diagonal flags.
        let pi = prev(i, n);
        let ghost before_flags = indices@;
        proof {
            lemma_flag_bits(indices@[i as int]);
        }
        proof {
            lemma_ear_flag_bits(indices@[i as int]);
        }
        if is_diagonal(pi, i1, verts, indices) {
            let v = indices[i] | CAN_REMOVE;
            indices.set(i, v);
            proof {
                assert(ear_flag(indices@[i as int]) == diag_spec(pi as int, i1 as int, verts@, before_flags));
            }
        } else {
            let v = indices[i] & INDEX_MASK;
            indices.set(i, v);
            proof {
                assert(ear_flag(indices@[i as int]) == diag_spec(pi as int, i1 as int, verts@, before_flags));
            }
        }
        proof {
            assert(same_masks(indices@, before_flags)) by {
                assert forall|k: int| 0 <= k < indices@.len() implies #[trigger] masked(indices@[k]) == masked(before_flags[k]) by {
                    if k != i {
                        assert(indices@[k] == before_flags[k]);
                    }
                }
            }
            assert(indices_ok(big_n, indices@)) by {
                assert forall|k: int| 0 <= k < big_n implies (#[trigger] masked(indices@[k])) < big_n by {
                    assert(masked(indices@[k]) == masked(before_flags[k]));
                }
            }
            if big_n >= 3 {
                lemma_kept_masks(pos, n as int, big_n, before_flags, indices@, init);
            }
        }
        let ni1 = next(i1, n);
        let ghost before_flags2 = indices@;
        proof {
            lemma_flag_bits(indices@[i1 as int]);
        }
        proof {
            lemma_ear_flag_bits(indices@[i1 as int]);
        }
        if is_diagonal(i, ni1, verts, indices) {
            let v = indices[i1] | CAN_REMOVE;
            indices.set(i1, v);
            proof {
                assert(ear_flag(indices@[i1 as int]) == diag_spec(i as int, ni1 as int, verts@, before_flags2));
            }
        } else {
            let v = indices[i1] & INDEX_MASK;
            indices.set(i1, v);
            proof {
                assert(ear_flag(indices@[i1 as int]) == diag_spec(i as int, ni1 as int, verts@, before_flags2));
            }
        }
        proof {
            assert(same_masks(indices@, before_flags2)) by {
                assert forall|k: int| 0 <= k < indices@.len() implies #[trigger] masked(indices@[k]) == masked(before_flags2[k]) by {
                    if k != i1 {
                        assert(indices@[k] == before_flags2[k]);
                    }
                }
            }
            assert(indices_ok(big_n, indices@)) by {
                assert forall|k: int| 0 <= k < big_n implies (#[trigger] masked(indices@[k])) < big_n by {
                    assert(masked(indices@[k]) == masked(before_flags2[k]));
                    assert(masked(before_flags2[k]) == masked(before_flags[k]));
                }
            }
            if big_n >= 3 {
                lemma_kept_masks(pos, n as int, big_n, before_flags2, indices@, init);
            }
            if was_distinct {
                assert forall|a: int, b: int| 0 <= a < n && 0 <= b < n && a != b implies masked(#[trigger] indices@[a]) != masked(
                    #[trigger] indices@[b],
                ) by {
                    assert(masked(indices@[a]) == masked(before_flags2[a]));
                    assert(masked(before_flags2[a]) == masked(before_flags[a]));
                    assert(masked(indices@[b]) == masked(before_flags2[b]));
                    assert(masked(before_flags2[b]) == masked(before_flags[b]));
                }
            }
        }
        proof {
            assert(before_shift == cur);
            assert(before_flags2 == before_flags.update(i as int, before_flags2[i as int]));
            assert(indices@ == before_flags2.update(i1 as int, indices@[i1 as int]));
            lemma_ear_step(verts@, cur, before_flags, before_flags2, indices@, n_old, mini as int, tris@[ntris_old]);
            trace = trace0.push(indices@);
            picks = picks.push(mini as int);
            assert forall|k: int| 0 <= k < ntris implies #[trigger] ear_step(
                verts@,
                trace[k],
                trace[k + 1],
                big_n - k,
                picks[k],
                tris@[k],
            ) by {
                if k < ntris_old {
                    assert(tris@[k] == tris0[k]);
                    assert(trace[k] == trace0[k]);
                    assert(trace[k + 1] == trace0[k + 1]);
                }
            }
        }
    }
    proof {
        reveal(kept_in_order);
        if big_n >= 3 {
            assert(masked(indices@[0]) == masked(init[pos[0]]));
            assert(masked(indices@[1]) == masked(init[pos[1]]));
            assert(masked(indices@[2]) == masked(init[pos[2]]));
            assert(pos[0] < pos[1] && pos[1] < pos[2]);
        }
    }
    // Append the remaining triangle.
    let ghost tris1 = tris@;
    tris.set(ntris, ((indices[0] & INDEX_MASK) as u16, (indices[1] & INDEX_MASK) as u16, (indices[2] & INDEX_MASK) as u16));
    proof {
        assert forall|k: int| 0 <= k < ntris implies #[trigger] ear_step(
            verts@,
            trace[k],
            trace[k + 1],
            big_n - k,
            picks[k],
            tris@[k],
        ) by {
            assert(tris@[k] == tris1[k]);
        }
        assert(ear_trace(verts@, init, trace, picks, tris@, ntris as int, indices@));
    }
    Ok(ntris + 1)
}

} // verus!
