//! Integer plane geometry on mesh vertices: orientation, segment
//! intersection and diagonals of a polygon given as a cyclic index list.
//!
//! Only the `x` and `z` coordinates take part; `y` is the height.

use vstd::prelude::*;
use crate::math::{next, prev, spec_next, spec_prev};

verus! {

/// A vertex of a polygon mesh, in cell units.
#[derive(Clone, Copy, Debug, PartialEq, Eq, Hash, Default, Structural)]
pub struct MeshVertex {
    pub x: u16,
    pub y: u16,
    pub z: u16,
}

/// Twice the signed area of the triangle `(a, b, c)` on the xz-plane.
/// It is negative when `c` lies to the left of the directed line `a -> b`.
pub open spec fn area2_spec(a: MeshVertex, b: MeshVertex, c: MeshVertex) -> int {
    (b.x - a.x) * (c.z - a.z) - (c.x - a.x) * (b.z - a.z)
}

/// The two products of `area2` and their difference fit in an `i32`.
pub open spec fn area2_fits(a: MeshVertex, b: MeshVertex, c: MeshVertex) -> bool {
    let p = (b.x - a.x) * (c.z - a.z);
    let q = (c.x - a.x) * (b.z - a.z);
    &&& i32::MIN <= p <= i32::MAX
    &&& i32::MIN <= q <= i32::MAX
    &&& i32::MIN <= p - q <= i32::MAX
}

/// `area2` fits in an `i32` for every triple of the given vertices.
pub open spec fn all_area2_fit(verts: Seq<MeshVertex>) -> bool {
    forall|i: int, j: int, k: int|
        0 <= i < verts.len() && 0 <= j < verts.len() && 0 <= k < verts.len() ==> #[trigger] area2_fits(
            verts[i],
            verts[j],
            verts[k],
        )
}

/// `c` is strictly to the left of the directed line through `a` to `b`.
pub open spec fn left_spec(a: MeshVertex, b: MeshVertex, c: MeshVertex) -> bool {
    area2_spec(a, b, c) < 0
}

/// `c` is to the left of, or on, the directed line through `a` to `b`.
pub open spec fn left_on_spec(a: MeshVertex, b: MeshVertex, c: MeshVertex) -> bool {
    area2_spec(a, b, c) <= 0
}

/// `a`, `b` and `c` lie on one line.
pub open spec fn collinear_spec(a: MeshVertex, b: MeshVertex, c: MeshVertex) -> bool {
    area2_spec(a, b, c) == 0
}

/// `a`, `b`, `c` are collinear and `c` lies on the closed segment `ab`
/// (measured along x, or along z when `ab` is vertical).
pub open spec fn between_spec(a: MeshVertex, b: MeshVertex, c: MeshVertex) -> bool {
    &&& collinear_spec(a, b, c)
    &&& if a.x != b.x {
        (a.x <= c.x && c.x <= b.x) || (a.x >= c.x && c.x >= b.x)
    } else {
        (a.z <= c.z && c.z <= b.z) || (a.z >= c.z && c.z >= b.z)
    }
}

/// Segments `ab` and `cd` share a point interior to both.
pub open spec fn intersect_prop_spec(a: MeshVertex, b: MeshVertex, c: MeshVertex, d: MeshVertex) -> bool {
    &&& !collinear_spec(a, b, c)
    &&& !collinear_spec(a, b, d)
    &&& !collinear_spec(c, d, a)
    &&& !collinear_spec(c, d, b)
    &&& left_spec(a, b, c) != left_spec(a, b, d)
    &&& left_spec(c, d, a) != left_spec(c, d, b)
}

/// Segments `ab` and `cd` intersect, properly or improperly.
pub open spec fn intersect_spec(a: MeshVertex, b: MeshVertex, c: MeshVertex, d: MeshVertex) -> bool {
    ||| intersect_prop_spec(a, b, c, d)
    ||| between_spec(a, b, c)
    ||| between_spec(a, b, d)
    ||| between_spec(c, d, a)
    ||| between_spec(c, d, b)
}

/// The two vertices coincide on the xz-plane.
pub open spec fn vequal_spec(a: MeshVertex, b: MeshVertex) -> bool {
    a.x == b.x && a.z == b.z
}

/// Twice the signed area of the triangle `(a, b, c)` on the xz-plane.
pub fn area2(a: MeshVertex, b: MeshVertex, c: MeshVertex) -> (r: i32)
    requires
        area2_fits(a, b, c),
    ensures
        r == area2_spec(a, b, c),
{
    let p = (b.x as i32 - a.x as i32) * (c.z as i32 - a.z as i32);
    let q = (c.x as i32 - a.x as i32) * (b.z as i32 - a.z as i32);
    p - q
}

/// Returns true iff `c` is strictly to the left of the directed line through `a` to `b`.
pub fn left(a: MeshVertex, b: MeshVertex, c: MeshVertex) -> (r: bool)
    requires
        area2_fits(a, b, c),
    ensures
        r == left_spec(a, b, c),
{
    area2(a, b, c) < 0
}

/// Returns true iff `c` is to the left of, or on, the directed line through `a` to `b`.
pub fn left_on(a: MeshVertex, b: MeshVertex, c: MeshVertex) -> (r: bool)
    requires
        area2_fits(a, b, c),
    ensures
        r == left_on_spec(a, b, c),
{
    area2(a, b, c) <= 0
}

/// Returns true iff `c` is strictly to the left of the directed line through `a` to `b`.
pub fn is_left(a: MeshVertex, b: MeshVertex, c: MeshVertex) -> (r: bool)
    requires
        area2_fits(a, b, c),
    ensures
        r == left_spec(a, b, c),
{
    area2(a, b, c) < 0
}

/// Returns true iff `c` is to the left of, or on, the directed line through `a` to `b`.
pub fn is_left_on(a: MeshVertex, b: MeshVertex, c: MeshVertex) -> (r: bool)
    requires
        area2_fits(a, b, c),
    ensures
        r == left_on_spec(a, b, c),
{
    area2(a, b, c) <= 0
}

/// Returns true iff `a`, `b` and `c` are collinear.
pub fn collinear(a: MeshVertex, b: MeshVertex, c: MeshVertex) -> (r: bool)
    requires
        area2_fits(a, b, c),
    ensures
        r == collinear_spec(a, b, c),
{
    area2(a, b, c) == 0
}

/// Returns true iff `(a, b, c)` are collinear and point `c` lies on the
/// closed segment `ab`.
pub fn between(a: MeshVertex, b: MeshVertex, c: MeshVertex) -> (r: bool)
    requires
        area2_fits(a, b, c),
    ensures
        r == between_spec(a, b, c),
{
    if !collinear(a, b, c) {
        return false;
    }
    // If ab not vertical, check betweenness on x; else on z.
    if a.x != b.x {
        (a.x <= c.x && c.x <= b.x) || (a.x >= c.x && c.x >= b.x)
    } else {
        (a.z <= c.z && c.z <= b.z) || (a.z >= c.z && c.z >= b.z)
    }
}

/// Returns true iff `ab` properly intersects `cd`: they share a point
/// interior to both segments.  The properness of the intersection is
/// ensured by using strict leftness.
pub fn intersect_prop(a: MeshVertex, b: MeshVertex, c: MeshVertex, d: MeshVertex) -> (r: bool)
    requires
        area2_fits(a, b, c),
        area2_fits(a, b, d),
        area2_fits(c, d, a),
        area2_fits(c, d, b),
    ensures
        r == intersect_prop_spec(a, b, c, d),
{
    // Eliminate improper cases.
    if collinear(a, b, c) || collinear(a, b, d) || collinear(c, d, a) || collinear(c, d, b) {
        return false;
    }
    (left(a, b, c) ^ left(a, b, d)) && (left(c, d, a) ^ left(c, d, b))
}

/// Returns true iff segments `ab` and `cd` intersect, properly or improperly.
pub fn intersect(a: MeshVertex, b: MeshVertex, c: MeshVertex, d: MeshVertex) -> (r: bool)
    requires
        area2_fits(a, b, c),
        area2_fits(a, b, d),
        area2_fits(c, d, a),
        area2_fits(c, d, b),
    ensures
        r == intersect_spec(a, b, c, d),
{
    if intersect_prop(a, b, c, d) {
        return true;
    }
    between(a, b, c) || between(a, b, d) || between(c, d, a) || between(c, d, b)
}

/// Returns true iff the two vertices coincide on the xz-plane.
pub fn vequal(a: MeshVertex, b: MeshVertex) -> (r: bool)
    ensures
        r == vequal_spec(a, b),
{
    a.x == b.x && a.z == b.z
}

/// Returns true iff `c` is strictly to the left of the directed line
/// through `a` to `b`; the orientation test of polygon merging.
pub fn uleft(a: MeshVertex, b: MeshVertex, c: MeshVertex) -> (r: bool)
    requires
        area2_fits(a, b, c),
    ensures
        r == left_spec(a, b, c),
{
    let cross = (b.x as i32 - a.x as i32) * (c.z as i32 - a.z as i32) - (c.x as i32 - a.x as i32) * (b.z as i32
        - a.z as i32);
    cross < 0
}


/// Rotating the corners of a triangle keeps its orientation.
pub proof fn law_area2_cyclic(a: MeshVertex, b: MeshVertex, c: MeshVertex)
    ensures
        area2_spec(a, b, c) == area2_spec(b, c, a),
        area2_spec(a, b, c) == area2_spec(c, a, b),
{
    assert(area2_spec(a, b, c) == area2_spec(b, c, a)) by (nonlinear_arith);
    assert(area2_spec(a, b, c) == area2_spec(c, a, b)) by (nonlinear_arith);
}

/// Swapping two corners of a triangle reverses its orientation: a point
/// strictly left of `a -> b` is strictly right of `b -> a`.
pub proof fn law_area2_swap(a: MeshVertex, b: MeshVertex, c: MeshVertex)
    ensures
        area2_spec(b, a, c) == -area2_spec(a, b, c),
        left_spec(a, b, c) ==> !left_on_spec(b, a, c),
{
    assert(area2_spec(b, a, c) == -area2_spec(a, b, c)) by (nonlinear_arith);
}

/// Whether two segments intersect depends neither on which segment comes
/// first nor on the order of the ends of a segment.
pub proof fn law_intersect_symmetric(a: MeshVertex, b: MeshVertex, c: MeshVertex, d: MeshVertex)
    ensures
        intersect_spec(a, b, c, d) == intersect_spec(c, d, a, b),
        intersect_spec(a, b, c, d) == intersect_spec(b, a, c, d),
{
    law_area2_swap(a, b, c);
    law_area2_swap(a, b, d);
}

} // verus!
