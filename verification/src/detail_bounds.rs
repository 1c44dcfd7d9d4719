//! The cell bounds of the polygons of a mesh, from which the detail mesh
//! sizes the height patch it samples each polygon with.

use vstd::prelude::*;
use crate::detail_mesh::Bounds;
use crate::poly_mesh::{PolygonMesh, count_from, lemma_count_from, poly_vert_count};
use crate::polygon::MeshVertex;

verus! {

/// The coordinate of `v` along the x-axis (`axis == 0`) or the z-axis.
pub open spec fn axis_coord(v: MeshVertex, axis: int) -> int {
    if axis == 0 {
        v.x as int
    } else {
        v.z as int
    }
}

/// The smallest of `init` and the coordinates along `axis` of the first
/// `k` vertices of the polygon whose slots start at `base`.
pub open spec fn fold_min(p: Seq<u16>, verts: Seq<MeshVertex>, base: int, k: int, axis: int, init: int) -> int
    decreases k,
{
    if k <= 0 {
        init
    } else {
        let m = fold_min(p, verts, base, k - 1, axis, init);
        let c = axis_coord(verts[p[base + k - 1] as int], axis);
        if c < m {
            c
        } else {
            m
        }
    }
}

/// The largest of `init` and the coordinates along `axis` of the first
/// `k` vertices of the polygon whose slots start at `base`.
pub open spec fn fold_max(p: Seq<u16>, verts: Seq<MeshVertex>, base: int, k: int, axis: int, init: int) -> int
    decreases k,
{
    if k <= 0 {
        init
    } else {
        let m = fold_max(p, verts, base, k - 1, axis, init);
        let c = axis_coord(verts[p[base + k - 1] as int], axis);
        if c > m {
            c
        } else {
            m
        }
    }
}

/// The cell bounds of polygon `i` of a mesh with `nvp` vertices per
/// polygon, on a field of `width` by `height` cells: the box of its
/// vertices grown by one cell, the low sides taken no higher than the
/// field's size and the high sides clipped to it.
pub open spec fn polygon_bounds(p: Seq<u16>, verts: Seq<MeshVertex>, i: int, nvp: int, width: u16, height: u16) -> Bounds {
    let base = i * nvp * 2;
    let n = poly_vert_count(p, base, nvp);
    let xmax = fold_max(p, verts, base, n, 0, 0) + 1;
    let zmax = fold_max(p, verts, base, n, 2, 0) + 1;
    Bounds {
        xmin: (fold_min(p, verts, base, n, 0, width as int) - 1) as u16,
        xmax: (if xmax < width { xmax } else { width as int }) as u16,
        zmin: (fold_min(p, verts, base, n, 2, height as int) - 1) as u16,
        zmax: (if zmax < height { zmax } else { height as int }) as u16,
    }
}

/// The bounds of polygon `i` can be taken: its vertices exist, its low
/// sides are above 0 and its high sides below the 16-bit limit before the
/// one cell is added or taken.
pub open spec fn bounds_computable(p: Seq<u16>, verts: Seq<MeshVertex>, i: int, nvp: int, width: u16, height: u16) -> bool {
    let base = i * nvp * 2;
    let n = poly_vert_count(p, base, nvp);
    &&& forall|j: int| 0 <= j < n ==> (#[trigger] p[base + j] as int) < verts.len()
    &&& fold_min(p, verts, base, n, 0, width as int) >= 1
    &&& fold_min(p, verts, base, n, 2, height as int) >= 1
    &&& fold_max(p, verts, base, n, 0, 0) < 0xffff
    &&& fold_max(p, verts, base, n, 2, 0) < 0xffff
}

/// The largest width and the largest height among the first `k` bounds
/// that are not empty, or 0.
pub open spec fn max_extent(bs: Seq<Bounds>, k: int) -> (int, int)
    decreases k,
{
    if k <= 0 {
        (0, 0)
    } else {
        let prev = max_extent(bs, k - 1);
        let b = bs[k - 1];
        if b.xmin >= b.xmax || b.zmin >= b.zmax {
            prev
        } else {
            (
                if b.xmax - b.xmin > prev.0 { b.xmax - b.xmin } else { prev.0 },
                if b.zmax - b.zmin > prev.1 { b.zmax - b.zmin } else { prev.1 },
            )
        }
    }
}

/// The number of vertices of the first `k` polygons.
pub open spec fn total_vert_count(p: Seq<u16>, k: int, nvp: int) -> int
    decreases k,
{
    if k <= 0 {
        0
    } else {
        total_vert_count(p, k - 1, nvp) + poly_vert_count(p, (k - 1) * nvp * 2, nvp)
    }
}

impl PolygonMesh {
    /// The number of polygons, as a mathematical integer.
    pub open spec fn spec_polygon_count(&self) -> int {
        self.polygons@.len() as int / (2 * self.vertices_per_polygon as int)
    }

    /// For a field of `width` by `height` cells: the cell bounds of each
    /// polygon (see [`polygon_bounds`]), the largest width and height among
    /// those that are not empty, and the number of polygon vertices in all.
    pub fn detail_bounds(&self, width: u16, height: u16) -> (r: (Vec<Bounds>, u16, u16, usize))
        requires
            0 < self.vertices_per_polygon,
            2 * self.vertices_per_polygon <= usize::MAX,
            forall|i: int|
                0 <= i < self.spec_polygon_count() ==> #[trigger] bounds_computable(
                    self.polygons@,
                    self.vertices@,
                    i,
                    self.vertices_per_polygon as int,
                    width,
                    height,
                ),
        ensures
            r.0@.len() == self.spec_polygon_count(),
            forall|i: int|
                0 <= i < self.spec_polygon_count() ==> #[trigger] r.0@[i] == polygon_bounds(
                    self.polygons@,
                    self.vertices@,
                    i,
                    self.vertices_per_polygon as int,
                    width,
                    height,
                ),
            (r.1 as int, r.2 as int) == max_extent(r.0@, self.spec_polygon_count()),
            r.3 == total_vert_count(self.polygons@, self.spec_polygon_count(), self.vertices_per_polygon as int),
    {
        let nvp = self.vertices_per_polygon;
        let npolys = self.polygon_count();
        let ghost p = self.polygons@;
        let ghost verts = self.vertices@;
        proof {
            assert(self.polygons.len() == self.polygons@.len());
            assert(self.vertices.len() == self.vertices@.len());
            assert(npolys * (2 * nvp) <= p.len()) by (nonlinear_arith)
                requires
                    npolys == p.len() as int / (2 * nvp as int),
                    nvp > 0,
            ;
        }
        let mut bounds: Vec<Bounds> = Vec::new();
        let mut maxhw: u16 = 0;
        let mut maxhh: u16 = 0;
        let mut total: usize = 0;
        let mut i: usize = 0;
        while i < npolys
            invariant
                nvp == self.vertices_per_polygon,
                0 < nvp,
                npolys == self.spec_polygon_count(),
                npolys * (2 * nvp) <= p.len(),
                p == self.polygons@,
                verts == self.vertices@,
                self.polygons.len() == p.len(),
                self.vertices.len() == verts.len(),
                forall|i2: int| 0 <= i2 < npolys ==> #[trigger] bounds_computable(p, verts, i2, nvp as int, width, height),
                i <= npolys,
                bounds@.len() == i,
                forall|i2: int| 0 <= i2 < i ==> #[trigger] bounds@[i2] == polygon_bounds(p, verts, i2, nvp as int, width, height),
                (maxhw as int, maxhh as int) == max_extent(bounds@, i as int),
                total == total_vert_count(p, i as int, nvp as int),
                total <= i * nvp,
            decreases npolys - i,
        {
            let ghost gi = i as int;
            proof {
                assert(i * (2 * nvp) + 2 * nvp <= p.len() && i * nvp <= npolys * nvp) by (nonlinear_arith)
                    requires
                        i < npolys,
                        npolys * (2 * nvp) <= p.len(),
                ;
                assert(i * nvp * 2 == i * (2 * nvp)) by (nonlinear_arith);
                assert(bounds_computable(p, verts, gi, nvp as int, width, height));
            }
            let base = i * nvp * 2;
            let ghost n = poly_vert_count(p, base as int, nvp as int);
            proof {
                lemma_count_from(p, base as int, 0, nvp as int);
            }
            let mut xmin = width;
            let mut xmax: u16 = 0;
            let mut zmin = height;
            let mut zmax: u16 = 0;
            let mut j: usize = 0;
            while j < nvp && self.polygons[base + j] != 0xffff
                invariant
                    0 < nvp,
                    base + nvp <= p.len(),
                    p == self.polygons@,
                    verts == self.vertices@,
                    self.polygons.len() == p.len(),
                    self.vertices.len() == verts.len(),
                    n == poly_vert_count(p, base as int, nvp as int),
                    n <= nvp,
                    forall|j2: int| 0 <= j2 < n ==> (#[trigger] p[base + j2] as int) < verts.len(),
                    j <= nvp,
                    count_from(p, base as int, 0, nvp as int) == count_from(p, base as int, j as int, nvp as int),
                    xmin as int == fold_min(p, verts, base as int, j as int, 0, width as int),
                    xmax as int == fold_max(p, verts, base as int, j as int, 0, 0),
                    zmin as int == fold_min(p, verts, base as int, j as int, 2, height as int),
                    zmax as int == fold_max(p, verts, base as int, j as int, 2, 0),
                decreases nvp - j,
            {
                proof {
                    lemma_count_from(p, base as int, j as int + 1, nvp as int);
                    assert(count_from(p, base as int, j as int, nvp as int) == count_from(p, base as int, j as int + 1, nvp as int));
                }
                let v = self.vertices[self.polygons[base + j] as usize];
                if v.x < xmin {
                    xmin = v.x;
                }
                if v.x > xmax {
                    xmax = v.x;
                }
                if v.z < zmin {
                    zmin = v.z;
                }
                if v.z > zmax {
                    zmax = v.z;
                }
                j = j + 1;
            }
            proof {
                assert(j as int == n);
            }
            let b = Bounds {
                xmin: xmin - 1,
                xmax: if xmax + 1 < width { xmax + 1 } else { width },
                zmin: zmin - 1,
                zmax: if zmax + 1 < height { zmax + 1 } else { height },
            };
            if !(b.xmin >= b.xmax || b.zmin >= b.zmax) {
                if b.xmax - b.xmin > maxhw {
                    maxhw = b.xmax - b.xmin;
                }
                if b.zmax - b.zmin > maxhh {
                    maxhh = b.zmax - b.zmin;
                }
            }
            let ghost before = bounds@;
            bounds.push(b);
            proof {
                assert(bounds@[gi] == polygon_bounds(p, verts, gi, nvp as int, width, height));
                lemma_max_extent_agree(before, bounds@, gi);
                assert(total + j <= (i + 1) * nvp) by (nonlinear_arith)
                    requires
                        total <= i * nvp,
                        j <= nvp,
                ;
            }
            total = total + j;
            i = i + 1;
        }
        (bounds, maxhw, maxhh, total)
    }
}

/// Two sequences of bounds that agree on their first `k` have the same
/// extent there.
proof fn lemma_max_extent_agree(a: Seq<Bounds>, b: Seq<Bounds>, k: int)
    requires
        0 <= k <= a.len(),
        k <= b.len(),
        forall|idx: int| 0 <= idx < k ==> a[idx] == b[idx],
    ensures
        max_extent(a, k) == max_extent(b, k),
    decreases k,
{
    if k > 0 {
        lemma_max_extent_agree(a, b, k - 1);
    }
}

} // verus!
