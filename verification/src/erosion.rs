//! Erosion of the walkable area of a compact heightfield.

use vstd::prelude::*;
use crate::area::AreaType;
use crate::compact_heightfield::{CompactHeightfield, in_cell, cells_partition};
use crate::math::{dir_offset_x, dir_offset_z, spec_dir_offset_x, spec_dir_offset_z};

verus! {

impl CompactHeightfield {
    /// The cell and span that the connection of span `i` of cell `c` in
    /// direction `dir` leads to, if it is connected.
    pub open spec fn linked_span(&self, c: int, i: int, dir: u8) -> Option<(int, int)> {
        match self.spans@[i].spec_con(dir) {
            None => None,
            Some(con) => {
                let w = self.width as int;
                let nc = (c % w + spec_dir_offset_x(dir)) + (c / w + spec_dir_offset_z(dir)) * w;
                Some((nc, self.cells@[nc].index + con))
            },
        }
    }

    /// In direction `d`, span `i` of cell `c` has no walkable neighbour.
    pub open spec fn boundary_side(&self, c: int, i: int, d: u8) -> bool {
        match self.linked_span(c, i, d) {
            None => true,
            Some((_, ai)) => !self.areas@[ai].spec_is_walkable(),
        }
    }

    /// Span `i` of cell `c` lies on the boundary of the walkable area: it
    /// is not walkable, or in some direction it has no walkable neighbour.
    pub open spec fn erosion_boundary(&self, c: int, i: int) -> bool {
        ||| !self.areas@[i].spec_is_walkable()
        ||| exists|d: u8| d < 4 && #[trigger] self.boundary_side(c, i, d)
    }

    /// Span `i` of cell `c` reaches a boundary span by links whose costs add
    /// up to at most `cost`: 2 for a step to a neighbour, and 3 for a
    /// diagonal step, a link in direction `d` followed by one in direction
    /// `d + 3` (mod 4).
    pub open spec fn near_boundary(&self, c: int, i: int, cost: int) -> bool
        decreases cost,
    {
        if cost < 0 {
            false
        } else {
            ||| self.erosion_boundary(c, i)
            ||| exists|d: u8|
                #![trigger self.linked_span(c, i, d)]
                d < 4 && match self.linked_span(c, i, d) {
                    None => false,
                    Some((nc, ai)) => {
                        ||| cost >= 2 && self.near_boundary(nc, ai, cost - 2)
                        ||| cost >= 3 && match self.linked_span(nc, ai, ((d + 3) % 4) as u8) {
                            None => false,
                            Some((nnc, aai)) => self.near_boundary(nnc, aai, cost - 3),
                        }
                    },
                }
        }
    }

    /// Every distance below the cap is a cost within which its span reaches
    /// the boundary.
    spec fn distances_sound(&self, dist: Seq<u8>) -> bool {
        &&& dist.len() == self.spans@.len()
        &&& forall|c: int, j: int|
            0 <= c < self.cells@.len() && #[trigger] in_cell(self.cells@, c, j) && dist[j] < 255 ==> self.near_boundary(
                c,
                j,
                dist[j] as int,
            )
    }

    /// If the neighbour of span `j` of cell `c` in direction `d` was marked
    /// as boundary, the distance of `j` is at most one step.
    spec fn relaxed_toward(&self, dist: Seq<u8>, marked: Seq<u8>, c: int, j: int, d: u8) -> bool {
        match self.linked_span(c, j, d) {
            Some((_, aj)) => marked[aj] == 0 ==> dist[j] <= 2,
            None => true,
        }
    }

    /// Cell `c = x + z * width` has coordinates `(x, z)`, and the link of a
    /// span of it in direction `dir` lands on a span of the neighbour cell.
    proof fn lemma_link(&self, x: int, z: int, i: int, dir: u8)
        requires
            self.wf(),
            0 <= x < self.width,
            0 <= z < self.height,
            in_cell(self.cells@, x + z * self.width, i),
            dir < 4,
            self.spans@[i].spec_con(dir) is Some,
        ensures
            0 <= x + z * self.width < self.cells@.len(),
            ({
                let nx = x + spec_dir_offset_x(dir);
                let nz = z + spec_dir_offset_z(dir);
                &&& 0 <= nx < self.width
                &&& 0 <= nz < self.height
                &&& 0 <= nx + nz * self.width < self.cells@.len()
                &&& self.linked_span(x + z * self.width, i, dir) == Some(
                    (nx + nz * self.width, self.cells@[nx + nz * self.width].index + self.spans@[i].spec_con(dir)->0),
                )
                &&& in_cell(self.cells@, nx + nz * self.width, self.cells@[nx + nz * self.width].index + self.spans@[i].spec_con(dir)->0)
                &&& self.cells@[nx + nz * self.width].index + self.spans@[i].spec_con(dir)->0 < self.spans@.len()
            }),
    {
        let w = self.width as int;
        let c = x + z * w;
        assert(0 <= c < w * self.height) by (nonlinear_arith)
            requires
                0 <= x < w,
                0 <= z < self.height,
                c == x + z * w,
        ;
        vstd::arithmetic::div_mod::lemma_fundamental_div_mod_converse(c, w, z, x);
        assert(in_cell(self.cells@, c, i) && self.spans@[i].spec_con(dir) is Some);
        let nx = x + spec_dir_offset_x(dir);
        let nz = z + spec_dir_offset_z(dir);
        assert(0 <= nx + nz * w < w * self.height) by (nonlinear_arith)
            requires
                0 <= nx < w,
                0 <= nz < self.height,
        ;
    }

    /// The distances after one step of a pass at span `i` of cell `c`: it
    /// takes the distance of its neighbour in direction `dir` plus 2, and
    /// then that of this neighbour's neighbour in direction `dir + 3` plus
    /// 3, each capped at 255, where smaller.
    pub open spec fn relax_step(&self, dist: Seq<u8>, c: int, i: int, dir: u8) -> Seq<u8> {
        match self.linked_span(c, i, dir) {
            None => dist,
            Some((nc, ai)) => {
                let nd = if dist[ai] < 253 { dist[ai] + 2 } else { 255 };
                let d1 = if nd < dist[i] { dist.update(i, nd as u8) } else { dist };
                match self.linked_span(nc, ai, ((dir + 3) % 4) as u8) {
                    None => d1,
                    Some((nnc, aai)) => {
                        let nd2 = if d1[aai] < 252 { d1[aai] + 3 } else { 255 };
                        if nd2 < d1[i] { d1.update(i, nd2 as u8) } else { d1 }
                    },
                }
            },
        }
    }

    /// The distances after the first `k` spans of cell `c` took their steps
    /// in directions `da` and then `db`.
    pub open spec fn relax_cell(&self, dist: Seq<u8>, c: int, da: u8, db: u8, k: int) -> Seq<u8>
        decreases k,
    {
        if k <= 0 {
            dist
        } else {
            let prev = self.relax_cell(dist, c, da, db, k - 1);
            let j = self.cells@[c].index + k - 1;
            self.relax_step(self.relax_step(prev, c, j, da), c, j, db)
        }
    }

    /// The forward pass over the first `m` cells, in order: each span looks
    /// left (direction 0) and down (direction 3).
    pub open spec fn forward_pass(&self, dist: Seq<u8>, m: int) -> Seq<u8>
        decreases m,
    {
        if m <= 0 {
            dist
        } else {
            let prev = self.forward_pass(dist, m - 1);
            self.relax_cell(prev, m - 1, 0, 3, self.cells@[m - 1].count as int)
        }
    }

    /// The backward pass over the last `m` cells, from the last one down:
    /// each span looks right (direction 2) and up (direction 1).
    pub open spec fn backward_pass(&self, dist: Seq<u8>, m: int) -> Seq<u8>
        decreases m,
    {
        if m <= 0 {
            dist
        } else {
            let prev = self.backward_pass(dist, m - 1);
            let c = self.cells@.len() - m;
            self.relax_cell(prev, c, 2, 1, self.cells@[c].count as int)
        }
    }

    /// The distances before the passes: 0 for the spans on the boundary of
    /// the walkable area, 255 for every other span.
    pub open spec fn boundary_marks(&self) -> Seq<u8> {
        Seq::new(
            self.spans@.len(),
            |j: int|
                if exists|c: int| 0 <= c < self.cells@.len() && #[trigger] in_cell(self.cells@, c, j) && self.erosion_boundary(c, j) {
                    0u8
                } else {
                    255u8
                },
        )
    }

    /// The distance of each span to the boundary of the walkable area, as
    /// the forward and then the backward pass find it.
    pub open spec fn erosion_distances(&self) -> Seq<u8> {
        let n = self.cells@.len() as int;
        self.backward_pass(self.forward_pass(self.boundary_marks(), n), n)
    }

    /// One step of a distance pass: span `i` of cell `(x, z)` takes the
    /// distance of its neighbour in direction `dir` plus 2, and that of the
    /// neighbour's neighbour in direction `dir + 3` plus 3, where smaller.
    fn relax_distance(&self, dist: &mut Vec<u8>, x: u16, z: u16, i: usize, dir: u8)
        requires
            self.wf(),
            x < self.width,
            z < self.height,
            in_cell(self.cells@, x + z * self.width, i as int),
            dir < 4,
            self.spans@.len() <= usize::MAX,
            self.distances_sound(old(dist)@),
        ensures
            self.distances_sound(final(dist)@),
            forall|j: int| 0 <= j < old(dist)@.len() ==> #[trigger] final(dist)@[j] <= old(dist)@[j],
            self.linked_span(x + z * self.width, i as int, dir) matches Some((nc, ai)) ==> final(dist)@[i as int] <= old(dist)@[ai]
                + 2,
            final(dist)@ == self.relax_step(old(dist)@, x + z * self.width, i as int, dir),
    {
        let ghost c = x + z * self.width;
        proof {
            assert(0 <= c < self.width * self.height) by (nonlinear_arith)
                requires
                    x < self.width,
                    z < self.height,
                    c == x + z * self.width,
            ;
            assert(self.cells@[c].index + self.cells@[c].count <= self.spans@.len());
        }
        let span = self.spans[i];
        if let Some(con) = span.con(dir) {
            proof {
                self.lemma_link(x as int, z as int, i as int, dir);
            }
            let ax = (x as i32 + dir_offset_x(dir) as i32) as u16;
            let az = (z as i32 + dir_offset_z(dir) as i32) as u16;
            let ai = self.cell_at(ax, az).index as usize + con as usize;
            let ghost nc = ax + az * self.width;
            let ghost d0 = dist@;
            let nd: u8 = if dist[ai] < 253 {
                dist[ai] + 2
            } else {
                255
            };
            if nd < dist[i] {
                proof {
                    assert(self.near_boundary(nc, ai as int, d0[ai as int] as int));
                    assert(self.linked_span(c, i as int, dir) == Some((nc, ai as int)));
                    assert(self.near_boundary(c, i as int, nd as int));
                }
                dist.set(i, nd);
                proof {
                    assert forall|c2: int, j: int|
                        0 <= c2 < self.cells@.len() && #[trigger] in_cell(self.cells@, c2, j) && dist@[j] < 255 implies self.near_boundary(
                        c2,
                        j,
                        dist@[j] as int,
                    ) by {
                        if j == i {
                            assert(cells_partition(self.cells@, self.spans@.len() as int));
                            assert(in_cell(self.cells@, c, j));
                        } else {
                            assert(dist@[j] == d0[j]);
                        }
                    }
                }
            }
            let ghost d1 = dist@;
            let a_span = self.spans[ai];
            let dir2: u8 = (dir + 3) % 4;
            if let Some(con2) = a_span.con(dir2) {
                proof {
                    self.lemma_link(ax as int, az as int, ai as int, dir2);
                }
                let aax = (ax as i32 + dir_offset_x(dir2) as i32) as u16;
                let aaz = (az as i32 + dir_offset_z(dir2) as i32) as u16;
                let aai = self.cell_at(aax, aaz).index as usize + con2 as usize;
                let ghost nnc = aax + aaz * self.width;
                let nd2: u8 = if dist[aai] < 252 {
                    dist[aai] + 3
                } else {
                    255
                };
                if nd2 < dist[i] {
                    proof {
                        assert(self.near_boundary(nnc, aai as int, d1[aai as int] as int));
                        assert(self.linked_span(c, i as int, dir) == Some((nc, ai as int)));
                        assert(self.linked_span(nc, ai as int, ((dir + 3) % 4) as u8) == Some((nnc, aai as int)));
                        assert(self.near_boundary(c, i as int, nd2 as int));
                    }
                    dist.set(i, nd2);
                    proof {
                        assert forall|c2: int, j: int|
                            0 <= c2 < self.cells@.len() && #[trigger] in_cell(self.cells@, c2, j) && dist@[j] < 255 implies self.near_boundary(
                            c2,
                            j,
                            dist@[j] as int,
                        ) by {
                            if j == i {
                                assert(cells_partition(self.cells@, self.spans@.len() as int));
                                assert(in_cell(self.cells@, c, j));
                            } else {
                                assert(dist@[j] == d1[j]);
                            }
                        }
                    }
                }
            }
        }
    }

    /// Erode the walkable area by agent radius.
    ///
    /// Every span gets the chamfer distance (2 along a link, 3 along a
    /// diagonal) to the boundary of the walkable area, found by one forward
    /// and one backward pass over the grid and capped at 255
    /// ([`Self::erosion_distances`]); a span becomes not walkable exactly
    /// when that distance is below twice the radius. So boundary
    /// spans are eroded for any positive radius, their linked neighbours for
    /// a radius of at least 2, and, where twice the radius lies below the
    /// cap, only spans within that cost of the boundary.
    pub fn erode_walkable_area(&mut self, walkable_radius: u16)
        requires
            old(self).wf(),
        ensures
            *final(self) == (CompactHeightfield { areas: final(self).areas, ..*old(self) }),
            final(self).areas@ == Seq::new(
                old(self).areas@.len(),
                |j: int|
                    if (old(self).erosion_distances()[j] as int) < 2 * walkable_radius {
                        AreaType(0)
                    } else {
                        old(self).areas@[j]
                    },
            ),
            final(self).areas@.len() == old(self).areas@.len(),
            forall|i: int|
                0 <= i < old(self).areas@.len() ==> #[trigger] final(self).areas@[i] == old(self).areas@[i]
                    || final(self).areas@[i] == AreaType(0),
            forall|c: int, i: int|
                0 <= c < old(self).cells@.len() && #[trigger] in_cell(old(self).cells@, c, i) && final(self).areas@[i]
                    != old(self).areas@[i] && walkable_radius < 128 ==> exists|k: int|
                    0 <= k < 2 * walkable_radius && #[trigger] old(self).near_boundary(c, i, k),
            forall|c: int, i: int|
                0 <= c < old(self).cells@.len() && #[trigger] in_cell(old(self).cells@, c, i) && old(self).erosion_boundary(c, i)
                    && walkable_radius > 0 ==> final(self).areas@[i].0 == 0,
            forall|c: int, i: int, d: u8|
                0 <= c < old(self).cells@.len() && #[trigger] in_cell(old(self).cells@, c, i) && d < 4 && walkable_radius >= 2
                    && (#[trigger] old(self).linked_span(c, i, d) matches Some((nc, ai)) && old(self).erosion_boundary(nc, ai))
                    ==> final(self).areas@[i].0 == 0,
    {
        let ghost orig = *self;
        let n = self.spans.len();
        let mut distance_to_boundary: Vec<u8> = Vec::new();
        let mut k: usize = 0;
        while k < n
            invariant
                k <= n,
                distance_to_boundary@.len() == k,
                forall|j: int| 0 <= j < k ==> #[trigger] distance_to_boundary@[j] == 255,
            decreases n - k,
        {
            distance_to_boundary.push(u8::MAX);
            k = k + 1;
        }
        let w = self.width;
        let h = self.height;
        proof {
            vstd::arithmetic::mul::lemma_mul_upper_bound(w as int, 0xffff, h as int, 0xffff);
        }
        // Mark boundary cells.
        let mut z: u16 = 0;
        while z < h
            invariant
                self.wf(),
                w == self.width,
                h == self.height,
                n == self.spans@.len(),
                z <= h,
                self.distances_sound(distance_to_boundary@),
                forall|j: int| 0 <= j < n ==> #[trigger] distance_to_boundary@[j] == 0 || distance_to_boundary@[j] == 255,
                forall|j: int|
                    0 <= j < n && #[trigger] distance_to_boundary@[j] == 0 ==> exists|c2: int|
                        0 <= c2 < self.cells@.len() && #[trigger] in_cell(self.cells@, c2, j) && self.erosion_boundary(c2, j),
                forall|c: int, j: int|
                    0 <= c < z * w && #[trigger] in_cell(self.cells@, c, j) && self.erosion_boundary(c, j)
                        ==> distance_to_boundary@[j] == 0,
            decreases h - z,
        {
            let mut x: u16 = 0;
            while x < w
                invariant
                    self.wf(),
                    w == self.width,
                    h == self.height,
                    n == self.spans@.len(),
                    z < h,
                    x <= w,
                    self.distances_sound(distance_to_boundary@),
                    forall|j: int| 0 <= j < n ==> #[trigger] distance_to_boundary@[j] == 0 || distance_to_boundary@[j] == 255,
                    forall|j: int|
                        0 <= j < n && #[trigger] distance_to_boundary@[j] == 0 ==> exists|c2: int|
                            0 <= c2 < self.cells@.len() && #[trigger] in_cell(self.cells@, c2, j) && self.erosion_boundary(c2, j),
                    forall|c: int, j: int|
                        0 <= c < x + z * w && #[trigger] in_cell(self.cells@, c, j) && self.erosion_boundary(c, j)
                            ==> distance_to_boundary@[j] == 0,
                decreases w - x,
            {
                let ghost c = x + z * w;
                proof {
                    assert(0 <= c < w * h) by (nonlinear_arith)
                        requires
                            x < w,
                            z < h,
                            c == x + z * w,
                    ;
                    vstd::arithmetic::div_mod::lemma_fundamental_div_mod_converse(c, w as int, z as int, x as int);
                }
                let cell = *self.cell_at(x, z);
                let max_span_index = cell.index as usize + cell.count as usize;
                let mut span_index = cell.index as usize;
                while span_index < max_span_index
                    invariant
                        self.wf(),
                        w == self.width,
                        h == self.height,
                        n == self.spans@.len(),
                        x < w,
                        z < h,
                        0 <= c < w * h,
                        c == x + z * w,
                        c % (w as int) == x && c / (w as int) == z,
                        cell == self.cells@[c],
                        max_span_index == cell.index + cell.count,
                        max_span_index <= n,
                        cell.index <= span_index <= max_span_index,
                        self.distances_sound(distance_to_boundary@),
                        forall|j: int| 0 <= j < n ==> #[trigger] distance_to_boundary@[j] == 0 || distance_to_boundary@[j] == 255,
                        forall|j: int|
                            0 <= j < n && #[trigger] distance_to_boundary@[j] == 0 ==> exists|c2: int|
                                0 <= c2 < self.cells@.len() && #[trigger] in_cell(self.cells@, c2, j) && self.erosion_boundary(c2, j),
                        forall|c2: int, j: int|
                            0 <= c2 < c && #[trigger] in_cell(self.cells@, c2, j) && self.erosion_boundary(c2, j)
                                ==> distance_to_boundary@[j] == 0,
                        forall|j: int|
                            cell.index <= j < span_index && #[trigger] self.erosion_boundary(c, j) ==> distance_to_boundary@[j]
                                == 0,
                    decreases max_span_index - span_index,
                {
                    let ghost d0 = distance_to_boundary@;
                    let mut on_boundary = !self.areas[span_index].is_walkable();
                    if !on_boundary {
                        let span = self.spans[span_index];
                        // Check that there is a walkable neighbour in each of the 4 cardinal directions.
                        let mut neighbor_count: u8 = 0;
                        let mut direction: u8 = 0;
                        while direction < 4 && !on_boundary
                            invariant
                                self.wf(),
                                w == self.width,
                                h == self.height,
                                0 <= c < w * h,
                                c == x + z * w,
                                x < w,
                                z < h,
                                c % (w as int) == x && c / (w as int) == z,
                                cell == self.cells@[c],
                                in_cell(self.cells@, c, span_index as int),
                                n == self.spans@.len(),
                                span == self.spans@[span_index as int],
                                direction <= 4,
                                neighbor_count == direction,
                                on_boundary ==> direction < 4 && self.boundary_side(c, span_index as int, direction),
                                forall|d: u8| d < direction ==> !#[trigger] self.boundary_side(c, span_index as int, d),
                            decreases 4 - direction + (if on_boundary {
                                0int
                            } else {
                                1int
                            }),
                        {
                            match span.con(direction) {
                                None => {
                                    on_boundary = true;
                                },
                                Some(neighbor_connection) => {
                                    proof {
                                        self.lemma_link(x as int, z as int, span_index as int, direction);
                                    }
                                    let neighbor_x = x as i32 + dir_offset_x(direction) as i32;
                                    let neighbor_z = z as i32 + dir_offset_z(direction) as i32;
                                    let neighbor_cell = *self.cell_at(neighbor_x as u16, neighbor_z as u16);
                                    let neighbor_span_index = neighbor_cell.index as usize + neighbor_connection as usize;
                                    if !self.areas[neighbor_span_index].is_walkable() {
                                        on_boundary = true;
                                    } else {
                                        neighbor_count += 1;
                                        direction += 1;
                                    }
                                },
                            }
                        }
                        proof {
                            if !on_boundary {
                                assert forall|d: u8| d < 4 implies !#[trigger] self.boundary_side(c, span_index as int, d) by {
                                }
                                assert(!self.erosion_boundary(c, span_index as int));
                            }
                        }
                    }
                    // At least one missing neighbour, so this is a boundary cell.
                    if on_boundary {
                        distance_to_boundary.set(span_index, 0);
                        proof {
                            assert forall|j: int|
                                0 <= j < n && #[trigger] distance_to_boundary@[j] == 0 implies exists|c2: int|
                                    0 <= c2 < self.cells@.len() && #[trigger] in_cell(self.cells@, c2, j) && self.erosion_boundary(c2, j) by {
                                if j == span_index {
                                    assert(in_cell(self.cells@, c, j));
                                } else {
                                    assert(distance_to_boundary@[j] == d0[j]);
                                }
                            }
                            assert(self.erosion_boundary(c, span_index as int));
                            assert(self.near_boundary(c, span_index as int, 0));
                            assert forall|c2: int, j: int|
                                0 <= c2 < self.cells@.len() && #[trigger] in_cell(self.cells@, c2, j) && distance_to_boundary@[j]
                                    < 255 implies self.near_boundary(c2, j, distance_to_boundary@[j] as int) by {
                                if j == span_index {
                                    assert(cells_partition(self.cells@, self.spans@.len() as int));
                                } else {
                                    assert(distance_to_boundary@[j] == d0[j]);
                                }
                            }
                        }
                    }
                    span_index += 1;
                }
                proof {
                    assert forall|c2: int, j: int|
                        0 <= c2 < x + 1 + z * w && #[trigger] in_cell(self.cells@, c2, j) && self.erosion_boundary(c2, j)
                            implies distance_to_boundary@[j] == 0 by {
                        if c2 == c {
                        }
                    }
                }
                x = x + 1;
            }
            proof {
                assert((z + 1) * w == x + z * w) by (nonlinear_arith)
                    requires
                        x == w,
                ;
            }
            z = z + 1;
        }
        proof {
            assert(h * w == w * h) by (nonlinear_arith);
        }
        let ghost marked = distance_to_boundary@;
        proof {
            assert forall|j: int| 0 <= j < n implies #[trigger] marked[j] == self.boundary_marks()[j] by {
                if exists|c: int| 0 <= c < self.cells@.len() && #[trigger] in_cell(self.cells@, c, j) && self.erosion_boundary(c, j) {
                    let c = choose|c: int| 0 <= c < self.cells@.len() && #[trigger] in_cell(self.cells@, c, j) && self.erosion_boundary(c, j);
                    assert(c < h * w);
                }
            }
            assert(marked =~= self.boundary_marks());
        }
        // Forward pass: neighbours to the left and below.
        let mut z: u16 = 0;
        while z < h
            invariant
                self.wf(),
                *self == orig,
                w == self.width,
                h == self.height,
                n == self.spans@.len(),
                z <= h,
                self.distances_sound(distance_to_boundary@),
                forall|j: int| 0 <= j < n ==> #[trigger] distance_to_boundary@[j] <= marked[j],
                distance_to_boundary@ == self.forward_pass(marked, z * w),
                forall|c2: int, j: int|
                    0 <= c2 < z * w && #[trigger] in_cell(self.cells@, c2, j) ==> self.relaxed_toward(distance_to_boundary@, marked, c2, j, 0)
                        && self.relaxed_toward(distance_to_boundary@, marked, c2, j, 3),
            decreases h - z,
        {
            let mut x: u16 = 0;
            while x < w
                invariant
                    self.wf(),
                    *self == orig,
                    w == self.width,
                    h == self.height,
                    n == self.spans@.len(),
                    z < h,
                    x <= w,
                    self.distances_sound(distance_to_boundary@),
                    forall|j: int| 0 <= j < n ==> #[trigger] distance_to_boundary@[j] <= marked[j],
                    distance_to_boundary@ == self.forward_pass(marked, x + z * w),
                    forall|c2: int, j: int|
                        0 <= c2 < x + z * w && #[trigger] in_cell(self.cells@, c2, j) ==> self.relaxed_toward(distance_to_boundary@, marked, c2, j, 0)
                            && self.relaxed_toward(distance_to_boundary@, marked, c2, j, 3),
                decreases w - x,
            {
                let ghost c = x + z * w;
                proof {
                    assert(0 <= c < w * h) by (nonlinear_arith)
                        requires
                            x < w,
                            z < h,
                            c == x + z * w,
                    ;
                }
                let cell = *self.cell_at(x, z);
                let max_span_index = cell.index as usize + cell.count as usize;
                let mut i = cell.index as usize;
                while i < max_span_index
                    invariant
                        self.wf(),
                        *self == orig,
                        w == self.width,
                        h == self.height,
                        n == self.spans@.len(),
                        x < w,
                        z < h,
                        0 <= c < w * h,
                        c == x + z * w,
                        cell == self.cells@[c],
                        max_span_index == cell.index + cell.count,
                        max_span_index <= n,
                        cell.index <= i <= max_span_index,
                        self.distances_sound(distance_to_boundary@),
                        forall|j: int| 0 <= j < n ==> #[trigger] distance_to_boundary@[j] <= marked[j],
                        distance_to_boundary@ == self.relax_cell(self.forward_pass(marked, c), c, 0, 3, i - cell.index),
                        forall|c2: int, j: int|
                            (0 <= c2 < c || (c2 == c && j < i)) && #[trigger] in_cell(self.cells@, c2, j) ==> self.relaxed_toward(distance_to_boundary@, marked, c2, j, 0)
                                && self.relaxed_toward(distance_to_boundary@, marked, c2, j, 3),
                    decreases max_span_index - i,
                {
                    let ghost before = distance_to_boundary@;
                    self.relax_distance(&mut distance_to_boundary, x, z, i, 0);
                    let ghost mid = distance_to_boundary@;
                    self.relax_distance(&mut distance_to_boundary, x, z, i, 3);
                    proof {
                        assert forall|j: int| 0 <= j < n implies #[trigger] distance_to_boundary@[j] <= marked[j] by {
                            assert(before[j] <= marked[j]);
                        }
                        assert forall|c2: int, j: int|
                            (0 <= c2 < c || (c2 == c && j < i + 1)) && #[trigger] in_cell(self.cells@, c2, j) implies self.relaxed_toward(
                            distance_to_boundary@,
                            marked,
                            c2,
                            j,
                            0,
                        ) && self.relaxed_toward(distance_to_boundary@, marked, c2, j, 3) by {
                            assert(self.cells@[c2].index + self.cells@[c2].count <= n);
                            assert(distance_to_boundary@[j] <= mid[j] && mid[j] <= before[j]);
                            if c2 == c && j == i {
                                assert(in_cell(self.cells@, x + z * w, i as int));
                                if let Some((nc, aj)) = self.linked_span(c, j, 0) {
                                    self.lemma_link(x as int, z as int, j, 0);
                                    assert(before[aj] <= marked[aj]);
                                }
                                if let Some((nc, aj)) = self.linked_span(c, j, 3) {
                                    self.lemma_link(x as int, z as int, j, 3);
                                    assert(mid[aj] <= marked[aj]);
                                }
                            }
                        }
                    }
                    i += 1;
                }
                proof {
                    assert(self.forward_pass(marked, c + 1) == self.relax_cell(self.forward_pass(marked, c), c, 0, 3, cell.count as int));
                    assert forall|c2: int, j: int|
                        0 <= c2 < x + 1 + z * w && #[trigger] in_cell(self.cells@, c2, j) implies self.relaxed_toward(
                        distance_to_boundary@,
                        marked,
                        c2,
                        j,
                        0,
                    ) && self.relaxed_toward(distance_to_boundary@, marked, c2, j, 3) by {
                        if c2 == c {
                        }
                    }
                }
                x = x + 1;
            }
            proof {
                assert((z + 1) * w == x + z * w) by (nonlinear_arith)
                    requires
                        x == w,
                ;
            }
            z = z + 1;
        }
        proof {
            assert(h * w == w * h) by (nonlinear_arith);
        }
        // Backward pass: neighbours to the right and above.
        let mut z: u16 = h;
        while z > 0
            invariant
                self.wf(),
                *self == orig,
                w == self.width,
                h == self.height,
                n == self.spans@.len(),
                z <= h,
                self.distances_sound(distance_to_boundary@),
                forall|j: int| 0 <= j < n ==> #[trigger] distance_to_boundary@[j] <= marked[j],
                distance_to_boundary@ == self.backward_pass(self.forward_pass(marked, w * h), w * h - z * w),
                forall|c2: int, j: int|
                    0 <= c2 < w * h && #[trigger] in_cell(self.cells@, c2, j) ==> self.relaxed_toward(distance_to_boundary@, marked, c2, j, 0)
                        && self.relaxed_toward(distance_to_boundary@, marked, c2, j, 3),
                forall|c2: int, j: int|
                    z * w <= c2 < w * h && #[trigger] in_cell(self.cells@, c2, j) ==> self.relaxed_toward(distance_to_boundary@, marked, c2, j, 2)
                        && self.relaxed_toward(distance_to_boundary@, marked, c2, j, 1),
            decreases z,
        {
            z = z - 1;
            proof {
                assert(w + z * w == (z + 1) * w) by (nonlinear_arith);
            }
            let mut x: u16 = w;
            while x > 0
                invariant
                    self.wf(),
                    *self == orig,
                    w == self.width,
                    h == self.height,
                    n == self.spans@.len(),
                    z < h,
                    x <= w,
                    self.distances_sound(distance_to_boundary@),
                    forall|j: int| 0 <= j < n ==> #[trigger] distance_to_boundary@[j] <= marked[j],
                    distance_to_boundary@ == self.backward_pass(self.forward_pass(marked, w * h), w * h - (x + z * w)),
                    forall|c2: int, j: int|
                        0 <= c2 < w * h && #[trigger] in_cell(self.cells@, c2, j) ==> self.relaxed_toward(distance_to_boundary@, marked, c2, j, 0)
                            && self.relaxed_toward(distance_to_boundary@, marked, c2, j, 3),
                    forall|c2: int, j: int|
                        x + z * w <= c2 < w * h && #[trigger] in_cell(self.cells@, c2, j) ==> self.relaxed_toward(distance_to_boundary@, marked, c2, j, 2)
                            && self.relaxed_toward(distance_to_boundary@, marked, c2, j, 1),
                decreases x,
            {
                x = x - 1;
                let ghost c = x + z * w;
                proof {
                    assert(0 <= c < w * h) by (nonlinear_arith)
                        requires
                            x < w,
                            z < h,
                            c == x + z * w,
                    ;
                }
                let cell = *self.cell_at(x, z);
                let max_span_index = cell.index as usize + cell.count as usize;
                let mut i = cell.index as usize;
                while i < max_span_index
                    invariant
                        self.wf(),
                        *self == orig,
                        w == self.width,
                        h == self.height,
                        n == self.spans@.len(),
                        x < w,
                        z < h,
                        0 <= c < w * h,
                        c == x + z * w,
                        cell == self.cells@[c],
                        max_span_index == cell.index + cell.count,
                        max_span_index <= n,
                        cell.index <= i <= max_span_index,
                        self.distances_sound(distance_to_boundary@),
                        forall|j: int| 0 <= j < n ==> #[trigger] distance_to_boundary@[j] <= marked[j],
                        distance_to_boundary@ == self.relax_cell(
                            self.backward_pass(self.forward_pass(marked, w * h), w * h - c - 1),
                            c,
                            2,
                            1,
                            i - cell.index,
                        ),
                        forall|c2: int, j: int|
                            0 <= c2 < w * h && #[trigger] in_cell(self.cells@, c2, j) ==> self.relaxed_toward(distance_to_boundary@, marked, c2, j, 0)
                                && self.relaxed_toward(distance_to_boundary@, marked, c2, j, 3),
                        forall|c2: int, j: int|
                            ((c < c2 < w * h) || (c2 == c && j < i)) && #[trigger] in_cell(self.cells@, c2, j) ==> self.relaxed_toward(distance_to_boundary@, marked, c2, j, 2)
                                && self.relaxed_toward(distance_to_boundary@, marked, c2, j, 1),
                    decreases max_span_index - i,
                {
                    let ghost before = distance_to_boundary@;
                    self.relax_distance(&mut distance_to_boundary, x, z, i, 2);
                    let ghost mid = distance_to_boundary@;
                    self.relax_distance(&mut distance_to_boundary, x, z, i, 1);
                    proof {
                        assert forall|j: int| 0 <= j < n implies #[trigger] distance_to_boundary@[j] <= marked[j] by {
                            assert(before[j] <= marked[j]);
                        }
                        assert forall|c2: int, j: int|
                            0 <= c2 < w * h && #[trigger] in_cell(self.cells@, c2, j) implies self.relaxed_toward(
                            distance_to_boundary@,
                            marked,
                            c2,
                            j,
                            0,
                        ) && self.relaxed_toward(distance_to_boundary@, marked, c2, j, 3) by {
                            assert(self.cells@[c2].index + self.cells@[c2].count <= n);
                            assert(distance_to_boundary@[j] <= mid[j] && mid[j] <= before[j]);
                        }
                        assert forall|c2: int, j: int|
                            ((c < c2 < w * h) || (c2 == c && j < i + 1)) && #[trigger] in_cell(self.cells@, c2, j) implies self.relaxed_toward(
                            distance_to_boundary@,
                            marked,
                            c2,
                            j,
                            2,
                        ) && self.relaxed_toward(distance_to_boundary@, marked, c2, j, 1) by {
                            assert(self.cells@[c2].index + self.cells@[c2].count <= n);
                            assert(distance_to_boundary@[j] <= mid[j] && mid[j] <= before[j]);
                            if c2 == c && j == i {
                                if let Some((nc, aj)) = self.linked_span(c, j, 2) {
                                    self.lemma_link(x as int, z as int, j, 2);
                                    assert(before[aj] <= marked[aj]);
                                }
                                if let Some((nc, aj)) = self.linked_span(c, j, 1) {
                                    self.lemma_link(x as int, z as int, j, 1);
                                    assert(mid[aj] <= marked[aj]);
                                }
                            }
                        }
                    }
                    i += 1;
                }
                proof {
                    let fp = self.forward_pass(marked, w * h);
                    assert(w * h - (w * h - c) == c);
                    assert(self.backward_pass(fp, w * h - c) == self.relax_cell(self.backward_pass(fp, w * h - c - 1), c, 2, 1, cell.count as int));
                    assert forall|c2: int, j: int|
                        x + z * w <= c2 < w * h && #[trigger] in_cell(self.cells@, c2, j) implies self.relaxed_toward(
                        distance_to_boundary@,
                        marked,
                        c2,
                        j,
                        2,
                    ) && self.relaxed_toward(distance_to_boundary@, marked, c2, j, 1) by {
                        if c2 == c {
                        }
                    }
                }
            }
        }
        // Erode the spans nearer to the boundary than the radius.
        let thr: u32 = walkable_radius as u32 * 2;
        let mut i: usize = 0;
        while i < n
            invariant
                orig.wf(),
                n == orig.spans@.len(),
                n == orig.areas@.len(),
                i <= n,
                thr == 2 * walkable_radius,
                *self == (CompactHeightfield { areas: self.areas, ..orig }),
                self.areas@.len() == n,
                orig.distances_sound(distance_to_boundary@),
                forall|j: int| 0 <= j < n ==> #[trigger] distance_to_boundary@[j] <= marked[j],
                forall|j: int|
                    i <= j < n ==> #[trigger] self.areas@[j] == orig.areas@[j],
                forall|j: int|
                    0 <= j < i ==> #[trigger] self.areas@[j] == (if (distance_to_boundary@[j] as int) < thr {
                        AreaType(0)
                    } else {
                        orig.areas@[j]
                    }),
            decreases n - i,
        {
            if (distance_to_boundary[i] as u32) < thr {
                self.areas.set(i, AreaType(0));
            }
            i = i + 1;
        }
        proof {
            assert(orig.cells@.len() == w * h);
            assert(distance_to_boundary@ == orig.erosion_distances());
            assert(self.areas@ =~= Seq::new(
                orig.areas@.len(),
                |j: int|
                    if (orig.erosion_distances()[j] as int) < 2 * walkable_radius {
                        AreaType(0)
                    } else {
                        orig.areas@[j]
                    },
            ));
            assert forall|c: int, i: int|
                0 <= c < orig.cells@.len() && #[trigger] in_cell(orig.cells@, c, i) && self.areas@[i] != orig.areas@[i]
                    && walkable_radius < 128 implies exists|k: int| 0 <= k < 2 * walkable_radius && #[trigger] orig.near_boundary(c, i, k) by {
                assert(orig.cells@[c].index + orig.cells@[c].count <= n);
                assert(distance_to_boundary@[i] < 255);
                assert(orig.near_boundary(c, i, distance_to_boundary@[i] as int));
            }
            assert forall|c: int, i: int|
                0 <= c < orig.cells@.len() && #[trigger] in_cell(orig.cells@, c, i) && orig.erosion_boundary(c, i)
                    && walkable_radius > 0 implies self.areas@[i].0 == 0 by {
                assert(orig.cells@[c].index + orig.cells@[c].count <= n);
                assert(marked[i] == 0);
            }
            assert forall|c: int, i: int, d: u8|
                0 <= c < orig.cells@.len() && #[trigger] in_cell(orig.cells@, c, i) && d < 4 && walkable_radius >= 2 && (
                #[trigger] orig.linked_span(c, i, d) matches Some((nc, ai)) && orig.erosion_boundary(nc, ai)) implies self.areas@[i].0
                == 0 by {
                assert(orig.cells@[c].index + orig.cells@[c].count <= n);
                let x = c % (w as int);
                let z = c / (w as int);
                vstd::arithmetic::div_mod::lemma_fundamental_div_mod(c, w as int);
                assert(0 <= z < h) by (nonlinear_arith)
                    requires
                        c == w * z + x,
                        0 <= x < w,
                        0 <= c < w * h,
                ;
                assert(c == x + z * w) by (nonlinear_arith)
                    requires
                        c == w * z + x,
                ;
                let (nc, ai) = orig.linked_span(c, i, d)->0;
                orig.lemma_link(x, z, i, d);
                assert(marked[ai] == 0);
                assert(orig.relaxed_toward(distance_to_boundary@, marked, c, i, d));
                assert(distance_to_boundary@[i] <= 2);
            }
        }
    }
}

} // verus!
