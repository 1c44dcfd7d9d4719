//! Marking the spans inside a convex volume with an area type.

use vstd::prelude::*;
use crate::area::AreaType;
use crate::compact_heightfield::{CompactHeightfield, in_cell};

verus! {

/// The clamped grid footprint of a volume spanning cells `min..=max`, as
/// `(x0, x1, z0, z1)`: empty when the volume lies entirely outside the grid.
pub open spec fn footprint(width: int, height: int, min: (i32, i32, i32), max: (i32, i32, i32)) -> (int, int, int, int) {
    if max.0 < 0 || min.0 >= width || max.2 < 0 || min.2 >= height {
        (0, -1, 0, -1)
    } else {
        (
            if min.0 > 0 { min.0 as int } else { 0 },
            if max.0 < width - 1 { max.0 as int } else { width - 1 },
            if min.2 > 0 { min.2 as int } else { 0 },
            if max.2 < height - 1 { max.2 as int } else { height - 1 },
        )
    }
}

impl CompactHeightfield {
    /// Span `i` is marked: it lies in a cell of the footprint whose centre
    /// is inside the volume, it is walkable, and its floor lies within
    /// `min.1..=max.1`.
    pub open spec fn marked(&self, min: (i32, i32, i32), max: (i32, i32, i32), inside: Seq<bool>, i: int) -> bool {
        let f = footprint(self.width as int, self.height as int, min, max);
        &&& exists|x: int, z: int|
            f.0 <= x <= f.1 && f.2 <= z <= f.3 && #[trigger] in_cell(self.cells@, x + z * self.width, i) && inside[x + z
                * self.width]
        &&& self.areas@[i].spec_is_walkable()
        &&& min.1 <= self.spans@[i].y <= max.1
    }

    /// Sets the area type of the walkable spans of the volume spanning cells
    /// `min..=max` (in cell units, `y` in span heights) whose cell centre
    /// `inside` marks as inside the volume's polygon.
    pub fn mark_area_in_footprint(&mut self, min: (i32, i32, i32), max: (i32, i32, i32), inside: &Vec<bool>, area: AreaType)
        requires
            old(self).wf(),
            inside@.len() == old(self).cells@.len(),
            old(self).cells@.len() <= 0x7fff_ffff,
        ensures
            *final(self) == (CompactHeightfield { areas: final(self).areas, ..*old(self) }),
            final(self).areas@.len() == old(self).areas@.len(),
            forall|i: int|
                0 <= i < old(self).areas@.len() ==> #[trigger] final(self).areas@[i] == (if old(self).marked(min, max, inside@, i) {
                    area
                } else {
                    old(self).areas@[i]
                }),
    {
        let ghost old_self = *self;
        let w = self.width as i32;
        let h = self.height as i32;
        // Early-out if the polygon lies entirely outside the grid.
        if max.0 < 0 || min.0 >= w || max.2 < 0 || min.2 >= h {
            proof {
                assert forall|i: int| 0 <= i < old_self.areas@.len() implies !old_self.marked(min, max, inside@, i) by {}
            }
            return;
        }
        // Clamp the polygon footprint to the grid
        let x0 = if min.0 > 0 { min.0 } else { 0 };
        let x1 = if max.0 < w - 1 { max.0 } else { w - 1 };
        let z0 = if min.2 > 0 { min.2 } else { 0 };
        let z1 = if max.2 < h - 1 { max.2 } else { h - 1 };
        proof {
            assert(footprint(self.width as int, self.height as int, min, max) == (x0 as int, x1 as int, z0 as int, z1 as int));
        }
        proof {
            assert forall|i: int| 0 <= i < self.areas@.len() implies !old_self.marked_upto(min, max, inside@, i, z0 as int) by {}
        }
        let mut z = z0;
        while z <= z1
            invariant
                self.wf(),
                *self == (CompactHeightfield { areas: self.areas, ..old_self }),
                self.areas@.len() == old_self.areas@.len(),
                inside@.len() == self.cells@.len(),
                self.cells@.len() <= 0x7fff_ffff,
                w == self.width,
                h == self.height,
                footprint(w as int, h as int, min, max) == (x0 as int, x1 as int, z0 as int, z1 as int),
                0 <= x0,
                x1 < w,
                0 <= z0 <= z,
                z1 < h,
                z <= z1 + 1 || z == z0,
                forall|i: int|
                    0 <= i < self.areas@.len() ==> #[trigger] self.areas@[i] == (if old_self.marked_upto(min, max, inside@, i, z as int) {
                        area
                    } else {
                        old_self.areas@[i]
                    }),
            decreases z1 + 1 - z,
        {
            proof {
                assert forall|i: int| 0 <= i < self.areas@.len() implies !old_self.marked_in_row(
                    min,
                    max,
                    inside@,
                    i,
                    z as int,
                    x0 as int,
                    x0 as int,
                ) by {}
            }
            let mut x = x0;
            while x <= x1
                invariant
                    self.wf(),
                    *self == (CompactHeightfield { areas: self.areas, ..old_self }),
                    self.areas@.len() == old_self.areas@.len(),
                    inside@.len() == self.cells@.len(),
                    self.cells@.len() <= 0x7fff_ffff,
                    w == self.width,
                    h == self.height,
                    0 <= x0 <= x,
                    x <= x1 + 1 || x == x0,
                    x1 < w,
                    0 <= z0 <= z <= z1,
                    z1 < h,
                    forall|i: int|
                        0 <= i < self.areas@.len() ==> #[trigger] self.areas@[i] == (if old_self.marked_upto(min, max, inside@, i, z as int)
                            || old_self.marked_in_row(min, max, inside@, i, z as int, x0 as int, x as int) {
                            area
                        } else {
                            old_self.areas@[i]
                        }),
                decreases x1 + 1 - x,
            {
                let ghost c = x + z * self.width;
                proof {
                    assert(c < self.width * self.height) by (nonlinear_arith)
                        requires
                            0 <= x < self.width,
                            0 <= z < self.height,
                            c == x + z * self.width,
                    ;
                    assert(0 <= z * self.width) by (nonlinear_arith)
                        requires
                            0 <= z,
                    ;
                    assert(self.cells@[c].index + self.cells@[c].count <= self.spans@.len());
                    assert(self.spans.len() == self.spans@.len());
                }
                let cell_index = (x + z * w) as usize;
                let cell = self.cells[cell_index];
                let max_index = cell.index as usize + cell.count as usize;
                let mut i = cell.index as usize;
                while i < max_index
                    invariant
                        self.wf(),
                        *self == (CompactHeightfield { areas: self.areas, ..old_self }),
                        self.areas@.len() == old_self.areas@.len(),
                        inside@.len() == self.cells@.len(),
                        0 <= x0 <= x <= x1,
                        x1 < w,
                        0 <= z0 <= z <= z1,
                        z1 < h,
                        w == self.width,
                        h == self.height,
                        cell_index == x + z * self.width,
                        cell_index < self.cells@.len(),
                        cell == self.cells@[cell_index as int],
                        max_index == cell.index + cell.count,
                        max_index <= self.spans@.len(),
                        cell.index <= i,
                        forall|i2: int|
                            0 <= i2 < self.areas@.len() ==> #[trigger] self.areas@[i2] == (if old_self.marked_upto(min, max, inside@, i2, z as int)
                                || old_self.marked_in_row(min, max, inside@, i2, z as int, x0 as int, x as int) || (cell.index <= i2 < i
                                && old_self.marked_at(min, max, inside@, i2, x as int, z as int)) {
                                area
                            } else {
                                old_self.areas@[i2]
                            }),
                    decreases max_index - i,
                {
                    proof {
                        old_self.lemma_marked_cells(min, max, inside@, i as int, x as int, z as int);
                    }
                    let span_y = self.spans[i].y as i32;
                    // Skip if span is removed, or if y extents don't overlap.
                    if self.areas[i].is_walkable() && !(span_y < min.1 || span_y > max.1) && inside[cell_index] {
                        self.areas.set(i, area);
                    }
                    i = i + 1;
                }
                proof {
                    assert forall|i2: int| 0 <= i2 < self.areas@.len() implies #[trigger] self.areas@[i2] == (if old_self.marked_upto(
                        min,
                        max,
                        inside@,
                        i2,
                        z as int,
                    ) || old_self.marked_in_row(min, max, inside@, i2, z as int, x0 as int, x + 1) {
                        area
                    } else {
                        old_self.areas@[i2]
                    }) by {
                        old_self.lemma_marked_cells(min, max, inside@, i2, x as int, z as int);
                    }
                }
                x = x + 1;
            }
            proof {
                assert forall|i2: int| 0 <= i2 < self.areas@.len() implies #[trigger] self.areas@[i2] == (if old_self.marked_upto(
                    min,
                    max,
                    inside@,
                    i2,
                    z + 1,
                ) {
                    area
                } else {
                    old_self.areas@[i2]
                }) by {
                    old_self.lemma_row_step(min, max, inside@, i2, z as int);
                    if x != x1 + 1 {
                        assert(!old_self.marked_in_row(min, max, inside@, i2, z as int, x0 as int, x as int));
                        assert(!old_self.marked_in_row(min, max, inside@, i2, z as int, x0 as int, x1 + 1));
                    }
                }
            }
            z = z + 1;
        }
        proof {
            assert forall|i: int| 0 <= i < self.areas@.len() implies #[trigger] old_self.marked_upto(min, max, inside@, i, z as int)
                == old_self.marked(min, max, inside@, i) by {
                old_self.lemma_marked_all(min, max, inside@, i, z as int);
            }
        }
    }

    /// Span `i` is marked from cell `(x, z)`.
    pub open spec fn marked_at(&self, min: (i32, i32, i32), max: (i32, i32, i32), inside: Seq<bool>, i: int, x: int, z: int) -> bool {
        &&& in_cell(self.cells@, x + z * self.width, i)
        &&& inside[x + z * self.width]
        &&& self.areas@[i].spec_is_walkable()
        &&& min.1 <= self.spans@[i].y <= max.1
    }

    /// Span `i` is marked from a cell of the footprint in a row before `z`.
    pub open spec fn marked_upto(&self, min: (i32, i32, i32), max: (i32, i32, i32), inside: Seq<bool>, i: int, z: int) -> bool {
        let f = footprint(self.width as int, self.height as int, min, max);
        exists|x2: int, z2: int| f.0 <= x2 <= f.1 && f.2 <= z2 < z && #[trigger] self.marked_at(min, max, inside, i, x2, z2)
    }

    /// Span `i` is marked from a cell of row `z` in columns `x0..x`.
    pub open spec fn marked_in_row(&self, min: (i32, i32, i32), max: (i32, i32, i32), inside: Seq<bool>, i: int, z: int, x0: int, x: int) -> bool {
        exists|x2: int| x0 <= x2 < x && #[trigger] self.marked_at(min, max, inside, i, x2, z)
    }

    /// Span `i` lies in cell `(x, z)` only, so cells before and after it do
    /// not mark it.
    proof fn lemma_marked_cells(&self, min: (i32, i32, i32), max: (i32, i32, i32), inside: Seq<bool>, i: int, x: int, z: int)
        requires
            self.wf(),
            0 <= x < self.width,
            0 <= z < self.height,
        ensures
            forall|x2: int, z2: int|
                0 <= x2 < self.width && 0 <= z2 < self.height && (x2 != x || z2 != z) && in_cell(self.cells@, x + z * self.width, i)
                    ==> !#[trigger] self.marked_at(min, max, inside, i, x2, z2),
    {
        assert forall|x2: int, z2: int|
            0 <= x2 < self.width && 0 <= z2 < self.height && (x2 != x || z2 != z) && in_cell(self.cells@, x + z * self.width, i)
                implies !#[trigger] self.marked_at(min, max, inside, i, x2, z2) by {
            if self.marked_at(min, max, inside, i, x2, z2) {
                let c1 = x + z * self.width;
                let c2 = x2 + z2 * self.width;
                assert(c1 < self.width * self.height) by (nonlinear_arith)
                    requires
                        0 <= x < self.width,
                        0 <= z < self.height,
                        c1 == x + z * self.width,
                ;
                assert(c2 < self.width * self.height) by (nonlinear_arith)
                    requires
                        0 <= x2 < self.width,
                        0 <= z2 < self.height,
                        c2 == x2 + z2 * self.width,
                ;
                assert(0 <= z * self.width) by (nonlinear_arith)
                    requires
                        0 <= z,
                ;
                assert(0 <= z2 * self.width) by (nonlinear_arith)
                    requires
                        0 <= z2,
                ;
                assert(in_cell(self.cells@, c1, i) && in_cell(self.cells@, c2, i));
                vstd::arithmetic::div_mod::lemma_fundamental_div_mod_converse(c1, self.width as int, z, x);
                vstd::arithmetic::div_mod::lemma_fundamental_div_mod_converse(c2, self.width as int, z2, x2);
            }
        }
    }

    /// Finishing row `z` extends the rows before it.
    proof fn lemma_row_step(&self, min: (i32, i32, i32), max: (i32, i32, i32), inside: Seq<bool>, i: int, z: int)
        requires
            footprint(self.width as int, self.height as int, min, max).2 <= z,
        ensures
            self.marked_upto(min, max, inside, i, z + 1) == (self.marked_upto(min, max, inside, i, z) || self.marked_in_row(
                min,
                max,
                inside,
                i,
                z,
                footprint(self.width as int, self.height as int, min, max).0,
                footprint(self.width as int, self.height as int, min, max).1 + 1,
            )),
    {
        let f = footprint(self.width as int, self.height as int, min, max);
        if self.marked_upto(min, max, inside, i, z) {
            let (x2, z2) = choose|x2: int, z2: int| f.0 <= x2 <= f.1 && f.2 <= z2 < z && #[trigger] self.marked_at(min, max, inside, i, x2, z2);
            assert(self.marked_upto(min, max, inside, i, z + 1));
        }
        if self.marked_upto(min, max, inside, i, z + 1) {
            let (x2, z2) = choose|x2: int, z2: int| f.0 <= x2 <= f.1 && f.2 <= z2 < z + 1 && #[trigger] self.marked_at(min, max, inside, i, x2, z2);
            if z2 < z {
                assert(self.marked_upto(min, max, inside, i, z));
            } else {
                assert(self.marked_in_row(min, max, inside, i, z, f.0, f.1 + 1));
            }
        }
        if self.marked_in_row(min, max, inside, i, z, f.0, f.1 + 1) {
            let x2 = choose|x2: int| f.0 <= x2 < f.1 + 1 && #[trigger] self.marked_at(min, max, inside, i, x2, z);
            if f.2 <= z {
                assert(self.marked_upto(min, max, inside, i, z + 1));
            }
        }
    }

    /// All the rows of the footprint mark exactly the marked spans.
    proof fn lemma_marked_all(&self, min: (i32, i32, i32), max: (i32, i32, i32), inside: Seq<bool>, i: int, z: int)
        requires
            z == footprint(self.width as int, self.height as int, min, max).3 + 1 || (footprint(
                self.width as int,
                self.height as int,
                min,
                max,
            ).2 > footprint(self.width as int, self.height as int, min, max).3 && z == footprint(
                self.width as int,
                self.height as int,
                min,
                max,
            ).2),
        ensures
            self.marked_upto(min, max, inside, i, z) == self.marked(min, max, inside, i),
    {
        let f = footprint(self.width as int, self.height as int, min, max);
        if self.marked_upto(min, max, inside, i, z) {
            let (x2, z2) = choose|x2: int, z2: int| f.0 <= x2 <= f.1 && f.2 <= z2 < z && #[trigger] self.marked_at(min, max, inside, i, x2, z2);
            assert(in_cell(self.cells@, x2 + z2 * self.width, i));
        }
        if self.marked(min, max, inside, i) {
            let (x2, z2) = choose|x2: int, z2: int|
                f.0 <= x2 <= f.1 && f.2 <= z2 <= f.3 && #[trigger] in_cell(self.cells@, x2 + z2 * self.width, i) && inside[x2 + z2 * self.width];
            assert(self.marked_at(min, max, inside, i, x2, z2));
        }
    }
}

/// The area types after marking the volume spanning `min..=max` with
/// `area`.
pub open spec fn marked_areas(
    chf: CompactHeightfield,
    min: (i32, i32, i32),
    max: (i32, i32, i32),
    inside: Seq<bool>,
    area: AreaType,
) -> Seq<AreaType> {
    Seq::new(chf.areas@.len(), |i: int| if chf.marked(min, max, inside, i) { area } else { chf.areas@[i] })
}

/// Marking a volume twice marks as once: on the field as the first marking
/// leaves it, a second one changes no area type.
pub proof fn law_mark_idempotent(
    chf: CompactHeightfield,
    min: (i32, i32, i32),
    max: (i32, i32, i32),
    inside: Seq<bool>,
    area: AreaType,
    marked_once: CompactHeightfield,
)
    requires
        marked_once == (CompactHeightfield { areas: marked_once.areas, ..chf }),
        marked_once.areas@ == marked_areas(chf, min, max, inside, area),
    ensures
        marked_areas(marked_once, min, max, inside, area) == marked_once.areas@,
{
    assert forall|i: int| 0 <= i < marked_once.areas@.len() implies #[trigger] marked_areas(marked_once, min, max, inside, area)[i]
        == marked_once.areas@[i] by {
        if chf.marked(min, max, inside, i) {
            let f = footprint(chf.width as int, chf.height as int, min, max);
            let (x, z) = choose|x: int, z: int|
                f.0 <= x <= f.1 && f.2 <= z <= f.3 && #[trigger] in_cell(chf.cells@, x + z * chf.width, i) && inside[x + z
                    * chf.width];
            assert(in_cell(marked_once.cells@, x + z * marked_once.width, i));
        }
    }
    assert(marked_areas(marked_once, min, max, inside, area) =~= marked_once.areas@);
}

} // verus!
