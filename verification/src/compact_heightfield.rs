//! The compact heightfield: the walkable spans of a heightfield, packed
//! column by column, with links to their neighbours.

use vstd::prelude::*;
use crate::area::AreaType;
use crate::compact_cell::CompactCell;
use crate::compact_span::CompactSpan;
use crate::heightfield::{Heightfield, head_of, next_of, lemma_link_at, lemma_links_basic};
use crate::math::{dir_offset_x, dir_offset_z, spec_dir_offset_x, spec_dir_offset_z};
use crate::region::RegionId;
use crate::span::{Span, SpanKey};

verus! {

/// The floor of the space above position `t` of a chain: the floor of the
/// next span, or the top of the world.
pub open spec fn span_top(m: Map<u64, Span>, ch: Seq<SpanKey>, t: int) -> u16 {
    if t + 1 < ch.len() {
        m[ch[t + 1].ffi].min
    } else {
        0xffff
    }
}

/// The height of open space between `bot` and `top`, at most 255.
pub open spec fn open_height(bot: u16, top: u16) -> u8 {
    if top > bot {
        if top - bot > 255 {
            255
        } else {
            (top - bot) as u8
        }
    } else {
        0
    }
}

/// The compact entries `(floor, open height, area)` of the walkable spans at
/// positions `t..` of a chain.
pub open spec fn column_entries_from(m: Map<u64, Span>, ch: Seq<SpanKey>, t: int) -> Seq<(u16, u8, AreaType)>
    decreases ch.len() - t,
{
    if t < 0 || t >= ch.len() {
        Seq::empty()
    } else {
        let s = m[ch[t].ffi];
        let rest = column_entries_from(m, ch, t + 1);
        if s.area.spec_is_walkable() {
            seq![(s.max, open_height(s.max, span_top(m, ch, t)), s.area)] + rest
        } else {
            rest
        }
    }
}

/// The compact entries of all columns below index `n`, column after column.
pub open spec fn entries_upto(m: Map<u64, Span>, chains: Seq<Seq<SpanKey>>, n: int) -> Seq<(u16, u8, AreaType)>
    decreases n,
{
    if n <= 0 {
        Seq::empty()
    } else {
        entries_upto(m, chains, n - 1) + column_entries_from(m, chains[n - 1], 0)
    }
}

/// What building a compact heightfield stores for the column `c` of a
/// heightfield: its first entry and its number of entries, or zeros for a
/// column without spans.
pub open spec fn expected_cell(hf: Heightfield, c: int) -> CompactCell {
    if hf.chains@[c].len() == 0 {
        CompactCell { index: 0, count: 0 }
    } else {
        CompactCell {
            index: entries_upto(hf.allocated_spans@, hf.chains@, c).len() as u32,
            count: column_entries_from(hf.allocated_spans@, hf.chains@[c], 0).len() as u8,
        }
    }
}

/// The entries of every column of a heightfield.
pub open spec fn all_entries(hf: Heightfield) -> Seq<(u16, u8, AreaType)> {
    entries_upto(hf.allocated_spans@, hf.chains@, hf.width * hf.height)
}

/// A packed heightfield column may hold at most 255 walkable spans, and all
/// of them together fewer than 2^31.
pub open spec fn compactable(hf: Heightfield) -> bool {
    &&& forall|c: int|
        0 <= c < hf.width * hf.height ==> #[trigger] column_entries_from(hf.allocated_spans@, hf.chains@[c], 0).len()
            <= 255
    &&& all_entries(hf).len() <= 0x7fff_ffff
}

/// The entries below column `n` come first among those below column `n2`.
proof fn lemma_entries_prefix(m: Map<u64, Span>, chains: Seq<Seq<SpanKey>>, n: int, n2: int)
    requires
        0 <= n <= n2,
    ensures
        entries_upto(m, chains, n).len() <= entries_upto(m, chains, n2).len(),
        forall|i: int|
            0 <= i < entries_upto(m, chains, n).len() ==> #[trigger] entries_upto(m, chains, n)[i]
                == entries_upto(m, chains, n2)[i],
    decreases n2 - n,
{
    if n < n2 {
        lemma_entries_prefix(m, chains, n, n2 - 1);
        let a = entries_upto(m, chains, n2 - 1);
        assert(entries_upto(m, chains, n2) == a + column_entries_from(m, chains[n2 - 1], 0));
        assert forall|i: int| 0 <= i < entries_upto(m, chains, n).len() implies #[trigger] entries_upto(
            m,
            chains,
            n,
        )[i] == entries_upto(m, chains, n2)[i] by {
            assert(entries_upto(m, chains, n)[i] == a[i]);
        }
    }
}

/// Entries never record more open space than lies above their floor.
proof fn lemma_entries_fit(m: Map<u64, Span>, ch: Seq<SpanKey>, t: int)
    ensures
        forall|i: int|
            0 <= i < column_entries_from(m, ch, t).len() ==> (#[trigger] column_entries_from(m, ch, t)[i]).0
                + column_entries_from(m, ch, t)[i].1 <= 0xffff,
    decreases ch.len() - t,
{
    if 0 <= t < ch.len() {
        lemma_entries_fit(m, ch, t + 1);
        let rest = column_entries_from(m, ch, t + 1);
        let s = m[ch[t].ffi];
        if s.area.spec_is_walkable() {
            let e = (s.max, open_height(s.max, span_top(m, ch, t)), s.area);
            assert(column_entries_from(m, ch, t) == seq![e] + rest);
            assert forall|i: int| 0 <= i < column_entries_from(m, ch, t).len() implies (#[trigger] column_entries_from(
                m,
                ch,
                t,
            )[i]).0 + column_entries_from(m, ch, t)[i].1 <= 0xffff by {
                if i > 0 {
                    assert(column_entries_from(m, ch, t)[i] == rest[i - 1]);
                }
            }
        }
    }
}

/// The floor and open height of each span.
pub open spec fn span_geometry(spans: Seq<CompactSpan>) -> Seq<(u16, u8)> {
    spans.map_values(|s: CompactSpan| (s.y, s.spec_height()))
}

/// Whether an agent can step from a span of geometry `a` onto one of
/// geometry `b`: the shared open space is at least `walkable_height` and the
/// floors differ by at most `walkable_climb`.
pub open spec fn can_step(a: (u16, u8), b: (u16, u8), walkable_height: u16, walkable_climb: u16) -> bool {
    let bot = if a.0 > b.0 { a.0 } else { b.0 };
    let top = if a.0 + a.1 < b.0 + b.1 { a.0 + a.1 } else { b.0 + b.1 };
    let climb = if b.0 >= a.0 { b.0 - a.0 } else { a.0 - b.0 };
    top - bot >= walkable_height && climb <= walkable_climb
}

/// The first index in `k..end` whose span can be stepped onto from span `i`.
pub open spec fn first_step(g: Seq<(u16, u8)>, i: int, k: int, end: int, walkable_height: u16, walkable_climb: u16) -> Option<int>
    decreases end - k,
{
    if k >= end {
        None
    } else if can_step(g[i], g[k], walkable_height, walkable_climb) {
        Some(k)
    } else {
        first_step(g, i, k + 1, end, walkable_height, walkable_climb)
    }
}

/// The last index in `start..k` whose span can be stepped onto from span `i`.
pub open spec fn last_step(g: Seq<(u16, u8)>, i: int, start: int, k: int, walkable_height: u16, walkable_climb: u16) -> Option<int>
    decreases k - start,
{
    if k <= start {
        None
    } else if can_step(g[i], g[k - 1], walkable_height, walkable_climb) {
        Some(k - 1)
    } else {
        last_step(g, i, start, k - 1, walkable_height, walkable_climb)
    }
}

/// The cell next to `(x, z)` in direction `dir`, if inside the grid.
pub open spec fn neighbor_cell(cells: Seq<CompactCell>, w: int, h: int, x: int, z: int, dir: u8) -> Option<CompactCell> {
    let nx = x + spec_dir_offset_x(dir);
    let nz = z + spec_dir_offset_z(dir);
    if 0 <= nx < w && 0 <= nz < h {
        Some(cells[nx + nz * w])
    } else {
        None
    }
}

/// The largest layer index a connection is stored for.
pub open spec fn max_layers() -> int {
    62
}

/// The connection that span `i` of cell `(x, z)` gets in direction `dir`:
/// the layer of the first span of the neighbour cell it can step onto, if
/// that layer is at most [`max_layers`].
pub open spec fn expected_con(
    cells: Seq<CompactCell>,
    g: Seq<(u16, u8)>,
    w: int,
    h: int,
    x: int,
    z: int,
    i: int,
    dir: u8,
    walkable_height: u16,
    walkable_climb: u16,
) -> Option<u8> {
    match neighbor_cell(cells, w, h, x, z, dir) {
        None => None,
        Some(nc) => match first_step(g, i, nc.index as int, nc.index + nc.count, walkable_height, walkable_climb) {
            None => None,
            Some(k) => if k - nc.index <= max_layers() {
                Some((k - nc.index) as u8)
            } else {
                None
            },
        },
    }
}

/// The layer that is dropped for span `i` of cell `(x, z)` in direction
/// `dir` because even the first span it can step onto lies at a layer
/// above [`max_layers`]: the last such layer, or 0 when none is dropped.
pub open spec fn dropped_layer(
    cells: Seq<CompactCell>,
    g: Seq<(u16, u8)>,
    w: int,
    h: int,
    x: int,
    z: int,
    i: int,
    dir: u8,
    walkable_height: u16,
    walkable_climb: u16,
) -> int {
    match neighbor_cell(cells, w, h, x, z, dir) {
        None => 0,
        Some(nc) => match first_step(g, i, nc.index as int, nc.index + nc.count, walkable_height, walkable_climb) {
            Some(k) => if k - nc.index > max_layers() {
                match last_step(g, i, nc.index as int, nc.index + nc.count, walkable_height, walkable_climb) {
                    Some(l) => l - nc.index,
                    None => 0,
                }
            } else {
                0
            },
            None => 0,
        },
    }
}

/// Span `i` lies in the span range of cell `c`.
pub open spec fn in_cell(cells: Seq<CompactCell>, c: int, i: int) -> bool {
    cells[c].index <= i < cells[c].index + cells[c].count
}

/// The cells' span ranges lie inside the spans and do not overlap.
pub open spec fn cells_partition(cells: Seq<CompactCell>, n_spans: int) -> bool {
    &&& forall|c: int| 0 <= c < cells.len() ==> #[trigger] cells[c].index + cells[c].count <= n_spans
    &&& forall|c1: int, c2: int, i: int|
        0 <= c1 < cells.len() && 0 <= c2 < cells.len() && #[trigger] in_cell(cells, c1, i) && #[trigger] in_cell(
            cells,
            c2,
            i,
        ) ==> c1 == c2
}

/// `first_step` moves past a span that cannot be stepped onto.
proof fn lemma_first_step_unfold(g: Seq<(u16, u8)>, i: int, k: int, end: int, wh: u16, wc: u16)
    requires
        k < end,
    ensures
        first_step(g, i, k, end, wh, wc) == (if can_step(g[i], g[k], wh, wc) {
            Some(k)
        } else {
            first_step(g, i, k + 1, end, wh, wc)
        }),
{
}

/// The first index found by `first_step` lies in the searched range.
proof fn lemma_first_step_range(g: Seq<(u16, u8)>, i: int, k: int, end: int, wh: u16, wc: u16)
    ensures
        first_step(g, i, k, end, wh, wc) matches Some(f) ==> k <= f < end && can_step(g[i], g[f], wh, wc),
    decreases end - k,
{
    if k < end {
        lemma_first_step_range(g, i, k + 1, end, wh, wc);
    }
}

/// The last index found by `last_step` lies in the searched range.
proof fn lemma_last_step_range(g: Seq<(u16, u8)>, i: int, start: int, k: int, wh: u16, wc: u16)
    ensures
        last_step(g, i, start, k, wh, wc) matches Some(l) ==> start <= l < k,
    decreases k - start,
{
    if k > start {
        lemma_last_step_range(g, i, start, k - 1, wh, wc);
    }
}

/// Some span of `start..k` can be stepped onto, so the last one exists.
proof fn lemma_last_step_some(g: Seq<(u16, u8)>, i: int, start: int, k: int, f: int, wh: u16, wc: u16)
    requires
        start <= f < k,
        can_step(g[i], g[f], wh, wc),
    ensures
        last_step(g, i, start, k, wh, wc) is Some,
    decreases k - start,
{
    if !can_step(g[i], g[k - 1], wh, wc) {
        lemma_last_step_some(g, i, start, k - 1, f, wh, wc);
    }
}

/// Searches the spans `n_start..n_end` of a neighbour cell for the first one
/// that span `i` can step onto; returns its layer if at most
/// [`max_layers`], and raises `max_layer` to every layer found above it.
fn find_connection(
    spans: &Vec<CompactSpan>,
    i: usize,
    n_start: usize,
    n_end: usize,
    walkable_height: u16,
    walkable_climb: u16,
    max_layer: u32,
) -> (r: (Option<u8>, u32))
    requires
        i < spans@.len(),
        n_start <= n_end <= spans@.len(),
        spans@.len() <= 0x7fff_ffff,
        forall|j: int| 0 <= j < spans@.len() ==> (#[trigger] spans@[j]).y + spans@[j].spec_height() <= 0xffff,
    ensures
        r.0 matches Some(v) ==> v <= 62,
        first_step(span_geometry(spans@), i as int, n_start as int, n_end as int, walkable_height, walkable_climb) is Some
            ==> last_step(span_geometry(spans@), i as int, n_start as int, n_end as int, walkable_height, walkable_climb) is Some,
        ({
            let g = span_geometry(spans@);
            match first_step(g, i as int, n_start as int, n_end as int, walkable_height, walkable_climb) {
                None => r.0 is None && r.1 == max_layer,
                Some(f) => if f - n_start <= max_layers() {
                    r.0 == Some((f - n_start) as u8) && r.1 == max_layer
                } else {
                    r.0 is None && ({
                        let l = last_step(g, i as int, n_start as int, n_end as int, walkable_height, walkable_climb)->0 - n_start;
                        r.1 == (if max_layer >= l { max_layer as int } else { l })
                    })
                },
            }
        }),
{
    let ghost g = span_geometry(spans@);
    let ghost ii = i as int;
    let ghost fq = first_step(g, ii, n_start as int, n_end as int, walkable_height, walkable_climb);
    let span = spans[i];
    let span_top = span.y + span.height() as u16;
    let mut max_layer_index = max_layer;
    let mut k = n_start;
    proof {
        assert(g[ii] == (span.y, span.spec_height()));
        lemma_first_step_range(g, ii, n_start as int, n_end as int, walkable_height, walkable_climb);
    }
    while k < n_end
        invariant
            i < spans@.len(),
            n_start <= k <= n_end <= spans@.len(),
            spans@.len() <= 0x7fff_ffff,
            forall|j: int| 0 <= j < spans@.len() ==> (#[trigger] spans@[j]).y + spans@[j].spec_height() <= 0xffff,
            g == span_geometry(spans@),
            ii == i,
            span == spans@[ii],
            span_top == span.y + span.spec_height(),
            g[ii] == (span.y, span.spec_height()),
            fq == first_step(g, ii, n_start as int, n_end as int, walkable_height, walkable_climb),
            match fq {
                None => max_layer_index == max_layer && first_step(g, ii, k as int, n_end as int, walkable_height, walkable_climb) is None,
                Some(f) => if f >= k {
                    max_layer_index == max_layer && first_step(g, ii, k as int, n_end as int, walkable_height, walkable_climb) == fq
                } else {
                    f - n_start > max_layers() && ({
                        let l = last_step(g, ii, n_start as int, k as int, walkable_height, walkable_climb)->0 - n_start;
                        max_layer_index == (if max_layer >= l { max_layer as int } else { l })
                    }) && last_step(g, ii, n_start as int, k as int, walkable_height, walkable_climb) is Some
                },
            },
        ensures
            (fq matches Some(f) && f - n_start <= max_layers()) ==> false,
            fq is Some ==> last_step(g, ii, n_start as int, n_end as int, walkable_height, walkable_climb) is Some,
            match fq {
                None => max_layer_index == max_layer,
                Some(f) => {
                    let l = last_step(g, ii, n_start as int, n_end as int, walkable_height, walkable_climb)->0 - n_start;
                    max_layer_index == (if max_layer >= l { max_layer as int } else { l })
                },
            },
        decreases n_end - k,
    {
        let neighbor = spans[k];
        let neighbor_top = neighbor.y + neighbor.height() as u16;
        let bot = if span.y > neighbor.y { span.y } else { neighbor.y };
        let top = if span_top < neighbor_top { span_top } else { neighbor_top };
        let climb = if neighbor.y >= span.y { neighbor.y - span.y } else { span.y - neighbor.y };
        let is_walkable = (top as i32 - bot as i32) >= walkable_height as i32;
        let is_climbable = climb as i32 <= walkable_climb as i32;
        proof {
            assert(g[k as int] == (neighbor.y, neighbor.spec_height()));
            lemma_first_step_unfold(g, ii, k as int, n_end as int, walkable_height, walkable_climb);
            assert(is_walkable && is_climbable <==> can_step(g[ii], g[k as int], walkable_height, walkable_climb));
            assert(last_step(g, ii, n_start as int, k + 1, walkable_height, walkable_climb) == (if can_step(g[ii], g[k as int], walkable_height, walkable_climb) {
                Some(k as int)
            } else {
                last_step(g, ii, n_start as int, k as int, walkable_height, walkable_climb)
            }));
        }
        if !is_walkable || !is_climbable {
            proof {
                if let Some(f) = fq {
                    if f >= k {
                        lemma_first_step_range(g, ii, k as int, n_end as int, walkable_height, walkable_climb);
                        assert(f != k);
                    }
                }
            }
            k += 1;
            continue;
        }
        proof {
            if let Some(f) = fq {
                if f >= k {
                    assert(f == k);
                }
            }
        }
        let layer_index = k as i32 - n_start as i32;
        if layer_index < 0 || layer_index > 62 {
            if layer_index as u32 > max_layer_index {
                max_layer_index = layer_index as u32;
            }
            proof {
                lemma_last_step_range(g, ii, n_start as int, k as int, walkable_height, walkable_climb);
            }
            k += 1;
            continue;
        }
        proof {
            lemma_first_step_range(g, ii, n_start as int, n_end as int, walkable_height, walkable_climb);
            lemma_last_step_some(g, ii, n_start as int, n_end as int, k as int, walkable_height, walkable_climb);
        }
        return (Some(layer_index as u8), max_layer_index);
    }
    proof {
        lemma_first_step_range(g, ii, n_start as int, n_end as int, walkable_height, walkable_climb);
    }
    (None, max_layer_index)
}

/// [`expected_con`] for the cell with index `c` of a grid `w` wide.
pub open spec fn con_of_cell(
    cells: Seq<CompactCell>,
    g: Seq<(u16, u8)>,
    w: int,
    h: int,
    c: int,
    i: int,
    dir: u8,
    walkable_height: u16,
    walkable_climb: u16,
) -> Option<u8> {
    expected_con(cells, g, w, h, c % w, c / w, i, dir, walkable_height, walkable_climb)
}

/// [`dropped_layer`] for the cell with index `c` of a grid `w` wide.
pub open spec fn dropped_of_cell(
    cells: Seq<CompactCell>,
    g: Seq<(u16, u8)>,
    w: int,
    h: int,
    c: int,
    i: int,
    dir: u8,
    walkable_height: u16,
    walkable_climb: u16,
) -> int {
    dropped_layer(cells, g, w, h, c % w, c / w, i, dir, walkable_height, walkable_climb)
}

/// `(c, i, dir)` comes before `(cc, ci, cd)` in the order the connections
/// are computed.
pub open spec fn comes_before(c: int, i: int, dir: u8, cc: int, ci: int, cd: u8) -> bool {
    c < cc || (c == cc && (i < ci || (i == ci && dir < cd)))
}

/// Sets every neighbour connection of every span of every cell, and returns
/// the highest layer that had to be dropped (0 if none).
fn connect_neighbours(
    spans: &mut Vec<CompactSpan>,
    cells: &Vec<CompactCell>,
    w: u16,
    h: u16,
    walkable_height: u16,
    walkable_climb: u16,
) -> (r: u32)
    requires
        cells@.len() == w * h,
        cells_partition(cells@, old(spans)@.len() as int),
        old(spans)@.len() <= 0x7fff_ffff,
        forall|j: int| 0 <= j < old(spans)@.len() ==> (#[trigger] old(spans)@[j]).y + old(spans)@[j].spec_height() <= 0xffff,
    ensures
        final(spans)@.len() == old(spans)@.len(),
        forall|j: int|
            0 <= j < old(spans)@.len() ==> (#[trigger] final(spans)@[j]).y == old(spans)@[j].y && final(spans)@[j].spec_height()
                == old(spans)@[j].spec_height() && final(spans)@[j].region == old(spans)@[j].region,
        forall|c: int, i: int, d: u8|
            0 <= c < w * h && in_cell(cells@, c, i) && d < 4 ==> final(spans)@[i].spec_con(d) == #[trigger] con_of_cell(
                cells@,
                span_geometry(old(spans)@),
                w as int,
                h as int,
                c,
                i,
                d,
                walkable_height,
                walkable_climb,
            ),
        forall|c: int, i: int, d: u8|
            0 <= c < w * h && in_cell(cells@, c, i) && d < 4 ==> #[trigger] dropped_of_cell(
                cells@,
                span_geometry(old(spans)@),
                w as int,
                h as int,
                c,
                i,
                d,
                walkable_height,
                walkable_climb,
            ) <= r,
        r == 0 || exists|c: int, i: int, d: u8|
            0 <= c < w * h && in_cell(cells@, c, i) && d < 4 && #[trigger] dropped_of_cell(
                cells@,
                span_geometry(old(spans)@),
                w as int,
                h as int,
                c,
                i,
                d,
                walkable_height,
                walkable_climb,
            ) == r,
{
    let ghost g = span_geometry(spans@);
    let ghost orig = spans@;
    let ghost wi = w as int;
    let ghost hi = h as int;
    let ghost mut witness: (int, int, u8) = (0, 0, 0);
    let mut max_layer_index: u32 = 0;
    let mut z: u16 = 0;
    proof {
        vstd::arithmetic::mul::lemma_mul_upper_bound(w as int, 0xffff, h as int, 0xffff);
    }
    while z < h
        invariant
            cells@.len() == w * h,
            cells_partition(cells@, orig.len() as int),
            orig.len() <= 0x7fff_ffff,
            g == span_geometry(orig),
            wi == w,
            hi == h,
            z <= h,
            spans@.len() == orig.len(),
            forall|j: int| 0 <= j < orig.len() ==> (#[trigger] orig[j]).y + orig[j].spec_height() <= 0xffff,
            forall|j: int|
                0 <= j < orig.len() ==> (#[trigger] spans@[j]).y == orig[j].y && spans@[j].spec_height()
                    == orig[j].spec_height() && spans@[j].region == orig[j].region,
            forall|c: int, i: int, d: u8|
                0 <= c < w * h && in_cell(cells@, c, i) && d < 4 && c < z * w ==> spans@[i].spec_con(d)
                    == #[trigger] con_of_cell(cells@, g, wi, hi, c, i, d, walkable_height, walkable_climb),
            forall|c: int, i: int, d: u8|
                0 <= c < w * h && in_cell(cells@, c, i) && d < 4 && c < z * w ==> #[trigger] dropped_of_cell(
                    cells@,
                    g,
                    wi,
                    hi,
                    c,
                    i,
                    d,
                    walkable_height,
                    walkable_climb,
                ) <= max_layer_index,
            max_layer_index == 0 || (0 <= witness.0 < w * h && in_cell(cells@, witness.0, witness.1) && witness.2 < 4
                && dropped_of_cell(cells@, g, wi, hi, witness.0, witness.1, witness.2, walkable_height, walkable_climb)
                == max_layer_index),
        decreases h - z,
    {
        let mut x: u16 = 0;
        proof {
            assert(z * w + w <= w * h) by (nonlinear_arith)
                requires
                    z < h,
            ;
        }
        while x < w
            invariant
                cells@.len() == w * h,
                cells_partition(cells@, orig.len() as int),
                orig.len() <= 0x7fff_ffff,
                g == span_geometry(orig),
                wi == w,
                hi == h,
                z < h,
                x <= w,
                z * w + w <= w * h,
                spans@.len() == orig.len(),
                forall|j: int| 0 <= j < orig.len() ==> (#[trigger] orig[j]).y + orig[j].spec_height() <= 0xffff,
                forall|j: int|
                    0 <= j < orig.len() ==> (#[trigger] spans@[j]).y == orig[j].y && spans@[j].spec_height()
                        == orig[j].spec_height() && spans@[j].region == orig[j].region,
                forall|c: int, i: int, d: u8|
                    0 <= c < w * h && in_cell(cells@, c, i) && d < 4 && c < z * w + x ==> spans@[i].spec_con(d)
                        == #[trigger] con_of_cell(cells@, g, wi, hi, c, i, d, walkable_height, walkable_climb),
                forall|c: int, i: int, d: u8|
                    0 <= c < w * h && in_cell(cells@, c, i) && d < 4 && c < z * w + x ==> #[trigger] dropped_of_cell(
                        cells@,
                        g,
                        wi,
                        hi,
                        c,
                        i,
                        d,
                        walkable_height,
                        walkable_climb,
                    ) <= max_layer_index,
                max_layer_index == 0 || (0 <= witness.0 < w * h && in_cell(cells@, witness.0, witness.1) && witness.2
                    < 4 && dropped_of_cell(cells@, g, wi, hi, witness.0, witness.1, witness.2, walkable_height, walkable_climb)
                    == max_layer_index),
            decreases w - x,
        {
            proof {
                vstd::arithmetic::mul::lemma_mul_upper_bound(z as int, 0xffff, w as int, 0xffff);
                assert(z * w + x <= w * h);
                vstd::arithmetic::mul::lemma_mul_upper_bound(w as int, 0xffff, h as int, 0xffff);
            }
            let column_index = x as usize + z as usize * w as usize;
            let ghost c = column_index as int;
            proof {
                assert(c == z * w + x);
                vstd::arithmetic::div_mod::lemma_fundamental_div_mod_converse(c, wi, z as int, x as int);
                assert(c % wi == x && c / wi == z);
            }
            let cell = cells[column_index];
            let start = cell.index as usize;
            let end = start + cell.count as usize;
            proof {
                assert(cells@[c].index + cells@[c].count <= orig.len());
            }
            let mut i = start;
            while i < end
                invariant
                    cells@.len() == w * h,
                    cells_partition(cells@, orig.len() as int),
                    orig.len() <= 0x7fff_ffff,
                    g == span_geometry(orig),
                    wi == w,
                    hi == h,
                    0 <= c < w * h,
                    c % wi == x && c / wi == z,
                    x < w,
                    z < h,
                    cell == cells@[c],
                    start == cell.index,
                    end == cell.index + cell.count,
                    end <= orig.len(),
                    start <= i <= end,
                    spans@.len() == orig.len(),
                    forall|j: int| 0 <= j < orig.len() ==> (#[trigger] orig[j]).y + orig[j].spec_height() <= 0xffff,
                    forall|j: int|
                        0 <= j < orig.len() ==> (#[trigger] spans@[j]).y == orig[j].y && spans@[j].spec_height()
                            == orig[j].spec_height() && spans@[j].region == orig[j].region,
                    forall|c2: int, i2: int, d: u8|
                        0 <= c2 < w * h && in_cell(cells@, c2, i2) && d < 4 && (c2 < c || (c2 == c && i2 < i)) ==> spans@[i2].spec_con(d)
                            == #[trigger] con_of_cell(cells@, g, wi, hi, c2, i2, d, walkable_height, walkable_climb),
                    forall|c2: int, i2: int, d: u8|
                        0 <= c2 < w * h && in_cell(cells@, c2, i2) && d < 4 && (c2 < c || (c2 == c && i2 < i)) ==> #[trigger] dropped_of_cell(
                            cells@,
                            g,
                            wi,
                            hi,
                            c2,
                            i2,
                            d,
                            walkable_height,
                            walkable_climb,
                        ) <= max_layer_index,
                    max_layer_index == 0 || (0 <= witness.0 < w * h && in_cell(cells@, witness.0, witness.1)
                        && witness.2 < 4 && dropped_of_cell(cells@, g, wi, hi, witness.0, witness.1, witness.2, walkable_height, walkable_climb)
                        == max_layer_index),
                decreases end - i,
            {
                let mut dir: u8 = 0;
                while dir < 4
                    invariant
                        cells@.len() == w * h,
                        cells_partition(cells@, orig.len() as int),
                        orig.len() <= 0x7fff_ffff,
                        g == span_geometry(orig),
                        wi == w,
                        hi == h,
                        0 <= c < w * h,
                        c % wi == x && c / wi == z,
                        x < w,
                        z < h,
                        cell == cells@[c],
                        start == cell.index,
                        end == cell.index + cell.count,
                        end <= orig.len(),
                        start <= i < end,
                        dir <= 4,
                        spans@.len() == orig.len(),
                        forall|j: int| 0 <= j < orig.len() ==> (#[trigger] orig[j]).y + orig[j].spec_height() <= 0xffff,
                        forall|j: int|
                            0 <= j < orig.len() ==> (#[trigger] spans@[j]).y == orig[j].y && spans@[j].spec_height()
                                == orig[j].spec_height() && spans@[j].region == orig[j].region,
                        forall|c2: int, i2: int, d: u8|
                            0 <= c2 < w * h && in_cell(cells@, c2, i2) && d < 4 && comes_before(c2, i2 as int, d, c, i as int, dir) ==> spans@[i2].spec_con(d)
                                == #[trigger] con_of_cell(cells@, g, wi, hi, c2, i2, d, walkable_height, walkable_climb),
                        forall|c2: int, i2: int, d: u8|
                            0 <= c2 < w * h && in_cell(cells@, c2, i2) && d < 4 && comes_before(c2, i2 as int, d, c, i as int, dir) ==> #[trigger] dropped_of_cell(
                                cells@,
                                g,
                                wi,
                                hi,
                                c2,
                                i2,
                                d,
                                walkable_height,
                                walkable_climb,
                            ) <= max_layer_index,
                        max_layer_index == 0 || (0 <= witness.0 < w * h && in_cell(cells@, witness.0, witness.1)
                            && witness.2 < 4 && dropped_of_cell(cells@, g, wi, hi, witness.0, witness.1, witness.2, walkable_height, walkable_climb)
                            == max_layer_index),
                    decreases 4 - dir,
                {
                    let ghost before = spans@;
                    let mut span = spans[i];
                    span.set_con(dir, None);
                    spans.set(i, span);
                    let neighbor_x = x as i32 + dir_offset_x(dir) as i32;
                    let neighbor_z = z as i32 + dir_offset_z(dir) as i32;
                    let ghost old_max = max_layer_index;
                    if neighbor_x >= 0 && neighbor_x < w as i32 && neighbor_z >= 0 && neighbor_z < h as i32 {
                        proof {
                            vstd::arithmetic::mul::lemma_mul_upper_bound(neighbor_z as int, (h - 1) as int, w as int, w as int);
                            assert((h - 1) * w + w == w * h) by (nonlinear_arith);
                            vstd::arithmetic::mul::lemma_mul_upper_bound(w as int, 0xffff, h as int, 0xffff);
                            assert(neighbor_x + neighbor_z * w < w * h);
                        }
                        let neighbor_index = neighbor_x as usize + neighbor_z as usize * w as usize;
                        proof {
                            assert(span_geometry(spans@) =~= g);
                        }
                        let n_cell = cells[neighbor_index];
                        let n_start = n_cell.index as usize;
                        let n_end = n_start + n_cell.count as usize;
                        let found = find_connection(spans, i, n_start, n_end, walkable_height, walkable_climb, max_layer_index);
                        if let Some(layer) = found.0 {
                            let mut span = spans[i];
                            proof {
                                assert(layer <= 62);
                                assert((layer as u32) & 0x3f == layer as u32) by (bit_vector)
                                    requires
                                        layer <= 62,
                                ;
                            }
                            span.set_con(dir, Some(layer));
                            spans.set(i, span);
                        }
                        if found.1 != max_layer_index {
                            proof {
                                witness = (c, i as int, dir);
                                assert(neighbor_cell(cells@, wi, hi, x as int, z as int, dir) == neighbor_cell(cells@, wi, hi, c % wi, c / wi, dir));
                                assert(dropped_of_cell(cells@, g, wi, hi, c, i as int, dir, walkable_height, walkable_climb) == found.1);
                            }
                        }
                        max_layer_index = found.1;
                    }
                    proof {
                        assert(neighbor_cell(cells@, wi, hi, x as int, z as int, dir) == neighbor_cell(cells@, wi, hi, c % wi, c / wi, dir));
                        assert(spans@[i as int].spec_con(dir) == con_of_cell(cells@, g, wi, hi, c, i as int, dir, walkable_height, walkable_climb));
                        assert forall|c2: int, i2: int, d: u8|
                            0 <= c2 < w * h && in_cell(cells@, c2, i2) && d < 4 && comes_before(c2, i2 as int, d, c, i as int, (dir + 1) as u8) implies spans@[i2].spec_con(d)
                                == #[trigger] con_of_cell(cells@, g, wi, hi, c2, i2, d, walkable_height, walkable_climb) by {
                            if i2 != i {
                                assert(spans@[i2] == before[i2]);
                            } else if c2 != c {
                                assert(in_cell(cells@, c, i as int));
                            }
                        }
                        assert forall|c2: int, i2: int, d: u8|
                            0 <= c2 < w * h && in_cell(cells@, c2, i2) && d < 4 && comes_before(c2, i2 as int, d, c, i as int, (dir + 1) as u8) implies #[trigger] dropped_of_cell(
                                cells@,
                                g,
                                wi,
                                hi,
                                c2,
                                i2,
                                d,
                                walkable_height,
                                walkable_climb,
                            ) <= max_layer_index by {
                            if i2 == i && c2 != c {
                                assert(in_cell(cells@, c, i as int));
                            }
                        }
                    }
                    dir = dir + 1;
                }
                i = i + 1;
            }
            x = x + 1;
        }
        proof {
            assert(z * w + w == (z + 1) * w) by (nonlinear_arith);
        }
        z = z + 1;
    }
    proof {
        assert(z * w == w * h) by (nonlinear_arith)
            requires
                z == h,
        ;
    }
    max_layer_index
}

/// The cells that building a compact heightfield out of `hf` gives.
pub open spec fn expected_cells(hf: Heightfield) -> Seq<CompactCell> {
    Seq::new((hf.width * hf.height) as nat, |c: int| expected_cell(hf, c))
}

/// The floor and open height of each entry of `hf`.
pub open spec fn entry_geometry(hf: Heightfield) -> Seq<(u16, u8)> {
    all_entries(hf).map_values(|e: (u16, u8, AreaType)| (e.0, e.1))
}

/// The cells of a compactable heightfield hand out disjoint ranges of its
/// entries.
proof fn lemma_expected_cells_partition(hf: Heightfield)
    requires
        hf.wf(),
        compactable(hf),
    ensures
        cells_partition(expected_cells(hf), all_entries(hf).len() as int),
{
    let m = hf.allocated_spans@;
    let chains = hf.chains@;
    let cells = expected_cells(hf);
    let n = hf.width * hf.height;
    assert forall|c: int| 0 <= c < cells.len() implies #[trigger] cells[c].index + cells[c].count <= all_entries(hf).len() by {
        lemma_entries_prefix(m, chains, c + 1, n);
        lemma_entries_prefix(m, chains, c, n);
        assert(entries_upto(m, chains, c + 1) == entries_upto(m, chains, c) + column_entries_from(m, chains[c], 0));
    }
    assert forall|c1: int, c2: int, i: int|
        0 <= c1 < cells.len() && 0 <= c2 < cells.len() && #[trigger] in_cell(cells, c1, i) && #[trigger] in_cell(
            cells,
            c2,
            i,
        ) implies c1 == c2 by {
        lemma_entries_prefix(m, chains, c1 + 1, n);
        lemma_entries_prefix(m, chains, c2 + 1, n);
        lemma_entries_prefix(m, chains, c1, n);
        lemma_entries_prefix(m, chains, c2, n);
        assert(entries_upto(m, chains, c1 + 1) == entries_upto(m, chains, c1) + column_entries_from(m, chains[c1], 0));
        assert(entries_upto(m, chains, c2 + 1) == entries_upto(m, chains, c2) + column_entries_from(m, chains[c2], 0));
        if c1 < c2 {
            lemma_entries_prefix(m, chains, c1 + 1, c2);
        } else if c2 < c1 {
            lemma_entries_prefix(m, chains, c2 + 1, c1);
        }
    }
}

/// A packed representation
/// of the walkable spans of a [`Heightfield`].  The world-space placement
/// (bounds, cell size and cell height) is not part of it.
pub struct CompactHeightfield {
    /// The width of the heightfield along the x-axis in cell units
    pub width: u16,
    /// The height of the heightfield along the z-axis in cell units
    pub height: u16,
    /// The walkable height used during the build of the field
    pub walkable_height: u16,
    /// The walkable climb used during the build of the field.
    pub walkable_climb: u16,
    /// The AABB border size used during the build of the field.
    pub border_size: u16,
    /// The maximum distance value of any span within the field.
    pub max_distance: u16,
    /// The maximum region id of any span within the field.
    pub max_region: RegionId,
    /// The cells in the heightfield [Size: `width * height`]
    pub cells: Vec<CompactCell>,
    /// All walkable spans in the heightfield
    pub spans: Vec<CompactSpan>,
    /// Vector containing border distance data. [Size: `spans.len()`]
    pub dist: Vec<u16>,
    /// Vector containing area type data. [Size: `spans.len()`]
    pub areas: Vec<AreaType>,
}

/// Errors that can occur when building a compact heightfield.
#[derive(Debug, Clone, Copy, PartialEq, Eq, Structural)]
pub enum CompactHeightfieldError {
    /// The heightfield has too many layers.
    TooManyLayers {
        /// The maximum layer index.
        max_layer_index: u8,
        /// The layer index that caused the error.
        layer_index: u32,
    },
}

/// Packs the walkable spans of every column of `hf`, column after column.
fn fill_columns(hf: &Heightfield) -> (r: (Vec<CompactCell>, Vec<CompactSpan>, Vec<AreaType>))
    requires
        hf.wf(),
        compactable(*hf),
    ensures
        r.0@.len() == hf.width * hf.height,
        forall|c: int| 0 <= c < hf.width * hf.height ==> #[trigger] r.0@[c] == expected_cell(*hf, c),
        r.1@.len() == all_entries(*hf).len(),
        r.2@.len() == all_entries(*hf).len(),
        forall|i: int|
            0 <= i < r.1@.len() ==> {
                &&& (#[trigger] r.1@[i]).y == all_entries(*hf)[i].0
                &&& r.1@[i].spec_height() == all_entries(*hf)[i].1
                &&& r.1@[i].region.bits == 0
                &&& r.2@[i] == all_entries(*hf)[i].2
            },
{
    let w = hf.width;
    let h = hf.height;
    let ghost m = hf.allocated_spans@;
    let ghost chains = hf.chains@;
    let ghost total = w * h;
    proof {
        vstd::arithmetic::mul::lemma_mul_upper_bound(w as int, 0xffff, h as int, 0xffff);
    }
    let column_count = w as usize * h as usize;
    let mut cells: Vec<CompactCell> = Vec::new();
    let mut n: usize = 0;
    while n < column_count
        invariant
            n <= column_count,
            cells@.len() == n,
            forall|c: int| 0 <= c < n ==> cells@[c] == (CompactCell { index: 0, count: 0 }),
        decreases column_count - n,
    {
        cells.push(CompactCell { index: 0, count: 0 });
        n = n + 1;
    }
    let mut spans: Vec<CompactSpan> = Vec::new();
    let mut areas: Vec<AreaType> = Vec::new();
    let mut cell_index: usize = 0;
    let mut z: u16 = 0;
    proof {
        lemma_entries_prefix(m, chains, 0, total);
    }
    while z < h
        invariant
            hf.wf(),
            compactable(*hf),
            m == hf.allocated_spans@,
            chains == hf.chains@,
            w == hf.width,
            h == hf.height,
            total == w * h,
            column_count == total,
            z <= h,
            cells@.len() == total,
            cell_index == entries_upto(m, chains, z * w).len(),
            spans@.len() == cell_index,
            areas@.len() == cell_index,
            forall|c: int| 0 <= c < z * w ==> #[trigger] cells@[c] == expected_cell(*hf, c),
            forall|c: int| z * w <= c < total ==> #[trigger] cells@[c] == (CompactCell { index: 0, count: 0 }),
            forall|i: int|
                0 <= i < cell_index ==> {
                    &&& (#[trigger] spans@[i]).y == entries_upto(m, chains, z * w)[i].0
                    &&& spans@[i].spec_height() == entries_upto(m, chains, z * w)[i].1
                    &&& spans@[i].region.bits == 0
                    &&& areas@[i] == entries_upto(m, chains, z * w)[i].2
                },
        decreases h - z,
    {
        let mut x: u16 = 0;
        proof {
            assert(z * w + w <= total) by (nonlinear_arith)
                requires
                    z < h,
                    total == w * h,
            ;
        }
        while x < w
            invariant
                hf.wf(),
                compactable(*hf),
                m == hf.allocated_spans@,
                chains == hf.chains@,
                w == hf.width,
                h == hf.height,
                total == w * h,
                z < h,
                z * w + w <= total,
                x <= w,
                cells@.len() == total,
                cell_index == entries_upto(m, chains, z * w + x).len(),
                spans@.len() == cell_index,
                areas@.len() == cell_index,
                forall|c: int| 0 <= c < z * w + x ==> #[trigger] cells@[c] == expected_cell(*hf, c),
                forall|c: int| z * w + x <= c < total ==> #[trigger] cells@[c] == (CompactCell { index: 0, count: 0 }),
                forall|i: int|
                    0 <= i < cell_index ==> {
                        &&& (#[trigger] spans@[i]).y == entries_upto(m, chains, z * w + x)[i].0
                        &&& spans@[i].spec_height() == entries_upto(m, chains, z * w + x)[i].1
                        &&& spans@[i].region.bits == 0
                        &&& areas@[i] == entries_upto(m, chains, z * w + x)[i].2
                    },
            decreases w - x,
        {
            let ghost c = z * w + x;
            let column_index = hf.column_index(x, z);
            proof {
                assert(column_index == c);
                lemma_links_basic(hf.spans@, m, chains, c);
                lemma_entries_prefix(m, chains, c + 1, total);
                assert(entries_upto(m, chains, c + 1) == entries_upto(m, chains, c) + column_entries_from(m, chains[c], 0));
            }
            match hf.span_key_at(x, z) {
                None => {
                    proof {
                        assert(chains[c].len() == 0);
                        assert(column_entries_from(m, chains[c], 0) =~= Seq::<(u16, u8, AreaType)>::empty());
                        assert(entries_upto(m, chains, c + 1) =~= entries_upto(m, chains, c));
                        assert(cells@[c] == expected_cell(*hf, c));
                    }
                },
                Some(span_key) => {
                    let ghost ch = chains[c];
                    let ghost start = cell_index as int;
                    let ghost col = column_entries_from(m, ch, 0);
                    proof {
                        assert(ch.len() > 0 && ch[0] == span_key);
                        assert(col.len() <= 255);
                        lemma_entries_fit(m, ch, 0);
                    }
                    let mut cell = cells[column_index];
                    cell.set_index(cell_index as u32);
                    cell.set_count(0);
                    let mut span_key_iter: Option<SpanKey> = Some(span_key);
                    let ghost mut t: int = 0;
                    let ghost mut pushed: Seq<(u16, u8, AreaType)> = Seq::empty();
                    proof {
                        assert(ch.skip(0) =~= ch);
                        assert(col == pushed + column_entries_from(m, ch, 0));
                    }
                    while span_key_iter.is_some()
                        invariant
                            hf.wf(),
                            m == hf.allocated_spans@,
                            chains == hf.chains@,
                            0 <= c < chains.len(),
                            ch == chains[c],
                            0 <= t <= ch.len(),
                            span_key_iter == head_of(ch.skip(t)),
                            col == column_entries_from(m, ch, 0),
                            col == pushed + column_entries_from(m, ch, t),
                            col.len() <= 255,
                            forall|i: int| 0 <= i < col.len() ==> (#[trigger] col[i]).0 + col[i].1 <= 0xffff,
                            0 <= start,
                            cell_index == start + pushed.len(),
                            cell_index <= start + col.len(),
                            start + col.len() <= 0x7fff_ffff,
                            cell.index == start as u32,
                            cell.count == pushed.len(),
                            spans@.len() == cell_index,
                            areas@.len() == cell_index,
                            forall|i: int|
                                0 <= i < start ==> {
                                    &&& (#[trigger] spans@[i]).y == entries_upto(m, chains, c)[i].0
                                    &&& spans@[i].spec_height() == entries_upto(m, chains, c)[i].1
                                    &&& spans@[i].region.bits == 0
                                    &&& areas@[i] == entries_upto(m, chains, c)[i].2
                                },
                            forall|i: int|
                                0 <= i < pushed.len() ==> {
                                    &&& (#[trigger] spans@[start + i]).y == pushed[i].0
                                    &&& spans@[start + i].spec_height() == pushed[i].1
                                    &&& spans@[start + i].region.bits == 0
                                    &&& areas@[start + i] == pushed[i].2
                                },
                        decreases ch.len() - t,
                    {
                        let current_key = span_key_iter.unwrap();
                        proof {
                            assert(ch.skip(t)[0] == ch[t]);
                            lemma_link_at(hf.spans@, m, chains, c, t);
                            if t + 1 < ch.len() {
                                assert(ch.skip(t + 1)[0] == ch[t + 1]);
                                lemma_link_at(hf.spans@, m, chains, c, t + 1);
                            }
                            assert(ch.skip(t + 1) =~= ch.skip(t).drop_first());
                        }
                        let span = *hf.span(current_key);
                        span_key_iter = span.next;
                        proof {
                            assert(span.next == next_of(ch, t));
                            assert(span_key_iter == head_of(ch.skip(t + 1)));
                        }
                        if !span.area.is_walkable() {
                            proof {
                                assert(column_entries_from(m, ch, t) == column_entries_from(m, ch, t + 1));
                                t = t + 1;
                            }
                            continue;
                        }
                        let bot = span.max;
                        let top = match span.next {
                            Some(next_key) => hf.span(next_key).min,
                            None => 0xffff,
                        };
                        let height: u8 = if top > bot {
                            let d = top - bot;
                            if d > 255 {
                                255
                            } else {
                                d as u8
                            }
                        } else {
                            0
                        };
                        let ghost e = (bot, height, span.area);
                        proof {
                            assert(top == span_top(m, ch, t));
                            assert(column_entries_from(m, ch, t) == seq![e] + column_entries_from(m, ch, t + 1));
                            assert(col == pushed.push(e) + column_entries_from(m, ch, t + 1));
                            assert(col[pushed.len() as int] == e);
                        }
                        let mut compact_span = CompactSpan { y: bot, region: RegionId { bits: 0 }, data: 0 };
                        compact_span.set_height(height);
                        let ghost old_spans = spans@;
                        let ghost old_areas = areas@;
                        proof {
                            assert(old_spans.len() == start + pushed.len());
                            assert(old_areas.len() == start + pushed.len());
                        }
                        spans.push(compact_span);
                        areas.push(span.area);
                        proof {
                            assert(spans@ == old_spans.push(compact_span));
                            assert(areas@ == old_areas.push(span.area));
                        }
                        cell_index += 1;
                        cell.inc_count();
                        proof {
                            let old_pushed = pushed;
                            pushed = pushed.push(e);
                            t = t + 1;
                            assert forall|i: int| 0 <= i < pushed.len() implies {
                                &&& (#[trigger] spans@[start + i]).y == pushed[i].0
                                &&& spans@[start + i].spec_height() == pushed[i].1
                                &&& spans@[start + i].region.bits == 0
                                &&& areas@[start + i] == pushed[i].2
                            } by {
                                if i < old_pushed.len() {
                                    assert(start + i < old_spans.len());
                                    assert(spans@[start + i] == old_spans[start + i]);
                                    assert(areas@[start + i] == old_areas[start + i]);
                                } else {
                                    assert(spans@[start + i] == compact_span);
                                }
                            }
                            assert forall|i: int| 0 <= i < start implies {
                                &&& (#[trigger] spans@[i]).y == entries_upto(m, chains, c)[i].0
                                &&& spans@[i].spec_height() == entries_upto(m, chains, c)[i].1
                                &&& spans@[i].region.bits == 0
                                &&& areas@[i] == entries_upto(m, chains, c)[i].2
                            } by {
                                assert(spans@[i] == old_spans[i]);
                                assert(areas@[i] == old_areas[i]);
                            }
                        }
                    }
                    proof {
                        if t < ch.len() {
                            assert(ch.skip(t).len() > 0);
                        }
                        assert(column_entries_from(m, ch, t) =~= Seq::<(u16, u8, AreaType)>::empty());
                        assert(pushed =~= col);
                    }
                    cells.set(column_index, cell);
                    proof {
                        assert(cells@[c] == expected_cell(*hf, c));
                        let e0 = entries_upto(m, chains, c);
                        let e1 = entries_upto(m, chains, c + 1);
                        assert forall|i: int| 0 <= i < cell_index implies {
                            &&& (#[trigger] spans@[i]).y == e1[i].0
                            &&& spans@[i].spec_height() == e1[i].1
                            &&& spans@[i].region.bits == 0
                            &&& areas@[i] == e1[i].2
                        } by {
                            if i < e0.len() {
                                assert(e1[i] == e0[i]);
                            } else {
                                let k = i - start;
                                assert(e1[i] == col[k]);
                                assert(spans@[start + k].y == pushed[k].0);
                            }
                        }
                    }
                },
            }
            x = x + 1;
        }
        proof {
            assert(z * w + w == (z + 1) * w) by (nonlinear_arith);
        }
        z = z + 1;
    }
    proof {
        assert(h * w == total) by (nonlinear_arith)
            requires
                total == w * h,
        ;
    }
    (cells, spans, areas)
}

impl CompactHeightfield {
    /// Builds a compact heightfield from the walkable spans of a heightfield.
    ///
    /// # Errors
    ///
    /// Returns an error if a span can only be linked to a neighbour beyond
    /// the layer limit.
    pub fn from_heightfield(heightfield: Heightfield, walkable_height: u16, walkable_climb: u16) -> (r: Result<
        CompactHeightfield,
        CompactHeightfieldError,
    >)
        requires
            heightfield.wf(),
            compactable(heightfield),
        ensures
            ({
                let hf = heightfield;
                let n = hf.width * hf.height;
                let cells = expected_cells(hf);
                let g = entry_geometry(hf);
                match r {
                    Ok(chf) => {
                        &&& chf.wf()
                        &&& chf.width == hf.width
                        &&& chf.height == hf.height
                        &&& chf.walkable_height == walkable_height
                        &&& chf.walkable_climb == walkable_climb
                        &&& chf.border_size == 0
                        &&& chf.max_distance == 0
                        &&& chf.max_region.bits == 0
                        &&& chf.dist@.len() == 0
                        &&& chf.cells@ == cells
                        &&& chf.spans@.len() == all_entries(hf).len()
                        &&& chf.areas@.len() == all_entries(hf).len()
                        &&& forall|i: int|
                            0 <= i < chf.spans@.len() ==> {
                                &&& (#[trigger] chf.spans@[i]).y == all_entries(hf)[i].0
                                &&& chf.spans@[i].spec_height() == all_entries(hf)[i].1
                                &&& chf.spans@[i].region.bits == 0
                                &&& chf.areas@[i] == all_entries(hf)[i].2
                            }
                        &&& forall|c: int, i: int, d: u8|
                            0 <= c < n && in_cell(cells, c, i) && d < 4 ==> chf.spans@[i].spec_con(d)
                                == #[trigger] con_of_cell(cells, g, hf.width as int, hf.height as int, c, i, d, walkable_height, walkable_climb)
                        &&& forall|c: int, i: int, d: u8|
                            0 <= c < n && in_cell(cells, c, i) && d < 4 ==> #[trigger] dropped_of_cell(
                                cells,
                                g,
                                hf.width as int,
                                hf.height as int,
                                c,
                                i,
                                d,
                                walkable_height,
                                walkable_climb,
                            ) <= max_layers()
                    },
                    Err(CompactHeightfieldError::TooManyLayers { max_layer_index, layer_index }) => {
                        &&& max_layer_index == max_layers()
                        &&& layer_index > max_layers()
                        &&& forall|c: int, i: int, d: u8|
                            0 <= c < n && in_cell(cells, c, i) && d < 4 ==> #[trigger] dropped_of_cell(
                                cells,
                                g,
                                hf.width as int,
                                hf.height as int,
                                c,
                                i,
                                d,
                                walkable_height,
                                walkable_climb,
                            ) <= layer_index
                        &&& exists|c: int, i: int, d: u8|
                            0 <= c < n && in_cell(cells, c, i) && d < 4 && #[trigger] dropped_of_cell(
                                cells,
                                g,
                                hf.width as int,
                                hf.height as int,
                                c,
                                i,
                                d,
                                walkable_height,
                                walkable_climb,
                            ) == layer_index
                    },
                }
            }),
    {
        let ghost hf = heightfield;
        let (cells, mut spans, areas) = fill_columns(&heightfield);
        proof {
            assert(cells@ =~= expected_cells(hf));
            lemma_expected_cells_partition(hf);
            assert forall|j: int| 0 <= j < spans@.len() implies (#[trigger] spans@[j]).y + spans@[j].spec_height() <= 0xffff by {
                lemma_entries_fit_all(hf, j);
            }
            assert(span_geometry(spans@) =~= entry_geometry(hf));
        }
        let max_layer_index = connect_neighbours(
            &mut spans,
            &cells,
            heightfield.width,
            heightfield.height,
            walkable_height,
            walkable_climb,
        );
        if max_layer_index > 62 {
            return Err(CompactHeightfieldError::TooManyLayers { max_layer_index: 62, layer_index: max_layer_index });
        }
        let ghost cs = cells@;
        let ghost g = entry_geometry(hf);
        let ghost w = heightfield.width as int;
        let ghost h = heightfield.height as int;
        proof {
            assert forall|c: int, i: int, d: u8|
                #![trigger in_cell(cs, c, i), spans@[i].spec_con(d)]
                0 <= c < cs.len() && in_cell(cs, c, i) && d < 4 && spans@[i].spec_con(d) is Some implies {
                    let nx = c % w + spec_dir_offset_x(d);
                    let nz = c / w + spec_dir_offset_z(d);
                    &&& 0 <= nx < w
                    &&& 0 <= nz < h
                    &&& cs[nx + nz * w].index + spans@[i].spec_con(d)->0 < spans@.len()
                    &&& spans@[i].spec_con(d)->0 < cs[nx + nz * w].count
                } by {
                assert(spans@[i].spec_con(d) == con_of_cell(cs, g, w, h, c, i, d, walkable_height, walkable_climb));
                let nc = neighbor_cell(cs, w, h, c % w, c / w, d)->0;
                lemma_first_step_range(g, i, nc.index as int, nc.index + nc.count, walkable_height, walkable_climb);
                let nx = c % w + spec_dir_offset_x(d);
                let nz = c / w + spec_dir_offset_z(d);
                let nidx = nx + nz * w;
                assert(0 <= nidx < w * h) by (nonlinear_arith)
                    requires
                        0 <= nx < w,
                        0 <= nz < h,
                        nidx == nx + nz * w,
                ;
                assert(cs[nidx].index + cs[nidx].count <= spans@.len());
            }
        }
        Ok(CompactHeightfield {
            width: heightfield.width,
            height: heightfield.height,
            walkable_height,
            walkable_climb,
            border_size: 0,
            max_distance: 0,
            max_region: RegionId { bits: 0 },
            cells,
            spans,
            dist: Vec::new(),
            areas,
        })
    }
}

/// Every entry of a heightfield fits its open space under the top of the
/// world.
proof fn lemma_entries_fit_all(hf: Heightfield, j: int)
    requires
        0 <= j < all_entries(hf).len(),
    ensures
        all_entries(hf)[j].0 + all_entries(hf)[j].1 <= 0xffff,
{
    lemma_entries_fit_upto(hf.allocated_spans@, hf.chains@, hf.width * hf.height, j);
}

/// Every entry below column `n` fits its open space under the top of the
/// world.
proof fn lemma_entries_fit_upto(m: Map<u64, Span>, chains: Seq<Seq<SpanKey>>, n: int, j: int)
    requires
        0 <= j < entries_upto(m, chains, n).len(),
    ensures
        entries_upto(m, chains, n)[j].0 + entries_upto(m, chains, n)[j].1 <= 0xffff,
    decreases n,
{
    if n > 0 {
        let a = entries_upto(m, chains, n - 1);
        let b = column_entries_from(m, chains[n - 1], 0);
        assert(entries_upto(m, chains, n) == a + b);
        if j < a.len() {
            lemma_entries_fit_upto(m, chains, n - 1, j);
        } else {
            lemma_entries_fit(m, chains[n - 1], 0);
            assert(b[j - a.len()] == entries_upto(m, chains, n)[j]);
        }
    }
}

impl CompactHeightfield {
    /// The index of column `(x, z)`.
    pub open spec fn spec_column_index(&self, x: u16, z: u16) -> int {
        x + z * self.width
    }

    /// The index of column `(x, z)`.
    pub fn column_index(&self, x: u16, z: u16) -> (r: usize)
        ensures
            r == self.spec_column_index(x, z),
    {
        proof {
            vstd::arithmetic::mul::lemma_mul_upper_bound(z as int, 0xffff, self.width as int, 0xffff);
        }
        x as usize + z as usize * self.width as usize
    }

    /// Returns the cell at the given coordinates. Returns `None` if the coordinates are invalid.
    pub fn get_cell_at(&self, x: u16, z: u16) -> (r: Option<&CompactCell>)
        ensures
            r == (if self.spec_column_index(x, z) < self.cells@.len() {
                Some(&self.cells@[self.spec_column_index(x, z)])
            } else {
                None
            }),
    {
        let index = self.column_index(x, z);
        if index < self.cells.len() {
            Some(&self.cells[index])
        } else {
            None
        }
    }

    /// Returns the cell at the given coordinates, which must be valid.
    pub fn cell_at(&self, x: u16, z: u16) -> (r: &CompactCell)
        requires
            self.spec_column_index(x, z) < self.cells@.len(),
        ensures
            *r == self.cells@[self.spec_column_index(x, z)],
    {
        let index = self.column_index(x, z);
        &self.cells[index]
    }

    /// Returns the cell mutably at the given coordinates. Returns `None` if
    /// the coordinates are invalid.
    pub fn get_cell_at_mut(&mut self, x: u16, z: u16) -> (r: Option<&mut CompactCell>)
        ensures
            ({
                let c = old(self).spec_column_index(x, z);
                if c < old(self).cells@.len() {
                    &&& r is Some
                    &&& *r->0 == old(self).cells@[c]
                    &&& final(self).cells@ == old(self).cells@.update(c, *final(r->0))
                    &&& *final(self) == (CompactHeightfield { cells: final(self).cells, ..*old(self) })
                } else {
                    &&& r is None
                    &&& *final(self) == *old(self)
                }
            }),
    {
        let index = self.column_index(x, z);
        if index < self.cells.len() {
            Some(&mut self.cells[index])
        } else {
            None
        }
    }

    /// Returns the cell mutably at the given coordinates, which must be valid.
    pub fn cell_at_mut(&mut self, x: u16, z: u16) -> (r: &mut CompactCell)
        requires
            old(self).spec_column_index(x, z) < old(self).cells@.len(),
        ensures
            *r == old(self).cells@[old(self).spec_column_index(x, z)],
            final(self).cells@ == old(self).cells@.update(old(self).spec_column_index(x, z), *final(r)),
            final(self).spans == old(self).spans,
            final(self).areas == old(self).areas,
            final(self).dist == old(self).dist,
            final(self).width == old(self).width,
            final(self).height == old(self).height,
    {
        let index = self.column_index(x, z);
        &mut self.cells[index]
    }
}

impl CompactHeightfield {
    /// The connections are valid and the cells' span ranges do not overlap.
    pub open spec fn wf(&self) -> bool {
        &&& self.connections_valid()
        &&& cells_partition(self.cells@, self.spans@.len() as int)
    }

    /// The cells cover the grid, the span ranges lie inside the spans, and
    /// every neighbour connection leads into the grid and to a span of the
    /// neighbour cell's range.
    pub open spec fn connections_valid(&self) -> bool {
        &&& self.cells@.len() == self.width * self.height
        &&& self.areas@.len() == self.spans@.len()
        &&& forall|c: int| 0 <= c < self.cells@.len() ==> #[trigger] self.cells@[c].index + self.cells@[c].count <= self.spans@.len()
        &&& forall|c: int, i: int, d: u8|
            #![trigger in_cell(self.cells@, c, i), self.spans@[i].spec_con(d)]
            0 <= c < self.cells@.len() && in_cell(self.cells@, c, i) && d < 4 && self.spans@[i].spec_con(d) is Some ==> {
                let nx = c % (self.width as int) + spec_dir_offset_x(d);
                let nz = c / (self.width as int) + spec_dir_offset_z(d);
                &&& 0 <= nx < self.width
                &&& 0 <= nz < self.height
                &&& self.cells@[nx + nz * self.width].index + self.spans@[i].spec_con(d)->0 < self.spans@.len()
                &&& self.spans@[i].spec_con(d)->0 < self.cells@[nx + nz * self.width].count
            }
    }
}

} // verus!
