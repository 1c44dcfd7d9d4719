//! The heightfield: a grid of columns, each holding a sorted list of spans.
//!
//! Every column points at its lowest span; each span points at the next
//! higher one.  The ghost field [`Heightfield::chains`] records, for every
//! column, the keys of its spans from bottom to top, and
//! [`Heightfield::wf`] ties that record to the links in memory.

use vstd::prelude::*;
use crate::area::AreaType;
use crate::span::{Span, SpanKey, Spans};

verus! {

/// The first key of a chain, if any.
pub open spec fn head_of(ch: Seq<SpanKey>) -> Option<SpanKey> {
    if ch.len() > 0 {
        Some(ch[0])
    } else {
        None
    }
}

/// The key that follows position `i` of a chain, if any.
pub open spec fn next_of(ch: Seq<SpanKey>, i: int) -> Option<SpanKey> {
    if i + 1 < ch.len() {
        Some(ch[i + 1])
    } else {
        None
    }
}

/// Whether `k` occurs in the chain `ch`.
pub open spec fn in_chain(ch: Seq<SpanKey>, k: u64) -> bool {
    exists|i: int| 0 <= i < ch.len() && (#[trigger] ch[i]).ffi == k
}

/// The keys of a chain are pairwise distinct.
pub open spec fn distinct_keys(ch: Seq<SpanKey>) -> bool {
    forall|i: int, j: int|
        0 <= i < ch.len() && 0 <= j < ch.len() && #[trigger] ch[i] == #[trigger] ch[j] ==> i == j
}

/// The column heads `cols`, the span collection `m` and the recorded chains
/// agree: every column starts at the head of its chain, each span of a chain
/// links to the next one, no key occurs twice, and every span of the
/// collection belongs to a chain.
#[verifier::opaque]
pub open spec fn links_ok(cols: Seq<Option<SpanKey>>, m: Map<u64, Span>, chains: Seq<Seq<SpanKey>>) -> bool {
    &&& chains.len() == cols.len()
    &&& m.dom().finite()
    &&& forall|c: int| 0 <= c < cols.len() ==> cols[c] == head_of(#[trigger] chains[c])
    &&& forall|c: int, i: int|
        0 <= c < chains.len() && 0 <= i < chains[c].len() ==> {
            &&& m.dom().contains((#[trigger] chains[c][i]).ffi)
            &&& m[chains[c][i].ffi].next == next_of(chains[c], i)
        }
    &&& forall|c1: int, i1: int, c2: int, i2: int|
        0 <= c1 < chains.len() && 0 <= i1 < chains[c1].len() && 0 <= c2 < chains.len() && 0 <= i2
            < chains[c2].len() && #[trigger] chains[c1][i1] == #[trigger] chains[c2][i2] ==> c1 == c2
            && i1 == i2
    &&& forall|k: u64| #[trigger] m.dom().contains(k) ==> exists|c: int| 0 <= c < chains.len() && in_chain(#[trigger] chains[c], k)
}

/// A span as it counts for a column: its extent and area, without the link.
pub open spec fn bare(s: Span) -> Span {
    Span { next: None, ..s }
}

/// The spans under the keys `ks`, without their links.
pub open spec fn view_keys(m: Map<u64, Span>, ks: Seq<SpanKey>) -> Seq<Span> {
    ks.map_values(|k: SpanKey| bare(m[k.ffi]))
}

/// The span that results from merging `new` with an overlapping span `cur`:
/// the extent covers both; the higher area wins when the ceilings differ by
/// at most `threshold`.
pub open spec fn merged_with(new: Span, cur: Span, threshold: u16) -> Span {
    let min = if cur.min < new.min { cur.min } else { new.min };
    let max = if cur.max > new.max { cur.max } else { new.max };
    let diff = if max >= cur.max { max - cur.max } else { cur.max - max };
    let area = if diff <= threshold { new.area.spec_max(cur.area.0) } else { new.area };
    Span { min, max, area, next: None }
}

/// The column that results from inserting `new` into the sorted column
/// `col`: spans wholly below stay, spans that overlap are merged into it, and
/// it goes below the first span wholly above.
#[verifier::opaque]
pub open spec fn insert_into_column(col: Seq<Span>, new: Span, threshold: u16) -> Seq<Span>
    decreases col.len(),
{
    if col.len() == 0 {
        seq![new]
    } else if col[0].min > new.max {
        seq![new] + col
    } else if col[0].max < new.min {
        seq![col[0]] + insert_into_column(col.drop_first(), new, threshold)
    } else {
        insert_into_column(col.drop_first(), merged_with(new, col[0], threshold), threshold)
    }
}

/// One step of [`insert_into_column`].
pub proof fn lemma_insert_step(col: Seq<Span>, new: Span, threshold: u16)
    ensures
        col.len() == 0 ==> insert_into_column(col, new, threshold) == seq![new],
        col.len() > 0 && col[0].min > new.max ==> insert_into_column(col, new, threshold) == seq![new] + col,
        col.len() > 0 && !(col[0].min > new.max) && col[0].max < new.min ==> insert_into_column(col, new, threshold)
            == seq![col[0]] + insert_into_column(col.drop_first(), new, threshold),
        col.len() > 0 && !(col[0].min > new.max) && !(col[0].max < new.min) ==> insert_into_column(
            col,
            new,
            threshold,
        ) == insert_into_column(col.drop_first(), merged_with(new, col[0], threshold), threshold),
{
    reveal(insert_into_column);
}

/// Each span of the column ends below the floor of the next one.
pub open spec fn sorted(col: Seq<Span>) -> bool {
    forall|i: int| 0 <= i < col.len() - 1 ==> (#[trigger] col[i]).max < col[i + 1].min
}

/// Every span of the column has its floor at or below its ceiling.
pub open spec fn proper(col: Seq<Span>) -> bool {
    forall|i: int| 0 <= i < col.len() ==> (#[trigger] col[i]).min <= col[i].max
}

/// Whether some span of the column covers height `h`.
pub open spec fn covers(col: Seq<Span>, h: int) -> bool {
    exists|i: int| 0 <= i < col.len() && (#[trigger] col[i]).min <= h <= col[i].max
}

/// What the links say of one position of one chain.
pub proof fn lemma_link_at(cols: Seq<Option<SpanKey>>, m: Map<u64, Span>, chains: Seq<Seq<SpanKey>>, c: int, i: int)
    requires
        links_ok(cols, m, chains),
        0 <= c < chains.len(),
        0 <= i < chains[c].len(),
    ensures
        m.dom().contains(chains[c][i].ffi),
        m[chains[c][i].ffi].next == next_of(chains[c], i),
{
    reveal(links_ok);
}

/// What the links say of the head of one column, and of the sizes.
pub proof fn lemma_links_basic(cols: Seq<Option<SpanKey>>, m: Map<u64, Span>, chains: Seq<Seq<SpanKey>>, c: int)
    requires
        links_ok(cols, m, chains),
        0 <= c < cols.len(),
    ensures
        cols[c] == head_of(chains[c]),
        chains.len() == cols.len(),
        m.dom().finite(),
{
    reveal(links_ok);
}

/// There is one chain per column, and finitely many spans.
pub proof fn lemma_chains_len(cols: Seq<Option<SpanKey>>, m: Map<u64, Span>, chains: Seq<Seq<SpanKey>>)
    requires
        links_ok(cols, m, chains),
    ensures
        chains.len() == cols.len(),
        m.dom().finite(),
{
    reveal(links_ok);
}

/// No key occurs at two places of the chains.
pub proof fn lemma_links_distinct(
    cols: Seq<Option<SpanKey>>,
    m: Map<u64, Span>,
    chains: Seq<Seq<SpanKey>>,
    c1: int,
    i1: int,
    c2: int,
    i2: int,
)
    requires
        links_ok(cols, m, chains),
        0 <= c1 < chains.len(),
        0 <= i1 < chains[c1].len(),
        0 <= c2 < chains.len(),
        0 <= i2 < chains[c2].len(),
        chains[c1][i1] == chains[c2][i2],
    ensures
        c1 == c2 && i1 == i2,
{
    reveal(links_ok);
}

/// Replacing the chain of column `ci` by `new_ch`, whose keys come from that
/// chain or are fresh, keeps the links consistent when the collection agrees
/// on all other chains and holds exactly the keys left.
proof fn lemma_replace_chain(
    cols: Seq<Option<SpanKey>>,
    m: Map<u64, Span>,
    chains: Seq<Seq<SpanKey>>,
    ci: int,
    new_ch: Seq<SpanKey>,
    cols2: Seq<Option<SpanKey>>,
    m2: Map<u64, Span>,
)
    requires
        links_ok(cols, m, chains),
        0 <= ci < chains.len(),
        cols2 == cols.update(ci, head_of(new_ch)),
        distinct_keys(new_ch),
        forall|i: int|
            0 <= i < new_ch.len() ==> in_chain(chains[ci], (#[trigger] new_ch[i]).ffi) || !m.dom().contains(
                new_ch[i].ffi,
            ),
        forall|i: int|
            0 <= i < new_ch.len() ==> m2.dom().contains((#[trigger] new_ch[i]).ffi) && m2[new_ch[i].ffi].next
                == next_of(new_ch, i),
        forall|c: int, i: int|
            0 <= c < chains.len() && c != ci && 0 <= i < chains[c].len() ==> m2.dom().contains(
                (#[trigger] chains[c][i]).ffi,
            ) && m2[chains[c][i].ffi] == m[chains[c][i].ffi],
        forall|k: u64|
            #[trigger] m2.dom().contains(k) ==> in_chain(new_ch, k) || (m.dom().contains(k) && !in_chain(
                chains[ci],
                k,
            )),
        m2.dom().finite(),
    ensures
        links_ok(cols2, m2, chains.update(ci, new_ch)),
{
    reveal(links_ok);
    let chains2 = chains.update(ci, new_ch);
    assert forall|c: int| 0 <= c < cols2.len() implies cols2[c] == head_of(#[trigger] chains2[c]) by {
        if c != ci {
            assert(cols[c] == head_of(chains[c]));
        }
    }
    assert forall|c: int, i: int| 0 <= c < chains2.len() && 0 <= i < chains2[c].len() implies {
        &&& m2.dom().contains((#[trigger] chains2[c][i]).ffi)
        &&& m2[chains2[c][i].ffi].next == next_of(chains2[c], i)
    } by {
        if c != ci {
            assert(m.dom().contains(chains[c][i].ffi));
        }
    }
    assert forall|c1: int, i1: int, c2: int, i2: int|
        0 <= c1 < chains2.len() && 0 <= i1 < chains2[c1].len() && 0 <= c2 < chains2.len() && 0 <= i2
            < chains2[c2].len() && #[trigger] chains2[c1][i1] == #[trigger] chains2[c2][i2] implies c1
        == c2 && i1 == i2 by {
        if c1 == ci && c2 == ci {
        } else if c1 == ci {
            let k = new_ch[i1];
            assert(m.dom().contains(chains[c2][i2].ffi));
            if in_chain(chains[ci], k.ffi) {
                let p = choose|p: int| 0 <= p < chains[ci].len() && (#[trigger] chains[ci][p]).ffi == k.ffi;
                assert(chains[ci][p] == chains[c2][i2]);
            }
        } else if c2 == ci {
            let k = new_ch[i2];
            assert(m.dom().contains(chains[c1][i1].ffi));
            if in_chain(chains[ci], k.ffi) {
                let p = choose|p: int| 0 <= p < chains[ci].len() && (#[trigger] chains[ci][p]).ffi == k.ffi;
                assert(chains[ci][p] == chains[c1][i1]);
            }
        } else {
            assert(chains[c1][i1] == chains[c2][i2]);
        }
    }
    assert forall|k: u64| #[trigger] m2.dom().contains(k) implies exists|c: int|
        0 <= c < chains2.len() && in_chain(#[trigger] chains2[c], k) by {
        if in_chain(new_ch, k) {
            assert(in_chain(chains2[ci], k));
        } else {
            assert(m.dom().contains(k));
            let c = choose|c: int| 0 <= c < chains.len() && in_chain(#[trigger] chains[c], k);
            assert(c != ci);
            assert(in_chain(chains2[c], k));
        }
    }
}

/// Unlinking the span at position `p` of chain `ci` (its predecessor, or the
/// column head, skips over it) keeps the links consistent.
#[verifier::rlimit(80)]
proof fn lemma_unlink(
    cols: Seq<Option<SpanKey>>,
    m: Map<u64, Span>,
    chains: Seq<Seq<SpanKey>>,
    ci: int,
    p: int,
    cols2: Seq<Option<SpanKey>>,
    m2: Map<u64, Span>,
)
    requires
        links_ok(cols, m, chains),
        0 <= ci < chains.len(),
        0 <= p < chains[ci].len(),
        m2 == (if p > 0 {
            m.remove(chains[ci][p].ffi).insert(
                chains[ci][p - 1].ffi,
                Span { next: next_of(chains[ci], p), ..m[chains[ci][p - 1].ffi] },
            )
        } else {
            m.remove(chains[ci][p].ffi)
        }),
        cols2 == (if p > 0 {
            cols
        } else {
            cols.update(ci, next_of(chains[ci], p))
        }),
    ensures
        links_ok(cols2, m2, chains.update(ci, chains[ci].remove(p))),
        m2.len() + 1 == m.len(),
{
    reveal(links_ok);
    let ch = chains[ci];
    let k = ch[p];
    let new_ch = ch.remove(p);
    assert(m.dom().contains(k.ffi));
    if p > 0 {
        assert(m.dom().contains(ch[p - 1].ffi));
        assert(ch[p - 1] != k);
    }
    assert(cols[ci] == head_of(ch));
    assert(cols2 == cols.update(ci, head_of(new_ch))) by {
        if p > 0 {
            assert(cols2 =~= cols.update(ci, head_of(new_ch)));
        }
    }
    assert forall|a: int, b: int|
        0 <= a < new_ch.len() && 0 <= b < new_ch.len() && #[trigger] new_ch[a] == #[trigger] new_ch[b] implies a == b by {
        let a2 = if a < p { a } else { a + 1 };
        let b2 = if b < p { b } else { b + 1 };
        assert(ch[a2] == ch[b2]);
    }
    assert forall|i: int| 0 <= i < new_ch.len() implies in_chain(ch, (#[trigger] new_ch[i]).ffi) || !m.dom().contains(new_ch[i].ffi) by {
        let i2 = if i < p { i } else { i + 1 };
        assert(ch[i2] == new_ch[i]);
    }
    assert forall|i: int| 0 <= i < new_ch.len() implies m2.dom().contains((#[trigger] new_ch[i]).ffi) && m2[new_ch[i].ffi].next == next_of(new_ch, i) by {
        let i2 = if i < p { i } else { i + 1 };
        assert(ch[i2] == new_ch[i]);
        assert(m.dom().contains(ch[i2].ffi));
        assert(ch[i2] != k);
        if i2 + 1 < ch.len() {
            assert(ch[i2 + 1] != k || i2 + 1 == p);
        }
        if p > 0 && i == p - 1 {
        } else {
            if p > 0 {
                assert(ch[i2] != ch[p - 1]);
            }
            if i + 1 < new_ch.len() {
                let n2 = if i + 1 < p { i + 1 } else { i + 2 };
                assert(new_ch[i + 1] == ch[n2]);
                if i + 1 == p {
                    assert(ch[i2 + 1] == k);
                }
            }
        }
    }
    assert forall|c: int, i: int| 0 <= c < chains.len() && c != ci && 0 <= i < chains[c].len() implies m2.dom().contains((#[trigger] chains[c][i]).ffi) && m2[chains[c][i].ffi] == m[chains[c][i].ffi] by {
        assert(chains[c][i] != k);
        if p > 0 {
            assert(chains[c][i] != ch[p - 1]);
        }
        assert(m.dom().contains(chains[c][i].ffi));
    }
    assert forall|kk: u64| #[trigger] m2.dom().contains(kk) implies in_chain(new_ch, kk) || (m.dom().contains(kk) && !in_chain(ch, kk)) by {
        if in_chain(ch, kk) {
            let q = choose|q: int| 0 <= q < ch.len() && (#[trigger] ch[q]).ffi == kk;
            assert(q != p);
            let q2 = if q < p { q } else { q - 1 };
            assert(new_ch[q2] == ch[q]);
        }
    }
    lemma_replace_chain(cols, m, chains, ci, new_ch, cols2, m2);
}

/// Linking a fresh span in at position `p` of chain `ci` (after its
/// predecessor, or as the column head) keeps the links consistent.
#[verifier::rlimit(80)]
proof fn lemma_link(
    cols: Seq<Option<SpanKey>>,
    m: Map<u64, Span>,
    chains: Seq<Seq<SpanKey>>,
    ci: int,
    p: int,
    nk: SpanKey,
    ns: Span,
    cols2: Seq<Option<SpanKey>>,
    m2: Map<u64, Span>,
)
    requires
        links_ok(cols, m, chains),
        0 <= ci < chains.len(),
        0 <= p <= chains[ci].len(),
        !m.dom().contains(nk.ffi),
        ns.next == (if p < chains[ci].len() {
            Some(chains[ci][p])
        } else {
            None::<SpanKey>
        }),
        m2 == (if p > 0 {
            m.insert(nk.ffi, ns).insert(
                chains[ci][p - 1].ffi,
                Span { next: Some(nk), ..m[chains[ci][p - 1].ffi] },
            )
        } else {
            m.insert(nk.ffi, ns)
        }),
        cols2 == (if p > 0 {
            cols
        } else {
            cols.update(ci, Some(nk))
        }),
    ensures
        links_ok(cols2, m2, chains.update(ci, chains[ci].insert(p, nk))),
        m2.len() == m.len() + 1,
{
    reveal(links_ok);
    let ch = chains[ci];
    let new_ch = ch.insert(p, nk);
    if p > 0 {
        assert(m.dom().contains(ch[p - 1].ffi));
        assert(ch[p - 1] != nk);
    }
    assert(cols[ci] == head_of(ch));
    assert(cols2 == cols.update(ci, head_of(new_ch))) by {
        if p > 0 {
            assert(cols2 =~= cols.update(ci, head_of(new_ch)));
        }
    }
    assert forall|a: int, b: int|
        0 <= a < new_ch.len() && 0 <= b < new_ch.len() && #[trigger] new_ch[a] == #[trigger] new_ch[b] implies a == b by {
        if a != p && b != p {
            let a2 = if a < p { a } else { a - 1 };
            let b2 = if b < p { b } else { b - 1 };
            assert(ch[a2] == ch[b2]);
        } else if a != p {
            let a2 = if a < p { a } else { a - 1 };
            assert(m.dom().contains(ch[a2].ffi));
        } else if b != p {
            let b2 = if b < p { b } else { b - 1 };
            assert(m.dom().contains(ch[b2].ffi));
        }
    }
    assert forall|i: int| 0 <= i < new_ch.len() implies in_chain(ch, (#[trigger] new_ch[i]).ffi) || !m.dom().contains(new_ch[i].ffi) by {
        if i != p {
            let i2 = if i < p { i } else { i - 1 };
            assert(ch[i2] == new_ch[i]);
        }
    }
    assert forall|i: int| 0 <= i < new_ch.len() implies m2.dom().contains((#[trigger] new_ch[i]).ffi) && m2[new_ch[i].ffi].next == next_of(new_ch, i) by {
        if i != p {
            let i2 = if i < p { i } else { i - 1 };
            assert(ch[i2] == new_ch[i]);
            assert(m.dom().contains(ch[i2].ffi));
            assert(ch[i2] != nk);
            if p > 0 && i == p - 1 {
            } else {
                if p > 0 {
                    assert(ch[i2] != ch[p - 1]);
                }
                if i + 1 < new_ch.len() && i + 1 != p {
                    let n2 = if i + 1 < p { i + 1 } else { i };
                    assert(new_ch[i + 1] == ch[n2]);
                }
            }
        } else {
            if p > 0 {
                assert(ch[p - 1] != nk);
            }
            if p < ch.len() {
                assert(new_ch[p + 1] == ch[p]);
            }
        }
    }
    assert forall|c: int, i: int| 0 <= c < chains.len() && c != ci && 0 <= i < chains[c].len() implies m2.dom().contains((#[trigger] chains[c][i]).ffi) && m2[chains[c][i].ffi] == m[chains[c][i].ffi] by {
        assert(m.dom().contains(chains[c][i].ffi));
        assert(chains[c][i] != nk);
        if p > 0 {
            assert(chains[c][i] != ch[p - 1]);
        }
    }
    assert forall|kk: u64| #[trigger] m2.dom().contains(kk) implies in_chain(new_ch, kk) || (m.dom().contains(kk) && !in_chain(ch, kk)) by {
        if kk == nk.ffi {
            assert(new_ch[p] == nk);
        } else if in_chain(ch, kk) {
            let q = choose|q: int| 0 <= q < ch.len() && (#[trigger] ch[q]).ffi == kk;
            let q2 = if q < p { q } else { q + 1 };
            assert(new_ch[q2] == ch[q]);
        }
    }
    lemma_replace_chain(cols, m, chains, ci, new_ch, cols2, m2);
}

/// The view of a chain's tail starts with the span at its first key.
proof fn lemma_view_skip(m: Map<u64, Span>, ch: Seq<SpanKey>, j: int)
    requires
        0 <= j < ch.len(),
    ensures
        view_keys(m, ch.skip(j)) == seq![bare(m[ch[j].ffi])] + view_keys(m, ch.skip(j + 1)),
        view_keys(m, ch.skip(j)).len() > 0,
        view_keys(m, ch.skip(j))[0] == bare(m[ch[j].ffi]),
        view_keys(m, ch.skip(j)).drop_first() == view_keys(m, ch.skip(j + 1)),
{
    assert(view_keys(m, ch.skip(j)) =~= seq![bare(m[ch[j].ffi])] + view_keys(m, ch.skip(j + 1)));
    assert(view_keys(m, ch.skip(j)).drop_first() =~= view_keys(m, ch.skip(j + 1)));
}

/// Two collections that agree on the extents of the keys `ks` give the same
/// view of them.
proof fn lemma_view_same(m1: Map<u64, Span>, m2: Map<u64, Span>, ks: Seq<SpanKey>)
    requires
        forall|i: int| 0 <= i < ks.len() ==> bare(m1[(#[trigger] ks[i]).ffi]) == bare(m2[ks[i].ffi]),
    ensures
        view_keys(m1, ks) == view_keys(m2, ks),
{
    assert(view_keys(m1, ks) =~= view_keys(m2, ks));
}

/// Inserting into a sorted column gives a sorted column whose lowest floor
/// lies above any bound `b` that lies below the floors of the new span and
/// of the column.
proof fn lemma_insert_sorted(col: Seq<Span>, new: Span, threshold: u16, b: int)
    requires
        sorted(col),
        b < new.min,
        col.len() > 0 ==> b < col[0].min,
    ensures
        sorted(insert_into_column(col, new, threshold)),
        insert_into_column(col, new, threshold).len() > 0,
        b < insert_into_column(col, new, threshold)[0].min,
    decreases col.len(),
{
    lemma_insert_step(col, new, threshold);
    if col.len() == 0 {
    } else if col[0].min > new.max {
        let r = seq![new] + col;
        assert forall|i: int| 0 <= i < r.len() - 1 implies (#[trigger] r[i]).max < r[i + 1].min by {
            if i > 0 {
                assert(r[i] == col[i - 1]);
                assert(r[i + 1] == col[i]);
            }
        }
    } else if col[0].max < new.min {
        let rest = col.drop_first();
        if rest.len() > 0 {
            assert(col[0].max < col[1].min);
        }
        lemma_insert_sorted(rest, new, threshold, col[0].max as int);
        let tail = insert_into_column(rest, new, threshold);
        let r = seq![col[0]] + tail;
        assert forall|i: int| 0 <= i < r.len() - 1 implies (#[trigger] r[i]).max < r[i + 1].min by {
            if i > 0 {
                assert(r[i] == tail[i - 1]);
                assert(r[i + 1] == tail[i]);
            }
        }
    } else {
        let rest = col.drop_first();
        let merged = merged_with(new, col[0], threshold);
        if rest.len() > 0 {
            assert(col[0].max < col[1].min);
        }
        lemma_insert_sorted(rest, merged, threshold, b);
    }
}

/// Merging two spans that touch covers exactly what either of them covers.
proof fn lemma_merged_covers(new: Span, cur: Span, threshold: u16, h: int)
    requires
        cur.min <= cur.max,
        cur.min <= new.max,
        cur.max >= new.min,
    ensures
        ({
            let m = merged_with(new, cur, threshold);
            (m.min <= h <= m.max) <==> ((new.min <= h <= new.max) || (cur.min <= h <= cur.max))
        }),
{
}

/// Inserting into a column of proper spans covers what the column and the
/// new span cover, and nothing else.
proof fn lemma_insert_covers(col: Seq<Span>, new: Span, threshold: u16, h: int)
    requires
        proper(col),
    ensures
        covers(insert_into_column(col, new, threshold), h) <==> (covers(col, h) || (new.min <= h <= new.max)),
    decreases col.len(),
{
    lemma_insert_step(col, new, threshold);
    let r = insert_into_column(col, new, threshold);
    if col.len() == 0 {
        if new.min <= h <= new.max {
            assert(r[0] == new);
        }
    } else if col[0].min > new.max {
        if covers(col, h) {
            let i = choose|i: int| 0 <= i < col.len() && (#[trigger] col[i]).min <= h <= col[i].max;
            assert(r[i + 1] == col[i]);
        }
        if new.min <= h <= new.max {
            assert(r[0] == new);
        }
        if covers(r, h) {
            let i = choose|i: int| 0 <= i < r.len() && (#[trigger] r[i]).min <= h <= r[i].max;
            if i > 0 {
                assert(r[i] == col[i - 1]);
            }
        }
    } else {
        let rest = col.drop_first();
        assert(proper(rest)) by {
            assert forall|i: int| 0 <= i < rest.len() implies (#[trigger] rest[i]).min <= rest[i].max by {
                assert(rest[i] == col[i + 1]);
            }
        }
        assert(covers(col, h) <==> (covers(rest, h) || (col[0].min <= h <= col[0].max))) by {
            if covers(col, h) {
                let i = choose|i: int| 0 <= i < col.len() && (#[trigger] col[i]).min <= h <= col[i].max;
                if i > 0 {
                    assert(rest[i - 1] == col[i]);
                }
            }
            if covers(rest, h) {
                let i = choose|i: int| 0 <= i < rest.len() && (#[trigger] rest[i]).min <= h <= rest[i].max;
                assert(col[i + 1] == rest[i]);
            }
            if col[0].min <= h <= col[0].max {
                assert(col[0].min <= h <= col[0].max);
            }
        }
        if col[0].max < new.min {
            lemma_insert_covers(rest, new, threshold, h);
            let tail = insert_into_column(rest, new, threshold);
            assert(covers(r, h) <==> (covers(tail, h) || (col[0].min <= h <= col[0].max))) by {
                if covers(r, h) {
                    let i = choose|i: int| 0 <= i < r.len() && (#[trigger] r[i]).min <= h <= r[i].max;
                    if i > 0 {
                        assert(tail[i - 1] == r[i]);
                    }
                }
                if covers(tail, h) {
                    let i = choose|i: int| 0 <= i < tail.len() && (#[trigger] tail[i]).min <= h <= tail[i].max;
                    assert(r[i + 1] == tail[i]);
                }
                if col[0].min <= h <= col[0].max {
                    assert(r[0] == col[0]);
                }
            }
        } else {
            let merged = merged_with(new, col[0], threshold);
            lemma_insert_covers(rest, merged, threshold, h);
            lemma_merged_covers(new, col[0], threshold, h);
        }
    }
}

/// Law: inserting a span keeps a sorted column sorted; that is, after
/// [`Heightfield::add_span`] each span of the column still ends below the
/// floor of the next one.
pub proof fn law_insert_keeps_sorted(col: Seq<Span>, new: Span, threshold: u16)
    requires
        sorted(col),
    ensures
        sorted(insert_into_column(col, new, threshold)),
{
    lemma_insert_sorted(col, new, threshold, -1);
}

/// Law: a column of proper spans covers, after inserting a span, exactly the
/// heights it covered before together with those of the new span.
pub proof fn law_insert_covers_union(col: Seq<Span>, new: Span, threshold: u16)
    requires
        proper(col),
    ensures
        forall|h: int|
            covers(insert_into_column(col, new, threshold), h) <==> (covers(col, h) || (new.min <= h <= new.max)),
{
    assert forall|h: int| covers(insert_into_column(col, new, threshold), h) <==> (covers(col, h) || (new.min <= h <= new.max)) by {
        lemma_insert_covers(col, new, threshold, h);
    }
}

/// In a sorted column of proper spans, every span ends below the floor of
/// every later one.
proof fn lemma_sorted_apart(col: Seq<Span>, i: int, j: int)
    requires
        sorted(col),
        proper(col),
        0 <= i < j < col.len(),
    ensures
        col[i].max < col[j].min,
    decreases j - i,
{
    if j > i + 1 {
        lemma_sorted_apart(col, i, j - 1);
        assert(col[j - 1].min <= col[j - 1].max);
        assert(col[j - 1].max < col[j].min);
    }
}

/// Law: inserting a span into a sorted column of proper spans keeps, as
/// they were, the spans that neither overlap nor touch it.
pub proof fn law_insert_keeps_apart(col: Seq<Span>, new: Span, threshold: u16)
    requires
        sorted(col),
        proper(col),
    ensures
        forall|i: int|
            0 <= i < col.len() && ((#[trigger] col[i]).max < new.min || col[i].min > new.max) ==> insert_into_column(
                col,
                new,
                threshold,
            ).contains(col[i]),
    decreases col.len(),
{
    lemma_insert_step(col, new, threshold);
    let r = insert_into_column(col, new, threshold);
    if col.len() == 0 {
    } else if col[0].min > new.max {
        assert forall|i: int| 0 <= i < col.len() && ((#[trigger] col[i]).max < new.min || col[i].min > new.max) implies r.contains(
            col[i],
        ) by {
            assert(r[i + 1] == col[i]);
        }
    } else {
        let rest = col.drop_first();
        assert(sorted(rest)) by {
            assert forall|i: int| 0 <= i < rest.len() - 1 implies (#[trigger] rest[i]).max < rest[i + 1].min by {
                assert(rest[i] == col[i + 1] && rest[i + 1] == col[i + 2]);
            }
        }
        assert(proper(rest)) by {
            assert forall|i: int| 0 <= i < rest.len() implies (#[trigger] rest[i]).min <= rest[i].max by {
                assert(rest[i] == col[i + 1]);
            }
        }
        if col[0].max < new.min {
            law_insert_keeps_apart(rest, new, threshold);
            let tail = insert_into_column(rest, new, threshold);
            assert forall|i: int| 0 <= i < col.len() && ((#[trigger] col[i]).max < new.min || col[i].min > new.max) implies r.contains(
                col[i],
            ) by {
                if i == 0 {
                    assert(r[0] == col[0]);
                } else {
                    assert(rest[i - 1] == col[i]);
                    let k = choose|k: int| 0 <= k < tail.len() && tail[k] == rest[i - 1];
                    assert(r[k + 1] == tail[k]);
                }
            }
        } else {
            let merged = merged_with(new, col[0], threshold);
            law_insert_keeps_apart(rest, merged, threshold);
            assert forall|i: int| 0 <= i < col.len() && ((#[trigger] col[i]).max < new.min || col[i].min > new.max) implies r.contains(
                col[i],
            ) by {
                assert(i > 0);
                lemma_sorted_apart(col, 0, i);
                assert(rest[i - 1] == col[i]);
                assert(col[i].min <= col[i].max);
                assert(rest[i - 1].min > merged.max);
            }
        }
    }
}

/// Law: when a span is merged with the one span it overlaps, and the merged
/// ceiling is within `threshold` of that span's ceiling, the merged span
/// takes the higher of the two area types; it covers both extents.
pub proof fn law_merge_keeps_higher_area(cur: Span, new: Span, threshold: u16)
    requires
        cur.min <= new.max,
        new.min <= cur.max,
        (if cur.max > new.max { cur.max } else { new.max }) - cur.max <= threshold,
    ensures
        insert_into_column(seq![cur], new, threshold) == seq![
            Span {
                min: if cur.min < new.min { cur.min } else { new.min },
                max: if cur.max > new.max { cur.max } else { new.max },
                area: AreaType(if cur.area.0 > new.area.0 { cur.area.0 } else { new.area.0 }),
                next: None,
            },
        ],
{
    reveal_with_fuel(insert_into_column, 2);
    assert(seq![cur].drop_first() =~= Seq::<Span>::empty());
}

/// The spans of a column after low-hanging obstacles are marked walkable: a
/// non-walkable span directly above a walkable one, whose ceiling is at most
/// `climb` above that one's, takes over its area.
pub open spec fn filter_low_hanging(col: Seq<Span>, climb: u16) -> Seq<Span> {
    Seq::new(
        col.len(),
        |i: int|
            if i > 0 && !col[i].area.spec_is_walkable() && col[i - 1].area.spec_is_walkable() && col[i].max - col[i
                - 1].max <= climb {
                Span { area: col[i - 1].area, ..col[i] }
            } else {
                col[i]
            },
    )
}

/// Changing spans but not their links keeps the links consistent.
pub proof fn lemma_links_same_next(
    cols: Seq<Option<SpanKey>>,
    m: Map<u64, Span>,
    m2: Map<u64, Span>,
    chains: Seq<Seq<SpanKey>>,
)
    requires
        links_ok(cols, m, chains),
        m2.dom() == m.dom(),
        forall|k: u64| #[trigger] m2.dom().contains(k) ==> m2[k].next == m[k].next,
    ensures
        links_ok(cols, m2, chains),
{
    reveal(links_ok);
}

/// A heightfield: a grid of `width * height`
/// columns of spans.  The world-space placement (bounds, cell size and cell
/// height) is not part of it.
pub struct Heightfield {
    /// The width of the heightfield along the x-axis in cell units
    pub width: u16,
    /// The height of the heightfield along the z-axis in cell units
    pub height: u16,
    /// The keys of the lowest span of each column, in `width * height` order
    pub spans: Vec<Option<SpanKey>>,
    /// All spans in the heightfield
    pub allocated_spans: Spans,
    /// The keys of the spans of each column, from bottom to top
    pub chains: Ghost<Seq<Seq<SpanKey>>>,
}

/// Errors that can occur when inserting a span into a [`Heightfield`]
#[derive(Debug, Clone, Copy, PartialEq, Eq, Structural)]
pub enum SpanInsertionError {
    /// Happens when the column index is out of bounds.
    ColumnIndexOutOfBounds {
        /// The x-coordinate of the span
        x: u16,
        /// The z-coordinate of the span
        y: u16,
    },
}

/// A span to insert into a [`Heightfield`], with its column.
pub struct SpanInsertion {
    /// The x-coordinate of the span
    pub x: u16,
    /// The z-coordinate of the span
    pub z: u16,
    /// Maximum difference between the ceilings of two spans to merge area type IDs
    pub flag_merge_threshold: u16,
    /// The span to insert
    pub span: Span,
}

impl Heightfield {
    /// The heightfield's links agree with its recorded chains and its column
    /// count is `width * height`.
    pub open spec fn wf(&self) -> bool {
        &&& self.spans@.len() == self.width * self.height
        &&& links_ok(self.spans@, self.allocated_spans@, self.chains@)
    }

    /// The spans of column `c`, from bottom to top, without their links.
    pub open spec fn column_view(&self, c: int) -> Seq<Span> {
        view_keys(self.allocated_spans@, self.chains@[c])
    }

    /// The index of column `(x, z)`.
    pub open spec fn spec_column_index(&self, x: u16, z: u16) -> int {
        x + z * self.width
    }

    /// An empty heightfield of `width * height` columns.
    pub fn new(width: u16, height: u16) -> (r: Heightfield)
        ensures
            r.wf(),
            r.width == width,
            r.height == height,
            forall|c: int| 0 <= c < width * height ==> r.column_view(c).len() == 0,
            r.allocated_spans@.len() == 0,
    {
        proof {
            vstd::arithmetic::mul::lemma_mul_upper_bound(width as int, 0xffff, height as int, 0xffff);
        }
        let column_count = width as usize * height as usize;
        let mut spans: Vec<Option<SpanKey>> = Vec::new();
        let mut i: usize = 0;
        while i < column_count
            invariant
                i <= column_count,
                spans@.len() == i,
                forall|c: int| 0 <= c < i ==> spans@[c] is None,
            decreases column_count - i,
        {
            spans.push(None);
            i = i + 1;
        }
        let allocated_spans = Spans::with_min_capacity(column_count);
        let ghost chains = Seq::new(column_count as nat, |c: int| Seq::<SpanKey>::empty());
        proof {
            assert(allocated_spans@.dom() =~= Set::<u64>::empty());
            reveal(links_ok);
        }
        let r = Heightfield { width, height, spans, allocated_spans, chains: Ghost(chains) };
        assert forall|c: int| 0 <= c < width * height implies r.column_view(c).len() == 0 by {
            assert(r.chains@[c].len() == 0);
        }
        r
    }

    /// The index of column `(x, z)`.
    pub fn column_index(&self, x: u16, z: u16) -> (r: usize)
        ensures
            r == self.spec_column_index(x, z),
    {
        proof {
            vstd::arithmetic::mul::lemma_mul_upper_bound(z as int, 0xffff, self.width as int, 0xffff);
        }
        x as usize + z as usize * self.width as usize
    }

    /// Whether `(x, z)` lies inside the grid.
    pub fn contains(&self, x: i32, z: i32) -> (r: bool)
        ensures
            r == (0 <= x < self.width && 0 <= z < self.height),
    {
        x >= 0 && x < self.width as i32 && z >= 0 && z < self.height as i32
    }

    /// Returns the key of the lowest span in the column at the given coordinates.
    /// `None` if either the index is out of bounds or there is no span in the column.
    pub fn span_key_at(&self, x: u16, z: u16) -> (r: Option<SpanKey>)
        ensures
            r == (if self.spec_column_index(x, z) < self.spans@.len() {
                self.spans@[self.spec_column_index(x, z)]
            } else {
                None
            }),
    {
        let column_index = self.column_index(x, z);
        if column_index < self.spans.len() {
            self.spans[column_index]
        } else {
            None
        }
    }

    /// Returns the span with the given key.
    pub fn span(&self, key: SpanKey) -> (r: &Span)
        requires
            self.allocated_spans.contains(key),
        ensures
            *r == self.allocated_spans@[key.ffi],
    {
        self.allocated_spans.get(key)
    }

    /// Returns the lowest span at the given coordinates.
    /// `None` if either the index is out of bounds or there is no span in the column.
    pub fn span_at(&self, x: u16, z: u16) -> (r: Option<&Span>)
        requires
            self.wf(),
        ensures
            ({
                let c = self.spec_column_index(x, z);
                if c < self.spans@.len() && self.column_view(c).len() > 0 {
                    r is Some && bare(*r->0) == self.column_view(c)[0]
                        && r->0.next == next_of(self.chains@[c], 0)
                } else {
                    r is None
                }
            }),
    {
        let ghost c = self.spec_column_index(x, z);
        match self.span_key_at(x, z) {
            None => {
                proof {
                    if c < self.spans@.len() {
                        lemma_links_basic(self.spans@, self.allocated_spans@, self.chains@, c);
                    }
                }
                None
            },
            Some(key) => {
                proof {
                    lemma_links_basic(self.spans@, self.allocated_spans@, self.chains@, c);
                    assert(self.chains@[c][0] == key);
                    lemma_link_at(self.spans@, self.allocated_spans@, self.chains@, c, 0);
                }
                Some(self.span(key))
            },
        }
    }
    /// Every span keeps its extent and area from `old`, and only keys of
    /// `old` remain.
    pub open spec fn extents_kept(&self, old: Map<u64, Span>) -> bool {
        forall|k: u64|
            #[trigger] self.allocated_spans@.dom().contains(k) ==> old.dom().contains(k) && bare(
                self.allocated_spans@[k],
            ) == bare(old[k])
    }

    /// Unlinks and removes the span at position `p` of column `column_index`.
    fn unlink_span(
        &mut self,
        column_index: usize,
        previous: Option<SpanKey>,
        current: SpanKey,
        next_key: Option<SpanKey>,
        Ghost(p): Ghost<int>,
    )
        requires
            old(self).wf(),
            column_index < old(self).spans@.len(),
            0 <= p < old(self).chains@[column_index as int].len(),
            old(self).chains@[column_index as int][p] == current,
            previous == (if p > 0 {
                Some(old(self).chains@[column_index as int][p - 1])
            } else {
                None::<SpanKey>
            }),
            next_key == next_of(old(self).chains@[column_index as int], p),
        ensures
            final(self).wf(),
            final(self).width == old(self).width,
            final(self).height == old(self).height,
            final(self).chains@ == old(self).chains@.update(
                column_index as int,
                old(self).chains@[column_index as int].remove(p),
            ),
            final(self).allocated_spans@.len() + 1 == old(self).allocated_spans@.len(),
            final(self).extents_kept(old(self).allocated_spans@),
    {
        let ghost cols0 = self.spans@;
        let ghost m0 = self.allocated_spans@;
        let ghost chains0 = self.chains@;
        let ghost ci = column_index as int;
        proof {
            lemma_links_basic(cols0, m0, chains0, ci);
            lemma_link_at(cols0, m0, chains0, ci, p);
            if p > 0 {
                lemma_link_at(cols0, m0, chains0, ci, p - 1);
                if chains0[ci][p - 1] == chains0[ci][p] {
                    lemma_links_distinct(cols0, m0, chains0, ci, p - 1, ci, p);
                }
            }
        }
        self.allocated_spans.remove(current);
        match previous {
            Some(previous_key) => {
                let mut previous_span = *self.allocated_spans.get(previous_key);
                previous_span.next = next_key;
                self.allocated_spans.set(previous_key, previous_span);
            },
            None => {
                self.spans.set(column_index, next_key);
            },
        }
        proof {
            lemma_unlink(cols0, m0, chains0, ci, p, self.spans@, self.allocated_spans@);
            self.chains@ = chains0.update(ci, chains0[ci].remove(p));
        }
    }

    /// Links `new_span` in at position `p` of column `column_index` and
    /// returns its key.
    fn link_span(
        &mut self,
        column_index: usize,
        previous: Option<SpanKey>,
        new_span: Span,
        Ghost(p): Ghost<int>,
    ) -> (r: SpanKey)
        requires
            old(self).wf(),
            old(self).allocated_spans@.len() < 0xffff_fffe,
            column_index < old(self).spans@.len(),
            0 <= p <= old(self).chains@[column_index as int].len(),
            previous == (if p > 0 {
                Some(old(self).chains@[column_index as int][p - 1])
            } else {
                None::<SpanKey>
            }),
        ensures
            final(self).wf(),
            final(self).width == old(self).width,
            final(self).height == old(self).height,
            final(self).chains@ == old(self).chains@.update(
                column_index as int,
                old(self).chains@[column_index as int].insert(p, r),
            ),
            !old(self).allocated_spans@.dom().contains(r.ffi),
            final(self).allocated_spans@.len() == old(self).allocated_spans@.len() + 1,
            final(self).allocated_spans@.dom().contains(r.ffi),
            bare(final(self).allocated_spans@[r.ffi]) == bare(new_span),
            forall|k: u64|
                #[trigger] old(self).allocated_spans@.dom().contains(k) ==> final(self).allocated_spans@.dom().contains(k)
                    && bare(final(self).allocated_spans@[k]) == bare(old(self).allocated_spans@[k]),
    {
        let ghost cols0 = self.spans@;
        let ghost m0 = self.allocated_spans@;
        let ghost chains0 = self.chains@;
        let ghost ci = column_index as int;
        let ghost ch = chains0[ci];
        proof {
            lemma_links_basic(cols0, m0, chains0, ci);
        }
        let mut new_span = new_span;
        match previous {
            Some(previous_key) => {
                proof {
                    lemma_link_at(cols0, m0, chains0, ci, p - 1);
                }
                let mut previous_span = *self.allocated_spans.get(previous_key);
                new_span.next = previous_span.next;
                let new_span_key = self.allocated_spans.insert(new_span);
                previous_span.next = Some(new_span_key);
                self.allocated_spans.set(previous_key, previous_span);
                proof {
                    lemma_link(cols0, m0, chains0, ci, p, new_span_key, new_span, self.spans@, self.allocated_spans@);
                    self.chains@ = chains0.update(ci, ch.insert(p, new_span_key));
                    assert(new_span_key != ch[p - 1]);
                }
                new_span_key
            },
            None => {
                new_span.next = self.spans[column_index];
                let new_span_key = self.allocated_spans.insert(new_span);
                self.spans.set(column_index, Some(new_span_key));
                proof {
                    lemma_link(cols0, m0, chains0, ci, p, new_span_key, new_span, self.spans@, self.allocated_spans@);
                    self.chains@ = chains0.update(ci, ch.insert(p, new_span_key));
                }
                new_span_key
            },
        }
    }
    /// Inserts a span into its column, merging it with the spans it
    /// overlaps.
    #[verifier::rlimit(40)]
    pub fn add_span(&mut self, insertion: SpanInsertion) -> (r: Result<(), SpanInsertionError>)
        requires
            old(self).wf(),
            old(self).allocated_spans@.len() < 0xffff_fffe,
        ensures
            ({
                let ci = old(self).spec_column_index(insertion.x, insertion.z);
                match r {
                    Err(e) => {
                        &&& ci >= old(self).spans@.len()
                        &&& e == SpanInsertionError::ColumnIndexOutOfBounds { x: insertion.x, y: insertion.z }
                        &&& *final(self) == *old(self)
                    },
                    Ok(_) => {
                        &&& ci < old(self).spans@.len()
                        &&& final(self).wf()
                        &&& final(self).width == old(self).width
                        &&& final(self).height == old(self).height
                        &&& forall|c: int|
                            0 <= c < old(self).spans@.len() && c != ci ==> #[trigger] final(self).column_view(c)
                                == old(self).column_view(c)
                        &&& final(self).column_view(ci) == insert_into_column(
                            old(self).column_view(ci),
                            bare(insertion.span),
                            insertion.flag_merge_threshold,
                        )
                        &&& final(self).allocated_spans@.len() <= old(self).allocated_spans@.len() + 1
                    },
                }
            }),
    {
        let column_index = self.column_index(insertion.x, insertion.z);
        if column_index >= self.spans.len() {
            return Err(SpanInsertionError::ColumnIndexOutOfBounds { x: insertion.x, y: insertion.z });
        }
        let ghost ci = column_index as int;
        let ghost old_self = *self;
        let ghost old_m = self.allocated_spans@;
        let ghost ch = self.chains@[ci];
        let ghost thr = insertion.flag_merge_threshold;
        let ghost new0 = bare(insertion.span);
        let mut new_span = insertion.span;
        let mut previous_span_key: Option<SpanKey> = None;
        let mut current_span_key_iter: Option<SpanKey> = self.spans[column_index];
        let ghost mut prefix: Seq<SpanKey> = Seq::empty();
        let ghost mut j: int = 0;
        proof {
            lemma_links_basic(self.spans@, self.allocated_spans@, self.chains@, ci);
            assert(prefix + ch.skip(0) =~= ch);
            assert(self.chains@.update(ci, prefix + ch.skip(0)) =~= self.chains@);
            assert(self.spans@[ci] == head_of(ch));
            assert(view_keys(old_m, prefix) =~= Seq::<Span>::empty());
            assert(Seq::<Span>::empty() + insert_into_column(view_keys(old_m, ch.skip(0)), new0, thr)
                =~= insert_into_column(view_keys(old_m, ch), new0, thr));
        }
        loop
            invariant
                self.width == old_self.width,
                self.height == old_self.height,
                self.spans@.len() == old_self.spans@.len(),
                ci == column_index,
                0 <= ci < self.spans@.len(),
                self.wf(),
                ch == old_self.chains@[ci],
                old_self.chains@.len() == old_self.spans@.len(),
                old_m == old_self.allocated_spans@,
                thr == insertion.flag_merge_threshold,
                new0 == bare(insertion.span),
                0 <= prefix.len() <= j <= ch.len(),
                self.chains@ == old_self.chains@.update(ci, prefix + ch.skip(j)),
                current_span_key_iter == head_of(ch.skip(j)),
                previous_span_key == (if prefix.len() > 0 {
                    Some(prefix.last())
                } else {
                    None::<SpanKey>
                }),
                self.extents_kept(old_m),
                insert_into_column(view_keys(old_m, ch), new0, thr) == view_keys(old_m, prefix)
                    + insert_into_column(view_keys(old_m, ch.skip(j)), bare(new_span), thr),
                self.allocated_spans@.len() + (j - prefix.len()) == old_m.len(),
            ensures
                current_span_key_iter is None || (j < ch.len() && old_m[ch[j].ffi].min > new_span.max),
            decreases ch.len() - j,
        {
            let current_span_key = match current_span_key_iter {
                None => break,
                Some(k) => k,
            };
            let ghost cur_ch = prefix + ch.skip(j);
            let ghost p = prefix.len() as int;
            proof {
                assert(ch.skip(j)[0] == ch[j]);
                assert(cur_ch[p] == ch[j]);
                lemma_links_basic(self.spans@, self.allocated_spans@, self.chains@, ci);
                assert(self.chains@[ci] == cur_ch);
                lemma_link_at(self.spans@, self.allocated_spans@, self.chains@, ci, p);
                lemma_view_skip(old_m, ch, j);
            }
            let current_span = *self.allocated_spans.get(current_span_key);
            if current_span.min > new_span.max {
                break;
            }
            let next_key = current_span.next;
            proof {
                assert(next_key == next_of(cur_ch, p));
                if j + 1 < ch.len() {
                    assert(cur_ch[p + 1] == ch[j + 1]);
                }
                assert(next_key == head_of(ch.skip(j + 1)));
                assert(bare(current_span) == bare(old_m[ch[j].ffi]));
            }
            if current_span.max < new_span.min {
                proof {
                    let old_prefix = prefix;
                    prefix = prefix.push(current_span_key);
                    j = j + 1;
                    assert(prefix + ch.skip(j) =~= old_prefix + ch.skip(j - 1));
                    assert(view_keys(old_m, prefix) =~= view_keys(old_m, old_prefix).push(bare(current_span)));
                    lemma_insert_step(view_keys(old_m, ch.skip(j - 1)), bare(new_span), thr);
                    assert(view_keys(old_m, old_prefix) + insert_into_column(view_keys(old_m, ch.skip(j - 1)), bare(new_span), thr)
                        =~= view_keys(old_m, prefix) + insert_into_column(view_keys(old_m, ch.skip(j)), bare(new_span), thr));
                }
                previous_span_key = Some(current_span_key);
                current_span_key_iter = next_key;
                continue;
            }
            let ghost before_merge = bare(new_span);
            // The new span overlaps with an existing span.  Merge them.
            if current_span.min < new_span.min {
                new_span.min = current_span.min;
            }
            if current_span.max > new_span.max {
                new_span.max = current_span.max;
            }
            // Merge flags.
            let diff = if new_span.max >= current_span.max {
                new_span.max - current_span.max
            } else {
                current_span.max - new_span.max
            };
            if diff <= insertion.flag_merge_threshold {
                // Higher area ID numbers indicate higher resolution priority.
                new_span.area = new_span.area.max(current_span.area.0);
            }
            proof {
                assert(bare(new_span) == merged_with(before_merge, bare(current_span), thr));
                lemma_insert_step(view_keys(old_m, ch.skip(j)), before_merge, thr);
                if p > 0 {
                    assert(cur_ch[p - 1] == prefix.last());
                }
            }
            // Remove the current span since it's now merged with the new one.
            let ghost m_before = self.allocated_spans@;
            self.unlink_span(column_index, previous_span_key, current_span_key, next_key, Ghost(p));
            proof {
                assert(cur_ch.remove(p) =~= prefix + ch.skip(j + 1));
                assert(self.chains@ =~= old_self.chains@.update(ci, prefix + ch.skip(j + 1)));
                j = j + 1;
            }
            current_span_key_iter = next_key;
        }
        let ghost cur_ch = prefix + ch.skip(j);
        let ghost p = prefix.len() as int;
        proof {
            lemma_links_basic(self.spans@, self.allocated_spans@, self.chains@, ci);
            assert(self.chains@[ci] == cur_ch);
            if p > 0 {
                assert(cur_ch[p - 1] == prefix.last());
            }
            if j == ch.len() {
                assert(ch.skip(j) =~= Seq::<SpanKey>::empty());
                assert(view_keys(old_m, ch.skip(j)) =~= Seq::<Span>::empty());
            } else {
                lemma_view_skip(old_m, ch, j);
            }
        }
        let ghost m_before = self.allocated_spans@;
        let ghost cols_before = self.spans@;
        let ghost chains_before = self.chains@;
        proof {
            assert(chains_before[ci] == cur_ch);
        }
        let new_span_key = self.link_span(column_index, previous_span_key, new_span, Ghost(p));
        proof {
            let rest = ch.skip(j);
            let final_ch = cur_ch.insert(p, new_span_key);
            assert(final_ch =~= prefix + seq![new_span_key] + rest);
            assert(self.chains@[ci] == final_ch);
            assert(view_keys(self.allocated_spans@, final_ch) =~= view_keys(old_m, prefix) + seq![bare(new_span)] + view_keys(old_m, rest)) by {
                assert forall|i: int| 0 <= i < final_ch.len() implies
                    #[trigger] view_keys(self.allocated_spans@, final_ch)[i] == (view_keys(old_m, prefix) + seq![bare(new_span)] + view_keys(old_m, rest))[i] by {
                    if i != p {
                        let i2 = if i < p { i } else { i - 1 };
                        assert(cur_ch[i2] == final_ch[i]);
                        lemma_link_at(cols_before, m_before, chains_before, ci, i2);
                        if i < p {
                            assert(prefix[i] == final_ch[i]);
                        } else {
                            assert(rest[i - p - 1] == final_ch[i]);
                        }
                    }
                }
            }
            lemma_insert_step(view_keys(old_m, rest), bare(new_span), thr);
            if j == ch.len() {
                assert(insert_into_column(view_keys(old_m, rest), bare(new_span), thr) =~= seq![bare(new_span)]);
            }
            assert(insert_into_column(view_keys(old_m, rest), bare(new_span), thr) =~= seq![bare(new_span)] + view_keys(old_m, rest));
            assert forall|c: int| 0 <= c < old_self.spans@.len() && c != ci implies #[trigger] self.column_view(c) == old_self.column_view(c) by {
                assert forall|i: int| 0 <= i < old_self.chains@[c].len() implies bare(self.allocated_spans@[(#[trigger] old_self.chains@[c][i]).ffi]) == bare(old_m[old_self.chains@[c][i].ffi]) by {
                    assert(chains_before[c] == old_self.chains@[c]);
                    lemma_link_at(cols_before, m_before, chains_before, c, i);
                }
                lemma_view_same(self.allocated_spans@, old_m, old_self.chains@[c]);
            }
        }
        Ok(())
    }
    /// Returns the span with the given key, for writing.  Changing its link
    /// can break the heightfield's consistency.
    pub fn span_mut(&mut self, key: SpanKey) -> (r: &mut Span)
        requires
            old(self).allocated_spans.contains(key),
        ensures
            *r == old(self).allocated_spans@[key.ffi],
            final(self).allocated_spans@ == old(self).allocated_spans@.insert(key.ffi, *final(r)),
            final(self).width == old(self).width,
            final(self).height == old(self).height,
            final(self).spans == old(self).spans,
            final(self).chains == old(self).chains,
    {
        self.allocated_spans.get_mut(key)
    }

    /// Returns the lowest span of column `(x, z)` to be written, if any.
    pub fn span_at_mut(&mut self, x: u16, z: u16) -> (r: Option<&mut Span>)
        requires
            old(self).wf(),
        ensures
            ({
                let c = old(self).spec_column_index(x, z);
                if c < old(self).spans@.len() && old(self).spans@[c] is Some {
                    &&& r is Some
                    &&& *r->0 == old(self).allocated_spans@[old(self).spans@[c]->0.ffi]
                    &&& final(self).allocated_spans@ == old(self).allocated_spans@.insert(
                        old(self).spans@[c]->0.ffi,
                        *final(r->0),
                    )
                    &&& final(self).width == old(self).width
                    &&& final(self).height == old(self).height
                    &&& final(self).spans == old(self).spans
                    &&& final(self).chains == old(self).chains
                } else {
                    &&& r is None
                    &&& *final(self) == *old(self)
                }
            }),
    {
        match self.span_key_at(x, z) {
            None => None,
            Some(key) => {
                proof {
                    lemma_links_basic(self.spans@, self.allocated_spans@, self.chains@, self.spec_column_index(x, z));
                    lemma_link_at(self.spans@, self.allocated_spans@, self.chains@, self.spec_column_index(x, z), 0);
                }
                Some(self.span_mut(key))
            },
        }
    }

    /// Marks non-walkable spans as walkable when they lie just above a
    /// walkable span, within `walkable_climb_height` of its ceiling.
    pub fn filter_low_hanging_walkable_obstacles(&mut self, walkable_climb_height: u16)
        requires
            old(self).wf(),
        ensures
            final(self).wf(),
            final(self).width == old(self).width,
            final(self).height == old(self).height,
            final(self).chains == old(self).chains,
            forall|c: int|
                0 <= c < old(self).spans@.len() ==> #[trigger] final(self).column_view(c) == filter_low_hanging(
                    old(self).column_view(c),
                    walkable_climb_height,
                ),
            forall|c: int, i: int|
                0 <= c < old(self).spans@.len() && 0 <= i < old(self).column_view(c).len() ==> {
                    &&& final(self).column_view(c).len() == old(self).column_view(c).len()
                    &&& (#[trigger] final(self).column_view(c)[i]).area == if i > 0 && old(self).column_view(c)[i].area.0 == 0
                        && old(self).column_view(c)[i - 1].area.0 != 0 && old(self).column_view(c)[i].max
                        <= old(self).column_view(c)[i - 1].max + walkable_climb_height {
                        old(self).column_view(c)[i - 1].area
                    } else {
                        old(self).column_view(c)[i].area
                    }
                },
    {
        let ghost old_self = *self;
        let ghost old_m = self.allocated_spans@;
        let ghost chains = self.chains@;
        let n = self.spans.len();
        let mut c: usize = 0;
        proof {
            lemma_chains_len(self.spans@, old_m, chains);
        }
        while c < n
            invariant
                n == self.spans@.len(),
                n == old_self.spans@.len(),
                old_self.wf(),
                self.wf(),
                chains == old_self.chains@,
                self.chains@ == chains,
                self.width == old_self.width,
                self.height == old_self.height,
                self.spans@ == old_self.spans@,
                chains.len() == n,
                old_m == old_self.allocated_spans@,
                self.allocated_spans@.dom() == old_m.dom(),
                c <= n,
                forall|c2: int| 0 <= c2 < c ==> #[trigger] self.column_view(c2) == filter_low_hanging(
                    old_self.column_view(c2),
                    walkable_climb_height,
                ),
                forall|c2: int, i: int|
                    c <= c2 < n && 0 <= i < chains[c2].len() ==> self.allocated_spans@[(#[trigger] chains[c2][i]).ffi]
                        == old_m[chains[c2][i].ffi],
            decreases n - c,
        {
            proof {
                lemma_links_basic(self.spans@, self.allocated_spans@, chains, c as int);
            }
            self.filter_column(c, walkable_climb_height, Ghost(old_m));
            c = c + 1;
        }
        proof {
            assert forall|c2: int, i: int|
                0 <= c2 < old_self.spans@.len() && 0 <= i < old_self.column_view(c2).len() implies {
                &&& self.column_view(c2).len() == old_self.column_view(c2).len()
                &&& (#[trigger] self.column_view(c2)[i]).area == if i > 0 && old_self.column_view(c2)[i].area.0 == 0
                    && old_self.column_view(c2)[i - 1].area.0 != 0 && old_self.column_view(c2)[i].max
                    <= old_self.column_view(c2)[i - 1].max + walkable_climb_height {
                    old_self.column_view(c2)[i - 1].area
                } else {
                    old_self.column_view(c2)[i].area
                }
            } by {
                assert(self.column_view(c2) == filter_low_hanging(old_self.column_view(c2), walkable_climb_height));
                law_low_hanging_compares_ceilings(old_self.column_view(c2), walkable_climb_height);
            }
        }
    }

    /// Filters the spans of one column, reading the extents of `m0`.
    fn filter_column(&mut self, c: usize, walkable_climb_height: u16, Ghost(m0): Ghost<Map<u64, Span>>)
        requires
            old(self).wf(),
            c < old(self).spans@.len(),
            old(self).allocated_spans@.dom() == m0.dom(),
            forall|c2: int, i: int|
                c <= c2 < old(self).spans@.len() && 0 <= i < old(self).chains@[c2].len() ==> old(self).allocated_spans@[(
                #[trigger] old(self).chains@[c2][i]).ffi] == m0[old(self).chains@[c2][i].ffi],
        ensures
            final(self).wf(),
            final(self).width == old(self).width,
            final(self).height == old(self).height,
            final(self).spans == old(self).spans,
            final(self).chains == old(self).chains,
            final(self).allocated_spans@.dom() == m0.dom(),
            final(self).column_view(c as int) == filter_low_hanging(
                view_keys(m0, old(self).chains@[c as int]),
                walkable_climb_height,
            ),
            forall|c2: int| 0 <= c2 < old(self).spans@.len() && c2 != c ==> #[trigger] final(self).column_view(c2)
                == old(self).column_view(c2),
            forall|c2: int, i: int|
                c < c2 < old(self).spans@.len() && 0 <= i < old(self).chains@[c2].len() ==> final(self).allocated_spans@[(
                #[trigger] old(self).chains@[c2][i]).ffi] == m0[old(self).chains@[c2][i].ffi],
    {
        let ghost old_self = *self;
        let ghost ci = c as int;
        let ghost ch = self.chains@[ci];
        let ghost col = view_keys(m0, ch);
        proof {
            lemma_links_basic(self.spans@, self.allocated_spans@, self.chains@, ci);
        }
        let mut previous_span: Option<Span> = None;
        let mut previous_was_walkable = false;
        let mut previous_area_id = AreaType(0);
        let mut key_iter: Option<SpanKey> = self.spans[c];
        let ghost mut t: int = 0;
        proof {
            assert(ch.skip(0) =~= ch);
        }
        while key_iter.is_some()
            invariant
                old_self.wf(),
                self.wf(),
                self.width == old_self.width,
                self.height == old_self.height,
                self.spans == old_self.spans,
                self.chains == old_self.chains,
                0 <= ci < self.spans@.len(),
                self.chains@.len() == self.spans@.len(),
                ci == c,
                ch == self.chains@[ci],
                col == view_keys(m0, ch),
                self.allocated_spans@.dom() == m0.dom(),
                0 <= t <= ch.len(),
                key_iter == head_of(ch.skip(t)),
                forall|c2: int, i: int|
                    0 <= c2 < self.spans@.len() && c2 != ci && 0 <= i < self.chains@[c2].len() ==> self.allocated_spans@[(
                    #[trigger] self.chains@[c2][i]).ffi] == old_self.allocated_spans@[self.chains@[c2][i].ffi],
                forall|i: int|
                    0 <= i < ch.len() ==> (#[trigger] self.allocated_spans@[ch[i].ffi]).next == old_self.allocated_spans@[ch[i].ffi].next,
                forall|i: int|
                    t <= i < ch.len() ==> self.allocated_spans@[(#[trigger] ch[i]).ffi] == m0[ch[i].ffi],
                forall|i: int|
                    0 <= i < t ==> bare(self.allocated_spans@[(#[trigger] ch[i]).ffi]) == filter_low_hanging(
                        col,
                        walkable_climb_height,
                    )[i],
                t == 0 ==> previous_span is None,
                t > 0 ==> previous_span is Some && previous_span->0.max == m0[ch[t - 1].ffi].max && previous_was_walkable == m0[ch[t - 1].ffi].area.spec_is_walkable()
                    && previous_area_id == filter_low_hanging(col, walkable_climb_height)[t - 1].area,
            decreases ch.len() - t,
        {
            let key = key_iter.unwrap();
            proof {
                assert(ch.skip(t)[0] == ch[t]);
                lemma_link_at(self.spans@, self.allocated_spans@, self.chains@, ci, t);
                if t + 1 < ch.len() {
                    assert(ch.skip(t + 1)[0] == ch[t + 1]);
                }
                assert(ch.skip(t + 1) =~= ch.skip(t).drop_first());
            }
            let ghost before = self.allocated_spans@;
            let mut span = *self.allocated_spans.get(key);
            let walkable = span.area.is_walkable();
            if let Some(previous) = previous_span {
                if !walkable && previous_was_walkable && (span.max as i32 - previous.max as i32) <= walkable_climb_height as i32 {
                    span.area = previous_area_id;
                    self.allocated_spans.set(key, span);
                }
            }
            let ghost orig_span = m0[ch[t].ffi];
            proof {
                assert(col[t] == bare(orig_span));
                if t > 0 {
                    assert(col[t - 1] == bare(m0[ch[t - 1].ffi]));
                }
                assert(bare(span) == filter_low_hanging(col, walkable_climb_height)[t]);
                assert forall|c2: int, i: int|
                    0 <= c2 < self.spans@.len() && c2 != ci && 0 <= i < self.chains@[c2].len() implies self.allocated_spans@[(
                    #[trigger] self.chains@[c2][i]).ffi] == old_self.allocated_spans@[self.chains@[c2][i].ffi] by {
                    lemma_link_at(self.spans@, before, self.chains@, c2, i);
                    if self.chains@[c2][i] == ch[t] {
                        lemma_links_distinct(self.spans@, before, self.chains@, c2, i, ci, t);
                    }
                }
                assert forall|i: int| t < i < ch.len() implies self.allocated_spans@[(#[trigger] ch[i]).ffi] == m0[ch[i].ffi] by {
                    if ch[i] == ch[t] {
                        lemma_links_distinct(self.spans@, before, self.chains@, ci, i, ci, t);
                    }
                }
                assert forall|i: int| 0 <= i < t implies bare(self.allocated_spans@[(#[trigger] ch[i]).ffi]) == filter_low_hanging(
                    col,
                    walkable_climb_height,
                )[i] by {
                    if ch[i] == ch[t] {
                        lemma_links_distinct(self.spans@, before, self.chains@, ci, i, ci, t);
                    }
                }
                assert(self.allocated_spans@.dom() =~= before.dom());
                lemma_links_same_next(self.spans@, before, self.allocated_spans@, self.chains@);
            }
            previous_span = Some(span);
            previous_was_walkable = walkable;
            previous_area_id = span.area;
            key_iter = span.next;
            proof {
                t = t + 1;
            }
        }
        proof {
            if t < ch.len() {
                assert(ch.skip(t).len() > 0);
            }
            assert(self.column_view(ci) =~= filter_low_hanging(col, walkable_climb_height));
            assert forall|c2: int| 0 <= c2 < old_self.spans@.len() && c2 != ci implies #[trigger] self.column_view(c2)
                == old_self.column_view(c2) by {
                assert(self.column_view(c2) =~= old_self.column_view(c2));
            }
        }
    }
}


/// Filtering low-hanging obstacles changes only areas: every span keeps its
/// floor, ceiling and link, and a walkable span stays walkable.
pub proof fn law_filter_keeps_extents(col: Seq<Span>, climb: u16)
    ensures
        filter_low_hanging(col, climb).len() == col.len(),
        forall|i: int|
            0 <= i < col.len() ==> {
                &&& (#[trigger] filter_low_hanging(col, climb)[i]).min == col[i].min
                &&& filter_low_hanging(col, climb)[i].max == col[i].max
                &&& filter_low_hanging(col, climb)[i].next == col[i].next
                &&& col[i].area.spec_is_walkable() ==> filter_low_hanging(col, climb)[i].area.spec_is_walkable()
            },
{
}

/// The low-hanging filter compares ceilings: a non-walkable span takes the
/// area of the walkable span directly below it exactly when its ceiling is
/// at most `climb` above that span's ceiling; every other span keeps its
/// area. In particular a span whose ceiling is more than `climb` above stays
/// as it was, however close its floor is.
pub proof fn law_low_hanging_compares_ceilings(col: Seq<Span>, climb: u16)
    ensures
        filter_low_hanging(col, climb).len() == col.len(),
        forall|i: int|
            0 <= i < col.len() ==> (#[trigger] filter_low_hanging(col, climb)[i]).area == if i > 0 && col[i].area.0 == 0
                && col[i - 1].area.0 != 0 && col[i].max <= col[i - 1].max + climb {
                col[i - 1].area
            } else {
                col[i].area
            },
        forall|i: int|
            0 < i < col.len() && col[i].max > col[i - 1].max + climb ==> #[trigger] filter_low_hanging(col, climb)[i] == col[i],
{
}

} // verus!
