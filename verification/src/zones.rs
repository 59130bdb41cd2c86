//! Footnote zones recovered from encoded note heads: on a page where two
//! Marginalia rows carry consecutive note heads, everything from the first
//! such row down is a footnote zone, and blocks that lie wholly inside it are
//! Marginalia.
use vstd::prelude::*;

use crate::markers::{insert_sorted_unique, sentinel_heads_from, sentineled_note_head_markers_in_context, strictly_sorted};
use crate::types::{LiquidBlock, LiquidBlockRole, LiquidBlockSourceLines, LiquidSourceLineRef};

verus! {

/// A note head found in the provenance: (page, line, note number).
pub type NoteHead = (usize, usize, u16);

/// Page, then line, then note number.
pub open spec fn head_lt(a: NoteHead, b: NoteHead) -> bool {
    a.0 < b.0 || (a.0 == b.0 && (a.1 < b.1 || (a.1 == b.1 && a.2 < b.2)))
}

/// Strictly increasing in page, line, note-number order.
///
/// The pass collects, per page, the sorted and deduplicated (line, note
/// number) heads of that page; the heads of all pages kept in one strictly
/// increasing list of (page, line, note number) hold exactly that, grouped by
/// page in page order.
pub open spec fn heads_sorted(h: Seq<NoteHead>) -> bool {
    forall|i: int, j: int| 0 <= i < j < h.len() ==> head_lt(#[trigger] h[i], #[trigger] h[j])
}

/// The row is a Marginalia row that carries head `t` in context.
pub open spec fn row_has_head(row: LiquidSourceLineRef, t: NoteHead) -> bool {
    &&& row.role == LiquidBlockRole::Marginalia
    &&& t.0 == row.page_index
    &&& t.1 == row.line_index
    &&& sentinel_heads_from(row.text@, 0).contains(t.2)
}

/// One of the rows `0..n` of the entry carries head `t`.
pub open spec fn rows_have_head(rows: Seq<LiquidSourceLineRef>, n: int, t: NoteHead) -> bool {
    exists|r: int| 0 <= r < n && r < rows.len() && row_has_head(#[trigger] rows[r], t)
}

/// One of the entries `0..n` carries head `t` on one of its rows.
pub open spec fn entries_have_head(srcs: Seq<LiquidBlockSourceLines>, n: int, t: NoteHead) -> bool {
    exists|k: int|
        0 <= k < n && k < srcs.len() && rows_have_head(
            (#[trigger] srcs[k]).lines@,
            srcs[k].lines@.len() as int,
            t,
        )
}

/// Some Marginalia row of the table carries head `t`.
pub open spec fn has_head(srcs: Seq<LiquidBlockSourceLines>, t: NoteHead) -> bool {
    entries_have_head(srcs, srcs.len() as int, t)
}

/// `m + 1`, capped at the largest `u16`.
pub open spec fn next_number(m: u16) -> int {
    if m < u16::MAX {
        m + 1
    } else {
        m as int
    }
}

/// Two heads of page `p` that are neighbours in page, line, number order
/// carry consecutive note numbers.
pub open spec fn page_has_consecutive_heads(srcs: Seq<LiquidBlockSourceLines>, p: usize) -> bool {
    exists|a: NoteHead, b: NoteHead|
        #![trigger has_head(srcs, a), has_head(srcs, b)]
        has_head(srcs, a) && has_head(srcs, b) && a.0 == p && b.0 == p && head_lt(a, b) && b.2
            == next_number(a.2) && !exists|c: NoteHead|
            #![trigger has_head(srcs, c)]
            has_head(srcs, c) && head_lt(a, c) && head_lt(c, b)
}

/// `l` is the first line of page `p` that carries a head.
pub open spec fn is_first_head_line(srcs: Seq<LiquidBlockSourceLines>, p: usize, l: usize) -> bool {
    &&& exists|m: u16| #[trigger] has_head(srcs, (p, l, m))
    &&& forall|t: NoteHead| has_head(srcs, t) && t.0 == p ==> l <= t.1
}

/// Where the footnote zone of page `p` starts, if the page has one: the
/// first head line of a page with consecutive heads.
pub open spec fn page_zone_start(srcs: Seq<LiquidBlockSourceLines>, p: usize) -> Option<usize> {
    if page_has_consecutive_heads(srcs, p) {
        Some(choose|l: usize| is_first_head_line(srcs, p, l))
    } else {
        None
    }
}

// ---------------------------------------------------------------------------
// Collecting the heads
// ---------------------------------------------------------------------------

fn head_lt_exec(a: NoteHead, b: NoteHead) -> (r: bool)
    ensures r == head_lt(a, b),
{
    a.0 < b.0 || (a.0 == b.0 && (a.1 < b.1 || (a.1 == b.1 && a.2 < b.2)))
}

/// Inserts `t` into the strictly increasing list `h`, keeping it so.
fn insert_head(h: &mut Vec<NoteHead>, t: NoteHead)
    requires heads_sorted(old(h)@),
    ensures
        heads_sorted(final(h)@),
        forall|x: NoteHead| final(h)@.contains(x) <==> (old(h)@.contains(x) || x == t),
{
    let mut i: usize = 0;
    while i < h.len() && head_lt_exec(h[i], t)
        invariant
            i <= h@.len(),
            h@ == old(h)@,
            heads_sorted(h@),
            forall|j: int| 0 <= j < i ==> head_lt(#[trigger] h@[j], t),
        decreases h.len() - i,
    {
        i += 1;
    }
    if i < h.len() && h[i].0 == t.0 && h[i].1 == t.1 && h[i].2 == t.2 {
        proof {
            assert(h@[i as int] == t);
            assert(h@.contains(t));
        }
        return;
    }
    let ghost before = h@;
    h.insert(i, t);
    proof {
        assert(h@ == before.insert(i as int, t));
        assert forall|a: int, b: int| 0 <= a < b < h@.len() implies head_lt(
            #[trigger] h@[a],
            #[trigger] h@[b],
        ) by {
            if b < i {
                assert(h@[a] == before[a] && h@[b] == before[b]);
            } else if b == i {
                assert(h@[a] == before[a]);
            } else if a < i {
                assert(h@[a] == before[a] && h@[b] == before[b - 1]);
            } else if a == i {
                assert(h@[b] == before[b - 1]);
                assert(!head_lt(before[i as int], t));
                if b - 1 > i {
                    assert(head_lt(before[i as int], before[b - 1]));
                }
            } else {
                assert(h@[a] == before[a - 1] && h@[b] == before[b - 1]);
            }
        }
        assert forall|x: NoteHead| #[trigger] h@.contains(x) <==> (old(h)@.contains(x) || x == t) by {
            if h@.contains(x) {
                let j = choose|j: int| 0 <= j < h@.len() && h@[j] == x;
                if j < i {
                    assert(before[j] == x);
                } else if j > i {
                    assert(before[j - 1] == x);
                }
            }
            if before.contains(x) {
                let j = choose|j: int| 0 <= j < before.len() && before[j] == x;
                if j < i {
                    assert(h@[j] == x);
                } else {
                    assert(h@[j + 1] == x);
                }
            }
            if x == t {
                assert(h@[i as int] == t);
            }
        }
    }
}

/// Every head that a Marginalia row of the table carries, strictly
/// increasing in page, line, number order.
fn collect_note_heads(sources: &Vec<LiquidBlockSourceLines>) -> (h: Vec<NoteHead>)
    ensures
        heads_sorted(h@),
        forall|t: NoteHead| h@.contains(t) <==> has_head(sources@, t),
{
    let mut h: Vec<NoteHead> = Vec::new();
    let mut k: usize = 0;
    while k < sources.len()
        invariant
            k <= sources@.len(),
            heads_sorted(h@),
            forall|t: NoteHead| h@.contains(t) <==> entries_have_head(sources@, k as int, t),
        decreases sources.len() - k,
    {
        let rows = &sources[k].lines;
        let mut r: usize = 0;
        while r < rows.len()
            invariant
                k < sources@.len(),
                rows == sources@[k as int].lines,
                r <= rows@.len(),
                heads_sorted(h@),
                forall|t: NoteHead|
                    h@.contains(t) <==> (entries_have_head(sources@, k as int, t) || rows_have_head(
                        rows@,
                        r as int,
                        t,
                    )),
            decreases rows.len() - r,
        {
            let row = &rows[r];
            if row.role == LiquidBlockRole::Marginalia {
                let heads = sentineled_note_head_markers_in_context(row.text.as_str());
                let mut j: usize = 0;
                while j < heads.len()
                    invariant
                        k < sources@.len(),
                        rows == sources@[k as int].lines,
                        r < rows@.len(),
                        row == rows@[r as int],
                        row.role == LiquidBlockRole::Marginalia,
                        heads@ == sentinel_heads_from(row.text@, 0),
                        j <= heads@.len(),
                        heads_sorted(h@),
                        forall|t: NoteHead|
                            h@.contains(t) <==> (entries_have_head(sources@, k as int, t)
                                || rows_have_head(rows@, r as int, t) || (t.0 == row.page_index
                                && t.1 == row.line_index && heads@.subrange(0, j as int).contains(
                                t.2,
                            ))),
                    decreases heads.len() - j,
                {
                    let ghost prev = h@;
                    insert_head(&mut h, (row.page_index, row.line_index, heads[j]));
                    proof {
                        assert forall|t: NoteHead|
                            (entries_have_head(sources@, k as int, t)
                                || rows_have_head(rows@, r as int, t) || (t.0 == row.page_index
                                && t.1 == row.line_index && heads@.subrange(0, j + 1).contains(
                                t.2,
                            ))) implies h@.contains(t) by {
                            if t.0 == row.page_index && t.1 == row.line_index && heads@.subrange(
                                0,
                                j + 1,
                            ).contains(t.2) {
                                let sub = heads@.subrange(0, j + 1);
                                let q = choose|q: int| 0 <= q < sub.len() && sub[q] == t.2;
                                if q < j {
                                    assert(heads@.subrange(0, j as int)[q] == t.2);
                                }
                            }
                        }
                        assert forall|t: NoteHead|
                            h@.contains(t) implies (entries_have_head(sources@, k as int, t)
                                || rows_have_head(rows@, r as int, t) || (t.0 == row.page_index
                                && t.1 == row.line_index && heads@.subrange(0, j + 1).contains(
                                t.2,
                            ))) by {
                            if h@.contains(t) && prev.contains(t) && t.0 == row.page_index
                                && t.1 == row.line_index && heads@.subrange(0, j as int).contains(
                                t.2,
                            ) && !entries_have_head(sources@, k as int, t) && !rows_have_head(
                                rows@,
                                r as int,
                                t,
                            ) {
                                let sub = heads@.subrange(0, j as int);
                                let q = choose|q: int| 0 <= q < sub.len() && sub[q] == t.2;
                                assert(heads@.subrange(0, j + 1)[q] == t.2);
                            }
                            if h@.contains(t) && !prev.contains(t) {
                                assert(t == (row.page_index, row.line_index, heads@[j as int]));
                                assert(heads@.subrange(0, j + 1)[j as int] == t.2);
                            }
                        }
                    }
                    j += 1;
                }
                proof {
                    assert(heads@.subrange(0, heads@.len() as int) =~= heads@);
                    assert forall|t: NoteHead|
                        h@.contains(t) <==> (entries_have_head(sources@, k as int, t)
                            || rows_have_head(rows@, r + 1, t)) by {
                        if rows_have_head(rows@, r + 1, t) && !rows_have_head(rows@, r as int, t) {
                            let q = choose|q: int|
                                0 <= q < r + 1 && q < rows@.len() && row_has_head(rows@[q], t);
                            assert(q == r);
                        }
                        if t.0 == row.page_index && t.1 == row.line_index && heads@.contains(t.2) {
                            assert(row_has_head(rows@[r as int], t));
                        }
                        if rows_have_head(rows@, r as int, t) {
                            let q = choose|q: int|
                                0 <= q < r && q < rows@.len() && row_has_head(rows@[q], t);
                            assert(row_has_head(rows@[q], t));
                        }
                    }
                }
            } else {
                proof {
                    assert forall|t: NoteHead|
                        h@.contains(t) <==> (entries_have_head(sources@, k as int, t)
                            || rows_have_head(rows@, r + 1, t)) by {
                        if rows_have_head(rows@, r + 1, t) && !rows_have_head(rows@, r as int, t) {
                            let q = choose|q: int|
                                0 <= q < r + 1 && q < rows@.len() && row_has_head(rows@[q], t);
                            assert(q == r);
                        }
                        if rows_have_head(rows@, r as int, t) {
                            let q = choose|q: int|
                                0 <= q < r && q < rows@.len() && row_has_head(rows@[q], t);
                            assert(row_has_head(rows@[q], t));
                        }
                    }
                }
            }
            r += 1;
        }
        proof {
            assert forall|t: NoteHead|
                h@.contains(t) <==> entries_have_head(sources@, k + 1, t) by {
                if entries_have_head(sources@, k + 1, t) && !entries_have_head(sources@, k as int, t) {
                    let q = choose|q: int|
                        0 <= q < k + 1 && q < sources@.len() && rows_have_head(
                            sources@[q].lines@,
                            sources@[q].lines@.len() as int,
                            t,
                        );
                    assert(q == k);
                }
                if rows_have_head(rows@, r as int, t) {
                    assert(rows_have_head(
                        sources@[k as int].lines@,
                        sources@[k as int].lines@.len() as int,
                        t,
                    ));
                }
                if entries_have_head(sources@, k as int, t) {
                    let q = choose|q: int|
                        0 <= q < k && q < sources@.len() && rows_have_head(
                            sources@[q].lines@,
                            sources@[q].lines@.len() as int,
                            t,
                        );
                    assert(rows_have_head(
                        sources@[q].lines@,
                        sources@[q].lines@.len() as int,
                        t,
                    ));
                }
            }
        }
        k += 1;
    }
    h
}

// ---------------------------------------------------------------------------
// The zone of a page
// ---------------------------------------------------------------------------

proof fn lemma_sorted_index_order(h: Seq<NoteHead>, i: int, k: int)
    requires
        heads_sorted(h),
        0 <= i < h.len(),
        0 <= k < h.len(),
        head_lt(h[i], h[k]),
    ensures i < k,
{
    if k < i {
        assert(head_lt(h[k], h[i]));
    }
}

/// The condition the scan tests at index `i`: the next head is on the same
/// page and carries the next note number.
pub open spec fn consecutive_at(h: Seq<NoteHead>, p: usize, i: int) -> bool {
    &&& 0 <= i
    &&& i + 1 < h.len()
    &&& h[i].0 == p
    &&& h[i + 1].0 == p
    &&& h[i + 1].2 == next_number(h[i].2)
}

/// Where the footnote zone of page `p` starts, read off the sorted heads.
fn page_zone_start_exec(
    Ghost(srcs): Ghost<Seq<LiquidBlockSourceLines>>,
    h: &Vec<NoteHead>,
    p: usize,
) -> (r: Option<usize>)
    requires
        heads_sorted(h@),
        forall|t: NoteHead| h@.contains(t) <==> has_head(srcs, t),
    ensures r == page_zone_start(srcs, p),
{
    let mut first: Option<usize> = None;
    let ghost mut first_at: int = 0;
    let mut consecutive = false;
    let mut i: usize = 0;
    while i < h.len()
        invariant
            i <= h@.len(),
            heads_sorted(h@),
            first is None <==> (forall|k: int| 0 <= k < i ==> (#[trigger] h@[k]).0 != p),
            first is Some ==> (0 <= first_at < i && h@[first_at].0 == p && first == Some(
                h@[first_at].1,
            ) && forall|k: int| 0 <= k < first_at ==> (#[trigger] h@[k]).0 != p),
            consecutive <==> exists|k: int| 0 <= k < i && #[trigger] consecutive_at(h@, p, k),
        decreases h.len() - i,
    {
        if h[i].0 == p {
            if first.is_none() {
                first = Some(h[i].1);
                proof {
                    first_at = i as int;
                }
            }
            if i + 1 < h.len() && h[i + 1].0 == p && h[i + 1].2 == h[i].2.saturating_add(1) {
                consecutive = true;
                proof {
                    assert(consecutive_at(h@, p, i as int));
                }
            }
        }
        proof {
            if consecutive_at(h@, p, i as int) {
                assert(consecutive);
            }
        }
        i += 1;
    }
    proof {
        if consecutive {
            let k = choose|k: int| 0 <= k < h@.len() && #[trigger] consecutive_at(h@, p, k);
            let a = h@[k];
            let b = h@[k + 1];
            assert(h@.contains(a));
            assert(h@.contains(b));
            assert(has_head(srcs, a));
            assert(has_head(srcs, b));
            assert(head_lt(a, b));
            assert(!exists|c: NoteHead| #![trigger has_head(srcs, c)] has_head(srcs, c) && head_lt(a, c) && head_lt(c, b)) by {
                if exists|c: NoteHead| #![trigger has_head(srcs, c)] has_head(srcs, c) && head_lt(a, c) && head_lt(c, b) {
                    let c = choose|c: NoteHead| #![trigger has_head(srcs, c)] has_head(srcs, c) && head_lt(a, c) && head_lt(c, b);
                    assert(h@.contains(c));
                    let q = choose|q: int| 0 <= q < h@.len() && h@[q] == c;
                    lemma_sorted_index_order(h@, k, q);
                    lemma_sorted_index_order(h@, q, k + 1);
                }
            }
            assert(page_has_consecutive_heads(srcs, p));
        } else {
            if page_has_consecutive_heads(srcs, p) {
                let (a, b) = choose|a: NoteHead, b: NoteHead|
                    #![trigger has_head(srcs, a), has_head(srcs, b)]
                    has_head(srcs, a) && has_head(srcs, b) && a.0 == p && b.0 == p && head_lt(a, b)
                        && b.2 == next_number(a.2) && !exists|c: NoteHead|
                        #![trigger has_head(srcs, c)]
                        has_head(srcs, c) && head_lt(a, c) && head_lt(c, b);
                assert(h@.contains(a));
                assert(h@.contains(b));
                let ia = choose|q: int| 0 <= q < h@.len() && h@[q] == a;
                let ib = choose|q: int| 0 <= q < h@.len() && h@[q] == b;
                lemma_sorted_index_order(h@, ia, ib);
                if ib > ia + 1 {
                    let c = h@[ia + 1];
                    assert(h@.contains(c));
                    assert(has_head(srcs, c));
                    assert(head_lt(a, c));
                    assert(head_lt(c, b));
                }
                assert(consecutive_at(h@, p, ia));
            }
        }
        if first is Some && consecutive {
            let l = h@[first_at].1;
            let m = h@[first_at].2;
            assert(h@.contains((p, l, m))) by {
                assert(h@[first_at] == (p, l, m));
            }
            assert(has_head(srcs, (p, l, m)));
            assert forall|t: NoteHead| has_head(srcs, t) && t.0 == p implies l <= t.1 by {
                assert(h@.contains(t));
                let q = choose|q: int| 0 <= q < h@.len() && h@[q] == t;
                if q < first_at {
                    assert(h@[q].0 != p);
                } else if q > first_at {
                    assert(head_lt(h@[first_at], h@[q]));
                }
            }
            assert(is_first_head_line(srcs, p, l));
            let l2 = choose|l2: usize| is_first_head_line(srcs, p, l2);
            assert(is_first_head_line(srcs, p, l2));
            let m2 = choose|m2: u16| #[trigger] has_head(srcs, (p, l2, m2));
            assert(l <= l2);
            assert(l2 <= l);
        }
        if first is None && consecutive {
            let k = choose|k: int| 0 <= k < h@.len() && #[trigger] consecutive_at(h@, p, k);
            assert(h@[k].0 == p);
        }
    }
    if consecutive {
        first
    } else {
        None
    }
}

// ---------------------------------------------------------------------------
// Claiming the zone
// ---------------------------------------------------------------------------

/// A Marginalia row at or below the zone start of its page.
pub open spec fn row_in_zone(srcs: Seq<LiquidBlockSourceLines>, row: LiquidSourceLineRef) -> bool {
    &&& row.role == LiquidBlockRole::Marginalia
    &&& match page_zone_start(srcs, row.page_index) {
        Some(st) => row.line_index >= st,
        None => false,
    }
}

/// `new_m` lists, strictly increasing, the markers of `old_m` together with
/// the heads that `text` carries in context.
pub open spec fn markers_merged(old_m: Seq<u16>, new_m: Seq<u16>, text: Seq<char>) -> bool {
    &&& strictly_sorted(new_m)
    &&& forall|x: u16|
        new_m.contains(x) <==> (old_m.contains(x) || sentinel_heads_from(text, 0).contains(x))
}

/// The entry's rows all lie on one page, at or below that page's zone start,
/// and its block exists.
pub open spec fn entry_in_zone(
    srcs: Seq<LiquidBlockSourceLines>,
    e: LiquidBlockSourceLines,
    nblocks: int,
) -> bool {
    &&& e.lines@.len() > 0
    &&& e.block_index < nblocks
    &&& match page_zone_start(srcs, e.lines@[0].page_index) {
        Some(st) => e.lines@[0].line_index >= st,
        None => false,
    }
    &&& forall|r: int|
        0 <= r < e.lines@.len() ==> (#[trigger] e.lines@[r]).page_index == e.lines@[0].page_index
}

/// After its heads were merged in, the row carries a note marker.
pub open spec fn row_marked(srcs: Seq<LiquidBlockSourceLines>, row: LiquidSourceLineRef) -> bool {
    row.note_markers@.len() > 0 || (row_in_zone(srcs, row) && sentinel_heads_from(row.text@, 0).len()
        > 0)
}

/// Noise whose provenance is all Marginalia with at least one marker.
pub open spec fn entry_backed(srcs: Seq<LiquidBlockSourceLines>, e: LiquidBlockSourceLines) -> bool {
    &&& forall|r: int|
        0 <= r < e.lines@.len() ==> (#[trigger] e.lines@[r]).role == LiquidBlockRole::Marginalia
    &&& exists|r: int| 0 <= r < e.lines@.len() && row_marked(srcs, #[trigger] e.lines@[r])
}

/// Roles that a footnote zone never takes over.
pub open spec fn zone_protected(role: LiquidBlockRole) -> bool {
    role == LiquidBlockRole::Title || role == LiquidBlockRole::AuthorInfo || role
        == LiquidBlockRole::Heading || role == LiquidBlockRole::Subheading || role
        == LiquidBlockRole::Header || role == LiquidBlockRole::Footer
}

/// The zone takes over entry `e`, whose block currently has `role`.
pub open spec fn entry_claimed(
    srcs: Seq<LiquidBlockSourceLines>,
    e: LiquidBlockSourceLines,
    nblocks: int,
    role: LiquidBlockRole,
) -> bool {
    &&& entry_in_zone(srcs, e, nblocks)
    &&& !zone_protected(role)
    &&& !(role == LiquidBlockRole::Noise && !entry_backed(srcs, e))
}

/// The blocks after the entries `0..n` were visited.
pub open spec fn zone_blocks_after(
    srcs: Seq<LiquidBlockSourceLines>,
    blocks: Seq<LiquidBlock>,
    n: int,
) -> Seq<LiquidBlock>
    decreases n,
{
    if n <= 0 {
        blocks
    } else {
        let b = zone_blocks_after(srcs, blocks, n - 1);
        let e = srcs[n - 1];
        let i = e.block_index as int;
        if entry_claimed(srcs, e, blocks.len() as int, b[i].role) && b[i].role
            != LiquidBlockRole::Marginalia {
            b.update(i, LiquidBlock { role: LiquidBlockRole::Marginalia, text: b[i].text, label: None })
        } else {
            b
        }
    }
}

/// How many blocks the entries `0..n` turned into Marginalia.
pub open spec fn zone_repairs_after(
    srcs: Seq<LiquidBlockSourceLines>,
    blocks: Seq<LiquidBlock>,
    n: int,
) -> nat
    decreases n,
{
    if n <= 0 {
        0
    } else {
        let b = zone_blocks_after(srcs, blocks, n - 1);
        let e = srcs[n - 1];
        let i = e.block_index as int;
        let prev = zone_repairs_after(srcs, blocks, n - 1);
        if entry_claimed(srcs, e, blocks.len() as int, b[i].role) && b[i].role
            != LiquidBlockRole::Marginalia {
            prev + 1
        } else {
            prev
        }
    }
}

/// Entry `k` is taken over when it is visited.
pub open spec fn entry_claimed_at(
    srcs: Seq<LiquidBlockSourceLines>,
    blocks: Seq<LiquidBlock>,
    k: int,
) -> bool {
    entry_claimed(
        srcs,
        srcs[k],
        blocks.len() as int,
        zone_blocks_after(srcs, blocks, k)[srcs[k].block_index as int].role,
    )
}

/// What the pass does to one row: a claimed entry's rows become Marginalia
/// and gain their heads; otherwise only rows inside a zone gain their heads.
pub open spec fn row_after_zone(
    srcs: Seq<LiquidBlockSourceLines>,
    old_row: LiquidSourceLineRef,
    new_row: LiquidSourceLineRef,
    claimed: bool,
) -> bool {
    &&& new_row.id == old_row.id
    &&& new_row.page_index == old_row.page_index
    &&& new_row.line_index == old_row.line_index
    &&& new_row.text == old_row.text
    &&& new_row.role == if claimed {
        LiquidBlockRole::Marginalia
    } else {
        old_row.role
    }
    &&& if claimed || row_in_zone(srcs, old_row) {
        markers_merged(old_row.note_markers@, new_row.note_markers@, old_row.text@)
    } else {
        new_row.note_markers@ == old_row.note_markers@
    }
}

/// The markers of `old_m` with the heads `heads` merged in.
fn merge_heads(old_m: &Vec<u16>, heads: &Vec<u16>) -> (r: Vec<u16>)
    ensures
        strictly_sorted(r@),
        forall|x: u16| r@.contains(x) <==> (old_m@.contains(x) || heads@.contains(x)),
{
    let mut r: Vec<u16> = Vec::new();
    let mut i: usize = 0;
    while i < old_m.len()
        invariant
            i <= old_m@.len(),
            strictly_sorted(r@),
            forall|x: u16| r@.contains(x) <==> old_m@.subrange(0, i as int).contains(x),
        decreases old_m.len() - i,
    {
        insert_sorted_unique(&mut r, old_m[i]);
        proof {
            assert forall|x: u16| r@.contains(x) <==> old_m@.subrange(0, i + 1).contains(x) by {
                let sub = old_m@.subrange(0, i + 1);
                let prev = old_m@.subrange(0, i as int);
                if sub.contains(x) {
                    let q = choose|q: int| 0 <= q < sub.len() && sub[q] == x;
                    if q < i {
                        assert(prev[q] == x);
                    }
                }
                if prev.contains(x) {
                    let q = choose|q: int| 0 <= q < prev.len() && prev[q] == x;
                    assert(sub[q] == x);
                }
                if x == old_m@[i as int] {
                    assert(sub[i as int] == x);
                }
            }
        }
        i += 1;
    }
    proof {
        assert(old_m@.subrange(0, old_m@.len() as int) =~= old_m@);
    }
    let mut j: usize = 0;
    while j < heads.len()
        invariant
            j <= heads@.len(),
            strictly_sorted(r@),
            forall|x: u16|
                r@.contains(x) <==> (old_m@.contains(x) || heads@.subrange(0, j as int).contains(x)),
        decreases heads.len() - j,
    {
        insert_sorted_unique(&mut r, heads[j]);
        proof {
            assert forall|x: u16|
                r@.contains(x) <==> (old_m@.contains(x) || heads@.subrange(0, j + 1).contains(x)) by {
                let sub = heads@.subrange(0, j + 1);
                let prev = heads@.subrange(0, j as int);
                if sub.contains(x) {
                    let q = choose|q: int| 0 <= q < sub.len() && sub[q] == x;
                    if q < j {
                        assert(prev[q] == x);
                    }
                }
                if prev.contains(x) {
                    let q = choose|q: int| 0 <= q < prev.len() && prev[q] == x;
                    assert(sub[q] == x);
                }
                if x == heads@[j as int] {
                    assert(sub[j as int] == x);
                }
            }
        }
        j += 1;
    }
    proof {
        assert(heads@.subrange(0, heads@.len() as int) =~= heads@);
    }
    r
}

/// Merges its heads into every Marginalia row of entry `k` that lies inside
/// its page's zone.
fn sweep_zone_rows(
    sources: &mut Vec<LiquidBlockSourceLines>,
    k: usize,
    h: &Vec<NoteHead>,
    Ghost(srcs): Ghost<Seq<LiquidBlockSourceLines>>,
)
    requires
        k < old(sources)@.len(),
        heads_sorted(h@),
        forall|t: NoteHead| h@.contains(t) <==> has_head(srcs, t),
    ensures
        final(sources)@.len() == old(sources)@.len(),
        forall|j: int| 0 <= j < final(sources)@.len() && j != k ==> #[trigger] final(sources)@[j] == old(sources)@[j],
        final(sources)@[k as int].block_index == old(sources)@[k as int].block_index,
        final(sources)@[k as int].lines@.len() == old(sources)@[k as int].lines@.len(),
        forall|q: int|
            0 <= q < final(sources)@[k as int].lines@.len() ==> row_after_zone(
                srcs,
                old(sources)@[k as int].lines@[q],
                #[trigger] final(sources)@[k as int].lines@[q],
                false,
            ),
{
    let ghost start = sources@;
    let m = sources[k].lines.len();
    let mut r: usize = 0;
    while r < m
        invariant
            k < sources@.len(),
            sources@.len() == start.len(),
            start == old(sources)@,
            m == start[k as int].lines@.len(),
            heads_sorted(h@),
            forall|t: NoteHead| h@.contains(t) <==> has_head(srcs, t),
            r <= m,
            forall|j: int| 0 <= j < sources@.len() && j != k ==> #[trigger] sources@[j] == start[j],
            sources@[k as int].block_index == start[k as int].block_index,
            sources@[k as int].lines@.len() == m,
            forall|q: int|
                0 <= q < r ==> row_after_zone(
                    srcs,
                    start[k as int].lines@[q],
                    #[trigger] sources@[k as int].lines@[q],
                    false,
                ),
            forall|q: int|
                r <= q < m ==> #[trigger] sources@[k as int].lines@[q] == start[k as int].lines@[q],
        decreases m - r,
    {
        let page = sources[k].lines[r].page_index;
        let line = sources[k].lines[r].line_index;
        let in_zone = if sources[k].lines[r].role == LiquidBlockRole::Marginalia {
            match page_zone_start_exec(Ghost(srcs), h, page) {
                Some(st) => line >= st,
                None => false,
            }
        } else {
            false
        };
        assert(in_zone == row_in_zone(srcs, start[k as int].lines@[r as int]));
        if in_zone {
            let heads = sentineled_note_head_markers_in_context(sources[k].lines[r].text.as_str());
            let merged = merge_heads(&sources[k].lines[r].note_markers, &heads);
            sources[k].lines[r].note_markers = merged;
        }
        assert(row_after_zone(
            srcs,
            start[k as int].lines@[r as int],
            sources@[k as int].lines@[r as int],
            false,
        ));
        r += 1;
    }
}

/// Turns every row of entry `k` into a Marginalia row carrying its heads.
fn claim_zone_rows(sources: &mut Vec<LiquidBlockSourceLines>, k: usize)
    requires k < old(sources)@.len(),
    ensures
        final(sources)@.len() == old(sources)@.len(),
        forall|j: int| 0 <= j < final(sources)@.len() && j != k ==> #[trigger] final(sources)@[j] == old(sources)@[j],
        final(sources)@[k as int].block_index == old(sources)@[k as int].block_index,
        final(sources)@[k as int].lines@.len() == old(sources)@[k as int].lines@.len(),
        forall|q: int|
            0 <= q < final(sources)@[k as int].lines@.len() ==> {
                let o = old(sources)@[k as int].lines@[q];
                let f = #[trigger] final(sources)@[k as int].lines@[q];
                &&& f.id == o.id
                &&& f.page_index == o.page_index
                &&& f.line_index == o.line_index
                &&& f.text == o.text
                &&& f.role == LiquidBlockRole::Marginalia
                &&& markers_merged(o.note_markers@, f.note_markers@, o.text@)
            },
{
    let ghost start = sources@;
    let m = sources[k].lines.len();
    let mut r: usize = 0;
    while r < m
        invariant
            k < sources@.len(),
            sources@.len() == start.len(),
            start == old(sources)@,
            m == start[k as int].lines@.len(),
            r <= m,
            forall|j: int| 0 <= j < sources@.len() && j != k ==> #[trigger] sources@[j] == start[j],
            sources@[k as int].block_index == start[k as int].block_index,
            sources@[k as int].lines@.len() == m,
            forall|q: int|
                0 <= q < r ==> {
                    let o = start[k as int].lines@[q];
                    let f = #[trigger] sources@[k as int].lines@[q];
                    &&& f.id == o.id
                    &&& f.page_index == o.page_index
                    &&& f.line_index == o.line_index
                    &&& f.text == o.text
                    &&& f.role == LiquidBlockRole::Marginalia
                    &&& markers_merged(o.note_markers@, f.note_markers@, o.text@)
                },
            forall|q: int|
                r <= q < m ==> #[trigger] sources@[k as int].lines@[q] == start[k as int].lines@[q],
        decreases m - r,
    {
        let heads = sentineled_note_head_markers_in_context(sources[k].lines[r].text.as_str());
        let merged = merge_heads(&sources[k].lines[r].note_markers, &heads);
        sources[k].lines[r].note_markers = merged;
        sources[k].lines[r].role = LiquidBlockRole::Marginalia;
        r += 1;
    }
}

fn rows_on_page(rows: &Vec<LiquidSourceLineRef>, p: usize) -> (r: bool)
    ensures r == forall|q: int| 0 <= q < rows@.len() ==> (#[trigger] rows@[q]).page_index == p,
{
    let mut q: usize = 0;
    while q < rows.len()
        invariant
            q <= rows@.len(),
            forall|j: int| 0 <= j < q ==> (#[trigger] rows@[j]).page_index == p,
        decreases rows.len() - q,
    {
        if rows[q].page_index != p {
            return false;
        }
        q += 1;
    }
    true
}

fn rows_backed(rows: &Vec<LiquidSourceLineRef>) -> (r: bool)
    ensures
        r == ((forall|q: int|
            0 <= q < rows@.len() ==> (#[trigger] rows@[q]).role == LiquidBlockRole::Marginalia)
            && exists|q: int| 0 <= q < rows@.len() && (#[trigger] rows@[q]).note_markers@.len() > 0),
{
    let mut all_marginalia = true;
    let mut any_marked = false;
    let mut q: usize = 0;
    while q < rows.len()
        invariant
            q <= rows@.len(),
            all_marginalia == forall|j: int|
                0 <= j < q ==> (#[trigger] rows@[j]).role == LiquidBlockRole::Marginalia,
            any_marked == exists|j: int| 0 <= j < q && (#[trigger] rows@[j]).note_markers@.len() > 0,
        decreases rows.len() - q,
    {
        if rows[q].role != LiquidBlockRole::Marginalia {
            all_marginalia = false;
        }
        if rows[q].note_markers.len() > 0 {
            any_marked = true;
        }
        q += 1;
    }
    all_marginalia && any_marked
}

/// What the pass leaves of entry `k` (`e` is the entry afterwards).
pub open spec fn entry_after_zone(
    srcs: Seq<LiquidBlockSourceLines>,
    blocks: Seq<LiquidBlock>,
    k: int,
    e: LiquidBlockSourceLines,
) -> bool {
    &&& e.block_index == srcs[k].block_index
    &&& e.lines@.len() == srcs[k].lines@.len()
    &&& forall|q: int|
        0 <= q < e.lines@.len() ==> row_after_zone(
            srcs,
            srcs[k].lines@[q],
            #[trigger] e.lines@[q],
            entry_claimed_at(srcs, blocks, k),
        )
}

/// Recovers footnote zones from encoded note heads. A page whose Marginalia
/// rows carry two neighbouring heads with consecutive numbers has a zone
/// from its first head row down. Marginalia rows in a zone gain their heads
/// as note markers; a block whose rows all lie on one page inside the zone
/// becomes Marginalia (with its rows), unless it is a title, author, heading,
/// header or footer block, or Noise that its provenance does not back.
/// Returns how many blocks changed role.
#[verifier::rlimit(50)]
pub fn apply_sentineled_marginalia_page_zone_recovery(
    blocks: &mut Vec<LiquidBlock>,
    sources: &mut Vec<LiquidBlockSourceLines>,
) -> (repaired: usize)
    ensures
        final(blocks)@ == zone_blocks_after(old(sources)@, old(blocks)@, old(sources)@.len() as int),
        repaired == zone_repairs_after(old(sources)@, old(blocks)@, old(sources)@.len() as int),
        final(sources)@.len() == old(sources)@.len(),
        forall|k: int|
            0 <= k < final(sources)@.len() ==> entry_after_zone(
                old(sources)@,
                old(blocks)@,
                k,
                #[trigger] final(sources)@[k],
            ),
{
    let h = collect_note_heads(sources);
    let ghost srcs = sources@;
    let ghost blocks0 = blocks@;
    let n = sources.len();
    let nb = blocks.len();
    let mut repaired: usize = 0;
    let mut k: usize = 0;
    while k < n
        invariant
            n == srcs.len(),
            sources@.len() == n,
            nb == blocks0.len(),
            blocks@.len() == nb,
            srcs == old(sources)@,
            blocks0 == old(blocks)@,
            heads_sorted(h@),
            forall|t: NoteHead| h@.contains(t) <==> has_head(srcs, t),
            k <= n,
            blocks@ == zone_blocks_after(srcs, blocks0, k as int),
            repaired == zone_repairs_after(srcs, blocks0, k as int),
            repaired <= k,
            forall|j: int| k <= j < n ==> #[trigger] sources@[j] == srcs[j],
            forall|j: int| 0 <= j < k ==> entry_after_zone(srcs, blocks0, j, #[trigger] sources@[j]),
        decreases n - k,
    {
        proof {
            assert(zone_blocks_after(srcs, blocks0, k as int).len() == nb) by {
                lemma_zone_blocks_len(srcs, blocks0, k as int);
            }
        }
        let ghost pre = sources@;
        assert(pre[k as int] == srcs[k as int]);
        sweep_zone_rows(sources, k, &h, Ghost(srcs));
        let ghost swept = sources@;
        assert(swept[k as int].lines@.len() == srcs[k as int].lines@.len());
        assert(forall|q: int|
            0 <= q < srcs[k as int].lines@.len() ==> row_after_zone(
                srcs,
                srcs[k as int].lines@[q],
                #[trigger] swept[k as int].lines@[q],
                false,
            ));
        let b = sources[k].block_index;
        let m = sources[k].lines.len();
        let in_zone = if m > 0 && b < nb {
            let fp = sources[k].lines[0].page_index;
            let fl = sources[k].lines[0].line_index;
            match page_zone_start_exec(Ghost(srcs), &h, fp) {
                Some(st) => fl >= st && rows_on_page(&sources[k].lines, fp),
                None => false,
            }
        } else {
            false
        };
        proof {
            let e = srcs[k as int];
            if m > 0 {
                assert(row_after_zone(srcs, e.lines@[0], swept[k as int].lines@[0], false));
            }
            assert forall|q: int| 0 <= q < e.lines@.len() implies
                #[trigger] swept[k as int].lines@[q].page_index == #[trigger] e.lines@[q].page_index by {
                assert(row_after_zone(srcs, e.lines@[q], swept[k as int].lines@[q], false));
            }
            if m > 0 {
                let p0 = e.lines@[0].page_index;
                if forall|q: int| 0 <= q < e.lines@.len() ==> (#[trigger] e.lines@[q]).page_index == p0 {
                    assert forall|q: int| 0 <= q < swept[k as int].lines@.len() implies
                        (#[trigger] swept[k as int].lines@[q]).page_index == p0 by {
                        assert(e.lines@[q].page_index == p0);
                    }
                }
                if forall|q: int| 0 <= q < swept[k as int].lines@.len() ==> (#[trigger] swept[k as int].lines@[q]).page_index == p0 {
                    assert forall|q: int| 0 <= q < e.lines@.len() implies
                        (#[trigger] e.lines@[q]).page_index == p0 by {
                        assert(swept[k as int].lines@[q].page_index == p0);
                    }
                }
            }
            assert(in_zone == entry_in_zone(srcs, e, nb as int));
        }
        let role = if b < nb {
            blocks[b].role
        } else {
            LiquidBlockRole::Noise
        };
        let claimed = if in_zone {
            let protected = role == LiquidBlockRole::Title || role == LiquidBlockRole::AuthorInfo
                || role == LiquidBlockRole::Heading || role == LiquidBlockRole::Subheading || role
                == LiquidBlockRole::Header || role == LiquidBlockRole::Footer;
            if protected {
                false
            } else if role == LiquidBlockRole::Noise {
                let backed = rows_backed(&sources[k].lines);
                proof {
                    let e = srcs[k as int];
                    let sw = swept[k as int].lines@;
                    assert forall|q: int| 0 <= q < e.lines@.len() implies {
                        &&& (#[trigger] sw[q]).role == e.lines@[q].role
                        &&& (sw[q].note_markers@.len() > 0) == row_marked(srcs, e.lines@[q])
                    } by {
                        let o = e.lines@[q];
                        let w = sw[q];
                        assert(row_after_zone(srcs, o, w, false));
                        let hs = sentinel_heads_from(o.text@, 0);
                        if row_in_zone(srcs, o) {
                            if w.note_markers@.len() > 0 {
                                assert(w.note_markers@.contains(w.note_markers@[0]));
                                if o.note_markers@.contains(w.note_markers@[0]) {
                                    let j = choose|j: int| 0 <= j < o.note_markers@.len() && o.note_markers@[j] == w.note_markers@[0];
                                } else {
                                    assert(hs.contains(w.note_markers@[0]));
                                    let j = choose|j: int| 0 <= j < hs.len() && hs[j] == w.note_markers@[0];
                                }
                            }
                            if o.note_markers@.len() > 0 {
                                assert(o.note_markers@.contains(o.note_markers@[0]));
                                assert(w.note_markers@.contains(o.note_markers@[0]));
                            }
                            if hs.len() > 0 {
                                assert(hs.contains(hs[0]));
                                assert(w.note_markers@.contains(hs[0]));
                            }
                        }
                    }
                    let all_sw = forall|q: int| 0 <= q < sw.len() ==> (#[trigger] sw[q]).role == LiquidBlockRole::Marginalia;
                    let all_e = forall|q: int| 0 <= q < e.lines@.len() ==> (#[trigger] e.lines@[q]).role == LiquidBlockRole::Marginalia;
                    let any_sw = exists|q: int| 0 <= q < sw.len() && (#[trigger] sw[q]).note_markers@.len() > 0;
                    let any_e = exists|q: int| 0 <= q < e.lines@.len() && row_marked(srcs, #[trigger] e.lines@[q]);
                    if all_sw {
                        assert forall|q: int| 0 <= q < e.lines@.len() implies (#[trigger] e.lines@[q]).role == LiquidBlockRole::Marginalia by {
                            assert(sw[q].role == LiquidBlockRole::Marginalia);
                        }
                    }
                    if all_e {
                        assert forall|q: int| 0 <= q < sw.len() implies (#[trigger] sw[q]).role == LiquidBlockRole::Marginalia by {
                            assert(e.lines@[q].role == LiquidBlockRole::Marginalia);
                        }
                    }
                    if any_sw {
                        let q = choose|q: int| 0 <= q < sw.len() && (#[trigger] sw[q]).note_markers@.len() > 0;
                        assert(row_marked(srcs, e.lines@[q]));
                    }
                    if any_e {
                        let q = choose|q: int| 0 <= q < e.lines@.len() && row_marked(srcs, #[trigger] e.lines@[q]);
                        assert(sw[q].note_markers@.len() > 0);
                    }
                    assert(all_sw == all_e);
                    assert(any_sw == any_e);
                    assert(backed == entry_backed(srcs, e));
                }
                backed
            } else {
                true
            }
        } else {
            false
        };
        proof {
            assert(claimed == entry_claimed_at(srcs, blocks0, k as int));
        }
        if claimed {
            if role != LiquidBlockRole::Marginalia {
                blocks[b].role = LiquidBlockRole::Marginalia;
                blocks[b].label = None;
                repaired += 1;
            }
            claim_zone_rows(sources, k);
            proof {
                let e = srcs[k as int];
                assert forall|q: int| 0 <= q < sources@[k as int].lines@.len() implies row_after_zone(
                    srcs,
                    e.lines@[q],
                    #[trigger] sources@[k as int].lines@[q],
                    true,
                ) by {
                    let sw = swept[k as int].lines@[q];
                    let f = sources@[k as int].lines@[q];
                    assert(row_after_zone(srcs, e.lines@[q], sw, false));
                    assert(markers_merged(sw.note_markers@, f.note_markers@, sw.text@));
                }
            }
        }
        proof {
            assert(entry_after_zone(srcs, blocks0, k as int, sources@[k as int]));
            assert(blocks@ =~= zone_blocks_after(srcs, blocks0, k + 1));
        }
        k += 1;
    }
    repaired
}

proof fn lemma_zone_blocks_len(srcs: Seq<LiquidBlockSourceLines>, blocks: Seq<LiquidBlock>, n: int)
    ensures zone_blocks_after(srcs, blocks, n).len() == blocks.len(),
    decreases n,
{
    if n > 0 {
        lemma_zone_blocks_len(srcs, blocks, n - 1);
    }
}

/// The zone pass only ever turns a block into Marginalia: every block
/// afterwards is either untouched or the same text as Marginalia without a
/// label, never a protected role changed, and each repair counted once.
pub proof fn lemma_zone_pass_only_claims_marginalia(
    srcs: Seq<LiquidBlockSourceLines>,
    blocks: Seq<LiquidBlock>,
    n: int,
)
    requires 0 <= n <= srcs.len(),
    ensures
        zone_blocks_after(srcs, blocks, n).len() == blocks.len(),
        zone_repairs_after(srcs, blocks, n) <= n,
        forall|i: int|
            0 <= i < blocks.len() ==> {
                let b = #[trigger] zone_blocks_after(srcs, blocks, n)[i];
                ||| b == blocks[i]
                ||| (b == LiquidBlock { role: LiquidBlockRole::Marginalia, text: blocks[i].text, label: None }
                    && !zone_protected(blocks[i].role))
            },
    decreases n,
{
    if n > 0 {
        lemma_zone_pass_only_claims_marginalia(srcs, blocks, n - 1);
        lemma_zone_blocks_len(srcs, blocks, n - 1);
    }
}

/// The zone pass keeps provenance well formed: every entry it leaves names
/// the block it named before, and the block list keeps its length.
pub proof fn lemma_zone_pass_keeps_provenance_well_formed(
    srcs: Seq<LiquidBlockSourceLines>,
    blocks: Seq<LiquidBlock>,
    after: Seq<LiquidBlockSourceLines>,
)
    requires
        crate::pipeline::provenance_well_formed(blocks, srcs),
        after.len() == srcs.len(),
        forall|k: int| 0 <= k < after.len() ==> entry_after_zone(srcs, blocks, k, #[trigger] after[k]),
    ensures
        crate::pipeline::provenance_well_formed(zone_blocks_after(srcs, blocks, srcs.len() as int), after),
{
    lemma_zone_blocks_len(srcs, blocks, srcs.len() as int);
    assert forall|k: int| 0 <= k < after.len() implies after[k].block_index == srcs[k].block_index by {
        assert(entry_after_zone(srcs, blocks, k, after[k]));
    }
}

/// The zone pass never takes over a title, author line, heading,
/// subheading, page header or page footer: such a block comes out exactly
/// as it went in.
pub proof fn lemma_zone_pass_keeps_structural_blocks(
    srcs: Seq<LiquidBlockSourceLines>,
    blocks: Seq<LiquidBlock>,
    i: int,
)
    requires
        0 <= i < blocks.len(),
        blocks[i].role == LiquidBlockRole::Title || blocks[i].role == LiquidBlockRole::AuthorInfo
            || blocks[i].role == LiquidBlockRole::Heading || blocks[i].role == LiquidBlockRole::Subheading
            || blocks[i].role == LiquidBlockRole::Header || blocks[i].role == LiquidBlockRole::Footer,
    ensures
        zone_blocks_after(srcs, blocks, srcs.len() as int)[i] == blocks[i],
{
    lemma_zone_pass_only_claims_marginalia(srcs, blocks, srcs.len() as int);
    let b = zone_blocks_after(srcs, blocks, srcs.len() as int)[i];
    assert(b == blocks[i] || !zone_protected(blocks[i].role));
}

} // verus!
