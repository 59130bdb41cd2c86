//! Footnote segments that continue the previous page's last note: a run of
//! footnote-shaped rows at the top of a page's note area, directly followed
//! by note N+1, when the previous page ended with note N in visibly
//! unfinished prose.
use vstd::prelude::*;

use crate::lines::{eq_ignore_ascii_case, line_for_row, line_for_source_row, str_eq_ignore_ascii_case};
use crate::tables::rows_have_markers;
use crate::text::{
    back_whitespace, back_ws, char_is_alphanumeric, chars_vec, first_alpha_is_lower, first_alpha_lower,
    lemma_back_ws_bounds, trim_end, unicode_alphanumeric,
};
use crate::types::{
    LiquidBlock, LiquidBlockRole, LiquidBlockSourceLines, LiquidSourceLineRef, Lm2Action, Lm2SourceLine,
    CALLOUT_END,
};

verus! {

// ---------------------------------------------------------------------------
// Specifications
// ---------------------------------------------------------------------------

/// A decoded line of a footnote-shaped segment in the footnote zone, outside
/// tables and images (a ruled row counts only below the divider or on the
/// segment's first line).
pub open spec fn footnote_segment_line(l: Lm2SourceLine) -> bool {
    &&& l.in_footnote_zone
    &&& l.segment_block_footnote_like
    &&& eq_ignore_ascii_case(l.segment_block_shape@, "footnote"@)
    &&& !l.in_ruled_cell
    &&& !(l.ruled_row_membership_exact && !l.below_footnote_divider && l.segment_block_line_index != 0)
    &&& !l.page_table_column_like
    &&& !l.page_object_overlaps_image_bbox
}

/// The (page, segment) an entry belongs to, when all its rows are unmarked
/// footnote-segment lines of one segment on one page.
pub open spec fn segment_of_entry(
    decoded: Seq<(Lm2SourceLine, Lm2Action)>,
    e: LiquidBlockSourceLines,
) -> Option<(usize, usize)> {
    let rows = e.lines@;
    if rows.len() == 0 || rows_have_markers(rows) {
        None
    } else if exists|q: int| 0 <= q < rows.len() && line_for_row(decoded, #[trigger] rows[q]) is None {
        None
    } else if exists|q: int|
        0 <= q < rows.len() && !footnote_segment_line(line_for_row(decoded, #[trigger] rows[q])->0) {
        None
    } else {
        let page = rows[0].page_index;
        let seg = line_for_row(decoded, rows[0])->0.segment_block_id;
        if seg == 0 || exists|q: int|
            0 <= q < rows.len() && ((#[trigger] rows[q]).page_index != page || line_for_row(
                decoded,
                rows[q],
            )->0.page_index != page || line_for_row(decoded, rows[q])->0.segment_block_id != seg) {
            None
        } else {
            Some((page, seg))
        }
    }
}

/// The context the detection reads.
pub struct ContinuationContext {
    pub blocks: Seq<LiquidBlock>,
    pub srcs: Seq<LiquidBlockSourceLines>,
    pub decoded: Seq<(Lm2SourceLine, Lm2Action)>,
    pub citation_continuations: Seq<(usize, usize)>,
}

/// Line `li` is a row of segment `key`.
pub open spec fn segment_has_line(c: ContinuationContext, key: (usize, usize), li: usize) -> bool {
    exists|k: int, q: int|
        0 <= k < c.srcs.len() && 0 <= q < c.srcs[k].lines@.len() && segment_of_entry(c.decoded, c.srcs[k])
            == Some(key) && (#[trigger] c.srcs[k].lines@[q]).line_index == li
}

/// Block `b` holds rows of segment `key`.
pub open spec fn segment_has_block(c: ContinuationContext, key: (usize, usize), b: usize) -> bool {
    exists|k: int|
        0 <= k < c.srcs.len() && segment_of_entry(c.decoded, #[trigger] c.srcs[k]) == Some(key)
            && c.srcs[k].block_index == b
}

/// The last row, among rows `0..n` of the entry, at this page and line.
pub open spec fn row_at(e: LiquidBlockSourceLines, page: usize, li: usize, n: int) -> Option<int>
    decreases n,
{
    if n <= 0 || n > e.lines@.len() {
        None
    } else if e.lines@[n - 1].page_index == page && e.lines@[n - 1].line_index == li {
        Some(n - 1)
    } else {
        row_at(e, page, li, n - 1)
    }
}

/// The row at this page and line: the last one, in provenance order.
pub open spec fn owner(srcs: Seq<LiquidBlockSourceLines>, page: usize, li: usize, n: int) -> Option<(int, int)>
    decreases n,
{
    if n <= 0 || n > srcs.len() {
        None
    } else {
        match row_at(srcs[n - 1], page, li, srcs[n - 1].lines@.len() as int) {
            Some(q) => Some((n - 1, q)),
            None => owner(srcs, page, li, n - 1),
        }
    }
}

/// A note role.
pub open spec fn note_block_role(r: LiquidBlockRole) -> bool {
    r == LiquidBlockRole::Marginalia || r == LiquidBlockRole::Footnote
}

/// The highest note number seen so far with its block, the later one
/// winning a tie.
pub open spec fn keep_max(state: Option<(u16, usize)>, m: u16, b: usize) -> Option<(u16, usize)> {
    match state {
        Some(s) => if m >= s.0 {
            Some((m, b))
        } else {
            state
        },
        None => Some((m, b)),
    }
}

pub open spec fn scan_markers(state: Option<(u16, usize)>, markers: Seq<u16>, b: usize, n: int) -> Option<(u16, usize)>
    decreases n,
{
    if n <= 0 {
        state
    } else {
        keep_max(scan_markers(state, markers, b, n - 1), markers[n - 1], b)
    }
}

pub open spec fn scan_rows(
    state: Option<(u16, usize)>,
    rows: Seq<LiquidSourceLineRef>,
    b: usize,
    page: usize,
    n: int,
) -> Option<(u16, usize)>
    decreases n,
{
    if n <= 0 {
        state
    } else {
        let before = scan_rows(state, rows, b, page, n - 1);
        if rows[n - 1].page_index == page {
            scan_markers(before, rows[n - 1].note_markers@, b, rows[n - 1].note_markers@.len() as int)
        } else {
            before
        }
    }
}

/// The highest note number on `page` among the rows of note blocks (of
/// entries `0..n`), with the block of its last occurrence.
pub open spec fn last_note_of_page(c: ContinuationContext, page: usize, n: int) -> Option<(u16, usize)>
    decreases n,
{
    if n <= 0 {
        None
    } else {
        let before = last_note_of_page(c, page, n - 1);
        let e = c.srcs[n - 1];
        if e.block_index < c.blocks.len() && note_block_role(c.blocks[e.block_index as int].role) {
            scan_rows(before, e.lines@, e.block_index, page, e.lines@.len() as int)
        } else {
            before
        }
    }
}

/// A character that may close a note's text.
pub open spec fn tail_closer(c: char) -> bool {
    c == '"' || c == '\'' || c == ')' || c == ']' || c == '}' || c == '\u{2019}' || c == '\u{201d}'
        || c == CALLOUT_END
}

/// The last character of `s[0..n]` that is not a closer.
pub open spec fn last_non_closer(s: Seq<char>, n: int) -> Option<int>
    decreases n,
{
    if n <= 0 || n > s.len() {
        None
    } else if !tail_closer(s[n - 1]) {
        Some(n - 1)
    } else {
        last_non_closer(s, n - 1)
    }
}

/// The text visibly continues: behind trailing whitespace and closers it
/// ends in a letter or digit, a comma, semicolon, colon, slash, opening
/// parenthesis, hyphen or dash.
pub open spec fn visibly_open(s: Seq<char>) -> bool {
    let t = trim_end(s);
    match last_non_closer(t, t.len() as int) {
        Some(i) => {
            let ch = t[i];
            (if (ch as u32) < 128 {
                crate::text::is_ascii_alnum(ch)
            } else {
                unicode_alphanumeric(ch)
            }) || ch == ',' || ch == ';' || ch == ':' || ch == '/' || ch == '('
                || ch == '-' || ('\u{2010}' <= ch && ch <= '\u{2015}')
        },
        None => false,
    }
}

/// The row at this page and line is an unmarked note row.
pub open spec fn owned_note_row(c: ContinuationContext, page: usize, li: usize) -> bool {
    match owner(c.srcs, page, li, c.srcs.len() as int) {
        Some(o) => {
            let row = c.srcs[o.0].lines@[o.1];
            note_block_role(row.role) && row.note_markers@.len() == 0
        },
        None => false,
    }
}

/// Segment `key` spans the lines `lo..=hi` without a gap.
pub open spec fn segment_span(c: ContinuationContext, key: (usize, usize), lo: usize, hi: usize) -> bool {
    &&& segment_has_line(c, key, lo)
    &&& segment_has_line(c, key, hi)
    &&& forall|li: usize| #[trigger] segment_has_line(c, key, li) ==> lo <= li <= hi
    &&& forall|li: usize| #[trigger] segment_has_line(c, key, li) && li < hi ==> segment_has_line(c, key, (li + 1) as usize)
}

/// Segment `key`, spanning `lo..=hi`, continues the previous page's last
/// note.
pub open spec fn continues_note(c: ContinuationContext, key: (usize, usize), lo: usize, hi: usize) -> bool {
    let page = key.0;
    &&& owner(c.srcs, page, lo, c.srcs.len() as int) matches Some(f)
    &&& segment_has_block(c, key, c.srcs[f.0].block_index)
    &&& hi < usize::MAX
    &&& owner(c.srcs, page, (hi + 1) as usize, c.srcs.len() as int) matches Some(nx)
    &&& c.srcs[nx.0].block_index < c.blocks.len()
    &&& note_block_role(c.blocks[c.srcs[nx.0].block_index as int].role)
    &&& c.srcs[nx.0].lines@[nx.1].note_markers@.len() == 1
    &&& page >= 1
    &&& last_note_of_page(c, (page - 1) as usize, c.srcs.len() as int) matches Some(prev)
    &&& prev.0 + 1 == c.srcs[nx.0].lines@[nx.1].note_markers@[0]
    &&& {
        let lower = first_alpha_lower(c.srcs[f.0].lines@[f.1].text@, 0);
        let open = prev.1 < c.blocks.len() && visibly_open(c.blocks[prev.1 as int].text@);
        let citation = (forall|li: usize| #[trigger] segment_has_line(c, key, li) ==> owned_note_row(c, page, li))
            && prev.1 < c.blocks.len() && c.citation_continuations.contains(key);
        (open || citation) && (lower || citation)
    }
}

/// Block `b` belongs to a footnote segment that continues the previous
/// page's last note.
pub open spec fn protected_block(c: ContinuationContext, b: usize) -> bool {
    exists|key: (usize, usize), lo: usize, hi: usize|
        #[trigger] segment_span(c, key, lo, hi) && continues_note(c, key, lo, hi) && segment_has_block(c, key, b)
}

// ---------------------------------------------------------------------------
// Executable pieces
// ---------------------------------------------------------------------------

fn footnote_segment_line_exec(l: &Lm2SourceLine) -> (r: bool)
    ensures r == footnote_segment_line(*l),
{
    l.in_footnote_zone && l.segment_block_footnote_like && str_eq_ignore_ascii_case(
        l.segment_block_shape.as_str(),
        "footnote",
    ) && !l.in_ruled_cell && !(l.ruled_row_membership_exact && !l.below_footnote_divider
        && l.segment_block_line_index != 0) && !l.page_table_column_like
        && !l.page_object_overlaps_image_bbox
}

fn segment_of_entry_exec(decoded: &[(Lm2SourceLine, Lm2Action)], e: &LiquidBlockSourceLines) -> (r: Option<
    (usize, usize),
>)
    ensures r == segment_of_entry(decoded@, *e),
{
    let rows = &e.lines;
    assert(rows@ == e.lines@);
    if rows.len() == 0 {
        return None;
    }
    let mut q: usize = 0;
    while q < rows.len()
        invariant
            q <= rows@.len(),
            rows@ == e.lines@,
            rows@.len() > 0,
            forall|m: int| 0 <= m < q ==> (#[trigger] rows@[m]).note_markers@.len() == 0,
        decreases rows.len() - q,
    {
        if rows[q].note_markers.len() > 0 {
            assert(rows@[q as int].note_markers@.len() > 0);
            assert(rows_have_markers(rows@));
            return None;
        }
        q += 1;
    }
    assert(!rows_have_markers(rows@));
    let mut q: usize = 0;
    while q < rows.len()
        invariant
            q <= rows@.len(),
            rows@ == e.lines@,
            rows@.len() > 0,
            forall|m: int| 0 <= m < q ==> (line_for_row(decoded@, #[trigger] rows@[m]) matches Some(l)
                && footnote_segment_line(l)),
        decreases rows.len() - q,
    {
        match line_for_source_row(decoded, &rows[q]) {
            Some(l) => {
                if !footnote_segment_line_exec(l) {
                    proof {
                        assert(!footnote_segment_line(line_for_row(decoded@, rows@[q as int])->0));
                    }
                    return None;
                }
            },
            None => {
                proof {
                    assert(line_for_row(decoded@, rows@[q as int]) is None);
                }
                return None;
            },
        }
        q += 1;
    }
    let first = match line_for_source_row(decoded, &rows[0]) {
        Some(l) => l,
        None => return None,
    };
    let page = rows[0].page_index;
    let seg = first.segment_block_id;
    if seg == 0 {
        return None;
    }
    let mut q: usize = 0;
    while q < rows.len()
        invariant
            q <= rows@.len(),
            rows@ == e.lines@,
            rows@.len() > 0,
            page == rows@[0].page_index,
            seg == line_for_row(decoded@, rows@[0])->0.segment_block_id,
            seg != 0,
            forall|m: int| 0 <= m < rows@.len() ==> (line_for_row(decoded@, #[trigger] rows@[m]) matches Some(l)
                && footnote_segment_line(l)),
            forall|m: int|
                0 <= m < q ==> !((#[trigger] rows@[m]).page_index != page || line_for_row(decoded@, rows@[m])->0.page_index
                    != page || line_for_row(decoded@, rows@[m])->0.segment_block_id != seg),
        decreases rows.len() - q,
    {
        let l = match line_for_source_row(decoded, &rows[q]) {
            Some(l) => l,
            None => return None,
        };
        if rows[q].page_index != page || l.page_index != page || l.segment_block_id != seg {
            proof {
                assert((rows@[q as int]).page_index != page || line_for_row(decoded@, rows@[q as int])->0.page_index
                    != page || line_for_row(decoded@, rows@[q as int])->0.segment_block_id != seg);
            }
            return None;
        }
        q += 1;
    }
    Some((page, seg))
}

fn row_at_exec(e: &LiquidBlockSourceLines, page: usize, li: usize) -> (r: Option<usize>)
    ensures
        match r {
            Some(q) => row_at(*e, page, li, e.lines@.len() as int) == Some(q as int) && q < e.lines@.len(),
            None => row_at(*e, page, li, e.lines@.len() as int) is None,
        },
{
    let mut n = e.lines.len();
    while n > 0
        invariant
            n <= e.lines@.len(),
            row_at(*e, page, li, e.lines@.len() as int) == row_at(*e, page, li, n as int),
        decreases n,
    {
        if e.lines[n - 1].page_index == page && e.lines[n - 1].line_index == li {
            return Some(n - 1);
        }
        n -= 1;
    }
    None
}

fn owner_exec(sources: &[LiquidBlockSourceLines], page: usize, li: usize) -> (r: Option<(usize, usize)>)
    ensures
        match r {
            Some(o) => owner(sources@, page, li, sources@.len() as int) == Some((o.0 as int, o.1 as int))
                && o.0 < sources@.len() && o.1 < sources@[o.0 as int].lines@.len(),
            None => owner(sources@, page, li, sources@.len() as int) is None,
        },
{
    let mut n = sources.len();
    while n > 0
        invariant
            n <= sources@.len(),
            owner(sources@, page, li, sources@.len() as int) == owner(sources@, page, li, n as int),
        decreases n,
    {
        match row_at_exec(&sources[n - 1], page, li) {
            Some(q) => return Some((n - 1, q)),
            None => {},
        }
        n -= 1;
    }
    None
}

fn last_note_of_page_exec(
    blocks: &[LiquidBlock],
    sources: &[LiquidBlockSourceLines],
    page: usize,
    Ghost(c): Ghost<ContinuationContext>,
) -> (r: Option<(u16, usize)>)
    requires
        c.blocks == blocks@,
        c.srcs == sources@,
    ensures r == last_note_of_page(c, page, sources@.len() as int),
{
    let mut state: Option<(u16, usize)> = None;
    let mut k: usize = 0;
    while k < sources.len()
        invariant
            k <= sources@.len(),
            c.blocks == blocks@,
            c.srcs == sources@,
            state == last_note_of_page(c, page, k as int),
        decreases sources.len() - k,
    {
        let e = &sources[k];
        let b = e.block_index;
        let note = b < blocks.len() && match blocks[b].role {
            LiquidBlockRole::Marginalia | LiquidBlockRole::Footnote => true,
            _ => false,
        };
        if note {
            let ghost s0 = state;
            let mut q: usize = 0;
            while q < e.lines.len()
                invariant
                    q <= e.lines@.len(),
                    state == scan_rows(s0, e.lines@, b, page, q as int),
                decreases e.lines.len() - q,
            {
                let row = &e.lines[q];
                if row.page_index == page {
                    let ghost s1 = state;
                    let mut r: usize = 0;
                    while r < row.note_markers.len()
                        invariant
                            r <= row.note_markers@.len(),
                            state == scan_markers(s1, row.note_markers@, b, r as int),
                        decreases row.note_markers.len() - r,
                    {
                        let m = row.note_markers[r];
                        state = match state {
                            Some(s) => if m >= s.0 {
                                Some((m, b))
                            } else {
                                state
                            },
                            None => Some((m, b)),
                        };
                        r += 1;
                    }
                }
                q += 1;
            }
        }
        k += 1;
    }
    state
}

fn visibly_open_exec(text: &str) -> (r: bool)
    ensures r == visibly_open(text@),
{
    let cs = chars_vec(text);
    let e = back_whitespace(cs.as_slice(), cs.len());
    proof {
        lemma_back_ws_bounds(cs@, cs@.len() as int);
    }
    let ghost t = trim_end(cs@);
    assert(t == cs@.subrange(0, e as int));
    let mut n = e;
    while n > 0
        invariant
            n <= e <= cs@.len(),
            cs@ == text@,
            t == trim_end(cs@),
            t == cs@.subrange(0, e as int),
            last_non_closer(t, e as int) == last_non_closer(t, n as int),
        decreases n,
    {
        let ch = cs[n - 1];
        assert(t[n - 1] == ch);
        if !(ch == '"' || ch == '\'' || ch == ')' || ch == ']' || ch == '}' || ch == '\u{2019}' || ch
            == '\u{201d}' || ch == CALLOUT_END) {
            assert(!tail_closer(ch));
            assert(last_non_closer(t, n as int) == Some(n as int - 1));
            assert(t.len() == e);
            let r = char_is_alphanumeric(ch) || ch == ',' || ch == ';' || ch == ':' || ch == '/' || ch
                == '(' || ch == '-' || ('\u{2010}' <= ch && ch <= '\u{2015}');
            return r;
        }
        n -= 1;
    }
    false
}

fn contains_key(keys: &[(usize, usize)], key: (usize, usize)) -> (r: bool)
    ensures r == keys@.contains(key),
{
    let mut i: usize = 0;
    while i < keys.len()
        invariant
            i <= keys@.len(),
            forall|j: int| 0 <= j < i ==> keys@[j] != key,
        decreases keys.len() - i,
    {
        if keys[i].0 == key.0 && keys[i].1 == key.1 {
            assert(keys@[i as int] == key);
            return true;
        }
        i += 1;
    }
    false
}

fn contains_usize(v: &Vec<usize>, x: usize) -> (r: bool)
    ensures r == v@.contains(x),
{
    let mut i: usize = 0;
    while i < v.len()
        invariant
            i <= v@.len(),
            forall|j: int| 0 <= j < i ==> v@[j] != x,
        decreases v.len() - i,
    {
        if v[i] == x {
            assert(v@[i as int] == x);
            return true;
        }
        i += 1;
    }
    false
}

/// The context of the detection, built from its arguments.
pub open spec fn continuation_context(
    blocks: Seq<LiquidBlock>,
    srcs: Seq<LiquidBlockSourceLines>,
    decoded: Seq<(Lm2SourceLine, Lm2Action)>,
    citation_continuations: Seq<(usize, usize)>,
) -> ContinuationContext {
    ContinuationContext { blocks, srcs, decoded, citation_continuations }
}

/// The segments of the entries, computed once.
pub open spec fn segments_of(c: ContinuationContext, segs: Seq<Option<(usize, usize)>>) -> bool {
    &&& segs.len() == c.srcs.len()
    &&& forall|k: int| 0 <= k < segs.len() ==> #[trigger] segs[k] == segment_of_entry(c.decoded, c.srcs[k])
}

fn has_line_exec(
    sources: &[LiquidBlockSourceLines],
    segs: &Vec<Option<(usize, usize)>>,
    key: (usize, usize),
    li: usize,
    Ghost(c): Ghost<ContinuationContext>,
) -> (r: bool)
    requires
        c.srcs == sources@,
        segments_of(c, segs@),
    ensures r == segment_has_line(c, key, li),
{
    let mut k: usize = 0;
    while k < sources.len()
        invariant
            k <= sources@.len(),
            c.srcs == sources@,
            segments_of(c, segs@),
            forall|k2: int, q2: int|
                0 <= k2 < k && 0 <= q2 < c.srcs[k2].lines@.len() && segment_of_entry(c.decoded, c.srcs[k2])
                    == Some(key) ==> (#[trigger] c.srcs[k2].lines@[q2]).line_index != li,
        decreases sources.len() - k,
    {
        if segs[k] == Some(key) {
            let e = &sources[k];
            let mut q: usize = 0;
            while q < e.lines.len()
                invariant
                    q <= e.lines@.len(),
                    *e == c.srcs[k as int],
                    k < sources@.len(),
                    c.srcs == sources@,
                    segments_of(c, segs@),
                    segs@[k as int] == Some(key),
                    forall|q2: int| 0 <= q2 < q ==> (#[trigger] e.lines@[q2]).line_index != li,
                decreases e.lines.len() - q,
            {
                if e.lines[q].line_index == li {
                    assert(c.srcs[k as int].lines@[q as int].line_index == li);
                    return true;
                }
                q += 1;
            }
        }
        k += 1;
    }
    false
}

fn has_block_exec(
    sources: &[LiquidBlockSourceLines],
    segs: &Vec<Option<(usize, usize)>>,
    key: (usize, usize),
    b: usize,
    Ghost(c): Ghost<ContinuationContext>,
) -> (r: bool)
    requires
        c.srcs == sources@,
        segments_of(c, segs@),
    ensures r == segment_has_block(c, key, b),
{
    let mut k: usize = 0;
    while k < sources.len()
        invariant
            k <= sources@.len(),
            c.srcs == sources@,
            segments_of(c, segs@),
            forall|k2: int|
                0 <= k2 < k ==> !(segment_of_entry(c.decoded, #[trigger] c.srcs[k2]) == Some(key)
                    && c.srcs[k2].block_index == b),
        decreases sources.len() - k,
    {
        if segs[k] == Some(key) && sources[k].block_index == b {
            assert(segment_of_entry(c.decoded, c.srcs[k as int]) == Some(key));
            return true;
        }
        k += 1;
    }
    false
}

proof fn lemma_push_contains<A>(s: Seq<A>, v: A)
    ensures
        forall|x: A| #[trigger] s.push(v).contains(x) <==> (x == v || s.contains(x)),
{
    assert forall|x: A| #[trigger] s.push(v).contains(x) <==> (x == v || s.contains(x)) by {
        vstd::seq_lib::lemma_seq_contains_after_push(s, v, x);
    }
}

fn owned_note_row_exec(sources: &[LiquidBlockSourceLines], page: usize, li: usize, Ghost(c): Ghost<ContinuationContext>) -> (r: bool)
    requires c.srcs == sources@,
    ensures r == owned_note_row(c, page, li),
{
    match owner_exec(sources, page, li) {
        Some(o) => {
            let row = &sources[o.0].lines[o.1];
            let note = match row.role {
                LiquidBlockRole::Marginalia | LiquidBlockRole::Footnote => true,
                _ => false,
            };
            note && row.note_markers.len() == 0
        },
        None => false,
    }
}

/// The lowest and highest line of segment `key`.
fn segment_bounds(
    sources: &[LiquidBlockSourceLines],
    segs: &Vec<Option<(usize, usize)>>,
    key: (usize, usize),
    Ghost(c): Ghost<ContinuationContext>,
) -> (r: Option<(usize, usize)>)
    requires
        c.srcs == sources@,
        segments_of(c, segs@),
    ensures
        match r {
            Some(b) => segment_has_line(c, key, b.0) && segment_has_line(c, key, b.1) && forall|li: usize|
                #[trigger] segment_has_line(c, key, li) ==> b.0 <= li <= b.1,
            None => forall|li: usize| !#[trigger] segment_has_line(c, key, li),
        },
{
    let mut state: Option<(usize, usize)> = None;
    let mut k: usize = 0;
    while k < sources.len()
        invariant
            k <= sources@.len(),
            c.srcs == sources@,
            segments_of(c, segs@),
            match state {
                Some(b) => segment_has_line(c, key, b.0) && segment_has_line(c, key, b.1),
                None => true,
            },
            forall|k2: int, q2: int|
                0 <= k2 < k && 0 <= q2 < c.srcs[k2].lines@.len() && segment_of_entry(c.decoded, c.srcs[k2])
                    == Some(key) ==> match state {
                    Some(b) => b.0 <= (#[trigger] c.srcs[k2].lines@[q2]).line_index <= b.1,
                    None => false,
                },
        decreases sources.len() - k,
    {
        if segs[k] == Some(key) {
            let e = &sources[k];
            let mut q: usize = 0;
            while q < e.lines.len()
                invariant
                    q <= e.lines@.len(),
                    *e == c.srcs[k as int],
                    k < sources@.len(),
                    c.srcs == sources@,
                    segments_of(c, segs@),
                    segs@[k as int] == Some(key),
                    match state {
                        Some(b) => segment_has_line(c, key, b.0) && segment_has_line(c, key, b.1),
                        None => true,
                    },
                    forall|k2: int, q2: int|
                        0 <= k2 < c.srcs.len() && 0 <= q2 < c.srcs[k2].lines@.len() && (k2 < k || (k2 == k
                            && q2 < q)) && segment_of_entry(c.decoded, c.srcs[k2]) == Some(key) ==> match state {
                            Some(b) => b.0 <= (#[trigger] c.srcs[k2].lines@[q2]).line_index <= b.1,
                            None => false,
                        },
                decreases e.lines.len() - q,
            {
                let li = e.lines[q].line_index;
                assert(c.srcs[k as int].lines@[q as int].line_index == li);
                assert(segment_has_line(c, key, li));
                state = match state {
                    Some(b) => Some((if li < b.0 { li } else { b.0 }, if li > b.1 { li } else { b.1 })),
                    None => Some((li, li)),
                };
                q += 1;
            }
        }
        k += 1;
    }
    proof {
        match state {
            Some(b) => {
                assert forall|li: usize| #[trigger] segment_has_line(c, key, li) implies b.0 <= li <= b.1 by {
                    let (k2, q2) = choose|k2: int, q2: int|
                        0 <= k2 < c.srcs.len() && 0 <= q2 < c.srcs[k2].lines@.len() && segment_of_entry(
                            c.decoded,
                            c.srcs[k2],
                        ) == Some(key) && (#[trigger] c.srcs[k2].lines@[q2]).line_index == li;
                }
            },
            None => {
                assert forall|li: usize| !#[trigger] segment_has_line(c, key, li) by {
                    if segment_has_line(c, key, li) {
                        let (k2, q2) = choose|k2: int, q2: int|
                            0 <= k2 < c.srcs.len() && 0 <= q2 < c.srcs[k2].lines@.len() && segment_of_entry(
                                c.decoded,
                                c.srcs[k2],
                            ) == Some(key) && (#[trigger] c.srcs[k2].lines@[q2]).line_index == li;
                    }
                }
            },
        }
    }
    state
}

fn continues_note_exec(
    blocks: &[LiquidBlock],
    sources: &[LiquidBlockSourceLines],
    citation_continuations: &[(usize, usize)],
    segs: &Vec<Option<(usize, usize)>>,
    key: (usize, usize),
    lo: usize,
    hi: usize,
    Ghost(c): Ghost<ContinuationContext>,
) -> (r: bool)
    requires
        c.blocks == blocks@,
        c.srcs == sources@,
        c.citation_continuations == citation_continuations@,
        segments_of(c, segs@),
        segment_span(c, key, lo, hi),
    ensures r == continues_note(c, key, lo, hi),
{
    let page = key.0;
    let f = match owner_exec(sources, page, lo) {
        Some(f) => f,
        None => return false,
    };
    if !has_block_exec(sources, segs, key, sources[f.0].block_index, Ghost(c)) {
        return false;
    }
    if hi == usize::MAX {
        return false;
    }
    let nx = match owner_exec(sources, page, hi + 1) {
        Some(nx) => nx,
        None => return false,
    };
    let nb = sources[nx.0].block_index;
    if nb >= blocks.len() {
        return false;
    }
    let note = match blocks[nb].role {
        LiquidBlockRole::Marginalia | LiquidBlockRole::Footnote => true,
        _ => false,
    };
    if !note {
        return false;
    }
    let nrow = &sources[nx.0].lines[nx.1];
    if nrow.note_markers.len() != 1 {
        return false;
    }
    if page == 0 {
        return false;
    }
    let prev = match last_note_of_page_exec(blocks, sources, page - 1, Ghost(c)) {
        Some(p) => p,
        None => return false,
    };
    if prev.0 as u32 + 1 != nrow.note_markers[0] as u32 {
        return false;
    }
    let first_text = chars_vec(sources[f.0].lines[f.1].text.as_str());
    let lower = first_alpha_is_lower(first_text.as_slice(), 0);
    let open = prev.1 < blocks.len() && visibly_open_exec(blocks[prev.1].text.as_str());
    let mut all_owned = true;
    let mut li = lo;
    while all_owned && li <= hi
        invariant
            c.srcs == sources@,
            segment_span(c, key, lo, hi),
            hi < usize::MAX,
            lo <= li <= hi + 1,
            li <= hi ==> segment_has_line(c, key, li),
            forall|j: usize| lo <= j < li ==> #[trigger] owned_note_row(c, page, j),
            !all_owned ==> li <= hi && !owned_note_row(c, page, li),
            page == key.0,
        decreases hi + 1 - li + (if all_owned { 1int } else { 0int }),
    {
        if !owned_note_row_exec(sources, page, li, Ghost(c)) {
            all_owned = false;
        } else {
            if li < hi {
                assert(segment_has_line(c, key, (li + 1) as usize));
            }
            li += 1;
        }
    }
    let citation = all_owned && prev.1 < blocks.len() && contains_key(citation_continuations, key);
    proof {
        let spec_all = forall|j: usize| #[trigger] segment_has_line(c, key, j) ==> owned_note_row(c, page, j);
        if all_owned {
            assert forall|j: usize| #[trigger] segment_has_line(c, key, j) implies owned_note_row(c, page, j) by {
                assert(lo <= j <= hi);
            }
        } else {
            assert(segment_has_line(c, key, li) && !owned_note_row(c, page, li));
        }
        assert(spec_all == all_owned);
    }
    (open || citation) && (lower || citation)
}

/// The blocks of footnote segments that continue the previous page's last
/// note.
///
/// A segment is the set of entries whose rows are all unmarked
/// footnote-segment lines of one `(page, segment)`; its lines must run
/// without a gap. It continues the note when the row right after it opens
/// note N+1 in a note block, the previous page's highest note is N, and
/// either that note's block visibly continues and the segment starts in
/// lower case, or every row of the segment is an unmarked note row and its
/// `(page, segment)` is among `citation_continuations` (the segments whose
/// text reads as the cited source carried over from that note). The result
/// lists each such block once.
pub fn physical_open_note_continuation_blocks(
    blocks: &[LiquidBlock],
    sources: &[LiquidBlockSourceLines],
    decoded: &[(Lm2SourceLine, Lm2Action)],
    citation_continuations: &[(usize, usize)],
) -> (r: Vec<usize>)
    ensures
        forall|b: usize|
            #[trigger] r@.contains(b) <==> protected_block(
                continuation_context(blocks@, sources@, decoded@, citation_continuations@),
                b,
            ),
        r@.no_duplicates(),
{
    let ghost c = continuation_context(blocks@, sources@, decoded@, citation_continuations@);
    let mut segs: Vec<Option<(usize, usize)>> = Vec::new();
    let mut k: usize = 0;
    while k < sources.len()
        invariant
            k <= sources@.len(),
            c == continuation_context(blocks@, sources@, decoded@, citation_continuations@),
            segs@.len() == k,
            forall|k2: int| 0 <= k2 < k ==> #[trigger] segs@[k2] == segment_of_entry(c.decoded, c.srcs[k2]),
        decreases sources.len() - k,
    {
        segs.push(segment_of_entry_exec(decoded, &sources[k]));
        k += 1;
    }
    let mut keys: Vec<(usize, usize)> = Vec::new();
    let mut k: usize = 0;
    while k < sources.len()
        invariant
            k <= sources@.len(),
            c == continuation_context(blocks@, sources@, decoded@, citation_continuations@),
            segments_of(c, segs@),
            forall|k2: int| 0 <= k2 < k && (#[trigger] segs@[k2]) is Some ==> keys@.contains(segs@[k2]->0),
        decreases sources.len() - k,
    {
        if let Some(key) = segs[k] {
            if !contains_key(keys.as_slice(), key) {
                let ghost before = keys@;
                keys.push(key);
                proof {
                    lemma_push_contains(before, key);
                }
            }
        }
        k += 1;
    }
    let mut r: Vec<usize> = Vec::new();
    let mut i: usize = 0;
    while i < keys.len()
        invariant
            i <= keys@.len(),
            c == continuation_context(blocks@, sources@, decoded@, citation_continuations@),
            segments_of(c, segs@),
            forall|k2: int| 0 <= k2 < segs@.len() && (#[trigger] segs@[k2]) is Some ==> keys@.contains(segs@[k2]->0),
            forall|b: usize| #[trigger] r@.contains(b) ==> protected_block(c, b),
            forall|j: int, b: usize, lo: usize, hi: usize|
                0 <= j < i && #[trigger] segment_span(c, keys@[j], lo, hi) && continues_note(c, keys@[j], lo, hi)
                    && #[trigger] segment_has_block(c, keys@[j], b) ==> r@.contains(b),
            r@.no_duplicates(),
        decreases keys.len() - i,
    {
        let key = keys[i];
        let bounds = segment_bounds(sources, &segs, key, Ghost(c));
        let (lo, hi) = match bounds {
            Some(b) => b,
            None => {
                i += 1;
                continue;
            },
        };
        let mut li = lo;
        let mut gap = false;
        while !gap && li < hi
            invariant
                c == continuation_context(blocks@, sources@, decoded@, citation_continuations@),
                segments_of(c, segs@),
                lo <= li <= hi,
                segment_has_line(c, key, li),
                gap ==> li < hi && !segment_has_line(c, key, (li + 1) as usize),
                forall|j: usize| lo <= j <= li ==> #[trigger] segment_has_line(c, key, j),
            decreases hi - li + (if gap { 0int } else { 1int }),
        {
            if has_line_exec(sources, &segs, key, li + 1, Ghost(c)) {
                li += 1;
            } else {
                gap = true;
            }
        }
        if gap {
            proof {
                assert forall|lo2: usize, hi2: usize| !segment_span(c, key, lo2, hi2) by {
                    if segment_span(c, key, lo2, hi2) {
                        assert(lo2 <= lo && hi <= hi2);
                    }
                }
            }
            i += 1;
            continue;
        }
        assert(segment_span(c, key, lo, hi)) by {
            assert forall|x: usize| #[trigger] segment_has_line(c, key, x) && x < hi implies segment_has_line(
                c,
                key,
                (x + 1) as usize,
            ) by {
                assert(lo <= (x + 1) as usize <= li);
            }
        }
        proof {
            assert forall|lo2: usize, hi2: usize| #[trigger] segment_span(c, key, lo2, hi2) implies lo2 == lo && hi2
                == hi by {}
        }
        if !continues_note_exec(blocks, sources, citation_continuations, &segs, key, lo, hi, Ghost(c)) {
            i += 1;
            continue;
        }
        let mut k: usize = 0;
        while k < sources.len()
            invariant
                k <= sources@.len(),
                i < keys@.len(),
                key == keys@[i as int],
                c == continuation_context(blocks@, sources@, decoded@, citation_continuations@),
                segments_of(c, segs@),
                segment_span(c, key, lo, hi),
                continues_note(c, key, lo, hi),
                forall|b: usize| #[trigger] r@.contains(b) ==> protected_block(c, b),
                forall|j: int, b: usize, lo2: usize, hi2: usize|
                    0 <= j < i && #[trigger] segment_span(c, keys@[j], lo2, hi2) && continues_note(
                        c,
                        keys@[j],
                        lo2,
                        hi2,
                    ) && #[trigger] segment_has_block(c, keys@[j], b) ==> r@.contains(b),
                forall|k2: int|
                    0 <= k2 < k && #[trigger] segs@[k2] == Some(key) ==> r@.contains(c.srcs[k2].block_index),
                r@.no_duplicates(),
            decreases sources.len() - k,
        {
            if segs[k] == Some(key) {
                let b = sources[k].block_index;
                assert(segment_has_block(c, key, b));
                assert(protected_block(c, b));
                if !contains_usize(&r, b) {
                    let ghost before = r@;
                    r.push(b);
                    proof {
                        lemma_push_contains(before, b);
                        assert forall|x: int, y: int| 0 <= x < y < r@.len() implies r@[x] != r@[y] by {
                            if y == r@.len() - 1 {
                                assert(before.contains(before[x]));
                            }
                        }
                    }
                }
            }
            k += 1;
        }
        proof {
            assert forall|b: usize, lo2: usize, hi2: usize|
                #[trigger] segment_span(c, key, lo2, hi2) && continues_note(c, key, lo2, hi2)
                    && #[trigger] segment_has_block(c, key, b) implies r@.contains(b) by {
                let k2 = choose|k2: int|
                    0 <= k2 < c.srcs.len() && segment_of_entry(c.decoded, #[trigger] c.srcs[k2]) == Some(key)
                        && c.srcs[k2].block_index == b;
                assert(segs@[k2] == Some(key));
            }
        }
        i += 1;
    }
    proof {
        assert forall|b: usize| protected_block(c, b) implies #[trigger] r@.contains(b) by {
            let (key, lo, hi) = choose|key: (usize, usize), lo: usize, hi: usize|
                #[trigger] segment_span(c, key, lo, hi) && continues_note(c, key, lo, hi) && segment_has_block(
                    c,
                    key,
                    b,
                );
            let k2 = choose|k2: int|
                0 <= k2 < c.srcs.len() && segment_of_entry(c.decoded, #[trigger] c.srcs[k2]) == Some(key)
                    && c.srcs[k2].block_index == b;
            assert(segs@[k2] == Some(key));
            assert(keys@.contains(key));
            let j = choose|j: int| 0 <= j < keys@.len() && keys@[j] == key;
            assert(segment_span(c, keys@[j], lo, hi));
        }
    }
    r
}

/// Only footnote segments are protected: a protected block holds an entry
/// whose rows are all unmarked footnote-segment lines of one segment, on a
/// page after the first.
pub proof fn lemma_protected_blocks_are_footnote_segments(c: ContinuationContext, b: usize)
    requires protected_block(c, b),
    ensures
        exists|k: int|
            0 <= k < c.srcs.len() && (#[trigger] c.srcs[k]).block_index == b && (segment_of_entry(
                c.decoded,
                c.srcs[k],
            ) matches Some(key) && key.0 >= 1),
{
    let (key, lo, hi) = choose|key: (usize, usize), lo: usize, hi: usize|
        #[trigger] segment_span(c, key, lo, hi) && continues_note(c, key, lo, hi) && segment_has_block(c, key, b);
    let k = choose|k: int|
        0 <= k < c.srcs.len() && segment_of_entry(c.decoded, #[trigger] c.srcs[k]) == Some(key)
            && c.srcs[k].block_index == b;
    assert(c.srcs[k].block_index == b);
}

proof fn lemma_last_non_closer(t: Seq<char>, j: int, n: int)
    requires
        0 <= j < n <= t.len(),
        !tail_closer(t[j]),
        forall|x: int| j < x < n ==> tail_closer(#[trigger] t[x]),
    ensures last_non_closer(t, n) == Some(j),
    decreases n - j,
{
    if n - 1 > j {
        lemma_last_non_closer(t, j, n - 1);
    }
}

/// A note whose text, behind trailing whitespace and any closing quotes,
/// brackets or callout ends, last shows a comma, semicolon, colon, slash,
/// opening parenthesis, hyphen or dash (U+2010 to U+2015) visibly goes on
/// over the page break.
pub proof fn lemma_open_punctuation_is_visibly_open(s: Seq<char>, j: int)
    requires
        0 <= j < trim_end(s).len(),
        ({
            let c = trim_end(s)[j];
            c == ',' || c == ';' || c == ':' || c == '/' || c == '(' || c == '-' || ('\u{2010}' <= c
                && c <= '\u{2015}')
        }),
        forall|x: int|
            j < x < trim_end(s).len() ==> {
                let c = #[trigger] trim_end(s)[x];
                c == '"' || c == '\'' || c == ')' || c == ']' || c == '}' || c == '\u{2019}' || c
                    == '\u{201d}' || c == CALLOUT_END
            },
    ensures visibly_open(s),
{
    let t = trim_end(s);
    lemma_last_non_closer(t, j, t.len() as int);
}

/// A note whose text, behind trailing whitespace and closers, last shows a
/// full stop, question mark or exclamation mark is closed: it does not go
/// on over the page break. One that last shows an ASCII letter or digit
/// goes on.
pub proof fn lemma_sentence_end_is_closed(s: Seq<char>, j: int)
    requires
        0 <= j < trim_end(s).len(),
        forall|x: int|
            j < x < trim_end(s).len() ==> {
                let c = #[trigger] trim_end(s)[x];
                c == '"' || c == '\'' || c == ')' || c == ']' || c == '}' || c == '\u{2019}' || c
                    == '\u{201d}' || c == CALLOUT_END
            },
    ensures
        ({
            let c = trim_end(s)[j];
            c == '.' || c == '?' || c == '!'
        }) ==> !visibly_open(s),
        ({
            let c = trim_end(s)[j];
            ('a' <= c && c <= 'z') || ('A' <= c && c <= 'Z') || ('0' <= c && c <= '9')
        }) ==> visibly_open(s),
{
    let t = trim_end(s);
    let c = t[j];
    if c == '.' || c == '?' || c == '!' || ('a' <= c && c <= 'z') || ('A' <= c && c <= 'Z') || ('0' <= c && c <= '9') {
        lemma_last_non_closer(t, j, t.len() as int);
    }
}

} // verus!
