//! Routing of table and figure material: numbered captions become
//! captions, clusters of short figure labels and rows with ruled-table
//! evidence become table blocks, and a short label sandwiched between two
//! table cells joins them.
//!
//! What the routing reads of a text beyond its words (whether it is a
//! numbered table or figure caption, a page's table or figure anchor, or a
//! short figure label) arrives as cues, one per decoded line, provenance row
//! and block.
use vstd::prelude::*;

use crate::blocks::{entry_position, entry_position_exec, lemma_last_entry_of};
use crate::lines::{find_line_by_id, last_line_with_id};
use crate::outline::{lm2_outline_heading_role, outline_heading_role_spec};
use crate::rows::Lm2FontCues;
use crate::text::{chars_vec, token_ranges, token_ranges_exec};
use crate::types::{
    LiquidBlock, LiquidBlockRole, LiquidBlockSourceLines, LiquidSourceLineRef, Lm2Action, Lm2SourceLine,
};

verus! {

/// What the routing reads of a decoded line's text.
#[derive(Clone, Copy, Debug)]
pub struct Lm2TableCues {
    /// The line is a numbered table or figure caption.
    pub explicit_caption: bool,
    /// The line anchors a numbered table or figure on its page.
    pub table_figure_anchor: bool,
    /// The line is a short figure or table label.
    pub short_label: bool,
}

// ---------------------------------------------------------------------------
// Specifications
// ---------------------------------------------------------------------------

/// The number of whitespace-separated words.
pub open spec fn word_count(s: Seq<char>) -> nat {
    token_ranges(s).len()
}

/// The number of whitespace-separated words of the text.
pub fn lm2_word_count(text: &str) -> (r: usize)
    ensures r == word_count(text@),
{
    let cs = chars_vec(text);
    token_ranges_exec(cs.as_slice()).len()
}

/// The label the routing gives table blocks.
pub open spec fn table_label() -> Seq<char> {
    "Table/Figure"@
}

/// A block's role and label, as the routing reads and writes them.
pub open spec fn role_labels(b: Seq<LiquidBlock>) -> Seq<(LiquidBlockRole, Option<Seq<char>>)> {
    b.map_values(
        |x: LiquidBlock|
            (
                x.role,
                match x.label {
                    Some(l) => Some(l@),
                    None => None,
                },
            ),
    )
}

/// The earliest line, among decoded lines `0..n` on `page`, that anchors a
/// table or figure.
pub open spec fn anchor_line(
    decoded: Seq<(Lm2SourceLine, Lm2Action)>,
    cues: Seq<Lm2TableCues>,
    page: usize,
    n: int,
) -> Option<usize>
    decreases n,
{
    if n <= 0 {
        None
    } else {
        let before = anchor_line(decoded, cues, page, n - 1);
        let l = decoded[n - 1].0;
        if l.page_index == page && cues[n - 1].table_figure_anchor {
            match before {
                Some(a) => if a <= l.line_index {
                    Some(a)
                } else {
                    Some(l.line_index)
                },
                None => Some(l.line_index),
            }
        } else {
            before
        }
    }
}

/// Among decoded lines `0..n` on `page`: how many are short labels
/// (`after_anchor`: below the page's anchor line `a`).
pub open spec fn short_label_count(
    decoded: Seq<(Lm2SourceLine, Lm2Action)>,
    cues: Seq<Lm2TableCues>,
    page: usize,
    after: Option<usize>,
    n: int,
) -> nat
    decreases n,
{
    if n <= 0 {
        0
    } else {
        let l = decoded[n - 1].0;
        short_label_count(decoded, cues, page, after, n - 1) + if l.page_index == page
            && cues[n - 1].short_label && (after matches Some(a) ==> l.line_index > a) {
            1nat
        } else {
            0nat
        }
    }
}

/// How many of the entries `0..n` open on `page` and belong to a table
/// block.
pub open spec fn table_entries_on_page(
    blocks: Seq<LiquidBlock>,
    srcs: Seq<LiquidBlockSourceLines>,
    page: usize,
    n: int,
) -> nat
    decreases n,
{
    if n <= 0 {
        0
    } else {
        let e = srcs[n - 1];
        table_entries_on_page(blocks, srcs, page, n - 1) + if e.block_index < blocks.len()
            && blocks[e.block_index as int].role == LiquidBlockRole::Table && e.lines@.len() > 0
            && e.lines@[0].page_index == page {
            1nat
        } else {
            0nat
        }
    }
}

/// The decoded lines behind rows `0..n` (rows without a decoded line are
/// skipped), as decoded indices.
pub open spec fn deep_indices(
    decoded: Seq<(Lm2SourceLine, Lm2Action)>,
    rows: Seq<LiquidSourceLineRef>,
    n: int,
) -> Seq<int>
    decreases n,
{
    if n <= 0 {
        Seq::empty()
    } else {
        let before = deep_indices(decoded, rows, n - 1);
        match rows[n - 1].id {
            Some(id) => match last_line_with_id(decoded, id@, decoded.len() as int) {
                Some(k) => before.push(k),
                None => before,
            },
            None => before,
        }
    }
}

/// The context the routing reads: the blocks as they were, the
/// provenance, the decoded lines and the cues.
pub struct TableContext {
    pub blocks: Seq<LiquidBlock>,
    pub srcs: Seq<LiquidBlockSourceLines>,
    pub decoded: Seq<(Lm2SourceLine, Lm2Action)>,
    pub font: Seq<Lm2FontCues>,
    pub cues: Seq<Lm2TableCues>,
    pub block_caption: Seq<bool>,
    pub row_short_labels: Seq<Vec<bool>>,
}

/// A role the routing may reassign.
pub open spec fn routable_role(r: LiquidBlockRole) -> bool {
    r == LiquidBlockRole::Heading || r == LiquidBlockRole::Subheading || r == LiquidBlockRole::Paragraph
        || r == LiquidBlockRole::ListItem || r == LiquidBlockRole::Marginalia
}

/// Some row carries a note marker.
pub open spec fn rows_have_markers(rows: Seq<LiquidSourceLineRef>) -> bool {
    exists|q: int| 0 <= q < rows.len() && (#[trigger] rows[q]).note_markers@.len() > 0
}

/// Some row was a heading or subheading.
pub open spec fn rows_have_heading(rows: Seq<LiquidSourceLineRef>) -> bool {
    exists|q: int|
        0 <= q < rows.len() && ((#[trigger] rows[q]).role == LiquidBlockRole::Heading || rows[q].role
            == LiquidBlockRole::Subheading)
}

/// The entry's first decoded line lies in a cluster of short figure labels:
/// below the page's anchor with at least two short labels there, or on a
/// page that already has two table entries, or one and two short labels.
pub open spec fn in_label_cluster(c: TableContext, first: Lm2SourceLine) -> bool {
    let page = first.page_index;
    let anchor = anchor_line(c.decoded, c.cues, page, c.decoded.len() as int);
    let anchored = anchor matches Some(a) && first.line_index > a && short_label_count(
        c.decoded,
        c.cues,
        page,
        anchor,
        c.decoded.len() as int,
    ) >= 2;
    let tables = table_entries_on_page(c.blocks, c.srcs, page, c.srcs.len() as int);
    let continuation = tables >= 2 || (tables >= 1 && short_label_count(
        c.decoded,
        c.cues,
        page,
        None,
        c.decoded.len() as int,
    ) >= 2);
    anchored || continuation
}

/// The entry is a cluster of short figure labels: its decoded lines share
/// the first one's page, which lies in a label cluster, and every row is a
/// short label.
pub open spec fn short_label_cluster(c: TableContext, j: int, deep: Seq<int>) -> bool {
    let rows = c.srcs[j].lines@;
    &&& deep.len() > 0
    &&& in_label_cluster(c, c.decoded[deep[0]].0)
    &&& forall|m: int| 0 <= m < deep.len() ==> c.decoded[#[trigger] deep[m]].0.page_index
        == c.decoded[deep[0]].0.page_index
    &&& forall|q: int| 0 <= q < rows.len() ==> #[trigger] c.row_short_labels[j]@[q]
}

/// A decoded line with ruled-table or table-shape evidence.
pub open spec fn table_vote(l: Lm2SourceLine) -> bool {
    l.in_ruled_cell || l.ruled_row_membership_exact || l.page_object_ruled_row_membership
        || l.page_table_column_like || l.segment_block_table_like || l.page_object_overlaps_image_bbox
}

/// A decoded line inside a ruled table.
pub open spec fn hard_table_line(l: Lm2SourceLine) -> bool {
    l.in_ruled_cell || l.ruled_row_membership_exact || l.page_object_ruled_row_membership
}

/// How many of the lines `deep[0..n]` vote for a table.
pub open spec fn table_votes(c: TableContext, deep: Seq<int>, n: int) -> nat
    decreases n,
{
    if n <= 0 {
        0
    } else {
        table_votes(c, deep, n - 1) + if table_vote(c.decoded[deep[n - 1]].0) {
            1nat
        } else {
            0nat
        }
    }
}

/// The entry's lines carry table evidence: one is inside a ruled table, or
/// at least half vote for a table; and none lies below a page's footnote
/// divider.
pub open spec fn table_evidence(c: TableContext, deep: Seq<int>) -> bool {
    &&& deep.len() > 0
    &&& !exists|m: int|
        0 <= m < deep.len() && c.font[#[trigger] deep[m]].page_has_footnote_divider
            && c.decoded[deep[m]].0.below_footnote_divider
    &&& ((exists|m: int| 0 <= m < deep.len() && hard_table_line(c.decoded[#[trigger] deep[m]].0))
        || table_votes(c, deep, deep.len() as int) * 2 >= deep.len())
}

/// What visiting entry `j` makes of its block (`v` are the roles and
/// labels so far), if anything.
pub open spec fn routing_decision(
    c: TableContext,
    v: Seq<(LiquidBlockRole, Option<Seq<char>>)>,
    j: int,
) -> Option<(LiquidBlockRole, Option<Seq<char>>)> {
    let e = c.srcs[j];
    let b = e.block_index as int;
    let rows = e.lines@;
    let deep = deep_indices(c.decoded, rows, rows.len() as int);
    if b >= v.len() || !routable_role(v[b].0) || rows_have_markers(rows) {
        None
    } else if c.block_caption[b] {
        Some((LiquidBlockRole::Caption, None))
    } else if outline_heading_role_spec(c.blocks[b].text@) is Some && word_count(c.blocks[b].text@) <= 24
        && rows_have_heading(rows) {
        None
    } else if short_label_cluster(c, j, deep) || table_evidence(c, deep) {
        Some((LiquidBlockRole::Table, Some(table_label())))
    } else {
        None
    }
}

/// The roles and labels after entries `0..n` were visited.
pub open spec fn routed_after(c: TableContext, n: int) -> Seq<(LiquidBlockRole, Option<Seq<char>>)>
    decreases n,
{
    if n <= 0 {
        role_labels(c.blocks)
    } else {
        let v = routed_after(c, n - 1);
        match routing_decision(c, v, n - 1) {
            Some(x) => v.update(c.srcs[n - 1].block_index as int, x),
            None => v,
        }
    }
}

/// How many of the entries `0..n` rerouted their block.
pub open spec fn routed_count(c: TableContext, n: int) -> nat
    decreases n,
{
    if n <= 0 {
        0
    } else {
        routed_count(c, n - 1) + if routing_decision(c, routed_after(c, n - 1), n - 1) is Some {
            1nat
        } else {
            0nat
        }
    }
}

/// Block `i` is a short non-note label whose source rows sit exactly
/// between the rows of two table blocks on one page.
pub open spec fn sandwiched_label(
    c: TableContext,
    v: Seq<(LiquidBlockRole, Option<Seq<char>>)>,
    i: int,
) -> bool {
    &&& 1 <= i && i + 1 < v.len()
    &&& v[i - 1].0 == LiquidBlockRole::Table
    &&& v[i + 1].0 == LiquidBlockRole::Table
    &&& (v[i].0 == LiquidBlockRole::Heading || v[i].0 == LiquidBlockRole::Subheading || v[i].0
        == LiquidBlockRole::Paragraph || v[i].0 == LiquidBlockRole::ListItem)
    &&& word_count(c.blocks[i].text@) <= 6
    &&& entry_position(c.srcs, i - 1) matches Some(p)
    &&& entry_position(c.srcs, i) matches Some(q)
    &&& entry_position(c.srcs, i + 1) matches Some(r)
    &&& !rows_have_markers(c.srcs[q].lines@)
    &&& c.srcs[p].lines@.len() > 0
    &&& c.srcs[q].lines@.len() > 0
    &&& c.srcs[r].lines@.len() > 0
    &&& {
        let prev = c.srcs[p].lines@.last();
        let first = c.srcs[q].lines@[0];
        let last = c.srcs[q].lines@.last();
        let next = c.srcs[r].lines@[0];
        &&& prev.page_index == first.page_index
        &&& first.page_index == last.page_index
        &&& last.page_index == next.page_index
        &&& prev.line_index + 1 == first.line_index
        &&& last.line_index + 1 == next.line_index
    }
}

/// The roles and labels after the whole routing: the entries' decisions,
/// then every sandwiched label made a table cell.
pub open spec fn routed_blocks(c: TableContext) -> Seq<(LiquidBlockRole, Option<Seq<char>>)> {
    let v = routed_after(c, c.srcs.len() as int);
    Seq::new(
        v.len(),
        |i: int|
            if sandwiched_label(c, v, i) {
                (LiquidBlockRole::Table, Some(table_label()))
            } else {
                v[i]
            },
    )
}

/// How many sandwiched labels among blocks `0..n`.
pub open spec fn sandwiched_count(c: TableContext, v: Seq<(LiquidBlockRole, Option<Seq<char>>)>, n: int) -> nat
    decreases n,
{
    if n <= 0 {
        0
    } else {
        sandwiched_count(c, v, n - 1) + if sandwiched_label(c, v, n - 1) {
            1nat
        } else {
            0nat
        }
    }
}

// ---------------------------------------------------------------------------
// Executable pieces
// ---------------------------------------------------------------------------

/// How many of the first `n` blocks have a role other than in `base`.
pub open spec fn role_changes(
    base: Seq<(LiquidBlockRole, Option<Seq<char>>)>,
    v: Seq<(LiquidBlockRole, Option<Seq<char>>)>,
    n: int,
) -> nat
    decreases n,
{
    if n <= 0 {
        0
    } else {
        role_changes(base, v, n - 1) + if v[n - 1].0 != base[n - 1].0 {
            1nat
        } else {
            0nat
        }
    }
}

/// A routed block: unchanged, or a routable block made a caption (no
/// label) or a table (the table label).
pub open spec fn routed_or_kept(
    base: (LiquidBlockRole, Option<Seq<char>>),
    x: (LiquidBlockRole, Option<Seq<char>>),
) -> bool {
    x == base || (routable_role(base.0) && (x == (LiquidBlockRole::Caption, None::<Seq<char>>) || x == (
        LiquidBlockRole::Table,
        Some(table_label()),
    )))
}

proof fn lemma_role_changes_update(
    base: Seq<(LiquidBlockRole, Option<Seq<char>>)>,
    v: Seq<(LiquidBlockRole, Option<Seq<char>>)>,
    b: int,
    x: (LiquidBlockRole, Option<Seq<char>>),
    n: int,
)
    requires
        0 <= b < v.len(),
        n <= v.len(),
        v[b].0 == base[b].0,
        x.0 != base[b].0,
    ensures
        role_changes(base, v.update(b, x), n) == role_changes(base, v, n) + if 0 <= b < n {
            1nat
        } else {
            0nat
        },
    decreases n,
{
    if n > 0 {
        lemma_role_changes_update(base, v, b, x, n - 1);
    }
}

proof fn lemma_routed_after_changes(c: TableContext, n: int)
    ensures
        forall|i: int|
            0 <= i < c.blocks.len() ==> routed_or_kept(role_labels(c.blocks)[i], #[trigger] routed_after(c, n)[i]),
        role_changes(role_labels(c.blocks), routed_after(c, n), c.blocks.len() as int) == routed_count(c, n),
    decreases n,
{
    lemma_routed_len(c, n);
    if n <= 0 {
        lemma_role_changes_none(role_labels(c.blocks), c.blocks.len() as int);
    } else {
        lemma_routed_after_changes(c, n - 1);
        lemma_routed_len(c, n - 1);
        let v = routed_after(c, n - 1);
        let base = role_labels(c.blocks);
        match routing_decision(c, v, n - 1) {
            Some(x) => {
                let b = c.srcs[n - 1].block_index as int;
                assert(routed_or_kept(base[b], v[b]));
                assert(v[b] == base[b]);
                lemma_role_changes_update(base, v, b, x, c.blocks.len() as int);
            },
            None => {},
        }
    }
}

proof fn lemma_role_changes_none(base: Seq<(LiquidBlockRole, Option<Seq<char>>)>, n: int)
    ensures role_changes(base, base, n) == 0,
    decreases n,
{
    if n > 0 {
        lemma_role_changes_none(base, n - 1);
    }
}

proof fn lemma_sandwiched_changes(c: TableContext, v: Seq<(LiquidBlockRole, Option<Seq<char>>)>, n: int)
    requires
        v.len() == c.blocks.len(),
        n <= v.len(),
        forall|i: int| 0 <= i < c.blocks.len() ==> routed_or_kept(role_labels(c.blocks)[i], #[trigger] v[i]),
    ensures
        role_changes(
            role_labels(c.blocks),
            Seq::new(
                v.len(),
                |i: int|
                    if sandwiched_label(c, v, i) {
                        (LiquidBlockRole::Table, Some(table_label()))
                    } else {
                        v[i]
                    },
            ),
            n,
        ) == role_changes(role_labels(c.blocks), v, n) + sandwiched_count(c, v, n),
    decreases n,
{
    if n > 0 {
        lemma_sandwiched_changes(c, v, n - 1);
        let i = n - 1;
        if sandwiched_label(c, v, i) {
            assert(routed_or_kept(role_labels(c.blocks)[i], v[i]));
        }
    }
}

/// The routing only gives routable blocks the Caption role (without a
/// label) or the Table role (with the table label); every other block keeps
/// its role and label. The count it returns is the number of blocks whose
/// role changed.
pub proof fn lemma_table_routing_changes(c: TableContext)
    ensures
        routed_blocks(c).len() == c.blocks.len(),
        forall|i: int|
            0 <= i < c.blocks.len() ==> routed_or_kept(role_labels(c.blocks)[i], #[trigger] routed_blocks(c)[i]),
        role_changes(role_labels(c.blocks), routed_blocks(c), c.blocks.len() as int) == routed_count(
            c,
            c.srcs.len() as int,
        ) + sandwiched_count(c, routed_after(c, c.srcs.len() as int), c.blocks.len() as int),
{
    let n = c.srcs.len() as int;
    lemma_routed_after_changes(c, n);
    lemma_routed_len(c, n);
    let v = routed_after(c, n);
    lemma_sandwiched_changes(c, v, c.blocks.len() as int);
    assert forall|i: int| 0 <= i < c.blocks.len() implies routed_or_kept(
        role_labels(c.blocks)[i],
        #[trigger] routed_blocks(c)[i],
    ) by {
        assert(routed_or_kept(role_labels(c.blocks)[i], v[i]));
        if sandwiched_label(c, v, i) {
            assert(v[i] == role_labels(c.blocks)[i]);
        }
    }
}

proof fn lemma_routed_len(c: TableContext, n: int)
    ensures routed_after(c, n).len() == c.blocks.len(),
    decreases n,
{
    if n > 0 {
        lemma_routed_len(c, n - 1);
    }
}

fn anchor_line_exec(
    decoded: &[(Lm2SourceLine, Lm2Action)],
    cues: &[Lm2TableCues],
    page: usize,
) -> (r: Option<usize>)
    requires cues@.len() == decoded@.len(),
    ensures r == anchor_line(decoded@, cues@, page, decoded@.len() as int),
{
    let mut best: Option<usize> = None;
    let mut i: usize = 0;
    while i < decoded.len()
        invariant
            i <= decoded@.len(),
            cues@.len() == decoded@.len(),
            best == anchor_line(decoded@, cues@, page, i as int),
        decreases decoded.len() - i,
    {
        let l = &decoded[i].0;
        if l.page_index == page && cues[i].table_figure_anchor {
            best = match best {
                Some(a) => if a <= l.line_index {
                    Some(a)
                } else {
                    Some(l.line_index)
                },
                None => Some(l.line_index),
            };
        }
        i += 1;
    }
    best
}

fn short_label_count_exec(
    decoded: &[(Lm2SourceLine, Lm2Action)],
    cues: &[Lm2TableCues],
    page: usize,
    after: Option<usize>,
) -> (r: usize)
    requires cues@.len() == decoded@.len(),
    ensures r == short_label_count(decoded@, cues@, page, after, decoded@.len() as int),
{
    let mut count: usize = 0;
    let mut i: usize = 0;
    while i < decoded.len()
        invariant
            i <= decoded@.len(),
            cues@.len() == decoded@.len(),
            count == short_label_count(decoded@, cues@, page, after, i as int),
            count <= i,
        decreases decoded.len() - i,
    {
        let l = &decoded[i].0;
        let below = match after {
            Some(a) => l.line_index > a,
            None => true,
        };
        if l.page_index == page && cues[i].short_label && below {
            count += 1;
        }
        i += 1;
    }
    count
}

fn table_entries_on_page_exec(
    blocks: &Vec<LiquidBlock>,
    sources: &Vec<LiquidBlockSourceLines>,
    page: usize,
) -> (r: usize)
    ensures r == table_entries_on_page(blocks@, sources@, page, sources@.len() as int),
{
    let mut count: usize = 0;
    let mut j: usize = 0;
    while j < sources.len()
        invariant
            j <= sources@.len(),
            count == table_entries_on_page(blocks@, sources@, page, j as int),
            count <= j,
        decreases sources.len() - j,
    {
        let e = &sources[j];
        if e.block_index < blocks.len() && e.lines.len() > 0 {
            let is_table = match blocks[e.block_index].role {
                LiquidBlockRole::Table => true,
                _ => false,
            };
            if is_table && e.lines[0].page_index == page {
                count += 1;
            }
        }
        j += 1;
    }
    count
}

fn deep_indices_exec(decoded: &[(Lm2SourceLine, Lm2Action)], rows: &Vec<LiquidSourceLineRef>) -> (r: Vec<
    usize,
>)
    ensures
        r@.len() == deep_indices(decoded@, rows@, rows@.len() as int).len(),
        forall|m: int| 0 <= m < r@.len() ==> #[trigger] r@[m] as int == deep_indices(decoded@, rows@, rows@.len() as int)[m]
            && r@[m] < decoded@.len(),
{
    let mut out: Vec<usize> = Vec::new();
    let mut q: usize = 0;
    while q < rows.len()
        invariant
            q <= rows@.len(),
            out@.len() == deep_indices(decoded@, rows@, q as int).len(),
            forall|m: int| 0 <= m < out@.len() ==> #[trigger] out@[m] as int == deep_indices(decoded@, rows@, q as int)[m]
                && out@[m] < decoded@.len(),
        decreases rows.len() - q,
    {
        match &rows[q].id {
            Some(id) => match find_line_by_id(decoded, id) {
                Some(k) => {
                    out.push(k);
                },
                None => {},
            },
            None => {},
        }
        q += 1;
    }
    out
}

fn rows_have_markers_exec(rows: &Vec<LiquidSourceLineRef>) -> (r: bool)
    ensures r == rows_have_markers(rows@),
{
    let mut q: usize = 0;
    while q < rows.len()
        invariant
            q <= rows@.len(),
            forall|m: int| 0 <= m < q ==> (#[trigger] rows@[m]).note_markers@.len() == 0,
        decreases rows.len() - q,
    {
        if rows[q].note_markers.len() > 0 {
            return true;
        }
        q += 1;
    }
    false
}

fn rows_have_heading_exec(rows: &Vec<LiquidSourceLineRef>) -> (r: bool)
    ensures r == rows_have_heading(rows@),
{
    let mut q: usize = 0;
    while q < rows.len()
        invariant
            q <= rows@.len(),
            forall|m: int|
                0 <= m < q ==> !((#[trigger] rows@[m]).role == LiquidBlockRole::Heading || rows@[m].role
                    == LiquidBlockRole::Subheading),
        decreases rows.len() - q,
    {
        match rows[q].role {
            LiquidBlockRole::Heading | LiquidBlockRole::Subheading => {
                return true;
            },
            _ => {},
        }
        q += 1;
    }
    false
}

fn in_label_cluster_exec(
    blocks: &Vec<LiquidBlock>,
    sources: &Vec<LiquidBlockSourceLines>,
    decoded: &[(Lm2SourceLine, Lm2Action)],
    cues: &[Lm2TableCues],
    first: &Lm2SourceLine,
    Ghost(c): Ghost<TableContext>,
) -> (r: bool)
    requires
        cues@.len() == decoded@.len(),
        c.blocks == blocks@,
        c.srcs == sources@,
        c.decoded == decoded@,
        c.cues == cues@,
    ensures r == in_label_cluster(c, *first),
{
    let page = first.page_index;
    let anchor = anchor_line_exec(decoded, cues, page);
    let anchored = match anchor {
        Some(a) => first.line_index > a && short_label_count_exec(decoded, cues, page, anchor) >= 2,
        None => false,
    };
    let tables = table_entries_on_page_exec(blocks, sources, page);
    let continuation = tables >= 2 || (tables >= 1 && short_label_count_exec(decoded, cues, page, None) >= 2);
    anchored || continuation
}

fn all_short_labels(labels: &Vec<bool>, n: usize) -> (r: bool)
    requires n <= labels@.len(),
    ensures r == forall|q: int| 0 <= q < n ==> #[trigger] labels@[q],
{
    let mut q: usize = 0;
    while q < n
        invariant
            q <= n <= labels@.len(),
            forall|m: int| 0 <= m < q ==> #[trigger] labels@[m],
        decreases n - q,
    {
        if !labels[q] {
            return false;
        }
        q += 1;
    }
    true
}

fn table_evidence_exec(
    decoded: &[(Lm2SourceLine, Lm2Action)],
    font: &[Lm2FontCues],
    deep: &Vec<usize>,
    Ghost(c): Ghost<TableContext>,
    Ghost(d): Ghost<Seq<int>>,
) -> (r: bool)
    requires
        font@.len() == decoded@.len(),
        c.decoded == decoded@,
        c.font == font@,
        deep@.len() == d.len(),
        forall|m: int| 0 <= m < deep@.len() ==> #[trigger] deep@[m] as int == d[m] && deep@[m] < decoded@.len(),
    ensures r == table_evidence(c, d),
{
    if deep.len() == 0 {
        return false;
    }
    let mut votes: usize = 0;
    let mut hard = false;
    let mut m: usize = 0;
    while m < deep.len()
        invariant
            m <= deep@.len(),
            deep@.len() == d.len(),
            font@.len() == decoded@.len(),
            c.decoded == decoded@,
            c.font == font@,
            forall|k: int| 0 <= k < deep@.len() ==> #[trigger] deep@[k] as int == d[k] && deep@[k] < decoded@.len(),
            votes == table_votes(c, d, m as int),
            votes <= m,
            hard == exists|k: int| 0 <= k < m && hard_table_line(c.decoded[#[trigger] d[k]].0),
            forall|k: int|
                0 <= k < m ==> !(c.font[#[trigger] d[k]].page_has_footnote_divider
                    && c.decoded[d[k]].0.below_footnote_divider),
        decreases deep.len() - m,
    {
        let k = deep[m];
        let l = &decoded[k].0;
        proof {
            assert(d[m as int] == k as int);
        }
        if font[k].page_has_footnote_divider && l.below_footnote_divider {
            return false;
        }
        if l.in_ruled_cell || l.ruled_row_membership_exact || l.page_object_ruled_row_membership
            || l.page_table_column_like || l.segment_block_table_like || l.page_object_overlaps_image_bbox {
            votes += 1;
        }
        if l.in_ruled_cell || l.ruled_row_membership_exact || l.page_object_ruled_row_membership {
            hard = true;
        }
        m += 1;
    }
    hard || votes >= deep.len() - votes
}

fn set_role_label(blocks: &mut Vec<LiquidBlock>, b: usize, role: LiquidBlockRole, table: bool)
    requires b < old(blocks)@.len(),
    ensures
        role_labels(final(blocks)@) == role_labels(old(blocks)@).update(
            b as int,
            (role, if table { Some(table_label()) } else { None }),
        ),
        final(blocks)@.len() == old(blocks)@.len(),
        forall|k: int| 0 <= k < final(blocks)@.len() ==> (#[trigger] final(blocks)@[k]).text == old(blocks)@[k].text,
{
    let ghost before = blocks@;
    blocks[b].role = role;
    if table {
        blocks[b].label = Some("Table/Figure".to_owned());
    } else {
        blocks[b].label = None;
    }
    proof {
        assert(role_labels(blocks@) =~= role_labels(before).update(
            b as int,
            (role, if table { Some(table_label()) } else { None }),
        ));
    }
}

// ---------------------------------------------------------------------------
// The pass
// ---------------------------------------------------------------------------

/// Routes table and figure material. Each provenance entry whose block is
/// a heading, subheading, paragraph, list item or marginalia without note
/// markers becomes a caption when the block's text is a numbered table or
/// figure caption (`block_caption`); otherwise, unless it is a source-backed
/// outline heading of at most 24 words, it becomes a table block when it is
/// a cluster of short figure labels or carries ruled-table evidence. Then a
/// short label sandwiched between two table blocks' rows becomes a table
/// cell. `cues[i]` and `font[i]` describe decoded line `i`,
/// `row_short_labels[j][q]` whether row `q` of entry `j` is a short figure
/// label. Returns how many blocks it rerouted.
pub fn apply_table_figure_block_role_routing(
    blocks: &mut Vec<LiquidBlock>,
    sources: &Vec<LiquidBlockSourceLines>,
    decoded: &[(Lm2SourceLine, Lm2Action)],
    font: &[Lm2FontCues],
    cues: &[Lm2TableCues],
    block_caption: &[bool],
    row_short_labels: &[Vec<bool>],
) -> (repaired: usize)
    requires
        font@.len() == decoded@.len(),
        cues@.len() == decoded@.len(),
        block_caption@.len() == old(blocks)@.len(),
        row_short_labels@.len() == sources@.len(),
        forall|j: int| 0 <= j < sources@.len() ==> (#[trigger] row_short_labels@[j])@.len() == sources@[j].lines@.len(),
        sources@.len() + old(blocks)@.len() <= usize::MAX,
    ensures
        ({
            let c = TableContext {
                blocks: old(blocks)@,
                srcs: sources@,
                decoded: decoded@,
                font: font@,
                cues: cues@,
                block_caption: block_caption@,
                row_short_labels: row_short_labels@,
            };
            &&& role_labels(final(blocks)@) == routed_blocks(c)
            &&& repaired == routed_count(c, sources@.len() as int) + sandwiched_count(
                c,
                routed_after(c, sources@.len() as int),
                old(blocks)@.len() as int,
            )
        }),
        final(blocks)@.len() == old(blocks)@.len(),
        forall|k: int| 0 <= k < final(blocks)@.len() ==> (#[trigger] final(blocks)@[k]).text == old(blocks)@[k].text,
{
    let ghost c = TableContext {
        blocks: blocks@,
        srcs: sources@,
        decoded: decoded@,
        font: font@,
        cues: cues@,
        block_caption: block_caption@,
        row_short_labels: row_short_labels@,
    };
    let ghost b0 = blocks@;
    // The page counts read the blocks as they were.
    let original = copy_roles(blocks);
    let nb = blocks.len();
    let mut repaired: usize = 0;
    let mut j: usize = 0;
    proof {
        lemma_routed_len(c, 0);
    }
    while j < sources.len()
        invariant
            j <= sources@.len(),
            c.blocks == b0,
            c.srcs == sources@,
            c.decoded == decoded@,
            c.font == font@,
            c.cues == cues@,
            c.block_caption == block_caption@,
            c.row_short_labels == row_short_labels@,
            font@.len() == decoded@.len(),
            cues@.len() == decoded@.len(),
            block_caption@.len() == b0.len(),
            row_short_labels@.len() == sources@.len(),
            forall|q: int| 0 <= q < sources@.len() ==> (#[trigger] row_short_labels@[q])@.len() == sources@[q].lines@.len(),
            original@ == b0,
            blocks@.len() == nb,
            nb == b0.len(),
            role_labels(blocks@) == routed_after(c, j as int),
            forall|k: int| 0 <= k < blocks@.len() ==> (#[trigger] blocks@[k]).text == b0[k].text,
            repaired == routed_count(c, j as int),
            repaired <= j,
        decreases sources.len() - j,
    {
        proof {
            lemma_routed_len(c, j as int);
            lemma_routed_len(c, j + 1);
        }
        let ghost v = routed_after(c, j as int);
        let e = &sources[j];
        let b = e.block_index;
        let ghost deep_spec = deep_indices(decoded@, e.lines@, e.lines@.len() as int);
        let mut decision: Option<(LiquidBlockRole, bool)> = None;
        if b < nb {
            let role = blocks[b].role;
            assert(v[b as int].0 == role);
            let routable = match role {
                LiquidBlockRole::Heading | LiquidBlockRole::Subheading | LiquidBlockRole::Paragraph
                | LiquidBlockRole::ListItem | LiquidBlockRole::Marginalia => true,
                _ => false,
            };
            if routable && !rows_have_markers_exec(&e.lines) {
                if block_caption[b] {
                    decision = Some((LiquidBlockRole::Caption, false));
                } else {
                    let text = original[b].text.as_str();
                    let outline = match lm2_outline_heading_role(text) {
                        Some(_) => true,
                        None => false,
                    };
                    let backed_outline = outline && lm2_word_count(text) <= 24 && rows_have_heading_exec(
                        &e.lines,
                    );
                    if !backed_outline {
                        let deep = deep_indices_exec(decoded, &e.lines);
                        let cluster = if deep.len() > 0 {
                            let first = &decoded[deep[0]].0;
                            let mut same_page = true;
                            let mut m: usize = 0;
                            while m < deep.len()
                                invariant
                                    m <= deep@.len(),
                                    deep@.len() > 0,
                                    deep@.len() == deep_spec.len(),
                                    forall|k: int| 0 <= k < deep@.len() ==> #[trigger] deep@[k] as int == deep_spec[k]
                                        && deep@[k] < decoded@.len(),
                                    *first == decoded@[deep@[0] as int].0,
                                    same_page == forall|k: int|
                                        0 <= k < m ==> decoded@[#[trigger] deep_spec[k]].0.page_index
                                            == first.page_index,
                                decreases deep.len() - m,
                            {
                                if decoded[deep[m]].0.page_index != first.page_index {
                                    same_page = false;
                                }
                                m += 1;
                            }
                            same_page && in_label_cluster_exec(
                                &original,
                                sources,
                                decoded,
                                cues,
                                first,
                                Ghost(c),
                            ) && all_short_labels(&row_short_labels[j], e.lines.len())
                        } else {
                            false
                        };
                        proof {
                            if deep@.len() > 0 {
                                assert(deep_spec[0] == deep@[0] as int);
                            }
                        }
                        if cluster || table_evidence_exec(decoded, font, &deep, Ghost(c), Ghost(deep_spec)) {
                            decision = Some((LiquidBlockRole::Table, true));
                        }
                    }
                }
            }
        }
        proof {
            let rd = routing_decision(c, v, j as int);
            match decision {
                Some(x) => {
                    assert(rd == Some((x.0, if x.1 { Some(table_label()) } else { None::<Seq<char>> })));
                },
                None => {
                    assert(rd is None);
                },
            }
        }
        match decision {
            Some((role, table)) => {
                set_role_label(blocks, b, role, table);
                repaired += 1;
            },
            None => {},
        }
        j += 1;
    }
    proof {
        lemma_routed_len(c, sources@.len() as int);
    }
    let ghost v1 = routed_after(c, sources@.len() as int);
    // The sandwiched labels, all decided on the roles after the entries.
    let mut picked: Vec<bool> = Vec::new();
    let mut i: usize = 0;
    while i < nb
        invariant
            i <= nb,
            nb == b0.len(),
            blocks@.len() == nb,
            role_labels(blocks@) == v1,
            v1.len() == nb,
            c.blocks == b0,
            c.srcs == sources@,
            original@ == b0,
            picked@.len() == i,
            forall|k: int| 0 <= k < i ==> #[trigger] picked@[k] == sandwiched_label(c, v1, k),
        decreases nb - i,
    {
        let s = sandwiched_exec(blocks, &original, sources, i, Ghost(c), Ghost(v1));
        picked.push(s);
        i += 1;
    }
    let ghost before_phase2 = repaired;
    let mut k: usize = 0;
    while k < nb
        invariant
            k <= nb,
            nb == b0.len(),
            blocks@.len() == nb,
            v1.len() == nb,
            picked@.len() == nb,
            forall|x: int| 0 <= x < nb ==> #[trigger] picked@[x] == sandwiched_label(c, v1, x),
            forall|x: int|
                0 <= x < nb ==> #[trigger] role_labels(blocks@)[x] == if x < k && sandwiched_label(c, v1, x) {
                    (LiquidBlockRole::Table, Some(table_label()))
                } else {
                    v1[x]
                },
            forall|x: int| 0 <= x < blocks@.len() ==> (#[trigger] blocks@[x]).text == b0[x].text,
            repaired == before_phase2 + sandwiched_count(c, v1, k as int),
            before_phase2 == routed_count(c, sources@.len() as int),
            before_phase2 <= sources@.len(),
            sources@.len() + nb <= usize::MAX,
            sandwiched_count(c, v1, k as int) <= k,
        decreases nb - k,
    {
        if picked[k] {
            set_role_label(blocks, k, LiquidBlockRole::Table, true);
            repaired += 1;
        }
        k += 1;
    }
    proof {
        assert(role_labels(blocks@) =~= routed_blocks(c));
    }
    repaired
}

fn copy_roles(blocks: &Vec<LiquidBlock>) -> (r: Vec<LiquidBlock>)
    ensures r@ == blocks@,
{
    let mut out: Vec<LiquidBlock> = Vec::new();
    let mut i: usize = 0;
    while i < blocks.len()
        invariant
            i <= blocks@.len(),
            out@ == blocks@.subrange(0, i as int),
        decreases blocks.len() - i,
    {
        let label = match &blocks[i].label {
            Some(l) => Some(l.clone()),
            None => None,
        };
        out.push(LiquidBlock { role: blocks[i].role, text: blocks[i].text.clone(), label });
        proof {
            assert(out@ =~= blocks@.subrange(0, i + 1));
        }
        i += 1;
    }
    proof {
        assert(blocks@.subrange(0, blocks@.len() as int) =~= blocks@);
    }
    out
}

fn sandwiched_exec(
    blocks: &Vec<LiquidBlock>,
    original: &Vec<LiquidBlock>,
    sources: &Vec<LiquidBlockSourceLines>,
    i: usize,
    Ghost(c): Ghost<TableContext>,
    Ghost(v): Ghost<Seq<(LiquidBlockRole, Option<Seq<char>>)>>,
) -> (r: bool)
    requires
        role_labels(blocks@) == v,
        original@ == c.blocks,
        c.blocks.len() == v.len(),
        sources@ == c.srcs,
    ensures r == sandwiched_label(c, v, i as int),
{
    let n = blocks.len();
    if i < 1 || n < 2 || i >= n - 1 {
        return false;
    }
    let is_table = |r: LiquidBlockRole| -> (b: bool)
        ensures b == (r == LiquidBlockRole::Table),
    {
        match r {
            LiquidBlockRole::Table => true,
            _ => false,
        }
    };
    assert(v[i - 1].0 == blocks@[i - 1].role);
    assert(v[i + 1].0 == blocks@[i + 1].role);
    assert(v[i as int].0 == blocks@[i as int].role);
    if !is_table(blocks[i - 1].role) || !is_table(blocks[i + 1].role) {
        return false;
    }
    let label_role = match blocks[i].role {
        LiquidBlockRole::Heading | LiquidBlockRole::Subheading | LiquidBlockRole::Paragraph
        | LiquidBlockRole::ListItem => true,
        _ => false,
    };
    if !label_role || lm2_word_count(original[i].text.as_str()) > 6 {
        return false;
    }
    let p = match entry_position_exec(sources, i - 1) {
        Some(x) => x,
        None => return false,
    };
    let q = match entry_position_exec(sources, i) {
        Some(x) => x,
        None => return false,
    };
    let r = match entry_position_exec(sources, i + 1) {
        Some(x) => x,
        None => return false,
    };
    if rows_have_markers_exec(&sources[q].lines) {
        return false;
    }
    let pl = &sources[p].lines;
    let ql = &sources[q].lines;
    let rl = &sources[r].lines;
    if pl.len() == 0 || ql.len() == 0 || rl.len() == 0 {
        return false;
    }
    let prev = &pl[pl.len() - 1];
    let first = &ql[0];
    let last = &ql[ql.len() - 1];
    let next = &rl[0];
    prev.page_index == first.page_index && first.page_index == last.page_index && last.page_index
        == next.page_index && prev.line_index < usize::MAX && prev.line_index + 1 == first.line_index
        && last.line_index < usize::MAX && last.line_index + 1 == next.line_index
}

} // verus!
