//! Layout predicates on decoded source lines, the lookup of a provenance
//! row's decoded line, and the line-level rewrites of the layout priors.
use vstd::prelude::*;

use crate::outline::{lm2_lowercase_roman_outline_marker, lowercase_roman_marker_spec};
use crate::text::{ascii_lower_char, ascii_lower_of, chars_vec};
use crate::types::{LiquidBlockRole, LiquidSourceLineRef, Lm2Action, Lm2SourceLine};

verus! {

// ---------------------------------------------------------------------------
// Text comparison
// ---------------------------------------------------------------------------

/// `str::eq_ignore_ascii_case`.
pub open spec fn eq_ignore_ascii_case(a: Seq<char>, b: Seq<char>) -> bool {
    a.len() == b.len() && forall|i: int| 0 <= i < a.len() ==> ascii_lower_of(#[trigger] a[i]) == ascii_lower_of(b[i])
}

/// Whether `a` and `b` are equal up to ASCII case.
pub fn str_eq_ignore_ascii_case(a: &str, b: &str) -> (r: bool)
    ensures r == eq_ignore_ascii_case(a@, b@),
{
    let x = chars_vec(a);
    let y = chars_vec(b);
    if x.len() != y.len() {
        return false;
    }
    let mut i: usize = 0;
    while i < x.len()
        invariant
            x@ == a@,
            y@ == b@,
            x@.len() == y@.len(),
            i <= x@.len(),
            forall|j: int| 0 <= j < i ==> ascii_lower_of(#[trigger] x@[j]) == ascii_lower_of(y@[j]),
        decreases x.len() - i,
    {
        if ascii_lower_char(x[i]) != ascii_lower_char(y[i]) {
            return false;
        }
        i += 1;
    }
    true
}

// ---------------------------------------------------------------------------
// Layout predicates
// ---------------------------------------------------------------------------

/// The line sits in no ruled cell, table row or column, and over no image.
pub open spec fn outside_tables(l: Lm2SourceLine) -> bool {
    !l.in_ruled_cell && !l.ruled_row_membership_exact && !l.page_table_column_like
        && !l.page_object_overlaps_image_bbox
}

/// A body-shaped segment line outside any footnote zone or table.
pub open spec fn hard_body_display_line(l: Lm2SourceLine) -> bool {
    &&& l.segment_block_id != 0
    &&& eq_ignore_ascii_case(l.segment_block_shape@, "body"@)
    &&& !l.segment_block_footnote_like
    &&& !l.in_footnote_zone
    &&& !l.below_footnote_divider
    &&& !l.doc_footnote_state
    &&& !l.doc_footnote_continuation
    &&& outside_tables(l)
}

/// Whether the layout proves the line to be displayed body text: a line of a
/// body-shaped segment that no footnote or table evidence touches.
pub fn lm2_hard_body_display_line(line: &Lm2SourceLine) -> (r: bool)
    ensures r == hard_body_display_line(*line),
{
    line.segment_block_id != 0 && str_eq_ignore_ascii_case(line.segment_block_shape.as_str(), "body")
        && !line.segment_block_footnote_like && !line.in_footnote_zone
        && !line.below_footnote_divider && !line.doc_footnote_state
        && !line.doc_footnote_continuation && !line.in_ruled_cell
        && !line.ruled_row_membership_exact && !line.page_table_column_like
        && !line.page_object_overlaps_image_bbox
}

/// A line that a caption may absorb: no footnote zone, table or furniture.
pub open spec fn final_caption_source_line(l: Lm2SourceLine) -> bool {
    &&& !l.in_footnote_zone
    &&& !l.below_footnote_divider
    &&& outside_tables(l)
    &&& !l.segment_block_table_like
    &&& !l.segment_block_furniture_like
}

/// Whether a caption continuation may take this line: it lies in no footnote
/// zone, table or page furniture.
pub fn lm2_final_caption_source_line(line: &Lm2SourceLine) -> (r: bool)
    ensures r == final_caption_source_line(*line),
{
    !line.in_footnote_zone && !line.below_footnote_divider && !line.in_ruled_cell
        && !line.ruled_row_membership_exact && !line.page_table_column_like
        && !line.segment_block_table_like && !line.page_object_overlaps_image_bbox
        && !line.segment_block_furniture_like
}

// ---------------------------------------------------------------------------
// Finding a row's decoded line
// ---------------------------------------------------------------------------

/// The last of the decoded lines `0..n` with this id (ids map to the line
/// that comes last, as a map built in reading order keeps it).
pub open spec fn last_line_with_id(
    decoded: Seq<(Lm2SourceLine, Lm2Action)>,
    id: Seq<char>,
    n: int,
) -> Option<int>
    decreases n,
{
    if n <= 0 || n > decoded.len() {
        None
    } else if decoded[n - 1].0.id@ == id {
        Some(n - 1)
    } else {
        last_line_with_id(decoded, id, n - 1)
    }
}

/// The decoded line that carries this id.
pub open spec fn line_for_id(decoded: Seq<(Lm2SourceLine, Lm2Action)>, id: Seq<char>) -> Option<
    Lm2SourceLine,
> {
    match last_line_with_id(decoded, id, decoded.len() as int) {
        Some(k) => Some(decoded[k].0),
        None => None,
    }
}

/// The decoded line behind a provenance row (none when the row has no id).
pub open spec fn line_for_row(
    decoded: Seq<(Lm2SourceLine, Lm2Action)>,
    row: LiquidSourceLineRef,
) -> Option<Lm2SourceLine> {
    match row.id {
        Some(id) => line_for_id(decoded, id@),
        None => None,
    }
}

proof fn lemma_last_line_with_id(decoded: Seq<(Lm2SourceLine, Lm2Action)>, id: Seq<char>, n: int)
    ensures
        last_line_with_id(decoded, id, n) matches Some(k) ==> 0 <= k < n && k < decoded.len()
            && decoded[k].0.id@ == id,
    decreases n,
{
    if n > 0 && n <= decoded.len() && decoded[n - 1].0.id@ != id {
        lemma_last_line_with_id(decoded, id, n - 1);
    }
}

/// The index of the decoded line that carries `id`.
pub fn find_line_by_id(decoded: &[(Lm2SourceLine, Lm2Action)], id: &String) -> (r: Option<usize>)
    ensures
        match r {
            Some(k) => last_line_with_id(decoded@, id@, decoded@.len() as int) == Some(k as int)
                && k < decoded@.len(),
            None => last_line_with_id(decoded@, id@, decoded@.len() as int) is None,
        },
{
    let mut n = decoded.len();
    while n > 0
        invariant
            n <= decoded@.len(),
            last_line_with_id(decoded@, id@, decoded@.len() as int) == last_line_with_id(
                decoded@,
                id@,
                n as int,
            ),
        decreases n,
    {
        if decoded[n - 1].0.id == *id {
            return Some(n - 1);
        }
        n -= 1;
    }
    None
}

/// The decoded line behind a provenance row.
pub fn line_for_source_row<'a>(
    decoded: &'a [(Lm2SourceLine, Lm2Action)],
    row: &LiquidSourceLineRef,
) -> (r: Option<&'a Lm2SourceLine>)
    ensures
        match r {
            Some(l) => line_for_row(decoded@, *row) == Some(*l),
            None => line_for_row(decoded@, *row) is None,
        },
{
    match &row.id {
        Some(id) => match find_line_by_id(decoded, id) {
            Some(k) => Some(&decoded[k].0),
            None => None,
        },
        None => None,
    }
}

/// A centred bold heading line of a heading-shaped segment, outside tables,
/// rules and footnote zones.
pub open spec fn roman_heading_line(l: Lm2SourceLine) -> bool {
    &&& l.segment_block_shape@ == "heading"@
    &&& l.bold
    &&& (l.centered || l.margin_centered)
    &&& !l.segment_block_toc_like
    &&& !l.segment_block_table_like
    &&& !l.page_table_column_like
    &&& !l.in_ruled_cell
    &&& !l.page_object_ruled_row_membership
    &&& !l.page_object_overlaps_image_bbox
    &&& !l.in_footnote_zone
    &&& !l.below_footnote_divider
}

/// Whether a row opening with a lower-case roman outline marker (`iv.`) is
/// a real heading: it carries no note marker and its decoded line is a
/// centred bold heading.
pub fn lm2_lowercase_roman_heading_source(
    source: &LiquidSourceLineRef,
    decoded: &[(Lm2SourceLine, Lm2Action)],
) -> (r: bool)
    ensures
        r == (lowercase_roman_marker_spec(source.text@) is Some && source.note_markers@.len() == 0
            && (line_for_row(decoded@, *source) matches Some(l) && roman_heading_line(l))),
{
    if lm2_lowercase_roman_outline_marker(source.text.as_str()).is_none()
        || source.note_markers.len() > 0 {
        return false;
    }
    let line = match line_for_source_row(decoded, source) {
        Some(l) => l,
        None => return false,
    };
    line.segment_block_shape == "heading".to_owned() && line.bold && (line.centered
        || line.margin_centered) && !line.segment_block_toc_like && !line.segment_block_table_like
        && !line.page_table_column_like && !line.in_ruled_cell
        && !line.page_object_ruled_row_membership && !line.page_object_overlaps_image_bbox
        && !line.in_footnote_zone && !line.below_footnote_divider
}

// ---------------------------------------------------------------------------
// Front-matter abstract
// ---------------------------------------------------------------------------

/// Index `i` is one of the first `n` entries of `run`.
pub open spec fn in_run(run: Seq<usize>, n: int, i: int) -> bool {
    exists|j: int| 0 <= j < n && j < run.len() && #[trigger] run[j] as int == i
}

/// Line `i` after the abstract run was marked: kept and hinted as Abstract
/// when the run holds it, untouched otherwise.
#[verifier::opaque]
pub open spec fn marked_for_run(
    old_entry: (Lm2SourceLine, Lm2Action),
    new_entry: (Lm2SourceLine, Lm2Action),
    in_run: bool,
) -> bool {
    if in_run {
        &&& new_entry.1 == Lm2Action::Keep
        &&& new_entry.0 == (Lm2SourceLine { role_hint: Some(LiquidBlockRole::Abstract), ..old_entry.0 })
    } else {
        new_entry == old_entry
    }
}

fn mark_abstract(entry: &mut (Lm2SourceLine, Lm2Action))
    ensures marked_for_run(*old(entry), *final(entry), true),
{
    entry.1 = Lm2Action::Keep;
    entry.0.role_hint = Some(LiquidBlockRole::Abstract);
    proof {
        reveal(marked_for_run);
    }
}

proof fn lemma_marked_again(
    a: (Lm2SourceLine, Lm2Action),
    b: (Lm2SourceLine, Lm2Action),
    c: (Lm2SourceLine, Lm2Action),
    was: bool,
)
    requires marked_for_run(a, b, was), marked_for_run(b, c, true),
    ensures marked_for_run(a, c, true),
{
    reveal(marked_for_run);
}

/// Keeps every line of a recovered front-matter abstract run and hints it
/// as Abstract; the other lines stay as they were.
pub fn lm2_mark_front_abstract_run(decoded: &mut Vec<(Lm2SourceLine, Lm2Action)>, run: &[usize])
    requires forall|k: int| 0 <= k < run@.len() ==> (#[trigger] run@[k]) < old(decoded)@.len(),
    ensures
        final(decoded)@.len() == old(decoded)@.len(),
        forall|i: int|
            0 <= i < final(decoded)@.len() ==> marked_for_run(
                old(decoded)@[i],
                #[trigger] final(decoded)@[i],
                in_run(run@, run@.len() as int, i),
            ),
{
    proof {
        reveal(marked_for_run);
    }
    let mut k: usize = 0;
    while k < run.len()
        invariant
            k <= run@.len(),
            decoded@.len() == old(decoded)@.len(),
            forall|j: int| 0 <= j < run@.len() ==> (#[trigger] run@[j]) < old(decoded)@.len(),
            forall|i: int|
                0 <= i < decoded@.len() ==> marked_for_run(
                    old(decoded)@[i],
                    #[trigger] decoded@[i],
                    in_run(run@, k as int, i),
                ),
        decreases run.len() - k,
    {
        let index = run[k];
        let ghost before = decoded@;
        mark_abstract(&mut decoded[index]);
        proof {
            assert forall|i: int| 0 <= i < decoded@.len() implies marked_for_run(
                old(decoded)@[i],
                #[trigger] decoded@[i],
                in_run(run@, k + 1, i),
            ) by {
                if i == index as int {
                    assert(run@[k as int] as int == i);
                    lemma_marked_again(old(decoded)@[i], before[i], decoded@[i], in_run(run@, k as int, i));
                } else {
                    assert(decoded@[i] == before[i]);
                    if in_run(run@, k + 1, i) {
                        let q = choose|q: int| 0 <= q < k + 1 && q < run@.len() && #[trigger] run@[q] as int == i;
                        assert(q != k);
                        assert(in_run(run@, k as int, i));
                    }
                    if in_run(run@, k as int, i) {
                        let q = choose|q: int| 0 <= q < k && q < run@.len() && #[trigger] run@[q] as int == i;
                        assert(in_run(run@, k + 1, i));
                    }
                }
            }
        }
        k += 1;
    }
}

} // verus!
