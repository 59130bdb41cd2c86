//! Row predicates that combine a line's layout facts with cues about its
//! font size: note rows beside body text, body-sized reflow and fragment
//! lines, mixed segments and physical footnote lines.
//!
//! The font sizes are measured as ratios to the page's reference size, the
//! page's body size and the document's body size; the predicates read only
//! which thresholds each ratio meets, as the cues below.
use vstd::prelude::*;

use crate::context::lm2_context_has_substantive_text;
use crate::markers::{
    explicit_note_head_shape, leading_marker_spec, leading_sentineled_marker,
    lm2_explicit_note_head_shape,
};
use crate::lines::{eq_ignore_ascii_case, outside_tables, str_eq_ignore_ascii_case};
use crate::text::unicode_alphabetic;
use crate::types::{LiquidBlockRole, LiquidSourceLineRef, Lm2SourceLine};

verus! {

/// Which font-size thresholds a line meets, and two page- and
/// document-level facts about it. `doc_*`, `page_ref_*` and `page_*` refer
/// to the font size relative to the document's body size, the page's
/// reference size and the page's body size; `at_most_70` means a ratio of at
/// most 0.70, `at_least_84` one of at least 0.84, and so on.
#[derive(Clone, Copy, Debug)]
pub struct Lm2FontCues {
    /// The page has a footnote divider rule.
    pub page_has_footnote_divider: bool,
    /// The line's text repeats at the page edge across the document.
    pub doc_repeated_edge_text: bool,
    pub doc_at_most_70: bool,
    pub doc_at_most_82: bool,
    pub doc_at_most_94: bool,
    pub doc_at_least_84: bool,
    pub doc_at_least_90: bool,
    pub doc_at_least_94: bool,
    pub page_ref_at_most_70: bool,
    pub page_ref_at_most_94: bool,
    pub page_ref_at_least_94: bool,
    pub page_at_most_94: bool,
    pub page_at_least_94: bool,
    pub doc_at_most_90: bool,
    pub page_ref_at_most_90: bool,
    pub page_at_most_86: bool,
    /// The line's top lies in the lower half of a page of known height.
    pub physically_low: bool,
}

/// At least two of three votes.
pub open spec fn two_of_three(a: bool, b: bool, c: bool) -> bool {
    (a && b) || (a && c) || (b && c)
}

fn two_of_three_exec(a: bool, b: bool, c: bool) -> (r: bool)
    ensures r == two_of_three(a, b, c),
{
    let mut votes: u8 = 0;
    if a {
        votes += 1;
    }
    if b {
        votes += 1;
    }
    if c {
        votes += 1;
    }
    votes >= 2
}

/// At least two of the three ratios are at most 0.94.
pub open spec fn small_font_votes(c: Lm2FontCues) -> bool {
    two_of_three(c.page_ref_at_most_94, c.page_at_most_94, c.doc_at_most_94)
}

/// The text has an alphabetic character.
pub open spec fn has_alphabetic(s: Seq<char>) -> bool {
    exists|i: int| 0 <= i < s.len() && unicode_alphabetic(#[trigger] s[i])
}

/// A small-font row that a note-zone segment, or a missed divider, places
/// among the physical notes of the page.
pub open spec fn physical_sequential_note_row(l: Lm2SourceLine, c: Lm2FontCues) -> bool {
    let ordinary_note_zone = if c.page_has_footnote_divider {
        l.below_footnote_divider
    } else {
        (l.in_footnote_zone || l.doc_footnote_state) && (l.segment_block_footnote_like
            || eq_ignore_ascii_case(l.segment_block_shape@, "footnote"@))
    };
    let missed_divider_note = l.role_hint == Some(LiquidBlockRole::Marginalia) && c.doc_at_most_70
        && !l.centered && l.line_index > 0 && (l.in_footnote_zone || l.segment_block_footnote_like
        || c.page_ref_at_most_70);
    &&& ordinary_note_zone || missed_divider_note
    &&& small_font_votes(c)
    &&& !l.in_ruled_cell
    &&& !l.ruled_row_membership_exact
    &&& !l.page_table_column_like
    &&& !l.segment_block_table_like || missed_divider_note
    &&& !l.page_object_overlaps_image_bbox
    &&& !l.page_object_hide_candidate
    &&& !l.segment_block_furniture_like || missed_divider_note
    &&& !c.doc_repeated_edge_text
}

/// Whether the row is a physical note row of its page.
pub fn lm2_physical_sequential_note_row(line: &Lm2SourceLine, cues: &Lm2FontCues) -> (r: bool)
    ensures r == physical_sequential_note_row(*line, *cues),
{
    let ordinary_note_zone = if cues.page_has_footnote_divider {
        line.below_footnote_divider
    } else {
        (line.in_footnote_zone || line.doc_footnote_state) && (line.segment_block_footnote_like
            || str_eq_ignore_ascii_case(line.segment_block_shape.as_str(), "footnote"))
    };
    let marginalia_hint = match line.role_hint {
        Some(LiquidBlockRole::Marginalia) => true,
        _ => false,
    };
    let missed_divider_note = marginalia_hint && cues.doc_at_most_70 && !line.centered
        && line.line_index > 0 && (line.in_footnote_zone || line.segment_block_footnote_like
        || cues.page_ref_at_most_70);
    (ordinary_note_zone || missed_divider_note) && two_of_three_exec(
        cues.page_ref_at_most_94,
        cues.page_at_most_94,
        cues.doc_at_most_94,
    ) && !line.in_ruled_cell && !line.ruled_row_membership_exact && !line.page_table_column_like
        && (!line.segment_block_table_like || missed_divider_note)
        && !line.page_object_overlaps_image_bbox && !line.page_object_hide_candidate
        && (!line.segment_block_furniture_like || missed_divider_note)
        && !cues.doc_repeated_edge_text
}

/// A bare note row set beside the body: very small, off-centre, not the
/// page's first row, outside tables and edge furniture.
pub open spec fn body_paired_bare_note_row(l: Lm2SourceLine, c: Lm2FontCues) -> bool {
    &&& c.doc_at_most_70
    &&& small_font_votes(c)
    &&& !l.centered
    &&& l.line_index > 0
    &&& outside_tables(l)
    &&& !l.page_object_hide_candidate
    &&& !c.doc_repeated_edge_text
}

/// Whether the row is a bare note row beside the body.
pub fn lm2_body_paired_bare_note_row(line: &Lm2SourceLine, cues: &Lm2FontCues) -> (r: bool)
    ensures r == body_paired_bare_note_row(*line, *cues),
{
    cues.doc_at_most_70 && two_of_three_exec(
        cues.page_ref_at_most_94,
        cues.page_at_most_94,
        cues.doc_at_most_94,
    ) && !line.centered && line.line_index > 0 && !line.in_ruled_cell
        && !line.ruled_row_membership_exact && !line.page_table_column_like
        && !line.page_object_overlaps_image_bbox && !line.page_object_hide_candidate
        && !cues.doc_repeated_edge_text
}

/// A note prose row beside the body: a bare note row, or a row of at most
/// 0.82 of the body size outside tables and edge furniture.
pub open spec fn body_paired_note_prose_row(l: Lm2SourceLine, c: Lm2FontCues) -> bool {
    body_paired_bare_note_row(l, c) || (c.doc_at_most_82 && outside_tables(l)
        && !l.page_object_hide_candidate && !c.doc_repeated_edge_text)
}

/// Whether the row is note prose beside the body.
pub fn lm2_body_paired_note_prose_row(line: &Lm2SourceLine, cues: &Lm2FontCues) -> (r: bool)
    ensures r == body_paired_note_prose_row(*line, *cues),
{
    lm2_body_paired_bare_note_row(line, cues) || (cues.doc_at_most_82 && !line.in_ruled_cell
        && !line.ruled_row_membership_exact && !line.page_table_column_like
        && !line.page_object_overlaps_image_bbox && !line.page_object_hide_candidate
        && !cues.doc_repeated_edge_text)
}

/// A body-sized line outside tables: at least two of the three ratios are
/// at least 0.94.
pub open spec fn body_sized_reflow_line(l: Lm2SourceLine, c: Lm2FontCues) -> bool {
    outside_tables(l) && two_of_three(c.page_ref_at_least_94, c.page_at_least_94, c.doc_at_least_94)
}

/// Whether the line is body-sized text outside tables.
pub fn lm2_body_sized_reflow_line(line: &Lm2SourceLine, cues: &Lm2FontCues) -> (r: bool)
    ensures r == body_sized_reflow_line(*line, *cues),
{
    !line.in_ruled_cell && !line.ruled_row_membership_exact && !line.page_table_column_like
        && !line.page_object_overlaps_image_bbox && two_of_three_exec(
        cues.page_ref_at_least_94,
        cues.page_at_least_94,
        cues.doc_at_least_94,
    )
}

/// A body-sized fragment of running text: a paragraph, lead or quote row
/// with letters, outside notes and tables, of at least 0.84 of the body
/// size.
pub open spec fn body_sized_fragment_line(
    r: LiquidSourceLineRef,
    l: Lm2SourceLine,
    c: Lm2FontCues,
) -> bool {
    &&& (r.role == LiquidBlockRole::Paragraph || r.role == LiquidBlockRole::Lead || r.role
        == LiquidBlockRole::Quote)
    &&& !l.segment_block_footnote_like
    &&& !l.in_footnote_zone
    &&& !l.below_footnote_divider
    &&& outside_tables(l)
    &&& c.doc_at_least_84
    &&& has_alphabetic(l.text@)
}

/// Whether the row is a body-sized fragment of running text.
pub fn lm2_body_sized_fragment_line(
    line_ref: &LiquidSourceLineRef,
    line: &Lm2SourceLine,
    cues: &Lm2FontCues,
) -> (r: bool)
    ensures r == body_sized_fragment_line(*line_ref, *line, *cues),
{
    let prose_role = match line_ref.role {
        LiquidBlockRole::Paragraph | LiquidBlockRole::Lead | LiquidBlockRole::Quote => true,
        _ => false,
    };
    prose_role && !line.segment_block_footnote_like && !line.in_footnote_zone
        && !line.below_footnote_divider && !line.in_ruled_cell && !line.ruled_row_membership_exact
        && !line.page_table_column_like && !line.page_object_overlaps_image_bbox
        && cues.doc_at_least_84 && lm2_context_has_substantive_text(line.text.as_str())
}

/// A body line that may bridge a noise fragment: with letters, outside
/// notes, tables and furniture, of at least 0.84 of the body size.
pub open spec fn final_noise_bridge_body_line(l: Lm2SourceLine, c: Lm2FontCues) -> bool {
    &&& !l.in_footnote_zone
    &&& !l.below_footnote_divider
    &&& outside_tables(l)
    &&& !l.segment_block_table_like
    &&& !l.page_object_hide_candidate
    &&& !l.segment_block_furniture_like
    &&& c.doc_at_least_84
    &&& has_alphabetic(l.text@)
}

/// Whether the line is body text that may bridge a noise fragment.
pub fn lm2_final_noise_bridge_body_line(line: &Lm2SourceLine, cues: &Lm2FontCues) -> (r: bool)
    ensures r == final_noise_bridge_body_line(*line, *cues),
{
    !line.in_footnote_zone && !line.below_footnote_divider && !line.in_ruled_cell
        && !line.ruled_row_membership_exact && !line.page_table_column_like
        && !line.page_object_overlaps_image_bbox && !line.segment_block_table_like
        && !line.page_object_hide_candidate && !line.segment_block_furniture_like
        && cues.doc_at_least_84 && lm2_context_has_substantive_text(line.text.as_str())
}

/// A line of a mixed-shape segment that is safely body text: outside notes
/// and tables, of at least 0.90 of the body size.
pub open spec fn safe_mixed_segment_line(l: Lm2SourceLine, c: Lm2FontCues) -> bool {
    &&& l.segment_block_id != 0
    &&& eq_ignore_ascii_case(l.segment_block_shape@, "mixed"@)
    &&& !l.segment_block_footnote_like
    &&& !l.in_footnote_zone
    &&& !l.below_footnote_divider
    &&& outside_tables(l)
    &&& c.doc_at_least_90
}

/// Whether the line of a mixed segment is safely body text.
pub fn lm2_safe_mixed_segment_line(line: &Lm2SourceLine, cues: &Lm2FontCues) -> (r: bool)
    ensures r == safe_mixed_segment_line(*line, *cues),
{
    line.segment_block_id != 0 && str_eq_ignore_ascii_case(line.segment_block_shape.as_str(), "mixed")
        && !line.segment_block_footnote_like && !line.in_footnote_zone
        && !line.below_footnote_divider && !line.in_ruled_cell && !line.ruled_row_membership_exact
        && !line.page_table_column_like && !line.page_object_overlaps_image_bbox
        && cues.doc_at_least_90
}

/// A line of a footnote-shaped segment in the footnote zone, outside
/// tables, of at most 0.94 of the body size.
pub open spec fn hard_physical_footnote_line(l: Lm2SourceLine, c: Lm2FontCues) -> bool {
    &&& l.in_footnote_zone
    &&& l.segment_block_footnote_like
    &&& eq_ignore_ascii_case(l.segment_block_shape@, "footnote"@)
    &&& c.doc_at_most_94
    &&& outside_tables(l)
}

/// Whether the layout proves the line to be a physical footnote line.
pub fn lm2_hard_physical_footnote_line(line: &Lm2SourceLine, cues: &Lm2FontCues) -> (r: bool)
    ensures r == hard_physical_footnote_line(*line, *cues),
{
    line.in_footnote_zone && line.segment_block_footnote_like && str_eq_ignore_ascii_case(
        line.segment_block_shape.as_str(),
        "footnote",
    ) && cues.doc_at_most_94 && !line.in_ruled_cell && !line.ruled_row_membership_exact
        && !line.page_table_column_like && !line.page_object_overlaps_image_bbox
}

// ---------------------------------------------------------------------------
// Note-zone evidence
// ---------------------------------------------------------------------------

/// The line sits in the page's note zone: below the divider where the page
/// has one, else low on the page in a footnote zone or a document-level
/// footnote run.
pub open spec fn low_footnote_zone_evidence(l: Lm2SourceLine, c: Lm2FontCues) -> bool {
    if c.page_has_footnote_divider {
        l.below_footnote_divider
    } else {
        c.physically_low && (l.in_footnote_zone || l.doc_footnote_state)
    }
}

/// Whether the line sits in the page's note zone.
pub fn lm2_low_footnote_zone_evidence(line: &Lm2SourceLine, cues: &Lm2FontCues) -> (r: bool)
    ensures r == low_footnote_zone_evidence(*line, *cues),
{
    if cues.page_has_footnote_divider {
        line.below_footnote_divider
    } else {
        cues.physically_low && (line.in_footnote_zone || line.doc_footnote_state)
    }
}

/// A note head may open here: below the divider where the page has one;
/// otherwise in a footnote zone or run, and either low on the page or in a
/// footnote-like segment outside tables with some ratio at most 0.94.
pub open spec fn note_head_zone_evidence(l: Lm2SourceLine, c: Lm2FontCues) -> bool {
    if c.page_has_footnote_divider {
        l.below_footnote_divider
    } else if !(l.in_footnote_zone || l.doc_footnote_state) {
        false
    } else {
        c.physically_low || ((c.page_ref_at_most_94 || c.page_at_most_94 || c.doc_at_most_94)
            && l.segment_block_footnote_like && !l.in_ruled_cell && !l.page_table_column_like)
    }
}

/// Whether a note head may open on the line.
pub fn lm2_note_head_zone_evidence(line: &Lm2SourceLine, cues: &Lm2FontCues) -> (r: bool)
    ensures r == note_head_zone_evidence(*line, *cues),
{
    if cues.page_has_footnote_divider {
        return line.below_footnote_divider;
    }
    if !(line.in_footnote_zone || line.doc_footnote_state) {
        return false;
    }
    cues.physically_low || ((cues.page_ref_at_most_94 || cues.page_at_most_94 || cues.doc_at_most_94)
        && line.segment_block_footnote_like && !line.in_ruled_cell && !line.page_table_column_like)
}

/// An explicit small-font note head of `marker`: the encoded callout, then
/// `.`, `)` or `]`, in a small font (page reference or document ratio at
/// most 0.90, or page ratio at most 0.86), not a contents line, outside
/// tables and edge furniture.
pub open spec fn explicit_small_font_note_head(l: Lm2SourceLine, c: Lm2FontCues, marker: u16) -> bool {
    &&& explicit_note_head_shape(l.text@, marker)
    &&& (c.page_ref_at_most_90 || c.doc_at_most_90 || c.page_at_most_86)
    &&& l.role_hint != Some(LiquidBlockRole::Contents)
    &&& !l.in_ruled_cell
    &&& !l.page_table_column_like
    &&& !c.doc_repeated_edge_text
}

/// Whether the line is an explicit small-font note head of `marker`.
pub fn lm2_explicit_small_font_sentineled_note_head(
    line: &Lm2SourceLine,
    cues: &Lm2FontCues,
    marker: u16,
) -> (r: bool)
    ensures r == explicit_small_font_note_head(*line, *cues, marker),
{
    let contents = match line.role_hint {
        Some(LiquidBlockRole::Contents) => true,
        _ => false,
    };
    lm2_explicit_note_head_shape(line.text.as_str(), marker) && (cues.page_ref_at_most_90
        || cues.doc_at_most_90 || cues.page_at_most_86) && !contents && !line.in_ruled_cell
        && !line.page_table_column_like && !cues.doc_repeated_edge_text
}

/// The note number of an encoded callout opening the line, when the line
/// may open a note head there (zone evidence, or an explicit small-font
/// head).
pub open spec fn leading_note_head_marker(l: Lm2SourceLine, c: Lm2FontCues) -> Option<u16> {
    match leading_marker_spec(l.text@) {
        Some(m) => if note_head_zone_evidence(l, c) || explicit_small_font_note_head(l, c, m) {
            Some(m)
        } else {
            None
        },
        None => None,
    }
}

/// The note number of a note head opening the line, if any.
pub fn leading_sentineled_note_head_marker(line: &Lm2SourceLine, cues: &Lm2FontCues) -> (r: Option<
    u16,
>)
    ensures r == leading_note_head_marker(*line, *cues),
{
    match leading_sentineled_marker(line.text.as_str()) {
        Some(m) => if lm2_note_head_zone_evidence(line, cues)
            || lm2_explicit_small_font_sentineled_note_head(line, cues, m) {
            Some(m)
        } else {
            None
        },
        None => None,
    }
}

} // verus!
