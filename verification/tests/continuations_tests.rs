use liquid2::continuations::physical_open_note_continuation_blocks;
use liquid2::types::{
    LiquidBlock, LiquidBlockRole, LiquidBlockSourceLines, LiquidSourceLineRef, Lm2Action,
    Lm2SourceLine,
};

fn footnote_line(id: &str, page_index: usize, line_index: usize, segment: usize) -> Lm2SourceLine {
    Lm2SourceLine {
        id: id.to_string(),
        page_index,
        line_index,
        text: String::new(),
        role_hint: None,
        segment_block_id: segment,
        segment_block_line_index: 0,
        segment_block_shape: "Footnote".to_string(),
        segment_block_footnote_like: true,
        segment_block_table_like: false,
        segment_block_furniture_like: false,
        segment_block_toc_like: false,
        in_footnote_zone: true,
        below_footnote_divider: true,
        doc_footnote_state: false,
        doc_footnote_continuation: false,
        in_ruled_cell: false,
        ruled_row_membership_exact: false,
        page_table_column_like: false,
        page_object_overlaps_image_bbox: false,
        page_object_hide_candidate: false,
        page_object_ruled_row_membership: false,
        bold: false,
        centered: false,
        margin_centered: false,
        small_note_font: true,
    }
}

fn row(id: &str, page_index: usize, line_index: usize, text: &str, role: LiquidBlockRole, markers: Vec<u16>) -> LiquidSourceLineRef {
    LiquidSourceLineRef {
        id: Some(id.to_string()),
        page_index,
        line_index,
        text: text.to_string(),
        role,
        note_markers: markers,
    }
}

fn block(role: LiquidBlockRole, text: &str) -> LiquidBlock {
    LiquidBlock { role, text: text.to_string(), label: None }
}

/// Page 1 ends with note 3; page 2 opens its note area with an unmarked
/// segment (lines 0 and 1), then note 4 on line 2.
fn scenario(
    previous_text: &str,
    continuation_text: &str,
    next_marker: u16,
) -> (Vec<LiquidBlock>, Vec<LiquidBlockSourceLines>, Vec<(Lm2SourceLine, Lm2Action)>) {
    let blocks = vec![
        block(LiquidBlockRole::Footnote, previous_text),
        block(LiquidBlockRole::Footnote, continuation_text),
        block(LiquidBlockRole::Footnote, "4. Next note."),
    ];
    let sources = vec![
        LiquidBlockSourceLines {
            block_index: 0,
            lines: vec![row("p", 1, 40, previous_text, LiquidBlockRole::Footnote, vec![3])],
        },
        LiquidBlockSourceLines {
            block_index: 1,
            lines: vec![
                row("a", 2, 0, continuation_text, LiquidBlockRole::Footnote, vec![]),
                row("b", 2, 1, "and more of it.", LiquidBlockRole::Footnote, vec![]),
            ],
        },
        LiquidBlockSourceLines {
            block_index: 2,
            lines: vec![row("n", 2, 2, "4. Next note.", LiquidBlockRole::Footnote, vec![next_marker])],
        },
    ];
    let decoded = vec![
        (footnote_line("a", 2, 0, 7), Lm2Action::Marginalia),
        (footnote_line("b", 2, 1, 7), Lm2Action::Marginalia),
    ];
    (blocks, sources, decoded)
}

#[test]
fn a_lowercase_segment_after_an_open_note_is_protected() {
    let (blocks, sources, decoded) = scenario("3. See the discussion in", "the earlier volume,", 4);
    assert_eq!(physical_open_note_continuation_blocks(&blocks, &sources, &decoded, &[]), vec![1]);
}

#[test]
fn a_closed_previous_note_protects_nothing() {
    let (blocks, sources, decoded) = scenario("3. See the discussion.", "the earlier volume,", 4);
    assert!(physical_open_note_continuation_blocks(&blocks, &sources, &decoded, &[]).is_empty());
}

#[test]
fn a_closer_after_open_text_still_counts_as_open() {
    let (blocks, sources, decoded) = scenario("3. See \"the discussion in\")", "the earlier volume,", 4);
    assert_eq!(physical_open_note_continuation_blocks(&blocks, &sources, &decoded, &[]), vec![1]);
}

#[test]
fn the_next_note_must_follow_the_previous_number() {
    let (blocks, sources, decoded) = scenario("3. See the discussion in", "the earlier volume,", 5);
    assert!(physical_open_note_continuation_blocks(&blocks, &sources, &decoded, &[]).is_empty());
}

#[test]
fn an_uppercase_segment_needs_the_citation_cue() {
    let (blocks, sources, decoded) = scenario("3. See the discussion in", "The earlier volume,", 4);
    assert!(physical_open_note_continuation_blocks(&blocks, &sources, &decoded, &[]).is_empty());
    assert_eq!(physical_open_note_continuation_blocks(&blocks, &sources, &decoded, &[(2, 7)]), vec![1]);
    assert!(physical_open_note_continuation_blocks(&blocks, &sources, &decoded, &[(2, 8)]).is_empty());
}

#[test]
fn a_gap_in_the_segment_protects_nothing() {
    let (blocks, mut sources, decoded) = scenario("3. See the discussion in", "the earlier volume,", 4);
    sources[1].lines[1].line_index = 5;
    sources[2].lines[0].line_index = 6;
    assert!(physical_open_note_continuation_blocks(&blocks, &sources, &decoded, &[]).is_empty());
}

#[test]
fn a_line_outside_the_footnote_zone_protects_nothing() {
    let (blocks, sources, mut decoded) = scenario("3. See the discussion in", "the earlier volume,", 4);
    decoded[1].0.in_footnote_zone = false;
    assert!(physical_open_note_continuation_blocks(&blocks, &sources, &decoded, &[]).is_empty());
}
