use std::collections::BTreeMap;

use liquid2::blocks::{
    apply_sandwiched_note_url_continuation_reflow, copy_line_ref, lm2_false_body_marginalia,
    lm2_merge_block_sources, lm2_remove_block, lm2_source_blocks_contiguous,
    lm2_source_primary_note_marker,
};
use liquid2::types::{
    LiquidBlock, LiquidBlockRole, LiquidBlockSourceLines, LiquidSourceLineRef, Lm2Action,
    Lm2SourceLine,
};

fn row(id: &str, page: usize, line: usize, text: &str, role: LiquidBlockRole, markers: Vec<u16>) -> LiquidSourceLineRef {
    LiquidSourceLineRef {
        id: if id.is_empty() { None } else { Some(id.to_string()) },
        page_index: page,
        line_index: line,
        text: text.to_string(),
        role,
        note_markers: markers,
    }
}

fn block(role: LiquidBlockRole, text: &str) -> LiquidBlock {
    LiquidBlock { role, text: text.to_string(), label: Some("label".to_string()) }
}

fn entry(block_index: usize, lines: Vec<LiquidSourceLineRef>) -> LiquidBlockSourceLines {
    LiquidBlockSourceLines { block_index, lines }
}

fn source_line(id: &str, page: usize, line: usize, small: bool) -> Lm2SourceLine {
    Lm2SourceLine {
        id: id.to_string(),
        page_index: page,
        line_index: line,
        text: String::new(),
        role_hint: None,
        segment_block_id: 0,
        segment_block_line_index: 0,
        segment_block_shape: String::new(),
        segment_block_footnote_like: false,
        segment_block_table_like: false,
        segment_block_furniture_like: false,
        segment_block_toc_like: false,
        in_footnote_zone: false,
        below_footnote_divider: false,
        doc_footnote_state: false,
        doc_footnote_continuation: false,
        in_ruled_cell: false,
        ruled_row_membership_exact: false,
        page_table_column_like: false,
        page_object_overlaps_image_bbox: false,
        page_object_hide_candidate: false,
        page_object_ruled_row_membership: false,
        bold: false,
        centered: false,
        margin_centered: false,
        small_note_font: small,
    }
}

#[test]
fn removing_a_block_renumbers_later_provenance() {
    let mut blocks = vec![
        block(LiquidBlockRole::Paragraph, "a"),
        block(LiquidBlockRole::Noise, "b"),
        block(LiquidBlockRole::Paragraph, "c"),
    ];
    let mut sources = vec![
        entry(0, vec![row("x", 0, 0, "a", LiquidBlockRole::Paragraph, vec![])]),
        entry(1, vec![row("y", 0, 1, "b", LiquidBlockRole::Noise, vec![])]),
        entry(2, vec![row("z", 0, 2, "c", LiquidBlockRole::Paragraph, vec![])]),
    ];
    lm2_remove_block(1, &mut blocks, &mut sources);
    assert_eq!(blocks.len(), 2);
    assert_eq!(blocks[1].text, "c");
    assert_eq!(sources.len(), 2);
    assert_eq!(sources[0].block_index, 0);
    assert_eq!(sources[1].block_index, 1);
    assert_eq!(sources[1].lines[0].text, "c");
    assert_eq!(blocks[sources[1].block_index].text, sources[1].lines[0].text);
}

#[test]
fn merging_sources_sorts_by_page_then_line_stably() {
    let mut sources = vec![
        entry(0, vec![row("a", 1, 5, "a", LiquidBlockRole::Paragraph, vec![]), row("b", 0, 9, "b", LiquidBlockRole::Paragraph, vec![])]),
        entry(1, vec![row("c", 1, 5, "c", LiquidBlockRole::Paragraph, vec![]), row("d", 0, 2, "d", LiquidBlockRole::Paragraph, vec![3])]),
    ];
    lm2_merge_block_sources(0, 1, &mut sources);
    let ids: Vec<String> = sources[0].lines.iter().map(|l| l.id.clone().unwrap()).collect();
    assert_eq!(ids, vec!["d", "b", "a", "c"]);
    assert_eq!(sources[0].lines[0].note_markers, vec![3]);
    assert_eq!(sources[1].lines.len(), 2);
}

#[test]
fn merging_without_target_changes_nothing() {
    let mut sources = vec![entry(1, vec![row("c", 1, 5, "c", LiquidBlockRole::Paragraph, vec![])])];
    lm2_merge_block_sources(7, 1, &mut sources);
    assert_eq!(sources[0].lines.len(), 1);
    assert_eq!(sources[0].block_index, 1);
}

#[test]
fn merging_a_missing_donor_only_sorts() {
    let mut sources = vec![entry(0, vec![row("b", 2, 1, "b", LiquidBlockRole::Paragraph, vec![]), row("a", 1, 1, "a", LiquidBlockRole::Paragraph, vec![])])];
    lm2_merge_block_sources(0, 9, &mut sources);
    let ids: Vec<String> = sources[0].lines.iter().map(|l| l.id.clone().unwrap()).collect();
    assert_eq!(ids, vec!["a", "b"]);
}

#[test]
fn primary_note_marker_is_the_first_marker_of_the_first_marked_row() {
    let lines = vec![
        row("a", 0, 0, "x", LiquidBlockRole::Marginalia, vec![]),
        row("b", 0, 1, "y", LiquidBlockRole::Marginalia, vec![7, 8]),
        row("c", 0, 2, "z", LiquidBlockRole::Marginalia, vec![2]),
    ];
    assert_eq!(lm2_source_primary_note_marker(Some(&lines)), Some(7));
    assert_eq!(lm2_source_primary_note_marker(Some(&Vec::new())), None);
    assert_eq!(lm2_source_primary_note_marker(None), None);
}

#[test]
fn contiguous_blocks_continue_line_by_line() {
    let mut map = BTreeMap::new();
    map.insert(0usize, vec![row("a", 2, 4, "a", LiquidBlockRole::Paragraph, vec![])]);
    map.insert(1usize, vec![row("b", 2, 5, "b", LiquidBlockRole::Paragraph, vec![])]);
    map.insert(2usize, vec![row("c", 3, 6, "c", LiquidBlockRole::Paragraph, vec![])]);
    map.insert(3usize, Vec::new());
    assert!(lm2_source_blocks_contiguous(&map, 0, 1));
    assert!(!lm2_source_blocks_contiguous(&map, 1, 2));
    assert!(!lm2_source_blocks_contiguous(&map, 1, 0));
    assert!(!lm2_source_blocks_contiguous(&map, 0, 3));
    assert!(!lm2_source_blocks_contiguous(&map, 0, 9));
}

#[test]
fn false_body_marginalia_has_no_footnote_evidence() {
    let marg = block(LiquidBlockRole::Marginalia, "x");
    let plain = vec![row("a", 0, 0, "x", LiquidBlockRole::Marginalia, vec![])];
    let ids = vec!["zz".to_string()];
    assert!(lm2_false_body_marginalia(&marg, Some(&plain), &ids));
    let in_zone = vec!["a".to_string()];
    assert!(!lm2_false_body_marginalia(&marg, Some(&plain), &in_zone));
    let marked = vec![row("a", 0, 0, "x", LiquidBlockRole::Marginalia, vec![1])];
    assert!(!lm2_false_body_marginalia(&marg, Some(&marked), &ids));
    assert!(!lm2_false_body_marginalia(&marg, Some(&Vec::new()), &ids));
    assert!(!lm2_false_body_marginalia(&marg, None, &ids));
    let para = block(LiquidBlockRole::Paragraph, "x");
    assert!(!lm2_false_body_marginalia(&para, Some(&plain), &ids));
}

#[test]
fn copied_rows_match_their_source() {
    let r = row("a", 3, 4, "text", LiquidBlockRole::Footnote, vec![1, 2]);
    let c = copy_line_ref(&r);
    assert_eq!((c.id, c.page_index, c.line_index, c.text, c.role, c.note_markers), (r.id, 3, 4, r.text, LiquidBlockRole::Footnote, vec![1, 2]));
}

fn url_case(small: bool) -> (Vec<LiquidBlock>, Vec<LiquidBlockSourceLines>, Vec<(Lm2SourceLine, Lm2Action)>) {
    let blocks = vec![
        block(LiquidBlockRole::Marginalia, "4 Note"),
        block(LiquidBlockRole::Noise, "HTTPS://example.com/x"),
        block(LiquidBlockRole::Marginalia, "5 Note"),
    ];
    let sources = vec![
        entry(0, vec![row("a", 2, 5, "4 Note", LiquidBlockRole::Marginalia, vec![4])]),
        entry(1, vec![row("b", 2, 6, "HTTPS://example.com/x", LiquidBlockRole::Noise, vec![])]),
        entry(2, vec![row("c", 2, 7, "5 Note", LiquidBlockRole::Marginalia, vec![5])]),
    ];
    let decoded = vec![(source_line("b", 2, 6, small), Lm2Action::HideNoise)];
    (blocks, sources, decoded)
}

#[test]
fn sandwiched_url_row_joins_the_notes() {
    let (mut blocks, mut sources, decoded) = url_case(true);
    let n = apply_sandwiched_note_url_continuation_reflow(&mut blocks, &mut sources, &decoded);
    assert_eq!(n, 1);
    assert_eq!(blocks[1].role, LiquidBlockRole::Marginalia);
    assert_eq!(blocks[1].label, None);
    assert_eq!(blocks[1].text, "HTTPS://example.com/x");
    assert_eq!(sources[1].lines[0].role, LiquidBlockRole::Marginalia);
    assert_eq!(sources[0].lines[0].role, LiquidBlockRole::Marginalia);
    assert_eq!(blocks[0].label, Some("label".to_string()));
}

#[test]
fn sandwiched_url_row_needs_a_note_sized_font() {
    let (mut blocks, mut sources, decoded) = url_case(false);
    let n = apply_sandwiched_note_url_continuation_reflow(&mut blocks, &mut sources, &decoded);
    assert_eq!(n, 0);
    assert_eq!(blocks[1].role, LiquidBlockRole::Noise);
    assert_eq!(sources[1].lines[0].role, LiquidBlockRole::Noise);
}

#[test]
fn sandwiched_url_row_needs_consecutive_notes() {
    let (mut blocks, mut sources, decoded) = url_case(true);
    sources[2].lines[0].note_markers = vec![6];
    assert_eq!(apply_sandwiched_note_url_continuation_reflow(&mut blocks, &mut sources, &decoded), 0);
    assert_eq!(blocks[1].role, LiquidBlockRole::Noise);
}

#[test]
fn the_url_bridge_is_idempotent() {
    let (mut blocks, mut sources, decoded) = url_case(true);
    assert_eq!(apply_sandwiched_note_url_continuation_reflow(&mut blocks, &mut sources, &decoded), 1);
    let roles: Vec<LiquidBlockRole> = blocks.iter().map(|b| b.role).collect();
    assert_eq!(apply_sandwiched_note_url_continuation_reflow(&mut blocks, &mut sources, &decoded), 0);
    let again: Vec<LiquidBlockRole> = blocks.iter().map(|b| b.role).collect();
    assert_eq!(roles, again);
}
