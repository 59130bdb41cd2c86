use liquid2::physical_heads::{apply_physical_sequential_note_head_recovery, lm2_explicit_definition_markers};
use liquid2::rows::Lm2FontCues;
use liquid2::types::{
    LiquidBlock, LiquidBlockRole, LiquidBlockSourceLines, LiquidSourceLineRef, Lm2Action,
    Lm2SourceLine,
};

fn note_line(id: &str, line_index: usize) -> Lm2SourceLine {
    Lm2SourceLine {
        id: id.to_string(),
        page_index: 3,
        line_index,
        text: String::new(),
        role_hint: None,
        segment_block_id: 4,
        segment_block_line_index: 0,
        segment_block_shape: "footnote".to_string(),
        segment_block_footnote_like: true,
        segment_block_table_like: false,
        segment_block_furniture_like: false,
        segment_block_toc_like: false,
        in_footnote_zone: true,
        below_footnote_divider: false,
        doc_footnote_state: false,
        doc_footnote_continuation: false,
        in_ruled_cell: false,
        ruled_row_membership_exact: false,
        page_table_column_like: false,
        page_object_overlaps_image_bbox: false,
        page_object_hide_candidate: false,
        page_object_ruled_row_membership: false,
        bold: false,
        centered: false,
        margin_centered: false,
        small_note_font: true,
    }
}

fn small() -> Lm2FontCues {
    Lm2FontCues {
        page_has_footnote_divider: false,
        doc_repeated_edge_text: false,
        doc_at_most_70: false,
        doc_at_most_82: true,
        doc_at_most_94: true,
        doc_at_least_84: false,
        doc_at_least_90: false,
        doc_at_least_94: false,
        page_ref_at_most_70: false,
        page_ref_at_most_94: true,
        page_ref_at_least_94: false,
        page_at_most_94: true,
        page_at_least_94: false,
        doc_at_most_90: true,
        page_ref_at_most_90: true,
        page_at_most_86: true,
        physically_low: false,
    }
}

fn row(id: &str, line_index: usize, text: &str, markers: Vec<u16>) -> LiquidSourceLineRef {
    LiquidSourceLineRef {
        id: Some(id.to_string()),
        page_index: 3,
        line_index,
        text: text.to_string(),
        role: LiquidBlockRole::Paragraph,
        note_markers: markers,
    }
}

struct Case {
    blocks: Vec<LiquidBlock>,
    sources: Vec<LiquidBlockSourceLines>,
    decoded: Vec<(Lm2SourceLine, Lm2Action)>,
    font: Vec<Lm2FontCues>,
    tokens: Vec<Vec<Option<u16>>>,
    close: Vec<bool>,
}

fn case(texts: [&str; 3], tokens: [Option<u16>; 3], close: bool) -> Case {
    let ids = ["a", "b", "c"];
    let rows = (0..3)
        .map(|i| row(ids[i], 10 + i, texts[i], if i == 0 { vec![7] } else { vec![] }))
        .collect();
    Case {
        blocks: vec![LiquidBlock {
            role: LiquidBlockRole::Paragraph,
            text: texts.join(" "),
            label: Some("body".to_string()),
        }],
        sources: vec![LiquidBlockSourceLines { block_index: 0, lines: rows }],
        decoded: (0..3).map(|i| (note_line(ids[i], 10 + i), Lm2Action::Keep)).collect(),
        font: vec![small(); 3],
        tokens: vec![tokens.to_vec()],
        close: vec![close; 3],
    }
}

fn run(c: &mut Case) -> usize {
    apply_physical_sequential_note_head_recovery(
        &mut c.blocks,
        &mut c.sources,
        &c.decoded,
        &c.font,
        &c.tokens,
        &c.close,
    )
}

#[test]
fn heads_chain_from_an_accepted_head() {
    let mut c = case(["7 See Smith, supra.", "8 Id. at 12.", "9 Id."], [Some(7), Some(8), Some(9)], false);
    assert_eq!(run(&mut c), 2);
    assert_eq!(c.sources[0].lines[0].note_markers, vec![7]);
    assert_eq!(c.sources[0].lines[1].note_markers, vec![8]);
    assert_eq!(c.sources[0].lines[2].note_markers, vec![9]);
    assert!(c.sources[0].lines.iter().all(|l| l.role == LiquidBlockRole::Marginalia));
    assert_eq!(c.blocks[0].role, LiquidBlockRole::Marginalia);
    assert_eq!(c.blocks[0].label, None);
    assert_eq!(c.sources[0].lines[1].text, "8 Id. at 12.");
}

#[test]
fn an_open_previous_note_blocks_the_head() {
    let mut c = case(["7 See Smith, supra, at", "8 Id. at 12.", "9 Id."], [Some(7), Some(8), Some(9)], false);
    assert_eq!(run(&mut c), 0);
    assert!(c.sources[0].lines[1].note_markers.is_empty());
    assert_eq!(c.blocks[0].role, LiquidBlockRole::Paragraph);
    assert_eq!(c.blocks[0].label, Some("body".to_string()));
}

#[test]
fn a_bare_number_above_note_prose_is_a_head() {
    let mut c = case(["7 See Smith, supra, at", "8", "Id. at 12."], [Some(7), None, None], true);
    assert_eq!(run(&mut c), 1);
    assert_eq!(c.sources[0].lines[1].note_markers, vec![8]);
    let mut d = case(["7 See Smith, supra, at", "8", "Id. at 12."], [Some(7), None, None], false);
    assert_eq!(run(&mut d), 0);
}

#[test]
fn the_number_must_follow_the_accepted_head() {
    let mut c = case(["7 See Smith, supra.", "9 Id. at 12.", "10 Id."], [Some(7), Some(9), Some(10)], false);
    assert_eq!(run(&mut c), 0);
}

#[test]
fn a_row_outside_the_note_zone_keeps_the_block_a_paragraph() {
    let mut c = case(["7 See Smith, supra.", "8 Id. at 12.", "Body text."], [Some(7), Some(8), None], false);
    c.decoded[2].0.in_footnote_zone = false;
    assert_eq!(run(&mut c), 1);
    assert_eq!(c.sources[0].lines[1].role, LiquidBlockRole::Marginalia);
    assert_eq!(c.sources[0].lines[2].role, LiquidBlockRole::Paragraph);
    assert_eq!(c.blocks[0].role, LiquidBlockRole::Paragraph);
}

#[test]
fn definitions_come_from_explicit_heads_and_note_zone_rows() {
    let mut plain = row("x", 20, "14 see id.", vec![14]);
    plain.id = None;
    let mut explicit = row("y", 21, "  12. Smith, supra.", vec![12, 12]);
    explicit.id = None;
    let zone = row("a", 22, "15 Id.", vec![15]);
    let sources = vec![
        LiquidBlockSourceLines { block_index: 0, lines: vec![plain, explicit] },
        LiquidBlockSourceLines { block_index: 1, lines: vec![zone] },
    ];
    let decoded = vec![(note_line("a", 22), Lm2Action::Keep)];
    let mut defined = lm2_explicit_definition_markers(&sources, &decoded, &[small()]);
    defined.sort();
    assert_eq!(defined, vec![12, 15]);
}
