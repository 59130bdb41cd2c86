use liquid2::rows::Lm2FontCues;
use liquid2::tables::{apply_table_figure_block_role_routing, lm2_word_count, Lm2TableCues};
use liquid2::types::{
    LiquidBlock, LiquidBlockRole, LiquidBlockSourceLines, LiquidSourceLineRef, Lm2Action,
    Lm2SourceLine,
};

fn line(line_index: usize) -> Lm2SourceLine {
    Lm2SourceLine {
        id: format!("l{line_index}"),
        page_index: 2,
        line_index,
        text: String::new(),
        role_hint: None,
        segment_block_id: 0,
        segment_block_line_index: 0,
        segment_block_shape: String::new(),
        segment_block_footnote_like: false,
        segment_block_table_like: false,
        segment_block_furniture_like: false,
        segment_block_toc_like: false,
        in_footnote_zone: false,
        below_footnote_divider: false,
        doc_footnote_state: false,
        doc_footnote_continuation: false,
        in_ruled_cell: false,
        ruled_row_membership_exact: false,
        page_table_column_like: false,
        page_object_overlaps_image_bbox: false,
        page_object_hide_candidate: false,
        page_object_ruled_row_membership: false,
        bold: false,
        centered: false,
        margin_centered: false,
        small_note_font: false,
    }
}

fn font() -> Lm2FontCues {
    Lm2FontCues {
        page_has_footnote_divider: false,
        doc_repeated_edge_text: false,
        doc_at_most_70: false,
        doc_at_most_82: false,
        doc_at_most_94: false,
        doc_at_least_84: true,
        doc_at_least_90: true,
        doc_at_least_94: true,
        page_ref_at_most_70: false,
        page_ref_at_most_94: false,
        page_ref_at_least_94: true,
        page_at_most_94: false,
        page_at_least_94: true,
        doc_at_most_90: false,
        page_ref_at_most_90: false,
        page_at_most_86: false,
        physically_low: false,
    }
}

fn cue(anchor: bool, short: bool) -> Lm2TableCues {
    Lm2TableCues { explicit_caption: false, table_figure_anchor: anchor, short_label: short }
}

fn row(line_index: usize, role: LiquidBlockRole) -> LiquidSourceLineRef {
    LiquidSourceLineRef {
        id: Some(format!("l{line_index}")),
        page_index: 2,
        line_index,
        text: String::new(),
        role,
        note_markers: Vec::new(),
    }
}

fn block(role: LiquidBlockRole, text: &str) -> LiquidBlock {
    LiquidBlock { role, text: text.to_string(), label: None }
}

fn decoded(lines: Vec<Lm2SourceLine>) -> Vec<(Lm2SourceLine, Lm2Action)> {
    lines.into_iter().map(|l| (l, Lm2Action::Keep)).collect()
}

#[test]
fn words() {
    assert_eq!(lm2_word_count("  Net   revenue\tby year "), 4);
    assert_eq!(lm2_word_count(""), 0);
}

#[test]
fn labels_below_an_anchor_become_a_table() {
    let d = decoded(vec![line(5), line(6), line(7), line(8)]);
    let cues = vec![cue(true, false), cue(false, true), cue(false, true), cue(false, true)];
    let mut blocks = vec![block(LiquidBlockRole::Paragraph, "Revenue")];
    let sources = vec![LiquidBlockSourceLines { block_index: 0, lines: vec![row(6, LiquidBlockRole::Paragraph)] }];
    let n = apply_table_figure_block_role_routing(
        &mut blocks,
        &sources,
        &d,
        &vec![font(); 4],
        &cues,
        &[false],
        &[vec![true]],
    );
    assert_eq!(n, 1);
    assert_eq!(blocks[0].role, LiquidBlockRole::Table);
    assert_eq!(blocks[0].label, Some("Table/Figure".to_string()));
    assert_eq!(blocks[0].text, "Revenue");

    // Without the anchor the labels are not a cluster.
    let mut blocks = vec![block(LiquidBlockRole::Paragraph, "Revenue")];
    let n = apply_table_figure_block_role_routing(
        &mut blocks,
        &sources,
        &d,
        &vec![font(); 4],
        &[cue(false, false), cue(false, true), cue(false, true), cue(false, true)],
        &[false],
        &[vec![true]],
    );
    assert_eq!(n, 0);
    assert_eq!(blocks[0].role, LiquidBlockRole::Paragraph);
}

#[test]
fn captions_and_ruled_rows() {
    let d = decoded(vec![line(5)]);
    let sources = vec![LiquidBlockSourceLines { block_index: 0, lines: vec![row(5, LiquidBlockRole::Paragraph)] }];
    let mut blocks = vec![LiquidBlock {
        role: LiquidBlockRole::Paragraph,
        text: "Table 2. Filings".to_string(),
        label: Some("x".to_string()),
    }];
    let n = apply_table_figure_block_role_routing(
        &mut blocks, &sources, &d, &[font()], &[cue(false, false)], &[true], &[vec![false]],
    );
    assert_eq!(n, 1);
    assert_eq!(blocks[0].role, LiquidBlockRole::Caption);
    assert_eq!(blocks[0].label, None);

    let mut ruled = line(5);
    ruled.in_ruled_cell = true;
    let d = decoded(vec![ruled.clone()]);
    let mut blocks = vec![block(LiquidBlockRole::Paragraph, "12 34 56")];
    let n = apply_table_figure_block_role_routing(
        &mut blocks, &sources, &d, &[font()], &[cue(false, false)], &[false], &[vec![false]],
    );
    assert_eq!(n, 1);
    assert_eq!(blocks[0].role, LiquidBlockRole::Table);

    // Below a page's footnote divider the evidence does not count.
    ruled.below_footnote_divider = true;
    let d = decoded(vec![ruled]);
    let mut f = font();
    f.page_has_footnote_divider = true;
    let mut blocks = vec![block(LiquidBlockRole::Paragraph, "12 34 56")];
    let n = apply_table_figure_block_role_routing(
        &mut blocks, &sources, &d, &[f], &[cue(false, false)], &[false], &[vec![false]],
    );
    assert_eq!(n, 0);
}

#[test]
fn outline_headings_and_notes_stay() {
    let mut ruled = line(5);
    ruled.in_ruled_cell = true;
    let d = decoded(vec![ruled]);
    let heading_sources =
        vec![LiquidBlockSourceLines { block_index: 0, lines: vec![row(5, LiquidBlockRole::Heading)] }];
    let mut blocks = vec![block(LiquidBlockRole::Heading, "I. Introduction")];
    let n = apply_table_figure_block_role_routing(
        &mut blocks, &heading_sources, &d, &[font()], &[cue(false, false)], &[false], &[vec![false]],
    );
    assert_eq!(n, 0);
    assert_eq!(blocks[0].role, LiquidBlockRole::Heading);

    let mut marked = row(5, LiquidBlockRole::Paragraph);
    marked.note_markers = vec![3];
    let sources = vec![LiquidBlockSourceLines { block_index: 0, lines: vec![marked] }];
    let mut blocks = vec![block(LiquidBlockRole::Paragraph, "12 34")];
    let n = apply_table_figure_block_role_routing(
        &mut blocks, &sources, &d, &[font()], &[cue(false, false)], &[true], &[vec![false]],
    );
    assert_eq!(n, 0);
}

#[test]
fn label_between_table_cells_joins_them() {
    let d = decoded(vec![line(10), line(11), line(12)]);
    let sources = vec![
        LiquidBlockSourceLines { block_index: 0, lines: vec![row(10, LiquidBlockRole::Table)] },
        LiquidBlockSourceLines { block_index: 1, lines: vec![row(11, LiquidBlockRole::Paragraph)] },
        LiquidBlockSourceLines { block_index: 2, lines: vec![row(12, LiquidBlockRole::Table)] },
    ];
    let mut blocks = vec![
        block(LiquidBlockRole::Table, "Orders"),
        block(LiquidBlockRole::Paragraph, "and Motions"),
        block(LiquidBlockRole::Table, "Appeals"),
    ];
    let n = apply_table_figure_block_role_routing(
        &mut blocks,
        &sources,
        &d,
        &vec![font(); 3],
        &vec![cue(false, false); 3],
        &[false, false, false],
        &[vec![false], vec![false], vec![false]],
    );
    assert_eq!(n, 1);
    assert_eq!(blocks[1].role, LiquidBlockRole::Table);
    assert_eq!(blocks[1].label, Some("Table/Figure".to_string()));

    // A gap in the source rows keeps it out.
    let mut gapped = sources.clone();
    gapped[2].lines[0].line_index = 13;
    let mut blocks = vec![
        block(LiquidBlockRole::Table, "Orders"),
        block(LiquidBlockRole::Paragraph, "and Motions"),
        block(LiquidBlockRole::Table, "Appeals"),
    ];
    let n = apply_table_figure_block_role_routing(
        &mut blocks,
        &gapped,
        &d,
        &vec![font(); 3],
        &vec![cue(false, false); 3],
        &[false, false, false],
        &[vec![false], vec![false], vec![false]],
    );
    assert_eq!(n, 0);
}
