use liquid2::rows::{
    lm2_body_paired_bare_note_row, lm2_body_paired_note_prose_row, lm2_body_sized_fragment_line,
    lm2_body_sized_reflow_line, lm2_final_noise_bridge_body_line, lm2_hard_physical_footnote_line,
    lm2_physical_sequential_note_row, lm2_safe_mixed_segment_line, Lm2FontCues,
    leading_sentineled_note_head_marker, lm2_explicit_small_font_sentineled_note_head,
    lm2_low_footnote_zone_evidence, lm2_note_head_zone_evidence,
};
use liquid2::types::{LiquidBlockRole, LiquidSourceLineRef, Lm2SourceLine};

fn line(text: &str) -> Lm2SourceLine {
    Lm2SourceLine {
        id: "l".to_string(),
        page_index: 2,
        line_index: 30,
        text: text.to_string(),
        role_hint: None,
        segment_block_id: 0,
        segment_block_line_index: 0,
        segment_block_shape: String::new(),
        segment_block_footnote_like: false,
        segment_block_table_like: false,
        segment_block_furniture_like: false,
        segment_block_toc_like: false,
        in_footnote_zone: false,
        below_footnote_divider: false,
        doc_footnote_state: false,
        doc_footnote_continuation: false,
        in_ruled_cell: false,
        ruled_row_membership_exact: false,
        page_table_column_like: false,
        page_object_overlaps_image_bbox: false,
        page_object_hide_candidate: false,
        page_object_ruled_row_membership: false,
        bold: false,
        centered: false,
        margin_centered: false,
        small_note_font: false,
    }
}

/// Cues of a line at `ratio` of every reference size.
fn cues(ratio: f64) -> Lm2FontCues {
    Lm2FontCues {
        page_has_footnote_divider: false,
        doc_repeated_edge_text: false,
        doc_at_most_70: ratio <= 0.70,
        doc_at_most_82: ratio <= 0.82,
        doc_at_most_94: ratio <= 0.94,
        doc_at_least_84: ratio >= 0.84,
        doc_at_least_90: ratio >= 0.90,
        doc_at_least_94: ratio >= 0.94,
        page_ref_at_most_70: ratio <= 0.70,
        page_ref_at_most_94: ratio <= 0.94,
        page_ref_at_least_94: ratio >= 0.94,
        page_at_most_94: ratio <= 0.94,
        page_at_least_94: ratio >= 0.94,
        doc_at_most_90: ratio <= 0.90,
        page_ref_at_most_90: ratio <= 0.90,
        page_at_most_86: ratio <= 0.86,
        physically_low: false,
    }
}

#[test]
fn physical_note_rows() {
    let mut l = line("12 See id.");
    l.in_footnote_zone = true;
    l.segment_block_shape = "Footnote".to_string();
    assert!(lm2_physical_sequential_note_row(&l, &cues(0.8)));
    assert!(!lm2_physical_sequential_note_row(&l, &cues(1.0)));
    // With a divider on the page only rows below it count.
    let mut c = cues(0.8);
    c.page_has_footnote_divider = true;
    assert!(!lm2_physical_sequential_note_row(&l, &c));
    l.below_footnote_divider = true;
    assert!(lm2_physical_sequential_note_row(&l, &c));
    c.doc_repeated_edge_text = true;
    assert!(!lm2_physical_sequential_note_row(&l, &c));
    // A very small marginalia row counts even where the divider was missed.
    let mut m = line("13 Id.");
    m.role_hint = Some(LiquidBlockRole::Marginalia);
    m.segment_block_table_like = true;
    assert!(lm2_physical_sequential_note_row(&m, &cues(0.6)));
    m.centered = true;
    assert!(!lm2_physical_sequential_note_row(&m, &cues(0.6)));
}

#[test]
fn note_rows_beside_the_body() {
    let l = line("4 Id. at 7.");
    assert!(lm2_body_paired_bare_note_row(&l, &cues(0.65)));
    assert!(!lm2_body_paired_bare_note_row(&l, &cues(0.8)));
    assert!(lm2_body_paired_note_prose_row(&l, &cues(0.8)));
    assert!(!lm2_body_paired_note_prose_row(&l, &cues(0.9)));
    let mut first = line("4 Id.");
    first.line_index = 0;
    assert!(!lm2_body_paired_bare_note_row(&first, &cues(0.65)));
}

#[test]
fn body_sized_lines() {
    let l = line("The court held that");
    assert!(lm2_body_sized_reflow_line(&l, &cues(1.0)));
    let mut two_small = cues(1.0);
    two_small.page_at_least_94 = false;
    two_small.doc_at_least_94 = false;
    assert!(!lm2_body_sized_reflow_line(&l, &two_small));
    let mut table = line("The court held that");
    table.in_ruled_cell = true;
    assert!(!lm2_body_sized_reflow_line(&table, &cues(1.0)));

    let r = LiquidSourceLineRef {
        id: Some("l".to_string()),
        page_index: 2,
        line_index: 30,
        text: "held".to_string(),
        role: LiquidBlockRole::Paragraph,
        note_markers: Vec::new(),
    };
    assert!(lm2_body_sized_fragment_line(&r, &l, &cues(0.85)));
    assert!(!lm2_body_sized_fragment_line(&r, &line("— 12 —"), &cues(0.85)));
    assert!(!lm2_body_sized_fragment_line(&r, &l, &cues(0.8)));
    let heading = LiquidSourceLineRef { role: LiquidBlockRole::Heading, ..r };
    assert!(!lm2_body_sized_fragment_line(&heading, &l, &cues(0.85)));

    assert!(lm2_final_noise_bridge_body_line(&l, &cues(0.85)));
    let mut furniture = line("The court held that");
    furniture.segment_block_furniture_like = true;
    assert!(!lm2_final_noise_bridge_body_line(&furniture, &cues(0.85)));
}

#[test]
fn mixed_segments_and_physical_footnotes() {
    let mut l = line("text");
    l.segment_block_id = 4;
    l.segment_block_shape = "MIXED".to_string();
    assert!(lm2_safe_mixed_segment_line(&l, &cues(0.95)));
    assert!(!lm2_safe_mixed_segment_line(&l, &cues(0.85)));

    let mut f = line("7 See");
    f.in_footnote_zone = true;
    f.segment_block_footnote_like = true;
    f.segment_block_shape = "footnote".to_string();
    assert!(lm2_hard_physical_footnote_line(&f, &cues(0.8)));
    assert!(!lm2_hard_physical_footnote_line(&f, &cues(1.0)));
}

#[test]
fn note_zone_evidence() {
    let mut l = line("x");
    l.in_footnote_zone = true;
    let mut c = cues(1.0);
    assert!(!lm2_low_footnote_zone_evidence(&l, &c));
    assert!(!lm2_note_head_zone_evidence(&l, &c));
    c.physically_low = true;
    assert!(lm2_low_footnote_zone_evidence(&l, &c));
    assert!(lm2_note_head_zone_evidence(&l, &c));
    c.page_has_footnote_divider = true;
    assert!(!lm2_low_footnote_zone_evidence(&l, &c));
    l.below_footnote_divider = true;
    assert!(lm2_note_head_zone_evidence(&l, &c));

    let mut f = line("x");
    f.doc_footnote_state = true;
    f.segment_block_footnote_like = true;
    assert!(lm2_note_head_zone_evidence(&f, &cues(0.9)));
    assert!(!lm2_note_head_zone_evidence(&f, &cues(1.0)));
}

#[test]
fn explicit_note_heads() {
    let head = line("  \u{E000}12\u{E001}. See id.");
    assert!(lm2_explicit_small_font_sentineled_note_head(&head, &cues(0.85), 12));
    assert!(!lm2_explicit_small_font_sentineled_note_head(&head, &cues(0.85), 13));
    assert!(!lm2_explicit_small_font_sentineled_note_head(&head, &cues(1.0), 12));
    let glued = line("\u{E000}12\u{E001}.See");
    assert!(!lm2_explicit_small_font_sentineled_note_head(&glued, &cues(0.85), 12));
    let bare = line("\u{E000}12\u{E001}]");
    assert!(lm2_explicit_small_font_sentineled_note_head(&bare, &cues(0.85), 12));
    let mut contents = line("\u{E000}12\u{E001}. See");
    contents.role_hint = Some(LiquidBlockRole::Contents);
    assert!(!lm2_explicit_small_font_sentineled_note_head(&contents, &cues(0.85), 12));

    assert_eq!(leading_sentineled_note_head_marker(&head, &cues(0.85)), Some(12));
    assert_eq!(leading_sentineled_note_head_marker(&head, &cues(1.0)), None);
    let mut zoned = line("\u{E000}7\u{E001} Id.");
    zoned.in_footnote_zone = true;
    let mut c = cues(1.0);
    c.physically_low = true;
    assert_eq!(leading_sentineled_note_head_marker(&zoned, &c), Some(7));
    assert_eq!(leading_sentineled_note_head_marker(&line("Id. 7"), &c), None);
}
