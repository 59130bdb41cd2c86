use liquid2::callouts::{
    apply_in_block_standalone_callout_recovery, lm2_can_host_callout,
    lm2_marker_can_attach_to_previous_line, lm2_should_attach_standalone_marker_to_current_block,
    lm2_standalone_note_number, Lm2CalloutGeometry,
};
use liquid2::types::{
    LiquidBlock, LiquidBlockRole, LiquidBlockSourceLines, LiquidSourceLineRef, Lm2Action,
    Lm2SourceLine,
};

fn line(id: &str, line_index: usize, text: &str) -> Lm2SourceLine {
    Lm2SourceLine {
        id: id.to_string(),
        page_index: 0,
        line_index,
        text: text.to_string(),
        role_hint: None,
        segment_block_id: 0,
        segment_block_line_index: 0,
        segment_block_shape: String::new(),
        segment_block_footnote_like: false,
        segment_block_table_like: false,
        segment_block_furniture_like: false,
        segment_block_toc_like: false,
        in_footnote_zone: false,
        below_footnote_divider: false,
        doc_footnote_state: false,
        doc_footnote_continuation: false,
        in_ruled_cell: false,
        ruled_row_membership_exact: false,
        page_table_column_like: false,
        page_object_overlaps_image_bbox: false,
        page_object_hide_candidate: false,
        page_object_ruled_row_membership: false,
        bold: false,
        centered: false,
        margin_centered: false,
        small_note_font: false,
    }
}

fn row(id: &str, line_index: usize, markers: Vec<u16>) -> LiquidSourceLineRef {
    LiquidSourceLineRef {
        id: Some(id.to_string()),
        page_index: 0,
        line_index,
        text: String::new(),
        role: LiquidBlockRole::Paragraph,
        note_markers: markers,
    }
}

fn block(role: LiquidBlockRole, text: &str) -> LiquidBlock {
    LiquidBlock { role, text: text.to_string(), label: Some("l".to_string()) }
}

fn fit(superscript: bool, overlap: bool) -> Lm2CalloutGeometry {
    Lm2CalloutGeometry { superscript_fit: superscript, overlap_fit: overlap }
}

fn decoded(prev: &str, marker: &str) -> Vec<(Lm2SourceLine, Lm2Action)> {
    vec![(line("a", 4, prev), Lm2Action::Keep), (line("b", 5, marker), Lm2Action::Keep)]
}

fn two_entries() -> Vec<LiquidBlockSourceLines> {
    vec![
        LiquidBlockSourceLines { block_index: 0, lines: vec![row("a", 4, vec![])] },
        LiquidBlockSourceLines { block_index: 1, lines: vec![row("b", 5, vec![])] },
    ]
}

#[test]
fn bare_number_block_moves_into_the_paragraph() {
    let mut blocks = vec![
        block(LiquidBlockRole::Paragraph, "the court held. "),
        block(LiquidBlockRole::Paragraph, "  12"),
    ];
    let n = apply_in_block_standalone_callout_recovery(
        &mut blocks,
        &two_entries(),
        &decoded("the court held.", " 12 "),
        &[fit(false, false), fit(true, false)],
    );
    assert_eq!(n, 1);
    assert_eq!(blocks[0].text, "the court held.\u{E000}12\u{E001}");
    assert_eq!(blocks[0].label, Some("l".to_string()));
    assert_eq!(blocks[1].role, LiquidBlockRole::Noise);
    assert_eq!(blocks[1].label, None);

    // Trailing whitespace after the bare number is neither the number alone
    // nor a number followed by a note, so nothing moves.
    let mut blocks = vec![
        block(LiquidBlockRole::Paragraph, "the court held. "),
        block(LiquidBlockRole::Paragraph, "12 "),
    ];
    let n = apply_in_block_standalone_callout_recovery(
        &mut blocks,
        &two_entries(),
        &decoded("the court held.", "12"),
        &[fit(false, false), fit(true, false)],
    );
    assert_eq!(n, 0);
}

#[test]
fn leading_number_leaves_the_note_text() {
    let mut blocks = vec![
        block(LiquidBlockRole::Paragraph, "the court held."),
        block(LiquidBlockRole::Marginalia, "12  See id. at 4."),
    ];
    let n = apply_in_block_standalone_callout_recovery(
        &mut blocks,
        &two_entries(),
        &decoded("the court held.", "12"),
        &[fit(false, false), fit(true, false)],
    );
    assert_eq!(n, 1);
    assert_eq!(blocks[0].text, "the court held.\u{E000}12\u{E001}");
    assert_eq!(blocks[1].text, "See id. at 4.");
    assert_eq!(blocks[1].role, LiquidBlockRole::Marginalia);
}

#[test]
fn number_inside_the_block_is_encoded_in_place() {
    let mut blocks = vec![block(LiquidBlockRole::Paragraph, "held. 12 See 12 and more")];
    let sources = vec![LiquidBlockSourceLines {
        block_index: 0,
        lines: vec![row("a", 4, vec![]), row("b", 5, vec![])],
    }];
    let n = apply_in_block_standalone_callout_recovery(
        &mut blocks,
        &sources,
        &decoded("held.", "12"),
        &[fit(false, false), fit(true, false)],
    );
    assert_eq!(n, 1);
    assert_eq!(blocks[0].text, "held. 12 See\u{E000}12\u{E001} and more");
}

#[test]
fn accepted_note_backs_an_overlapping_marker() {
    let mut sources = two_entries();
    sources[0].lines[0].note_markers = vec![12];
    let mut blocks = vec![
        block(LiquidBlockRole::Paragraph, "the court held\u{2014}"),
        block(LiquidBlockRole::Paragraph, "12"),
    ];
    // The em dash cannot host a callout, so only the accepted note counts.
    let n = apply_in_block_standalone_callout_recovery(
        &mut blocks.clone(),
        &two_entries(),
        &decoded("the court held\u{2014}", "12"),
        &[fit(false, false), fit(true, true)],
    );
    assert_eq!(n, 0);
    let n = apply_in_block_standalone_callout_recovery(
        &mut blocks,
        &sources,
        &decoded("the court held\u{2014}", "12"),
        &[fit(false, false), fit(false, true)],
    );
    assert_eq!(n, 1);
    assert_eq!(blocks[0].text, "the court held\u{2014}\u{E000}12\u{E001}");
}

#[test]
fn no_recovery_without_geometry_or_paragraph() {
    let original = vec![
        block(LiquidBlockRole::Heading, "Part I."),
        block(LiquidBlockRole::Paragraph, "12"),
    ];
    let mut blocks = original.clone();
    let n = apply_in_block_standalone_callout_recovery(
        &mut blocks,
        &two_entries(),
        &decoded("Part I.", "12"),
        &[fit(true, true), fit(true, true)],
    );
    assert_eq!(n, 0);
    assert_eq!(blocks[0].text, original[0].text);
    let mut blocks = vec![block(LiquidBlockRole::Paragraph, "held."), block(LiquidBlockRole::Paragraph, "12")];
    let n = apply_in_block_standalone_callout_recovery(
        &mut blocks,
        &two_entries(),
        &decoded("held.", "12"),
        &[fit(false, false), fit(false, true)],
    );
    assert_eq!(n, 0);
    assert_eq!(blocks[1].text, "12");
}

#[test]
fn standalone_numbers_and_hosts() {
    assert_eq!(lm2_standalone_note_number(" 7 "), Some(7));
    assert_eq!(lm2_standalone_note_number("0"), None);
    assert_eq!(lm2_standalone_note_number("1000"), None);
    assert_eq!(lm2_standalone_note_number("7a"), None);
    assert!(lm2_can_host_callout("held.  "));
    assert!(lm2_can_host_callout("the \u{201d}"));
    assert!(!lm2_can_host_callout("page 4"));
    assert!(!lm2_can_host_callout("   "));
    let prev = line("a", 4, "held,");
    assert!(lm2_marker_can_attach_to_previous_line(&prev, true));
    assert!(!lm2_marker_can_attach_to_previous_line(&prev, false));
    let marker = line("b", 5, "12");
    assert!(lm2_should_attach_standalone_marker_to_current_block(
        LiquidBlockRole::Paragraph,
        LiquidBlockRole::Paragraph,
        Some(&prev),
        &marker,
        true,
    ));
    assert!(!lm2_should_attach_standalone_marker_to_current_block(
        LiquidBlockRole::Paragraph,
        LiquidBlockRole::Marginalia,
        Some(&prev),
        &marker,
        true,
    ));
    assert!(!lm2_should_attach_standalone_marker_to_current_block(
        LiquidBlockRole::Paragraph,
        LiquidBlockRole::Paragraph,
        None,
        &marker,
        true,
    ));
}
