use liquid2::lines::{
    find_line_by_id, line_for_source_row, lm2_final_caption_source_line,
    lm2_hard_body_display_line, lm2_lowercase_roman_heading_source, lm2_mark_front_abstract_run,
    str_eq_ignore_ascii_case,
};
use liquid2::types::{LiquidBlockRole, LiquidSourceLineRef, Lm2Action, Lm2SourceLine};

fn line(id: &str, text: &str) -> Lm2SourceLine {
    Lm2SourceLine {
        id: id.to_string(),
        page_index: 0,
        line_index: 0,
        text: text.to_string(),
        role_hint: None,
        segment_block_id: 0,
        segment_block_line_index: 0,
        segment_block_shape: String::new(),
        segment_block_footnote_like: false,
        segment_block_table_like: false,
        segment_block_furniture_like: false,
        segment_block_toc_like: false,
        in_footnote_zone: false,
        below_footnote_divider: false,
        doc_footnote_state: false,
        doc_footnote_continuation: false,
        in_ruled_cell: false,
        ruled_row_membership_exact: false,
        page_table_column_like: false,
        page_object_overlaps_image_bbox: false,
        page_object_hide_candidate: false,
        page_object_ruled_row_membership: false,
        bold: false,
        centered: false,
        margin_centered: false,
        small_note_font: false,
    }
}

fn row(id: Option<&str>, text: &str, markers: Vec<u16>) -> LiquidSourceLineRef {
    LiquidSourceLineRef {
        id: id.map(|s| s.to_string()),
        page_index: 0,
        line_index: 0,
        text: text.to_string(),
        role: LiquidBlockRole::Heading,
        note_markers: markers,
    }
}

#[test]
fn ascii_case_insensitive_equality() {
    assert!(str_eq_ignore_ascii_case("Body", "bODY"));
    assert!(!str_eq_ignore_ascii_case("Body", "Bod"));
    assert!(!str_eq_ignore_ascii_case("\u{c9}", "\u{e9}"));
}

#[test]
fn hard_body_display_lines() {
    let mut l = line("a", "text");
    l.segment_block_id = 3;
    l.segment_block_shape = "BODY".to_string();
    assert!(lm2_hard_body_display_line(&l));
    let mut z = l.clone();
    z.in_footnote_zone = true;
    assert!(!lm2_hard_body_display_line(&z));
    let mut n = l.clone();
    n.segment_block_id = 0;
    assert!(!lm2_hard_body_display_line(&n));
    let mut m = l.clone();
    m.segment_block_shape = "mixed".to_string();
    assert!(!lm2_hard_body_display_line(&m));
}

#[test]
fn caption_source_lines() {
    let l = line("a", "Figure 1:");
    assert!(lm2_final_caption_source_line(&l));
    let mut t = l.clone();
    t.segment_block_table_like = true;
    assert!(!lm2_final_caption_source_line(&t));
    let mut d = l.clone();
    d.below_footnote_divider = true;
    assert!(!lm2_final_caption_source_line(&d));
}

#[test]
fn ids_resolve_to_the_last_line_that_carries_them() {
    let decoded = vec![
        (line("a", "first"), Lm2Action::Keep),
        (line("b", "other"), Lm2Action::Keep),
        (line("a", "second"), Lm2Action::Marginalia),
    ];
    assert_eq!(find_line_by_id(&decoded, &"a".to_string()), Some(2));
    assert_eq!(find_line_by_id(&decoded, &"c".to_string()), None);
    let r = row(Some("a"), "x", vec![]);
    assert_eq!(line_for_source_row(&decoded, &r).unwrap().text, "second");
    assert!(line_for_source_row(&decoded, &row(None, "x", vec![])).is_none());
}

#[test]
fn lowercase_roman_heading_sources() {
    let mut h = line("x", "iv. Remedies");
    h.segment_block_shape = "heading".to_string();
    h.bold = true;
    h.centered = true;
    let decoded = vec![(h.clone(), Lm2Action::Keep)];
    assert!(lm2_lowercase_roman_heading_source(&row(Some("x"), "iv. Remedies", vec![]), &decoded));
    assert!(!lm2_lowercase_roman_heading_source(&row(Some("x"), "iv. Remedies", vec![4]), &decoded));
    assert!(!lm2_lowercase_roman_heading_source(&row(Some("x"), "Remedies", vec![]), &decoded));
    assert!(!lm2_lowercase_roman_heading_source(&row(Some("y"), "iv. Remedies", vec![]), &decoded));
    let mut plain = h.clone();
    plain.bold = false;
    let decoded2 = vec![(plain, Lm2Action::Keep)];
    assert!(!lm2_lowercase_roman_heading_source(&row(Some("x"), "iv. Remedies", vec![]), &decoded2));
}

#[test]
fn front_abstract_runs_are_kept_as_abstract() {
    let mut decoded = vec![
        (line("a", "x"), Lm2Action::HideNoise),
        (line("b", "y"), Lm2Action::Marginalia),
        (line("c", "z"), Lm2Action::HideNoise),
    ];
    lm2_mark_front_abstract_run(&mut decoded, &[0, 2, 0]);
    assert_eq!(decoded[0].1, Lm2Action::Keep);
    assert_eq!(decoded[0].0.role_hint, Some(LiquidBlockRole::Abstract));
    assert_eq!(decoded[1].1, Lm2Action::Marginalia);
    assert_eq!(decoded[1].0.role_hint, None);
    assert_eq!(decoded[2].1, Lm2Action::Keep);
    assert_eq!(decoded[2].0.text, "z");
}
