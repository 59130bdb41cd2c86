use liquid2::priors::{
    apply_anchored_marginalia_flow_guard, hard_marginalia_anchor, small_font_note_evidence,
    Lm2NoteEvidence,
};
use liquid2::types::Lm2Action::{HideNoise, Keep, Marginalia};
use liquid2::types::Lm2SourceLine;

fn line(line_index: usize) -> Lm2SourceLine {
    Lm2SourceLine {
        id: format!("l{line_index}"),
        page_index: 0,
        line_index,
        text: String::new(),
        role_hint: None,
        segment_block_id: 0,
        segment_block_line_index: 0,
        segment_block_shape: String::new(),
        segment_block_footnote_like: false,
        segment_block_table_like: false,
        segment_block_furniture_like: false,
        segment_block_toc_like: false,
        in_footnote_zone: false,
        below_footnote_divider: false,
        doc_footnote_state: false,
        doc_footnote_continuation: false,
        in_ruled_cell: false,
        ruled_row_membership_exact: false,
        page_table_column_like: false,
        page_object_overlaps_image_bbox: false,
        page_object_hide_candidate: false,
        page_object_ruled_row_membership: false,
        bold: false,
        centered: false,
        margin_centered: false,
        small_note_font: false,
    }
}

fn none() -> Lm2NoteEvidence {
    Lm2NoteEvidence {
        note_start: false,
        legal_note_cue: false,
        marginalia_block_start: false,
        page_has_footnote_divider: false,
        doc_note_marker: 0,
        doc_note_marker_mid_sequence_page: false,
        doc_note_marker_follows_previous_page: false,
    }
}

fn anchor() -> Lm2NoteEvidence {
    Lm2NoteEvidence { note_start: true, ..none() }
}

fn guard(anchors: &[bool], path: &mut Vec<liquid2::types::Lm2Action>) {
    let lines: Vec<Lm2SourceLine> = (0..anchors.len()).map(line).collect();
    let evidence: Vec<Lm2NoteEvidence> =
        anchors.iter().map(|a| if *a { anchor() } else { none() }).collect();
    apply_anchored_marginalia_flow_guard(&lines, &evidence, path);
}

#[test]
fn anchored_runs_keep_two_followers() {
    let mut path = vec![Marginalia, Marginalia, Marginalia, Marginalia, Keep, Marginalia];
    guard(&[true, false, false, false, false, false], &mut path);
    assert_eq!(path, vec![Marginalia, Marginalia, Marginalia, Keep, Keep, Keep]);
}

#[test]
fn unanchored_marginalia_becomes_body() {
    let mut path = vec![Marginalia, Marginalia, HideNoise];
    guard(&[false, true, false], &mut path);
    assert_eq!(path, vec![Keep, Marginalia, HideNoise]);
}

#[test]
fn actions_past_the_last_line_are_untouched() {
    let mut path = vec![Marginalia, Marginalia];
    guard(&[false], &mut path);
    assert_eq!(path, vec![Keep, Marginalia]);
}

#[test]
fn a_new_anchor_restarts_the_count() {
    let mut path = vec![Marginalia; 7];
    guard(&[true, false, false, true, false, false, false], &mut path);
    assert_eq!(path, vec![Marginalia, Marginalia, Marginalia, Marginalia, Marginalia, Marginalia, Keep]);
}

#[test]
fn layout_facts_and_text_readings_anchor() {
    let plain = line(0);
    assert!(!small_font_note_evidence(&plain, &none()));
    assert!(!hard_marginalia_anchor(&plain, &none()));
    let mut below = line(1);
    below.below_footnote_divider = true;
    assert!(hard_marginalia_anchor(&below, &none()));
    let mut state = line(2);
    state.doc_footnote_state = true;
    assert!(small_font_note_evidence(&state, &none()));
    let numbered = Lm2NoteEvidence { doc_note_marker: 4, ..none() };
    assert!(small_font_note_evidence(&plain, &numbered));
    let block_start = Lm2NoteEvidence { marginalia_block_start: true, ..none() };
    assert!(!small_font_note_evidence(&plain, &block_start));
    assert!(hard_marginalia_anchor(&plain, &block_start));
}

#[test]
fn a_divider_line_anchors_its_run() {
    let mut lines = vec![line(0), line(1), line(2), line(3)];
    lines[0].below_footnote_divider = true;
    let evidence = vec![none(); 4];
    let mut path = vec![Marginalia; 4];
    apply_anchored_marginalia_flow_guard(&lines, &evidence, &mut path);
    assert_eq!(path, vec![Marginalia, Marginalia, Marginalia, Keep]);
}
