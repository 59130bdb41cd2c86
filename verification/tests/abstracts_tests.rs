use liquid2::abstracts::{
    apply_front_matter_abstract_recovery, lm2_front_abstract_hard_break,
    lm2_front_abstract_note_start, lm2_front_abstract_run_is_plausible, Lm2FrontTextCues,
};
use liquid2::types::{LiquidBlockRole, Lm2Action, Lm2SourceLine};

fn line(line_index: usize, page_index: usize, text: &str) -> Lm2SourceLine {
    Lm2SourceLine {
        id: format!("l{line_index}"),
        page_index,
        line_index,
        text: text.to_string(),
        role_hint: None,
        segment_block_id: 0,
        segment_block_line_index: 0,
        segment_block_shape: String::new(),
        segment_block_footnote_like: false,
        segment_block_table_like: false,
        segment_block_furniture_like: false,
        segment_block_toc_like: false,
        in_footnote_zone: false,
        below_footnote_divider: false,
        doc_footnote_state: false,
        doc_footnote_continuation: false,
        in_ruled_cell: false,
        ruled_row_membership_exact: false,
        page_table_column_like: false,
        page_object_overlaps_image_bbox: false,
        page_object_hide_candidate: false,
        page_object_ruled_row_membership: false,
        bold: false,
        centered: false,
        margin_centered: false,
        small_note_font: true,
    }
}

fn plain() -> Lm2FrontTextCues {
    Lm2FrontTextCues {
        introduction: false,
        note_block_start: false,
        note_start: false,
        dot_leader: false,
        production_slug: false,
    }
}

const PROSE: &str = "this article argues that the doctrine of standing has drifted far from its origins";

/// Eight twelve-word prose lines on page 0, `marginalia` of them routed to
/// Marginalia, then the introduction's heading.
fn front(marginalia: usize) -> (Vec<(Lm2SourceLine, Lm2Action)>, Vec<Lm2FrontTextCues>) {
    let mut decoded = Vec::new();
    let mut cues = Vec::new();
    for i in 0..8 {
        let action = if i < marginalia { Lm2Action::Marginalia } else { Lm2Action::Keep };
        decoded.push((line(i, 0, PROSE), action));
        cues.push(plain());
    }
    decoded.push((line(8, 0, "INTRODUCTION"), Lm2Action::Keep));
    cues.push(Lm2FrontTextCues { introduction: true, ..plain() });
    (decoded, cues)
}

#[test]
fn a_long_small_font_run_becomes_the_abstract() {
    let (mut decoded, cues) = front(3);
    apply_front_matter_abstract_recovery(&mut decoded, &cues);
    for (line, action) in &decoded[..8] {
        assert_eq!(*action, Lm2Action::Keep);
        assert_eq!(line.role_hint, Some(LiquidBlockRole::Abstract));
    }
    assert_eq!(decoded[8].0.role_hint, None);
}

#[test]
fn too_few_marginalia_lines_change_nothing() {
    let (mut decoded, cues) = front(2);
    apply_front_matter_abstract_recovery(&mut decoded, &cues);
    assert_eq!(decoded[0].1, Lm2Action::Marginalia);
    assert!(decoded.iter().all(|(line, _)| line.role_hint.is_none()));
}

#[test]
fn a_short_author_mark_line_above_the_abstract_stays_a_note() {
    let (mut decoded, mut cues) = front(3);
    decoded.insert(0, (line(40, 0, "\u{2020} Jane Doe"), Lm2Action::Marginalia));
    cues.insert(0, plain());
    apply_front_matter_abstract_recovery(&mut decoded, &cues);
    assert_eq!(decoded[0].0.role_hint, None);
    assert_eq!(decoded[0].1, Lm2Action::Marginalia);
    assert_eq!(decoded[1].0.role_hint, Some(LiquidBlockRole::Abstract));
    assert_eq!(decoded[1].1, Lm2Action::Keep);
}

#[test]
fn an_author_note_inside_the_run_breaks_it() {
    let (mut decoded, mut cues) = front(3);
    decoded.insert(4, (line(40, 0, "\u{2020} Jane Doe"), Lm2Action::Marginalia));
    cues.insert(4, plain());
    apply_front_matter_abstract_recovery(&mut decoded, &cues);
    assert!(decoded.iter().all(|(line, _)| line.role_hint.is_none()));
}

#[test]
fn lines_past_page_two_are_not_abstract() {
    let (mut decoded, cues) = front(3);
    for (line, _) in decoded.iter_mut() {
        line.page_index = 2;
    }
    apply_front_matter_abstract_recovery(&mut decoded, &cues);
    assert_eq!(decoded[0].1, Lm2Action::Marginalia);
}

#[test]
fn front_note_marks_and_breaks() {
    let cues = plain();
    assert!(lm2_front_abstract_note_start(&line(0, 0, "  * Professor of Law"), &cues));
    assert!(lm2_front_abstract_note_start(&line(0, 0, "\u{2021} Thanks to"), &cues));
    assert!(!lm2_front_abstract_note_start(&line(0, 0, "Professor of Law"), &cues));
    assert!(lm2_front_abstract_note_start(&line(0, 0, "Professor"), &Lm2FrontTextCues { note_start: true, ..cues }));
    let mut heading = line(0, 0, "Standing");
    heading.role_hint = Some(LiquidBlockRole::Heading);
    assert!(lm2_front_abstract_hard_break(&heading, &cues));
    assert!(!lm2_front_abstract_hard_break(&line(0, 0, "Standing"), &cues));
    assert!(lm2_front_abstract_hard_break(&line(0, 0, "Contents"), &Lm2FrontTextCues { dot_leader: true, ..cues }));
}

#[test]
fn plausibility_counts_words_and_marginalia() {
    let (decoded, _) = front(3);
    assert!(lm2_front_abstract_run_is_plausible(&decoded, &[0, 1, 2, 3, 4, 5, 6, 7]));
    assert!(!lm2_front_abstract_run_is_plausible(&decoded, &[0, 1, 2, 3, 4, 5]));
    assert!(!lm2_front_abstract_run_is_plausible(&decoded, &[3, 4, 5, 6, 7, 3, 4, 5, 6, 7]));
}
