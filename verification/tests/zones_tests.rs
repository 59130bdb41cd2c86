use liquid2::types::{
    LiquidBlock, LiquidBlockRole, LiquidBlockSourceLines, LiquidSourceLineRef, CALLOUT_END,
    CALLOUT_START,
};
use liquid2::zones::apply_sentineled_marginalia_page_zone_recovery;

fn enc(n: u16) -> String {
    format!("{}{}{}", CALLOUT_START, n, CALLOUT_END)
}

fn row(page: usize, line: usize, text: &str, role: LiquidBlockRole) -> LiquidSourceLineRef {
    LiquidSourceLineRef {
        id: None,
        page_index: page,
        line_index: line,
        text: text.to_string(),
        role,
        note_markers: Vec::new(),
    }
}

fn block(role: LiquidBlockRole) -> LiquidBlock {
    LiquidBlock { role, text: "t".to_string(), label: Some("l".to_string()) }
}

fn scenario(second_head: u16) -> (Vec<LiquidBlock>, Vec<LiquidBlockSourceLines>) {
    let blocks = vec![
        block(LiquidBlockRole::Marginalia),
        block(LiquidBlockRole::Paragraph),
        block(LiquidBlockRole::Paragraph),
        block(LiquidBlockRole::Heading),
    ];
    let sources = vec![
        LiquidBlockSourceLines { block_index: 0, lines: vec![row(3, 10, &format!("{} First note.", enc(4)), LiquidBlockRole::Marginalia)] },
        LiquidBlockSourceLines { block_index: 1, lines: vec![row(3, 11, &format!("{} Second note.", enc(second_head)), LiquidBlockRole::Marginalia)] },
        LiquidBlockSourceLines { block_index: 2, lines: vec![row(3, 12, "continued text", LiquidBlockRole::Paragraph)] },
        LiquidBlockSourceLines { block_index: 3, lines: vec![row(3, 13, "Heading", LiquidBlockRole::Heading)] },
    ];
    (blocks, sources)
}

#[test]
fn consecutive_heads_open_a_footnote_zone() {
    let (mut blocks, mut sources) = scenario(5);
    let repaired = apply_sentineled_marginalia_page_zone_recovery(&mut blocks, &mut sources);
    assert_eq!(repaired, 2);
    let roles: Vec<LiquidBlockRole> = blocks.iter().map(|b| b.role).collect();
    assert_eq!(roles, vec![LiquidBlockRole::Marginalia, LiquidBlockRole::Marginalia, LiquidBlockRole::Marginalia, LiquidBlockRole::Heading]);
    assert_eq!(blocks[0].label, Some("l".to_string()));
    assert_eq!(blocks[1].label, None);
    assert_eq!(blocks[3].label, Some("l".to_string()));
    assert_eq!(sources[0].lines[0].note_markers, vec![4]);
    assert_eq!(sources[1].lines[0].note_markers, vec![5]);
    assert_eq!(sources[2].lines[0].role, LiquidBlockRole::Marginalia);
    assert!(sources[2].lines[0].note_markers.is_empty());
    assert_eq!(sources[3].lines[0].role, LiquidBlockRole::Heading);
}

#[test]
fn heads_that_are_not_consecutive_open_no_zone() {
    let (mut blocks, mut sources) = scenario(6);
    assert_eq!(apply_sentineled_marginalia_page_zone_recovery(&mut blocks, &mut sources), 0);
    assert_eq!(blocks[1].role, LiquidBlockRole::Paragraph);
    assert_eq!(blocks[2].role, LiquidBlockRole::Paragraph);
    assert!(sources[0].lines[0].note_markers.is_empty());
}

#[test]
fn unbacked_noise_stays_noise() {
    let (mut blocks, mut sources) = scenario(5);
    blocks[2].role = LiquidBlockRole::Noise;
    assert_eq!(apply_sentineled_marginalia_page_zone_recovery(&mut blocks, &mut sources), 1);
    assert_eq!(blocks[2].role, LiquidBlockRole::Noise);
    assert_eq!(sources[2].lines[0].role, LiquidBlockRole::Paragraph);
}

#[test]
fn rows_above_the_zone_are_left_alone() {
    let (mut blocks, mut sources) = scenario(5);
    sources[2].lines[0].line_index = 2;
    assert_eq!(apply_sentineled_marginalia_page_zone_recovery(&mut blocks, &mut sources), 1);
    assert_eq!(blocks[2].role, LiquidBlockRole::Paragraph);
}

#[test]
fn existing_markers_merge_with_heads() {
    let (mut blocks, mut sources) = scenario(5);
    sources[0].lines[0].note_markers = vec![9, 4, 1];
    apply_sentineled_marginalia_page_zone_recovery(&mut blocks, &mut sources);
    assert_eq!(sources[0].lines[0].note_markers, vec![1, 4, 9]);
}

#[test]
fn a_second_run_changes_nothing_here() {
    let (mut blocks, mut sources) = scenario(5);
    sources[0].lines[0].note_markers = vec![9, 4, 1];
    assert_eq!(apply_sentineled_marginalia_page_zone_recovery(&mut blocks, &mut sources), 2);
    let markers: Vec<Vec<u16>> = sources.iter().map(|s| s.lines[0].note_markers.clone()).collect();
    assert_eq!(apply_sentineled_marginalia_page_zone_recovery(&mut blocks, &mut sources), 0);
    let again: Vec<Vec<u16>> = sources.iter().map(|s| s.lines[0].note_markers.clone()).collect();
    assert_eq!(markers, again);
    assert_eq!(markers[0], vec![1, 4, 9]);
}
