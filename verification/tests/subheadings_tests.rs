use liquid2::subheadings::apply_sandwiched_numbered_outline_recovery;
use liquid2::types::{LiquidBlock, LiquidBlockRole, LiquidBlockSourceLines, LiquidSourceLineRef};

fn entry(block_index: usize, line_index: usize, text: &str, role: LiquidBlockRole, markers: Vec<u16>) -> LiquidBlockSourceLines {
    LiquidBlockSourceLines {
        block_index,
        lines: vec![LiquidSourceLineRef {
            id: Some(format!("l{line_index}")),
            page_index: 4,
            line_index,
            text: text.to_string(),
            role,
            note_markers: markers,
        }],
    }
}

fn case(heading: &str, marker: u16, next_line: usize) -> (Vec<LiquidBlock>, Vec<LiquidBlockSourceLines>) {
    let blocks = vec![
        LiquidBlock { role: LiquidBlockRole::Paragraph, text: "The court held otherwise.".to_string(), label: None },
        LiquidBlock { role: LiquidBlockRole::Marginalia, text: heading.to_string(), label: None },
        LiquidBlock { role: LiquidBlockRole::Paragraph, text: "Turning to the record,".to_string(), label: None },
    ];
    let sources = vec![
        entry(0, 9, "The court held otherwise.", LiquidBlockRole::Paragraph, vec![]),
        entry(1, 10, heading, LiquidBlockRole::Marginalia, vec![marker]),
        entry(2, next_line, "Turning to the record,", LiquidBlockRole::Paragraph, vec![]),
    ];
    (blocks, sources)
}

#[test]
fn a_numbered_heading_between_paragraphs_is_recovered() {
    let (mut blocks, mut sources) = case("1. The Law of Torts", 1, 11);
    assert_eq!(apply_sandwiched_numbered_outline_recovery(&mut blocks, &mut sources), 1);
    assert_eq!(blocks[1].role, LiquidBlockRole::Subheading);
    assert_eq!(blocks[1].text, "1. The Law of Torts");
    assert_eq!(blocks[0].role, LiquidBlockRole::Paragraph);
    assert_eq!(sources[1].lines[0].role, LiquidBlockRole::Subheading);
    assert!(sources[1].lines[0].note_markers.is_empty());
    assert_eq!(sources[0].lines[0].role, LiquidBlockRole::Paragraph);
}

#[test]
fn a_gap_after_the_heading_keeps_the_note() {
    let (mut blocks, mut sources) = case("1. The Law of Torts", 1, 12);
    assert_eq!(apply_sandwiched_numbered_outline_recovery(&mut blocks, &mut sources), 0);
    assert_eq!(blocks[1].role, LiquidBlockRole::Marginalia);
    assert_eq!(sources[1].lines[0].note_markers, vec![1]);
}

#[test]
fn large_numbers_and_short_or_lowercase_text_keep_the_note() {
    let (mut blocks, mut sources) = case("1. The Law of Torts", 21, 11);
    assert_eq!(apply_sandwiched_numbered_outline_recovery(&mut blocks, &mut sources), 0);
    let (mut blocks, mut sources) = case("1. Facts", 1, 11);
    assert_eq!(apply_sandwiched_numbered_outline_recovery(&mut blocks, &mut sources), 0);
    let (mut blocks, mut sources) = case("1. the law of torts", 1, 11);
    assert_eq!(apply_sandwiched_numbered_outline_recovery(&mut blocks, &mut sources), 0);
}

#[test]
fn fewer_than_three_blocks_are_left_alone() {
    let (mut blocks, mut sources) = case("1. The Law of Torts", 1, 11);
    blocks.truncate(2);
    sources.truncate(2);
    assert_eq!(apply_sandwiched_numbered_outline_recovery(&mut blocks, &mut sources), 0);
}
