use liquid2::heads::{enrich_sequential_note_heads_within_block, lm2_leading_numeric_or_bare_marker};
use liquid2::types::{LiquidBlockRole, LiquidBlockSourceLines, LiquidSourceLineRef};

fn row(line_index: usize, text: &str, role: LiquidBlockRole, markers: Vec<u16>) -> LiquidSourceLineRef {
    LiquidSourceLineRef {
        id: Some(format!("r{line_index}")),
        page_index: 3,
        line_index,
        text: text.to_string(),
        role,
        note_markers: markers,
    }
}

use LiquidBlockRole::{Marginalia, Paragraph};

#[test]
fn leading_numbers() {
    assert_eq!(lm2_leading_numeric_or_bare_marker(" 12 ", None), Some(12));
    assert_eq!(lm2_leading_numeric_or_bare_marker("12 See id.", Some(12)), Some(12));
    assert_eq!(lm2_leading_numeric_or_bare_marker("12 See id.", None), None);
    assert_eq!(lm2_leading_numeric_or_bare_marker("0", None), None);
    assert_eq!(lm2_leading_numeric_or_bare_marker("1000", Some(4)), Some(4));
}

#[test]
fn next_head_after_a_closed_note_is_recovered() {
    let mut source = LiquidBlockSourceLines {
        block_index: 2,
        lines: vec![
            row(10, "\u{E000}7\u{E001} See Smith, supra.", Marginalia, vec![7]),
            row(11, "8 Id. at 12", Marginalia, vec![]),
            row(12, "continued text", Marginalia, vec![]),
            row(13, "9 Id.", Marginalia, vec![]),
        ],
    };
    let n = enrich_sequential_note_heads_within_block(&mut source, &[None, Some(8), None, Some(9)]);
    // Row 13 follows a row that does not end a sentence.
    assert_eq!(n, 1);
    assert_eq!(source.block_index, 2);
    assert_eq!(source.lines[0].note_markers, vec![7]);
    assert_eq!(source.lines[1].note_markers, vec![8]);
    assert!(source.lines[3].note_markers.is_empty());
    assert_eq!(source.lines[1].text, "8 Id. at 12");
}

#[test]
fn recovered_heads_chain_and_breaks() {
    let rows = vec![
        row(10, "\u{E000}7\u{E001} Id.", Marginalia, vec![7]),
        row(11, "8 Id.", Marginalia, vec![]),
        row(12, "9 Id.", Marginalia, vec![]),
    ];
    let mut source = LiquidBlockSourceLines { block_index: 0, lines: rows.clone() };
    let n = enrich_sequential_note_heads_within_block(&mut source, &[None, Some(8), Some(9)]);
    assert_eq!(n, 2);
    assert_eq!(source.lines[2].note_markers, vec![9]);

    // A body row ends the run of note rows.
    let mut broken = rows.clone();
    broken[1] = row(11, "Body.", Paragraph, vec![]);
    let mut source = LiquidBlockSourceLines { block_index: 0, lines: broken };
    assert_eq!(enrich_sequential_note_heads_within_block(&mut source, &[None, None, Some(9)]), 0);

    // Too far below the last head, or the wrong number.
    let far = vec![row(10, "\u{E000}7\u{E001} Id.", Marginalia, vec![7]), row(19, "8 Id.", Marginalia, vec![])];
    let mut source = LiquidBlockSourceLines { block_index: 0, lines: far };
    assert_eq!(enrich_sequential_note_heads_within_block(&mut source, &[None, Some(8)]), 0);
    let mut source = LiquidBlockSourceLines { block_index: 0, lines: rows };
    assert_eq!(enrich_sequential_note_heads_within_block(&mut source, &[None, Some(9), None]), 0);
}

#[test]
fn a_bare_number_row_is_read_from_its_text() {
    let mut source = LiquidBlockSourceLines {
        block_index: 1,
        lines: vec![
            row(10, "\u{E000}7\u{E001} See id.", Marginalia, vec![7]),
            row(11, "8", Marginalia, vec![]),
        ],
    };
    assert_eq!(enrich_sequential_note_heads_within_block(&mut source, &[None, None]), 1);
    assert_eq!(source.lines[1].note_markers, vec![8]);
}
