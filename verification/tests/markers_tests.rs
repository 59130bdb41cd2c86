use liquid2::markers::{
    embedded_numeric_note_head_markers, insert_sorted_unique, leading_callout_marker_end,
    leading_sentineled_marker, lm2_link_text_contains_marker, lm2_local_ascii_callout_candidates, lm2_standalone_callout_block,
    lm2_strip_leading_ascii_or_decoded_callout, sentineled_note_head_markers_in_context,
};
use liquid2::types::{CALLOUT_END, CALLOUT_START};

fn enc(digits: &str) -> String {
    format!("{}{}{}", CALLOUT_START, digits, CALLOUT_END)
}

#[test]
fn leading_callout_end_counts_sentinels_and_digits() {
    assert_eq!(leading_callout_marker_end(&format!("{} text", enc("12"))), Some(4));
    assert_eq!(leading_callout_marker_end(&enc("1234")), Some(6));
}

#[test]
fn leading_callout_end_rejects_malformed_callouts() {
    assert_eq!(leading_callout_marker_end("12 text"), None);
    assert_eq!(leading_callout_marker_end(&enc("")), None);
    assert_eq!(leading_callout_marker_end(&enc("12345")), None);
    assert_eq!(leading_callout_marker_end(&enc("1a")), None);
    assert_eq!(leading_callout_marker_end(&format!(" {}", enc("3"))), None);
}

#[test]
fn leading_sentineled_marker_reads_note_numbers_in_range() {
    assert_eq!(leading_sentineled_marker(&format!("  {} Note", enc("12"))), Some(12));
    assert_eq!(leading_sentineled_marker(&enc("999")), Some(999));
    assert_eq!(leading_sentineled_marker(&enc("0")), None);
    assert_eq!(leading_sentineled_marker(&enc("1000")), None);
    assert_eq!(leading_sentineled_marker("12 plain"), None);
}

#[test]
fn standalone_callout_block_accepts_bare_numbers_and_callouts() {
    assert!(lm2_standalone_callout_block("  12 "));
    assert!(lm2_standalone_callout_block("+5"));
    assert!(lm2_standalone_callout_block(&enc("7")));
    assert!(!lm2_standalone_callout_block("1000"));
    assert!(!lm2_standalone_callout_block(&format!("{} x", enc("7"))));
    assert!(!lm2_standalone_callout_block("abc"));
    assert!(!lm2_standalone_callout_block(""));
}

#[test]
fn sentineled_heads_in_context_need_a_boundary_and_a_space() {
    let text = format!("{} First. {} Second", enc("3"), enc("4"));
    assert_eq!(sentineled_note_head_markers_in_context(&text), vec![3, 4]);
    let glued = format!("word{} x", enc("5"));
    assert_eq!(sentineled_note_head_markers_in_context(&glued), Vec::<u16>::new());
    let no_space = format!("{}x", enc("6"));
    assert_eq!(sentineled_note_head_markers_in_context(&no_space), Vec::<u16>::new());
    let out_of_range = format!("{} x", enc("0"));
    assert_eq!(sentineled_note_head_markers_in_context(&out_of_range), Vec::<u16>::new());
}

#[test]
fn ascii_callout_candidates_after_punctuation() {
    let c = lm2_local_ascii_callout_candidates("Sentence. 12 Next");
    assert_eq!(c.len(), 1);
    assert_eq!((c[0].start, c[0].end, c[0].marker, c[0].leading), (10, 12, 12, false));
}

#[test]
fn ascii_callout_candidates_leading_before_prose() {
    let c = lm2_local_ascii_callout_candidates("3 Leading prose");
    assert_eq!(c.len(), 1);
    assert_eq!((c[0].start, c[0].end, c[0].marker, c[0].leading), (0, 1, 3, true));
    assert!(lm2_local_ascii_callout_candidates("in 12 cases").is_empty());
    assert!(lm2_local_ascii_callout_candidates("Done. 1234 x").is_empty());
}

#[test]
fn embedded_heads_are_sorted_and_unique() {
    assert_eq!(embedded_numeric_note_head_markers("1. First note. 2. Second note."), vec![1, 2]);
    let mixed = format!("2. Later. {} Earlier", enc("1"));
    assert_eq!(embedded_numeric_note_head_markers(&mixed), vec![1, 2]);
    let twice = format!("4. Note. {} again", enc("4"));
    assert_eq!(embedded_numeric_note_head_markers(&twice), vec![4]);
}

#[test]
fn embedded_heads_skip_terminal_numbers() {
    assert_eq!(embedded_numeric_note_head_markers("See Dkt. No. 176."), Vec::<u16>::new());
}

#[test]
fn insert_sorted_unique_keeps_order_and_drops_repeats() {
    let mut v = vec![1u16, 5];
    insert_sorted_unique(&mut v, 3);
    assert_eq!(v, vec![1, 3, 5]);
    insert_sorted_unique(&mut v, 5);
    assert_eq!(v, vec![1, 3, 5]);
    insert_sorted_unique(&mut v, 0);
    assert_eq!(v, vec![0, 1, 3, 5]);
}

#[test]
fn strip_leading_callout_ascii_and_encoded() {
    assert_eq!(lm2_strip_leading_ascii_or_decoded_callout("12 Prose", 12), Some("Prose"));
    assert_eq!(lm2_strip_leading_ascii_or_decoded_callout("  12   x", 12), Some("x"));
    assert_eq!(lm2_strip_leading_ascii_or_decoded_callout("12Prose", 12), None);
    assert_eq!(lm2_strip_leading_ascii_or_decoded_callout("12 ", 12), None);
    let encoded = format!("{}  Prose", enc("12"));
    assert_eq!(lm2_strip_leading_ascii_or_decoded_callout(&encoded, 12), Some("Prose"));
    assert_eq!(lm2_strip_leading_ascii_or_decoded_callout(&encoded, 13), None);
    assert_eq!(lm2_strip_leading_ascii_or_decoded_callout(&format!("{} ", enc("12")), 12), None);
}

#[test]
fn stripped_remainder_never_starts_with_space() {
    for text in ["7   body", "7\tbody", " 7 body"] {
        let r = lm2_strip_leading_ascii_or_decoded_callout(text, 7).unwrap();
        assert!(!r.starts_with(char::is_whitespace));
        assert_eq!(r, "body");
    }
}

#[test]
fn link_text_marker_from_whole_digit_runs() {
    assert!(lm2_link_text_contains_marker("See id. at 12, n.7.", 7, &[]));
    assert!(lm2_link_text_contains_marker("See id. at 12, n.7.", 12, &[]));
    assert!(!lm2_link_text_contains_marker("See id. at 12, n.7.", 1, &[]));
    // A run of four digits is a year or a page, never a note number.
    assert!(!lm2_link_text_contains_marker("decided in 2019", 201, &[]));
    assert!(!lm2_link_text_contains_marker("decided in 2019", 19, &[]));
    // Leading zeros still read as the number.
    assert!(lm2_link_text_contains_marker("note 007", 7, &[]));
    assert!(!lm2_link_text_contains_marker("", 3, &[]));
}

#[test]
fn link_text_marker_from_encoded_callouts() {
    assert!(lm2_link_text_contains_marker("no digits here", 44, &[12, 44]));
    assert!(!lm2_link_text_contains_marker("no digits here", 45, &[12, 44]));
}
