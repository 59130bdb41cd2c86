use liquid2::sequence::{
    attached_page_sequence_ascii_range, callout_left_boundary, inferred_quote_boundary_range,
    match_priority, ocr_digit_matches, ocr_digit_sequence_range, page_sequence_callout_range,
    page_sequence_placeholder_range, partial_existing_sentinel_range,
    partial_page_sequence_digit_range, plausible_partial_existing_callout,
    remove_standalone_source_fragment, sequence_selection_priority,
    split_callout_fragment_completes_marker, split_existing_sentinel_range,
};
use liquid2::types::{PageSequenceMatchKind, CALLOUT_END, CALLOUT_START};

fn enc(digits: &str) -> String {
    format!("{}{}{}", CALLOUT_START, digits, CALLOUT_END)
}

#[test]
fn ocr_substitutes() {
    assert!(ocr_digit_matches('o', b'0'));
    assert!(ocr_digit_matches('l', b'1'));
    assert!(ocr_digit_matches('5', b'5'));
    assert!(ocr_digit_matches('s', b'8'));
    assert!(!ocr_digit_matches('x', b'8'));
}

#[test]
fn left_boundaries() {
    assert!(callout_left_boundary("word. 12", 6));
    assert!(!callout_left_boundary("word12", 4));
    assert!(callout_left_boundary("(12", 1));
    assert!(!callout_left_boundary("word 12", 5));
}

#[test]
fn ocr_sequence_range() {
    assert_eq!(ocr_digit_sequence_range("See note. l2 more", "12", 0), Some((10, 12)));
    assert_eq!(ocr_digit_sequence_range("See note. l2 more", "12", 11), None);
    assert_eq!(ocr_digit_sequence_range("See note. l2x", "12", 0), None);
}

#[test]
fn placeholder_and_inferred_quote() {
    assert_eq!(page_sequence_placeholder_range("He said.' Then", 0), Some((8, 9)));
    assert_eq!(page_sequence_placeholder_range("don't", 0), None);
    assert_eq!(inferred_quote_boundary_range("He said \"stop.\"  ", 0), Some(15));
    assert_eq!(inferred_quote_boundary_range("He said \"stop.\"  ", 20), None);
    assert_eq!(inferred_quote_boundary_range("He said stop.", 0), None);
}

#[test]
fn split_and_partial_sentinels() {
    let split = format!("x {} {} y", enc("1"), enc("2"));
    assert_eq!(split_existing_sentinel_range(&split, "12", 0), Some((2, 9)));
    assert_eq!(split_existing_sentinel_range(&split, "1", 0), None);
    let partial = format!("word{} more", enc("2"));
    assert_eq!(partial_existing_sentinel_range(&partial, "12", 0), Some((4, 7)));
    let decimal = format!("1.{}", enc("5"));
    assert!(!plausible_partial_existing_callout(&decimal, 2, 5));
    let bracketed = format!("({})", enc("5"));
    assert!(!plausible_partial_existing_callout(&bracketed, 1, 4));
    assert_eq!(partial_page_sequence_digit_range("held. 2 The", "12", 0), Some((6, 7)));
    assert_eq!(partial_page_sequence_digit_range("held. 2 The", "1", 0), None);
}

#[test]
fn attached_ascii_numbers() {
    assert_eq!(attached_page_sequence_ascii_range("law.12 next", "12", 0), Some((4, 6)));
    assert_eq!(attached_page_sequence_ascii_range("the 12", "12", 0), None);
    assert_eq!(attached_page_sequence_ascii_range("in 199912 x", "12", 0), Some((7, 9)));
    assert_eq!(attached_page_sequence_ascii_range("in 123412 x", "12", 0), None);
}

#[test]
fn priorities() {
    assert_eq!(match_priority(PageSequenceMatchKind::Existing), 0);
    assert_eq!(match_priority(PageSequenceMatchKind::Placeholder), 6);
    assert_eq!(sequence_selection_priority(PageSequenceMatchKind::OcrDigits, "ab l2", 3, 5), 2);
    assert_eq!(sequence_selection_priority(PageSequenceMatchKind::OcrDigits, "ab 12", 3, 5), 1);
    assert_eq!(sequence_selection_priority(PageSequenceMatchKind::Existing, "x", 0, 1), 0);
    assert_eq!(sequence_selection_priority(PageSequenceMatchKind::ExactAscii, "x", 0, 1), 1);
    assert_eq!(sequence_selection_priority(PageSequenceMatchKind::InferredQuoteBoundary, "x", 0, 0), 2);
    assert!(!PageSequenceMatchKind::Existing.replaces_text());
    assert!(PageSequenceMatchKind::OcrDigits.singleton_safe());
    assert!(!PageSequenceMatchKind::Placeholder.singleton_safe());
}

#[test]
fn page_sequence_prefers_existing_callouts() {
    let text = format!("Text {} more", enc("12"));
    assert_eq!(page_sequence_callout_range(&text, 12, 0), Some((5, 9, PageSequenceMatchKind::Existing)));
    let both = format!("held.12 and {}", enc("12"));
    assert_eq!(page_sequence_callout_range(&both, 12, 0), Some((12, 16, PageSequenceMatchKind::Existing)));
    let split = format!("a. {}{} b", enc("1"), enc("2"));
    assert_eq!(page_sequence_callout_range(&split, 12, 0), Some((3, 9, PageSequenceMatchKind::SplitExisting)));
    assert_eq!(page_sequence_callout_range("held.12 The", 12, 0), Some((5, 7, PageSequenceMatchKind::ExactAscii)));
    assert_eq!(page_sequence_callout_range("nothing here", 7, 0), None);
}

#[test]
fn page_sequence_match_stays_after_cursor() {
    let text = format!("{} early. held.3 late", enc("3"));
    let (a, b, kind) = page_sequence_callout_range(&text, 3, 4).unwrap();
    assert!(a >= 4 && b <= text.chars().count());
    assert_eq!(kind, PageSequenceMatchKind::ExactAscii);
}

#[test]
fn split_fragments_and_fragment_removal() {
    assert!(split_callout_fragment_completes_marker(" 1 ", "2", 12));
    assert!(!split_callout_fragment_completes_marker("1", "3", 12));
    assert!(!split_callout_fragment_completes_marker("12", "", 12));
    let mut t = String::from("  12 Body text");
    remove_standalone_source_fragment(&mut t, "12");
    assert_eq!(t, "Body text");
    let mut u = String::from("123 Body");
    remove_standalone_source_fragment(&mut u, "12");
    assert_eq!(u, "123 Body");
    let mut v = String::from("12 Body");
    remove_standalone_source_fragment(&mut v, "  ");
    assert_eq!(v, "12 Body");
}
