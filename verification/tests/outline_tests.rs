use liquid2::outline::{
    lm2_heading_starts_new_outline_item, lm2_internal_outline_title_hint,
    lm2_lettered_list_item_start, lm2_lowercase_roman_outline_marker, lm2_numbered_run_in_body,
    lm2_outline_heading_role, lm2_roman_marker_value, lm2_starts_parenthesized_year,
    lm2_strip_leading_star_pagination, lm2_terse_lowercase_lettered_outline,
    lm2_terse_numeric_outline_text, lm2_title_case_numbered_outline,
};
use liquid2::types::LiquidSourceLineRef;
use liquid2::types::LiquidBlockRole;

#[test]
fn star_pagination_is_stripped() {
    assert_eq!(lm2_strip_leading_star_pagination("  *123 Title"), "Title");
    assert_eq!(lm2_strip_leading_star_pagination("*1 Title"), "*1 Title");
    assert_eq!(lm2_strip_leading_star_pagination("*12x"), "*12x");
    assert_eq!(lm2_strip_leading_star_pagination("  Plain"), "Plain");
}

#[test]
fn title_case_outline_allows_minor_words() {
    assert!(lm2_title_case_numbered_outline("1. The Law of Torts"));
    assert!(!lm2_title_case_numbered_outline("2. the law"));
    assert!(lm2_title_case_numbered_outline("3."));
}

#[test]
fn roman_values() {
    assert_eq!(lm2_roman_marker_value("iv"), Some(4));
    assert_eq!(lm2_roman_marker_value("XII"), Some(12));
    assert_eq!(lm2_roman_marker_value("iiv"), Some(3));
    assert_eq!(lm2_roman_marker_value("abc"), None);
    assert_eq!(lm2_roman_marker_value(""), None);
}

#[test]
fn lowercase_roman_outline_markers() {
    assert_eq!(lm2_lowercase_roman_outline_marker("iv. Remedies"), Some(4));
    assert_eq!(lm2_lowercase_roman_outline_marker("(ii) text"), Some(2));
    assert_eq!(lm2_lowercase_roman_outline_marker("IV. Remedies"), None);
    assert_eq!(lm2_lowercase_roman_outline_marker("iv Remedies"), None);
}

#[test]
fn numbered_run_in_body_after_heading() {
    assert_eq!(lm2_numbered_run_in_body("1. Heading. Body starts here"), Some("Body starts here"));
    assert_eq!(lm2_numbered_run_in_body("1. Heading. \u{2014} Body"), Some("Body"));
    assert_eq!(lm2_numbered_run_in_body("1. Heading. body lower"), None);
    assert_eq!(lm2_numbered_run_in_body("123. X. Y"), None);
    assert_eq!(lm2_numbered_run_in_body("1. No period"), None);
}

#[test]
fn outline_heading_roles() {
    assert_eq!(lm2_outline_heading_role("Introduction"), Some(LiquidBlockRole::Heading));
    assert_eq!(lm2_outline_heading_role("introduction"), None);
    assert_eq!(lm2_outline_heading_role("Part One"), Some(LiquidBlockRole::Heading));
    assert_eq!(lm2_outline_heading_role("II. Background Law"), Some(LiquidBlockRole::Heading));
    assert_eq!(lm2_outline_heading_role("1. Facts"), Some(LiquidBlockRole::Subheading));
    assert_eq!(lm2_outline_heading_role("1. facts"), None);
    assert_eq!(lm2_outline_heading_role("A. Scope"), Some(LiquidBlockRole::Subheading));
    assert_eq!(lm2_outline_heading_role("I. Scope"), Some(LiquidBlockRole::Heading));
    assert_eq!(lm2_outline_heading_role("Hello world"), None);
    assert!(lm2_heading_starts_new_outline_item("(B) Remedies"));
    assert!(!lm2_heading_starts_new_outline_item("Ordinary prose"));
}

#[test]
fn lettered_items_and_title_hints() {
    assert!(lm2_lettered_list_item_start("a. item"));
    assert!(lm2_lettered_list_item_start("  b) item"));
    assert!(!lm2_lettered_list_item_start("a item"));
    assert!(!lm2_lettered_list_item_start("ab. x"));
    assert!(!lm2_lettered_list_item_start("A. x"));
    assert!(lm2_internal_outline_title_hint("IV. Remedies"));
    assert!(lm2_internal_outline_title_hint("iv) x"));
    assert!(lm2_internal_outline_title_hint("(x)"));
    assert!(!lm2_internal_outline_title_hint("Part I."));
    assert!(!lm2_internal_outline_title_hint("IV Remedies"));
}

#[test]
fn parenthesized_years() {
    assert!(lm2_starts_parenthesized_year("(1999) Smith"));
    assert!(!lm2_starts_parenthesized_year("(1499) x"));
    assert!(!lm2_starts_parenthesized_year("(19a9) x"));
    assert!(!lm2_starts_parenthesized_year("1999"));
    assert!(!lm2_starts_parenthesized_year("(1999 x"));
}

#[test]
fn terse_numeric_labels() {
    assert!(lm2_terse_numeric_outline_text("3. The Remedy"));
    assert!(lm2_terse_numeric_outline_text("  *123 12) Standing Doctrine  "));
    assert!(!lm2_terse_numeric_outline_text("3. The Remedy."));
    assert!(!lm2_terse_numeric_outline_text("21. The Remedy"));
    assert!(!lm2_terse_numeric_outline_text("3 The Remedy"));
    assert!(!lm2_terse_numeric_outline_text("3. the remedy"));
    assert!(!lm2_terse_numeric_outline_text("3. Costs. Then more"));
    assert!(!lm2_terse_numeric_outline_text("3. Costs \u{2014} and fees"));
    assert!(!lm2_terse_numeric_outline_text("3."));
}

#[test]
fn terse_lettered_labels() {
    let row = |text: &str, markers: Vec<u16>| LiquidSourceLineRef {
        id: None,
        page_index: 0,
        line_index: 0,
        text: text.to_string(),
        role: LiquidBlockRole::Paragraph,
        note_markers: markers,
    };
    assert!(lm2_terse_lowercase_lettered_outline(&row("a. The Scope of Review", vec![])));
    assert!(!lm2_terse_lowercase_lettered_outline(&row("a. The Scope of Review", vec![3])));
    assert!(!lm2_terse_lowercase_lettered_outline(&row("a. the scope of review", vec![])));
    assert!(!lm2_terse_lowercase_lettered_outline(&row("ab. The Scope of Review", vec![])));
    assert!(!lm2_terse_lowercase_lettered_outline(&row("a The Scope of Review", vec![])));
    assert!(!lm2_terse_lowercase_lettered_outline(&row("A. The Scope of Review", vec![])));
    assert!(!lm2_terse_lowercase_lettered_outline(&row("a. Review", vec![])));
}
