use liquid2::context::{
    lm2_context_action_for_role, lm2_context_action_index, lm2_context_has_dotleader,
    lm2_context_has_substantive_text, lm2_context_norm_path, lm2_context_note_start,
    lm2_context_text_shape,
    looks_like_small_font_page_furniture, most_common_lm2_context_action,
};
use liquid2::types::{LiquidBlockRole, Lm2Action};
use liquid2::types::Lm2Action::{HideNoise, Keep, Marginalia};

#[test]
fn action_indices_and_role_actions() {
    assert_eq!(lm2_context_action_index(Lm2Action::HideNoise), 0);
    assert_eq!(lm2_context_action_index(Lm2Action::Keep), 1);
    assert_eq!(lm2_context_action_index(Lm2Action::Marginalia), 2);
    assert_eq!(lm2_context_action_for_role(LiquidBlockRole::Caption), Lm2Action::HideNoise);
    assert_eq!(lm2_context_action_for_role(LiquidBlockRole::Footnote), Lm2Action::Marginalia);
    assert_eq!(lm2_context_action_for_role(LiquidBlockRole::Paragraph), Lm2Action::Keep);
}

#[test]
fn majority_action_with_ties_to_the_later_class() {
    assert_eq!(most_common_lm2_context_action(&[Keep, Keep, HideNoise]), Some(Keep));
    assert_eq!(most_common_lm2_context_action(&[]), Some(Marginalia));
    assert_eq!(most_common_lm2_context_action(&[Keep, Marginalia]), Some(Marginalia));
    assert_eq!(most_common_lm2_context_action(&[HideNoise, Keep]), Some(Keep));
    assert_eq!(most_common_lm2_context_action(&[HideNoise, HideNoise, Marginalia]), Some(HideNoise));
}

#[test]
fn majority_is_never_outnumbered() {
    let window = [Marginalia, Keep, Keep, HideNoise, Keep, Marginalia];
    let winner = most_common_lm2_context_action(&window).unwrap();
    let count = |a: Lm2Action| window.iter().filter(|x| **x == a).count();
    for a in [HideNoise, Keep, Marginalia] {
        assert!(count(winner) >= count(a));
    }
}

#[test]
fn dot_leaders_and_substantive_text() {
    assert!(lm2_context_has_dotleader("Contents ....... 5"));
    assert!(lm2_context_has_dotleader("a\u{2026}b"));
    assert!(lm2_context_has_dotleader("x \u{b7}\u{b7}\u{b7} 4"));
    assert!(!lm2_context_has_dotleader("a. b"));
    assert!(!lm2_context_has_substantive_text("123 ..."));
    assert!(lm2_context_has_substantive_text("12 \u{e9}"));
}

#[test]
fn path_keys() {
    assert_eq!(lm2_context_norm_path("  C:\\Docs\\File.PDF "), "c:/docs/file.pdf");
    assert_eq!(lm2_context_norm_path(""), "");
}

#[test]
fn note_start_shapes() {
    assert!(lm2_context_note_start("12 Note"));
    assert!(lm2_context_note_start("(12) Note"));
    assert!(lm2_context_note_start("12) Note"));
    assert!(lm2_context_note_start("  * note"));
    assert!(lm2_context_note_start("\u{a7} 5"));
    assert!(lm2_context_note_start("a) item"));
    assert!(!lm2_context_note_start("12345 x"));
    assert!(!lm2_context_note_start("a. item"));
    assert!(!lm2_context_note_start("Note"));
    assert!(!lm2_context_note_start("12"));
    assert!(!lm2_context_note_start(""));
}

#[test]
fn small_font_furniture() {
    assert!(looks_like_small_font_page_furniture("page 12"));
    assert!(!looks_like_small_font_page_furniture("page twelve"));
    assert!(!looks_like_small_font_page_furniture("page"));
    assert!(looks_like_small_font_page_furniture("copyright 2020 x"));
    assert!(looks_like_small_font_page_furniture("see https://x"));
    assert!(looks_like_small_font_page_furniture(" vol. 3"));
    assert!(looks_like_small_font_page_furniture("[vol. 3"));
    assert!(looks_like_small_font_page_furniture("received: jan revised: feb"));
    assert!(!looks_like_small_font_page_furniture("received: jan"));
    assert!(looks_like_small_font_page_furniture("mail me@x.org"));
    assert!(!looks_like_small_font_page_furniture("   "));
    assert!(!looks_like_small_font_page_furniture("ordinary note text"));
}

#[test]
fn text_shape_of_prose() {
    let s = lm2_context_text_shape("See 42 U.S.C. \u{a7}1983 (2018).");
    assert_eq!(s.char_count, 27);
    // "See", "42", "U", "S", "C", "\u{a7}1983", "2018"
    assert_eq!(s.token_count, 7);
    assert_eq!(s.letter_count, 6);
    assert_eq!(s.upper_count, 4);
    assert_eq!(s.digit_count, 10);
    assert!(!s.short_text);
    assert!(!s.numeric_or_roman);
    assert!(!s.allcaps);
    assert!(!s.dotleader);
    assert!(!s.note_start);
}

#[test]
fn text_shape_of_numerals_and_headings() {
    let roman = lm2_context_text_shape("XIV");
    assert!(roman.numeric_or_roman);
    assert!(roman.short_text);
    assert_eq!(roman.token_count, 1);
    assert!(!lm2_context_text_shape("").numeric_or_roman);
    assert!(!lm2_context_text_shape("123456789").numeric_or_roman);
    assert!(!lm2_context_text_shape("12 3").numeric_or_roman);

    let heading = lm2_context_text_shape("INTRODUCTION AND OVERVIEW");
    assert!(heading.allcaps);
    assert_eq!(heading.letter_count, 23);
    assert!(heading.short_text);
    assert!(!lm2_context_text_shape("INTRO").allcaps);

    let toc = lm2_context_text_shape("12 Introduction ....... 3");
    assert!(toc.dotleader);
    assert!(toc.note_start);
    assert!(toc.short_text);
    assert!(!lm2_context_text_shape("one two three four five six seven eight nine").short_text);
    assert!(lm2_context_text_shape("Part I").short_text);
}
