use liquid2::reflow::{
    lm2_blocksplit_divider_like, lm2_blocksplit_ends_like_paragraph,
    lm2_blocksplit_numbered_marginalia_start, lm2_blocksplit_starts_like_sentence,
    lm2_looks_like_standalone_marker_fragment, lm2_note_tail_visibly_closed,
    lm2_reflow_deferred_note_role, lm2_reflow_paragraph_is_visibly_open,
    lm2_reflow_starts_like_continuation, lm2_should_reflow_deferred_marginalia,
};
use liquid2::types::LiquidBlockRole;

#[test]
fn deferred_note_roles() {
    assert!(lm2_reflow_deferred_note_role(LiquidBlockRole::Marginalia));
    assert!(lm2_reflow_deferred_note_role(LiquidBlockRole::Footnote));
    assert!(!lm2_reflow_deferred_note_role(LiquidBlockRole::Paragraph));
}

#[test]
fn paragraph_endings() {
    assert!(lm2_blocksplit_ends_like_paragraph("Ends here."));
    assert!(lm2_blocksplit_ends_like_paragraph("quoted.\""));
    assert!(lm2_blocksplit_ends_like_paragraph("page 12"));
    assert!(!lm2_blocksplit_ends_like_paragraph("open clause"));
    assert!(!lm2_blocksplit_ends_like_paragraph(""));
    assert!(lm2_reflow_paragraph_is_visibly_open("hyphen-"));
    assert!(lm2_reflow_paragraph_is_visibly_open("and so"));
    assert!(!lm2_reflow_paragraph_is_visibly_open("done."));
}

#[test]
fn continuation_and_sentence_starts() {
    assert!(lm2_reflow_starts_like_continuation("  and then"));
    assert!(lm2_reflow_starts_like_continuation("\"(and"));
    assert!(lm2_reflow_starts_like_continuation(", more"));
    assert!(!lm2_reflow_starts_like_continuation("The start"));
    assert!(lm2_blocksplit_starts_like_sentence("\"The"));
    assert!(!lm2_blocksplit_starts_like_sentence("the"));
}

#[test]
fn deferred_marginalia_reflow_needs_open_text_and_continuation() {
    assert!(lm2_should_reflow_deferred_marginalia("the court held that", "the statute applies"));
    assert!(!lm2_should_reflow_deferred_marginalia("Done.", "the rest"));
    assert!(!lm2_should_reflow_deferred_marginalia("", "x"));
    assert!(!lm2_should_reflow_deferred_marginalia("open", "Capital"));
}

#[test]
fn dividers_and_numbered_starts() {
    assert!(lm2_blocksplit_divider_like("------------"));
    assert!(lm2_blocksplit_divider_like("---- ----- --"));
    assert!(!lm2_blocksplit_divider_like("-----"));
    assert!(lm2_blocksplit_numbered_marginalia_start("12. Note text"));
    assert!(lm2_blocksplit_numbered_marginalia_start("3) x"));
    assert!(!lm2_blocksplit_numbered_marginalia_start("12 Note"));
    assert!(!lm2_blocksplit_numbered_marginalia_start("12345. x"));
    assert!(!lm2_blocksplit_numbered_marginalia_start("3.x"));
}

#[test]
fn marker_fragments_and_closed_tails() {
    assert!(lm2_looks_like_standalone_marker_fragment(" 12 "));
    assert!(!lm2_looks_like_standalone_marker_fragment("12345"));
    assert!(!lm2_looks_like_standalone_marker_fragment("1a"));
    assert!(lm2_note_tail_visibly_closed("See id.\""));
    assert!(lm2_note_tail_visibly_closed("text.)"));
    assert!(!lm2_note_tail_visibly_closed("see id"));
    assert!(!lm2_note_tail_visibly_closed("(1999))"));
}
