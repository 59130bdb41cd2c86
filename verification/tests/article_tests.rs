use liquid2::pipeline::{filter_lm2_false_article_spans, lm2_false_article_boundary, ArticleSpan};

fn span(page: usize, line: usize, low: bool, hint: Option<&str>, evidence: &[&str]) -> ArticleSpan {
    ArticleSpan {
        article_index: 99,
        start_page_index: page,
        start_line_index: line,
        end_page_index: 0,
        end_line_index: 0,
        low_confidence: low,
        title_hint: hint.map(|h| h.to_string()),
        evidence_kinds: evidence.iter().map(|e| e.to_string()).collect(),
    }
}

#[test]
fn false_boundaries() {
    assert!(!lm2_false_article_boundary(&span(0, 0, true, Some("IV. Remedies"), &[]), true));
    assert!(lm2_false_article_boundary(&span(3, 0, false, None, &[]), true));
    assert!(lm2_false_article_boundary(&span(3, 0, true, Some("IV. Remedies"), &["typography"]), false));
    assert!(!lm2_false_article_boundary(&span(3, 0, true, Some("IV. Remedies"), &["footnote_reset"]), false));
    assert!(!lm2_false_article_boundary(&span(3, 0, false, Some("IV. Remedies"), &[]), false));
    assert!(!lm2_false_article_boundary(&span(3, 0, true, Some("The Next Article"), &[]), false));
}

#[test]
fn kept_spans_are_renumbered_and_chained() {
    let detected = vec![span(0, 0, false, None, &[]), span(4, 2, true, None, &[]), span(9, 5, false, None, &[])];
    let kept = filter_lm2_false_article_spans(detected, &[true, true, false], 12);
    assert_eq!(kept.len(), 2);
    assert_eq!((kept[0].article_index, kept[0].start_page_index, kept[0].end_page_index, kept[0].end_line_index), (0, 0, 9, 5));
    assert_eq!((kept[1].article_index, kept[1].start_page_index, kept[1].end_page_index, kept[1].end_line_index), (1, 9, 12, 0));
}

#[test]
fn a_single_span_is_returned_as_detected() {
    let kept = filter_lm2_false_article_spans(vec![span(2, 1, false, None, &[])], &[true], 7);
    assert_eq!(kept.len(), 1);
    assert_eq!((kept[0].article_index, kept[0].end_page_index), (99, 0));
}
