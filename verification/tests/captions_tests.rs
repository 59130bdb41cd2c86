use liquid2::captions::lm2_citation_continuation;
use liquid2::pipeline::{lm2_false_boundaries, ArticleSpan};
use liquid2::captions::{
    lm2_caption_band, lm2_citation_suffix_cross_page_bridge,
    lm2_explicit_numbered_table_figure_caption, lm2_numbered_table_figure_caption,
    lm2_numbered_table_figure_page_anchor, lm2_table_text_cues, lm2_uppercase_note_continuation_cue,
};
use liquid2::types::{Lm2Action, Lm2SourceLine};

fn line(page_index: usize, line_index: usize) -> Lm2SourceLine {
    Lm2SourceLine {
        id: format!("p{page_index}l{line_index}"),
        page_index,
        line_index,
        text: String::new(),
        role_hint: None,
        segment_block_id: 0,
        segment_block_line_index: 0,
        segment_block_shape: String::new(),
        segment_block_footnote_like: false,
        segment_block_table_like: false,
        segment_block_furniture_like: false,
        segment_block_toc_like: false,
        in_footnote_zone: false,
        below_footnote_divider: false,
        doc_footnote_state: false,
        doc_footnote_continuation: false,
        in_ruled_cell: false,
        ruled_row_membership_exact: false,
        page_table_column_like: false,
        page_object_overlaps_image_bbox: false,
        page_object_hide_candidate: false,
        page_object_ruled_row_membership: false,
        bold: false,
        centered: false,
        margin_centered: false,
        small_note_font: false,
    }
}

#[test]
fn numbered_captions() {
    assert!(lm2_numbered_table_figure_caption("table 3. results by circuit"));
    assert!(lm2_numbered_table_figure_caption("figure iv: the map"));
    assert!(lm2_numbered_table_figure_caption("fig. 12"));
    assert!(lm2_numbered_table_figure_caption("  table 3.)"));
    assert!(!lm2_numbered_table_figure_caption("table of contents"));
    assert!(!lm2_numbered_table_figure_caption("table"));
    assert!(!lm2_numbered_table_figure_caption("table 123456789"));
    assert!(!lm2_numbered_table_figure_caption("tables 3"));
}

#[test]
fn explicit_captions_need_a_colon() {
    assert!(lm2_explicit_numbered_table_figure_caption("table 3: results"));
    assert!(lm2_explicit_numbered_table_figure_caption("figure ii:: a map"));
    assert!(!lm2_explicit_numbered_table_figure_caption("table 3. results"));
    assert!(!lm2_explicit_numbered_table_figure_caption("table :"));
    assert!(!lm2_explicit_numbered_table_figure_caption("chart 3: results"));
}

#[test]
fn page_anchors_name_a_numbered_table_or_figure() {
    assert!(lm2_numbered_table_figure_page_anchor("as shown in table 2, the rate fell"));
    assert!(lm2_numbered_table_figure_page_anchor("see (figure 4) below"));
    assert!(lm2_numbered_table_figure_page_anchor("fig. xii"));
    assert!(!lm2_numbered_table_figure_page_anchor("the table shows the rate"));
    assert!(!lm2_numbered_table_figure_page_anchor("table"));
}

#[test]
fn table_cues_from_normalized_text() {
    let c = lm2_table_text_cues("table 2: rates", true);
    assert!(c.explicit_caption && c.table_figure_anchor && c.short_label);
    let d = lm2_table_text_cues("the court held", false);
    assert!(!d.explicit_caption && !d.table_figure_anchor && !d.short_label);
}

#[test]
fn citation_cues() {
    assert!(lm2_uppercase_note_continuation_cue("see id. at 4."));
    assert!(lm2_uppercase_note_continuation_cue("smith v. jones, 12 f.3d 4"));
    assert!(lm2_uppercase_note_continuation_cue("42 u.s.c. \u{a7} 1983"));
    assert!(lm2_uppercase_note_continuation_cue("decided (june 4, 1999)"));
    assert!(!lm2_uppercase_note_continuation_cue("the court held otherwise"));
    assert!(!lm2_uppercase_note_continuation_cue("seems right"));
}

#[test]
fn company_name_bridges() {
    assert!(lm2_citation_suffix_cross_page_bridge(
        "See Acme Holdings Ltd.  ",
        "Ltd., 123 F.3d 456 (2d Cir. 1999)."
    ));
    assert!(lm2_citation_suffix_cross_page_bridge(
        "Smith & Jones P\u{2019}ship",
        "P\u{2019}ship, 5 U.S. 1"
    ));
    assert!(!lm2_citation_suffix_cross_page_bridge("See Acme Holdings Ltd.", "Ltd., an English company"));
    assert!(!lm2_citation_suffix_cross_page_bridge("See Acme Co.", "Ltd., 123 F.3d 456"));
    assert!(!lm2_citation_suffix_cross_page_bridge(
        "See Acme Holdings Ltd.",
        "Ltd., one two three four five six seven eight nine ten eleven twelve F.3d"
    ));
}

#[test]
fn caption_band_on_the_first_lines_of_a_page() {
    let decoded = vec![
        (line(2, 3), Lm2Action::Keep),
        (line(3, 12), Lm2Action::Keep),
    ];
    let normalized = vec!["table 1. rates".to_string(), "figure 2. map".to_string()];
    assert!(lm2_caption_band(&decoded, &normalized, 2));
    assert!(!lm2_caption_band(&decoded, &normalized, 3));
    assert!(!lm2_caption_band(&decoded, &normalized, 4));
}

#[test]
fn false_boundaries_from_the_caption_band() {
    let span = |page: usize| ArticleSpan {
        article_index: 0,
        start_page_index: page,
        start_line_index: 0,
        end_page_index: 0,
        end_line_index: 0,
        low_confidence: false,
        title_hint: None,
        evidence_kinds: Vec::new(),
    };
    let decoded = vec![(line(2, 3), Lm2Action::Keep), (line(5, 1), Lm2Action::Keep)];
    let normalized = vec!["table 1. rates".to_string(), "the second article".to_string()];
    let flags = lm2_false_boundaries(&vec![span(0), span(2), span(5)], &decoded, &normalized);
    assert_eq!(flags, vec![false, true, false]);
}

#[test]
fn citation_continuation_either_cue() {
    assert!(lm2_citation_continuation("See Acme Ltd.", "Ltd., 1 F.3d 2", "ltd., 1 f.3d 2"));
    assert!(lm2_citation_continuation("See the case", "See id. at 4", "see id. at 4"));
    assert!(!lm2_citation_continuation("See the case", "The court held", "the court held"));
}
