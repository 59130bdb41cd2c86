use liquid2::pipeline::{
    lm2_provenance_well_formed,
    lm2_blank_text, lm2_cached_document_usable, lm2_document_cache_allowed,
    lm2_document_notices, lm2_effective_overlays, lm2_hidden_noise_count,
    lm2_learned_stack_label, lm2_nonblank_source_lines, prepare_liquid_mode2_document,
    prepare_liquid_mode2_document_with_timing, ArticleSpan, LiquidDocument, LiquidMode2Request,
    Lm2GroupingReport, Lm2OverlaySwitches, Lm2RuntimeReport, Lm2StageClock, Lm2StageResults,
};
use liquid2::types::{LiquidBlock, LiquidBlockRole, LiquidBlockSourceLines, Lm2Action, Lm2SourceLine};
use liquid2::types::Lm2Action::{HideNoise, Keep, Marginalia};

fn line(text: &str) -> Lm2SourceLine {
    Lm2SourceLine {
        id: String::new(),
        page_index: 0,
        line_index: 0,
        text: text.to_string(),
        role_hint: None,
        segment_block_id: 0,
        segment_block_line_index: 0,
        segment_block_shape: String::new(),
        segment_block_footnote_like: false,
        segment_block_table_like: false,
        segment_block_furniture_like: false,
        segment_block_toc_like: false,
        in_footnote_zone: false,
        below_footnote_divider: false,
        doc_footnote_state: false,
        doc_footnote_continuation: false,
        in_ruled_cell: false,
        ruled_row_membership_exact: false,
        page_table_column_like: false,
        page_object_overlaps_image_bbox: false,
        page_object_hide_candidate: false,
        page_object_ruled_row_membership: false,
        bold: false,
        centered: false,
        margin_centered: false,
        small_note_font: false,
    }
}

fn no_switches() -> Lm2OverlaySwitches {
    Lm2OverlaySwitches {
        d1_zerospend: false,
        d1_continuation: false,
        d1_immediate_continuation: false,
        d1_sandwiched_continuation: false,
        d1_wide_sandwich: false,
        d1_safe_numeric_note: false,
        d1_post_wide_cue: false,
        d1_postcue_citation_next1: false,
        d1_near8_cue: false,
        d1_wide_divider_guard: false,
        d1_geometric_zone: false,
        d1_footer_artifact: false,
        footnote_monotone: false,
        footnote_carryover: false,
        open_footnote_carryover: false,
        table_figure_router: false,
        page_object: false,
        page_object_tuned: false,
    }
}

fn runtime() -> Lm2RuntimeReport {
    Lm2RuntimeReport {
        model_label: "m1".to_string(),
        native_line_model_active: false,
        trained_model_found: true,
        load_warnings: Vec::new(),
        v20_preset: false,
        v25_d1_preset: false,
        decoder_scale_warning: None,
        learned_model_labels: Vec::new(),
        marker_decoder_prior: false,
        small_font_decoder_prior: false,
        anchored_marginalia_flow_guard: false,
        body_preservation_guard: false,
        action_neutral_blocksplit: false,
        toc_overlay: false,
        front_matter_guard: false,
        marginalia_preservation_guard: false,
        switches: no_switches(),
        static_front_overlay_label: None,
        pp_footnote_region_membership: false,
        pp_warnings: Vec::new(),
        liquidvision_warnings: Vec::new(),
        source_signature: "sig".to_string(),
    }
}

fn clock() -> Lm2StageClock {
    Lm2StageClock {
        runtime_load_us: 10,
        liquidvision_fill_us: 30,
        feature_stage_us: 20,
        model_decode_us: 40,
        overlay_decode_us: 50,
        footnote_linker_us: 60,
        assembly_us: 70,
        total_us: 500,
    }
}

fn span(i: usize) -> ArticleSpan {
    ArticleSpan {
        article_index: i,
        start_page_index: i,
        start_line_index: 0,
        end_page_index: i + 1,
        end_line_index: 0,
        low_confidence: false,
        title_hint: None,
        evidence_kinds: Vec::new(),
    }
}

fn request(lines: Vec<&str>) -> LiquidMode2Request {
    LiquidMode2Request {
        title: "Request title".to_string(),
        page_count: 3,
        deep_source_lines: lines.into_iter().map(line).collect(),
        use_pp_footnote_regions: false,
        use_pymupdf_blocks: false,
    }
}

fn cached_document() -> LiquidDocument {
    LiquidDocument {
        title: "Cached".to_string(),
        blocks: vec![LiquidBlock { role: LiquidBlockRole::Paragraph, text: "x".to_string(), label: None }],
        article_spans: Vec::new(),
        block_source_lines: vec![LiquidBlockSourceLines { block_index: 0, lines: Vec::new() }],
        noise_lines_removed: 0,
        llm_used: false,
        llm_provider: Some("LM2".to_string()),
        deep_liquid_used: false,
        deep_liquid_model: Some("m0".to_string()),
        warnings: Vec::new(),
        source_signature: "old".to_string(),
        profile: Some("lm2-review".to_string()),
    }
}

fn stages(actions: Vec<Lm2Action>) -> Lm2StageResults {
    Lm2StageResults {
        runtime: runtime(),
        external_emissions: Ok(None),
        cached: None,
        decoded_actions: Ok(actions),
        title: "Assembled title".to_string(),
        blocks: vec![LiquidBlock { role: LiquidBlockRole::Paragraph, text: "Body".to_string(), label: None }],
        block_source_lines: vec![LiquidBlockSourceLines { block_index: 0, lines: Vec::new() }],
        article_spans: vec![span(0)],
        grouping: None,
        clock: clock(),
        profile: "lm2-review".to_string(),
    }
}

#[test]
fn small_decisions() {
    assert!(lm2_document_cache_allowed(false, false));
    assert!(!lm2_document_cache_allowed(true, false));
    assert!(!lm2_document_cache_allowed(false, true));
    assert!(lm2_cached_document_usable(&cached_document()));
    let mut empty = cached_document();
    empty.block_source_lines.clear();
    assert!(!lm2_cached_document_usable(&empty));
    assert!(lm2_blank_text(" \t\n"));
    assert!(!lm2_blank_text(" a "));
    assert_eq!(lm2_hidden_noise_count(&[HideNoise, Keep, HideNoise, Marginalia]), 2);
}

#[test]
fn nonblank_lines_keep_order() {
    let lines = vec![line("a"), line("  "), line("b"), line("")];
    let kept = lm2_nonblank_source_lines(&lines);
    let texts: Vec<&str> = kept.iter().map(|l| l.text.as_str()).collect();
    assert_eq!(texts, vec!["a", "b"]);
}

#[test]
fn native_model_gates_the_overlays() {
    let mut s = no_switches();
    s.d1_zerospend = true;
    s.open_footnote_carryover = true;
    let gated = lm2_effective_overlays(true, s);
    assert!(!gated.d1_zerospend);
    assert!(gated.open_footnote_carryover);
    let open = lm2_effective_overlays(false, s);
    assert!(open.d1_zerospend);
}

#[test]
fn learned_stack_labels() {
    let labels = vec!["a".to_string(), "b".to_string()];
    assert_eq!(lm2_learned_stack_label(false, &labels), Some("a -> b".to_string()));
    assert_eq!(lm2_learned_stack_label(true, &labels), None);
    assert_eq!(lm2_learned_stack_label(false, &Vec::new()), None);
}

#[test]
fn notices_follow_the_runtime() {
    let mut r = runtime();
    r.learned_model_labels = vec!["ctx".to_string(), "arb".to_string()];
    r.toc_overlay = true;
    r.switches.d1_zerospend = true;
    r.pp_warnings = vec!["pp failed".to_string()];
    let grouping = Some(Lm2GroupingReport { mode: Some("blocks".to_string()), warnings: vec!["w1".to_string()] });
    let notices = lm2_document_notices(&r, &None, 2, &grouping);
    assert_eq!(
        notices,
        vec![
            "Review Mode uses m1 emissions plus page-level sequence decoder.",
            "Review Mode learned postprocessor stack is active: ctx -> arb.",
            "LM2 document-local TOC overlay is enabled.",
            "LM2 D1 zero-spend keep-to-marginalia overlay is enabled.",
            "Detected 2 article spans in this PDF.",
            "pp failed",
            "PyMuPDF block grouping mode: blocks",
            "PyMuPDF block grouping: w1",
        ]
    );
}

#[test]
fn notices_for_a_native_model_without_stack() {
    let mut r = runtime();
    r.native_line_model_active = true;
    r.trained_model_found = false;
    r.switches.d1_zerospend = true;
    let notices = lm2_document_notices(&r, &Some("ext.json".to_string()), 1, &None);
    assert_eq!(
        notices,
        vec![
            "Review Mode uses m1 raw no-stack emissions.",
            "LM2 external emissions override is enabled: ext.json. LM2 document cache was bypassed.",
        ]
    );
    let mut fallback = runtime();
    fallback.trained_model_found = false;
    let notices = lm2_document_notices(&fallback, &None, 0, &None);
    assert_eq!(notices[1], "LM2 trained model not found; used geometry fallback emissions.");
}

#[test]
fn failed_external_emissions_fail_the_request() {
    let mut s = stages(vec![]);
    s.external_emissions = Err("bad emissions".to_string());
    s.cached = Some(cached_document());
    let r = prepare_liquid_mode2_document_with_timing(request(vec!["a"]), s);
    assert_eq!(r.err(), Some("bad emissions".to_string()));
}

#[test]
fn usable_cache_is_returned_as_is() {
    let mut s = stages(vec![]);
    s.cached = Some(cached_document());
    let (doc, timing) = prepare_liquid_mode2_document_with_timing(request(vec!["a"]), s).unwrap();
    assert_eq!(doc.title, "Cached");
    assert_eq!(doc.source_signature, "old");
    assert!(timing.cache_hit);
    assert_eq!((timing.runtime_load_us, timing.model_decode_us, timing.total_us), (10, 0, 500));
}

#[test]
fn cache_is_bypassed_with_external_emissions() {
    let mut s = stages(vec![Lm2Action::Keep]);
    s.cached = Some(cached_document());
    s.external_emissions = Ok(Some("ext".to_string()));
    let (doc, timing) = prepare_liquid_mode2_document_with_timing(request(vec!["a"]), s).unwrap();
    assert_eq!(doc.title, "Assembled title");
    assert!(!timing.cache_hit);
    assert!(doc.warnings.iter().any(|w| w.contains("external emissions override is enabled: ext.")));
}

#[test]
fn a_pdf_without_text_asks_for_ocr() {
    let s = stages(vec![]);
    let (doc, timing) = prepare_liquid_mode2_document_with_timing(request(vec!["  ", ""]), s).unwrap();
    assert_eq!(doc.title, "Request title");
    assert!(doc.blocks.is_empty());
    assert!(doc.block_source_lines.is_empty());
    assert_eq!(doc.warnings, vec!["LiquidMode2 found no selectable text. Run OCR before using LM2."]);
    assert_eq!(doc.llm_provider, Some("LM2".to_string()));
    assert_eq!(doc.deep_liquid_model, Some("m1".to_string()));
    assert_eq!(doc.source_signature, "sig");
    assert_eq!(timing.feature_enrichment_us, 0);
    assert_eq!(timing.liquidvision_fill_us, 30);
    assert_eq!(timing.model_decode_us, 0);
    assert!(!timing.cache_hit);
}

#[test]
fn failed_decode_fails_the_request() {
    let mut s = stages(vec![]);
    s.decoded_actions = Err("decode failed".to_string());
    let r = prepare_liquid_mode2_document(request(vec!["a"]), s);
    assert_eq!(r.err(), Some("decode failed".to_string()));
}

#[test]
fn decoded_document_is_assembled() {
    let mut s = stages(vec![HideNoise, Keep, HideNoise]);
    s.clock.feature_stage_us = 90;
    let (doc, timing) = prepare_liquid_mode2_document_with_timing(request(vec!["a", "b", "c"]), s).unwrap();
    assert_eq!(doc.title, "Assembled title");
    assert_eq!(doc.blocks.len(), 1);
    assert_eq!(doc.blocks[0].text, "Body");
    assert_eq!(doc.article_spans.len(), 1);
    assert_eq!(doc.noise_lines_removed, 2);
    assert!(!doc.llm_used);
    assert!(!doc.deep_liquid_used);
    assert_eq!(doc.warnings, vec!["Review Mode uses m1 emissions plus page-level sequence decoder."]);
    assert_eq!(timing.feature_enrichment_us, 60);
    assert_eq!(timing.assembly_us, 70);
    assert_eq!(timing.total_us, 500);
}

#[test]
fn document_without_timing_matches() {
    let doc = prepare_liquid_mode2_document(request(vec!["a"]), stages(vec![Lm2Action::Keep])).unwrap();
    assert_eq!(doc.title, "Assembled title");
    assert_eq!(doc.noise_lines_removed, 0);
}

#[test]
fn provenance_well_formedness() {
    let blocks = vec![
        LiquidBlock { role: LiquidBlockRole::Paragraph, text: "a".to_string(), label: None },
        LiquidBlock { role: LiquidBlockRole::Footnote, text: "b".to_string(), label: None },
    ];
    let entry = |i: usize| LiquidBlockSourceLines { block_index: i, lines: Vec::new() };
    assert!(lm2_provenance_well_formed(&blocks, &[entry(1), entry(0)]));
    assert!(lm2_provenance_well_formed(&blocks, &[]));
    assert!(!lm2_provenance_well_formed(&blocks, &[entry(0), entry(2)]));
    assert!(!lm2_provenance_well_formed(&blocks, &[entry(1), entry(0), entry(1)]));
}

#[test]
fn assembled_document_carries_profile() {
    let r = prepare_liquid_mode2_document(request(vec!["Body"]), stages(vec![Keep])).unwrap();
    assert_eq!(r.profile, Some("lm2-review".to_string()));
    let mut s = stages(vec![Keep]);
    s.profile = "other".to_string();
    let (d, t) = prepare_liquid_mode2_document_with_timing(request(vec!["  "]), s).unwrap();
    assert_eq!(d.profile, Some("other".to_string()));
    assert!(t.total_us >= t.runtime_load_us);
}
