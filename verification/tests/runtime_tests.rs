use liquid2::models::Lm2Model;
use liquid2::runtime::{
    lm2_numeric_catboost_label,
    lm2_runtime_followup_loads, lm2_runtime_load_report, Lm2ExperimentSwitches,
    Lm2FollowupResults, Lm2LineModelLoads, Lm2NativeRuntimeModel,
};

fn all_experiments() -> Lm2ExperimentSwitches {
    Lm2ExperimentSwitches {
        pp_footnote_region_membership: true,
        marker_decoder_prior: true,
        small_font_decoder_prior: true,
        small_font_sequence_prior: true,
        anchored_marginalia_flow_guard: true,
        body_preservation_guard: true,
        action_neutral_blocksplit: true,
        toc_overlay: true,
        front_matter_guard: true,
        marginalia_preservation_guard: true,
    }
}

fn native() -> Lm2NativeRuntimeModel {
    Lm2NativeRuntimeModel {
        float_feature_count: 120,
        cat_feature_count: 4,
        text_feature_count: 1,
        dimensions_count: 3,
        model_sha256: "0123456789abcdef0123456789abcdef".to_string(),
    }
}

fn followups(ok: bool) -> Lm2FollowupResults {
    Lm2FollowupResults {
        context_twopass: if ok { Ok(true) } else { Err("bad json".to_string()) },
        context_arbiter: if ok { Ok(false) } else { Err("hash mismatch".to_string()) },
        note_head: Ok(false),
        link_ranker: if ok { Ok(true) } else { Err("schema".to_string()) },
        numeric_catboost_source: None,
    }
}

fn legacy() -> Lm2Model {
    Lm2Model {
        model_id: "legacy-v3".to_string(),
        model_type: "hashed_softmax_action_v1".to_string(),
        actions: vec!["hide_noise".to_string(), "keep".to_string(), "marginalia".to_string()],
        feature_dim: 16,
        bias_len: 3,
        weight_row_lens: vec![16, 16, 16],
        feature_schema: None,
    }
}

#[test]
fn native_model_gates_followups_and_experiments() {
    let lines = Lm2LineModelLoads { fasttab_requested: false, fasttab: Ok(None), native: Ok(Some(native())) };
    let plan = lm2_runtime_followup_loads(&lines, true);
    assert!(plan.context_twopass && plan.context_arbiter && plan.note_head && plan.link_ranker);
    assert!(!plan.numeric_catboost && !plan.static_front_overlay);
    assert!(!lm2_runtime_followup_loads(&lines, false).context_twopass);

    let r = lm2_runtime_load_report(&lines, true, &followups(true), &Some(legacy()), all_experiments());
    assert!(r.native_line_model_active);
    assert!(r.default_score_scales);
    assert!(!r.experiments.marker_decoder_prior && !r.experiments.toc_overlay);
    assert_eq!(r.model_label, "lm2-native-catboost-text-runtime:f120c4t1d3:sha0123456789abcdef");
    assert!(r.load_warnings.is_empty());
    assert!(r.legacy_model_kept);
}

#[test]
fn failed_loads_leave_warnings_in_order() {
    let lines = Lm2LineModelLoads {
        fasttab_requested: true,
        fasttab: Err("no such file".to_string()),
        native: Ok(Some(native())),
    };
    let r = lm2_runtime_load_report(&lines, true, &followups(false), &None, all_experiments());
    assert_eq!(
        r.load_warnings,
        vec![
            "Requested FastTab runtime failed to load; retaining CatBoost default: no such file".to_string(),
            "Promoted context two-pass model failed to load; using native emissions only: bad json".to_string(),
            "Optional context arbiter failed to load; retaining the promoted context model only: hash mismatch".to_string(),
            "Optional learned footnote link ranker failed to load: schema".to_string(),
        ]
    );
}

#[test]
fn without_line_models_experiments_and_fallback_labels_apply() {
    let lines = Lm2LineModelLoads { fasttab_requested: true, fasttab: Ok(None), native: Ok(None) };
    let plan = lm2_runtime_followup_loads(&lines, true);
    assert!(!plan.context_twopass && !plan.note_head && plan.numeric_catboost && plan.static_front_overlay);
    let r = lm2_runtime_load_report(&lines, true, &followups(false), &Some(legacy()), all_experiments());
    assert!(!r.native_line_model_active);
    assert!(!r.default_score_scales);
    assert!(r.experiments.marker_decoder_prior && r.experiments.marginalia_preservation_guard);
    assert_eq!(r.model_label, "legacy-v3");
    assert_eq!(
        r.load_warnings,
        vec![
            "Requested FastTab runtime asset was not found; retaining CatBoost default.".to_string(),
            "Promoted native CatBoost runtime assets were not found; using fallback emissions.".to_string(),
        ]
    );
    let mut f = followups(true);
    f.numeric_catboost_source = Some("models/num\u{e9}rique.json".to_string());
    let r = lm2_runtime_load_report(&lines, false, &f, &None, all_experiments());
    assert_eq!(r.model_label, "lm2-numeric-catboost-runtime:4ce695112aaddc4a");
    assert!(r.loaded.numeric_catboost);
    assert!(!r.loaded.note_head && !r.loaded.link_ranker);
    let r = lm2_runtime_load_report(&lines, false, &followups(true), &None, all_experiments());
    assert_eq!(r.model_label, "lm2-heuristic-fallback");
    assert!(!r.legacy_model_kept);
}

#[test]
fn fasttab_label_wins() {
    let lines = Lm2LineModelLoads {
        fasttab_requested: true,
        fasttab: Ok(Some("lm2-fasttab-v1".to_string())),
        native: Err("dlopen".to_string()),
    };
    let plan = lm2_runtime_followup_loads(&lines, true);
    assert!(plan.context_twopass && !plan.context_arbiter);
    let r = lm2_runtime_load_report(&lines, true, &followups(true), &None, all_experiments());
    assert_eq!(r.model_label, "lm2-fasttab-v1");
    assert_eq!(
        r.load_warnings,
        vec!["Promoted native CatBoost runtime failed to load; using fallback emissions: dlopen".to_string()]
    );
}

#[test]
fn numeric_label_hashes_the_source() {
    assert_eq!(lm2_numeric_catboost_label(""), "lm2-numeric-catboost-runtime:cbf29ce484222325");
}

#[test]
fn link_ranker_needs_the_note_head_scorer() {
    let lines = Lm2LineModelLoads { fasttab_requested: false, fasttab: Ok(None), native: Ok(Some(native())) };
    let mut f = followups(true);
    f.note_head = Ok(false);
    f.link_ranker = Ok(true);
    let r = lm2_runtime_load_report(&lines, true, &f, &None, all_experiments());
    assert!(!r.loaded.note_head);
    assert!(!r.loaded.link_ranker);
    assert!(r.loaded.context_twopass);
    f.note_head = Ok(true);
    let r = lm2_runtime_load_report(&lines, true, &f, &None, all_experiments());
    assert!(r.loaded.note_head && r.loaded.link_ranker);
    assert!(!r.loaded.context_arbiter);
}
