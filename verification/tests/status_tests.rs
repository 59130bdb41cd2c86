use liquid2::models::Lm2Model;
use liquid2::status::{lm2_runtime_status, lm2_runtime_status_args, lm2_runtime_status_outcome, Lm2NativeModelInfo, Lm2RuntimeProbe};

fn args(v: &[&str]) -> Vec<String> {
    v.iter().map(|s| s.to_string()).collect()
}

fn probe(native: Result<Option<Lm2NativeModelInfo>, String>, context: Result<bool, String>, vision: bool) -> Lm2RuntimeProbe {
    Lm2RuntimeProbe {
        app_version: "0.2.33".to_string(),
        platform: "linux".to_string(),
        native_model_path: Some("/m.cbm".to_string()),
        native_library_path: None,
        context_model_path: None,
        native_model: native,
        context_model: context,
        liquidvision_available: vision,
        legacy_model: None,
    }
}

fn legacy(id: &str, feature_dim: usize) -> Lm2Model {
    Lm2Model {
        model_id: id.to_string(),
        model_type: "hashed_softmax_action_v1".to_string(),
        actions: vec!["hide_noise".to_string(), "keep".to_string(), "marginalia".to_string()],
        feature_dim,
        bias_len: 3,
        weight_row_lens: vec![feature_dim; 3],
        feature_schema: None,
    }
}

fn info() -> Lm2NativeModelInfo {
    Lm2NativeModelInfo { float_feature_count: 12, cat_feature_count: 3, text_feature_count: 1, dimensions_count: 3 }
}

#[test]
fn status_arguments() {
    let a = lm2_runtime_status_args(&args(&["--lm2-runtime-status", "--require-native", "--output", "out.json"])).unwrap();
    assert!(a.require_native);
    assert!(!a.require_context);
    assert_eq!(a.output_path, Some("out.json".to_string()));
    let b = lm2_runtime_status_args(&args(&["--require-context"])).unwrap();
    assert!(b.require_context && !b.require_native && b.output_path.is_none());
    assert_eq!(lm2_runtime_status_args(&args(&["--output"])).err(), Some("--output needs a destination path".to_string()));
    assert_eq!(lm2_runtime_status_args(&args(&["--bogus"])).err(), Some("unknown LM2 runtime-status argument: --bogus".to_string()));
    let c = lm2_runtime_status_args(&args(&["--output", "a", "--output", "b"])).unwrap();
    assert_eq!(c.output_path, Some("b".to_string()));
}

#[test]
fn full_native_runtime_meets_requirements() {
    let s = lm2_runtime_status(probe(Ok(Some(info())), Ok(true), true), true, true);
    assert_eq!(s.schema_version, "lm2-runtime-status-v1");
    assert_eq!(s.runtime_tier, "native_catboost_context");
    assert_eq!(s.model_label, "lm2-native-catboost-text-runtime:f12c3t1d3");
    assert!(s.native_catboost_active && s.context_twopass_active && s.liquidvision_active);
    assert!(s.requirements_met);
    assert!(s.errors.is_empty());
    assert_eq!(s.native_model_path, Some("/m.cbm".to_string()));
}

#[test]
fn missing_native_assets_fail_a_native_requirement() {
    let s = lm2_runtime_status(probe(Ok(None), Ok(false), true), true, false);
    assert_eq!(s.runtime_tier, "heuristic_fallback");
    assert_eq!(s.model_label, "lm2-heuristic-fallback");
    assert!(!s.requirements_met);
    assert_eq!(
        s.errors,
        vec![
            "required native CatBoost model/library assets were not found".to_string(),
            "required LiquidVision feature model was not loaded".to_string(),
        ]
    );
}

#[test]
fn load_failures_are_reported() {
    let s = lm2_runtime_status(probe(Err("bad lib".to_string()), Err("ignored".to_string()), false), true, true);
    assert_eq!(
        s.errors,
        vec![
            "native CatBoost load failed: bad lib".to_string(),
            "required context two-pass model was not loaded".to_string(),
            "required LiquidVision feature model was not loaded".to_string(),
        ]
    );
    let t = lm2_runtime_status(probe(Ok(Some(info())), Err("ctx broke".to_string()), true), false, false);
    assert_eq!(t.runtime_tier, "native_catboost");
    assert_eq!(t.errors, vec!["context two-pass load failed: ctx broke".to_string()]);
    assert!(!t.requirements_met);
}

#[test]
fn legacy_model_tier() {
    let mut p = probe(Ok(None), Ok(false), false);
    p.legacy_model = Some(legacy("legacy-v3", 4096));
    let s = lm2_runtime_status(p, false, false);
    assert_eq!((s.runtime_tier.as_str(), s.model_label.as_str()), ("legacy_hashed_softmax", "legacy-v3"));
    assert!(s.legacy_model_available);
    assert!(s.requirements_met);
}

#[test]
fn unusable_legacy_model_falls_back_to_heuristics() {
    let mut p = probe(Ok(None), Ok(false), false);
    p.legacy_model = Some(legacy("legacy-v3", 0));
    let s = lm2_runtime_status(p, false, false);
    assert_eq!(
        (s.runtime_tier.as_str(), s.model_label.as_str()),
        ("heuristic_fallback", "lm2-heuristic-fallback")
    );
    assert!(!s.legacy_model_available);
}

#[test]
fn status_outcome_joins_the_errors() {
    let ok = lm2_runtime_status(probe(Ok(Some(info())), Ok(true), true), true, true);
    assert_eq!(lm2_runtime_status_outcome(&ok), Ok(()));
    let failed = lm2_runtime_status(probe(Ok(None), Ok(false), true), true, false);
    assert_eq!(
        lm2_runtime_status_outcome(&failed),
        Err("required native CatBoost model/library assets were not found; required LiquidVision feature model was not loaded".to_string())
    );
}
