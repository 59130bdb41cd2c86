use liquid2::models::{
    model_is_usable, Lm2CatboostTree, Lm2ContextTwopassModel, Lm2FeatureSchema, Lm2Model,
    Lm2NumericCatboostModel,
};

fn actions() -> Vec<String> {
    vec!["hide_noise".to_string(), "keep".to_string(), "marginalia".to_string()]
}

fn legacy() -> Lm2Model {
    Lm2Model {
        model_id: "lm2-hashed-v7".to_string(),
        model_type: "hashed_softmax_action_v1".to_string(),
        actions: actions(),
        feature_dim: 2048,
        bias_len: 3,
        weight_row_lens: vec![2048, 2048, 2048],
        feature_schema: None,
    }
}

#[test]
fn legacy_model_usable_when_well_formed() {
    assert!(model_is_usable(&legacy()));
}

#[test]
fn legacy_model_rejects_each_defect() {
    let mut m = legacy();
    m.model_type = "hashed_softmax_action_v2".to_string();
    assert!(!model_is_usable(&m));

    let mut m = legacy();
    m.actions = vec!["keep".to_string(), "hide_noise".to_string(), "marginalia".to_string()];
    assert!(!model_is_usable(&m));

    let mut m = legacy();
    m.actions.pop();
    assert!(!model_is_usable(&m));

    let mut m = legacy();
    m.feature_dim = 0;
    m.weight_row_lens = vec![0, 0, 0];
    assert!(!model_is_usable(&m));

    let mut m = legacy();
    m.bias_len = 2;
    assert!(!model_is_usable(&m));

    let mut m = legacy();
    m.weight_row_lens = vec![2048, 2047, 2048];
    assert!(!model_is_usable(&m));

    let mut m = legacy();
    m.weight_row_lens.push(2048);
    assert!(!model_is_usable(&m));
}

#[test]
fn legacy_feature_schema_flags() {
    let m = legacy();
    assert!(!m.doc_font_zscores_enabled());
    assert!(!m.repetition_fingerprints_enabled());
    assert!(!m.marker_continuity_enabled());
    let mut m = legacy();
    m.feature_schema = Some(Lm2FeatureSchema {
        doc_font_zscores: true,
        repetition_fingerprints: false,
        marker_continuity: true,
    });
    assert!(m.doc_font_zscores_enabled());
    assert!(!m.repetition_fingerprints_enabled());
    assert!(m.marker_continuity_enabled());
}

fn catboost() -> Lm2NumericCatboostModel {
    Lm2NumericCatboostModel {
        schema_version: "lm2-numeric-catboost-runtime-v1".to_string(),
        model_type: "numeric_catboost_oblivious_trees_v1".to_string(),
        classes: vec!["keep".to_string(), "marginalia".to_string(), "hide_noise".to_string()],
        bias_len: 3,
        feature_count: 5,
        trees: vec![
            Lm2CatboostTree { split_feature_indices: vec![0, 4], leaf_value_count: 12 },
            Lm2CatboostTree { split_feature_indices: vec![], leaf_value_count: 3 },
            Lm2CatboostTree { split_feature_indices: vec![1, 2, 3], leaf_value_count: 24 },
        ],
    }
}

#[test]
fn catboost_model_usable_when_well_formed() {
    assert!(catboost().is_usable());
}

#[test]
fn catboost_model_rejects_each_defect() {
    let mut m = catboost();
    m.schema_version = "lm2-numeric-catboost-runtime-v0".to_string();
    assert!(!m.is_usable());

    let mut m = catboost();
    m.model_type = "numeric_catboost".to_string();
    assert!(!m.is_usable());

    let mut m = catboost();
    m.classes.pop();
    m.bias_len = 2;
    assert!(!m.is_usable());

    let mut m = catboost();
    m.bias_len = 4;
    assert!(!m.is_usable());

    let mut m = catboost();
    m.feature_count = 0;
    assert!(!m.is_usable());

    let mut m = catboost();
    m.trees.clear();
    assert!(!m.is_usable());

    // A depth-two tree needs 4 leaves of 3 classes.
    let mut m = catboost();
    m.trees[0].leaf_value_count = 8;
    assert!(!m.is_usable());

    // Feature 5 does not exist.
    let mut m = catboost();
    m.trees[2].split_feature_indices[1] = 5;
    assert!(!m.is_usable());
}

fn context_model() -> Lm2ContextTwopassModel {
    Lm2ContextTwopassModel {
        doc_to_fold: vec![
            ("c:/corpus/smith.pdf".to_string(), 2),
            ("c:/corpus/jones.pdf".to_string(), 7),
        ],
        model_names: vec!["fold0".to_string(), "fold2".to_string(), "full".to_string()],
        unseen_doc_model: "full".to_string(),
    }
}

#[test]
fn context_model_of_held_out_document() {
    let m = context_model();
    assert_eq!(m.model_for_document("  C:\\Corpus\\Smith.pdf "), Some(1));
}

#[test]
fn context_model_without_fold_model_uses_unseen_model() {
    let m = context_model();
    assert_eq!(m.model_for_document("c:/corpus/jones.pdf"), Some(2));
    assert_eq!(m.model_for_document("/elsewhere/new.pdf"), Some(2));
}

#[test]
fn context_model_falls_back_to_first_model() {
    let mut m = context_model();
    m.unseen_doc_model = "missing".to_string();
    assert_eq!(m.model_for_document("/elsewhere/new.pdf"), Some(0));
    m.model_names.clear();
    assert_eq!(m.model_for_document("c:/corpus/smith.pdf"), None);
}

#[test]
fn context_model_fold_names_are_decimal() {
    let m = Lm2ContextTwopassModel {
        doc_to_fold: vec![("a.pdf".to_string(), 12)],
        model_names: vec!["fold1".to_string(), "fold12".to_string()],
        unseen_doc_model: "fold1".to_string(),
    };
    assert_eq!(m.model_for_document("A.PDF"), Some(1));
}
