//! Structural checks of the learned models the runtime loads, and the
//! choice of the context model that scores a given document.
//!
//! The models themselves hold floating-point weights; the types here hold
//! what the checks read of them: kinds, names, counts and lengths.
use vstd::arithmetic::power2::{lemma_pow2_unfold, pow2};
use vstd::arithmetic::power::lemma_pow0;
use vstd::prelude::*;

use crate::context::{lm2_context_norm_path, path_key_char};
use crate::text::{decimal_digits, push_str, trim, usize_to_string};

verus! {

// ---------------------------------------------------------------------------
// The legacy hashed-softmax model
// ---------------------------------------------------------------------------

/// Which optional feature families a legacy model was trained with.
#[derive(Clone, Copy, Debug)]
pub struct Lm2FeatureSchema {
    pub doc_font_zscores: bool,
    pub repetition_fingerprints: bool,
    pub marker_continuity: bool,
}

/// A legacy hashed-softmax action model as its usability check reads it:
/// its id and kind, its action names, its feature dimension, the length of
/// its bias vector and of each of its weight rows, and its feature schema.
#[derive(Clone, Debug)]
pub struct Lm2Model {
    pub model_id: String,
    pub model_type: String,
    pub actions: Vec<String>,
    pub feature_dim: usize,
    pub bias_len: usize,
    pub weight_row_lens: Vec<usize>,
    pub feature_schema: Option<Lm2FeatureSchema>,
}

impl Lm2Model {
    /// The model was trained with document font z-scores.
    pub fn doc_font_zscores_enabled(&self) -> (r: bool)
        ensures r == (self.feature_schema matches Some(s) && s.doc_font_zscores),
    {
        match &self.feature_schema {
            Some(schema) => schema.doc_font_zscores,
            None => false,
        }
    }

    /// The model was trained with repetition fingerprints.
    pub fn repetition_fingerprints_enabled(&self) -> (r: bool)
        ensures r == (self.feature_schema matches Some(s) && s.repetition_fingerprints),
    {
        match &self.feature_schema {
            Some(schema) => schema.repetition_fingerprints,
            None => false,
        }
    }

    /// The model was trained with note-marker continuity features.
    pub fn marker_continuity_enabled(&self) -> (r: bool)
        ensures r == (self.feature_schema matches Some(s) && s.marker_continuity),
    {
        match &self.feature_schema {
            Some(schema) => schema.marker_continuity,
            None => false,
        }
    }
}

/// The decoder's actions by name, in their fixed order.
pub open spec fn actions_in_order(names: Seq<String>) -> bool {
    &&& names.len() == 3
    &&& names[0]@ == "hide_noise"@
    &&& names[1]@ == "keep"@
    &&& names[2]@ == "marginalia"@
}

/// A legacy model can score lines: it is a hashed-softmax action model over
/// the three actions in order, with a positive feature dimension, one bias
/// per action and one weight row of that dimension per action.
pub open spec fn legacy_model_usable(m: Lm2Model) -> bool {
    &&& m.model_type@ == "hashed_softmax_action_v1"@
    &&& actions_in_order(m.actions@)
    &&& m.feature_dim > 0
    &&& m.bias_len == 3
    &&& m.weight_row_lens@.len() == 3
    &&& forall|i: int| 0 <= i < 3 ==> m.weight_row_lens@[i] == m.feature_dim
}

fn actions_in_order_exec(names: &Vec<String>) -> (r: bool)
    ensures r == actions_in_order(names@),
{
    names.len() == 3 && names[0] == "hide_noise".to_owned() && names[1] == "keep".to_owned()
        && names[2] == "marginalia".to_owned()
}

/// Whether a loaded legacy model can score lines.
pub fn model_is_usable(model: &Lm2Model) -> (r: bool)
    ensures r == legacy_model_usable(*model),
{
    if !(model.model_type == "hashed_softmax_action_v1".to_owned()) {
        return false;
    }
    if !actions_in_order_exec(&model.actions) {
        return false;
    }
    if model.feature_dim == 0 || model.bias_len != 3 || model.weight_row_lens.len() != 3 {
        return false;
    }
    model.weight_row_lens[0] == model.feature_dim && model.weight_row_lens[1] == model.feature_dim
        && model.weight_row_lens[2] == model.feature_dim
}

// ---------------------------------------------------------------------------
// The numeric CatBoost model
// ---------------------------------------------------------------------------

/// One oblivious tree: the feature each of its levels splits on, and how
/// many leaf values it holds.
#[derive(Clone, Debug)]
pub struct Lm2CatboostTree {
    pub split_feature_indices: Vec<usize>,
    pub leaf_value_count: usize,
}

/// A numeric CatBoost model as its usability check reads it.
#[derive(Clone, Debug)]
pub struct Lm2NumericCatboostModel {
    pub schema_version: String,
    pub model_type: String,
    pub classes: Vec<String>,
    pub bias_len: usize,
    pub feature_count: usize,
    pub trees: Vec<Lm2CatboostTree>,
}

/// A tree of a model with `class_count` classes and `feature_count`
/// features holds one value per class for each of its `2^depth` leaves, and
/// splits only on existing features.
pub open spec fn tree_well_formed(t: Lm2CatboostTree, class_count: nat, feature_count: nat) -> bool {
    &&& t.leaf_value_count == pow2(t.split_feature_indices@.len()) * class_count
    &&& forall|j: int|
        0 <= j < t.split_feature_indices@.len() ==> #[trigger] t.split_feature_indices@[j]
            < feature_count
}

/// A numeric CatBoost model can score lines: its schema and kind are the
/// known ones, it has one class and one bias per action, some features and
/// some trees, and every tree is well formed.
pub open spec fn catboost_model_usable(m: Lm2NumericCatboostModel) -> bool {
    &&& m.schema_version@ == "lm2-numeric-catboost-runtime-v1"@
    &&& m.model_type@ == "numeric_catboost_oblivious_trees_v1"@
    &&& m.classes@.len() == 3
    &&& m.bias_len == m.classes@.len()
    &&& m.feature_count > 0
    &&& m.trees@.len() > 0
    &&& forall|i: int|
        0 <= i < m.trees@.len() ==> tree_well_formed(#[trigger] m.trees@[i], 3, m.feature_count as nat)
}

/// The leaf count of every tree, times the number of classes, fits in a
/// machine word.
pub open spec fn catboost_leaf_counts_fit(m: Lm2NumericCatboostModel) -> bool {
    forall|i: int|
        0 <= i < m.trees@.len() ==> pow2(#[trigger] m.trees@[i].split_feature_indices@.len()) * 3
            <= usize::MAX
}

/// `2^depth * classes`, which must fit in a machine word.
fn leaf_values_expected(depth: usize, classes: usize) -> (r: usize)
    requires
        classes > 0,
        pow2(depth as nat) * classes <= usize::MAX,
    ensures r == pow2(depth as nat) * classes,
{
    let mut leaves: usize = 1;
    let mut k: usize = 0;
    proof {
        lemma_pow0(2);
        vstd::arithmetic::power2::lemma_pow2(0);
    }
    while k < depth
        invariant
            k <= depth,
            leaves == pow2(k as nat),
            classes > 0,
            pow2(depth as nat) * classes <= usize::MAX,
        decreases depth - k,
    {
        proof {
            lemma_pow2_unfold((k + 1) as nat);
            lemma_pow2_monotone((k + 1) as nat, depth as nat);
            let p = pow2(depth as nat);
            assert(p <= p * classes) by (nonlinear_arith)
                requires classes > 0, p >= 0;
        }
        leaves = leaves * 2;
        k += 1;
    }
    leaves * classes
}

proof fn lemma_pow2_monotone(a: nat, b: nat)
    requires a <= b,
    ensures pow2(a) <= pow2(b),
    decreases b - a,
{
    if a < b {
        lemma_pow2_monotone(a, (b - 1) as nat);
        lemma_pow2_unfold(b);
    }
}

impl Lm2NumericCatboostModel {
    /// Whether a loaded numeric CatBoost model can score lines.
    pub fn is_usable(&self) -> (r: bool)
        requires catboost_leaf_counts_fit(*self),
        ensures r == catboost_model_usable(*self),
    {
        if !(self.schema_version == "lm2-numeric-catboost-runtime-v1".to_owned()) {
            return false;
        }
        if !(self.model_type == "numeric_catboost_oblivious_trees_v1".to_owned()) {
            return false;
        }
        if self.classes.len() != 3 || self.bias_len != self.classes.len() || self.feature_count == 0
            || self.trees.len() == 0 {
            return false;
        }
        let mut i: usize = 0;
        while i < self.trees.len()
            invariant
                i <= self.trees@.len(),
                self.classes@.len() == 3,
                catboost_leaf_counts_fit(*self),
                forall|k: int|
                    0 <= k < i ==> tree_well_formed(
                        #[trigger] self.trees@[k],
                        3,
                        self.feature_count as nat,
                    ),
            decreases self.trees.len() - i,
        {
            let tree = &self.trees[i];
            let depth = tree.split_feature_indices.len();
            proof {
                assert(pow2(self.trees@[i as int].split_feature_indices@.len()) * 3 <= usize::MAX);
            }
            if tree.leaf_value_count != leaf_values_expected(depth, 3) {
                return false;
            }
            let mut j: usize = 0;
            while j < depth
                invariant
                    j <= depth,
                    i < self.trees@.len(),
                    *tree == self.trees@[i as int],
                    depth == tree.split_feature_indices@.len(),
                    forall|m: int|
                        0 <= m < j ==> #[trigger] tree.split_feature_indices@[m]
                            < self.feature_count,
                decreases depth - j,
            {
                if tree.split_feature_indices[j] >= self.feature_count {
                    proof {
                        assert(!tree_well_formed(self.trees@[i as int], 3, self.feature_count as nat));
                    }
                    return false;
                }
                j += 1;
            }
            i += 1;
        }
        true
    }
}

// ---------------------------------------------------------------------------
// The context model's fold for a document
// ---------------------------------------------------------------------------

/// The per-fold models of the context two-pass model, as the choice of a
/// document's model reads them: which fold held out each training
/// document (keyed by normalized path), the names of the fold models, and
/// the name of the model for documents seen in no fold.
#[derive(Clone, Debug)]
pub struct Lm2ContextTwopassModel {
    pub doc_to_fold: Vec<(String, usize)>,
    pub model_names: Vec<String>,
    pub unseen_doc_model: String,
}

/// The first entry of `entries` keyed by `key`.
pub open spec fn first_key_index(entries: Seq<(String, usize)>, key: Seq<char>) -> Option<int> {
    if exists|i: int| 0 <= i < entries.len() && (#[trigger] entries[i]).0@ == key {
        Some(
            choose|i: int|
                0 <= i < entries.len() && (#[trigger] entries[i]).0@ == key && forall|j: int|
                    0 <= j < i ==> (#[trigger] entries[j]).0@ != key,
        )
    } else {
        None
    }
}

/// The first of `names` equal to `name`.
pub open spec fn first_name_index(names: Seq<String>, name: Seq<char>) -> Option<int> {
    if exists|i: int| 0 <= i < names.len() && (#[trigger] names[i])@ == name {
        Some(
            choose|i: int|
                0 <= i < names.len() && (#[trigger] names[i])@ == name && forall|j: int|
                    0 <= j < i ==> (#[trigger] names[j])@ != name,
        )
    } else {
        None
    }
}

/// The key a document path is looked up by.
pub open spec fn document_key(path: Seq<char>) -> Seq<char> {
    trim(path).map_values(|c: char| path_key_char(c))
}

/// The model for a document: the model of the fold that held the document
/// out, else the model named for unseen documents, else the first model.
pub open spec fn model_index_for_document(m: Lm2ContextTwopassModel, path: Seq<char>) -> Option<int> {
    let by_fold = match first_key_index(m.doc_to_fold@, document_key(path)) {
        Some(k) => first_name_index(
            m.model_names@,
            "fold"@ + decimal_digits(m.doc_to_fold@[k].1 as nat),
        ),
        None => None,
    };
    match by_fold {
        Some(i) => Some(i),
        None => match first_name_index(m.model_names@, m.unseen_doc_model@) {
            Some(i) => Some(i),
            None => if m.model_names@.len() > 0 {
                Some(0)
            } else {
                None
            },
        },
    }
}

fn find_key(entries: &Vec<(String, usize)>, key: &String) -> (r: Option<usize>)
    ensures
        r matches Some(i) ==> i < entries@.len(),
        match r {
            Some(i) => first_key_index(entries@, key@) == Some(i as int),
            None => first_key_index(entries@, key@) is None,
        },
{
    let mut i: usize = 0;
    while i < entries.len()
        invariant
            i <= entries@.len(),
            forall|j: int| 0 <= j < i ==> (#[trigger] entries@[j]).0@ != key@,
        decreases entries.len() - i,
    {
        if entries[i].0 == *key {
            proof {
                let w = i as int;
                assert(0 <= w < entries@.len() && entries@[w].0@ == key@);
                let c = choose|c: int|
                    0 <= c < entries@.len() && (#[trigger] entries@[c]).0@ == key@ && forall|j: int|
                        0 <= j < c ==> (#[trigger] entries@[j]).0@ != key@;
                assert(forall|j: int| 0 <= j < w ==> (#[trigger] entries@[j]).0@ != key@);
                if c < w {
                    assert(entries@[c].0@ != key@);
                } else if c > w {
                    assert(entries@[w].0@ != key@);
                }
            }
            return Some(i);
        }
        i += 1;
    }
    None
}

fn find_name(names: &Vec<String>, name: &String) -> (r: Option<usize>)
    ensures
        match r {
            Some(i) => first_name_index(names@, name@) == Some(i as int),
            None => first_name_index(names@, name@) is None,
        },
{
    let mut i: usize = 0;
    while i < names.len()
        invariant
            i <= names@.len(),
            forall|j: int| 0 <= j < i ==> (#[trigger] names@[j])@ != name@,
        decreases names.len() - i,
    {
        if names[i] == *name {
            proof {
                let w = i as int;
                assert(0 <= w < names@.len() && names@[w]@ == name@);
                let c = choose|c: int|
                    0 <= c < names@.len() && (#[trigger] names@[c])@ == name@ && forall|j: int|
                        0 <= j < c ==> (#[trigger] names@[j])@ != name@;
                if c < w {
                    assert(names@[c]@ != name@);
                } else if c > w {
                    assert(names@[w]@ != name@);
                }
            }
            return Some(i);
        }
        i += 1;
    }
    None
}

impl Lm2ContextTwopassModel {
    /// The index of the model that scores the document at `document_path`:
    /// the model `fold<N>` of the fold that held the document out, else the
    /// model named for unseen documents, else the first model; `None` when
    /// there is no model at all.
    pub fn model_for_document(&self, document_path: &str) -> (r: Option<usize>)
        ensures
            match r {
                Some(i) => model_index_for_document(*self, document_path@) == Some(i as int),
                None => model_index_for_document(*self, document_path@) is None,
            },
    {
        let key = lm2_context_norm_path(document_path);
        let mut by_fold: Option<usize> = None;
        match find_key(&self.doc_to_fold, &key) {
            Some(k) => {
                let mut name = "fold".to_owned();
                push_str(&mut name, usize_to_string(self.doc_to_fold[k].1).as_str());
                by_fold = find_name(&self.model_names, &name);
            },
            None => {},
        }
        match by_fold {
            Some(i) => Some(i),
            None => match find_name(&self.model_names, &self.unseen_doc_model) {
                Some(i) => Some(i),
                None => if self.model_names.len() > 0 {
                    Some(0)
                } else {
                    None
                },
            },
        }
    }
}

} // verus!
