//! The decisions of loading the LM2 decoder runtime: which optional models
//! to load once the line models are known, the warnings that failed or
//! missing loads leave, the model label, and which experimental decoder
//! switches stay in effect.
//!
//! Reading the model files is the host's work; the library decides from what
//! each load found.
use vstd::prelude::*;

use crate::models::{legacy_model_usable, model_is_usable, Lm2Model};
use crate::pipeline::views;
use crate::text::{decimal_digits, push_str, usize_to_string};

verus! {

/// What the host found loading the line models: the FastTab model (its
/// label) if it was requested, and the native CatBoost model.
#[derive(Debug)]
pub struct Lm2LineModelLoads {
    pub fasttab_requested: bool,
    /// The label of the FastTab model, none when its asset is missing, or
    /// why loading failed.
    pub fasttab: Result<Option<String>, String>,
    /// The native CatBoost model, none when its assets are missing, or why
    /// loading failed.
    pub native: Result<Option<Lm2NativeRuntimeModel>, String>,
}

/// The shape and digest of a loaded native CatBoost model.
#[derive(Clone, Debug)]
pub struct Lm2NativeRuntimeModel {
    pub float_feature_count: usize,
    pub cat_feature_count: usize,
    pub text_feature_count: usize,
    pub dimensions_count: usize,
    /// The model file's SHA-256 digest, in hexadecimal.
    pub model_sha256: String,
}

/// The optional models to load once the line models are known.
#[derive(Clone, Copy, Debug)]
pub struct Lm2FollowupLoads {
    pub context_twopass: bool,
    pub context_arbiter: bool,
    pub note_head: bool,
    pub link_ranker: bool,
    pub numeric_catboost: bool,
    pub static_front_overlay: bool,
}

/// A native line model (FastTab or native CatBoost) is loaded.
pub open spec fn line_model_active(l: Lm2LineModelLoads) -> bool {
    (l.fasttab matches Ok(Some(_))) || (l.native matches Ok(Some(_)))
}

/// The context models need a native line model and the two-pass switch;
/// the arbiter needs the native CatBoost model itself, without FastTab; the
/// note-head scorer and link ranker need a native line model; the numeric
/// CatBoost model and the static front overlay are loaded only without one.
pub open spec fn followup_loads(l: Lm2LineModelLoads, context_enabled: bool) -> Lm2FollowupLoads {
    let active = line_model_active(l);
    Lm2FollowupLoads {
        context_twopass: active && context_enabled,
        context_arbiter: (l.native matches Ok(Some(_))) && !(l.fasttab matches Ok(Some(_)))
            && context_enabled,
        note_head: active,
        link_ranker: active,
        numeric_catboost: !active,
        static_front_overlay: !active,
    }
}

fn fasttab_loaded(l: &Lm2LineModelLoads) -> (r: bool)
    ensures r == (l.fasttab matches Ok(Some(_))),
{
    match &l.fasttab {
        Ok(Some(_)) => true,
        _ => false,
    }
}

fn native_loaded(l: &Lm2LineModelLoads) -> (r: bool)
    ensures r == (l.native matches Ok(Some(_))),
{
    match &l.native {
        Ok(Some(_)) => true,
        _ => false,
    }
}

/// Which optional models to load, given the line models and whether the
/// context two-pass model is enabled.
pub fn lm2_runtime_followup_loads(lines: &Lm2LineModelLoads, context_enabled: bool) -> (r:
    Lm2FollowupLoads)
    ensures r == followup_loads(*lines, context_enabled),
{
    let fasttab = fasttab_loaded(lines);
    let native = native_loaded(lines);
    let active = fasttab || native;
    Lm2FollowupLoads {
        context_twopass: active && context_enabled,
        context_arbiter: native && !fasttab && context_enabled,
        note_head: active,
        link_ranker: active,
        numeric_catboost: !active,
        static_front_overlay: !active,
    }
}

/// What the optional loads found: whether each model was found, or why it
/// failed to load. A load that was not attempted is ignored.
#[derive(Debug)]
pub struct Lm2FollowupResults {
    pub context_twopass: Result<bool, String>,
    pub context_arbiter: Result<bool, String>,
    pub note_head: Result<bool, String>,
    pub link_ranker: Result<bool, String>,
    /// When a numeric CatBoost model loaded, the model source it was
    /// configured with (empty when none was configured).
    pub numeric_catboost_source: Option<String>,
}

/// The experimental decoder switches the environment turns on.
#[derive(Clone, Copy, Debug)]
pub struct Lm2ExperimentSwitches {
    pub pp_footnote_region_membership: bool,
    pub marker_decoder_prior: bool,
    pub small_font_decoder_prior: bool,
    pub small_font_sequence_prior: bool,
    pub anchored_marginalia_flow_guard: bool,
    pub body_preservation_guard: bool,
    pub action_neutral_blocksplit: bool,
    pub toc_overlay: bool,
    pub front_matter_guard: bool,
    pub marginalia_preservation_guard: bool,
}

/// The optional models the runtime keeps.
#[derive(Clone, Copy, Debug)]
pub struct Lm2LoadedModels {
    pub context_twopass: bool,
    pub context_arbiter: bool,
    pub note_head: bool,
    pub link_ranker: bool,
    pub numeric_catboost: bool,
}

/// The optional models kept: those the plan loads and that were found; the
/// link ranker only together with the note-head scorer it authenticates
/// against.
pub open spec fn loaded_models(
    l: Lm2LineModelLoads,
    context_enabled: bool,
    f: Lm2FollowupResults,
) -> Lm2LoadedModels {
    let plan = followup_loads(l, context_enabled);
    let note_head = plan.note_head && f.note_head == Ok::<bool, String>(true);
    Lm2LoadedModels {
        context_twopass: plan.context_twopass && f.context_twopass == Ok::<bool, String>(true),
        context_arbiter: plan.context_arbiter && f.context_arbiter == Ok::<bool, String>(true),
        note_head,
        link_ranker: plan.link_ranker && f.link_ranker == Ok::<bool, String>(true) && note_head,
        numeric_catboost: plan.numeric_catboost && f.numeric_catboost_source is Some,
    }
}

fn found(r: &Result<bool, String>) -> (b: bool)
    ensures b == (*r == Ok::<bool, String>(true)),
{
    match r {
        Ok(x) => *x,
        Err(_) => false,
    }
}

/// What the runtime load decided.
#[derive(Clone, Debug)]
pub struct Lm2RuntimeLoadReport {
    pub native_line_model_active: bool,
    pub model_label: String,
    pub load_warnings: Vec<String>,
    /// The experimental switches in effect (none with a native line model).
    pub experiments: Lm2ExperimentSwitches,
    /// The decoder keeps its default score scales (with a native line
    /// model) rather than the configured ones.
    pub default_score_scales: bool,
    /// The legacy hashed-softmax model is usable and kept.
    pub legacy_model_kept: bool,
    /// The optional models kept.
    pub loaded: Lm2LoadedModels,
}

/// One warning when `failed` holds the load error `e`: `prefix` and `e`.
pub open spec fn failure_warning(r: Result<bool, String>, prefix: Seq<char>) -> Seq<Seq<char>> {
    match r {
        Err(e) => seq![prefix + e@],
        Ok(_) => Seq::empty(),
    }
}

/// The warning of an attempted load that found nothing (`missing`) or
/// failed (`prefix` and the error).
pub open spec fn load_warning(
    attempted: bool,
    r: Result<bool, String>,
    missing: Seq<char>,
    prefix: Seq<char>,
) -> Seq<Seq<char>> {
    if !attempted {
        Seq::empty()
    } else {
        match r {
            Ok(true) => Seq::empty(),
            Ok(false) => seq![missing],
            Err(e) => seq![prefix + e@],
        }
    }
}

/// The FastTab load's warning: a requested but missing asset, or a failed
/// load.
pub open spec fn fasttab_warning(l: Lm2LineModelLoads) -> Seq<Seq<char>> {
    match l.fasttab {
        Ok(Some(_)) => Seq::empty(),
        Ok(None) => if l.fasttab_requested {
            seq!["Requested FastTab runtime asset was not found; retaining CatBoost default."@]
        } else {
            Seq::empty()
        },
        Err(e) => seq![
            "Requested FastTab runtime failed to load; retaining CatBoost default: "@ + e@,
        ],
    }
}

/// The native CatBoost load's warning: missing assets or a failed load.
pub open spec fn native_warning(l: Lm2LineModelLoads) -> Seq<Seq<char>> {
    match l.native {
        Ok(Some(_)) => Seq::empty(),
        Ok(None) => seq![
            "Promoted native CatBoost runtime assets were not found; using fallback emissions."@,
        ],
        Err(e) => seq![
            "Promoted native CatBoost runtime failed to load; using fallback emissions: "@ + e@,
        ],
    }
}

/// The warnings of the runtime load, in the order of the loads.
pub open spec fn runtime_load_warnings(
    l: Lm2LineModelLoads,
    context_enabled: bool,
    f: Lm2FollowupResults,
) -> Seq<Seq<char>> {
    let plan = followup_loads(l, context_enabled);
    fasttab_warning(l) + native_warning(l) + load_warning(
        plan.context_twopass,
        f.context_twopass,
        "Promoted context two-pass model was not found; using native emissions only."@,
        "Promoted context two-pass model failed to load; using native emissions only: "@,
    ) + (if plan.context_arbiter {
        failure_warning(
            f.context_arbiter,
            "Optional context arbiter failed to load; retaining the promoted context model only: "@,
        )
    } else {
        Seq::empty()
    }) + (if plan.note_head {
        failure_warning(f.note_head, "Optional learned note-head scorer failed to load: "@)
    } else {
        Seq::empty()
    }) + (if plan.link_ranker {
        failure_warning(f.link_ranker, "Optional learned footnote link ranker failed to load: "@)
    } else {
        Seq::empty()
    })
}

/// The label of the native CatBoost model: its counts and the first 16
/// characters of its digest.
pub open spec fn native_runtime_label(m: Lm2NativeRuntimeModel) -> Seq<char> {
    "lm2-native-catboost-text-runtime:f"@ + decimal_digits(m.float_feature_count as nat) + "c"@
        + decimal_digits(m.cat_feature_count as nat) + "t"@ + decimal_digits(
        m.text_feature_count as nat,
    ) + "d"@ + decimal_digits(m.dimensions_count as nat) + ":sha"@ + m.model_sha256@.subrange(
        0,
        16,
    )
}

/// The 64-bit FNV-1a hash of the bytes.
pub open spec fn fnv1a64(bytes: Seq<u8>) -> u64
    decreases bytes.len(),
{
    if bytes.len() == 0 {
        0xcbf29ce484222325u64
    } else {
        (fnv1a64(bytes.drop_last()) ^ (bytes.last() as u64)).wrapping_mul(0x100000001b3u64)
    }
}

/// A lower-case hexadecimal digit.
pub open spec fn hex_digit(d: u64) -> char {
    if d < 10 {
        ((48 + d) as u8) as char
    } else {
        ((87 + d) as u8) as char
    }
}

/// The last `n` hexadecimal digits of `h`, zero-padded (`{:0nx}` for values
/// below `16^n`).
pub open spec fn hex_digits(h: u64, n: nat) -> Seq<char>
    decreases n,
{
    if n == 0 {
        Seq::empty()
    } else {
        hex_digits(h / 16, (n - 1) as nat).push(hex_digit(h % 16))
    }
}

/// The label of a numeric CatBoost model: the FNV-1a hash of its configured
/// source (in UTF-8), as sixteen hexadecimal digits.
pub open spec fn numeric_runtime_label(source: Seq<char>) -> Seq<char> {
    "lm2-numeric-catboost-runtime:"@ + hex_digits(fnv1a64(vstd::utf8::encode_utf8(source)), 16)
}

fn hex_digits_exec(h: u64, n: usize) -> (r: Vec<char>)
    ensures r@ == hex_digits(h, n as nat),
    decreases n,
{
    if n == 0 {
        Vec::new()
    } else {
        let mut v = hex_digits_exec(h / 16, n - 1);
        let d = h % 16;
        let c = if d < 10 {
            ((48 + d) as u8) as char
        } else {
            ((87 + d) as u8) as char
        };
        v.push(c);
        v
    }
}

/// The label of a numeric CatBoost model configured with `source`.
pub fn lm2_numeric_catboost_label(source: &str) -> (r: String)
    ensures r@ == numeric_runtime_label(source@),
{
    let bytes = source.as_bytes_vec();
    let mut h: u64 = 0xcbf29ce484222325u64;
    let mut i: usize = 0;
    while i < bytes.len()
        invariant
            i <= bytes@.len(),
            bytes@ == vstd::utf8::encode_utf8(source@),
            h == fnv1a64(bytes@.subrange(0, i as int)),
        decreases bytes.len() - i,
    {
        proof {
            assert(bytes@.subrange(0, i + 1).drop_last() =~= bytes@.subrange(0, i as int));
        }
        h = (h ^ (bytes[i] as u64)).wrapping_mul(0x100000001b3u64);
        i += 1;
    }
    proof {
        assert(bytes@.subrange(0, bytes@.len() as int) =~= bytes@);
    }
    let digits = hex_digits_exec(h, 16);
    let mut label = "lm2-numeric-catboost-runtime:".to_owned();
    push_str(&mut label, crate::text::string_of(digits.as_slice()).as_str());
    label
}

/// The runtime's model label: the FastTab model's, else the native
/// CatBoost model's, else the numeric CatBoost model's (without a native
/// line model), else the usable legacy model's id, else the heuristic
/// fallback.
pub open spec fn runtime_model_label(
    l: Lm2LineModelLoads,
    f: Lm2FollowupResults,
    legacy: Option<Lm2Model>,
) -> Seq<char> {
    match l.fasttab {
        Ok(Some(label)) => label@,
        _ => match l.native {
            Ok(Some(m)) => native_runtime_label(m),
            _ => match f.numeric_catboost_source {
                Some(source) => numeric_runtime_label(source@),
                None => match legacy {
                    Some(m) => if legacy_model_usable(m) {
                        m.model_id@
                    } else {
                        "lm2-heuristic-fallback"@
                    },
                    None => "lm2-heuristic-fallback"@,
                },
            },
        },
    }
}

/// The experimental switches in effect: those the environment turns on,
/// and none at all with a native line model.
pub open spec fn gated_experiments(active: bool, e: Lm2ExperimentSwitches) -> Lm2ExperimentSwitches {
    Lm2ExperimentSwitches {
        pp_footnote_region_membership: !active && e.pp_footnote_region_membership,
        marker_decoder_prior: !active && e.marker_decoder_prior,
        small_font_decoder_prior: !active && e.small_font_decoder_prior,
        small_font_sequence_prior: !active && e.small_font_sequence_prior,
        anchored_marginalia_flow_guard: !active && e.anchored_marginalia_flow_guard,
        body_preservation_guard: !active && e.body_preservation_guard,
        action_neutral_blocksplit: !active && e.action_neutral_blocksplit,
        toc_overlay: !active && e.toc_overlay,
        front_matter_guard: !active && e.front_matter_guard,
        marginalia_preservation_guard: !active && e.marginalia_preservation_guard,
    }
}

/// No experimental switch is on.
pub open spec fn no_experiments(e: Lm2ExperimentSwitches) -> bool {
    !e.pp_footnote_region_membership && !e.marker_decoder_prior && !e.small_font_decoder_prior
        && !e.small_font_sequence_prior && !e.anchored_marginalia_flow_guard
        && !e.body_preservation_guard && !e.action_neutral_blocksplit && !e.toc_overlay
        && !e.front_matter_guard && !e.marginalia_preservation_guard
}

/// The digest of a loaded native model has at least 16 characters.
pub open spec fn native_digest_long_enough(l: Lm2LineModelLoads) -> bool {
    l.native matches Ok(Some(m)) ==> m.model_sha256@.len() >= 16
}

fn push_warning(w: &mut Vec<String>, m: String)
    ensures views(final(w)@) == views(old(w)@) + seq![m@],
{
    let ghost before = w@;
    w.push(m);
    proof {
        assert(views(w@) =~= views(before) + seq![m@]);
    }
}

fn push_failure(w: &mut Vec<String>, r: &Result<bool, String>, prefix: &str)
    ensures views(final(w)@) == views(old(w)@) + failure_warning(*r, prefix@),
{
    match r {
        Err(e) => {
            let mut m = prefix.to_owned();
            push_str(&mut m, e.as_str());
            push_warning(w, m);
        },
        Ok(_) => {
            proof {
                assert(views(w@) + Seq::<Seq<char>>::empty() =~= views(w@));
            }
        },
    }
}

fn native_runtime_label_exec(m: &Lm2NativeRuntimeModel) -> (r: String)
    requires m.model_sha256@.len() >= 16,
    ensures r@ == native_runtime_label(*m),
{
    let mut s = "lm2-native-catboost-text-runtime:f".to_owned();
    push_str(&mut s, usize_to_string(m.float_feature_count).as_str());
    push_str(&mut s, "c");
    push_str(&mut s, usize_to_string(m.cat_feature_count).as_str());
    push_str(&mut s, "t");
    push_str(&mut s, usize_to_string(m.text_feature_count).as_str());
    push_str(&mut s, "d");
    push_str(&mut s, usize_to_string(m.dimensions_count).as_str());
    push_str(&mut s, ":sha");
    let digest = crate::text::chars_vec(m.model_sha256.as_str());
    let mut i: usize = 0;
    let ghost base = s@;
    while i < 16
        invariant
            i <= 16,
            digest@ == m.model_sha256@,
            digest@.len() >= 16,
            s@ == base + digest@.subrange(0, i as int),
        decreases 16 - i,
    {
        crate::text::string_push(&mut s, digest[i]);
        i += 1;
        proof {
            assert(s@ =~= base + digest@.subrange(0, i as int));
        }
    }
    s
}

/// Decides the runtime from what the loads found: whether a native line
/// model is active, the warnings of failed or missing loads in load order,
/// the model label, the experimental switches in effect, whether the
/// default score scales apply, and whether the legacy model is kept.
pub fn lm2_runtime_load_report(
    lines: &Lm2LineModelLoads,
    context_enabled: bool,
    followups: &Lm2FollowupResults,
    legacy: &Option<Lm2Model>,
    experiments: Lm2ExperimentSwitches,
) -> (r: Lm2RuntimeLoadReport)
    requires
        native_digest_long_enough(*lines),
    ensures
        r.native_line_model_active == line_model_active(*lines),
        views(r.load_warnings@) == runtime_load_warnings(*lines, context_enabled, *followups),
        r.model_label@ == runtime_model_label(*lines, *followups, *legacy),
        r.experiments == gated_experiments(line_model_active(*lines), experiments),
        r.default_score_scales == line_model_active(*lines),
        r.legacy_model_kept == (*legacy matches Some(m) && legacy_model_usable(m)),
        r.native_line_model_active ==> no_experiments(r.experiments) && r.default_score_scales
            && !r.loaded.numeric_catboost,
        r.loaded == loaded_models(*lines, context_enabled, *followups),
        r.loaded.context_arbiter ==> (lines.native matches Ok(Some(_))) && !(lines.fasttab matches Ok(
            Some(_),
        )),
        r.loaded.context_twopass || r.loaded.note_head ==> r.native_line_model_active,
        r.loaded.link_ranker ==> r.loaded.note_head,
        !(lines.fasttab matches Ok(Some(_))) && !(lines.native matches Ok(Some(_)))
            && followups.numeric_catboost_source is None && !r.legacy_model_kept ==> r.model_label@
            == "lm2-heuristic-fallback"@,
{
    let plan = lm2_runtime_followup_loads(lines, context_enabled);
    let active = fasttab_loaded(lines) || native_loaded(lines);
    let mut w: Vec<String> = Vec::new();
    let ghost w0 = views(w@);
    match &lines.fasttab {
        Ok(Some(_)) => {},
        Ok(None) => {
            if lines.fasttab_requested {
                push_warning(
                    &mut w,
                    "Requested FastTab runtime asset was not found; retaining CatBoost default.".to_owned(),
                );
            }
        },
        Err(e) => {
            let mut m = "Requested FastTab runtime failed to load; retaining CatBoost default: ".to_owned();
            push_str(&mut m, e.as_str());
            push_warning(&mut w, m);
        },
    }
    let ghost w1 = views(w@);
    assert(w1 =~= w0 + fasttab_warning(*lines));
    match &lines.native {
        Ok(Some(_)) => {},
        Ok(None) => {
            push_warning(
                &mut w,
                "Promoted native CatBoost runtime assets were not found; using fallback emissions.".to_owned(),
            );
        },
        Err(e) => {
            let mut m = "Promoted native CatBoost runtime failed to load; using fallback emissions: ".to_owned();
            push_str(&mut m, e.as_str());
            push_warning(&mut w, m);
        },
    }
    let ghost w2 = views(w@);
    assert(w2 =~= w1 + native_warning(*lines));
    if plan.context_twopass {
        match &followups.context_twopass {
            Ok(true) => {},
            Ok(false) => {
                push_warning(
                    &mut w,
                    "Promoted context two-pass model was not found; using native emissions only.".to_owned(),
                );
            },
            Err(e) => {
                let mut m = "Promoted context two-pass model failed to load; using native emissions only: ".to_owned();
                push_str(&mut m, e.as_str());
                push_warning(&mut w, m);
            },
        }
    }
    let ghost w3 = views(w@);
    assert(w3 =~= w2 + load_warning(
        plan.context_twopass,
        followups.context_twopass,
        "Promoted context two-pass model was not found; using native emissions only."@,
        "Promoted context two-pass model failed to load; using native emissions only: "@,
    ));
    if plan.context_arbiter {
        push_failure(
            &mut w,
            &followups.context_arbiter,
            "Optional context arbiter failed to load; retaining the promoted context model only: ",
        );
    }
    let ghost w4 = views(w@);
    if plan.note_head {
        push_failure(&mut w, &followups.note_head, "Optional learned note-head scorer failed to load: ");
    }
    let ghost w5 = views(w@);
    if plan.link_ranker {
        push_failure(
            &mut w,
            &followups.link_ranker,
            "Optional learned footnote link ranker failed to load: ",
        );
    }
    proof {
        if !plan.context_arbiter {
            assert(w4 =~= w3 + Seq::<Seq<char>>::empty());
        }
        if !plan.note_head {
            assert(w5 =~= w4 + Seq::<Seq<char>>::empty());
        }
        if !plan.link_ranker {
            assert(views(w@) =~= w5 + Seq::<Seq<char>>::empty());
        }
        assert(views(w@) =~= runtime_load_warnings(*lines, context_enabled, *followups));
    }
    let legacy_kept = match legacy {
        Some(m) => model_is_usable(m),
        None => false,
    };
    let model_label = match &lines.fasttab {
        Ok(Some(label)) => label.clone(),
        _ => match &lines.native {
            Ok(Some(m)) => native_runtime_label_exec(m),
            _ => match &followups.numeric_catboost_source {
                Some(source) => lm2_numeric_catboost_label(source.as_str()),
                None => match legacy {
                    Some(m) if legacy_kept => m.model_id.clone(),
                    _ => "lm2-heuristic-fallback".to_owned(),
                },
            },
        },
    };
    let gated = Lm2ExperimentSwitches {
        pp_footnote_region_membership: !active && experiments.pp_footnote_region_membership,
        marker_decoder_prior: !active && experiments.marker_decoder_prior,
        small_font_decoder_prior: !active && experiments.small_font_decoder_prior,
        small_font_sequence_prior: !active && experiments.small_font_sequence_prior,
        anchored_marginalia_flow_guard: !active && experiments.anchored_marginalia_flow_guard,
        body_preservation_guard: !active && experiments.body_preservation_guard,
        action_neutral_blocksplit: !active && experiments.action_neutral_blocksplit,
        toc_overlay: !active && experiments.toc_overlay,
        front_matter_guard: !active && experiments.front_matter_guard,
        marginalia_preservation_guard: !active && experiments.marginalia_preservation_guard,
    };
    let note_head = plan.note_head && found(&followups.note_head);
    let numeric = match &followups.numeric_catboost_source {
        Some(_) => true,
        None => false,
    };
    let loaded = Lm2LoadedModels {
        context_twopass: plan.context_twopass && found(&followups.context_twopass),
        context_arbiter: plan.context_arbiter && found(&followups.context_arbiter),
        note_head,
        link_ranker: plan.link_ranker && found(&followups.link_ranker) && note_head,
        numeric_catboost: plan.numeric_catboost && numeric,
    };
    Lm2RuntimeLoadReport {
        loaded,
        native_line_model_active: active,
        model_label,
        load_warnings: w,
        experiments: gated,
        default_score_scales: active,
        legacy_model_kept: legacy_kept,
    }
}

/// With a native line model the runtime is the plain one: no
/// experimental switch is on, the numeric CatBoost model and the static
/// front overlay are not loaded, and the context models, note-head scorer
/// and link ranker are loaded only as the native model allows.
pub proof fn lemma_native_runtime_is_plain(
    l: Lm2LineModelLoads,
    context_enabled: bool,
    f: Lm2FollowupResults,
    e: Lm2ExperimentSwitches,
)
    requires line_model_active(l),
    ensures
        no_experiments(gated_experiments(line_model_active(l), e)),
        !loaded_models(l, context_enabled, f).numeric_catboost,
        !followup_loads(l, context_enabled).static_front_overlay,
        loaded_models(l, context_enabled, f).context_arbiter ==> !(l.fasttab matches Ok(Some(_))),
        loaded_models(l, context_enabled, f).link_ranker ==> loaded_models(l, context_enabled, f).note_head,
{
}

} // verus!
