//! The LM2 runtime status report: which runtime tier the installed assets
//! provide, whether the caller's requirements are met, and the command-line
//! arguments of the status command.
use vstd::prelude::*;

use crate::models::{legacy_model_usable, model_is_usable, Lm2Model};
use crate::pipeline::{join_strings, joined, views};
use crate::text::{concat3, decimal_digits, push_str, usize_to_string};

verus! {

// ---------------------------------------------------------------------------
// Arguments
// ---------------------------------------------------------------------------

/// The options of the runtime-status command.
#[derive(Clone, Debug)]
pub struct Lm2StatusArgs {
    pub require_native: bool,
    pub require_context: bool,
    pub output_path: Option<String>,
}

/// The options after reading `args[i..]` on top of `acc`: the command's own
/// flag is skipped, `--output` takes the next argument as its path, and any
/// other argument is an error.
pub open spec fn status_args_from(
    args: Seq<String>,
    i: int,
    acc: Lm2StatusArgs,
) -> Result<Lm2StatusArgs, Seq<char>>
    decreases args.len() - i,
{
    if i < 0 || i >= args.len() {
        Ok(acc)
    } else {
        let a = args[i]@;
        if a == "--lm2-runtime-status"@ {
            status_args_from(args, i + 1, acc)
        } else if a == "--require-native"@ {
            status_args_from(args, i + 1, Lm2StatusArgs { require_native: true, ..acc })
        } else if a == "--require-context"@ {
            status_args_from(args, i + 1, Lm2StatusArgs { require_context: true, ..acc })
        } else if a == "--output"@ {
            if i + 1 < args.len() {
                status_args_from(args, i + 2, Lm2StatusArgs { output_path: Some(args[i + 1]), ..acc })
            } else {
                Err("--output needs a destination path"@)
            }
        } else {
            Err("unknown LM2 runtime-status argument: "@ + a)
        }
    }
}

/// The options of the runtime-status command, read from its arguments.
pub open spec fn status_args(args: Seq<String>) -> Result<Lm2StatusArgs, Seq<char>> {
    status_args_from(
        args,
        0,
        Lm2StatusArgs { require_native: false, require_context: false, output_path: None },
    )
}

/// Reads the runtime-status command's arguments: `--require-native`,
/// `--require-context` and `--output PATH` (the command's own
/// `--lm2-runtime-status` flag is ignored).
pub fn lm2_runtime_status_args(args: &[String]) -> (r: Result<Lm2StatusArgs, String>)
    ensures
        match r {
            Ok(a) => status_args(args@) == Ok::<Lm2StatusArgs, Seq<char>>(a),
            Err(e) => status_args(args@) == Err::<Lm2StatusArgs, Seq<char>>(e@),
        },
{
    let mut acc = Lm2StatusArgs { require_native: false, require_context: false, output_path: None };
    let mut i: usize = 0;
    while i < args.len()
        invariant
            i <= args@.len(),
            status_args(args@) == status_args_from(args@, i as int, acc),
        decreases args.len() - i,
    {
        let a = &args[i];
        if *a == "--lm2-runtime-status".to_owned() {
            i += 1;
        } else if *a == "--require-native".to_owned() {
            acc = Lm2StatusArgs { require_native: true, ..acc };
            i += 1;
        } else if *a == "--require-context".to_owned() {
            acc = Lm2StatusArgs { require_context: true, ..acc };
            i += 1;
        } else if *a == "--output".to_owned() {
            if i + 1 < args.len() {
                acc = Lm2StatusArgs { output_path: Some(args[i + 1].clone()), ..acc };
                i += 2;
            } else {
                return Err("--output needs a destination path".to_owned());
            }
        } else {
            let mut msg = "unknown LM2 runtime-status argument: ".to_owned();
            push_str(&mut msg, a.as_str());
            return Err(msg);
        }
    }
    Ok(acc)
}

// ---------------------------------------------------------------------------
// The report
// ---------------------------------------------------------------------------

/// The shape of a loaded native CatBoost model.
#[derive(Clone, Copy, Debug)]
pub struct Lm2NativeModelInfo {
    pub float_feature_count: usize,
    pub cat_feature_count: usize,
    pub text_feature_count: usize,
    pub dimensions_count: usize,
}

/// What probing the installed runtime assets found.
#[derive(Debug)]
pub struct Lm2RuntimeProbe {
    pub app_version: String,
    pub platform: String,
    pub native_model_path: Option<String>,
    pub native_library_path: Option<String>,
    pub context_model_path: Option<String>,
    /// The native model, none when its assets are missing, or why loading
    /// failed.
    pub native_model: Result<Option<Lm2NativeModelInfo>, String>,
    /// Whether the context two-pass model loaded (probed only with a native
    /// model), or why loading failed.
    pub context_model: Result<bool, String>,
    /// LiquidVision is enabled and its feature model is available.
    pub liquidvision_available: bool,
    /// The legacy hashed-softmax model, if one loaded.
    pub legacy_model: Option<Lm2Model>,
}

/// The runtime status report.
#[derive(Clone, Debug)]
pub struct Lm2RuntimeStatus {
    pub schema_version: String,
    pub app_version: String,
    pub platform: String,
    pub runtime_tier: String,
    pub model_label: String,
    pub native_catboost_active: bool,
    pub context_twopass_active: bool,
    pub liquidvision_active: bool,
    pub legacy_model_available: bool,
    pub native_model_path: Option<String>,
    pub native_library_path: Option<String>,
    pub context_model_path: Option<String>,
    pub require_native: bool,
    pub require_context: bool,
    pub requirements_met: bool,
    pub errors: Vec<String>,
}

/// The native model is loaded.
pub open spec fn native_active(p: Lm2RuntimeProbe) -> bool {
    p.native_model matches Ok(Some(_))
}

/// The context model is loaded (only ever with a native model).
pub open spec fn context_active(p: Lm2RuntimeProbe) -> bool {
    native_active(p) && p.context_model == Ok::<bool, String>(true)
}

/// The errors of a status report, in order.
pub open spec fn status_errors(p: Lm2RuntimeProbe, require_native: bool, require_context: bool) -> Seq<
    Seq<char>,
> {
    let load = match p.native_model {
        Err(e) => seq!["native CatBoost load failed: "@ + e@],
        Ok(_) => Seq::empty(),
    };
    let missing = if require_native && !native_active(p) && load.len() == 0 {
        seq!["required native CatBoost model/library assets were not found"@]
    } else {
        Seq::empty()
    };
    let context_load = match p.context_model {
        Err(e) => if native_active(p) {
            seq!["context two-pass load failed: "@ + e@]
        } else {
            Seq::empty()
        },
        Ok(_) => Seq::empty(),
    };
    let context_missing = if require_context && !context_active(p) {
        seq!["required context two-pass model was not loaded"@]
    } else {
        Seq::empty()
    };
    let vision_missing = if require_native && !(native_active(p) && p.liquidvision_available) {
        seq!["required LiquidVision feature model was not loaded"@]
    } else {
        Seq::empty()
    };
    load + missing + context_load + context_missing + vision_missing
}

/// The legacy model, if one loaded and it can score lines.
pub open spec fn usable_legacy_model(p: Lm2RuntimeProbe) -> Option<Lm2Model> {
    match p.legacy_model {
        Some(m) => if legacy_model_usable(m) {
            Some(m)
        } else {
            None
        },
        None => None,
    }
}

/// The label of a native model: its feature and dimension counts.
pub open spec fn native_label(m: Lm2NativeModelInfo) -> Seq<char> {
    "lm2-native-catboost-text-runtime:f"@ + decimal_digits(m.float_feature_count as nat) + "c"@
        + decimal_digits(m.cat_feature_count as nat) + "t"@ + decimal_digits(
        m.text_feature_count as nat,
    ) + "d"@ + decimal_digits(m.dimensions_count as nat)
}

/// The runtime tier and model label: the native model (with or without the
/// context model), else the legacy model, else the heuristic fallback.
pub open spec fn status_tier(p: Lm2RuntimeProbe) -> (Seq<char>, Seq<char>) {
    match p.native_model {
        Ok(Some(m)) => (
            if context_active(p) {
                "native_catboost_context"@
            } else {
                "native_catboost"@
            },
            native_label(m),
        ),
        _ => match usable_legacy_model(p) {
            Some(m) => ("legacy_hashed_softmax"@, m.model_id@),
            None => ("heuristic_fallback"@, "lm2-heuristic-fallback"@),
        },
    }
}

/// `s` is the status report of probe `p` for the given requirements.
pub open spec fn is_status_report(
    s: Lm2RuntimeStatus,
    p: Lm2RuntimeProbe,
    require_native: bool,
    require_context: bool,
) -> bool {
    &&& s.schema_version@ == "lm2-runtime-status-v1"@
    &&& s.app_version == p.app_version
    &&& s.platform == p.platform
    &&& (s.runtime_tier@, s.model_label@) == status_tier(p)
    &&& s.native_catboost_active == native_active(p)
    &&& s.context_twopass_active == context_active(p)
    &&& s.liquidvision_active == (native_active(p) && p.liquidvision_available)
    &&& s.legacy_model_available == (usable_legacy_model(p) is Some)
    &&& s.native_model_path == p.native_model_path
    &&& s.native_library_path == p.native_library_path
    &&& s.context_model_path == p.context_model_path
    &&& s.require_native == require_native
    &&& s.require_context == require_context
    &&& views(s.errors@) == status_errors(p, require_native, require_context)
    &&& s.requirements_met == ((!require_native || native_active(p)) && (!require_native || (
    native_active(p) && p.liquidvision_available)) && (!require_context || context_active(p))
        && status_errors(p, require_native, require_context).len() == 0)
}

fn native_label_exec(m: &Lm2NativeModelInfo) -> (r: String)
    ensures r@ == native_label(*m),
{
    let mut s = "lm2-native-catboost-text-runtime:f".to_owned();
    push_str(&mut s, usize_to_string(m.float_feature_count).as_str());
    push_str(&mut s, "c");
    push_str(&mut s, usize_to_string(m.cat_feature_count).as_str());
    push_str(&mut s, "t");
    push_str(&mut s, usize_to_string(m.text_feature_count).as_str());
    push_str(&mut s, "d");
    push_str(&mut s, usize_to_string(m.dimensions_count).as_str());
    s
}

fn push_error(errors: &mut Vec<String>, e: String)
    ensures views(final(errors)@) == views(old(errors)@) + seq![e@],
{
    let ghost before = errors@;
    errors.push(e);
    proof {
        assert(views(errors@) =~= views(before) + seq![e@]);
    }
}

/// The status report for a probe of the runtime assets and the caller's
/// requirements.
pub fn lm2_runtime_status(probe: Lm2RuntimeProbe, require_native: bool, require_context: bool) -> (s:
    Lm2RuntimeStatus)
    ensures is_status_report(s, probe, require_native, require_context),
{
    let ghost p = probe;
    let native_active = match &probe.native_model {
        Ok(Some(_)) => true,
        _ => false,
    };
    let context_active = native_active && match &probe.context_model {
        Ok(b) => *b,
        Err(_) => false,
    };
    assert(context_active == crate::status::context_active(p));
    let mut errors: Vec<String> = Vec::new();
    proof {
        assert(views(errors@) =~= Seq::<Seq<char>>::empty());
    }
    let ghost e0 = views(errors@);
    match &probe.native_model {
        Err(e) => push_error(&mut errors, concat3("native CatBoost load failed: ", e.as_str(), "")),
        Ok(_) => {},
    }
    proof {
        reveal_strlit("");
        match p.native_model {
            Err(e) => {
                assert("native CatBoost load failed: "@ + e@ + ""@ =~= "native CatBoost load failed: "@ + e@);
            },
            Ok(_) => {},
        }
    }
    let ghost e1 = views(errors@);
    let load_failed = errors.len() > 0;
    if require_native && !native_active && !load_failed {
        push_error(&mut errors, "required native CatBoost model/library assets were not found".to_owned());
    }
    let ghost e2 = views(errors@);
    if native_active {
        match &probe.context_model {
            Err(e) => push_error(&mut errors, concat3("context two-pass load failed: ", e.as_str(), "")),
            Ok(_) => {},
        }
    }
    proof {
        match p.context_model {
            Err(e) => {
                assert("context two-pass load failed: "@ + e@ + ""@ =~= "context two-pass load failed: "@ + e@);
            },
            Ok(_) => {},
        }
    }
    let ghost e3 = views(errors@);
    if require_context && !context_active {
        push_error(&mut errors, "required context two-pass model was not loaded".to_owned());
    }
    let ghost e4 = views(errors@);
    let liquidvision_active = native_active && probe.liquidvision_available;
    if require_native && !liquidvision_active {
        push_error(&mut errors, "required LiquidVision feature model was not loaded".to_owned());
    }
    proof {
        let q = status_errors(p, require_native, require_context);
        assert(views(errors@) =~= q);
    }
    let legacy_model_available = match &probe.legacy_model {
        Some(m) => model_is_usable(m),
        None => false,
    };
    let (runtime_tier, model_label) = match &probe.native_model {
        Ok(Some(m)) => (
            if context_active {
                "native_catboost_context".to_owned()
            } else {
                "native_catboost".to_owned()
            },
            native_label_exec(m),
        ),
        _ => match &probe.legacy_model {
            Some(m) if legacy_model_available => (
                "legacy_hashed_softmax".to_owned(),
                m.model_id.clone(),
            ),
            _ => ("heuristic_fallback".to_owned(), "lm2-heuristic-fallback".to_owned()),
        },
    };
    let requirements_met = (!require_native || native_active) && (!require_native
        || liquidvision_active) && (!require_context || context_active) && errors.len() == 0;
    proof {
        assert(views(errors@).len() == errors@.len());
    }
    Lm2RuntimeStatus {
        schema_version: "lm2-runtime-status-v1".to_owned(),
        app_version: probe.app_version,
        platform: probe.platform,
        runtime_tier,
        model_label,
        native_catboost_active: native_active,
        context_twopass_active: context_active,
        liquidvision_active,
        legacy_model_available,
        native_model_path: probe.native_model_path,
        native_library_path: probe.native_library_path,
        context_model_path: probe.context_model_path,
        require_native,
        require_context,
        requirements_met,
        errors,
    }
}

/// The outcome of the status command: success when the report's
/// requirements are met, else its errors joined by `; `.
pub fn lm2_runtime_status_outcome(status: &Lm2RuntimeStatus) -> (r: Result<(), String>)
    ensures
        match r {
            Ok(_) => status.requirements_met,
            Err(e) => !status.requirements_met && e@ == joined(status.errors@, "; "@),
        },
{
    if status.requirements_met {
        Ok(())
    } else {
        Err(join_strings(&status.errors, "; "))
    }
}

} // verus!
