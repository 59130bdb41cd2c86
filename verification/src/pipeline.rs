//! The Review Mode (LM2) document pipeline: which cached document may be
//! reused, when a document has no text at all, how the decoded lines and
//! assembled blocks become the final document, and which notices it carries.
//!
//! Loading the runtime, reading and writing the document cache, measuring
//! time, decoding lines and assembling blocks happen around these functions;
//! their results come in as plain values.
use vstd::prelude::*;

use vstd::seq_lib::lemma_concat_associative;

use crate::captions::{caption_band, lm2_caption_band};
use crate::text::{concat3, push_str, trim, trim_bounds, chars_vec, decimal_digits, usize_to_string};
use crate::types::{LiquidBlock, LiquidBlockSourceLines, Lm2Action, Lm2SourceLine};

verus! {

// ---------------------------------------------------------------------------
// Data
// ---------------------------------------------------------------------------

/// A request to prepare the Review Mode document of one PDF.
#[derive(Clone, Debug)]
pub struct LiquidMode2Request {
    pub title: String,
    pub page_count: usize,
    pub deep_source_lines: Vec<Lm2SourceLine>,
    pub use_pp_footnote_regions: bool,
    pub use_pymupdf_blocks: bool,
}

/// One article of a bound volume: where it starts and where the next one
/// starts (`end_*`), and the evidence its boundary rests on.
#[derive(Clone, Debug)]
pub struct ArticleSpan {
    pub article_index: usize,
    pub start_page_index: usize,
    pub start_line_index: usize,
    pub end_page_index: usize,
    pub end_line_index: usize,
    /// The boundary score is at most the typography-only threshold.
    pub low_confidence: bool,
    pub title_hint: Option<String>,
    pub evidence_kinds: Vec<String>,
}

/// The prepared Review Mode document.
#[derive(Clone, Debug)]
pub struct LiquidDocument {
    pub title: String,
    pub blocks: Vec<LiquidBlock>,
    pub article_spans: Vec<ArticleSpan>,
    pub block_source_lines: Vec<LiquidBlockSourceLines>,
    pub noise_lines_removed: usize,
    pub llm_used: bool,
    pub llm_provider: Option<String>,
    pub deep_liquid_used: bool,
    pub deep_liquid_model: Option<String>,
    pub warnings: Vec<String>,
    pub source_signature: String,
    /// The name of the reading profile the document was prepared with.
    pub profile: Option<String>,
}

/// How long each stage took, in microseconds, and whether the cached
/// document was reused.
#[derive(Clone, Copy, Debug)]
pub struct LiquidMode2Timing {
    pub runtime_load_us: u64,
    pub liquidvision_fill_us: u64,
    pub feature_enrichment_us: u64,
    pub model_decode_us: u64,
    pub overlay_decode_us: u64,
    pub footnote_linker_us: u64,
    pub assembly_us: u64,
    pub total_us: u64,
    pub cache_hit: bool,
}

/// Elapsed microseconds as measured around the stages; `feature_stage_us`
/// includes the LiquidVision fill.
#[derive(Clone, Copy, Debug)]
pub struct Lm2StageClock {
    pub runtime_load_us: u64,
    pub liquidvision_fill_us: u64,
    pub feature_stage_us: u64,
    pub model_decode_us: u64,
    pub overlay_decode_us: u64,
    pub footnote_linker_us: u64,
    pub assembly_us: u64,
    pub total_us: u64,
}

/// The overlay switches of the decoder runtime.
#[derive(Clone, Copy, Debug)]
pub struct Lm2OverlaySwitches {
    pub d1_zerospend: bool,
    pub d1_continuation: bool,
    pub d1_immediate_continuation: bool,
    pub d1_sandwiched_continuation: bool,
    pub d1_wide_sandwich: bool,
    pub d1_safe_numeric_note: bool,
    pub d1_post_wide_cue: bool,
    pub d1_postcue_citation_next1: bool,
    pub d1_near8_cue: bool,
    pub d1_wide_divider_guard: bool,
    pub d1_geometric_zone: bool,
    pub d1_footer_artifact: bool,
    pub footnote_monotone: bool,
    pub footnote_carryover: bool,
    pub open_footnote_carryover: bool,
    pub table_figure_router: bool,
    pub page_object: bool,
    pub page_object_tuned: bool,
}

/// What the loaded decoder runtime reports about itself.
#[derive(Clone, Debug)]
pub struct Lm2RuntimeReport {
    pub model_label: String,
    pub native_line_model_active: bool,
    /// A trained emission model (numeric or line model) was found.
    pub trained_model_found: bool,
    pub load_warnings: Vec<String>,
    pub v20_preset: bool,
    pub v25_d1_preset: bool,
    /// The notice on non-default decoder score scales, when they differ.
    pub decoder_scale_warning: Option<String>,
    /// Labels of the learned postprocessor models, in stack order.
    pub learned_model_labels: Vec<String>,
    pub marker_decoder_prior: bool,
    pub small_font_decoder_prior: bool,
    pub anchored_marginalia_flow_guard: bool,
    pub body_preservation_guard: bool,
    pub action_neutral_blocksplit: bool,
    pub toc_overlay: bool,
    pub front_matter_guard: bool,
    pub marginalia_preservation_guard: bool,
    /// The overlay switches as configured, before the native-model gate.
    pub switches: Lm2OverlaySwitches,
    pub static_front_overlay_label: Option<String>,
    pub pp_footnote_region_membership: bool,
    pub pp_warnings: Vec<String>,
    pub liquidvision_warnings: Vec<String>,
    pub source_signature: String,
}

/// The PyMuPDF block grouping that assembly used.
#[derive(Clone, Debug)]
pub struct Lm2GroupingReport {
    pub mode: Option<String>,
    pub warnings: Vec<String>,
}

/// What the stages around the pipeline produced for one request.
#[derive(Debug)]
pub struct Lm2StageResults {
    pub runtime: Lm2RuntimeReport,
    /// The label of the external emissions override, or why it could not be
    /// loaded.
    pub external_emissions: Result<Option<String>, String>,
    pub cached: Option<LiquidDocument>,
    /// The decoder's action for every non-blank line, or why decoding failed.
    pub decoded_actions: Result<Vec<Lm2Action>, String>,
    pub title: String,
    pub blocks: Vec<LiquidBlock>,
    pub block_source_lines: Vec<LiquidBlockSourceLines>,
    pub article_spans: Vec<ArticleSpan>,
    pub grouping: Option<Lm2GroupingReport>,
    pub clock: Lm2StageClock,
    /// The name of the LM2 reading profile.
    pub profile: String,
}

// ---------------------------------------------------------------------------
// Small decisions
// ---------------------------------------------------------------------------

/// The overlays in effect: with the native line model active only the
/// open-footnote carryover overlay runs.
pub open spec fn gated_switches(native: bool, s: Lm2OverlaySwitches) -> Lm2OverlaySwitches {
    Lm2OverlaySwitches {
        d1_zerospend: !native && s.d1_zerospend,
        d1_continuation: !native && s.d1_continuation,
        d1_immediate_continuation: !native && s.d1_immediate_continuation,
        d1_sandwiched_continuation: !native && s.d1_sandwiched_continuation,
        d1_wide_sandwich: !native && s.d1_wide_sandwich,
        d1_safe_numeric_note: !native && s.d1_safe_numeric_note,
        d1_post_wide_cue: !native && s.d1_post_wide_cue,
        d1_postcue_citation_next1: !native && s.d1_postcue_citation_next1,
        d1_near8_cue: !native && s.d1_near8_cue,
        d1_wide_divider_guard: !native && s.d1_wide_divider_guard,
        d1_geometric_zone: !native && s.d1_geometric_zone,
        d1_footer_artifact: !native && s.d1_footer_artifact,
        footnote_monotone: !native && s.footnote_monotone,
        footnote_carryover: !native && s.footnote_carryover,
        open_footnote_carryover: s.open_footnote_carryover,
        table_figure_router: !native && s.table_figure_router,
        page_object: !native && s.page_object,
        page_object_tuned: !native && s.page_object_tuned,
    }
}

/// The overlays that run for a runtime whose native line model is (or is
/// not) active.
pub fn lm2_effective_overlays(native_line_model_active: bool, s: Lm2OverlaySwitches) -> (r:
    Lm2OverlaySwitches)
    ensures r == gated_switches(native_line_model_active, s),
{
    let n = native_line_model_active;
    Lm2OverlaySwitches {
        d1_zerospend: !n && s.d1_zerospend,
        d1_continuation: !n && s.d1_continuation,
        d1_immediate_continuation: !n && s.d1_immediate_continuation,
        d1_sandwiched_continuation: !n && s.d1_sandwiched_continuation,
        d1_wide_sandwich: !n && s.d1_wide_sandwich,
        d1_safe_numeric_note: !n && s.d1_safe_numeric_note,
        d1_post_wide_cue: !n && s.d1_post_wide_cue,
        d1_postcue_citation_next1: !n && s.d1_postcue_citation_next1,
        d1_near8_cue: !n && s.d1_near8_cue,
        d1_wide_divider_guard: !n && s.d1_wide_divider_guard,
        d1_geometric_zone: !n && s.d1_geometric_zone,
        d1_footer_artifact: !n && s.d1_footer_artifact,
        footnote_monotone: !n && s.footnote_monotone,
        footnote_carryover: !n && s.footnote_carryover,
        open_footnote_carryover: s.open_footnote_carryover,
        table_figure_router: !n && s.table_figure_router,
        page_object: !n && s.page_object,
        page_object_tuned: !n && s.page_object_tuned,
    }
}

/// The document cache is read and written only when no external emissions
/// override the decoder and the open-footnote carryover overlay is off.
pub fn lm2_document_cache_allowed(external_emissions: bool, open_footnote_carryover: bool) -> (r:
    bool)
    ensures r == (!external_emissions && !open_footnote_carryover),
{
    !external_emissions && !open_footnote_carryover
}

/// A cached document is reused only when it has blocks and provenance.
pub fn lm2_cached_document_usable(document: &LiquidDocument) -> (r: bool)
    ensures r == (document.blocks@.len() > 0 && document.block_source_lines@.len() > 0),
{
    document.blocks.len() > 0 && document.block_source_lines.len() > 0
}

/// The text is empty or whitespace only.
pub fn lm2_blank_text(text: &str) -> (r: bool)
    ensures r == (trim(text@).len() == 0),
{
    let cs = chars_vec(text);
    let (a, b) = trim_bounds(cs.as_slice());
    a == b
}

/// The lines whose text is not blank, in order.
pub open spec fn nonblank_lines(s: Seq<Lm2SourceLine>) -> Seq<Lm2SourceLine>
    decreases s.len(),
{
    if s.len() == 0 {
        Seq::empty()
    } else if trim(s.last().text@).len() == 0 {
        nonblank_lines(s.drop_last())
    } else {
        nonblank_lines(s.drop_last()).push(s.last())
    }
}

/// An exact copy of a source line.
pub fn copy_source_line(l: &Lm2SourceLine) -> (r: Lm2SourceLine)
    ensures r == *l,
{
    Lm2SourceLine {
        id: l.id.clone(),
        page_index: l.page_index,
        line_index: l.line_index,
        text: l.text.clone(),
        role_hint: l.role_hint,
        segment_block_id: l.segment_block_id,
        segment_block_line_index: l.segment_block_line_index,
        segment_block_shape: l.segment_block_shape.clone(),
        segment_block_footnote_like: l.segment_block_footnote_like,
        segment_block_table_like: l.segment_block_table_like,
        segment_block_furniture_like: l.segment_block_furniture_like,
        segment_block_toc_like: l.segment_block_toc_like,
        in_footnote_zone: l.in_footnote_zone,
        below_footnote_divider: l.below_footnote_divider,
        doc_footnote_state: l.doc_footnote_state,
        doc_footnote_continuation: l.doc_footnote_continuation,
        in_ruled_cell: l.in_ruled_cell,
        ruled_row_membership_exact: l.ruled_row_membership_exact,
        page_table_column_like: l.page_table_column_like,
        page_object_overlaps_image_bbox: l.page_object_overlaps_image_bbox,
        page_object_hide_candidate: l.page_object_hide_candidate,
        page_object_ruled_row_membership: l.page_object_ruled_row_membership,
        bold: l.bold,
        centered: l.centered,
        margin_centered: l.margin_centered,
        small_note_font: l.small_note_font,
    }
}

/// The source lines that carry text, in order (the decoder sees only these).
pub fn lm2_nonblank_source_lines(lines: &[Lm2SourceLine]) -> (r: Vec<Lm2SourceLine>)
    ensures r@ == nonblank_lines(lines@),
{
    let mut r: Vec<Lm2SourceLine> = Vec::new();
    let mut i: usize = 0;
    while i < lines.len()
        invariant
            i <= lines@.len(),
            r@ == nonblank_lines(lines@.subrange(0, i as int)),
        decreases lines.len() - i,
    {
        proof {
            assert(lines@.subrange(0, i + 1).drop_last() =~= lines@.subrange(0, i as int));
        }
        if !lm2_blank_text(lines[i].text.as_str()) {
            r.push(copy_source_line(&lines[i]));
        }
        i += 1;
    }
    proof {
        assert(lines@.subrange(0, lines@.len() as int) =~= lines@);
    }
    r
}

proof fn lemma_nonblank_lines_step(s: Seq<Lm2SourceLine>)
    ensures
        nonblank_lines(s).len() <= s.len(),
        forall|i: int| 0 <= i < nonblank_lines(s).len() ==> trim((#[trigger] nonblank_lines(s)[i]).text@).len() > 0,
        forall|i: int| 0 <= i < nonblank_lines(s).len() ==> s.contains(#[trigger] nonblank_lines(s)[i]),
    decreases s.len(),
{
    if s.len() > 0 {
        let t = s.drop_last();
        lemma_nonblank_lines_step(t);
        let r = nonblank_lines(s);
        let rt = nonblank_lines(t);
        assert forall|i: int| 0 <= i < r.len() implies s.contains(#[trigger] r[i]) by {
            if i < rt.len() {
                assert(r[i] == rt[i]);
                assert(t.contains(rt[i]));
                let j = choose|j: int| 0 <= j < t.len() && t[j] == rt[i];
                assert(s[j] == t[j]);
            } else {
                assert(r[i] == s.last());
                assert(s[s.len() - 1] == s.last());
            }
        }
        assert forall|i: int| 0 <= i < r.len() implies trim((#[trigger] r[i]).text@).len() > 0 by {
            if i < rt.len() {
                assert(r[i] == rt[i]);
            }
        }
    }
}

/// The decoder's input holds only lines with text, each taken from the
/// request, and never more lines than the request has.
pub proof fn lemma_nonblank_lines_are_text_lines(s: Seq<Lm2SourceLine>)
    ensures
        nonblank_lines(s).len() <= s.len(),
        forall|i: int| 0 <= i < nonblank_lines(s).len() ==> trim((#[trigger] nonblank_lines(s)[i]).text@).len() > 0,
        forall|i: int| 0 <= i < nonblank_lines(s).len() ==> s.contains(#[trigger] nonblank_lines(s)[i]),
{
    lemma_nonblank_lines_step(s);
}

/// How many decoded lines were hidden as noise.
pub open spec fn hidden_count(actions: Seq<Lm2Action>) -> nat
    decreases actions.len(),
{
    if actions.len() == 0 {
        0
    } else {
        hidden_count(actions.drop_last()) + if actions.last() == Lm2Action::HideNoise {
            1nat
        } else {
            0nat
        }
    }
}

/// The number of lines the decoder hid as noise.
pub fn lm2_hidden_noise_count(actions: &[Lm2Action]) -> (r: usize)
    ensures r == hidden_count(actions@),
{
    let mut n: usize = 0;
    let mut i: usize = 0;
    while i < actions.len()
        invariant
            i <= actions@.len(),
            n == hidden_count(actions@.subrange(0, i as int)),
            n <= i,
        decreases actions.len() - i,
    {
        proof {
            assert(actions@.subrange(0, i + 1).drop_last() =~= actions@.subrange(0, i as int));
        }
        if actions[i] == Lm2Action::HideNoise {
            n += 1;
        }
        i += 1;
    }
    proof {
        assert(actions@.subrange(0, actions@.len() as int) =~= actions@);
    }
    n
}

// ---------------------------------------------------------------------------
// Notices
// ---------------------------------------------------------------------------

/// The text of each string.
pub open spec fn views(v: Seq<String>) -> Seq<Seq<char>> {
    v.map_values(|s: String| s@)
}

/// `prefix` followed by each string.
pub open spec fn prefixed_views(v: Seq<String>, prefix: Seq<char>) -> Seq<Seq<char>> {
    v.map_values(|s: String| prefix + s@)
}

/// `m` when `b` holds, nothing otherwise.
pub open spec fn opt_msg(b: bool, m: Seq<char>) -> Seq<Seq<char>> {
    if b {
        seq![m]
    } else {
        Seq::empty()
    }
}

/// The messages of a table whose flag is set, in table order.
pub open spec fn flagged(t: Seq<(bool, &str)>) -> Seq<Seq<char>>
    decreases t.len(),
{
    if t.len() == 0 {
        Seq::empty()
    } else {
        flagged(t.drop_last()) + opt_msg(t.last().0, t.last().1@)
    }
}

/// `before + s + after` for a present `s`.
pub open spec fn opt_wrapped(s: Option<String>, before: Seq<char>, after: Seq<char>) -> Seq<Seq<char>> {
    match s {
        Some(t) => seq![before + t@ + after],
        None => Seq::empty(),
    }
}

/// The labels joined by `sep`.
pub open spec fn joined(labels: Seq<String>, sep: Seq<char>) -> Seq<char>
    decreases labels.len(),
{
    if labels.len() == 0 {
        Seq::empty()
    } else if labels.len() == 1 {
        labels[0]@
    } else {
        joined(labels.drop_last(), sep) + sep + labels.last()@
    }
}

/// The label of the learned postprocessor stack: the model labels joined by
/// an arrow, when the decoder's own emissions are used and there is a model.
pub open spec fn learned_stack_label(external: bool, labels: Seq<String>) -> Option<Seq<char>> {
    if !external && labels.len() > 0 {
        Some(joined(labels, " -> "@))
    } else {
        None
    }
}

/// The notice on non-default decoder score scales.
pub open spec fn scale_notice(r: Lm2RuntimeReport) -> Seq<Seq<char>> {
    match r.decoder_scale_warning {
        Some(w) => seq![w@],
        None => Seq::empty(),
    }
}

/// The notice naming the learned postprocessor stack.
pub open spec fn stack_notice(r: Lm2RuntimeReport, external: bool) -> Seq<Seq<char>> {
    match learned_stack_label(external, r.learned_model_labels@) {
        Some(l) => seq!["Review Mode learned postprocessor stack is active: "@ + l + "."@],
        None => Seq::empty(),
    }
}

/// The model notice that opens the list.
pub open spec fn model_notice(r: Lm2RuntimeReport) -> Seq<char> {
    if r.native_line_model_active {
        "Review Mode uses "@ + r.model_label@ + " raw no-stack emissions."@
    } else {
        "Review Mode uses "@ + r.model_label@ + " emissions plus page-level sequence decoder."@
    }
}

/// The notices that describe the decoder: its emissions, load warnings,
/// presets, score scales, learned stack, fallback and external override.
pub open spec fn runtime_notices(
    r: Lm2RuntimeReport,
    external: Option<String>,
) -> Seq<Seq<char>> {
    seq![model_notice(r)] + views(r.load_warnings@) + opt_msg(r.v20_preset, "LM2 v20 runtime preset is enabled."@)
        + opt_msg(r.v25_d1_preset, "LM2 v25 D1 zero-spend runtime preset is enabled."@)
        + scale_notice(r) + stack_notice(r, external is Some) + opt_msg(
        !r.native_line_model_active && !r.trained_model_found,
        "LM2 trained model not found; used geometry fallback emissions."@,
    ) + opt_wrapped(
        external,
        "LM2 external emissions override is enabled: "@,
        ". LM2 document cache was bypassed."@,
    )
}

/// The notices for the decoder priors and guards that are switched on.
pub open spec fn guard_notices(r: Lm2RuntimeReport) -> Seq<Seq<char>> {
    flagged(seq![
        (r.marker_decoder_prior, "EXP-061 marker-continuity decoder prior is enabled."),
        (r.small_font_decoder_prior, "EXP-062 small-font lower-page decoder prior is enabled."),
        (r.anchored_marginalia_flow_guard, "EXP-069 anchored marginalia flow guard is enabled."),
        (r.body_preservation_guard, "LM2 body-preservation guard is enabled."),
        (r.action_neutral_blocksplit, "LM2 action-neutral blocksplit is enabled."),
        (r.toc_overlay, "LM2 document-local TOC overlay is enabled."),
        (r.front_matter_guard, "LM2 first-page front-matter guard is enabled."),
        (r.marginalia_preservation_guard, "LM2 marginalia-preservation guard is enabled."),
    ])
}

/// The notices for the overlays that ran.
pub open spec fn overlay_notices(o: Lm2OverlaySwitches) -> Seq<Seq<char>> {
    flagged(seq![
        (o.d1_zerospend, "LM2 D1 zero-spend keep-to-marginalia overlay is enabled."),
        (o.d1_continuation, "LM2 D1 continuation keep-to-marginalia overlay is enabled."),
        (o.d1_immediate_continuation, "LM2 D1 immediate-neighbor continuation keep-to-marginalia overlay is enabled."),
        (o.d1_sandwiched_continuation, "LM2 D1 sandwiched continuation keep-to-marginalia overlay is enabled."),
        (o.d1_wide_sandwich, "LM2 D1 wide sandwiched continuation keep-to-marginalia overlay is enabled."),
        (o.d1_safe_numeric_note, "LM2 D1 safe numeric note-start keep-to-marginalia overlay is enabled."),
        (o.d1_post_wide_cue, "LM2 D1 post-wide cue keep-to-marginalia overlay is enabled."),
        (o.d1_postcue_citation_next1, "LM2 D1 postcue citation-next1 keep-to-marginalia overlay is enabled."),
        (o.d1_near8_cue, "LM2 D1 near8 cue keep-to-marginalia overlay is enabled."),
        (o.d1_wide_divider_guard, "LM2 D1 wide-divider guarded keep-to-marginalia overlay is enabled."),
        (o.d1_footer_artifact, "LM2 D1 footer-artifact hide-noise overlay is enabled."),
        (o.footnote_monotone, "LM2 global footnote-number monotonicity overlay is enabled."),
        (o.footnote_carryover, "LM2 footnote carryover hard overlay is enabled."),
        (o.open_footnote_carryover, "LM2 open-footnote carryover hard overlay is enabled."),
        (o.page_object_tuned, "LM2 page-object tuned hide-noise overlay is enabled."),
    ])
}

/// The closing notices: static front overlay, PP footnote regions, the
/// article count of a bound volume, the PP and LiquidVision runtime
/// warnings, and the block grouping.
pub open spec fn closing_notices(
    r: Lm2RuntimeReport,
    span_count: nat,
    grouping: Option<Lm2GroupingReport>,
) -> Seq<Seq<char>> {
    opt_wrapped(r.static_front_overlay_label, "LM2 static front overlay is enabled: "@, "."@)
        + opt_msg(r.pp_footnote_region_membership, "EXP-075 PP footnote-region membership override is enabled."@)
        + opt_msg(span_count > 1, "Detected "@ + decimal_digits(span_count) + " article spans in this PDF."@)
        + views(r.pp_warnings@) + views(r.liquidvision_warnings@) + match grouping {
        Some(g) => opt_wrapped(g.mode, "PyMuPDF block grouping mode: "@, Seq::empty())
            + prefixed_views(g.warnings@, "PyMuPDF block grouping: "@),
        None => Seq::empty(),
    }
}

/// Every notice of a prepared document, in order.
pub open spec fn document_notices(
    r: Lm2RuntimeReport,
    external: Option<String>,
    span_count: nat,
    grouping: Option<Lm2GroupingReport>,
) -> Seq<Seq<char>> {
    runtime_notices(r, external) + guard_notices(r) + overlay_notices(
        gated_switches(r.native_line_model_active, r.switches),
    ) + closing_notices(r, span_count, grouping)
}

fn push_notice(w: &mut Vec<String>, m: String)
    ensures views(final(w)@) == views(old(w)@) + seq![m@],
{
    let ghost before = w@;
    w.push(m);
    proof {
        assert(views(w@) =~= views(before) + seq![m@]);
    }
}

fn push_notice_if(w: &mut Vec<String>, cond: bool, m: &str)
    ensures views(final(w)@) == views(old(w)@) + opt_msg(cond, m@),
{
    if cond {
        push_notice(w, m.to_owned());
    } else {
        proof {
            assert(views(w@) + opt_msg(cond, m@) =~= views(w@));
        }
    }
}

fn push_flagged(w: &mut Vec<String>, t: &[(bool, &str)])
    ensures views(final(w)@) == views(old(w)@) + flagged(t@),
{
    let ghost w0 = views(w@);
    let mut i: usize = 0;
    while i < t.len()
        invariant
            i <= t@.len(),
            views(w@) == w0 + flagged(t@.subrange(0, i as int)),
        decreases t.len() - i,
    {
        let (flag, message) = t[i];
        let ghost before = views(w@);
        push_notice_if(w, flag, message);
        proof {
            let next = t@.subrange(0, i + 1);
            assert(next.drop_last() =~= t@.subrange(0, i as int));
            lemma_concat_associative(w0, flagged(t@.subrange(0, i as int)), opt_msg(flag, message@));
        }
        i += 1;
    }
    proof {
        assert(t@.subrange(0, t@.len() as int) =~= t@);
    }
}

fn push_wrapped(w: &mut Vec<String>, s: &Option<String>, before: &str, after: &str)
    ensures views(final(w)@) == views(old(w)@) + opt_wrapped(*s, before@, after@),
{
    match s {
        Some(t) => push_notice(w, concat3(before, t.as_str(), after)),
        None => {
            proof {
                assert(views(w@) + opt_wrapped(*s, before@, after@) =~= views(w@));
            }
        },
    }
}

fn push_all_prefixed(w: &mut Vec<String>, items: &Vec<String>, prefix: &str)
    ensures views(final(w)@) == views(old(w)@) + prefixed_views(items@, prefix@),
{
    let mut i: usize = 0;
    while i < items.len()
        invariant
            i <= items@.len(),
            views(w@) == views(old(w)@) + prefixed_views(items@.subrange(0, i as int), prefix@),
        decreases items.len() - i,
    {
        push_notice(w, concat3(prefix, items[i].as_str(), ""));
        proof {
            reveal_strlit("");
            assert(prefixed_views(items@.subrange(0, i + 1), prefix@) =~= prefixed_views(
                items@.subrange(0, i as int),
                prefix@,
            ) + seq![prefix@ + items@[i as int]@]);
            assert(prefix@ + items@[i as int]@ + ""@ =~= prefix@ + items@[i as int]@);
        }
        i += 1;
    }
    proof {
        assert(items@.subrange(0, items@.len() as int) =~= items@);
    }
}

fn push_all(w: &mut Vec<String>, items: &Vec<String>)
    ensures views(final(w)@) == views(old(w)@) + views(items@),
{
    let mut i: usize = 0;
    while i < items.len()
        invariant
            i <= items@.len(),
            views(w@) == views(old(w)@) + views(items@.subrange(0, i as int)),
        decreases items.len() - i,
    {
        push_notice(w, items[i].clone());
        proof {
            assert(views(items@.subrange(0, i + 1)) =~= views(items@.subrange(0, i as int)) + seq![
                items@[i as int]@,
            ]);
        }
        i += 1;
    }
    proof {
        assert(items@.subrange(0, items@.len() as int) =~= items@);
    }
}

/// The model labels joined by an arrow.
/// The strings joined by `sep` (`[String]::join`).
pub fn join_strings(labels: &Vec<String>, sep: &str) -> (r: String)
    ensures r@ == joined(labels@, sep@),
{
    if labels.len() == 0 {
        return String::new();
    }
    let mut s = labels[0].clone();
    let mut i: usize = 1;
    proof {
        assert(labels@.subrange(0, 1).drop_last() =~= Seq::<String>::empty());
        assert(joined(labels@.subrange(0, 1), sep@) == labels@[0]@);
    }
    while i < labels.len()
        invariant
            1 <= i <= labels@.len(),
            s@ == joined(labels@.subrange(0, i as int), sep@),
        decreases labels.len() - i,
    {
        push_str(&mut s, sep);
        push_str(&mut s, labels[i].as_str());
        proof {
            let sub = labels@.subrange(0, i + 1);
            assert(sub.drop_last() =~= labels@.subrange(0, i as int));
            assert(sub.last() == labels@[i as int]);
        }
        i += 1;
    }
    proof {
        assert(labels@.subrange(0, labels@.len() as int) =~= labels@);
    }
    s
}

/// The label of the learned postprocessor stack, if one is in use.
pub fn lm2_learned_stack_label(external_emissions: bool, labels: &Vec<String>) -> (r: Option<String>)
    ensures
        match r {
            Some(l) => learned_stack_label(external_emissions, labels@) == Some(l@),
            None => learned_stack_label(external_emissions, labels@) is None,
        },
{
    if !external_emissions && labels.len() > 0 {
        Some(join_strings(labels, " -> "))
    } else {
        None
    }
}

fn push_runtime_notices(w: &mut Vec<String>, r: &Lm2RuntimeReport, external: &Option<String>)
    ensures views(final(w)@) == views(old(w)@) + runtime_notices(*r, *external),
{
    let ghost w0 = views(w@);
    let ghost o1 = seq![model_notice(*r)];
    if r.native_line_model_active {
        push_notice(w, concat3("Review Mode uses ", r.model_label.as_str(), " raw no-stack emissions."));
    } else {
        push_notice(
            w,
            concat3(
                "Review Mode uses ",
                r.model_label.as_str(),
                " emissions plus page-level sequence decoder.",
            ),
        );
    }
    let ghost mut acc = o1;
    assert(views(w@) == w0 + acc);
    push_all(w, &r.load_warnings);
    proof {
        lemma_concat_associative(w0, acc, views(r.load_warnings@));
        acc = acc + views(r.load_warnings@);
    }
    push_notice_if(w, r.v20_preset, "LM2 v20 runtime preset is enabled.");
    proof {
        lemma_concat_associative(w0, acc, opt_msg(r.v20_preset, "LM2 v20 runtime preset is enabled."@));
        acc = acc + opt_msg(r.v20_preset, "LM2 v20 runtime preset is enabled."@);
    }
    push_notice_if(w, r.v25_d1_preset, "LM2 v25 D1 zero-spend runtime preset is enabled.");
    proof {
        lemma_concat_associative(w0, acc, opt_msg(r.v25_d1_preset, "LM2 v25 D1 zero-spend runtime preset is enabled."@));
        acc = acc + opt_msg(r.v25_d1_preset, "LM2 v25 D1 zero-spend runtime preset is enabled."@);
    }
    let ghost o5 = scale_notice(*r);
    let ghost w1 = views(w@);
    match &r.decoder_scale_warning {
        Some(t) => push_notice(w, t.clone()),
        None => {},
    }
    proof {
        assert(views(w@) =~= w1 + o5);
        lemma_concat_associative(w0, acc, o5);
        acc = acc + o5;
    }
    let ext = match external {
        Some(_) => true,
        None => false,
    };
    let ghost o6 = stack_notice(*r, external is Some);
    let ghost w2 = views(w@);
    match lm2_learned_stack_label(ext, &r.learned_model_labels) {
        Some(l) => push_notice(
            w,
            concat3("Review Mode learned postprocessor stack is active: ", l.as_str(), "."),
        ),
        None => {},
    }
    proof {
        assert(views(w@) =~= w2 + o6);
        lemma_concat_associative(w0, acc, o6);
        acc = acc + o6;
    }
    push_notice_if(
        w,
        !r.native_line_model_active && !r.trained_model_found,
        "LM2 trained model not found; used geometry fallback emissions.",
    );
    proof {
        let o7 = opt_msg(
            !r.native_line_model_active && !r.trained_model_found,
            "LM2 trained model not found; used geometry fallback emissions."@,
        );
        lemma_concat_associative(w0, acc, o7);
        acc = acc + o7;
    }
    push_wrapped(
        w,
        external,
        "LM2 external emissions override is enabled: ",
        ". LM2 document cache was bypassed.",
    );
    proof {
        let o8 = opt_wrapped(
            *external,
            "LM2 external emissions override is enabled: "@,
            ". LM2 document cache was bypassed."@,
        );
        lemma_concat_associative(w0, acc, o8);
        acc = acc + o8;
        assert(acc == runtime_notices(*r, *external));
    }
}

fn push_guard_notices(w: &mut Vec<String>, r: &Lm2RuntimeReport)
    ensures views(final(w)@) == views(old(w)@) + guard_notices(*r),
{
    let table = vec![
        (r.marker_decoder_prior, "EXP-061 marker-continuity decoder prior is enabled."),
        (r.small_font_decoder_prior, "EXP-062 small-font lower-page decoder prior is enabled."),
        (r.anchored_marginalia_flow_guard, "EXP-069 anchored marginalia flow guard is enabled."),
        (r.body_preservation_guard, "LM2 body-preservation guard is enabled."),
        (r.action_neutral_blocksplit, "LM2 action-neutral blocksplit is enabled."),
        (r.toc_overlay, "LM2 document-local TOC overlay is enabled."),
        (r.front_matter_guard, "LM2 first-page front-matter guard is enabled."),
        (r.marginalia_preservation_guard, "LM2 marginalia-preservation guard is enabled."),
    ];
    push_flagged(w, table.as_slice());
}

fn push_overlay_notices(w: &mut Vec<String>, o: &Lm2OverlaySwitches)
    ensures views(final(w)@) == views(old(w)@) + overlay_notices(*o),
{
    let table = vec![
        (o.d1_zerospend, "LM2 D1 zero-spend keep-to-marginalia overlay is enabled."),
        (o.d1_continuation, "LM2 D1 continuation keep-to-marginalia overlay is enabled."),
        (o.d1_immediate_continuation, "LM2 D1 immediate-neighbor continuation keep-to-marginalia overlay is enabled."),
        (o.d1_sandwiched_continuation, "LM2 D1 sandwiched continuation keep-to-marginalia overlay is enabled."),
        (o.d1_wide_sandwich, "LM2 D1 wide sandwiched continuation keep-to-marginalia overlay is enabled."),
        (o.d1_safe_numeric_note, "LM2 D1 safe numeric note-start keep-to-marginalia overlay is enabled."),
        (o.d1_post_wide_cue, "LM2 D1 post-wide cue keep-to-marginalia overlay is enabled."),
        (o.d1_postcue_citation_next1, "LM2 D1 postcue citation-next1 keep-to-marginalia overlay is enabled."),
        (o.d1_near8_cue, "LM2 D1 near8 cue keep-to-marginalia overlay is enabled."),
        (o.d1_wide_divider_guard, "LM2 D1 wide-divider guarded keep-to-marginalia overlay is enabled."),
        (o.d1_footer_artifact, "LM2 D1 footer-artifact hide-noise overlay is enabled."),
        (o.footnote_monotone, "LM2 global footnote-number monotonicity overlay is enabled."),
        (o.footnote_carryover, "LM2 footnote carryover hard overlay is enabled."),
        (o.open_footnote_carryover, "LM2 open-footnote carryover hard overlay is enabled."),
        (o.page_object_tuned, "LM2 page-object tuned hide-noise overlay is enabled."),
    ];
    push_flagged(w, table.as_slice());
}

fn push_closing_notices(
    w: &mut Vec<String>,
    r: &Lm2RuntimeReport,
    span_count: usize,
    grouping: &Option<Lm2GroupingReport>,
)
    ensures views(final(w)@) == views(old(w)@) + closing_notices(*r, span_count as nat, *grouping),
{
    let ghost w0 = views(w@);
    push_wrapped(w, &r.static_front_overlay_label, "LM2 static front overlay is enabled: ", ".");
    push_notice_if(
        w,
        r.pp_footnote_region_membership,
        "EXP-075 PP footnote-region membership override is enabled.",
    );
    let ghost w1 = views(w@);
    if span_count > 1 {
        let count = usize_to_string(span_count);
        push_notice(w, concat3("Detected ", count.as_str(), " article spans in this PDF."));
    }
    let ghost w2 = views(w@);
    push_all(w, &r.pp_warnings);
    push_all(w, &r.liquidvision_warnings);
    let ghost w3 = views(w@);
    match grouping {
        Some(g) => {
            match &g.mode {
                Some(mode) => {
                    proof {
                        reveal_strlit("");
                    }
                    push_notice(w, concat3("PyMuPDF block grouping mode: ", mode.as_str(), ""));
                    proof {
                        assert("PyMuPDF block grouping mode: "@ + mode@ + ""@ =~= "PyMuPDF block grouping mode: "@ + mode@ + Seq::<char>::empty());
                    }
                },
                None => {},
            }
            let ghost w4 = views(w@);
            push_all_prefixed(w, &g.warnings, "PyMuPDF block grouping: ");
            proof {
                assert(w4 =~= w3 + opt_wrapped(g.mode, "PyMuPDF block grouping mode: "@, Seq::empty()));
            }
        },
        None => {},
    }
    proof {
        assert(w2 =~= w1 + opt_msg(span_count > 1, "Detected "@ + decimal_digits(span_count as nat) + " article spans in this PDF."@));
        assert(views(w@) =~= w0 + closing_notices(*r, span_count as nat, *grouping));
    }
}

/// Every notice of a prepared document, in order.
pub fn lm2_document_notices(
    runtime: &Lm2RuntimeReport,
    external: &Option<String>,
    span_count: usize,
    grouping: &Option<Lm2GroupingReport>,
) -> (w: Vec<String>)
    ensures views(w@) == document_notices(*runtime, *external, span_count as nat, *grouping),
{
    let mut w: Vec<String> = Vec::new();
    proof {
        assert(views(w@) =~= Seq::<Seq<char>>::empty());
    }
    push_runtime_notices(&mut w, runtime, external);
    push_guard_notices(&mut w, runtime);
    let o = lm2_effective_overlays(runtime.native_line_model_active, runtime.switches);
    push_overlay_notices(&mut w, &o);
    push_closing_notices(&mut w, runtime, span_count, grouping);
    proof {
        assert(views(w@) =~= document_notices(*runtime, *external, span_count as nat, *grouping));
    }
    w
}

// ---------------------------------------------------------------------------
// Preparing the document
// ---------------------------------------------------------------------------

/// The timing of a request answered from the cache.
pub open spec fn cache_hit_timing(c: Lm2StageClock) -> LiquidMode2Timing {
    LiquidMode2Timing {
        runtime_load_us: c.runtime_load_us,
        liquidvision_fill_us: 0,
        feature_enrichment_us: 0,
        model_decode_us: 0,
        overlay_decode_us: 0,
        footnote_linker_us: 0,
        assembly_us: 0,
        total_us: c.total_us,
        cache_hit: true,
    }
}

/// The feature stage without the LiquidVision fill (never negative).
pub open spec fn enrichment_us(c: Lm2StageClock) -> u64 {
    if c.feature_stage_us >= c.liquidvision_fill_us {
        (c.feature_stage_us - c.liquidvision_fill_us) as u64
    } else {
        0
    }
}

/// The timing of a request whose PDF has no text.
pub open spec fn no_text_timing(c: Lm2StageClock) -> LiquidMode2Timing {
    LiquidMode2Timing {
        runtime_load_us: c.runtime_load_us,
        liquidvision_fill_us: c.liquidvision_fill_us,
        feature_enrichment_us: enrichment_us(c),
        model_decode_us: 0,
        overlay_decode_us: 0,
        footnote_linker_us: 0,
        assembly_us: 0,
        total_us: c.total_us,
        cache_hit: false,
    }
}

/// The timing of a request that ran every stage.
pub open spec fn full_timing(c: Lm2StageClock) -> LiquidMode2Timing {
    LiquidMode2Timing {
        runtime_load_us: c.runtime_load_us,
        liquidvision_fill_us: c.liquidvision_fill_us,
        feature_enrichment_us: enrichment_us(c),
        model_decode_us: c.model_decode_us,
        overlay_decode_us: c.overlay_decode_us,
        footnote_linker_us: c.footnote_linker_us,
        assembly_us: c.assembly_us,
        total_us: c.total_us,
        cache_hit: false,
    }
}

/// The notice of a document without selectable text.
pub open spec fn no_text_notice() -> Seq<char> {
    "LiquidMode2 found no selectable text. Run OCR before using LM2."@
}

/// The fields every LM2 document shares: no LLM, provider `LM2`, the
/// decoder's model label, and the request's source signature.
pub open spec fn lm2_document_header(d: LiquidDocument, r: Lm2RuntimeReport) -> bool {
    &&& !d.llm_used
    &&& (d.llm_provider matches Some(p) && p@ == "LM2"@)
    &&& !d.deep_liquid_used
    &&& d.deep_liquid_model == Some(r.model_label)
    &&& d.source_signature == r.source_signature
}

/// `d` is the document of a PDF without text.
pub open spec fn no_text_document(
    d: LiquidDocument,
    title: String,
    r: Lm2RuntimeReport,
    profile: String,
) -> bool {
    &&& lm2_document_header(d, r)
    &&& d.profile == Some(profile)
    &&& d.title == title
    &&& d.blocks@.len() == 0
    &&& d.article_spans@.len() == 0
    &&& d.block_source_lines@.len() == 0
    &&& d.noise_lines_removed == 0
    &&& views(d.warnings@) == seq![no_text_notice()]
}

/// `d` is the document assembled from the stages' results.
pub open spec fn assembled_document(
    d: LiquidDocument,
    s: Lm2StageResults,
    external: Option<String>,
    actions: Seq<Lm2Action>,
) -> bool {
    &&& lm2_document_header(d, s.runtime)
    &&& d.profile == Some(s.profile)
    &&& d.title == s.title
    &&& d.blocks@ == s.blocks@
    &&& d.article_spans@ == s.article_spans@
    &&& d.block_source_lines@ == s.block_source_lines@
    &&& d.noise_lines_removed == hidden_count(actions)
    &&& views(d.warnings@) == document_notices(
        s.runtime,
        external,
        s.article_spans@.len(),
        s.grouping,
    )
}

/// Every provenance entry names an existing block, and no block has two
/// entries.
pub open spec fn provenance_well_formed(
    blocks: Seq<LiquidBlock>,
    sources: Seq<LiquidBlockSourceLines>,
) -> bool {
    &&& forall|i: int| 0 <= i < sources.len() ==> (#[trigger] sources[i]).block_index < blocks.len()
    &&& forall|i: int, j: int|
        0 <= i < j < sources.len() ==> (#[trigger] sources[i]).block_index
            != (#[trigger] sources[j]).block_index
}

/// Whether every provenance entry names an existing block and no block has
/// two entries.
pub fn lm2_provenance_well_formed(blocks: &[LiquidBlock], sources: &[LiquidBlockSourceLines]) -> (r:
    bool)
    ensures r == provenance_well_formed(blocks@, sources@),
{
    let mut i: usize = 0;
    while i < sources.len()
        invariant
            i <= sources@.len(),
            forall|k: int| 0 <= k < i ==> (#[trigger] sources@[k]).block_index < blocks@.len(),
            forall|a: int, b: int|
                0 <= a < b < i ==> (#[trigger] sources@[a]).block_index
                    != (#[trigger] sources@[b]).block_index,
        decreases sources.len() - i,
    {
        if sources[i].block_index >= blocks.len() {
            proof {
                assert(sources@[i as int].block_index >= blocks@.len());
            }
            return false;
        }
        let mut j: usize = 0;
        while j < i
            invariant
                j <= i < sources@.len(),
                forall|a: int| 0 <= a < j ==> (#[trigger] sources@[a]).block_index
                    != sources@[i as int].block_index,
            decreases i - j,
        {
            if sources[j].block_index == sources[i].block_index {
                proof {
                    assert(sources@[j as int].block_index == sources@[i as int].block_index);
                }
                return false;
            }
            j += 1;
        }
        i += 1;
    }
    true
}

/// A clock whose total covers the runtime load, as a clock started before
/// the load measures it.
pub open spec fn clock_consistent(c: Lm2StageClock) -> bool {
    c.runtime_load_us <= c.total_us
}

/// What a request needs of the stages' results: a consistent clock, and
/// well-formed provenance in the assembled blocks. (A cached document read
/// back is checked, and not reused when its provenance is malformed.)
pub open spec fn stage_results_well_formed(s: Lm2StageResults) -> bool {
    &&& clock_consistent(s.clock)
    &&& provenance_well_formed(s.blocks@, s.block_source_lines@)
}

/// Why the request fails, if it does: the external emissions could not be
/// loaded, or (when neither the cache nor the no-text case answers) the
/// decoder failed.
pub open spec fn prepare_error(request: LiquidMode2Request, s: Lm2StageResults) -> Option<String> {
    match s.external_emissions {
        Err(e) => Some(e),
        Ok(external) => if cache_reusable(s, external) || nonblank_lines(
            request.deep_source_lines@,
        ).len() == 0 {
            None
        } else {
            match s.decoded_actions {
                Err(e) => Some(e),
                Ok(_) => None,
            }
        },
    }
}

/// `d` is the document the request yields: the cached document when it may
/// be reused, the empty document of a PDF without text, or else the
/// document assembled from the stages.
pub open spec fn prepared_document(
    d: LiquidDocument,
    request: LiquidMode2Request,
    s: Lm2StageResults,
) -> bool {
    match s.external_emissions {
        Err(_) => false,
        Ok(external) => if cache_reusable(s, external) {
            s.cached == Some(d)
        } else if nonblank_lines(request.deep_source_lines@).len() == 0 {
            no_text_document(d, request.title, s.runtime, s.profile)
        } else {
            match s.decoded_actions {
                Err(_) => false,
                Ok(actions) => assembled_document(d, s, external, actions@),
            }
        },
    }
}

/// The timing the request reports.
pub open spec fn prepared_timing(request: LiquidMode2Request, s: Lm2StageResults) -> LiquidMode2Timing {
    match s.external_emissions {
        Ok(external) => if cache_reusable(s, external) {
            cache_hit_timing(s.clock)
        } else if nonblank_lines(request.deep_source_lines@).len() == 0 {
            no_text_timing(s.clock)
        } else {
            full_timing(s.clock)
        },
        Err(_) => full_timing(s.clock),
    }
}

/// Two documents agree in every field, strings by their text.
pub open spec fn same_document(a: LiquidDocument, b: LiquidDocument) -> bool {
    &&& a.title@ == b.title@
    &&& a.blocks@ == b.blocks@
    &&& a.article_spans@ == b.article_spans@
    &&& a.block_source_lines@ == b.block_source_lines@
    &&& a.noise_lines_removed == b.noise_lines_removed
    &&& a.llm_used == b.llm_used
    &&& (a.llm_provider is Some <==> b.llm_provider is Some)
    &&& (a.llm_provider matches Some(p) ==> b.llm_provider->0@ == p@)
    &&& a.deep_liquid_used == b.deep_liquid_used
    &&& a.deep_liquid_model == b.deep_liquid_model
    &&& views(a.warnings@) == views(b.warnings@)
    &&& a.source_signature@ == b.source_signature@
    &&& a.profile == b.profile
}

/// The document a request yields is determined by the request and the
/// stages' results: any two documents that meet `prepared_document` for the
/// same inputs agree in every field. So the two prepare functions, whose
/// contracts both state `prepared_document`, return the same document.
pub proof fn lemma_prepared_document_determined(
    request: LiquidMode2Request,
    s: Lm2StageResults,
    a: LiquidDocument,
    b: LiquidDocument,
)
    requires
        prepared_document(a, request, s),
        prepared_document(b, request, s),
    ensures
        same_document(a, b),
{
    match s.external_emissions {
        Err(_) => {
            assert(!prepared_document(a, request, s));
        },
        Ok(external) => {
            if cache_reusable(s, external) {
                assert(a == b);
            } else if nonblank_lines(request.deep_source_lines@).len() == 0 {
                assert(no_text_document(a, request.title, s.runtime, s.profile));
                assert(no_text_document(b, request.title, s.runtime, s.profile));
                assert(a.llm_provider->0@ == b.llm_provider->0@);
                assert(a.blocks@ =~= b.blocks@);
                assert(a.article_spans@ =~= b.article_spans@);
                assert(a.block_source_lines@ =~= b.block_source_lines@);
            } else {
                match s.decoded_actions {
                    Err(_) => {
                        assert(!prepared_document(a, request, s));
                    },
                    Ok(actions) => {
                        assert(assembled_document(a, s, external, actions@));
                        assert(assembled_document(b, s, external, actions@));
                        assert(a.llm_provider->0@ == b.llm_provider->0@);
                    },
                }
            }
        },
    }
}

/// The cached document may be and is reused: the cache is allowed, the
/// document has blocks and provenance, and (a guard on what is read back
/// from disk) its provenance is well formed.
pub open spec fn cache_reusable(s: Lm2StageResults, external: Option<String>) -> bool {
    &&& external is None
    &&& !s.runtime.switches.open_footnote_carryover
    &&& (s.cached matches Some(c) && c.blocks@.len() > 0 && c.block_source_lines@.len() > 0
        && provenance_well_formed(c.blocks@, c.block_source_lines@))
}

fn lm2_provider() -> (r: Option<String>)
    ensures r matches Some(p) && p@ == "LM2"@,
{
    Some("LM2".to_owned())
}

fn lm2_has_text(lines: &[Lm2SourceLine]) -> (r: bool)
    ensures r == (nonblank_lines(lines@).len() > 0),
{
    let mut i: usize = 0;
    while i < lines.len()
        invariant
            i <= lines@.len(),
            nonblank_lines(lines@.subrange(0, i as int)).len() == 0,
        decreases lines.len() - i,
    {
        proof {
            assert(lines@.subrange(0, i + 1).drop_last() =~= lines@.subrange(0, i as int));
        }
        if !lm2_blank_text(lines[i].text.as_str()) {
            proof {
                lemma_nonblank_prefix(lines@, i + 1);
            }
            return true;
        }
        i += 1;
    }
    proof {
        assert(lines@.subrange(0, lines@.len() as int) =~= lines@);
    }
    false
}

proof fn lemma_nonblank_prefix(s: Seq<Lm2SourceLine>, k: int)
    requires 0 <= k <= s.len(),
    ensures nonblank_lines(s.subrange(0, k)).len() <= nonblank_lines(s).len(),
    decreases s.len() - k,
{
    if k < s.len() {
        lemma_nonblank_prefix(s, k + 1);
        assert(s.subrange(0, k + 1).drop_last() =~= s.subrange(0, k));
    } else {
        assert(s.subrange(0, k) =~= s);
    }
}

/// Prepares the Review Mode document of a request from what the stages
/// around the pipeline produced, and reports the time each stage took.
///
/// A failed load of the external emissions fails the request. Otherwise a
/// cached document with blocks and provenance is returned as is, when the
/// cache may be used, provided its provenance is well formed (every entry
/// names an existing block and no block has two entries): a cached
/// document read back from disk whose provenance is malformed is not
/// trusted, and the document is prepared afresh instead.
/// A PDF without any non-blank line yields an empty document whose one
/// notice asks for OCR. Otherwise a failed decode fails the request, and a
/// decoded document carries the assembled blocks, the number of lines hidden
/// as noise, and every notice in order.
pub fn prepare_liquid_mode2_document_with_timing(
    request: LiquidMode2Request,
    stages: Lm2StageResults,
) -> (r: Result<(LiquidDocument, LiquidMode2Timing), String>)
    requires
        stage_results_well_formed(stages),
    ensures
        match r {
            Ok(p) => prepared_document(p.0, request, stages) && p.1 == prepared_timing(
                request,
                stages,
            ),
            Err(e) => prepare_error(request, stages) == Some(e),
        },
        prepare_error(request, stages) is None ==> r is Ok,
        r matches Ok(p) ==> provenance_well_formed(p.0.blocks@, p.0.block_source_lines@)
            && p.1.runtime_load_us <= p.1.total_us,
{
    let ghost s0 = stages;
    let Lm2StageResults {
        runtime,
        external_emissions,
        cached,
        decoded_actions,
        title,
        blocks,
        block_source_lines,
        article_spans,
        grouping,
        clock,
        profile,
    } = stages;
    let external = match external_emissions {
        Err(e) => return Err(e),
        Ok(x) => x,
    };
    let external_present = match &external {
        Some(_) => true,
        None => false,
    };
    if lm2_document_cache_allowed(external_present, runtime.switches.open_footnote_carryover) {
        match cached {
            Some(c) => {
                if lm2_cached_document_usable(&c) && lm2_provenance_well_formed(
                    c.blocks.as_slice(),
                    c.block_source_lines.as_slice(),
                ) {
                    let timing = LiquidMode2Timing {
                        runtime_load_us: clock.runtime_load_us,
                        liquidvision_fill_us: 0,
                        feature_enrichment_us: 0,
                        model_decode_us: 0,
                        overlay_decode_us: 0,
                        footnote_linker_us: 0,
                        assembly_us: 0,
                        total_us: clock.total_us,
                        cache_hit: true,
                    };
                    return Ok((c, timing));
                }
            },
            None => {},
        }
    }
    let enrichment = clock.feature_stage_us.saturating_sub(clock.liquidvision_fill_us);
    if !lm2_has_text(request.deep_source_lines.as_slice()) {
        let mut warnings: Vec<String> = Vec::new();
        push_notice(
            &mut warnings,
            "LiquidMode2 found no selectable text. Run OCR before using LM2.".to_owned(),
        );
        proof {
            assert(views(Seq::<String>::empty()) =~= Seq::<Seq<char>>::empty());
            assert(views(warnings@) =~= seq![no_text_notice()]);
        }
        let document = LiquidDocument {
            title: request.title,
            blocks: Vec::new(),
            article_spans: Vec::new(),
            block_source_lines: Vec::new(),
            noise_lines_removed: 0,
            llm_used: false,
            llm_provider: lm2_provider(),
            deep_liquid_used: false,
            deep_liquid_model: Some(runtime.model_label.clone()),
            warnings,
            source_signature: runtime.source_signature.clone(),
            profile: Some(profile),
        };
        let timing = LiquidMode2Timing {
            runtime_load_us: clock.runtime_load_us,
            liquidvision_fill_us: clock.liquidvision_fill_us,
            feature_enrichment_us: enrichment,
            model_decode_us: 0,
            overlay_decode_us: 0,
            footnote_linker_us: 0,
            assembly_us: 0,
            total_us: clock.total_us,
            cache_hit: false,
        };
        return Ok((document, timing));
    }
    let actions = match decoded_actions {
        Err(e) => return Err(e),
        Ok(a) => a,
    };
    let hidden = lm2_hidden_noise_count(actions.as_slice());
    let warnings = lm2_document_notices(&runtime, &external, article_spans.len(), &grouping);
    let document = LiquidDocument {
        title,
        blocks,
        article_spans,
        block_source_lines,
        noise_lines_removed: hidden,
        llm_used: false,
        llm_provider: lm2_provider(),
        deep_liquid_used: false,
        deep_liquid_model: Some(runtime.model_label.clone()),
        warnings,
        source_signature: runtime.source_signature.clone(),
        profile: Some(profile),
    };
    let timing = LiquidMode2Timing {
        runtime_load_us: clock.runtime_load_us,
        liquidvision_fill_us: clock.liquidvision_fill_us,
        feature_enrichment_us: enrichment,
        model_decode_us: clock.model_decode_us,
        overlay_decode_us: clock.overlay_decode_us,
        footnote_linker_us: clock.footnote_linker_us,
        assembly_us: clock.assembly_us,
        total_us: clock.total_us,
        cache_hit: false,
    };
    Ok((document, timing))
}

/// Prepares the Review Mode document of a request (see
/// `prepare_liquid_mode2_document_with_timing`), without the timing.
pub fn prepare_liquid_mode2_document(request: LiquidMode2Request, stages: Lm2StageResults) -> (r:
    Result<LiquidDocument, String>)
    requires
        stage_results_well_formed(stages),
    ensures
        match r {
            Ok(d) => prepared_document(d, request, stages),
            Err(e) => prepare_error(request, stages) == Some(e),
        },
        prepare_error(request, stages) is None ==> r is Ok,
        r matches Ok(d) ==> provenance_well_formed(d.blocks@, d.block_source_lines@),
{
    match prepare_liquid_mode2_document_with_timing(request, stages) {
        Ok((document, _timing)) => Ok(document),
        Err(e) => Err(e),
    }
}

// ---------------------------------------------------------------------------
// Article spans
// ---------------------------------------------------------------------------

/// The evidence names a publication section or a footnote-number reset.
pub open spec fn strong_boundary_evidence(kinds: Seq<String>) -> bool {
    exists|k: int|
        0 <= k < kinds.len() && ((#[trigger] kinds[k])@ == "publication_section"@ || kinds[k]@
            == "footnote_reset"@)
}

/// A detected article boundary that is not real: a later span opening on a
/// page whose first lines carry a numbered table or figure caption
/// (`caption_band`), or a low-confidence span whose title is only an
/// internal outline label (`IV.`) with no publication-section or
/// footnote-reset evidence.
pub open spec fn false_article_boundary(span: ArticleSpan, caption_band: bool) -> bool {
    &&& span.start_page_index != 0
    &&& (caption_band || (span.low_confidence && (span.title_hint matches Some(h)
        && crate::outline::internal_outline_hint_spec(h@)) && !strong_boundary_evidence(
        span.evidence_kinds@,
    )))
}

/// Whether a detected article boundary is false (see
/// `false_article_boundary`); `caption_band` tells whether a numbered table
/// or figure caption opens the span's first page.
#[verifier::loop_isolation(false)]
pub fn lm2_false_article_boundary(span: &ArticleSpan, caption_band: bool) -> (r: bool)
    ensures r == false_article_boundary(*span, caption_band),
{
    if span.start_page_index == 0 {
        return false;
    }
    if caption_band {
        return true;
    }
    if !span.low_confidence {
        return false;
    }
    let hinted = match &span.title_hint {
        Some(h) => crate::outline::lm2_internal_outline_title_hint(h.as_str()),
        None => false,
    };
    if !hinted {
        return false;
    }
    let kinds = &span.evidence_kinds;
    let mut k: usize = 0;
    while k < kinds.len()
        invariant
            k <= kinds@.len(),
            forall|j: int|
                0 <= j < k ==> !((#[trigger] kinds@[j])@ == "publication_section"@ || kinds@[j]@
                    == "footnote_reset"@),
        decreases kinds.len() - k,
    {
        if kinds[k] == "publication_section".to_owned() || kinds[k] == "footnote_reset".to_owned() {
            proof {
                assert(strong_boundary_evidence(kinds@));
            }
            return false;
        }
        k += 1;
    }
    true
}

/// The detected spans among `0..n` that stay: the first one always, later
/// ones unless their boundary is false.
pub open spec fn kept_spans(detected: Seq<ArticleSpan>, false_boundary: Seq<bool>, n: int) -> Seq<
    ArticleSpan,
>
    decreases n,
{
    if n <= 0 {
        Seq::empty()
    } else {
        let rest = kept_spans(detected, false_boundary, n - 1);
        if n - 1 == 0 || !false_boundary[n - 1] {
            rest.push(detected[n - 1])
        } else {
            rest
        }
    }
}

/// Span `i` of the kept spans `k`, renumbered and ending where the next one
/// starts (the last one at the end of the document).
pub open spec fn renumbered_span(k: Seq<ArticleSpan>, i: int, page_count: usize) -> ArticleSpan {
    ArticleSpan {
        article_index: i as usize,
        end_page_index: if i + 1 < k.len() {
            k[i + 1].start_page_index
        } else {
            page_count
        },
        end_line_index: if i + 1 < k.len() {
            k[i + 1].start_line_index
        } else {
            0
        },
        ..k[i]
    }
}

/// Which detected spans have a false boundary, each judged with the caption
/// band of its first page, read from the decoded lines' normalized texts
/// (`normalized`, one per decoded line).
pub fn lm2_false_boundaries(
    detected: &Vec<ArticleSpan>,
    decoded: &[(Lm2SourceLine, Lm2Action)],
    normalized: &[String],
) -> (r: Vec<bool>)
    requires normalized@.len() == decoded@.len(),
    ensures
        r@.len() == detected@.len(),
        forall|i: int|
            0 <= i < r@.len() ==> #[trigger] r@[i] == false_article_boundary(
                detected@[i],
                caption_band(decoded@, normalized@, detected@[i].start_page_index),
            ),
{
    let mut r: Vec<bool> = Vec::new();
    let mut i: usize = 0;
    while i < detected.len()
        invariant
            i <= detected@.len(),
            normalized@.len() == decoded@.len(),
            r@.len() == i,
            forall|j: int|
                0 <= j < i ==> #[trigger] r@[j] == false_article_boundary(
                    detected@[j],
                    caption_band(decoded@, normalized@, detected@[j].start_page_index),
                ),
        decreases detected.len() - i,
    {
        let span = &detected[i];
        let band = lm2_caption_band(decoded, normalized, span.start_page_index);
        r.push(lm2_false_article_boundary(span, band));
        i += 1;
    }
    r
}

/// Drops the detected article spans whose boundary is false
/// (`false_boundary[i]`, see `lm2_false_article_boundary`), keeping the
/// first span always, then numbers the kept spans in order and lets each
/// end where the next begins, the last at the end of the document. A single
/// span (or none) is returned as detected.
pub fn filter_lm2_false_article_spans(
    detected: Vec<ArticleSpan>,
    false_boundary: &[bool],
    page_count: usize,
) -> (r: Vec<ArticleSpan>)
    requires false_boundary@.len() == detected@.len(),
    ensures
        detected@.len() <= 1 ==> r@ == detected@,
        detected@.len() > 1 ==> {
            let k = kept_spans(detected@, false_boundary@, detected@.len() as int);
            &&& r@.len() == k.len()
            &&& forall|i: int| 0 <= i < r@.len() ==> #[trigger] r@[i] == renumbered_span(k, i, page_count)
        },
{
    if detected.len() <= 1 {
        return detected;
    }
    let ghost d0 = detected@;
    let n = detected.len();
    let mut rest = detected;
    let mut kept: Vec<ArticleSpan> = Vec::new();
    let mut i: usize = 0;
    while i < n
        invariant
            n == d0.len(),
            i <= n,
            false_boundary@.len() == n,
            rest@ == d0.subrange(i as int, n as int),
            kept@ == kept_spans(d0, false_boundary@, i as int),
        decreases n - i,
    {
        let span = rest.remove(0);
        proof {
            assert(span == d0[i as int]);
            assert(rest@ =~= d0.subrange(i + 1, n as int));
        }
        if i == 0 || !false_boundary[i] {
            kept.push(span);
        }
        i += 1;
    }
    let ghost k = kept@;
    let m = kept.len();
    let mut j: usize = 0;
    while j < m
        invariant
            m == k.len(),
            kept@.len() == m,
            j <= m,
            forall|q: int| 0 <= q < j ==> #[trigger] kept@[q] == renumbered_span(k, q, page_count),
            forall|q: int| j <= q < m ==> #[trigger] kept@[q] == k[q],
        decreases m - j,
    {
        let (next_page, next_line) = if j + 1 < m {
            (kept[j + 1].start_page_index, kept[j + 1].start_line_index)
        } else {
            (page_count, 0)
        };
        kept[j].article_index = j;
        kept[j].end_page_index = next_page;
        kept[j].end_line_index = next_line;
        j += 1;
    }
    kept
}

/// Filtering keeps the first span, numbers the kept spans `0, 1, ...` and
/// chains them: each kept span ends exactly where the next begins.
pub proof fn lemma_kept_spans_chain(
    detected: Seq<ArticleSpan>,
    false_boundary: Seq<bool>,
    page_count: usize,
)
    requires
        1 < detected.len() <= usize::MAX,
        false_boundary.len() == detected.len(),
    ensures
        ({
            let k = kept_spans(detected, false_boundary, detected.len() as int);
            &&& k.len() >= 1
            &&& k[0] == detected[0]
            &&& forall|i: int| 0 <= i < k.len() ==> #[trigger] renumbered_span(k, i, page_count).article_index == i
            &&& forall|i: int|
                0 <= i && i + 1 < k.len() ==> (#[trigger] renumbered_span(k, i, page_count)).end_page_index
                    == renumbered_span(k, i + 1, page_count).start_page_index
                    && renumbered_span(k, i, page_count).end_line_index == renumbered_span(
                    k,
                    i + 1,
                    page_count,
                ).start_line_index
            &&& renumbered_span(k, k.len() - 1, page_count).end_page_index == page_count
        }),
{
    lemma_kept_spans_first(detected, false_boundary, detected.len() as int);
    lemma_kept_spans_len(detected, false_boundary, detected.len() as int);
}

proof fn lemma_kept_spans_len(detected: Seq<ArticleSpan>, false_boundary: Seq<bool>, n: int)
    requires 0 <= n,
    ensures kept_spans(detected, false_boundary, n).len() <= n,
    decreases n,
{
    if n > 0 {
        lemma_kept_spans_len(detected, false_boundary, n - 1);
    }
}

proof fn lemma_kept_spans_first(detected: Seq<ArticleSpan>, false_boundary: Seq<bool>, n: int)
    requires 1 <= n <= detected.len(), n <= false_boundary.len(),
    ensures
        kept_spans(detected, false_boundary, n).len() >= 1,
        kept_spans(detected, false_boundary, n)[0] == detected[0],
    decreases n,
{
    if n > 1 {
        lemma_kept_spans_first(detected, false_boundary, n - 1);
        let rest = kept_spans(detected, false_boundary, n - 1);
        assert(kept_spans(detected, false_boundary, n) == if !false_boundary[n - 1] {
            rest.push(detected[n - 1])
        } else {
            rest
        });
        if !false_boundary[n - 1] {
            assert(rest.push(detected[n - 1])[0] == rest[0]);
        }
    } else {
        assert(kept_spans(detected, false_boundary, 0).len() == 0);
        assert(kept_spans(detected, false_boundary, 1) == kept_spans(detected, false_boundary, 0).push(detected[0]));
    }
}

} // verus!
