//! Decoder-path guards of the layout priors.
use vstd::prelude::*;

use crate::types::{Lm2Action, Lm2SourceLine};

verus! {

/// What the anchor test reads of a line beyond its layout facts: three
/// readings of its text (it opens like a note, it holds a legal-citation
/// cue, it opens like a marginal-note block) and the document's note-marker
/// evidence for it.
#[derive(Clone, Copy, Debug)]
pub struct Lm2NoteEvidence {
    pub note_start: bool,
    pub legal_note_cue: bool,
    pub marginalia_block_start: bool,
    pub page_has_footnote_divider: bool,
    pub doc_note_marker: u16,
    pub doc_note_marker_mid_sequence_page: bool,
    pub doc_note_marker_follows_previous_page: bool,
}

/// The line carries note evidence: its text or the page and document
/// around it say it belongs to a note.
pub open spec fn note_evidence(line: Lm2SourceLine, ev: Lm2NoteEvidence) -> bool {
    ev.note_start || ev.legal_note_cue || line.below_footnote_divider || ev.page_has_footnote_divider
        || line.doc_footnote_state || line.doc_footnote_continuation || ev.doc_note_marker > 0
        || ev.doc_note_marker_mid_sequence_page || ev.doc_note_marker_follows_previous_page
}

/// A line that anchors a Marginalia run: note evidence, or the start of a
/// marginal-note block.
pub open spec fn marginalia_anchor(line: Lm2SourceLine, ev: Lm2NoteEvidence) -> bool {
    note_evidence(line, ev) || ev.marginalia_block_start
}

/// The anchor flags of the lines.
pub open spec fn anchor_flags(lines: Seq<Lm2SourceLine>, evidence: Seq<Lm2NoteEvidence>) -> Seq<bool> {
    Seq::new(lines.len(), |i: int| marginalia_anchor(lines[i], evidence[i]))
}

/// Whether the line carries note evidence.
pub fn small_font_note_evidence(line: &Lm2SourceLine, ev: &Lm2NoteEvidence) -> (r: bool)
    ensures r == note_evidence(*line, *ev),
{
    ev.note_start || ev.legal_note_cue || line.below_footnote_divider || ev.page_has_footnote_divider
        || line.doc_footnote_state || line.doc_footnote_continuation || ev.doc_note_marker > 0
        || ev.doc_note_marker_mid_sequence_page || ev.doc_note_marker_follows_previous_page
}

/// Whether the line anchors a Marginalia run.
pub fn hard_marginalia_anchor(line: &Lm2SourceLine, ev: &Lm2NoteEvidence) -> (r: bool)
    ensures r == marginalia_anchor(*line, *ev),
{
    small_font_note_evidence(line, ev) || ev.marginalia_block_start
}

/// The guard's state after the lines `0..n`: whether an anchored Marginalia
/// run is open, and how many unanchored Marginalia lines followed its
/// anchor.
pub open spec fn flow_guard_state(anchors: Seq<bool>, path: Seq<Lm2Action>, n: int) -> (bool, nat)
    decreases n,
{
    if n <= 0 {
        (false, 0)
    } else {
        let (active, count) = flow_guard_state(anchors, path, n - 1);
        let i = n - 1;
        if path[i] != Lm2Action::Marginalia {
            (false, 0)
        } else if anchors[i] {
            (true, 0)
        } else if !active {
            (active, count)
        } else {
            (true, count + 1)
        }
    }
}

/// The action the guard leaves for line `i`: a Marginalia line survives
/// when it is an anchor or one of the first two unanchored lines of an
/// anchored run; other Marginalia lines become `Keep`.
pub open spec fn flow_guarded_action(anchors: Seq<bool>, path: Seq<Lm2Action>, i: int) -> Lm2Action {
    let (active, count) = flow_guard_state(anchors, path, i);
    if path[i] != Lm2Action::Marginalia {
        path[i]
    } else if anchors[i] {
        Lm2Action::Marginalia
    } else if !active || count + 1 > 2 {
        Lm2Action::Keep
    } else {
        Lm2Action::Marginalia
    }
}

/// Keeps Marginalia only where it is anchored: a run of Marginalia lines
/// must open with an anchor line (`hard_marginalia_anchor`), and at most two
/// unanchored lines may follow each anchor; the rest of the run becomes
/// `Keep`. Actions past the last line are left alone.
pub fn apply_anchored_marginalia_flow_guard(
    lines: &[Lm2SourceLine],
    evidence: &[Lm2NoteEvidence],
    path: &mut Vec<Lm2Action>,
)
    requires evidence@.len() == lines@.len(),
    ensures
        final(path)@.len() == old(path)@.len(),
        forall|i: int|
            0 <= i < final(path)@.len() ==> #[trigger] final(path)@[i] == if i < lines@.len() {
                flow_guarded_action(anchor_flags(lines@, evidence@), old(path)@, i)
            } else {
                old(path)@[i]
            },
{
    let mut anchors: Vec<bool> = Vec::new();
    let mut i: usize = 0;
    while i < lines.len()
        invariant
            i <= lines@.len(),
            evidence@.len() == lines@.len(),
            anchors@ == anchor_flags(lines@, evidence@).subrange(0, i as int),
        decreases lines.len() - i,
    {
        anchors.push(hard_marginalia_anchor(&lines[i], &evidence[i]));
        i += 1;
    }
    assert(anchors@ == anchor_flags(lines@, evidence@));
    guard_with_anchors(anchors.as_slice(), path);
}

fn guard_with_anchors(anchors: &[bool], path: &mut Vec<Lm2Action>)
    ensures
        final(path)@.len() == old(path)@.len(),
        forall|i: int|
            0 <= i < final(path)@.len() ==> #[trigger] final(path)@[i] == if i < anchors@.len() {
                flow_guarded_action(anchors@, old(path)@, i)
            } else {
                old(path)@[i]
            },
{
    let ghost p0 = path@;
    let n = if anchors.len() < path.len() {
        anchors.len()
    } else {
        path.len()
    };
    let mut active = false;
    let mut count: usize = 0;
    let mut i: usize = 0;
    while i < n
        invariant
            i <= n,
            n <= anchors@.len(),
            n <= p0.len(),
            n == anchors@.len() || n == p0.len(),
            path@.len() == p0.len(),
            p0 == old(path)@,
            (active, count as nat) == flow_guard_state(anchors@, p0, i as int),
            count <= i,
            forall|j: int| 0 <= j < i ==> #[trigger] path@[j] == flow_guarded_action(anchors@, p0, j),
            forall|j: int| i <= j < p0.len() ==> #[trigger] path@[j] == p0[j],
        decreases n - i,
    {
        if path[i] != Lm2Action::Marginalia {
            active = false;
            count = 0;
        } else if anchors[i] {
            active = true;
            count = 0;
        } else if !active {
            path.set(i, Lm2Action::Keep);
        } else {
            count += 1;
            if count > 2 {
                path.set(i, Lm2Action::Keep);
            }
        }
        i += 1;
    }
}

/// The guard never invents Marginalia: every line keeps its action, or a
/// Marginalia line becomes `Keep`; an anchored Marginalia line always
/// survives.
pub proof fn lemma_flow_guard_only_demotes(anchors: Seq<bool>, path: Seq<Lm2Action>, i: int)
    requires 0 <= i < path.len(), i < anchors.len(),
    ensures
        flow_guarded_action(anchors, path, i) == path[i] || (path[i] == Lm2Action::Marginalia
            && flow_guarded_action(anchors, path, i) == Lm2Action::Keep),
        path[i] == Lm2Action::Marginalia && anchors[i] ==> flow_guarded_action(anchors, path, i)
            == Lm2Action::Marginalia,
{
}

} // verus!
