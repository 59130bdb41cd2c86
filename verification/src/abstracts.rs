//! Recovery of an unlabeled abstract on the first two pages: journals often
//! set the abstract in a smaller font, and the decoder routes much of it to
//! Marginalia. A long prose run before the introduction, with enough
//! Marginalia lines in it, is given back to the body as the abstract.
use vstd::prelude::*;

use crate::pipeline::copy_source_line;
use crate::tables::{lm2_word_count, word_count};
use crate::text::{chars_vec, lemma_skip_ws_bounds, skip_whitespace, trim_start};
use crate::types::{LiquidBlockRole, Lm2Action, Lm2SourceLine};

verus! {

/// What the front-matter scan reads of a line's text beyond its layout
/// facts: it is the introduction's heading, it opens like a marginal-note
/// block or like a note, it is a dot-leader contents line, or it is a
/// production slug.
#[derive(Clone, Copy, Debug)]
pub struct Lm2FrontTextCues {
    pub introduction: bool,
    pub note_block_start: bool,
    pub note_start: bool,
    pub dot_leader: bool,
    pub production_slug: bool,
}

/// The line opens with an author-note mark (`*`, `∗`, `†`, `‡`) or like a
/// note.
pub open spec fn front_note_start(line: Lm2SourceLine, cues: Lm2FrontTextCues) -> bool {
    let t = trim_start(line.text@);
    (t.len() > 0 && (t[0] == '*' || t[0] == '\u{2217}' || t[0] == '\u{2020}' || t[0] == '\u{2021}'))
        || cues.note_block_start || cues.note_start
}

/// A role hint that ends an abstract run.
pub open spec fn breaking_hint(h: Option<LiquidBlockRole>) -> bool {
    match h {
        Some(r) => r == LiquidBlockRole::Title || r == LiquidBlockRole::Heading || r == LiquidBlockRole::Subheading
            || r == LiquidBlockRole::Contents || r == LiquidBlockRole::Table || r == LiquidBlockRole::Caption,
        None => false,
    }
}

/// The line ends an abstract run whatever its size.
pub open spec fn front_hard_break(line: Lm2SourceLine, cues: Lm2FrontTextCues) -> bool {
    front_note_start(line, cues) || cues.dot_leader || cues.production_slug || breaking_hint(line.role_hint)
}

/// The words of the run's lines, in total.
pub open spec fn run_words(d: Seq<(Lm2SourceLine, Lm2Action)>, run: Seq<usize>) -> nat
    decreases run.len(),
{
    if run.len() == 0 {
        0
    } else {
        run_words(d, run.drop_last()) + word_count(d[run.last() as int].0.text@)
    }
}

/// The Marginalia lines of the run.
pub open spec fn run_marginalia(d: Seq<(Lm2SourceLine, Lm2Action)>, run: Seq<usize>) -> nat
    decreases run.len(),
{
    if run.len() == 0 {
        0
    } else {
        run_marginalia(d, run.drop_last()) + if d[run.last() as int].1 == Lm2Action::Marginalia {
            1nat
        } else {
            0nat
        }
    }
}

/// At least seven lines, ninety words, three Marginalia lines, and
/// Marginalia in at least three lines of ten.
pub open spec fn plausible_run(d: Seq<(Lm2SourceLine, Lm2Action)>, run: Seq<usize>) -> bool {
    &&& run.len() >= 7
    &&& run_words(d, run) >= 90
    &&& run_marginalia(d, run) >= 3
    &&& run_marginalia(d, run) * 10 >= run.len() * 3
}

/// The scan's state: the open run, the page skipped after a long author
/// note, and the run taken once one was.
pub struct FrontScan {
    pub run: Seq<usize>,
    pub blocked: Option<usize>,
    pub found: Option<Seq<usize>>,
}

/// The line may belong to an abstract run.
pub open spec fn eligible_line(line: Lm2SourceLine, action: Lm2Action, cues: Lm2FrontTextCues, run_empty: bool) -> bool {
    &&& line.page_index <= 1
    &&& (action == Lm2Action::Keep || action == Lm2Action::Marginalia)
    &&& !line.below_footnote_divider
    &&& !front_hard_break(line, cues)
    &&& (run_empty && word_count(line.text@) >= 5 || !run_empty && word_count(line.text@) >= 1)
}

/// The scan after line `i` on state `s`.
pub open spec fn front_step(d: Seq<(Lm2SourceLine, Lm2Action)>, cues: Seq<Lm2FrontTextCues>, s: FrontScan, i: int) -> FrontScan {
    let line = d[i].0;
    if s.found is Some || s.blocked == Some(line.page_index) {
        s
    } else {
        let eligible = eligible_line(line, d[i].1, cues[i], s.run.len() == 0);
        let new_page = s.run.len() > 0 && d[s.run[0] as int].0.page_index != line.page_index;
        if (new_page || !eligible) && plausible_run(d, s.run) {
            FrontScan { run: s.run, blocked: None, found: Some(s.run) }
        } else {
            let run = if new_page || !eligible {
                Seq::<usize>::empty()
            } else {
                s.run
            };
            if front_note_start(line, cues[i]) {
                FrontScan {
                    run,
                    blocked: if word_count(line.text@) > 6 {
                        Some(line.page_index)
                    } else {
                        None
                    },
                    found: None,
                }
            } else if eligible {
                FrontScan { run: run.push(i as usize), blocked: None, found: None }
            } else {
                FrontScan { run, blocked: None, found: None }
            }
        }
    }
}

/// The scan over the lines `0..n`.
pub open spec fn front_scan(d: Seq<(Lm2SourceLine, Lm2Action)>, cues: Seq<Lm2FrontTextCues>, n: int) -> FrontScan
    decreases n,
{
    if n <= 0 {
        FrontScan { run: Seq::empty(), blocked: None, found: None }
    } else {
        front_step(d, cues, front_scan(d, cues, n - 1), n - 1)
    }
}

/// The first line that is the introduction's heading, or the end.
pub open spec fn introduction_stop(cues: Seq<Lm2FrontTextCues>, n: int) -> int
    decreases n,
{
    if n <= 0 {
        cues.len() as int
    } else if cues[cues.len() - n].introduction {
        cues.len() - n
    } else {
        introduction_stop(cues, n - 1)
    }
}

/// The run the recovery marks, if any.
pub open spec fn abstract_run(d: Seq<(Lm2SourceLine, Lm2Action)>, cues: Seq<Lm2FrontTextCues>) -> Option<Seq<usize>> {
    let s = front_scan(d, cues, introduction_stop(cues, cues.len() as int));
    match s.found {
        Some(r) => Some(r),
        None => if plausible_run(d, s.run) {
            Some(s.run)
        } else {
            None
        },
    }
}

/// Line `i` is marked as abstract.
pub open spec fn in_abstract(d: Seq<(Lm2SourceLine, Lm2Action)>, cues: Seq<Lm2FrontTextCues>, i: int) -> bool {
    abstract_run(d, cues) matches Some(r) && r.contains(i as usize)
}

/// The line, marked as abstract body text.
pub open spec fn as_abstract(e: (Lm2SourceLine, Lm2Action)) -> (Lm2SourceLine, Lm2Action) {
    (Lm2SourceLine { role_hint: Some(LiquidBlockRole::Abstract), ..e.0 }, Lm2Action::Keep)
}

/// Whether the line opens with an author-note mark or like a note.
pub fn lm2_front_abstract_note_start(line: &Lm2SourceLine, cues: &Lm2FrontTextCues) -> (r: bool)
    ensures r == front_note_start(*line, *cues),
{
    let cs = chars_vec(line.text.as_str());
    let p = skip_whitespace(cs.as_slice(), 0);
    proof {
        lemma_skip_ws_bounds(cs@, 0);
    }
    let ghost t = trim_start(cs@);
    assert(t == cs@.subrange(p as int, cs@.len() as int));
    let mark = p < cs.len() && (cs[p] == '*' || cs[p] == '\u{2217}' || cs[p] == '\u{2020}' || cs[p] == '\u{2021}');
    mark || cues.note_block_start || cues.note_start
}

/// Whether the line ends an abstract run.
pub fn lm2_front_abstract_hard_break(line: &Lm2SourceLine, cues: &Lm2FrontTextCues) -> (r: bool)
    ensures r == front_hard_break(*line, *cues),
{
    let hint = match line.role_hint {
        Some(LiquidBlockRole::Title) | Some(LiquidBlockRole::Heading) | Some(LiquidBlockRole::Subheading)
        | Some(LiquidBlockRole::Contents) | Some(LiquidBlockRole::Table) | Some(LiquidBlockRole::Caption) => true,
        _ => false,
    };
    lm2_front_abstract_note_start(line, cues) || cues.dot_leader || cues.production_slug || hint
}

/// Whether the run (indices of `decoded`) is a plausible abstract.
pub fn lm2_front_abstract_run_is_plausible(decoded: &[(Lm2SourceLine, Lm2Action)], run: &[usize]) -> (r: bool)
    requires forall|k: int| 0 <= k < run@.len() ==> (#[trigger] run@[k]) < decoded@.len(),
    ensures r == plausible_run(decoded@, run@),
{
    if run.len() < 7 {
        return false;
    }
    let mut words: usize = 0;
    let mut marginalia: usize = 0;
    let mut k: usize = 0;
    while k < run.len()
        invariant
            k <= run@.len(),
            forall|j: int| 0 <= j < run@.len() ==> (#[trigger] run@[j]) < decoded@.len(),
            words == if run_words(decoded@, run@.subrange(0, k as int)) >= 90 {
                90
            } else {
                run_words(decoded@, run@.subrange(0, k as int))
            },
            marginalia == run_marginalia(decoded@, run@.subrange(0, k as int)),
            marginalia <= k,
        decreases run.len() - k,
    {
        let e = &decoded[run[k]];
        let wc = lm2_word_count(e.0.text.as_str());
        proof {
            let s = run@.subrange(0, k as int + 1);
            assert(s.drop_last() == run@.subrange(0, k as int));
            assert(s.last() == run@[k as int]);
        }
        if words < 90 {
            words = if wc >= 90 - words {
                90
            } else {
                words + wc
            };
        }
        if e.1 == Lm2Action::Marginalia {
            marginalia += 1;
        }
        k += 1;
    }
    assert(run@.subrange(0, run@.len() as int) == run@);
    words >= 90 && marginalia >= 3 && (marginalia as u128) * 10 >= (run.len() as u128) * 3
}

/// Some of the first `k` entries of the run is `i`.
pub open spec fn marked_by(run: Seq<usize>, k: int, i: int) -> bool
    decreases k,
{
    if k <= 0 || k > run.len() {
        false
    } else {
        run[k - 1] as int == i || marked_by(run, k - 1, i)
    }
}

/// `d` is `d0` with the lines of the run's first `k` entries marked.
pub open spec fn marked_upto(
    d0: Seq<(Lm2SourceLine, Lm2Action)>,
    d: Seq<(Lm2SourceLine, Lm2Action)>,
    run: Seq<usize>,
    k: int,
) -> bool {
    &&& d.len() == d0.len()
    &&& forall|i: int|
        0 <= i < d0.len() ==> #[trigger] d[i] == if marked_by(run, k, i) {
            as_abstract(d0[i])
        } else {
            d0[i]
        }
}

proof fn lemma_mark_step(
    d0: Seq<(Lm2SourceLine, Lm2Action)>,
    d: Seq<(Lm2SourceLine, Lm2Action)>,
    run: Seq<usize>,
    k: int,
)
    requires
        0 <= k < run.len(),
        run[k] < d0.len(),
        marked_upto(d0, d, run, k),
    ensures marked_upto(d0, d.update(run[k] as int, as_abstract(d0[run[k] as int])), run, k + 1),
{
    let d2 = d.update(run[k] as int, as_abstract(d0[run[k] as int]));
    assert forall|i: int| 0 <= i < d0.len() implies #[trigger] d2[i] == if marked_by(run, k + 1, i) {
        as_abstract(d0[i])
    } else {
        d0[i]
    } by {
        if i != run[k] as int {
            assert(d2[i] == d[i]);
        }
    }
}

#[verifier::rlimit(100)]
proof fn lemma_as_abstract_idempotent(e: (Lm2SourceLine, Lm2Action))
    ensures as_abstract(as_abstract(e)) == as_abstract(e),
{
}

#[verifier::rlimit(100)]
fn mark_one(decoded: &mut Vec<(Lm2SourceLine, Lm2Action)>, idx: usize)
    requires idx < old(decoded)@.len(),
    ensures final(decoded)@ == old(decoded)@.update(idx as int, as_abstract(old(decoded)@[idx as int])),
{
    let l = copy_source_line(&decoded[idx].0);
    let line = Lm2SourceLine { role_hint: Some(LiquidBlockRole::Abstract), ..l };
    assert(line == as_abstract(old(decoded)@[idx as int]).0);
    decoded.set(idx, (line, Lm2Action::Keep));
}

/// Marks the run's lines as abstract body text: action `Keep` and the
/// Abstract role hint.
#[verifier::rlimit(100)]
pub fn lm2_mark_front_abstract_run(decoded: &mut Vec<(Lm2SourceLine, Lm2Action)>, run: &[usize])
    requires forall|k: int| 0 <= k < run@.len() ==> (#[trigger] run@[k]) < old(decoded)@.len(),
    ensures marked_upto(old(decoded)@, final(decoded)@, run@, run@.len() as int),
{
    let ghost d0 = decoded@;
    let mut k: usize = 0;
    while k < run.len()
        invariant
            k <= run@.len(),
            forall|j: int| 0 <= j < run@.len() ==> (#[trigger] run@[j]) < d0.len(),
            marked_upto(d0, decoded@, run@, k as int),
        decreases run.len() - k,
    {
        let idx = run[k];
        let ghost before = decoded@;
        proof {
            lemma_mark_step(d0, before, run@, k as int);
            lemma_as_abstract_idempotent(d0[idx as int]);
            assert(before[idx as int] == d0[idx as int] || before[idx as int] == as_abstract(d0[idx as int]));
        }
        mark_one(decoded, idx);
        assert(decoded@ == before.update(idx as int, as_abstract(d0[idx as int])));
        k += 1;
    }
}

proof fn lemma_found_persists(d: Seq<(Lm2SourceLine, Lm2Action)>, cues: Seq<Lm2FrontTextCues>, i: int, n: int)
    requires
        0 <= i <= n,
        front_scan(d, cues, i).found is Some,
    ensures front_scan(d, cues, n) == front_scan(d, cues, i),
    decreases n - i,
{
    if n > i {
        lemma_found_persists(d, cues, i, n - 1);
    }
}

/// Finds the abstract run (see `abstract_run`) and marks its lines as
/// abstract body text; nothing changes when there is none. The scan stops
/// at the introduction's heading.
pub fn apply_front_matter_abstract_recovery(decoded: &mut Vec<(Lm2SourceLine, Lm2Action)>, cues: &[Lm2FrontTextCues])
    requires cues@.len() == old(decoded)@.len(),
    ensures
        match abstract_run(old(decoded)@, cues@) {
            Some(r) => marked_upto(old(decoded)@, final(decoded)@, r, r.len() as int),
            None => final(decoded)@ == old(decoded)@,
        },
{
    let ghost d0 = decoded@;
    let mut i: usize = 0;
    while i < cues.len() && !cues[i].introduction
        invariant
            i <= cues@.len(),
            introduction_stop(cues@, cues@.len() as int) == introduction_stop(cues@, cues@.len() - i),
        decreases cues.len() - i,
    {
        i += 1;
    }
    let stop = i;
    assert(stop == introduction_stop(cues@, cues@.len() - i));
    let mut run: Vec<usize> = Vec::new();
    let mut blocked: Option<usize> = None;
    let mut index: usize = 0;
    while index < stop
        invariant
            decoded@ == d0,
            d0 == old(decoded)@,
            cues@.len() == d0.len(),
            stop == introduction_stop(cues@, cues@.len() as int),
            stop <= d0.len(),
            index <= stop,
            front_scan(d0, cues@, index as int) == (FrontScan { run: run@, blocked, found: None }),
            forall|j: int| 0 <= j < run@.len() ==> (#[trigger] run@[j]) < index,
        decreases stop - index,
    {
        let line = &decoded[index].0;
        let action = decoded[index].1;
        let skip = match blocked {
            Some(p) => p == line.page_index,
            None => false,
        };
        if skip {
            index += 1;
            continue;
        }
        let ans = lm2_front_abstract_note_start(line, &cues[index]);
        let hard = lm2_front_abstract_hard_break(line, &cues[index]);
        let wc = lm2_word_count(line.text.as_str());
        let new_page = run.len() > 0 && decoded[run[0]].0.page_index != line.page_index;
        let eligible = line.page_index <= 1 && (action == Lm2Action::Keep || action == Lm2Action::Marginalia)
            && !line.below_footnote_divider && !hard && (run.len() == 0 && wc >= 5 || run.len() > 0 && wc >= 1);
        let page = line.page_index;
        if new_page || !eligible {
            if lm2_front_abstract_run_is_plausible(decoded.as_slice(), run.as_slice()) {
                proof {
                    assert(front_scan(d0, cues@, index as int + 1) == front_step(
                        d0,
                        cues@,
                        front_scan(d0, cues@, index as int),
                        index as int,
                    ));
                    assert(front_scan(d0, cues@, index as int + 1).found == Some(run@));
                    lemma_found_persists(d0, cues@, index as int + 1, stop as int);
                    assert(front_scan(d0, cues@, stop as int).found == Some(run@));
                    assert(abstract_run(d0, cues@) == Some(run@));
                }
                lm2_mark_front_abstract_run(decoded, run.as_slice());
                return;
            }
            run = Vec::new();
        }
        if ans {
            blocked = if wc > 6 {
                Some(page)
            } else {
                None
            };
            index += 1;
            continue;
        }
        blocked = None;
        if eligible {
            run.push(index);
        }
        index += 1;
    }
    if lm2_front_abstract_run_is_plausible(decoded.as_slice(), run.as_slice()) {
        lm2_mark_front_abstract_run(decoded, run.as_slice());
    }
}

/// The run's lines are on the first two pages, kept or Marginalia, and
/// before line `n`.
pub open spec fn front_run_lines(d: Seq<(Lm2SourceLine, Lm2Action)>, run: Seq<usize>, n: int) -> bool {
    forall|j: int|
        0 <= j < run.len() ==> (#[trigger] run[j]) < n && d[run[j] as int].0.page_index <= 1 && (d[run[j] as int].1
            == Lm2Action::Keep || d[run[j] as int].1 == Lm2Action::Marginalia)
}

proof fn lemma_front_scan_lines(d: Seq<(Lm2SourceLine, Lm2Action)>, cues: Seq<Lm2FrontTextCues>, n: int)
    requires
        0 <= n <= d.len(),
        d.len() <= usize::MAX,
        cues.len() == d.len(),
    ensures
        front_run_lines(d, front_scan(d, cues, n).run, n),
        front_scan(d, cues, n).found matches Some(r) ==> front_run_lines(d, r, n),
    decreases n,
{
    if n > 0 {
        lemma_front_scan_lines(d, cues, n - 1);
        let s = front_scan(d, cues, n - 1);
        let t = front_scan(d, cues, n);
        assert(t == front_step(d, cues, s, n - 1));
        let i = n - 1;
        let line = d[i].0;
        if !(s.found is Some || s.blocked == Some(line.page_index)) {
            let eligible = eligible_line(line, d[i].1, cues[i], s.run.len() == 0);
            let new_page = s.run.len() > 0 && d[s.run[0] as int].0.page_index != line.page_index;
            if !((new_page || !eligible) && plausible_run(d, s.run)) && !front_note_start(line, cues[i]) && eligible {
                let run = if new_page || !eligible {
                    Seq::<usize>::empty()
                } else {
                    s.run
                };
                assert(t.run == run.push(i as usize));
                assert forall|j: int| 0 <= j < t.run.len() implies (#[trigger] t.run[j]) < n && d[t.run[j] as int].0.page_index
                    <= 1 && (d[t.run[j] as int].1 == Lm2Action::Keep || d[t.run[j] as int].1 == Lm2Action::Marginalia) by {
                    if j < run.len() {
                        assert(t.run[j] == s.run[j]);
                    }
                }
            }
        }
    }
}

proof fn lemma_introduction_stop_bounds(cues: Seq<Lm2FrontTextCues>, n: int)
    requires 0 <= n <= cues.len(),
    ensures 0 <= introduction_stop(cues, n) <= cues.len(),
    decreases n,
{
    if n > 0 {
        lemma_introduction_stop_bounds(cues, n - 1);
    }
}

/// The recovery touches only lines on the first two pages whose action was
/// `Keep` or `Marginalia`.
pub proof fn lemma_abstract_run_lines(d: Seq<(Lm2SourceLine, Lm2Action)>, cues: Seq<Lm2FrontTextCues>)
    requires
        cues.len() == d.len(),
        d.len() <= usize::MAX,
    ensures abstract_run(d, cues) matches Some(r) ==> front_run_lines(d, r, d.len() as int),
{
    let stop = introduction_stop(cues, cues.len() as int);
    lemma_introduction_stop_bounds(cues, cues.len() as int);
    lemma_front_scan_lines(d, cues, stop);
}

} // verus!
