//! Note heads recovered from the physical sequence of note rows: an
//! unmarked small-font note row that opens with number N, next to an
//! accepted head N-1 or N+1 in reading order, becomes a head of its own.
//! Recovered heads count as accepted in the next round, until a round
//! recovers nothing.
use vstd::prelude::*;

use crate::heads::{max_marker, max_marker_exec, numeric_or_bare_marker, lm2_leading_numeric_or_bare_marker};
use crate::lines::{find_line_by_id, last_line_with_id};
use crate::reflow::{lm2_note_tail_visibly_closed, note_tail_closed_spec};
use crate::rows::{lm2_physical_sequential_note_row, physical_sequential_note_row, Lm2FontCues};
use crate::text::{chars_vec, decimal_digits, first_alpha_exec, first_alpha_from, trim, trim_bounds, u16_to_chars};
use crate::types::{LiquidBlock, LiquidBlockRole, LiquidBlockSourceLines, LiquidSourceLineRef, Lm2Action, Lm2SourceLine};

verus! {

// ---------------------------------------------------------------------------
// Rows in reading order
// ---------------------------------------------------------------------------

/// The (entry, row) positions of all provenance rows, entry by entry.
pub open spec fn flat_pos(srcs: Seq<LiquidBlockSourceLines>, k: int) -> Seq<(int, int)>
    decreases k,
{
    if k <= 0 || k > srcs.len() {
        Seq::empty()
    } else {
        flat_pos(srcs, k - 1) + Seq::new(srcs[k - 1].lines@.len(), |q: int| (k - 1, q))
    }
}

/// What the recovery reads.
pub struct PhysicalContext {
    pub srcs: Seq<LiquidBlockSourceLines>,
    pub decoded: Seq<(Lm2SourceLine, Lm2Action)>,
    pub font: Seq<Lm2FontCues>,
    /// The leading numeric token marker of each row, entry by entry.
    pub tokens: Seq<Vec<Option<u16>>>,
    /// Each decoded line's font height is within 1.18 times that of the
    /// decoded line right below it.
    pub close_height: Seq<bool>,
}

pub open spec fn positions(c: PhysicalContext) -> Seq<(int, int)> {
    flat_pos(c.srcs, c.srcs.len() as int)
}

pub open spec fn row(c: PhysicalContext, i: int) -> LiquidSourceLineRef {
    c.srcs[positions(c)[i].0].lines@[positions(c)[i].1]
}

pub open spec fn token(c: PhysicalContext, i: int) -> Option<u16> {
    c.tokens[positions(c)[i].0]@[positions(c)[i].1]
}

/// Row `i` comes before row `j` in reading order: by page, line, then
/// provenance order.
pub open spec fn before(c: PhysicalContext, i: int, j: int) -> bool {
    let a = row(c, i);
    let b = row(c, j);
    a.page_index < b.page_index || (a.page_index == b.page_index && (a.line_index < b.line_index
        || (a.line_index == b.line_index && i < j)))
}

/// The decoded line behind row `i`.
pub open spec fn deep(c: PhysicalContext, i: int) -> Option<int> {
    match row(c, i).id {
        Some(id) => last_line_with_id(c.decoded, id@, c.decoded.len() as int),
        None => None,
    }
}

pub open spec fn physical(c: PhysicalContext, i: int) -> bool {
    deep(c, i) matches Some(d) && physical_sequential_note_row(c.decoded[d].0, c.font[d])
}

pub open spec fn candidate(c: PhysicalContext, i: int) -> Option<u16> {
    numeric_or_bare_marker(row(c, i).text@, token(c, i))
}

/// The latest row among `0..m` before row `i` in reading order that
/// `keep` admits.
pub open spec fn latest_before(c: PhysicalContext, keep: Seq<bool>, i: int, m: int) -> Option<int>
    decreases m,
{
    if m <= 0 {
        None
    } else {
        let r = latest_before(c, keep, i, m - 1);
        if keep[m - 1] && before(c, m - 1, i) && (r matches Some(b) ==> before(c, b, m - 1)) {
            Some(m - 1)
        } else {
            r
        }
    }
}

/// The earliest row among `0..m` after row `i` in reading order that
/// `keep` admits.
pub open spec fn earliest_after(c: PhysicalContext, keep: Seq<bool>, i: int, m: int) -> Option<int>
    decreases m,
{
    if m <= 0 {
        None
    } else {
        let r = earliest_after(c, keep, i, m - 1);
        if keep[m - 1] && before(c, i, m - 1) && (r matches Some(b) ==> before(c, m - 1, b)) {
            Some(m - 1)
        } else {
            r
        }
    }
}

/// How many rows among `0..m` lie from row `a` (inclusive) to row `b`
/// (exclusive) in reading order: the distance from `a` to `b`.
pub open spec fn distance(c: PhysicalContext, a: int, b: int, m: int) -> nat
    decreases m,
{
    if m <= 0 {
        0
    } else {
        distance(c, a, b, m - 1) + if !before(c, m - 1, a) && before(c, m - 1, b) {
            1nat
        } else {
            0nat
        }
    }
}

pub open spec fn accepted_flags(acc: Seq<Option<u16>>) -> Seq<bool> {
    Seq::new(acc.len(), |i: int| acc[i] is Some)
}

pub open spec fn all_rows(c: PhysicalContext) -> Seq<bool> {
    Seq::new(positions(c).len(), |i: int| true)
}

pub open spec fn page_gap_ok(a: usize, b: usize) -> bool {
    -1 <= a - b <= 1
}

/// The accepted head before row `i` (`m` its number) proves it: at most
/// sixteen rows back, numbered m - 1, on the same or an adjacent page.
pub open spec fn previous_proof(c: PhysicalContext, acc: Seq<Option<u16>>, i: int, m: u16) -> bool {
    let n = positions(c).len() as int;
    latest_before(c, accepted_flags(acc), i, n) matches Some(b) && distance(c, b, i, n) <= 16 && acc[b]
        == Some(if m == 0 { 0u16 } else { (m - 1) as u16 }) && page_gap_ok(row(c, b).page_index, row(c, i).page_index)
}

/// The accepted head after row `i` proves it: at most sixteen rows on,
/// numbered m + 1, on the same or an adjacent page.
pub open spec fn next_proof(c: PhysicalContext, acc: Seq<Option<u16>>, i: int, m: u16) -> bool {
    let n = positions(c).len() as int;
    earliest_after(c, accepted_flags(acc), i, n) matches Some(b) && distance(c, i, b, n) <= 16 && acc[b]
        == Some(if m == u16::MAX { m } else { (m + 1) as u16 }) && page_gap_ok(row(c, b).page_index, row(c, i).page_index)
}

/// Row `i` is the bare number `m`, and the next row is note prose right
/// below it in a similar font.
pub open spec fn bare_followed_by_prose(c: PhysicalContext, i: int, d: int, m: u16) -> bool {
    let n = positions(c).len() as int;
    let r = row(c, i);
    &&& trim(r.text@) == decimal_digits(m as nat)
    &&& earliest_after(c, all_rows(c), i, n) matches Some(b)
    &&& row(c, b).page_index == r.page_index
    &&& row(c, b).line_index == if r.line_index == usize::MAX { r.line_index } else { (r.line_index + 1) as usize }
    &&& physical(c, b)
    &&& candidate(c, b) is None
    &&& first_alpha_from(row(c, b).text@, 0) is Some
    &&& c.close_height[d]
}

/// The row before row `i` in reading order ends a note.
pub open spec fn previous_closed(c: PhysicalContext, i: int) -> bool {
    latest_before(c, all_rows(c), i, positions(c).len() as int) matches Some(p) && note_tail_closed_spec(
        row(c, p).text@,
    )
}

/// Row `i`, not yet accepted, is recovered as a head in this round.
pub open spec fn recovered_now(c: PhysicalContext, acc: Seq<Option<u16>>, i: int) -> bool {
    &&& acc[i] is None
    &&& deep(c, i) matches Some(d)
    &&& candidate(c, i) matches Some(m)
    &&& physical_sequential_note_row(c.decoded[d].0, c.font[d])
    &&& previous_proof(c, acc, i, m) || next_proof(c, acc, i, m)
    &&& bare_followed_by_prose(c, i, d, m) || previous_closed(c, i)
}

/// One round: every row recovered now is accepted with its number.
pub open spec fn round(c: PhysicalContext, acc: Seq<Option<u16>>) -> Seq<Option<u16>> {
    Seq::new(
        acc.len(),
        |i: int|
            if recovered_now(c, acc, i) {
                candidate(c, i)
            } else {
                acc[i]
            },
    )
}

/// Rounds until one recovers nothing (at most `fuel` of them).
pub open spec fn settle(c: PhysicalContext, acc: Seq<Option<u16>>, fuel: nat) -> Seq<Option<u16>>
    decreases fuel,
{
    if fuel == 0 || round(c, acc) == acc {
        acc
    } else {
        settle(c, round(c, acc), (fuel - 1) as nat)
    }
}

/// The heads accepted before the first round: each row's highest note
/// number.
pub open spec fn initial_heads(c: PhysicalContext) -> Seq<Option<u16>> {
    Seq::new(positions(c).len(), |i: int| max_marker(row(c, i).note_markers@))
}

pub open spec fn unaccepted(acc: Seq<Option<u16>>, m: int) -> nat
    decreases m,
{
    if m <= 0 {
        0
    } else {
        unaccepted(acc, m - 1) + if acc[m - 1] is None {
            1nat
        } else {
            0nat
        }
    }
}

/// The heads accepted once the rounds settle.
pub open spec fn settled_heads(c: PhysicalContext) -> Seq<Option<u16>> {
    let init = initial_heads(c);
    settle(c, init, unaccepted(init, init.len() as int))
}

/// Row `i` was recovered by some round.
pub open spec fn recovered(c: PhysicalContext, i: int) -> bool {
    initial_heads(c)[i] is None && settled_heads(c)[i] is Some
}

/// The flat index of row `q` of entry `k`.
pub open spec fn flat_index(c: PhysicalContext, k: int, q: int) -> int {
    flat_pos(c.srcs, k).len() + q
}

/// Entry `k` holds a recovered row.
pub open spec fn touched(c: PhysicalContext, k: int) -> bool {
    exists|q: int|
        0 <= q < c.srcs[k].lines@.len() && #[trigger] recovered(c, flat_index(c, k, q))
}

/// Every row of entry `k` is a physical note row.
pub open spec fn all_physical(c: PhysicalContext, k: int) -> bool {
    forall|q: int| 0 <= q < c.srcs[k].lines@.len() ==> #[trigger] physical(c, flat_index(c, k, q))
}

/// Entry `k` becomes a note block: it holds a recovered row and all its
/// rows are physical note rows.
pub open spec fn promoted(c: PhysicalContext, k: int) -> bool {
    touched(c, k) && all_physical(c, k)
}

pub open spec fn recovered_count(c: PhysicalContext, m: int) -> nat
    decreases m,
{
    if m <= 0 {
        0
    } else {
        recovered_count(c, m - 1) + if recovered(c, m - 1) {
            1nat
        } else {
            0nat
        }
    }
}

// ---------------------------------------------------------------------------
// Lemmas on row positions
// ---------------------------------------------------------------------------

proof fn lemma_flat_pos(srcs: Seq<LiquidBlockSourceLines>, k: int)
    requires 0 <= k <= srcs.len(),
    ensures
        forall|i: int|
            0 <= i < flat_pos(srcs, k).len() ==> 0 <= (#[trigger] flat_pos(srcs, k)[i]).0 < k && 0
                <= flat_pos(srcs, k)[i].1 < srcs[flat_pos(srcs, k)[i].0].lines@.len(),
    decreases k,
{
    if k > 0 {
        lemma_flat_pos(srcs, k - 1);
        let a = flat_pos(srcs, k - 1);
        assert forall|i: int| 0 <= i < flat_pos(srcs, k).len() implies 0 <= (#[trigger] flat_pos(srcs, k)[i]).0
            < k && 0 <= flat_pos(srcs, k)[i].1 < srcs[flat_pos(srcs, k)[i].0].lines@.len() by {
            if i < a.len() {
                assert(flat_pos(srcs, k)[i] == a[i]);
            }
        }
    }
}

proof fn lemma_flat_pos_prefix(srcs: Seq<LiquidBlockSourceLines>, k: int, m: int)
    requires 0 <= k <= m <= srcs.len(),
    ensures
        flat_pos(srcs, k).len() <= flat_pos(srcs, m).len(),
        forall|i: int| 0 <= i < flat_pos(srcs, k).len() ==> #[trigger] flat_pos(srcs, m)[i] == flat_pos(srcs, k)[i],
        k < m ==> flat_pos(srcs, k).len() + srcs[k].lines@.len() <= flat_pos(srcs, m).len(),
        k < m ==> forall|q: int|
            0 <= q < srcs[k].lines@.len() ==> #[trigger] flat_pos(srcs, m)[flat_pos(srcs, k).len() + q] == (k, q),
    decreases m - k,
{
    if k < m {
        lemma_flat_pos_prefix(srcs, k, m - 1);
        let a = flat_pos(srcs, m - 1);
        assert(flat_pos(srcs, m) == a + Seq::new(srcs[m - 1].lines@.len(), |q: int| (m - 1, q)));
        if k == m - 1 {
        } else {
            lemma_flat_pos_prefix(srcs, k + 1, m - 1);
            lemma_flat_pos_prefix(srcs, k, k + 1);
            assert forall|q: int| 0 <= q < srcs[k].lines@.len() implies #[trigger] flat_pos(srcs, m)[flat_pos(
                srcs,
                k,
            ).len() + q] == (k, q) by {
                assert(flat_pos(srcs, k + 1)[flat_pos(srcs, k).len() + q] == (k, q));
                assert(flat_pos(srcs, m - 1)[flat_pos(srcs, k).len() + q] == (k, q));
            }
        }
    }
}

/// `pos` lists the rows' positions.
pub open spec fn positions_of(c: PhysicalContext, pos: Seq<(usize, usize)>) -> bool {
    &&& pos.len() == positions(c).len()
    &&& forall|i: int| 0 <= i < pos.len() ==> (#[trigger] pos[i].0 as int, pos[i].1 as int) == positions(c)[i]
}

fn row_positions(sources: &Vec<LiquidBlockSourceLines>, Ghost(c): Ghost<PhysicalContext>) -> (pos: Vec<(usize, usize)>)
    requires c.srcs == sources@,
    ensures positions_of(c, pos@),
{
    let mut pos: Vec<(usize, usize)> = Vec::new();
    let mut k: usize = 0;
    while k < sources.len()
        invariant
            k <= sources@.len(),
            c.srcs == sources@,
            pos@.len() == flat_pos(c.srcs, k as int).len(),
            forall|i: int| 0 <= i < pos@.len() ==> (#[trigger] pos@[i].0 as int, pos@[i].1 as int) == flat_pos(
                c.srcs,
                k as int,
            )[i],
        decreases sources.len() - k,
    {
        let ghost before = pos@;
        let mut q: usize = 0;
        while q < sources[k].lines.len()
            invariant
                k < sources@.len(),
                c.srcs == sources@,
                q <= sources@[k as int].lines@.len(),
                pos@.len() == before.len() + q,
                forall|i: int| 0 <= i < before.len() ==> #[trigger] pos@[i] == before[i],
                forall|i: int| 0 <= i < q ==> #[trigger] pos@[before.len() + i] == (k, i as usize),
            decreases sources[k as int].lines@.len() - q,
        {
            pos.push((k, q));
            q += 1;
        }
        proof {
            let nx = flat_pos(c.srcs, k + 1);
            assert(nx == flat_pos(c.srcs, k as int) + Seq::new(c.srcs[k as int].lines@.len(), |q: int| (k as int, q)));
            assert forall|i: int| 0 <= i < pos@.len() implies (#[trigger] pos@[i].0 as int, pos@[i].1 as int)
                == nx[i] by {
                if i >= before.len() {
                    assert(pos@[before.len() + (i - before.len())] == (k, (i - before.len()) as usize));
                }
            }
        }
        k += 1;
    }
    pos
}

// ---------------------------------------------------------------------------
// Executable reading of the rows
// ---------------------------------------------------------------------------

/// The context and the positions agree with the arguments.
pub open spec fn reads(
    c: PhysicalContext,
    sources: Seq<LiquidBlockSourceLines>,
    decoded: Seq<(Lm2SourceLine, Lm2Action)>,
    font: Seq<Lm2FontCues>,
    tokens: Seq<Vec<Option<u16>>>,
    close_height: Seq<bool>,
    pos: Seq<(usize, usize)>,
) -> bool {
    &&& c.srcs == sources
    &&& c.decoded == decoded
    &&& c.font == font
    &&& c.tokens == tokens
    &&& c.close_height == close_height
    &&& font.len() == decoded.len()
    &&& close_height.len() == decoded.len()
    &&& tokens.len() == sources.len()
    &&& forall|k: int| 0 <= k < sources.len() ==> (#[trigger] tokens[k])@.len() == sources[k].lines@.len()
    &&& positions_of(c, pos)
}

fn row_at<'a>(sources: &'a Vec<LiquidBlockSourceLines>, pos: &Vec<(usize, usize)>, i: usize, Ghost(c): Ghost<PhysicalContext>) -> (r: &'a LiquidSourceLineRef)
    requires
        c.srcs == sources@,
        positions_of(c, pos@),
        i < pos@.len(),
    ensures *r == row(c, i as int),
{
    proof {
        lemma_flat_pos(c.srcs, c.srcs.len() as int);
        assert(positions(c)[i as int] == (pos@[i as int].0 as int, pos@[i as int].1 as int));
    }
    let (k, q) = pos[i];
    &sources[k].lines[q]
}

fn before_exec(sources: &Vec<LiquidBlockSourceLines>, pos: &Vec<(usize, usize)>, i: usize, j: usize, Ghost(c): Ghost<PhysicalContext>) -> (r: bool)
    requires
        c.srcs == sources@,
        positions_of(c, pos@),
        i < pos@.len(),
        j < pos@.len(),
    ensures r == before(c, i as int, j as int),
{
    let a = row_at(sources, pos, i, Ghost(c));
    let b = row_at(sources, pos, j, Ghost(c));
    a.page_index < b.page_index || (a.page_index == b.page_index && (a.line_index < b.line_index || (a.line_index
        == b.line_index && i < j)))
}

fn latest_before_exec(
    sources: &Vec<LiquidBlockSourceLines>,
    pos: &Vec<(usize, usize)>,
    keep: &Vec<bool>,
    i: usize,
    Ghost(c): Ghost<PhysicalContext>,
) -> (r: Option<usize>)
    requires
        c.srcs == sources@,
        positions_of(c, pos@),
        keep@.len() == pos@.len(),
        i < pos@.len(),
    ensures
        match r {
            Some(b) => latest_before(c, keep@, i as int, pos@.len() as int) == Some(b as int) && b < pos@.len(),
            None => latest_before(c, keep@, i as int, pos@.len() as int) is None,
        },
{
    let mut best: Option<usize> = None;
    let mut m: usize = 0;
    while m < pos.len()
        invariant
            m <= pos@.len(),
            c.srcs == sources@,
            positions_of(c, pos@),
            keep@.len() == pos@.len(),
            i < pos@.len(),
            match best {
                Some(b) => latest_before(c, keep@, i as int, m as int) == Some(b as int) && b < m,
                None => latest_before(c, keep@, i as int, m as int) is None,
            },
        decreases pos.len() - m,
    {
        if keep[m] && before_exec(sources, pos, m, i, Ghost(c)) {
            let better = match best {
                Some(b) => before_exec(sources, pos, b, m, Ghost(c)),
                None => true,
            };
            if better {
                best = Some(m);
            }
        }
        m += 1;
    }
    best
}

fn earliest_after_exec(
    sources: &Vec<LiquidBlockSourceLines>,
    pos: &Vec<(usize, usize)>,
    keep: &Vec<bool>,
    i: usize,
    Ghost(c): Ghost<PhysicalContext>,
) -> (r: Option<usize>)
    requires
        c.srcs == sources@,
        positions_of(c, pos@),
        keep@.len() == pos@.len(),
        i < pos@.len(),
    ensures
        match r {
            Some(b) => earliest_after(c, keep@, i as int, pos@.len() as int) == Some(b as int) && b < pos@.len(),
            None => earliest_after(c, keep@, i as int, pos@.len() as int) is None,
        },
{
    let mut best: Option<usize> = None;
    let mut m: usize = 0;
    while m < pos.len()
        invariant
            m <= pos@.len(),
            c.srcs == sources@,
            positions_of(c, pos@),
            keep@.len() == pos@.len(),
            i < pos@.len(),
            match best {
                Some(b) => earliest_after(c, keep@, i as int, m as int) == Some(b as int) && b < m,
                None => earliest_after(c, keep@, i as int, m as int) is None,
            },
        decreases pos.len() - m,
    {
        if keep[m] && before_exec(sources, pos, i, m, Ghost(c)) {
            let better = match best {
                Some(b) => before_exec(sources, pos, m, b, Ghost(c)),
                None => true,
            };
            if better {
                best = Some(m);
            }
        }
        m += 1;
    }
    best
}

fn distance_exec(
    sources: &Vec<LiquidBlockSourceLines>,
    pos: &Vec<(usize, usize)>,
    a: usize,
    b: usize,
    Ghost(c): Ghost<PhysicalContext>,
) -> (r: usize)
    requires
        c.srcs == sources@,
        positions_of(c, pos@),
        a < pos@.len(),
        b < pos@.len(),
    ensures r == distance(c, a as int, b as int, pos@.len() as int),
{
    let mut n: usize = 0;
    let mut m: usize = 0;
    while m < pos.len()
        invariant
            m <= pos@.len(),
            n <= m,
            c.srcs == sources@,
            positions_of(c, pos@),
            a < pos@.len(),
            b < pos@.len(),
            n == distance(c, a as int, b as int, m as int),
        decreases pos.len() - m,
    {
        if !before_exec(sources, pos, m, a, Ghost(c)) && before_exec(sources, pos, m, b, Ghost(c)) {
            n += 1;
        }
        m += 1;
    }
    n
}

fn page_gap_ok_exec(a: usize, b: usize) -> (r: bool)
    ensures r == page_gap_ok(a, b),
{
    if a >= b {
        a - b <= 1
    } else {
        b - a <= 1
    }
}

fn chars_eq_vec(a: &[char], b: &[char]) -> (r: bool)
    ensures r == (a@ == b@),
{
    if a.len() != b.len() {
        return false;
    }
    let mut i: usize = 0;
    while i < a.len()
        invariant
            i <= a@.len(),
            a@.len() == b@.len(),
            forall|j: int| 0 <= j < i ==> a@[j] == b@[j],
        decreases a.len() - i,
    {
        if a[i] != b[i] {
            return false;
        }
        i += 1;
    }
    assert(a@ =~= b@);
    true
}

/// What the rounds read of each row, computed once.
pub struct RowFacts {
    pub deep: Vec<Option<usize>>,
    pub candidate: Vec<Option<u16>>,
    pub physical: Vec<bool>,
}

pub open spec fn facts_of(c: PhysicalContext, f: RowFacts) -> bool {
    let n = positions(c).len();
    &&& f.deep@.len() == n
    &&& f.candidate@.len() == n
    &&& f.physical@.len() == n
    &&& forall|i: int|
        0 <= i < n ==> match #[trigger] f.deep@[i] {
            Some(d) => deep(c, i) == Some(d as int) && d < c.decoded.len(),
            None => deep(c, i) is None,
        }
    &&& forall|i: int| 0 <= i < n ==> #[trigger] f.candidate@[i] == candidate(c, i)
    &&& forall|i: int| 0 <= i < n ==> #[trigger] f.physical@[i] == physical(c, i)
}

fn row_facts(
    sources: &Vec<LiquidBlockSourceLines>,
    decoded: &[(Lm2SourceLine, Lm2Action)],
    font: &[Lm2FontCues],
    tokens: &[Vec<Option<u16>>],
    close_height: &[bool],
    pos: &Vec<(usize, usize)>,
    Ghost(c): Ghost<PhysicalContext>,
) -> (f: RowFacts)
    requires reads(c, sources@, decoded@, font@, tokens@, close_height@, pos@),
    ensures facts_of(c, f),
{
    let mut deeps: Vec<Option<usize>> = Vec::new();
    let mut cands: Vec<Option<u16>> = Vec::new();
    let mut phys: Vec<bool> = Vec::new();
    let mut i: usize = 0;
    proof {
        lemma_flat_pos(c.srcs, c.srcs.len() as int);
    }
    while i < pos.len()
        invariant
            i <= pos@.len(),
            reads(c, sources@, decoded@, font@, tokens@, close_height@, pos@),
            forall|j: int| 0 <= j < positions(c).len() ==> 0 <= (#[trigger] positions(c)[j]).0 < c.srcs.len() && 0
                <= positions(c)[j].1 < c.srcs[positions(c)[j].0].lines@.len(),
            deeps@.len() == i,
            cands@.len() == i,
            phys@.len() == i,
            forall|j: int|
                0 <= j < i ==> match #[trigger] deeps@[j] {
                    Some(d) => deep(c, j) == Some(d as int) && d < c.decoded.len(),
                    None => deep(c, j) is None,
                },
            forall|j: int| 0 <= j < i ==> #[trigger] cands@[j] == candidate(c, j),
            forall|j: int| 0 <= j < i ==> #[trigger] phys@[j] == physical(c, j),
        decreases pos.len() - i,
    {
        let r = row_at(sources, pos, i, Ghost(c));
        let (k, q) = pos[i];
        assert(positions(c)[i as int] == (k as int, q as int));
        let t = tokens[k][q];
        let d = match &r.id {
            Some(id) => find_line_by_id(decoded, id),
            None => None,
        };
        let cand = lm2_leading_numeric_or_bare_marker(r.text.as_str(), t);
        let ph = match d {
            Some(x) => lm2_physical_sequential_note_row(&decoded[x].0, &font[x]),
            None => false,
        };
        deeps.push(d);
        cands.push(cand);
        phys.push(ph);
        i += 1;
    }
    RowFacts { deep: deeps, candidate: cands, physical: phys }
}

fn flags_of(acc: &Vec<Option<u16>>) -> (r: Vec<bool>)
    ensures r@ == accepted_flags(acc@),
{
    let mut r: Vec<bool> = Vec::new();
    let mut i: usize = 0;
    while i < acc.len()
        invariant
            i <= acc@.len(),
            r@ == accepted_flags(acc@).subrange(0, i as int),
        decreases acc.len() - i,
    {
        r.push(acc[i].is_some());
        i += 1;
    }
    assert(r@ =~= accepted_flags(acc@));
    r
}

fn all_true(n: usize) -> (r: Vec<bool>)
    ensures r@.len() == n, forall|i: int| 0 <= i < n ==> #[trigger] r@[i],
{
    let mut r: Vec<bool> = Vec::new();
    let mut i: usize = 0;
    while i < n
        invariant
            i <= n,
            r@.len() == i,
            forall|j: int| 0 <= j < i ==> #[trigger] r@[j],
        decreases n - i,
    {
        r.push(true);
        i += 1;
    }
    r
}

fn recovered_now_exec(
    sources: &Vec<LiquidBlockSourceLines>,
    decoded: &[(Lm2SourceLine, Lm2Action)],
    font: &[Lm2FontCues],
    tokens: &[Vec<Option<u16>>],
    close_height: &[bool],
    pos: &Vec<(usize, usize)>,
    facts: &RowFacts,
    acc: &Vec<Option<u16>>,
    keep_acc: &Vec<bool>,
    keep_all: &Vec<bool>,
    i: usize,
    Ghost(c): Ghost<PhysicalContext>,
) -> (r: bool)
    requires
        reads(c, sources@, decoded@, font@, tokens@, close_height@, pos@),
        facts_of(c, *facts),
        acc@.len() == pos@.len(),
        keep_acc@ == accepted_flags(acc@),
        keep_all@ == all_rows(c),
        i < pos@.len(),
    ensures r == recovered_now(c, acc@, i as int),
{
    let n = pos.len();
    if acc[i].is_some() {
        return false;
    }
    let d = match facts.deep[i] {
        Some(d) => d,
        None => return false,
    };
    let m = match facts.candidate[i] {
        Some(m) => m,
        None => return false,
    };
    if !lm2_physical_sequential_note_row(&decoded[d].0, &font[d]) {
        return false;
    }
    let r = row_at(sources, pos, i, Ghost(c));
    let below = if m == 0 { 0u16 } else { m - 1 };
    let above = if m == u16::MAX { m } else { m + 1 };
    let prev_ok = match latest_before_exec(sources, pos, keep_acc, i, Ghost(c)) {
        Some(b) => distance_exec(sources, pos, b, i, Ghost(c)) <= 16 && acc[b] == Some(below) && page_gap_ok_exec(
            row_at(sources, pos, b, Ghost(c)).page_index,
            r.page_index,
        ),
        None => false,
    };
    let next_ok = match earliest_after_exec(sources, pos, keep_acc, i, Ghost(c)) {
        Some(b) => distance_exec(sources, pos, i, b, Ghost(c)) <= 16 && acc[b] == Some(above) && page_gap_ok_exec(
            row_at(sources, pos, b, Ghost(c)).page_index,
            r.page_index,
        ),
        None => false,
    };
    assert(keep_all@ =~= all_rows(c));
    if !(prev_ok || next_ok) {
        return false;
    }
    let cs = chars_vec(r.text.as_str());
    let (ta, tb) = trim_bounds(cs.as_slice());
    let trimmed = crate::text::copy_range(cs.as_slice(), ta, tb);
    let digits = u16_to_chars(m);
    let bare = chars_eq_vec(trimmed.as_slice(), digits.as_slice());
    let followed = bare && match earliest_after_exec(sources, pos, keep_all, i, Ghost(c)) {
        Some(b) => {
            let nr = row_at(sources, pos, b, Ghost(c));
            let next_line = if r.line_index == usize::MAX { r.line_index } else { r.line_index + 1 };
            let ncs = chars_vec(nr.text.as_str());
            nr.page_index == r.page_index && nr.line_index == next_line && facts.physical[b]
                && facts.candidate[b].is_none() && first_alpha_exec(ncs.as_slice(), 0).is_some() && close_height[d]
        },
        None => false,
    };
    if followed {
        return true;
    }
    match latest_before_exec(sources, pos, keep_all, i, Ghost(c)) {
        Some(p) => lm2_note_tail_visibly_closed(row_at(sources, pos, p, Ghost(c)).text.as_str()),
        None => false,
    }
}

proof fn lemma_unaccepted_prefix(a: Seq<Option<u16>>, b: Seq<Option<u16>>, m: int)
    requires
        m <= a.len(),
        m <= b.len(),
        forall|j: int| 0 <= j < m ==> #[trigger] a[j] == b[j],
    ensures unaccepted(a, m) == unaccepted(b, m),
    decreases m,
{
    if m > 0 {
        lemma_unaccepted_prefix(a, b, m - 1);
    }
}

fn round_exec(
    sources: &Vec<LiquidBlockSourceLines>,
    decoded: &[(Lm2SourceLine, Lm2Action)],
    font: &[Lm2FontCues],
    tokens: &[Vec<Option<u16>>],
    close_height: &[bool],
    pos: &Vec<(usize, usize)>,
    facts: &RowFacts,
    acc: &Vec<Option<u16>>,
    keep_all: &Vec<bool>,
    Ghost(c): Ghost<PhysicalContext>,
) -> (r: (Vec<Option<u16>>, usize))
    requires
        reads(c, sources@, decoded@, font@, tokens@, close_height@, pos@),
        facts_of(c, *facts),
        acc@.len() == pos@.len(),
        keep_all@ == all_rows(c),
    ensures
        r.0@ == round(c, acc@),
        unaccepted(r.0@, acc@.len() as int) + r.1 == unaccepted(acc@, acc@.len() as int),
        r.1 == 0 ==> round(c, acc@) == acc@,
{
    let keep_acc = flags_of(acc);
    let ghost target = round(c, acc@);
    let mut new: Vec<Option<u16>> = Vec::new();
    let mut added: usize = 0;
    let mut i: usize = 0;
    while i < acc.len()
        invariant
            i <= acc@.len(),
            acc@.len() == pos@.len(),
            reads(c, sources@, decoded@, font@, tokens@, close_height@, pos@),
            facts_of(c, *facts),
            keep_acc@ == accepted_flags(acc@),
            keep_all@ == all_rows(c),
            target == round(c, acc@),
            new@ == target.subrange(0, i as int),
            added <= i,
            unaccepted(target, i as int) + added == unaccepted(acc@, i as int),
            added == 0 ==> forall|j: int| 0 <= j < i ==> #[trigger] target[j] == acc@[j],
        decreases acc.len() - i,
    {
        let now = recovered_now_exec(
            sources,
            decoded,
            font,
            tokens,
            close_height,
            pos,
            facts,
            acc,
            &keep_acc,
            keep_all,
            i,
            Ghost(c),
        );
        if now {
            new.push(facts.candidate[i]);
            added += 1;
        } else {
            new.push(acc[i]);
        }
        i += 1;
    }
    proof {
        assert(new@ =~= target);
        if added == 0 {
            assert(target =~= acc@);
        }
    }
    (new, added)
}

fn initial_heads_exec(sources: &Vec<LiquidBlockSourceLines>, pos: &Vec<(usize, usize)>, Ghost(c): Ghost<PhysicalContext>) -> (r: Vec<Option<u16>>)
    requires
        c.srcs == sources@,
        positions_of(c, pos@),
    ensures r@ == initial_heads(c),
{
    let mut r: Vec<Option<u16>> = Vec::new();
    let mut i: usize = 0;
    while i < pos.len()
        invariant
            i <= pos@.len(),
            c.srcs == sources@,
            positions_of(c, pos@),
            r@ == initial_heads(c).subrange(0, i as int),
        decreases pos.len() - i,
    {
        let row = row_at(sources, pos, i, Ghost(c));
        r.push(max_marker_exec(&row.note_markers));
        i += 1;
    }
    assert(r@ =~= initial_heads(c));
    r
}

fn settled_heads_exec(
    sources: &Vec<LiquidBlockSourceLines>,
    decoded: &[(Lm2SourceLine, Lm2Action)],
    font: &[Lm2FontCues],
    tokens: &[Vec<Option<u16>>],
    close_height: &[bool],
    pos: &Vec<(usize, usize)>,
    facts: &RowFacts,
    Ghost(c): Ghost<PhysicalContext>,
) -> (r: Vec<Option<u16>>)
    requires
        reads(c, sources@, decoded@, font@, tokens@, close_height@, pos@),
        facts_of(c, *facts),
    ensures r@ == settled_heads(c),
{
    let mut acc = initial_heads_exec(sources, pos, Ghost(c));
    let keep_all = all_true(pos.len());
    assert(keep_all@ =~= all_rows(c));
    let ghost n = pos@.len() as int;
    let ghost mut fuel: nat = unaccepted(acc@, n);
    loop
        invariant
            reads(c, sources@, decoded@, font@, tokens@, close_height@, pos@),
            facts_of(c, *facts),
            keep_all@ == all_rows(c),
            n == pos@.len(),
            acc@.len() == n,
            settled_heads(c) == settle(c, acc@, fuel),
            unaccepted(acc@, n) <= fuel,
        decreases unaccepted(acc@, n),
    {
        let (new, added) = round_exec(sources, decoded, font, tokens, close_height, pos, facts, &acc, &keep_all, Ghost(c));
        if added == 0 {
            proof {
                if fuel > 0 {
                    assert(round(c, acc@) == acc@);
                }
            }
            return acc;
        }
        proof {
            assert(round(c, acc@) != acc@) by {
                if round(c, acc@) == acc@ {
                    assert(unaccepted(round(c, acc@), n) == unaccepted(acc@, n));
                }
            }
            assert(fuel > 0);
            assert(settle(c, acc@, fuel) == settle(c, round(c, acc@), (fuel - 1) as nat));
            fuel = (fuel - 1) as nat;
        }
        acc = new;
    }
}

/// The context of a call.
pub open spec fn physical_context(
    srcs: Seq<LiquidBlockSourceLines>,
    decoded: Seq<(Lm2SourceLine, Lm2Action)>,
    font: Seq<Lm2FontCues>,
    tokens: Seq<Vec<Option<u16>>>,
    close_height: Seq<bool>,
) -> PhysicalContext {
    PhysicalContext { srcs, decoded, font, tokens, close_height }
}


/// `n` is row `o` after the recovery: a recovered row becomes a
/// Marginalia head with its number; every row of a promoted entry becomes
/// Marginalia.
pub open spec fn head_row(
    o: LiquidSourceLineRef,
    n: LiquidSourceLineRef,
    rec: bool,
    promoted: bool,
    head: Option<u16>,
) -> bool {
    &&& n.id == o.id
    &&& n.page_index == o.page_index
    &&& n.line_index == o.line_index
    &&& n.text == o.text
    &&& n.role == if rec || promoted {
        LiquidBlockRole::Marginalia
    } else {
        o.role
    }
    &&& n.note_markers@ == if rec {
        match head {
            Some(m) => seq![m],
            None => Seq::empty(),
        }
    } else {
        o.note_markers@
    }
}

/// Block `b` belongs to a promoted entry among the first `m`.
pub open spec fn promoted_upto(c: PhysicalContext, b: int, m: int) -> bool {
    exists|k: int| 0 <= k < m && #[trigger] c.srcs[k].block_index == b && promoted(c, k)
}

/// Block `b` belongs to a promoted entry.
pub open spec fn promoted_block(c: PhysicalContext, b: int) -> bool {
    promoted_upto(c, b, c.srcs.len() as int)
}

proof fn lemma_promoted_upto_step(c: PhysicalContext, b: int, k: int)
    requires 0 <= k,
    ensures
        promoted_upto(c, b, k + 1) == (promoted_upto(c, b, k) || (c.srcs[k].block_index == b && promoted(c, k))),
{
    if promoted_upto(c, b, k + 1) {
        let kk = choose|kk: int| 0 <= kk < k + 1 && #[trigger] c.srcs[kk].block_index == b && promoted(c, kk);
        if kk < k {
            assert(c.srcs[kk].block_index == b);
        }
    }
    if c.srcs[k].block_index == b && promoted(c, k) {
        assert(c.srcs[k].block_index == b);
    }
    if promoted_upto(c, b, k) {
        let kk = choose|kk: int| 0 <= kk < k && #[trigger] c.srcs[kk].block_index == b && promoted(c, kk);
        assert(c.srcs[kk].block_index == b);
    }
}

proof fn lemma_settle_len(c: PhysicalContext, acc: Seq<Option<u16>>, fuel: nat)
    ensures settle(c, acc, fuel).len() == acc.len(),
    decreases fuel,
{
    if fuel > 0 && round(c, acc) != acc {
        lemma_settle_len(c, round(c, acc), (fuel - 1) as nat);
    }
}

proof fn lemma_max_marker_none(s: Seq<u16>)
    ensures max_marker(s) is None <==> s.len() == 0,
{
}

/// Recovers the note heads proved by the physical sequence of note rows
/// (see `recovered_now` and `settled_heads`). A recovered row becomes a
/// Marginalia row whose note number is the one it opens with; an entry
/// holding a recovered row whose rows are all physical note rows becomes
/// Marginalia throughout, and so does its block, without a label. Nothing
/// else changes; the result counts the recovered rows.
///
/// `tokens` holds each row's leading numeric token marker, entry by entry;
/// `font` the font cues of each decoded line; `close_height` whether each
/// decoded line's font height is within 1.18 times that of the decoded line
/// right below it.
pub fn apply_physical_sequential_note_head_recovery(
    blocks: &mut Vec<LiquidBlock>,
    sources: &mut Vec<LiquidBlockSourceLines>,
    decoded: &[(Lm2SourceLine, Lm2Action)],
    font: &[Lm2FontCues],
    tokens: &[Vec<Option<u16>>],
    close_height: &[bool],
) -> (repaired: usize)
    requires
        font@.len() == decoded@.len(),
        close_height@.len() == decoded@.len(),
        tokens@.len() == old(sources)@.len(),
        forall|k: int| 0 <= k < old(sources)@.len() ==> (#[trigger] tokens@[k])@.len() == old(sources)@[k].lines@.len(),
    ensures
        ({
            let c = physical_context(old(sources)@, decoded@, font@, tokens@, close_height@);
            &&& final(sources)@.len() == old(sources)@.len()
            &&& forall|k: int|
                0 <= k < final(sources)@.len() ==> {
                    &&& (#[trigger] final(sources)@[k]).block_index == old(sources)@[k].block_index
                    &&& final(sources)@[k].lines@.len() == old(sources)@[k].lines@.len()
                    &&& forall|q: int|
                        0 <= q < final(sources)@[k].lines@.len() ==> head_row(
                            old(sources)@[k].lines@[q],
                            #[trigger] final(sources)@[k].lines@[q],
                            recovered(c, flat_index(c, k, q)),
                            promoted(c, k),
                            settled_heads(c)[flat_index(c, k, q)],
                        )
                }
            &&& final(blocks)@.len() == old(blocks)@.len()
            &&& forall|b: int|
                0 <= b < final(blocks)@.len() ==> {
                    &&& (#[trigger] final(blocks)@[b]).text == old(blocks)@[b].text
                    &&& final(blocks)@[b].role == if promoted_block(c, b) {
                        LiquidBlockRole::Marginalia
                    } else {
                        old(blocks)@[b].role
                    }
                    &&& final(blocks)@[b].label == if promoted_block(c, b) {
                        None
                    } else {
                        old(blocks)@[b].label
                    }
                }
            &&& repaired == recovered_count(c, positions(c).len() as int)
        }),
{
    let ghost c = physical_context(sources@, decoded@, font@, tokens@, close_height@);
    let ghost s0 = sources@;
    let ghost b0 = blocks@;
    let pos = row_positions(sources, Ghost(c));
    let facts = row_facts(sources, decoded, font, tokens, close_height, &pos, Ghost(c));
    let init = initial_heads_exec(sources, &pos, Ghost(c));
    let settled = settled_heads_exec(sources, decoded, font, tokens, close_height, &pos, &facts, Ghost(c));
    let npos = pos.len();
    let ghost n = pos@.len() as int;
    proof {
        lemma_flat_pos_prefix(s0, s0.len() as int, s0.len() as int);
        lemma_settle_len(c, initial_heads(c), unaccepted(initial_heads(c), n));
        assert(npos == n);
    }
    // Recovered rows.
    let mut repaired: usize = 0;
    let mut f: usize = 0;
    let mut k: usize = 0;
    while k < sources.len()
        invariant
            k <= sources@.len(),
            sources@.len() == s0.len(),
            c == physical_context(s0, decoded@, font@, tokens@, close_height@),
            init@ == initial_heads(c),
            settled@ == settled_heads(c),
            settled@.len() == n,
            init@.len() == n,
            n <= usize::MAX,
            n == positions(c).len(),
            f == flat_pos(s0, k as int).len(),
            f <= n,
            repaired == recovered_count(c, f as int),
            repaired <= f,
            forall|kk: int|
                0 <= kk < s0.len() ==> {
                    &&& (#[trigger] sources@[kk]).block_index == s0[kk].block_index
                    &&& sources@[kk].lines@.len() == s0[kk].lines@.len()
                    &&& forall|q: int|
                        0 <= q < sources@[kk].lines@.len() ==> head_row(
                            s0[kk].lines@[q],
                            #[trigger] sources@[kk].lines@[q],
                            kk < k && recovered(c, flat_index(c, kk, q)),
                            false,
                            settled_heads(c)[flat_index(c, kk, q)],
                        )
                },
        decreases s0.len() - k,
    {
        proof {
            lemma_flat_pos_prefix(s0, k as int, s0.len() as int);
        }
        let len = sources[k].lines.len();
        let mut q: usize = 0;
        while q < len
            invariant
                k < sources@.len(),
                sources@.len() == s0.len(),
                len == s0[k as int].lines@.len(),
                q <= len,
                c == physical_context(s0, decoded@, font@, tokens@, close_height@),
                init@ == initial_heads(c),
                settled@ == settled_heads(c),
                settled@.len() == n,
                init@.len() == n,
                n <= usize::MAX,
                n == positions(c).len(),
                f == flat_pos(s0, k as int).len() + q,
                flat_pos(s0, k as int).len() + len <= n,
                forall|qq: int| 0 <= qq < len ==> #[trigger] flat_pos(s0, s0.len() as int)[flat_pos(s0, k as int).len() + qq]
                    == (k as int, qq),
                repaired == recovered_count(c, f as int),
                repaired <= f,
                forall|kk: int|
                    0 <= kk < s0.len() ==> {
                        &&& (#[trigger] sources@[kk]).block_index == s0[kk].block_index
                        &&& sources@[kk].lines@.len() == s0[kk].lines@.len()
                        &&& forall|qq: int|
                            0 <= qq < sources@[kk].lines@.len() ==> head_row(
                                s0[kk].lines@[qq],
                                #[trigger] sources@[kk].lines@[qq],
                                (kk < k || (kk == k && qq < q)) && recovered(c, flat_index(c, kk, qq)),
                                false,
                                settled_heads(c)[flat_index(c, kk, qq)],
                            )
                    },
            decreases len - q,
        {
            let rec = init[f].is_none() && settled[f].is_some();
            if rec {
                let m = settled[f].unwrap();
                let ghost pre = sources@;
                proof {
                    lemma_max_marker_none(row(c, f as int).note_markers@);
                    assert(positions(c)[f as int] == (k as int, q as int));
                }
                sources[k].lines[q].role = LiquidBlockRole::Marginalia;
                sources[k].lines[q].note_markers = vec![m];
                repaired += 1;
                proof {
                    assert(sources@[k as int].lines@[q as int].note_markers@ == seq![m]);
                    assert forall|kk: int| 0 <= kk < s0.len() && kk != k implies #[trigger] sources@[kk] == pre[kk] by {}
                }
            }
            f += 1;
            q += 1;
        }
        proof {
            assert(flat_pos(s0, k + 1).len() == flat_pos(s0, k as int).len() + s0[k as int].lines@.len());
        }
        k += 1;
    }
    proof {
        assert(f == n);
    }
    // Promoted entries.
    let mut k: usize = 0;
    while k < sources.len()
        invariant
            k <= sources@.len(),
            sources@.len() == s0.len(),
            blocks@.len() == b0.len(),
            c == physical_context(s0, decoded@, font@, tokens@, close_height@),
            init@ == initial_heads(c),
            settled@ == settled_heads(c),
            settled@.len() == n,
            init@.len() == n,
            n <= usize::MAX,
            facts_of(c, facts),
            n == positions(c).len(),
            forall|kk: int|
                0 <= kk < s0.len() ==> {
                    &&& (#[trigger] sources@[kk]).block_index == s0[kk].block_index
                    &&& sources@[kk].lines@.len() == s0[kk].lines@.len()
                    &&& forall|q: int|
                        0 <= q < sources@[kk].lines@.len() ==> head_row(
                            s0[kk].lines@[q],
                            #[trigger] sources@[kk].lines@[q],
                            recovered(c, flat_index(c, kk, q)),
                            kk < k && promoted(c, kk),
                            settled_heads(c)[flat_index(c, kk, q)],
                        )
                },
            forall|b: int|
                0 <= b < b0.len() ==> {
                    let hit = promoted_upto(c, b, k as int);
                    &&& (#[trigger] blocks@[b]).text == b0[b].text
                    &&& blocks@[b].role == if hit {
                        LiquidBlockRole::Marginalia
                    } else {
                        b0[b].role
                    }
                    &&& blocks@[b].label == if hit {
                        None
                    } else {
                        b0[b].label
                    }
                },
        decreases s0.len() - k,
    {
        proof {
            lemma_flat_pos_prefix(s0, k as int, s0.len() as int);
        }
        let base = flat_offset(sources, k, Ghost(c), Ghost(s0));
        let len = sources[k].lines.len();
        let mut any = false;
        let mut all = true;
        let mut q: usize = 0;
        while q < len
            invariant
                k < s0.len(),
                len == s0[k as int].lines@.len(),
                q <= len,
                base == flat_pos(s0, k as int).len(),
                base + len <= n,
                c == physical_context(s0, decoded@, font@, tokens@, close_height@),
                init@ == initial_heads(c),
                settled@ == settled_heads(c),
                settled@.len() == n,
                init@.len() == n,
                n <= usize::MAX,
                facts_of(c, facts),
                n == positions(c).len(),
                any == exists|qq: int| 0 <= qq < q && #[trigger] recovered(c, flat_index(c, k as int, qq)),
                all == forall|qq: int| 0 <= qq < q ==> #[trigger] physical(c, flat_index(c, k as int, qq)),
            decreases len - q,
        {
            let fi = base + q;
            if init[fi].is_none() && settled[fi].is_some() {
                assert(recovered(c, flat_index(c, k as int, q as int)));
                any = true;
            }
            if !facts.physical[fi] {
                assert(!physical(c, flat_index(c, k as int, q as int)));
                all = false;
            }
            q += 1;
        }
        assert(any == touched(c, k as int));
        assert(all == all_physical(c, k as int));
        if any && all {
            let ghost pre = sources@;
            let mut q: usize = 0;
            while q < len
                invariant
                    k < s0.len(),
                    sources@.len() == s0.len(),
                    len == s0[k as int].lines@.len(),
                    q <= len,
                    promoted(c, k as int),
                    forall|kk: int| 0 <= kk < s0.len() && kk != k ==> #[trigger] sources@[kk] == pre[kk],
                    sources@[k as int].block_index == pre[k as int].block_index,
                    sources@[k as int].lines@.len() == len,
                    pre[k as int].lines@.len() == len,
                    forall|qq: int|
                        0 <= qq < len ==> {
                            let o = pre[k as int].lines@[qq];
                            let nw = #[trigger] sources@[k as int].lines@[qq];
                            &&& nw.id == o.id
                            &&& nw.page_index == o.page_index
                            &&& nw.line_index == o.line_index
                            &&& nw.text == o.text
                            &&& nw.note_markers@ == o.note_markers@
                            &&& nw.role == if qq < q {
                                LiquidBlockRole::Marginalia
                            } else {
                                o.role
                            }
                        },
                decreases len - q,
            {
                sources[k].lines[q].role = LiquidBlockRole::Marginalia;
                q += 1;
            }
            let b = sources[k].block_index;
            if b < blocks.len() {
                blocks[b].role = LiquidBlockRole::Marginalia;
                blocks[b].label = None;
            }
        }
        proof {
            assert forall|bb: int| 0 <= bb < b0.len() implies #[trigger] promoted_upto(c, bb, k + 1) == (promoted_upto(
                c,
                bb,
                k as int,
            ) || (s0[k as int].block_index == bb && promoted(c, k as int))) by {
                lemma_promoted_upto_step(c, bb, k as int);
            }
        }
        k += 1;
    }
    repaired
}

fn flat_offset(
    sources: &Vec<LiquidBlockSourceLines>,
    k: usize,
    Ghost(c): Ghost<PhysicalContext>,
    Ghost(s0): Ghost<Seq<LiquidBlockSourceLines>>,
) -> (r: usize)
    requires
        k <= sources@.len(),
        sources@.len() == s0.len(),
        forall|kk: int| 0 <= kk < s0.len() ==> (#[trigger] sources@[kk]).lines@.len() == s0[kk].lines@.len(),
        flat_pos(s0, s0.len() as int).len() <= usize::MAX,
    ensures r == flat_pos(s0, k as int).len(),
{
    let mut r: usize = 0;
    let mut j: usize = 0;
    while j < k
        invariant
            j <= k <= sources@.len(),
            sources@.len() == s0.len(),
            forall|kk: int| 0 <= kk < s0.len() ==> (#[trigger] sources@[kk]).lines@.len() == s0[kk].lines@.len(),
            flat_pos(s0, s0.len() as int).len() <= usize::MAX,
            r == flat_pos(s0, j as int).len(),
        decreases k - j,
    {
        proof {
            lemma_flat_pos_prefix(s0, j + 1, s0.len() as int);
            assert(flat_pos(s0, j + 1).len() == flat_pos(s0, j as int).len() + s0[j as int].lines@.len());
        }
        r = r + sources[j].lines.len();
        j += 1;
    }
    r
}

proof fn lemma_settle_fills(c: PhysicalContext, acc: Seq<Option<u16>>, fuel: nat, i: int)
    requires 0 <= i < acc.len(),
    ensures
        settle(c, acc, fuel)[i] == acc[i] || (acc[i] is None && settle(c, acc, fuel)[i] == candidate(c, i)),
    decreases fuel,
{
    if fuel > 0 && round(c, acc) != acc {
        lemma_settle_fills(c, round(c, acc), (fuel - 1) as nat, i);
    }
}

/// The recovery only adds heads: a recovered row had no note number, and
/// the number it gets is the one it opens with; a row that had note
/// numbers keeps them.
pub proof fn lemma_recovered_heads_are_candidates(c: PhysicalContext, i: int)
    requires 0 <= i < positions(c).len(),
    ensures
        recovered(c, i) ==> row(c, i).note_markers@.len() == 0 && settled_heads(c)[i] == candidate(c, i)
            && candidate(c, i) is Some,
        row(c, i).note_markers@.len() > 0 ==> !recovered(c, i),
{
    let init = initial_heads(c);
    lemma_max_marker_none(row(c, i).note_markers@);
    lemma_settle_fills(c, init, unaccepted(init, init.len() as int), i);
}

// ---------------------------------------------------------------------------
// Explicit note definitions
// ---------------------------------------------------------------------------

/// Behind leading whitespace and a run of digits, the text goes on with
/// `.`, `)` or `]`: an explicit note head such as `12.`.
pub open spec fn explicit_head_punctuation(t: Seq<char>) -> bool {
    let d = crate::markers::digit_run_end(t, crate::text::skip_ws(t, 0));
    d < t.len() && (t[d] == '.' || t[d] == ')' || t[d] == ']')
}

/// A row whose note numbers are real definitions: its text opens like an
/// explicit note head, or its decoded line may open a note head and is not
/// body-sized text.
pub open spec fn definition_row(
    decoded: Seq<(Lm2SourceLine, Lm2Action)>,
    font: Seq<Lm2FontCues>,
    r: LiquidSourceLineRef,
) -> bool {
    explicit_head_punctuation(r.text@) || (r.id matches Some(id) && last_line_with_id(
        decoded,
        id@,
        decoded.len() as int,
    ) matches Some(i) && crate::rows::note_head_zone_evidence(decoded[i].0, font[i])
        && !crate::rows::body_sized_reflow_line(decoded[i].0, font[i]))
}

/// Note number `m` is defined by some row of the provenance.
pub open spec fn defined_marker(
    srcs: Seq<LiquidBlockSourceLines>,
    decoded: Seq<(Lm2SourceLine, Lm2Action)>,
    font: Seq<Lm2FontCues>,
    m: u16,
) -> bool {
    exists|k: int, q: int|
        0 <= k < srcs.len() && 0 <= q < srcs[k].lines@.len() && definition_row(decoded, font, #[trigger] srcs[k].lines@[q])
            && srcs[k].lines@[q].note_markers@.contains(m)
}

fn contains_u16(v: &Vec<u16>, x: u16) -> (r: bool)
    ensures r == v@.contains(x),
{
    let mut i: usize = 0;
    while i < v.len()
        invariant
            i <= v@.len(),
            forall|j: int| 0 <= j < i ==> v@[j] != x,
        decreases v.len() - i,
    {
        if v[i] == x {
            assert(v@[i as int] == x);
            return true;
        }
        i += 1;
    }
    false
}

fn definition_row_exec(
    decoded: &[(Lm2SourceLine, Lm2Action)],
    font: &[Lm2FontCues],
    r: &LiquidSourceLineRef,
) -> (b: bool)
    requires font@.len() == decoded@.len(),
    ensures b == definition_row(decoded@, font@, *r),
{
    let cs = chars_vec(r.text.as_str());
    let a = crate::text::skip_whitespace(cs.as_slice(), 0);
    proof {
        crate::text::lemma_skip_ws_bounds(cs@, 0);
    }
    let d = crate::markers::digit_run_end_exec(cs.as_slice(), a);
    let punct = d < cs.len() && (cs[d] == '.' || cs[d] == ')' || cs[d] == ']');
    if punct {
        return true;
    }
    match &r.id {
        Some(id) => match find_line_by_id(decoded, id) {
            Some(i) => crate::rows::lm2_note_head_zone_evidence(&decoded[i].0, &font[i])
                && !crate::rows::lm2_body_sized_reflow_line(&decoded[i].0, &font[i]),
            None => false,
        },
        None => false,
    }
}

/// The note numbers that some row defines (see `definition_row`), each
/// once.
pub fn lm2_explicit_definition_markers(
    sources: &Vec<LiquidBlockSourceLines>,
    decoded: &[(Lm2SourceLine, Lm2Action)],
    font: &[Lm2FontCues],
) -> (r: Vec<u16>)
    requires font@.len() == decoded@.len(),
    ensures
        r@.no_duplicates(),
        forall|m: u16| #[trigger] r@.contains(m) <==> defined_marker(sources@, decoded@, font@, m),
{
    let mut r: Vec<u16> = Vec::new();
    let mut k: usize = 0;
    while k < sources.len()
        invariant
            k <= sources@.len(),
            font@.len() == decoded@.len(),
            r@.no_duplicates(),
            forall|m: u16| #[trigger] r@.contains(m) <==> exists|kk: int, q: int|
                0 <= kk < k && 0 <= q < sources@[kk].lines@.len() && definition_row(
                    decoded@,
                    font@,
                    #[trigger] sources@[kk].lines@[q],
                ) && sources@[kk].lines@[q].note_markers@.contains(m),
        decreases sources.len() - k,
    {
        let e = &sources[k];
        let mut q: usize = 0;
        while q < e.lines.len()
            invariant
                k < sources@.len(),
                *e == sources@[k as int],
                q <= e.lines@.len(),
                font@.len() == decoded@.len(),
                r@.no_duplicates(),
                forall|m: u16| #[trigger] r@.contains(m) <==> exists|kk: int, qq: int|
                    ((0 <= kk < k && 0 <= qq < sources@[kk].lines@.len()) || (kk == k && 0 <= qq < q))
                        && definition_row(decoded@, font@, #[trigger] sources@[kk].lines@[qq])
                        && sources@[kk].lines@[qq].note_markers@.contains(m),
            decreases e.lines.len() - q,
        {
            let row = &e.lines[q];
            if definition_row_exec(decoded, font, row) {
                let mut j: usize = 0;
                while j < row.note_markers.len()
                    invariant
                        k < sources@.len(),
                        *e == sources@[k as int],
                        q < e.lines@.len(),
                        *row == e.lines@[q as int],
                        definition_row(decoded@, font@, *row),
                        j <= row.note_markers@.len(),
                        font@.len() == decoded@.len(),
                        r@.no_duplicates(),
                        forall|m: u16| #[trigger] r@.contains(m) <==> (exists|kk: int, qq: int|
                            ((0 <= kk < k && 0 <= qq < sources@[kk].lines@.len()) || (kk == k && 0 <= qq < q))
                                && definition_row(decoded@, font@, #[trigger] sources@[kk].lines@[qq])
                                && sources@[kk].lines@[qq].note_markers@.contains(m)) || row.note_markers@.subrange(
                            0,
                            j as int,
                        ).contains(m),
                    decreases row.note_markers.len() - j,
                {
                    let m = row.note_markers[j];
                    let ghost before = r@;
                    let present = contains_u16(&r, m);
                    if !present {
                        r.push(m);
                        proof {
                            assert forall|x: int, y: int| 0 <= x < y < r@.len() implies r@[x] != r@[y] by {
                                if y == r@.len() - 1 {
                                    assert(before.contains(before[x]));
                                }
                            }
                        }
                    }
                    proof {
                        assert forall|mm: u16| #[trigger] r@.contains(mm) == (before.contains(mm) || mm == m) by {
                            if r@.contains(mm) && !present {
                                let x = choose|x: int| 0 <= x < r@.len() && r@[x] == mm;
                                if x < before.len() {
                                    assert(before[x] == mm);
                                }
                            }
                            if before.contains(mm) && !present {
                                let x = choose|x: int| 0 <= x < before.len() && before[x] == mm;
                                assert(r@[x] == mm);
                            }
                            if mm == m && !present {
                                assert(r@[before.len() as int] == m);
                            }
                        }
                        assert forall|mm: u16| row.note_markers@.subrange(0, j as int + 1).contains(mm) == (
                        row.note_markers@.subrange(0, j as int).contains(mm) || mm == m) by {
                            let s1 = row.note_markers@.subrange(0, j as int + 1);
                            let s0 = row.note_markers@.subrange(0, j as int);
                            if s1.contains(mm) {
                                let x = choose|x: int| 0 <= x < s1.len() && s1[x] == mm;
                                if x < j {
                                    assert(s0[x] == mm);
                                }
                            }
                            if s0.contains(mm) {
                                let x = choose|x: int| 0 <= x < s0.len() && s0[x] == mm;
                                assert(s1[x] == mm);
                            }
                            if mm == m {
                                assert(s1[j as int] == m);
                            }
                        }
                    }
                    j += 1;
                }
                proof {
                    assert(row.note_markers@.subrange(0, row.note_markers@.len() as int) =~= row.note_markers@);
                    assert forall|m: u16| #[trigger] r@.contains(m) <==> exists|kk: int, qq: int|
                        ((0 <= kk < k && 0 <= qq < sources@[kk].lines@.len()) || (kk == k && 0 <= qq < q + 1))
                            && definition_row(decoded@, font@, #[trigger] sources@[kk].lines@[qq])
                            && sources@[kk].lines@[qq].note_markers@.contains(m) by {
                        if row.note_markers@.contains(m) {
                            assert(sources@[k as int].lines@[q as int] == *row);
                        }
                    }
                }
            } else {
                proof {
                    assert forall|m: u16| #[trigger] r@.contains(m) <==> exists|kk: int, qq: int|
                        ((0 <= kk < k && 0 <= qq < sources@[kk].lines@.len()) || (kk == k && 0 <= qq < q + 1))
                            && definition_row(decoded@, font@, #[trigger] sources@[kk].lines@[qq])
                            && sources@[kk].lines@[qq].note_markers@.contains(m) by {
                        if exists|kk: int, qq: int|
                            ((0 <= kk < k && 0 <= qq < sources@[kk].lines@.len()) || (kk == k && 0 <= qq < q + 1))
                                && definition_row(decoded@, font@, #[trigger] sources@[kk].lines@[qq])
                                && sources@[kk].lines@[qq].note_markers@.contains(m) {
                            let (kk, qq) = choose|kk: int, qq: int|
                                ((0 <= kk < k && 0 <= qq < sources@[kk].lines@.len()) || (kk == k && 0 <= qq < q + 1))
                                    && definition_row(decoded@, font@, #[trigger] sources@[kk].lines@[qq])
                                    && sources@[kk].lines@[qq].note_markers@.contains(m);
                            if kk == k && qq == q {
                                assert(sources@[k as int].lines@[q as int] == *row);
                            }
                        }
                    }
                }
            }
            q += 1;
        }
        k += 1;
    }
    r
}

proof fn lemma_unaccepted_positive(acc: Seq<Option<u16>>, m: int, i: int)
    requires
        0 <= i < m <= acc.len(),
        acc[i] is None,
    ensures unaccepted(acc, m) >= 1,
    decreases m,
{
    if m - 1 > i {
        lemma_unaccepted_positive(acc, m - 1, i);
    }
}

/// A row that the first round recovers is recovered by the pass, with the
/// number it opens with.
pub proof fn lemma_first_round_heads_are_kept(c: PhysicalContext, i: int)
    requires
        0 <= i < positions(c).len(),
        recovered_now(c, initial_heads(c), i),
    ensures
        recovered(c, i),
        settled_heads(c)[i] == candidate(c, i),
{
    let init = initial_heads(c);
    let n = init.len() as int;
    lemma_unaccepted_positive(init, n, i);
    let r = round(c, init);
    assert(r[i] == candidate(c, i));
    assert(r[i] != init[i]);
    assert(r != init);
    let fuel = unaccepted(init, n);
    assert(settle(c, init, fuel) == settle(c, r, (fuel - 1) as nat));
    lemma_settle_fills(c, r, (fuel - 1) as nat, i);
}

/// The page proof reaches across one page boundary: the nearest accepted
/// head before (or after) a candidate, within sixteen rows and numbered one
/// less (or more), proves it when the two pages are equal or differ by one,
/// and only then.
pub proof fn lemma_page_proof_spans_adjacent_pages(c: PhysicalContext, acc: Seq<Option<u16>>, i: int, m: u16)
    ensures
        previous_proof(c, acc, i, m) <==> (latest_before(c, accepted_flags(acc), i, positions(c).len() as int) matches Some(b)
            && distance(c, b, i, positions(c).len() as int) <= 16
            && acc[b] == Some(if m == 0 { 0u16 } else { (m - 1) as u16 })
            && row(c, b).page_index <= row(c, i).page_index + 1
            && row(c, i).page_index <= row(c, b).page_index + 1),
        next_proof(c, acc, i, m) <==> (earliest_after(c, accepted_flags(acc), i, positions(c).len() as int) matches Some(b)
            && distance(c, i, b, positions(c).len() as int) <= 16
            && acc[b] == Some(if m == u16::MAX { m } else { (m + 1) as u16 })
            && row(c, b).page_index <= row(c, i).page_index + 1
            && row(c, i).page_index <= row(c, b).page_index + 1),
{
}

/// A note row on the page after an accepted head N - 1 (the nearest
/// accepted head before it, within sixteen rows), opening with N, on a
/// physical note line, and following a closed note, is recovered as head N.
pub proof fn lemma_head_after_previous_page_head(c: PhysicalContext, i: int, b: int, d: int, m: u16)
    requires
        0 <= i < positions(c).len(),
        row(c, i).note_markers@.len() == 0,
        deep(c, i) == Some(d),
        candidate(c, i) == Some(m),
        m >= 1,
        physical_sequential_note_row(c.decoded[d].0, c.font[d]),
        latest_before(c, accepted_flags(initial_heads(c)), i, positions(c).len() as int) == Some(b),
        distance(c, b, i, positions(c).len() as int) <= 16,
        initial_heads(c)[b] == Some((m - 1) as u16),
        row(c, b).page_index + 1 == row(c, i).page_index,
        previous_closed(c, i),
    ensures
        recovered(c, i),
        settled_heads(c)[i] == Some(m),
{
    lemma_max_marker_none(row(c, i).note_markers@);
    assert(initial_heads(c)[i] is None);
    assert(previous_proof(c, initial_heads(c), i, m));
    assert(recovered_now(c, initial_heads(c), i));
    lemma_first_round_heads_are_kept(c, i);
}

} // verus!
