//! Recovery of note callouts that the text layer split off as standalone
//! numeric lines: a superscript number set just after the last glyph of the
//! preceding physical line is encoded back into that line's block as a
//! callout `START digits END`.
//!
//! Where the marker line sits relative to its preceding line is measured by
//! the host (font heights and bounding boxes) and handed over as
//! `Lm2CalloutGeometry`; the pass decides everything else.
use vstd::prelude::*;

use crate::reflow::lm2_looks_like_standalone_marker_fragment;
use crate::sequence::lemma_skip_ws_shift;
use crate::text::{
    back_whitespace, back_ws, chars_vec, decimal_digits, is_ascii_alpha, is_whitespace, is_ws,
    lemma_back_ws_bounds, lemma_skip_ws_bounds, occurs_at, occurs_at_exec, parse_u16,
    parse_u16_range, push_str, skip_whitespace, skip_ws, string_of, string_of_range, string_push,
    trim, trim_bounds, trim_end, trim_start, u16_to_chars,
};
use crate::types::{
    LiquidBlock, LiquidBlockRole, LiquidBlockSourceLines, LiquidSourceLineRef, Lm2Action, Lm2SourceLine, CALLOUT_END,
    CALLOUT_START, LM2_MAX_NOTE_MARKER,
};

verus! {

/// How a numeric line sits relative to the line before it on its page, as
/// the host measures it.
#[derive(Clone, Copy, Debug)]
pub struct Lm2CalloutGeometry {
    /// Same page, a font at most 0.80 of the preceding line's height,
    /// vertically within that line and within three quarters of its height
    /// of its centre, and starting just after its right edge.
    pub superscript_fit: bool,
    /// Same page, a font at most 0.80 of the preceding line's height,
    /// vertically within that line, and starting between its left edge and
    /// just past its right edge.
    pub overlap_fit: bool,
}

// ---------------------------------------------------------------------------
// Specifications
// ---------------------------------------------------------------------------

/// A block as the pass reads and writes it: role, text and label.
pub open spec fn block_views(b: Seq<LiquidBlock>) -> Seq<(LiquidBlockRole, Seq<char>, Option<String>)> {
    b.map_values(|x: LiquidBlock| (x.role, x.text@, x.label))
}

/// A character a callout may follow: an ASCII letter, sentence or clause
/// punctuation, a closing quote, parenthesis or bracket.
pub open spec fn hosts_callout(c: char) -> bool {
    is_ascii_alpha(c) || c == '.' || c == '?' || c == '!' || c == ',' || c == ';' || c == ':' || c
        == '"' || c == '\'' || c == '\u{2019}' || c == '\u{201d}' || c == ')' || c == ']'
}

/// The text, without trailing whitespace, ends in a character a callout may
/// follow.
pub open spec fn can_host_callout(s: Seq<char>) -> bool {
    let t = trim_end(s);
    t.len() > 0 && hosts_callout(t.last())
}

/// The note number a line consists of: its trimmed text parsed as a number
/// from 1 to the largest note number.
pub open spec fn standalone_note_number(s: Seq<char>) -> Option<u16> {
    match parse_u16(trim(s)) {
        Some(m) => if 1 <= m && m <= LM2_MAX_NOTE_MARKER {
            Some(m)
        } else {
            None
        },
        None => None,
    }
}

/// The last of the decoded lines `0..n` at this page and line.
pub open spec fn line_at(
    decoded: Seq<(Lm2SourceLine, Lm2Action)>,
    page: usize,
    line: usize,
    n: int,
) -> Option<int>
    decreases n,
{
    if n <= 0 || n > decoded.len() {
        None
    } else if decoded[n - 1].0.page_index == page && decoded[n - 1].0.line_index == line {
        Some(n - 1)
    } else {
        line_at(decoded, page, line, n - 1)
    }
}

/// The row carries this id.
pub open spec fn row_has_id(row: LiquidSourceLineRef, id: Seq<char>) -> bool {
    row.id matches Some(x) && x@ == id
}

/// Some row of the entry carries this id.
pub open spec fn entry_has_id(e: LiquidBlockSourceLines, id: Seq<char>) -> bool {
    exists|q: int| 0 <= q < e.lines@.len() && row_has_id(#[trigger] e.lines@[q], id)
}

/// The block of the last of the entries `0..n` with a row of this id.
pub open spec fn block_of_id(srcs: Seq<LiquidBlockSourceLines>, id: Seq<char>, n: int) -> Option<usize>
    decreases n,
{
    if n <= 0 || n > srcs.len() {
        None
    } else if entry_has_id(srcs[n - 1], id) {
        Some(srcs[n - 1].block_index)
    } else {
        block_of_id(srcs, id, n - 1)
    }
}

/// Some row on this page carries note number `m`.
pub open spec fn note_accepted(srcs: Seq<LiquidBlockSourceLines>, page: usize, m: u16) -> bool {
    exists|k: int, q: int|
        0 <= k < srcs.len() && 0 <= q < srcs[k].lines@.len() && (#[trigger] srcs[k].lines@[q]).page_index
            == page && srcs[k].lines@[q].note_markers@.contains(m)
}

/// The callout decoded line `i` carries, with the block of the line before
/// it and its own block: `(previous block, marker block, note number)`.
pub open spec fn callout_candidate(
    srcs: Seq<LiquidBlockSourceLines>,
    decoded: Seq<(Lm2SourceLine, Lm2Action)>,
    geo: Seq<Lm2CalloutGeometry>,
    i: int,
) -> Option<(usize, usize, u16)> {
    let ml = decoded[i].0;
    match standalone_note_number(ml.text@) {
        None => None,
        Some(m) => if ml.line_index == 0 {
            None
        } else {
            match line_at(decoded, ml.page_index, (ml.line_index - 1) as usize, decoded.len() as int) {
                None => None,
                Some(pk) => {
                    let prev = decoded[pk].0;
                    match block_of_id(srcs, ml.id@, srcs.len() as int) {
                        None => None,
                        Some(mb) => match block_of_id(srcs, prev.id@, srcs.len() as int) {
                            None => None,
                            Some(pb) => {
                                let strict = geo[i].superscript_fit && can_host_callout(prev.text@);
                                let backed = note_accepted(srcs, ml.page_index, m) && geo[i].overlap_fit;
                                if strict || backed {
                                    Some((pb, mb, m))
                                } else {
                                    None
                                }
                            },
                        },
                    }
                },
            }
        },
    }
}

/// The encoded callout of note `m`.
pub open spec fn encoded_callout(m: u16) -> Seq<char> {
    seq![CALLOUT_START] + decimal_digits(m as nat) + seq![CALLOUT_END]
}

/// The text after a leading `m` and whitespace, when the text (without
/// leading whitespace) is `m`, whitespace, and more.
pub open spec fn text_after_leading_number(t: Seq<char>, m: u16) -> Option<Seq<char>> {
    let s = trim_start(t);
    let d = decimal_digits(m as nat);
    if s.len() > d.len() && s.subrange(0, d.len() as int) == d && is_ws(s[d.len() as int]) && trim_start(
        s.subrange(d.len() as int, s.len() as int),
    ).len() > 0 {
        Some(trim_start(s.subrange(d.len() as int, s.len() as int)))
    } else {
        None
    }
}

/// The marker sits in its own block (`mb`), after the paragraph (`pb`) it
/// belongs to: the callout is appended to the paragraph, and the marker
/// block becomes noise when it was the bare number, or loses the number
/// when a note follows it.
pub open spec fn cross_block_step(
    v: Seq<(LiquidBlockRole, Seq<char>, Option<String>)>,
    pb: usize,
    mb: usize,
    m: u16,
) -> Option<Seq<(LiquidBlockRole, Seq<char>, Option<String>)>> {
    if pb >= v.len() || mb >= v.len() || v[pb as int].0 != LiquidBlockRole::Paragraph {
        None
    } else {
        let exact = trim_start(v[mb as int].1) == decimal_digits(m as nat);
        let rest = text_after_leading_number(v[mb as int].1, m);
        if !exact && rest is None {
            None
        } else {
            let v1 = v.update(
                pb as int,
                (v[pb as int].0, trim_end(v[pb as int].1) + encoded_callout(m), v[pb as int].2),
            );
            if exact {
                Some(v1.update(mb as int, (LiquidBlockRole::Noise, v1[mb as int].1, None)))
            } else {
                Some(v1.update(mb as int, (v1[mb as int].0, rest->0, v1[mb as int].2)))
            }
        }
    }
}

/// The last position at or before `i` where `p` occurs in `s`.
pub open spec fn rfind_from(s: Seq<char>, p: Seq<char>, i: int) -> Option<int>
    decreases i + 1,
{
    if i < 0 {
        None
    } else if occurs_at(s, p, i) {
        Some(i)
    } else {
        rfind_from(s, p, i - 1)
    }
}

/// The marker is already inside the paragraph's block: its last ` m` is
/// replaced by the encoded callout.
pub open spec fn same_block_step(
    v: Seq<(LiquidBlockRole, Seq<char>, Option<String>)>,
    mb: usize,
    m: u16,
) -> Option<Seq<(LiquidBlockRole, Seq<char>, Option<String>)>> {
    if mb >= v.len() {
        None
    } else {
        let t = v[mb as int].1;
        let p = seq![' '] + decimal_digits(m as nat);
        match rfind_from(t, p, t.len() - p.len()) {
            None => None,
            Some(pos) => Some(
                v.update(
                    mb as int,
                    (
                        v[mb as int].0,
                        t.subrange(0, pos) + encoded_callout(m) + t.subrange(pos + p.len(), t.len() as int),
                        v[mb as int].2,
                    ),
                ),
            ),
        }
    }
}

/// What visiting decoded line `i` does to the blocks, if anything.
pub open spec fn callout_step(
    v: Seq<(LiquidBlockRole, Seq<char>, Option<String>)>,
    srcs: Seq<LiquidBlockSourceLines>,
    decoded: Seq<(Lm2SourceLine, Lm2Action)>,
    geo: Seq<Lm2CalloutGeometry>,
    i: int,
) -> Option<Seq<(LiquidBlockRole, Seq<char>, Option<String>)>> {
    match callout_candidate(srcs, decoded, geo, i) {
        None => None,
        Some(c) => if c.0 != c.1 {
            cross_block_step(v, c.0, c.1, c.2)
        } else {
            same_block_step(v, c.1, c.2)
        },
    }
}

/// The blocks after decoded lines `0..n` were visited.
pub open spec fn callout_blocks_after(
    v: Seq<(LiquidBlockRole, Seq<char>, Option<String>)>,
    srcs: Seq<LiquidBlockSourceLines>,
    decoded: Seq<(Lm2SourceLine, Lm2Action)>,
    geo: Seq<Lm2CalloutGeometry>,
    n: int,
) -> Seq<(LiquidBlockRole, Seq<char>, Option<String>)>
    decreases n,
{
    if n <= 0 {
        v
    } else {
        let w = callout_blocks_after(v, srcs, decoded, geo, n - 1);
        match callout_step(w, srcs, decoded, geo, n - 1) {
            Some(x) => x,
            None => w,
        }
    }
}

/// How many of the decoded lines `0..n` recovered a callout.
pub open spec fn callout_repairs_after(
    v: Seq<(LiquidBlockRole, Seq<char>, Option<String>)>,
    srcs: Seq<LiquidBlockSourceLines>,
    decoded: Seq<(Lm2SourceLine, Lm2Action)>,
    geo: Seq<Lm2CalloutGeometry>,
    n: int,
) -> nat
    decreases n,
{
    if n <= 0 {
        0
    } else {
        callout_repairs_after(v, srcs, decoded, geo, n - 1) + if callout_step(
            callout_blocks_after(v, srcs, decoded, geo, n - 1),
            srcs,
            decoded,
            geo,
            n - 1,
        ) is Some {
            1nat
        } else {
            0nat
        }
    }
}

// ---------------------------------------------------------------------------
// Lookups
// ---------------------------------------------------------------------------

fn hosts_callout_exec(c: char) -> (r: bool)
    ensures r == hosts_callout(c),
{
    ('a' <= c && c <= 'z') || ('A' <= c && c <= 'Z') || c == '.' || c == '?' || c == '!' || c
        == ',' || c == ';' || c == ':' || c == '"' || c == '\'' || c == '\u{2019}' || c
        == '\u{201d}' || c == ')' || c == ']'
}

/// Whether a callout may follow the text: its last character before
/// trailing whitespace is a letter, punctuation, a closing quote, parenthesis
/// or bracket.
pub fn lm2_can_host_callout(text: &str) -> (r: bool)
    ensures r == can_host_callout(text@),
{
    let cs = chars_vec(text);
    let e = back_whitespace(cs.as_slice(), cs.len());
    proof {
        lemma_back_ws_bounds(cs@, cs@.len() as int);
    }
    if e == 0 {
        return false;
    }
    hosts_callout_exec(cs[e - 1])
}

/// The note number a standalone line consists of.
pub fn lm2_standalone_note_number(text: &str) -> (r: Option<u16>)
    ensures r == standalone_note_number(text@),
{
    let cs = chars_vec(text);
    let (a, b) = trim_bounds(cs.as_slice());
    match parse_u16_range(cs.as_slice(), a, b) {
        Some(m) => if 1 <= m && m <= LM2_MAX_NOTE_MARKER {
            Some(m)
        } else {
            None
        },
        None => None,
    }
}

fn line_at_exec(decoded: &[(Lm2SourceLine, Lm2Action)], page: usize, line: usize) -> (r: Option<usize>)
    ensures
        match r {
            Some(k) => line_at(decoded@, page, line, decoded@.len() as int) == Some(k as int) && k
                < decoded@.len(),
            None => line_at(decoded@, page, line, decoded@.len() as int) is None,
        },
{
    let mut n = decoded.len();
    while n > 0
        invariant
            n <= decoded@.len(),
            line_at(decoded@, page, line, decoded@.len() as int) == line_at(decoded@, page, line, n as int),
        decreases n,
    {
        if decoded[n - 1].0.page_index == page && decoded[n - 1].0.line_index == line {
            return Some(n - 1);
        }
        n -= 1;
    }
    None
}

fn entry_has_id_exec(e: &LiquidBlockSourceLines, id: &String) -> (r: bool)
    ensures r == entry_has_id(*e, id@),
{
    let mut q: usize = 0;
    while q < e.lines.len()
        invariant
            q <= e.lines@.len(),
            forall|j: int| 0 <= j < q ==> !row_has_id(#[trigger] e.lines@[j], id@),
        decreases e.lines.len() - q,
    {
        match &e.lines[q].id {
            Some(x) => {
                if *x == *id {
                    proof {
                        assert(row_has_id(e.lines@[q as int], id@));
                    }
                    return true;
                }
            },
            None => {},
        }
        q += 1;
    }
    false
}

fn block_of_id_exec(sources: &[LiquidBlockSourceLines], id: &String) -> (r: Option<usize>)
    ensures r == block_of_id(sources@, id@, sources@.len() as int),
{
    let mut n = sources.len();
    while n > 0
        invariant
            n <= sources@.len(),
            block_of_id(sources@, id@, sources@.len() as int) == block_of_id(sources@, id@, n as int),
        decreases n,
    {
        if entry_has_id_exec(&sources[n - 1], id) {
            return Some(sources[n - 1].block_index);
        }
        n -= 1;
    }
    None
}

fn note_accepted_exec(sources: &[LiquidBlockSourceLines], page: usize, m: u16) -> (r: bool)
    ensures r == note_accepted(sources@, page, m),
{
    let mut k: usize = 0;
    while k < sources.len()
        invariant
            k <= sources@.len(),
            forall|a: int, q: int|
                0 <= a < k && 0 <= q < sources@[a].lines@.len() ==> !((#[trigger] sources@[a].lines@[q]).page_index
                    == page && sources@[a].lines@[q].note_markers@.contains(m)),
        decreases sources.len() - k,
    {
        let lines = &sources[k].lines;
        let mut q: usize = 0;
        while q < lines.len()
            invariant
                k < sources@.len(),
                *lines == sources@[k as int].lines,
                q <= lines@.len(),
                forall|b: int| 0 <= b < q ==> !((#[trigger] lines@[b]).page_index == page
                    && lines@[b].note_markers@.contains(m)),
            decreases lines.len() - q,
        {
            if lines[q].page_index == page {
                let markers = &lines[q].note_markers;
                let mut j: usize = 0;
                while j < markers.len()
                    invariant
                        k < sources@.len(),
                        *lines == sources@[k as int].lines,
                        q < lines@.len(),
                        *markers == lines@[q as int].note_markers,
                        lines@[q as int].page_index == page,
                        j <= markers@.len(),
                        forall|c: int| 0 <= c < j ==> markers@[c] != m,
                    decreases markers.len() - j,
                {
                    if markers[j] == m {
                        proof {
                            assert(markers@[j as int] == m);
                            assert(sources@[k as int].lines@[q as int].note_markers@.contains(m));
                        }
                        return true;
                    }
                    j += 1;
                }
            }
            q += 1;
        }
        k += 1;
    }
    false
}

/// The callout decoded line `i` carries, if any.
fn callout_candidate_exec(
    sources: &[LiquidBlockSourceLines],
    decoded: &[(Lm2SourceLine, Lm2Action)],
    geometry: &[Lm2CalloutGeometry],
    i: usize,
) -> (r: Option<(usize, usize, u16)>)
    requires
        i < decoded@.len(),
        geometry@.len() == decoded@.len(),
    ensures
        r == callout_candidate(sources@, decoded@, geometry@, i as int),
{
    let ml = &decoded[i].0;
    let m = match lm2_standalone_note_number(ml.text.as_str()) {
        Some(m) => m,
        None => return None,
    };
    if ml.line_index == 0 {
        return None;
    }
    let pk = match line_at_exec(decoded, ml.page_index, ml.line_index - 1) {
        Some(k) => k,
        None => return None,
    };
    let prev = &decoded[pk].0;
    let mb = match block_of_id_exec(sources, &ml.id) {
        Some(b) => b,
        None => return None,
    };
    let pb = match block_of_id_exec(sources, &prev.id) {
        Some(b) => b,
        None => return None,
    };
    let strict = geometry[i].superscript_fit && lm2_can_host_callout(prev.text.as_str());
    let backed = geometry[i].overlap_fit && note_accepted_exec(sources, ml.page_index, m);
    if strict || backed {
        Some((pb, mb, m))
    } else {
        None
    }
}

// ---------------------------------------------------------------------------
// Rewriting the blocks
// ---------------------------------------------------------------------------

fn encoded_callout_string(m: u16) -> (r: String)
    ensures r@ == encoded_callout(m),
{
    let mut s = String::new();
    string_push(&mut s, CALLOUT_START);
    let d = u16_to_chars(m);
    push_str(&mut s, string_of(d.as_slice()).as_str());
    string_push(&mut s, CALLOUT_END);
    proof {
        assert(s@ =~= encoded_callout(m));
    }
    s
}

proof fn lemma_views_update(b: Seq<LiquidBlock>, k: int, x: LiquidBlock)
    requires 0 <= k < b.len(),
    ensures block_views(b.update(k, x)) == block_views(b).update(k, (x.role, x.text@, x.label)),
{
    assert(block_views(b.update(k, x)) =~= block_views(b).update(k, (x.role, x.text@, x.label)));
}

/// Applies `cross_block_step`; reports whether it applied.
fn cross_block_exec(blocks: &mut Vec<LiquidBlock>, pb: usize, mb: usize, m: u16) -> (r: bool)
    requires pb != mb,
    ensures
        match cross_block_step(block_views(old(blocks)@), pb, mb, m) {
            Some(w) => r && block_views(final(blocks)@) == w,
            None => !r && final(blocks)@ == old(blocks)@,
        },
        final(blocks)@.len() == old(blocks)@.len(),
{
    let ghost v = block_views(blocks@);
    if pb >= blocks.len() || mb >= blocks.len() {
        return false;
    }
    let is_paragraph = match blocks[pb].role {
        LiquidBlockRole::Paragraph => true,
        _ => false,
    };
    if !is_paragraph {
        assert(v[pb as int].0 != LiquidBlockRole::Paragraph);
        return false;
    }
    let d = u16_to_chars(m);
    let cs = chars_vec(blocks[mb].text.as_str());
    let n = cs.len();
    let a = skip_whitespace(cs.as_slice(), 0);
    proof {
        lemma_skip_ws_bounds(cs@, 0);
    }
    let dl = d.len();
    let ghost s = trim_start(cs@);
    assert(s == cs@.subrange(a as int, n as int));
    let starts = occurs_at_exec(cs.as_slice(), d.as_slice(), a);
    proof {
        if starts {
            assert(s.subrange(0, dl as int) =~= cs@.subrange(a as int, a + dl));
        } else if s.len() >= dl {
            assert(s.subrange(0, dl as int) =~= cs@.subrange(a as int, a + dl));
        }
    }
    let exact = starts && n - a == dl;
    proof {
        if exact {
            assert(s =~= d@);
        } else if s.len() == dl {
            assert(s.subrange(0, dl as int) =~= s);
        }
    }
    let mut lead_start: usize = 0;
    let mut lead = false;
    if starts && n - a > dl && is_whitespace(cs[a + dl]) {
        let c = skip_whitespace(cs.as_slice(), a + dl);
        proof {
            lemma_skip_ws_bounds(cs@, a + dl);
            let r = s.subrange(dl as int, s.len() as int);
            assert(r =~= cs@.subrange(a + dl, n as int));
            lemma_skip_ws_shift(cs@, a + dl);
            assert(trim_start(r) =~= cs@.subrange(c as int, n as int));
            assert(s[dl as int] == cs@[a + dl]);
        }
        if c < n {
            lead = true;
            lead_start = c;
        }
    }
    proof {
        let rest = text_after_leading_number(v[mb as int].1, m);
        if lead {
            assert(rest == Some(cs@.subrange(lead_start as int, n as int)));
        } else {
            if s.len() > dl && s.subrange(0, dl as int) == d@ && is_ws(s[dl as int]) {
                let r = s.subrange(dl as int, s.len() as int);
                assert(r =~= cs@.subrange(a + dl, n as int));
                lemma_skip_ws_bounds(cs@, a + dl);
                lemma_skip_ws_shift(cs@, a + dl);
                assert(s[dl as int] == cs@[a + dl]);
            }
            assert(rest is None);
        }
    }
    if !exact && !lead {
        return false;
    }
    let pcs = chars_vec(blocks[pb].text.as_str());
    let e = back_whitespace(pcs.as_slice(), pcs.len());
    proof {
        lemma_back_ws_bounds(pcs@, pcs@.len() as int);
    }
    let mut new_prev = string_of_range(pcs.as_slice(), 0, e);
    push_str(&mut new_prev, encoded_callout_string(m).as_str());
    let ghost b0 = blocks@;
    let old_prev = blocks[pb].clone_shape();
    blocks.set(pb, LiquidBlock { role: old_prev.0, text: new_prev, label: old_prev.1 });
    proof {
        lemma_views_update(b0, pb as int, blocks@[pb as int]);
    }
    let ghost b1 = blocks@;
    if exact {
        let text = string_of(cs.as_slice());
        blocks.set(mb, LiquidBlock { role: LiquidBlockRole::Noise, text, label: None });
        proof {
            lemma_views_update(b1, mb as int, blocks@[mb as int]);
        }
    } else {
        let text = string_of_range(cs.as_slice(), lead_start, n);
        let shape = blocks[mb].clone_shape();
        blocks.set(mb, LiquidBlock { role: shape.0, text, label: shape.1 });
        proof {
            lemma_views_update(b1, mb as int, blocks@[mb as int]);
        }
    }
    proof {
        assert(block_views(blocks@) =~= cross_block_step(v, pb, mb, m)->0);
    }
    true
}

impl LiquidBlock {
    /// The block's role and a copy of its label.
    pub fn clone_shape(&self) -> (r: (LiquidBlockRole, Option<String>))
        ensures r.0 == self.role, r.1 == self.label,
    {
        let label = match &self.label {
            Some(l) => Some(l.clone()),
            None => None,
        };
        (self.role, label)
    }
}

fn rfind_exec(cs: &[char], p: &[char]) -> (r: Option<usize>)
    ensures
        match r {
            Some(k) => rfind_from(cs@, p@, cs@.len() - p@.len()) == Some(k as int) && k + p@.len()
                <= cs@.len(),
            None => rfind_from(cs@, p@, cs@.len() - p@.len()) is None,
        },
{
    if p.len() > cs.len() {
        proof {
            assert(rfind_from(cs@, p@, cs@.len() - p@.len()) is None);
        }
        return None;
    }
    let top = cs.len() - p.len();
    let mut i: usize = top;
    loop
        invariant
            p@.len() <= cs@.len(),
            top == cs@.len() - p@.len(),
            i <= top,
            rfind_from(cs@, p@, top as int) == rfind_from(cs@, p@, i as int),
        decreases i,
    {
        if occurs_at_exec(cs, p, i) {
            return Some(i);
        }
        if i == 0 {
            proof {
                assert(rfind_from(cs@, p@, -1) is None);
            }
            return None;
        }
        i -= 1;
    }
}

/// Applies `same_block_step`; reports whether it applied.
fn same_block_exec(blocks: &mut Vec<LiquidBlock>, mb: usize, m: u16) -> (r: bool)
    ensures
        match same_block_step(block_views(old(blocks)@), mb, m) {
            Some(w) => r && block_views(final(blocks)@) == w,
            None => !r && final(blocks)@ == old(blocks)@,
        },
        final(blocks)@.len() == old(blocks)@.len(),
{
    let ghost v = block_views(blocks@);
    if mb >= blocks.len() {
        return false;
    }
    let cs = chars_vec(blocks[mb].text.as_str());
    let d = u16_to_chars(m);
    let mut p: Vec<char> = Vec::new();
    p.push(' ');
    let mut k: usize = 0;
    while k < d.len()
        invariant
            k <= d@.len(),
            p@ == seq![' '] + d@.subrange(0, k as int),
        decreases d.len() - k,
    {
        p.push(d[k]);
        k += 1;
        proof {
            assert(p@ =~= seq![' '] + d@.subrange(0, k as int));
        }
    }
    proof {
        assert(d@.subrange(0, d@.len() as int) =~= d@);
    }
    let pos = match rfind_exec(cs.as_slice(), p.as_slice()) {
        Some(x) => x,
        None => return false,
    };
    let plen = p.len();
    let total = cs.len();
    assert(pos + plen <= total);
    let end = pos + plen;
    let mut text = string_of_range(cs.as_slice(), 0, pos);
    push_str(&mut text, encoded_callout_string(m).as_str());
    let tail = string_of_range(cs.as_slice(), end, cs.len());
    push_str(&mut text, tail.as_str());
    let ghost b0 = blocks@;
    let shape = blocks[mb].clone_shape();
    blocks.set(mb, LiquidBlock { role: shape.0, text, label: shape.1 });
    proof {
        lemma_views_update(b0, mb as int, blocks@[mb as int]);
        assert(block_views(blocks@) =~= same_block_step(v, mb, m)->0);
    }
    true
}

// ---------------------------------------------------------------------------
// The pass
// ---------------------------------------------------------------------------

/// Recovers note callouts that the text layer split off as standalone
/// numeric lines. Each decoded line that is a bare note number, whose
/// preceding physical line can host a callout there (or whose number is a
/// note of its page and whose position overlaps that line), puts the
/// encoded callout back: at the end of the preceding paragraph when the
/// number stands in a block of its own, or in place of the number's last
/// occurrence inside the shared block. Returns how many callouts it
/// recovered.
pub fn apply_in_block_standalone_callout_recovery(
    blocks: &mut Vec<LiquidBlock>,
    sources: &[LiquidBlockSourceLines],
    decoded: &[(Lm2SourceLine, Lm2Action)],
    geometry: &[Lm2CalloutGeometry],
) -> (repaired: usize)
    requires
        geometry@.len() == decoded@.len(),
    ensures
        block_views(final(blocks)@) == callout_blocks_after(
            block_views(old(blocks)@),
            sources@,
            decoded@,
            geometry@,
            decoded@.len() as int,
        ),
        repaired == callout_repairs_after(
            block_views(old(blocks)@),
            sources@,
            decoded@,
            geometry@,
            decoded@.len() as int,
        ),
        final(blocks)@.len() == old(blocks)@.len(),
        repaired == 0 ==> block_views(final(blocks)@) == block_views(old(blocks)@),
{
    let ghost v0 = block_views(blocks@);
    let ghost n0 = blocks@.len();
    let mut repaired: usize = 0;
    let mut i: usize = 0;
    while i < decoded.len()
        invariant
            i <= decoded@.len(),
            geometry@.len() == decoded@.len(),
            blocks@.len() == n0,
            block_views(blocks@) == callout_blocks_after(v0, sources@, decoded@, geometry@, i as int),
            repaired == callout_repairs_after(v0, sources@, decoded@, geometry@, i as int),
            repaired <= i,
            repaired == 0 ==> block_views(blocks@) == v0,
        decreases decoded.len() - i,
    {
        let ghost w = block_views(blocks@);
        match callout_candidate_exec(sources, decoded, geometry, i) {
            None => {},
            Some((pb, mb, m)) => {
                let applied = if pb != mb {
                    cross_block_exec(blocks, pb, mb, m)
                } else {
                    same_block_exec(blocks, mb, m)
                };
                if applied {
                    repaired += 1;
                }
            },
        }
        proof {
            assert(callout_blocks_after(v0, sources@, decoded@, geometry@, i + 1) == match callout_step(
                w,
                sources@,
                decoded@,
                geometry@,
                i as int,
            ) {
                Some(x) => x,
                None => w,
            });
        }
        i += 1;
    }
    repaired
}

/// Whether a standalone number may attach to the line before it: the host
/// measured a superscript position (`superscript_fit`), and that line's
/// text can host a callout.
pub fn lm2_marker_can_attach_to_previous_line(previous: &Lm2SourceLine, superscript_fit: bool) -> (r:
    bool)
    ensures r == (superscript_fit && can_host_callout(previous.text@)),
{
    superscript_fit && lm2_can_host_callout(previous.text.as_str())
}

/// Whether a standalone marker line joins the block being built: both are
/// paragraphs or both marginalia, the marker line looks like a bare marker
/// fragment, and it attaches to the preceding line.
pub fn lm2_should_attach_standalone_marker_to_current_block(
    current_role: LiquidBlockRole,
    role: LiquidBlockRole,
    previous: Option<&Lm2SourceLine>,
    marker: &Lm2SourceLine,
    superscript_fit: bool,
) -> (r: bool)
    ensures
        r == (((current_role == LiquidBlockRole::Paragraph && role == LiquidBlockRole::Paragraph)
            || (current_role == LiquidBlockRole::Marginalia && role == LiquidBlockRole::Marginalia))
            && crate::reflow::standalone_marker_fragment_spec(marker.text@) && (previous matches Some(p)
            && superscript_fit && can_host_callout(p.text@))),
{
    let roles = match (current_role, role) {
        (LiquidBlockRole::Paragraph, LiquidBlockRole::Paragraph) => true,
        (LiquidBlockRole::Marginalia, LiquidBlockRole::Marginalia) => true,
        _ => false,
    };
    roles && lm2_looks_like_standalone_marker_fragment(marker.text.as_str()) && match previous {
        Some(p) => lm2_marker_can_attach_to_previous_line(p, superscript_fit),
        None => false,
    }
}

/// The recovery never adds, drops or reorders blocks, and changes a block's
/// role only by demoting a bare marker block to noise.
pub proof fn lemma_callout_recovery_only_demotes_to_noise(
    v: Seq<(LiquidBlockRole, Seq<char>, Option<String>)>,
    srcs: Seq<LiquidBlockSourceLines>,
    decoded: Seq<(Lm2SourceLine, Lm2Action)>,
    geo: Seq<Lm2CalloutGeometry>,
    n: int,
)
    ensures
        callout_blocks_after(v, srcs, decoded, geo, n).len() == v.len(),
        forall|k: int|
            0 <= k < v.len() ==> {
                let r = (#[trigger] callout_blocks_after(v, srcs, decoded, geo, n)[k]).0;
                r == v[k].0 || r == LiquidBlockRole::Noise
            },
    decreases n,
{
    if n > 0 {
        lemma_callout_recovery_only_demotes_to_noise(v, srcs, decoded, geo, n - 1);
        let w = callout_blocks_after(v, srcs, decoded, geo, n - 1);
        match callout_candidate(srcs, decoded, geo, n - 1) {
            None => {},
            Some(c) => {
                if c.0 != c.1 {
                    match cross_block_step(w, c.0, c.1, c.2) {
                        None => {},
                        Some(x) => {
                            assert forall|k: int| 0 <= k < v.len() implies {
                                let r = (#[trigger] x[k]).0;
                                r == v[k].0 || r == LiquidBlockRole::Noise
                            } by {
                                assert(w[k].0 == v[k].0 || w[k].0 == LiquidBlockRole::Noise);
                            }
                        },
                    }
                } else {
                    match same_block_step(w, c.1, c.2) {
                        None => {},
                        Some(x) => {
                            assert forall|k: int| 0 <= k < v.len() implies {
                                let r = (#[trigger] x[k]).0;
                                r == v[k].0 || r == LiquidBlockRole::Noise
                            } by {
                                assert(w[k].0 == v[k].0 || w[k].0 == LiquidBlockRole::Noise);
                            }
                        },
                    }
                }
            },
        }
    }
}

} // verus!
