//! Note heads that the upstream detector missed inside a note block: a
//! later row that opens with the next note number, close after the last
//! accepted head and after a sentence-ending row.
use vstd::prelude::*;

use crate::reflow::is_sentence_close_char;
use crate::text::{back_whitespace, back_ws, chars_vec, lemma_back_ws_bounds, parse_u16, parse_u16_range, trim, trim_bounds, trim_end};
use crate::types::{LiquidBlockRole, LiquidBlockSourceLines, LiquidSourceLineRef, LM2_MAX_NOTE_MARKER};

verus! {

// ---------------------------------------------------------------------------
// A row's leading note number
// ---------------------------------------------------------------------------

/// The note number a row opens with: the whole trimmed text as a number
/// from 1 to the largest note number, else the note number of the row's
/// leading numeric token (`token_marker`, as the token reader found it).
pub open spec fn numeric_or_bare_marker(s: Seq<char>, token_marker: Option<u16>) -> Option<u16> {
    match parse_u16(trim(s)) {
        Some(m) => if 1 <= m && m <= LM2_MAX_NOTE_MARKER {
            Some(m)
        } else {
            token_marker
        },
        None => token_marker,
    }
}

/// The note number a row opens with, given the note number of its leading
/// numeric token.
pub fn lm2_leading_numeric_or_bare_marker(text: &str, token_marker: Option<u16>) -> (r: Option<u16>)
    ensures r == numeric_or_bare_marker(text@, token_marker),
{
    let cs = chars_vec(text);
    let (a, b) = trim_bounds(cs.as_slice());
    match parse_u16_range(cs.as_slice(), a, b) {
        Some(m) => if 1 <= m && m <= LM2_MAX_NOTE_MARKER {
            Some(m)
        } else {
            token_marker
        },
        None => token_marker,
    }
}

// ---------------------------------------------------------------------------
// Sequential heads within a block
// ---------------------------------------------------------------------------

/// `m + 1`, staying at the largest `u16`.
pub open spec fn successor(m: u16) -> u16 {
    if m == 65535 {
        65535
    } else {
        (m + 1) as u16
    }
}

/// The largest of the markers (none for no marker).
pub open spec fn max_marker(s: Seq<u16>) -> Option<u16>
    decreases s.len(),
{
    if s.len() == 0 {
        None
    } else {
        match max_marker(s.drop_last()) {
            Some(m) => if m >= s.last() {
                Some(m)
            } else {
                Some(s.last())
            },
            None => Some(s.last()),
        }
    }
}

/// The text ends, before trailing whitespace, in `.`, `?`, `!`, `)` or `]`.
pub open spec fn ends_sentence(s: Seq<char>) -> bool {
    let t = trim_end(s);
    t.len() > 0 && is_sentence_close_char(t.last())
}

/// The state of the scan: the last head seen (page, line, number) and the
/// text of the previous note row.
pub open spec fn head_scan_step(
    state: (Option<(usize, usize, u16)>, Seq<char>),
    row: LiquidSourceLineRef,
    bare: Option<u16>,
) -> ((Option<(usize, usize, u16)>, Seq<char>), Option<u16>) {
    if !(row.role == LiquidBlockRole::Footnote || row.role == LiquidBlockRole::Marginalia) {
        ((None, Seq::empty()), None)
    } else {
        match max_marker(row.note_markers@) {
            Some(m) => ((Some((row.page_index, row.line_index, m)), row.text@), None),
            None => match state.0 {
                Some(h) => match bare {
                    Some(c) => if row.page_index == h.0 && row.line_index <= h.1 + 8 && ends_sentence(
                        state.1,
                    ) && c == successor(h.2) {
                        ((Some((row.page_index, row.line_index, c)), row.text@), Some(c))
                    } else {
                        ((state.0, row.text@), None)
                    },
                    None => ((state.0, row.text@), None),
                },
                None => ((state.0, row.text@), None),
            },
        }
    }
}

/// The scan's state after rows `0..n`.
pub open spec fn head_scan_state(
    rows: Seq<LiquidSourceLineRef>,
    bare: Seq<Option<u16>>,
    n: int,
) -> (Option<(usize, usize, u16)>, Seq<char>)
    decreases n,
{
    if n <= 0 {
        (None, Seq::empty())
    } else {
        head_scan_step(head_scan_state(rows, bare, n - 1), rows[n - 1], bare[n - 1]).0
    }
}

/// The head recovered at row `i`, if any.
pub open spec fn recovered_head(rows: Seq<LiquidSourceLineRef>, bare: Seq<Option<u16>>, i: int) -> Option<
    u16,
> {
    head_scan_step(head_scan_state(rows, bare, i), rows[i], bare[i]).1
}

/// How many of rows `0..n` recovered a head.
pub open spec fn recovered_count(rows: Seq<LiquidSourceLineRef>, bare: Seq<Option<u16>>, n: int) -> nat
    decreases n,
{
    if n <= 0 {
        0
    } else {
        recovered_count(rows, bare, n - 1) + if recovered_head(rows, bare, n - 1) is Some {
            1nat
        } else {
            0nat
        }
    }
}

/// Row `n` is row `o` with `head`, if any, appended to its note markers.
pub open spec fn row_with_head(o: LiquidSourceLineRef, n: LiquidSourceLineRef, head: Option<u16>) -> bool {
    &&& n.id == o.id
    &&& n.page_index == o.page_index
    &&& n.line_index == o.line_index
    &&& n.text == o.text
    &&& n.role == o.role
    &&& n.note_markers@ == match head {
        Some(c) => o.note_markers@.push(c),
        None => o.note_markers@,
    }
}

pub(crate) fn max_marker_exec(v: &Vec<u16>) -> (r: Option<u16>)
    ensures r == max_marker(v@),
{
    let mut best: Option<u16> = None;
    let mut i: usize = 0;
    while i < v.len()
        invariant
            i <= v@.len(),
            best == max_marker(v@.subrange(0, i as int)),
        decreases v.len() - i,
    {
        proof {
            assert(v@.subrange(0, i + 1).drop_last() =~= v@.subrange(0, i as int));
        }
        let x = v[i];
        best = match best {
            Some(m) => if m >= x {
                Some(m)
            } else {
                Some(x)
            },
            None => Some(x),
        };
        i += 1;
    }
    proof {
        assert(v@.subrange(0, v@.len() as int) =~= v@);
    }
    best
}

fn ends_sentence_exec(text: &String) -> (r: bool)
    ensures r == ends_sentence(text@),
{
    let cs = chars_vec(text.as_str());
    let e = back_whitespace(cs.as_slice(), cs.len());
    proof {
        lemma_back_ws_bounds(cs@, cs@.len() as int);
    }
    if e == 0 {
        return false;
    }
    let c = cs[e - 1];
    c == '.' || c == '?' || c == '!' || c == ')' || c == ']'
}

fn enrich_with_leading_numbers(
    source: &mut LiquidBlockSourceLines,
    bare: &[Option<u16>],
) -> (repaired: usize)
    requires
        bare@.len() == old(source).lines@.len(),
    ensures
        final(source).block_index == old(source).block_index,
        final(source).lines@.len() == old(source).lines@.len(),
        forall|i: int|
            0 <= i < old(source).lines@.len() ==> row_with_head(
                old(source).lines@[i],
                #[trigger] final(source).lines@[i],
                recovered_head(old(source).lines@, bare@, i),
            ),
        repaired == recovered_count(old(source).lines@, bare@, old(source).lines@.len() as int),
{
    let ghost rows0 = source.lines@;
    let n = source.lines.len();
    let mut repaired: usize = 0;
    let mut last: Option<(usize, usize, u16)> = None;
    let mut last_closes = false;
    let mut i: usize = 0;
    while i < n
        invariant
            n == rows0.len(),
            bare@.len() == n,
            i <= n,
            source.lines@.len() == n,
            source.block_index == old(source).block_index,
            rows0 == old(source).lines@,
            last == head_scan_state(rows0, bare@, i as int).0,
            last_closes == (i > 0 && ends_sentence(head_scan_state(rows0, bare@, i as int).1)),
            i == 0 ==> head_scan_state(rows0, bare@, i as int).1.len() == 0,
            forall|k: int|
                0 <= k < i ==> row_with_head(rows0[k], #[trigger] source.lines@[k], recovered_head(rows0, bare@, k)),
            forall|k: int| i <= k < n ==> #[trigger] source.lines@[k] == rows0[k],
            repaired == recovered_count(rows0, bare@, i as int),
            repaired <= i,
        decreases n - i,
    {
        let row = &source.lines[i];
        let is_note = match row.role {
            LiquidBlockRole::Footnote | LiquidBlockRole::Marginalia => true,
            _ => false,
        };
        proof {
            if i == 0 {
                assert(!ends_sentence(Seq::<char>::empty()));
            }
        }
        if !is_note {
            last = None;
            last_closes = false;
            proof {
                assert(!ends_sentence(Seq::<char>::empty()));
            }
        } else {
            match max_marker_exec(&row.note_markers) {
                Some(m) => {
                    last = Some((row.page_index, row.line_index, m));
                    last_closes = ends_sentence_exec(&row.text);
                },
                None => {
                    let mut pushed: Option<u16> = None;
                    match last {
                        Some(h) => match bare[i] {
                            Some(c) => {
                                let next = if h.2 == 65535 {
                                    65535
                                } else {
                                    h.2 + 1
                                };
                                let near = row.line_index < h.1 || row.line_index - h.1 <= 8;
                                if row.page_index == h.0 && near && last_closes && c == next {
                                    pushed = Some(c);
                                }
                            },
                            None => {},
                        },
                        None => {},
                    }
                    let closes = ends_sentence_exec(&row.text);
                    match pushed {
                        Some(c) => {
                            let page = row.page_index;
                            let line = row.line_index;
                            source.lines[i].note_markers.push(c);
                            last = Some((page, line, c));
                            repaired += 1;
                        },
                        None => {},
                    }
                    last_closes = closes;
                },
            }
        }
        i += 1;
    }
    repaired
}

/// The leading note number of each row, as `lm2_leading_numeric_or_bare_marker`
/// reads it given the row's leading-token number `tokens[i]`.
pub open spec fn leading_numbers(rows: Seq<LiquidSourceLineRef>, tokens: Seq<Option<u16>>) -> Seq<
    Option<u16>,
> {
    Seq::new(rows.len(), |i: int| numeric_or_bare_marker(rows[i].text@, tokens[i]))
}

/// Recovers note heads inside one block's provenance that the detector
/// missed. Scanning the note rows in order, a row without markers gets the
/// next note number when it opens with that number (its text read by
/// `lm2_leading_numeric_or_bare_marker`, with `tokens[i]` the note number of
/// its leading numeric token), lies on the same page within eight rows of
/// the last head, and follows a row that ends a sentence. A non-note row
/// ends the run. Returns how many heads it recovered.
pub fn enrich_sequential_note_heads_within_block(
    source: &mut LiquidBlockSourceLines,
    tokens: &[Option<u16>],
) -> (repaired: usize)
    requires
        tokens@.len() == old(source).lines@.len(),
    ensures
        final(source).block_index == old(source).block_index,
        final(source).lines@.len() == old(source).lines@.len(),
        forall|i: int|
            0 <= i < old(source).lines@.len() ==> row_with_head(
                old(source).lines@[i],
                #[trigger] final(source).lines@[i],
                recovered_head(old(source).lines@, leading_numbers(old(source).lines@, tokens@), i),
            ),
        repaired == recovered_count(
            old(source).lines@,
            leading_numbers(old(source).lines@, tokens@),
            old(source).lines@.len() as int,
        ),
{
    let mut bare: Vec<Option<u16>> = Vec::new();
    let mut i: usize = 0;
    while i < source.lines.len()
        invariant
            i <= source.lines@.len(),
            tokens@.len() == source.lines@.len(),
            bare@.len() == i,
            forall|k: int| 0 <= k < i ==> bare@[k] == numeric_or_bare_marker(
                #[trigger] source.lines@[k].text@,
                tokens@[k],
            ),
        decreases source.lines.len() - i,
    {
        bare.push(lm2_leading_numeric_or_bare_marker(source.lines[i].text.as_str(), tokens[i]));
        i += 1;
    }
    proof {
        assert(bare@ =~= leading_numbers(source.lines@, tokens@));
    }
    enrich_with_leading_numbers(source, bare.as_slice())
}

} // verus!
