//! Locating the body callout of a page-level note sequence in a line: an
//! existing sentinel, a sentinel split per glyph, an attached ASCII number, an
//! OCR-confused number, a surviving single glyph, a placeholder apostrophe, or
//! an inferred quote boundary.
use vstd::prelude::*;
use crate::text::{
    back_whitespace, back_ws, char_is_alphabetic, chars_vec, copy_range, digits_value, find_chars, find_from, is_ascii_alnum, is_ascii_alphanumeric, is_ascii_digit, is_ascii_punct, is_ascii_punctuation, is_digit, is_whitespace, is_ws, lemma_back_ws_bounds, lemma_find_from, lemma_skip_ws_bounds, occurs_at, occurs_at_exec, skip_whitespace, skip_ws, trim, trim_bounds, trim_start, decimal_digits, u16_to_chars, lemma_decimal_digits_len, unicode_alphabetic, string_of_range, all_digits,
};
use crate::types::{CALLOUT_END, CALLOUT_START, PageSequenceMatchKind};

verus! {

// ---------------------------------------------------------------------------
// Specifications
// ---------------------------------------------------------------------------

/// Characters that never sit immediately before a body callout.
pub open spec fn callout_excluded_before(c: char) -> bool {
    c == '\u{A7}' || c == '-' || c == '*' || c == CALLOUT_START || c == CALLOUT_END
}

pub open spec fn is_left_close(c: char) -> bool {
    c == '.' || c == '?' || c == '!' || c == ':' || c == ';' || c == ')' || c == ']' || c == '"'
        || c == '\''
}

/// A callout may start at `k`: the character just before it is visible
/// punctuation (not a letter, digit, section sign, dash, star or sentinel),
/// or, across whitespace, the last visible character closes a clause.
pub open spec fn left_boundary(s: Seq<char>, k: int) -> bool {
    if k > 0 && !is_ws(s[k - 1]) {
        !is_ascii_alnum(s[k - 1]) && !callout_excluded_before(s[k - 1])
    } else {
        let b = back_ws(s, k);
        b > 0 && is_left_close(s[b - 1])
    }
}

/// `ch` is the digit `digit`, or one of its common OCR substitutes
/// (`o`/`O` for 0, `l`/`I`/`|`/`'` for 1, `s`/`S` for 8).
pub open spec fn ocr_match(ch: char, digit: u8) -> bool {
    ||| (ch as u32) == (digit as u32)
    ||| (digit == 48 && (ch == 'o' || ch == 'O'))
    ||| (digit == 49 && (ch == 'l' || ch == 'I' || ch == '|' || ch == '\''))
    ||| (digit == 56 && (ch == 's' || ch == 'S'))
}

pub open spec fn ascii_digits(d: Seq<char>) -> bool {
    forall|i: int| 0 <= i < d.len() ==> (#[trigger] d[i] as u32) < 128
}

/// End of an OCR match of `d[i..]` that continues at `p`; whitespace may
/// separate the glyphs after the first.
pub open spec fn ocr_run_end(s: Seq<char>, d: Seq<char>, p: int, i: int) -> Option<int>
    decreases d.len() - i,
{
    if i < 0 || i >= d.len() {
        Some(p)
    } else {
        let q = if i > 0 { skip_ws(s, p) } else { p };
        if 0 <= q < s.len() && ocr_match(s[q], d[i] as u8) {
            ocr_run_end(s, d, q + 1, i + 1)
        } else {
            None
        }
    }
}

pub open spec fn ocr_at(s: Seq<char>, d: Seq<char>, from: int, k: int) -> bool {
    &&& from <= k < s.len()
    &&& 0 <= k
    &&& left_boundary(s, k)
    &&& match ocr_run_end(s, d, k, 0) {
        Some(e) => !(e < s.len() && is_ascii_alnum(s[e])),
        None => false,
    }
}

pub open spec fn first_ocr(s: Seq<char>, d: Seq<char>, from: int, k: int) -> Option<(int, int)>
    decreases s.len() - k,
{
    if k < 0 || k >= s.len() {
        None
    } else if ocr_at(s, d, from, k) {
        Some((k, ocr_run_end(s, d, k, 0).unwrap()))
    } else {
        first_ocr(s, d, from, k + 1)
    }
}

/// One surviving glyph of a two-digit callout at `k`.
pub open spec fn partial_digit_at(s: Seq<char>, d: Seq<char>, from: int, k: int) -> bool {
    &&& from <= k < s.len()
    &&& 0 <= k
    &&& is_digit(s[k])
    &&& (s[k] == d[0] || s[k] == d[1])
    &&& left_boundary(s, k)
    &&& !(k + 1 < s.len() && is_ascii_alnum(s[k + 1]))
}

pub open spec fn first_partial_digit(s: Seq<char>, d: Seq<char>, from: int, k: int) -> Option<int>
    decreases s.len() - k,
{
    if k < 0 || k >= s.len() {
        None
    } else if partial_digit_at(s, d, from, k) {
        Some(k)
    } else {
        first_partial_digit(s, d, from, k + 1)
    }
}

/// A lone apostrophe after sentence or quotation punctuation at `k`.
pub open spec fn placeholder_at(s: Seq<char>, from: int, k: int) -> bool {
    &&& from <= k < s.len()
    &&& 0 < k
    &&& s[k] == '\''
    &&& (s[k - 1] == '.' || s[k - 1] == '?' || s[k - 1] == '!' || s[k - 1] == '"')
    &&& (k + 1 >= s.len() || is_ws(s[k + 1]) || is_ascii_punct(s[k + 1]))
}

pub open spec fn first_placeholder(s: Seq<char>, from: int, k: int) -> Option<int>
    decreases s.len() - k,
{
    if k < 0 || k >= s.len() {
        None
    } else if placeholder_at(s, from, k) {
        Some(k)
    } else {
        first_placeholder(s, from, k + 1)
    }
}

/// The right-trimmed text ends with `."`, `?"` or `!"` at or after `from`.
pub open spec fn inferred_quote_spec(s: Seq<char>, from: int) -> Option<int> {
    let e = back_ws(s, s.len() as int);
    if e >= from && e >= 2 && s[e - 1] == '"' && (s[e - 2] == '.' || s[e - 2] == '?' || s[e
        - 2] == '!') {
        Some(e)
    } else {
        None
    }
}

/// The three-character sentinel encoding of the single glyph `c`.
pub open spec fn sentinel_of(c: char) -> Seq<char> {
    seq![CALLOUT_START, c, CALLOUT_END]
}

/// The sentinel encoding of a whole number's digits.
pub open spec fn sentinel_of_digits(d: Seq<char>) -> Seq<char> {
    seq![CALLOUT_START] + d + seq![CALLOUT_END]
}

/// End of the chain of per-glyph sentinels for `d[i..]` continuing at `p`,
/// whitespace allowed between them.
pub open spec fn split_chain_end(s: Seq<char>, d: Seq<char>, p: int, i: int) -> Option<int>
    decreases d.len() - i,
{
    if i < 0 || i >= d.len() {
        Some(p)
    } else {
        let q = skip_ws(s, p);
        if occurs_at(s, sentinel_of(d[i]), q) {
            split_chain_end(s, d, q + 3, i + 1)
        } else {
            None
        }
    }
}

pub open spec fn split_at(s: Seq<char>, d: Seq<char>, k: int) -> bool {
    occurs_at(s, sentinel_of(d[0]), k) && split_chain_end(s, d, k + 3, 1) is Some
}

pub open spec fn first_split(s: Seq<char>, d: Seq<char>, k: int) -> Option<(int, int)>
    decreases s.len() - k,
{
    if k < 0 || k >= s.len() {
        None
    } else if split_at(s, d, k) {
        Some((k, split_chain_end(s, d, k + 3, 1).unwrap()))
    } else {
        first_split(s, d, k + 1)
    }
}

/// Count of alphabetic characters immediately before `k`.
pub open spec fn alpha_run_back(s: Seq<char>, k: int) -> int
    decreases k,
{
    if k <= 0 || k > s.len() {
        0
    } else if unicode_alphabetic(s[k - 1]) {
        1 + alpha_run_back(s, k - 1)
    } else {
        0
    }
}

pub open spec fn is_partial_closer(c: char) -> bool {
    c == ',' || c == ';' || c == ':' || c == ')' || c == ']'
}

/// A one-glyph sentinel at `start..end` plausibly is a body callout: it does
/// not follow a decimal point, is not wrapped in matching brackets, and is
/// not a one-letter list label such as `a(1),`.
pub open spec fn plausible_partial_spec(s: Seq<char>, start: int, end: int) -> bool {
    let imm_some = start > 0;
    let imm = s[start - 1];
    let that_digit = start > 1 && is_digit(s[start - 2]);
    let nv = skip_ws(s, end);
    let nv_some = nv < s.len();
    let next = s[nv];
    if imm_some && imm == '.' && that_digit {
        false
    } else if imm_some && nv_some && ((imm == '(' && next == ')') || (imm == '[' && next
        == ']')) {
        false
    } else if imm_some && unicode_alphabetic(imm) && alpha_run_back(s, start) == 1 && nv_some
        && is_partial_closer(next) {
        false
    } else {
        true
    }
}

/// First occurrence of the sentinel of glyph `c` at or after `from`, when
/// it is a plausible callout.
pub open spec fn partial_existing_for(s: Seq<char>, c: char, from: int) -> Option<int> {
    match find_from(s, sentinel_of(c), from) {
        Some(k) => if plausible_partial_spec(s, k, k + 3) { Some(k) } else { None },
        None => None,
    }
}

pub open spec fn partial_existing_spec(s: Seq<char>, d: Seq<char>, from: int) -> Option<(int, int)> {
    if d.len() != 2 {
        None
    } else {
        let a = partial_existing_for(s, d[0], from);
        let b = partial_existing_for(s, d[1], from);
        match (a, b) {
            (Some(x), Some(y)) => if y < x { Some((y, y + 3)) } else { Some((x, x + 3)) },
            (Some(x), None) => Some((x, x + 3)),
            (None, Some(y)) => Some((y, y + 3)),
            (None, None) => None,
        }
    }
}

/// Length of the run of ASCII digits ending just before `k`.
pub open spec fn digit_run_back(s: Seq<char>, k: int) -> int
    decreases k,
{
    if k <= 0 || k > s.len() {
        0
    } else if is_digit(s[k - 1]) {
        1 + digit_run_back(s, k - 1)
    } else {
        0
    }
}

/// An ASCII number `d` attached at `start` to the preceding visible text
/// (a digit before it only when that run is a plausible year).
pub open spec fn attached_accepts(s: Seq<char>, d: Seq<char>, start: int) -> bool {
    let end = start + d.len();
    let before_ok = start > 0 && !is_ws(s[start - 1]) && !callout_excluded_before(s[start - 1])
        && !(end < s.len() && is_digit(s[end]));
    if before_ok && is_digit(s[start - 1]) {
        let run = digit_run_back(s, start);
        let v = digits_value(s.subrange(start - run, start));
        run == 4 && 1500 <= v <= 2200
    } else {
        before_ok
    }
}

pub open spec fn attached_from(s: Seq<char>, d: Seq<char>, c: int) -> Option<(int, int)>
    decreases s.len() + 1 - c,
{
    if d.len() == 0 || c < 0 {
        None
    } else {
        proof {
            lemma_find_from(s, d, c);
        }
        match find_from(s, d, c) {
            Some(k) => if k < c {
                None
            } else if attached_accepts(s, d, k) {
                Some((k, k + d.len()))
            } else {
                attached_from(s, d, k + d.len())
            },
            None => None,
        }
    }
}

pub open spec fn kind_priority(kind: PageSequenceMatchKind) -> u8 {
    match kind {
        PageSequenceMatchKind::Existing => 0,
        PageSequenceMatchKind::SplitExisting => 1,
        PageSequenceMatchKind::ExactAscii => 2,
        PageSequenceMatchKind::OcrDigits => 3,
        PageSequenceMatchKind::PartialExisting => 4,
        PageSequenceMatchKind::PartialDigit => 5,
        PageSequenceMatchKind::Placeholder => 6,
        PageSequenceMatchKind::InferredQuoteBoundary => 7,
    }
}

/// The best callout match for note `marker` at or after `from`: the first
/// kind, in priority order, that finds a match.
pub open spec fn page_sequence_spec(s: Seq<char>, marker: u16, from: int) -> Option<
    (int, int, PageSequenceMatchKind),
> {
    let d = decimal_digits(marker as nat);
    let c = if from < s.len() { from } else { s.len() as int };
    if let Some(k) = find_from(s, sentinel_of_digits(d), c) {
        Some((k, k + d.len() + 2, PageSequenceMatchKind::Existing))
    } else if let Some((a, b)) = (if d.len() >= 2 { first_split(s, d, c) } else { None }) {
        Some((a, b, PageSequenceMatchKind::SplitExisting))
    } else if let Some((a, b)) = attached_from(s, d, c) {
        Some((a, b, PageSequenceMatchKind::ExactAscii))
    } else if let Some((a, b)) = first_ocr(s, d, c, 0) {
        Some((a, b, PageSequenceMatchKind::OcrDigits))
    } else if let Some((a, b)) = partial_existing_spec(s, d, c) {
        Some((a, b, PageSequenceMatchKind::PartialExisting))
    } else if let Some(k) = (if d.len() == 2 { first_partial_digit(s, d, c, 0) } else { None }) {
        Some((k, k + 1, PageSequenceMatchKind::PartialDigit))
    } else if let Some(k) = first_placeholder(s, c, 0) {
        Some((k, k + 1, PageSequenceMatchKind::Placeholder))
    } else if let Some(e) = inferred_quote_spec(s, c) {
        Some((e, e, PageSequenceMatchKind::InferredQuoteBoundary))
    } else {
        None
    }
}

// ---------------------------------------------------------------------------
// Executable functions
// ---------------------------------------------------------------------------

/// Whether `ch` can stand for the ASCII digit `digit` in an OCR text layer.
pub fn ocr_digit_matches(ch: char, digit: u8) -> (r: bool)
    ensures r == ocr_match(ch, digit),
{
    (ch as u32) == (digit as u32) || (digit == 48 && (ch == 'o' || ch == 'O')) || (digit == 49
        && (ch == 'l' || ch == 'I' || ch == '|' || ch == '\'')) || (digit == 56 && (ch == 's'
        || ch == 'S'))
}

fn left_boundary_chars(s: &[char], k: usize) -> (r: bool)
    requires k <= s@.len(),
    ensures r == left_boundary(s@, k as int),
{
    if k > 0 && !is_whitespace(s[k - 1]) {
        let c = s[k - 1];
        return !is_ascii_alphanumeric(c) && !(c == '\u{A7}' || c == '-' || c == '*' || c
            == CALLOUT_START || c == CALLOUT_END);
    }
    let b = back_whitespace(s, k);
    proof {
        lemma_back_ws_bounds(s@, k as int);
    }
    if b == 0 {
        return false;
    }
    let c = s[b - 1];
    c == '.' || c == '?' || c == '!' || c == ':' || c == ';' || c == ')' || c == ']' || c == '"'
        || c == '\''
}

/// Whether a callout may begin at character `start` of `text`.
pub fn callout_left_boundary(text: &str, start: usize) -> (r: bool)
    requires start <= text@.len(),
    ensures r == left_boundary(text@, start as int),
{
    let cs = chars_vec(text);
    left_boundary_chars(cs.as_slice(), start)
}

fn ocr_run_end_exec(s: &[char], d: &[char], k: usize) -> (r: Option<usize>)
    requires k < s@.len(), d@.len() >= 1, ascii_digits(d@),
    ensures
        match r {
            Some(e) => ocr_run_end(s@, d@, k as int, 0) == Some(e as int) && e <= s@.len(),
            None => ocr_run_end(s@, d@, k as int, 0) is None,
        },
{
    let mut p = k;
    let mut i: usize = 0;
    while i < d.len()
        invariant
            0 <= i <= d@.len(),
            k <= p <= s@.len(),
            i == 0 ==> p == k,
            ascii_digits(d@),
            ocr_run_end(s@, d@, p as int, i as int) == ocr_run_end(s@, d@, k as int, 0),
        decreases d.len() - i,
    {
        let q = if i > 0 {
            skip_whitespace(s, p)
        } else {
            p
        };
        proof {
            lemma_skip_ws_bounds(s@, p as int);
        }
        if q >= s.len() || !ocr_digit_matches(s[q], d[i] as u8) {
            return None;
        }
        p = q + 1;
        i += 1;
    }
    Some(p)
}

/// A complete callout for `digits` at or after `from` whose glyphs the text
/// layer separated (`2 6`) or confused (`2s` for `28`).
pub fn ocr_digit_sequence_range(text: &str, digits: &str, from: usize) -> (r: Option<
    (usize, usize),
>)
    requires digits@.len() >= 1, ascii_digits(digits@),
    ensures
        match r {
            Some((a, b)) => first_ocr(text@, digits@, from as int, 0) == Some((a as int, b as int)),
            None => first_ocr(text@, digits@, from as int, 0) is None,
        },
{
    let cs = chars_vec(text);
    let ds = chars_vec(digits);
    ocr_range_chars(cs.as_slice(), ds.as_slice(), from)
}

fn ocr_range_chars(s: &[char], d: &[char], from: usize) -> (r: Option<(usize, usize)>)
    requires d@.len() >= 1, ascii_digits(d@),
    ensures
        match r {
            Some((a, b)) => first_ocr(s@, d@, from as int, 0) == Some((a as int, b as int)),
            None => first_ocr(s@, d@, from as int, 0) is None,
        },
{
    let mut k: usize = 0;
    while k < s.len()
        invariant
            k <= s@.len(),
            d@.len() >= 1,
            ascii_digits(d@),
            first_ocr(s@, d@, from as int, k as int) == first_ocr(s@, d@, from as int, 0),
        decreases s.len() - k,
    {
        if k >= from && left_boundary_chars(s, k) {
            match ocr_run_end_exec(s, d, k) {
                Some(e) => {
                    if !(e < s.len() && is_ascii_alphanumeric(s[e])) {
                        return Some((k, e));
                    }
                },
                None => {},
            }
        }
        k += 1;
    }
    None
}

/// The single surviving glyph of a two-digit callout `digits`.
pub fn partial_page_sequence_digit_range(text: &str, digits: &str, from: usize) -> (r: Option<
    (usize, usize),
>)
    ensures
        match r {
            Some((a, b)) => digits@.len() == 2 && b == a + 1 && first_partial_digit(
                text@,
                digits@,
                from as int,
                0,
            ) == Some(a as int),
            None => digits@.len() != 2 || first_partial_digit(text@, digits@, from as int, 0) is None,
        },
{
    let ds = chars_vec(digits);
    if ds.len() != 2 {
        return None;
    }
    let cs = chars_vec(text);
    partial_digit_chars(cs.as_slice(), ds.as_slice(), from)
}

fn partial_digit_chars(s: &[char], d: &[char], from: usize) -> (r: Option<(usize, usize)>)
    requires d@.len() == 2,
    ensures
        match r {
            Some((a, b)) => b == a + 1 && first_partial_digit(s@, d@, from as int, 0) == Some(
                a as int,
            ),
            None => first_partial_digit(s@, d@, from as int, 0) is None,
        },
{
    let mut k: usize = 0;
    while k < s.len()
        invariant
            k <= s@.len(),
            d@.len() == 2,
            first_partial_digit(s@, d@, from as int, k as int) == first_partial_digit(
                s@,
                d@,
                from as int,
                0,
            ),
        decreases s.len() - k,
    {
        let c = s[k];
        if k >= from && is_ascii_digit(c) && (c == d[0] || c == d[1]) && left_boundary_chars(s, k)
            && !(k + 1 < s.len() && is_ascii_alphanumeric(s[k + 1])) {
            return Some((k, k + 1));
        }
        k += 1;
    }
    None
}

/// A lone apostrophe standing for a vanished superscript after sentence or
/// quotation punctuation.
pub fn page_sequence_placeholder_range(text: &str, from: usize) -> (r: Option<(usize, usize)>)
    ensures
        match r {
            Some((a, b)) => b == a + 1 && first_placeholder(text@, from as int, 0) == Some(a as int),
            None => first_placeholder(text@, from as int, 0) is None,
        },
{
    let cs = chars_vec(text);
    placeholder_chars(cs.as_slice(), from)
}

fn placeholder_chars(s: &[char], from: usize) -> (r: Option<(usize, usize)>)
    ensures
        match r {
            Some((a, b)) => b == a + 1 && first_placeholder(s@, from as int, 0) == Some(a as int),
            None => first_placeholder(s@, from as int, 0) is None,
        },
{
    let mut k: usize = 0;
    while k < s.len()
        invariant
            k <= s@.len(),
            first_placeholder(s@, from as int, k as int) == first_placeholder(s@, from as int, 0),
        decreases s.len() - k,
    {
        if k >= from && k > 0 && s[k] == '\'' {
            let b = s[k - 1];
            let after_ok = k + 1 >= s.len() || is_whitespace(s[k + 1]) || is_ascii_punctuation(
                s[k + 1],
            );
            if (b == '.' || b == '?' || b == '!' || b == '"') && after_ok {
                return Some((k, k + 1));
            }
        }
        k += 1;
    }
    None
}

/// Position just after a sentence-ending quotation that closes the text,
/// when it lies at or after `from`.
pub fn inferred_quote_boundary_range(text: &str, from: usize) -> (r: Option<usize>)
    ensures
        match r {
            Some(e) => inferred_quote_spec(text@, from as int) == Some(e as int),
            None => inferred_quote_spec(text@, from as int) is None,
        },
{
    let cs = chars_vec(text);
    inferred_chars(cs.as_slice(), from)
}

fn inferred_chars(s: &[char], from: usize) -> (r: Option<usize>)
    ensures
        match r {
            Some(e) => inferred_quote_spec(s@, from as int) == Some(e as int),
            None => inferred_quote_spec(s@, from as int) is None,
        },
{
    let e = back_whitespace(s, s.len());
    proof {
        lemma_back_ws_bounds(s@, s@.len() as int);
    }
    if e >= from && e >= 2 && s[e - 1] == '"' && (s[e - 2] == '.' || s[e - 2] == '?' || s[e
        - 2] == '!') {
        Some(e)
    } else {
        None
    }
}

fn split_chain_exec(s: &[char], d: &[char], k: usize) -> (r: Option<usize>)
    requires k + 3 <= s.len(), d@.len() >= 1,
    ensures
        match r {
            Some(e) => split_chain_end(s@, d@, k + 3, 1) == Some(e as int) && e <= s@.len(),
            None => split_chain_end(s@, d@, k + 3, 1) is None,
        },
{
    let mut p = k + 3;
    let mut i: usize = 1;
    while i < d.len()
        invariant
            1 <= i <= d@.len(),
            p <= s.len(),
            split_chain_end(s@, d@, p as int, i as int) == split_chain_end(s@, d@, k + 3, 1),
        decreases d.len() - i,
    {
        let q = skip_whitespace(s, p);
        proof {
            lemma_skip_ws_bounds(s@, p as int);
        }
        let frag = [CALLOUT_START, d[i], CALLOUT_END];
        proof {
            assert(frag@ =~= sentinel_of(d@[i as int]));
        }
        if !occurs_at_exec(s, &frag, q) {
            return None;
        }
        p = q + 3;
        i += 1;
    }
    Some(p)
}

/// A multi-digit callout already encoded one sentinel per glyph
/// (`26` as `START 2 END START 6 END`, whitespace allowed between).
pub fn split_existing_sentinel_range(text: &str, digits: &str, from: usize) -> (r: Option<
    (usize, usize),
>)
    ensures
        match r {
            Some((a, b)) => digits@.len() >= 2 && first_split(
                text@,
                digits@,
                if from < text@.len() { from as int } else { text@.len() as int },
            ) == Some((a as int, b as int)),
            None => digits@.len() < 2 || first_split(
                text@,
                digits@,
                if from < text@.len() { from as int } else { text@.len() as int },
            ) is None,
        },
{
    let ds = chars_vec(digits);
    if ds.len() < 2 {
        return None;
    }
    let cs = chars_vec(text);
    let cursor = if from < cs.len() { from } else { cs.len() };
    split_chars(cs.as_slice(), ds.as_slice(), cursor)
}

fn split_chars(s: &[char], d: &[char], cursor: usize) -> (r: Option<(usize, usize)>)
    requires d@.len() >= 2, cursor <= s@.len(),
    ensures
        match r {
            Some((a, b)) => first_split(s@, d@, cursor as int) == Some((a as int, b as int)),
            None => first_split(s@, d@, cursor as int) is None,
        },
{
    let first = [CALLOUT_START, d[0], CALLOUT_END];
    proof {
        assert(first@ =~= sentinel_of(d@[0]));
    }
    let mut k = cursor;
    while k < s.len()
        invariant
            cursor <= k <= s@.len(),
            d@.len() >= 2,
            first@ == sentinel_of(d@[0]),
            first_split(s@, d@, k as int) == first_split(s@, d@, cursor as int),
        decreases s.len() - k,
    {
        if occurs_at_exec(s, &first, k) {
            match split_chain_exec(s, d, k) {
                Some(e) => {
                    return Some((k, e));
                },
                None => {},
            }
        }
        k += 1;
    }
    None
}

fn alpha_run_back_exec(s: &[char], k: usize) -> (r: usize)
    requires k <= s@.len(),
    ensures r == alpha_run_back(s@, k as int), r <= k,
    decreases k,
{
    if k == 0 {
        return 0;
    }
    if char_is_alphabetic(s[k - 1]) {
        1 + alpha_run_back_exec(s, k - 1)
    } else {
        0
    }
}

fn plausible_chars(s: &[char], start: usize, end: usize) -> (r: bool)
    requires start <= end <= s@.len(),
    ensures r == plausible_partial_spec(s@, start as int, end as int),
{
    let nv = skip_whitespace(s, end);
    proof {
        lemma_skip_ws_bounds(s@, end as int);
    }
    if start > 0 {
        let imm = s[start - 1];
        if imm == '.' && start > 1 && is_ascii_digit(s[start - 2]) {
            return false;
        }
        if nv < s.len() {
            let next = s[nv];
            if (imm == '(' && next == ')') || (imm == '[' && next == ']') {
                return false;
            }
            if char_is_alphabetic(imm) && alpha_run_back_exec(s, start) == 1 && (next == ','
                || next == ';' || next == ':' || next == ')' || next == ']') {
                return false;
            }
        }
    }
    true
}

/// Whether a one-glyph sentinel at `start..end` plausibly is a body callout.
pub fn plausible_partial_existing_callout(text: &str, start: usize, end: usize) -> (r: bool)
    requires start <= end <= text@.len(),
    ensures r == plausible_partial_spec(text@, start as int, end as int),
{
    let cs = chars_vec(text);
    plausible_chars(cs.as_slice(), start, end)
}

fn partial_existing_for_exec(s: &[char], c: char, from: usize) -> (r: Option<usize>)
    ensures
        match r {
            Some(k) => partial_existing_for(s@, c, from as int) == Some(k as int) && k + 3
                <= s.len(),
            None => partial_existing_for(s@, c, from as int) is None,
        },
{
    let frag = [CALLOUT_START, c, CALLOUT_END];
    proof {
        assert(frag@ =~= sentinel_of(c));
    }
    match find_chars(s, &frag, from) {
        Some(k) => {
            proof {
                lemma_find_from(s@, sentinel_of(c), from as int);
            }
            if plausible_chars(s, k, k + 3) {
                Some(k)
            } else {
                None
            }
        },
        None => None,
    }
}

/// The one surviving encoded glyph of a two-digit callout.
pub fn partial_existing_sentinel_range(text: &str, digits: &str, from: usize) -> (r: Option<
    (usize, usize),
>)
    ensures
        match r {
            Some((a, b)) => partial_existing_spec(
                text@,
                digits@,
                if from < text@.len() { from as int } else { text@.len() as int },
            ) == Some((a as int, b as int)),
            None => partial_existing_spec(
                text@,
                digits@,
                if from < text@.len() { from as int } else { text@.len() as int },
            ) is None,
        },
{
    let ds = chars_vec(digits);
    let cs = chars_vec(text);
    let cursor = if from < cs.len() { from } else { cs.len() };
    partial_existing_chars(cs.as_slice(), ds.as_slice(), cursor)
}

fn partial_existing_chars(s: &[char], d: &[char], cursor: usize) -> (r: Option<(usize, usize)>)
    ensures
        match r {
            Some((a, b)) => partial_existing_spec(s@, d@, cursor as int) == Some(
                (a as int, b as int),
            ),
            None => partial_existing_spec(s@, d@, cursor as int) is None,
        },
{
    if d.len() != 2 {
        return None;
    }
    let a = partial_existing_for_exec(s, d[0], cursor);
    let b = partial_existing_for_exec(s, d[1], cursor);
    proof {
        lemma_find_from(s@, sentinel_of(d@[0]), cursor as int);
        lemma_find_from(s@, sentinel_of(d@[1]), cursor as int);
    }
    match (a, b) {
        (Some(x), Some(y)) => if y < x {
            Some((y, y + 3))
        } else {
            Some((x, x + 3))
        },
        (Some(x), None) => Some((x, x + 3)),
        (None, Some(y)) => Some((y, y + 3)),
        (None, None) => None,
    }
}

fn digit_run_back_exec(s: &[char], k: usize) -> (r: usize)
    requires k <= s@.len(),
    ensures
        r == digit_run_back(s@, k as int),
        r <= k,
    decreases k,
{
    if k == 0 {
        return 0;
    }
    if is_ascii_digit(s[k - 1]) {
        1 + digit_run_back_exec(s, k - 1)
    } else {
        0
    }
}

proof fn lemma_digit_run_back(s: Seq<char>, k: int)
    requires 0 <= k <= s.len(),
    ensures
        0 <= digit_run_back(s, k) <= k,
        all_digits(s.subrange(k - digit_run_back(s, k), k)),
    decreases k,
{
    if k > 0 && is_digit(s[k - 1]) {
        lemma_digit_run_back(s, k - 1);
        let r = digit_run_back(s, k - 1);
        let t = s.subrange(k - 1 - r, k);
        assert forall|i: int| 0 <= i < t.len() implies is_digit(#[trigger] t[i]) by {
            if i < t.len() - 1 {
                assert(t[i] == s.subrange(k - 1 - r, k - 1)[i]);
            }
        }
    } else {
        assert(s.subrange(k, k).len() == 0);
    }
}

fn attached_accepts_exec(s: &[char], d: &[char], k: usize) -> (r: bool)
    requires k + d.len() <= s.len(),
    ensures r == attached_accepts(s@, d@, k as int),
{
    let end = k + d.len();
    let before_ok = k > 0 && !is_whitespace(s[k - 1]) && !(s[k - 1] == '\u{A7}' || s[k - 1] == '-'
        || s[k - 1] == '*' || s[k - 1] == CALLOUT_START || s[k - 1] == CALLOUT_END) && !(end
        < s.len() && is_ascii_digit(s[end]));
    if before_ok && is_ascii_digit(s[k - 1]) {
        let run = digit_run_back_exec(s, k);
        proof {
            lemma_digit_run_back(s@, k as int);
        }
        if run != 4 {
            return false;
        }
        match crate::text::digits_u16(s, k - 4, k) {
            Some(v) => 1500 <= v && v <= 2200,
            None => false,
        }
    } else {
        before_ok
    }
}

/// An ASCII callout `digits` attached to the preceding word or punctuation,
/// scanning successive non-overlapping occurrences from `from`.
pub fn attached_page_sequence_ascii_range(text: &str, digits: &str, from: usize) -> (r: Option<
    (usize, usize),
>)
    requires digits@.len() >= 1,
    ensures
        match r {
            Some((a, b)) => attached_from(
                text@,
                digits@,
                if from < text@.len() { from as int } else { text@.len() as int },
            ) == Some((a as int, b as int)),
            None => attached_from(
                text@,
                digits@,
                if from < text@.len() { from as int } else { text@.len() as int },
            ) is None,
        },
{
    let cs = chars_vec(text);
    let ds = chars_vec(digits);
    let cursor = if from < cs.len() { from } else { cs.len() };
    attached_chars(cs.as_slice(), ds.as_slice(), cursor)
}

fn attached_chars(s: &[char], d: &[char], cursor: usize) -> (r: Option<(usize, usize)>)
    requires d@.len() >= 1, cursor <= s@.len(),
    ensures
        match r {
            Some((a, b)) => attached_from(s@, d@, cursor as int) == Some((a as int, b as int)),
            None => attached_from(s@, d@, cursor as int) is None,
        },
{
    let mut c = cursor;
    loop
        invariant
            d@.len() >= 1,
            c <= s.len(),
            attached_from(s@, d@, c as int) == attached_from(s@, d@, cursor as int),
        decreases s.len() + 1 - c,
    {
        match find_chars(s, d, c) {
            Some(k) => {
                proof {
                    lemma_find_from(s@, d@, c as int);
                }
                if attached_accepts_exec(s, d, k) {
                    return Some((k, k + d.len()));
                }
                c = k + d.len();
            },
            None => {
                return None;
            },
        }
    }
}

/// Rank of a match kind: explicit sentinels first, inferred boundaries last.
pub fn match_priority(kind: PageSequenceMatchKind) -> (r: u8)
    ensures r == kind_priority(kind),
{
    match kind {
        PageSequenceMatchKind::Existing => 0,
        PageSequenceMatchKind::SplitExisting => 1,
        PageSequenceMatchKind::ExactAscii => 2,
        PageSequenceMatchKind::OcrDigits => 3,
        PageSequenceMatchKind::PartialExisting => 4,
        PageSequenceMatchKind::PartialDigit => 5,
        PageSequenceMatchKind::Placeholder => 6,
        PageSequenceMatchKind::InferredQuoteBoundary => 7,
    }
}

/// Some character of `s[start..end]` is alphabetic.
pub open spec fn range_has_alpha(s: Seq<char>, start: int, end: int) -> bool {
    exists|i: int| start <= i < end && unicode_alphabetic(#[trigger] s[i])
}

/// Selection rank for a page sequence: sentinels 0, ordinary matches 1, an
/// alphabetic OCR substitution or an inferred boundary 2.
pub fn sequence_selection_priority(kind: PageSequenceMatchKind, text: &str, start: usize, end: usize)
    -> (r: u8)
    ensures
        r == (match kind {
            PageSequenceMatchKind::Existing => 0u8,
            PageSequenceMatchKind::SplitExisting => 0u8,
            PageSequenceMatchKind::OcrDigits => if start <= end <= text@.len() && range_has_alpha(
                text@,
                start as int,
                end as int,
            ) {
                2u8
            } else {
                1u8
            },
            PageSequenceMatchKind::InferredQuoteBoundary => 2u8,
            _ => 1u8,
        }),
{
    match kind {
        PageSequenceMatchKind::Existing | PageSequenceMatchKind::SplitExisting => 0,
        PageSequenceMatchKind::OcrDigits => {
            let cs = chars_vec(text);
            if start <= end && end <= cs.len() {
                let mut i = start;
                while i < end
                    invariant
                        start <= i <= end <= cs@.len(),
                        cs@ == text@,
                        kind == PageSequenceMatchKind::OcrDigits,
                        forall|j: int| start <= j < i ==> !unicode_alphabetic(#[trigger] cs@[j]),
                    decreases end - i,
                {
                    if char_is_alphabetic(cs[i]) {
                        proof {
                            assert(unicode_alphabetic(text@[i as int]));
                        }
                        return 2;
                    }
                    i += 1;
                }
                1
            } else {
                1
            }
        },
        PageSequenceMatchKind::InferredQuoteBoundary => 2,
        _ => 1,
    }
}

/// The callout of note `marker` in `text` at or after `from`: its character
/// range and how it was found.
pub fn page_sequence_callout_range(text: &str, marker: u16, from: usize) -> (r: Option<
    (usize, usize, PageSequenceMatchKind),
>)
    ensures
        match r {
            Some((a, b, kind)) => page_sequence_spec(text@, marker, from as int) == Some(
                (a as int, b as int, kind),
            ),
            None => page_sequence_spec(text@, marker, from as int) is None,
        },
{
    let cs = chars_vec(text);
    let s = cs.as_slice();
    let digits = u16_to_chars(marker);
    let d = digits.as_slice();
    proof {
        lemma_decimal_digits_len(marker as nat);
        assert(ascii_digits(d@));
    }
    let cursor = if from < s.len() { from } else { s.len() };
    let mut sentinel: Vec<char> = Vec::new();
    sentinel.push(CALLOUT_START);
    let mut i: usize = 0;
    while i < d.len()
        invariant
            i <= d@.len(),
            sentinel@ == seq![CALLOUT_START] + d@.take(i as int),
        decreases d.len() - i,
    {
        sentinel.push(d[i]);
        i += 1;
        proof {
            assert(d@.take(i as int) =~= d@.take(i - 1).push(d@[i - 1]));
        }
    }
    sentinel.push(CALLOUT_END);
    proof {
        assert(d@.take(d@.len() as int) =~= d@);
        assert(sentinel@ =~= sentinel_of_digits(d@));
    }
    if let Some(k) = find_chars(s, sentinel.as_slice(), cursor) {
        proof {
            lemma_find_from(s@, sentinel@, cursor as int);
        }
        return Some((k, k + d.len() + 2, PageSequenceMatchKind::Existing));
    }
    if d.len() >= 2 {
        if let Some((a, b)) = split_chars(s, d, cursor) {
            return Some((a, b, PageSequenceMatchKind::SplitExisting));
        }
    }
    if let Some((a, b)) = attached_chars(s, d, cursor) {
        return Some((a, b, PageSequenceMatchKind::ExactAscii));
    }
    if let Some((a, b)) = ocr_range_chars(s, d, cursor) {
        return Some((a, b, PageSequenceMatchKind::OcrDigits));
    }
    if let Some((a, b)) = partial_existing_chars(s, d, cursor) {
        return Some((a, b, PageSequenceMatchKind::PartialExisting));
    }
    if d.len() == 2 {
        if let Some((a, b)) = partial_digit_chars(s, d, cursor) {
            return Some((a, b, PageSequenceMatchKind::PartialDigit));
        }
    }
    if let Some((a, b)) = placeholder_chars(s, cursor) {
        return Some((a, b, PageSequenceMatchKind::Placeholder));
    }
    if let Some(e) = inferred_chars(s, cursor) {
        return Some((e, e, PageSequenceMatchKind::InferredQuoteBoundary));
    }
    None
}

/// Two one-glyph fragments (the current and the next trimmed line) spell
/// `marker`.
pub fn split_callout_fragment_completes_marker(current: &str, next: &str, marker: u16) -> (r: bool)
    ensures
        r == (trim(current@).len() == 1 && trim(next@).len() == 1 && is_digit(trim(current@)[0])
            && is_digit(trim(next@)[0]) && seq![trim(current@)[0], trim(next@)[0]] == decimal_digits(
            marker as nat,
        )),
{
    let c = chars_vec(current);
    let n = chars_vec(next);
    let (ca, cb) = trim_bounds(c.as_slice());
    let (na, nb) = trim_bounds(n.as_slice());
    if cb - ca != 1 || nb - na != 1 {
        return false;
    }
    let x = c[ca];
    let y = n[na];
    if !is_ascii_digit(x) || !is_ascii_digit(y) {
        return false;
    }
    let digits = u16_to_chars(marker);
    proof {
        assert(trim(current@)[0] == x);
        assert(trim(next@)[0] == y);
    }
    if digits.len() != 2 {
        proof {
            assert(seq![x, y].len() != digits@.len());
        }
        return false;
    }
    let r = digits[0] == x && digits[1] == y;
    proof {
        if r {
            assert(seq![x, y] =~= digits@);
        } else {
            assert(seq![x, y] != digits@ ==> true);
            if seq![x, y] == digits@ {
                assert(seq![x, y][0] == digits@[0]);
                assert(seq![x, y][1] == digits@[1]);
            }
        }
    }
    r
}

/// After left-trimming, the block text starts with `fragment` as a whole
/// word.
pub open spec fn fragment_removable(t: Seq<char>, f: Seq<char>) -> bool {
    let u = trim_start(t);
    f.len() > 0 && f.len() <= u.len() && u.subrange(0, f.len() as int) == f && (u.len() == f.len()
        || is_ws(u[f.len() as int]))
}

/// Removes a standalone source fragment (e.g. a split callout glyph) from the
/// start of a block's text, along with the whitespace after it.
pub fn remove_standalone_source_fragment(block_text: &mut String, fragment: &str)
    ensures
        ({
            let f = trim(fragment@);
            let u = trim_start(old(block_text)@);
            &&& fragment_removable(old(block_text)@, f) ==> final(block_text)@ == trim_start(
                u.subrange(f.len() as int, u.len() as int),
            )
            &&& !fragment_removable(old(block_text)@, f) ==> final(block_text)@ == old(
                block_text,
            )@
        }),
{
    let fc = chars_vec(fragment);
    let (fa, fb) = trim_bounds(fc.as_slice());
    if fa == fb {
        return;
    }
    let f = copy_range(fc.as_slice(), fa, fb);
    let tc = chars_vec(block_text.as_str());
    let t = tc.as_slice();
    let ua = skip_whitespace(t, 0);
    proof {
        lemma_skip_ws_bounds(t@, 0);
    }
    let ulen = t.len() - ua;
    if f.len() > ulen {
        return;
    }
    if !occurs_at_exec(t, f.as_slice(), ua) {
        proof {
            let u = trim_start(t@);
            if u.subrange(0, f@.len() as int) == f@ {
                assert(t@.subrange(ua as int, ua + f@.len()) =~= u.subrange(0, f@.len() as int));
            }
        }
        return;
    }
    let after = ua + f.len();
    if after < t.len() && !is_whitespace(t[after]) {
        proof {
            assert(trim_start(t@)[f@.len() as int] == t@[after as int]);
        }
        return;
    }
    let rest = skip_whitespace(t, after);
    proof {
        lemma_skip_ws_bounds(t@, after as int);
        let u = trim_start(t@);
        assert(u.subrange(0, f@.len() as int) =~= t@.subrange(ua as int, after as int));
        let v = u.subrange(f@.len() as int, u.len() as int);
        assert(v =~= t@.subrange(after as int, t@.len() as int));
        lemma_skip_ws_shift(t@, after as int);
        assert(trim_start(v) =~= t@.subrange(rest as int, t@.len() as int));
    }
    *block_text = string_of_range(t, rest, t.len());
}

/// Left-trimming a suffix `s[k..]` lands where `skip_ws(s, k)` does.
pub proof fn lemma_skip_ws_shift(s: Seq<char>, k: int)
    requires 0 <= k <= s.len(),
    ensures skip_ws(s.subrange(k, s.len() as int), 0) == skip_ws(s, k) - k,
    decreases s.len() - k,
{
    let t = s.subrange(k, s.len() as int);
    lemma_skip_ws_rel(s, k, k);
}

proof fn lemma_skip_ws_rel(s: Seq<char>, k: int, i: int)
    requires 0 <= k <= i <= s.len(),
    ensures skip_ws(s.subrange(k, s.len() as int), i - k) == skip_ws(s, i) - k,
    decreases s.len() - i,
{
    let t = s.subrange(k, s.len() as int);
    if i < s.len() {
        assert(t[i - k] == s[i]);
        if is_ws(s[i]) {
            lemma_skip_ws_rel(s, k, i + 1);
        }
    }
}

// ---------------------------------------------------------------------------
// Where a page-sequence match can lie
// ---------------------------------------------------------------------------

proof fn lemma_split_chain_end_bound(s: Seq<char>, d: Seq<char>, p: int, i: int)
    requires 0 <= p <= s.len(),
    ensures split_chain_end(s, d, p, i) matches Some(e) ==> p <= e <= s.len(),
    decreases d.len() - i,
{
    if 0 <= i < d.len() {
        let q = skip_ws(s, p);
        lemma_skip_ws_bounds(s, p);
        if occurs_at(s, sentinel_of(d[i]), q) {
            lemma_split_chain_end_bound(s, d, q + 3, i + 1);
        }
    }
}

proof fn lemma_first_split_bound(s: Seq<char>, d: Seq<char>, k: int)
    requires 0 <= k,
    ensures first_split(s, d, k) matches Some((a, b)) ==> k <= a && a + 3 <= b <= s.len(),
    decreases s.len() - k,
{
    if k < s.len() {
        if split_at(s, d, k) {
            lemma_split_chain_end_bound(s, d, k + 3, 1);
        } else {
            lemma_first_split_bound(s, d, k + 1);
        }
    }
}

proof fn lemma_attached_from_bound(s: Seq<char>, d: Seq<char>, c: int)
    requires 0 <= c,
    ensures attached_from(s, d, c) matches Some((a, b)) ==> c <= a <= b <= s.len(),
    decreases s.len() + 1 - c,
{
    if d.len() > 0 {
        lemma_find_from(s, d, c);
        match find_from(s, d, c) {
            Some(k) => {
                if k >= c && !attached_accepts(s, d, k) {
                    lemma_attached_from_bound(s, d, k + d.len());
                }
            },
            None => {},
        }
    }
}

proof fn lemma_ocr_run_end_bound(s: Seq<char>, d: Seq<char>, p: int, i: int)
    requires 0 <= p <= s.len(),
    ensures ocr_run_end(s, d, p, i) matches Some(e) ==> p <= e <= s.len(),
    decreases d.len() - i,
{
    if 0 <= i < d.len() {
        let q = if i > 0 { skip_ws(s, p) } else { p };
        lemma_skip_ws_bounds(s, p);
        if 0 <= q < s.len() && ocr_match(s[q], d[i] as u8) {
            lemma_ocr_run_end_bound(s, d, q + 1, i + 1);
        }
    }
}

proof fn lemma_first_ocr_bound(s: Seq<char>, d: Seq<char>, from: int, k: int)
    requires 0 <= k,
    ensures first_ocr(s, d, from, k) matches Some((a, b)) ==> from <= a <= b <= s.len() && k <= a,
    decreases s.len() - k,
{
    if k < s.len() {
        if ocr_at(s, d, from, k) {
            lemma_ocr_run_end_bound(s, d, k, 0);
        } else {
            lemma_first_ocr_bound(s, d, from, k + 1);
        }
    }
}

proof fn lemma_first_partial_digit_bound(s: Seq<char>, d: Seq<char>, from: int, k: int)
    requires 0 <= k,
    ensures first_partial_digit(s, d, from, k) matches Some(a) ==> from <= a < s.len(),
    decreases s.len() - k,
{
    if k < s.len() && !partial_digit_at(s, d, from, k) {
        lemma_first_partial_digit_bound(s, d, from, k + 1);
    }
}

proof fn lemma_first_placeholder_bound(s: Seq<char>, from: int, k: int)
    requires 0 <= k,
    ensures first_placeholder(s, from, k) matches Some(a) ==> from <= a < s.len(),
    decreases s.len() - k,
{
    if k < s.len() && !placeholder_at(s, from, k) {
        lemma_first_placeholder_bound(s, from, k + 1);
    }
}

/// A page-sequence match lies inside the text, at or after the cursor
/// (clamped to the end of the text), and an encoded callout of the note
/// number itself always wins: it is matched as `Existing` and spans exactly
/// `START digits END`.
pub proof fn lemma_page_sequence_match_bounds(s: Seq<char>, marker: u16, from: int)
    requires 0 <= from,
    ensures
        page_sequence_spec(s, marker, from) matches Some((a, b, kind)) ==> {
            let c = if from < s.len() { from } else { s.len() as int };
            &&& c <= a <= b <= s.len()
            &&& kind == PageSequenceMatchKind::Existing ==> occurs_at(
                s,
                sentinel_of_digits(decimal_digits(marker as nat)),
                a,
            ) && b == a + decimal_digits(marker as nat).len() + 2
        },
        find_from(
            s,
            sentinel_of_digits(decimal_digits(marker as nat)),
            if from < s.len() { from } else { s.len() as int },
        ) is Some ==> (page_sequence_spec(s, marker, from) matches Some((_, _, kind)) && kind
            == PageSequenceMatchKind::Existing),
{
    let d = decimal_digits(marker as nat);
    let c = if from < s.len() { from } else { s.len() as int };
    lemma_find_from(s, sentinel_of_digits(d), c);
    lemma_first_split_bound(s, d, c);
    lemma_attached_from_bound(s, d, c);
    lemma_first_ocr_bound(s, d, c, 0);
    lemma_first_partial_digit_bound(s, d, c, 0);
    lemma_first_placeholder_bound(s, c, 0);
    lemma_back_ws_bounds(s, s.len() as int);
    if d.len() == 2 {
        lemma_find_from(s, sentinel_of(d[0]), c);
        lemma_find_from(s, sentinel_of(d[1]), c);
    }
}

} // verus!
