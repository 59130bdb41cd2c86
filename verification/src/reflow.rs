//! Shape of block boundaries: whether a paragraph visibly ends, whether the
//! next text reads as a continuation, dividers, numbered note starts and
//! stray marker fragments.
use vstd::prelude::*;
use crate::text::{
    back_whitespace, back_ws, char_is_uppercase, chars_vec, is_ascii_digit, is_ascii_lower,
    is_ascii_lowercase, is_digit, is_whitespace, is_ws, lemma_back_ws_bounds,
    lemma_skip_ws_bounds, skip_whitespace, skip_ws, trim, trim_bounds, unicode_uppercase,
};
use crate::types::LiquidBlockRole;

verus! {

/// Marginalia and footnote blocks may be deferred and reflowed.
pub fn lm2_reflow_deferred_note_role(role: LiquidBlockRole) -> (r: bool)
    ensures r == (role == LiquidBlockRole::Marginalia || role == LiquidBlockRole::Footnote),
{
    matches!(role, LiquidBlockRole::Marginalia | LiquidBlockRole::Footnote)
}

/// End of `s[..j]` once trailing discretionary-hyphen marks (`\u{2}`) are
/// dropped.
pub open spec fn back_stx(s: Seq<char>, j: int) -> int
    decreases j,
{
    if j <= 0 || j > s.len() {
        if j <= 0 { 0 } else { s.len() as int }
    } else if s[j - 1] == '\u{2}' {
        back_stx(s, j - 1)
    } else {
        j
    }
}

pub open spec fn is_terminal_punct(c: char) -> bool {
    c == '.' || c == '!' || c == '?'
}

pub open spec fn is_closing_wrap(c: char) -> bool {
    c == '"' || c == '\'' || c == ')' || c == ']'
}

/// `s[..j]` ends like a finished paragraph: sentence punctuation or a digit,
/// possibly inside a closing quote or bracket.
pub open spec fn ends_like_paragraph_at(s: Seq<char>, j: int) -> bool {
    let e = back_ws(s, back_stx(s, j));
    e > 0 && if is_closing_wrap(s[e - 1]) {
        e > 1 && (is_terminal_punct(s[e - 2]) || is_digit(s[e - 2]))
    } else {
        is_terminal_punct(s[e - 1]) || is_digit(s[e - 1])
    }
}

proof fn lemma_back_stx(s: Seq<char>, j: int)
    requires 0 <= j <= s.len(),
    ensures 0 <= back_stx(s, j) <= j,
    decreases j,
{
    if j > 0 && s[j - 1] == '\u{2}' {
        lemma_back_stx(s, j - 1);
    }
}

fn ends_like_paragraph_chars(s: &[char], j: usize) -> (r: bool)
    requires j <= s@.len(),
    ensures r == ends_like_paragraph_at(s@, j as int),
{
    proof {
        lemma_back_stx(s@, j as int);
    }
    let mut k = j;
    while k > 0 && s[k - 1] == '\u{2}'
        invariant
            k <= j <= s@.len(),
            back_stx(s@, k as int) == back_stx(s@, j as int),
        decreases k,
    {
        k -= 1;
    }
    let e = back_whitespace(s, k);
    proof {
        lemma_back_ws_bounds(s@, k as int);
    }
    if e == 0 {
        return false;
    }
    let last = s[e - 1];
    if last == '"' || last == '\'' || last == ')' || last == ']' {
        e > 1 && (s[e - 2] == '.' || s[e - 2] == '!' || s[e - 2] == '?' || is_ascii_digit(
            s[e - 2],
        ))
    } else {
        last == '.' || last == '!' || last == '?' || is_ascii_digit(last)
    }
}

/// The text ends like a finished paragraph.
pub fn lm2_blocksplit_ends_like_paragraph(text: &str) -> (r: bool)
    ensures r == ends_like_paragraph_at(text@, text@.len() as int),
{
    let cs = chars_vec(text);
    ends_like_paragraph_chars(cs.as_slice(), cs.len())
}

/// A paragraph is visibly open: it ends in a hyphen, or does not end like a
/// finished paragraph.
pub open spec fn visibly_open_at(s: Seq<char>, j: int) -> bool {
    let e = back_ws(s, j);
    (e > 0 && s[e - 1] == '-') || !ends_like_paragraph_at(s, e)
}

fn visibly_open_chars(s: &[char], j: usize) -> (r: bool)
    requires j <= s@.len(),
    ensures r == visibly_open_at(s@, j as int),
{
    let e = back_whitespace(s, j);
    proof {
        lemma_back_ws_bounds(s@, j as int);
    }
    (e > 0 && s[e - 1] == '-') || !ends_like_paragraph_chars(s, e)
}

pub fn lm2_reflow_paragraph_is_visibly_open(text: &str) -> (r: bool)
    ensures r == visibly_open_at(text@, text@.len() as int),
{
    let cs = chars_vec(text);
    visibly_open_chars(cs.as_slice(), cs.len())
}

/// Opening quotes and brackets skipped before judging how text starts.
pub open spec fn is_opening_wrap(c: char) -> bool {
    c == '"' || c == '\'' || c == '\u{201C}' || c == '\u{2018}' || c == '(' || c == '['
}

/// First position at or after `i` that is not an opening quote or bracket.
pub open spec fn skip_opening(s: Seq<char>, i: int) -> int
    decreases s.len() - i,
{
    if i < 0 || i >= s.len() {
        if i < 0 { 0 } else { s.len() as int }
    } else if is_opening_wrap(s[i]) {
        skip_opening(s, i + 1)
    } else {
        i
    }
}

proof fn lemma_skip_opening(s: Seq<char>, i: int)
    requires 0 <= i <= s.len(),
    ensures i <= skip_opening(s, i) <= s.len(),
    decreases s.len() - i,
{
    if i < s.len() && is_opening_wrap(s[i]) {
        lemma_skip_opening(s, i + 1);
    }
}

fn skip_opening_exec(s: &[char], i: usize) -> (r: usize)
    requires i <= s@.len(),
    ensures r == skip_opening(s@, i as int), i <= r <= s@.len(),
{
    proof {
        lemma_skip_opening(s@, i as int);
    }
    let mut k = i;
    while k < s.len() && (s[k] == '"' || s[k] == '\'' || s[k] == '\u{201C}' || s[k] == '\u{2018}'
        || s[k] == '(' || s[k] == '[')
        invariant
            i <= k <= s@.len(),
            skip_opening(s@, k as int) == skip_opening(s@, i as int),
        decreases s.len() - k,
    {
        k += 1;
    }
    k
}

pub open spec fn is_continuation_lead(c: char) -> bool {
    is_ascii_lower(c) || c == ',' || c == ';' || c == ':' || c == ')' || c == ']' || c
        == '\u{201D}' || c == '\u{2019}' || c == '-' || c == '\u{2013}' || c == '\u{2014}'
}

/// The text (after whitespace and opening quotes) starts in lowercase or with
/// clause punctuation, as a continuation does.
pub open spec fn starts_like_continuation_at(s: Seq<char>, i: int) -> bool {
    let k = skip_opening(s, skip_ws(s, i));
    k < s.len() && is_continuation_lead(s[k])
}

fn starts_like_continuation_chars(s: &[char], i: usize) -> (r: bool)
    requires i <= s@.len(),
    ensures r == starts_like_continuation_at(s@, i as int),
{
    let a = skip_whitespace(s, i);
    proof {
        lemma_skip_ws_bounds(s@, i as int);
    }
    let k = skip_opening_exec(s, a);
    if k >= s.len() {
        return false;
    }
    let c = s[k];
    is_ascii_lowercase(c) || c == ',' || c == ';' || c == ':' || c == ')' || c == ']' || c
        == '\u{201D}' || c == '\u{2019}' || c == '-' || c == '\u{2013}' || c == '\u{2014}'
}

pub fn lm2_reflow_starts_like_continuation(text: &str) -> (r: bool)
    ensures r == starts_like_continuation_at(text@, 0),
{
    let cs = chars_vec(text);
    starts_like_continuation_chars(cs.as_slice(), 0)
}

/// The text (after whitespace and opening quotes) starts with an uppercase
/// letter.
pub open spec fn starts_like_sentence_spec(s: Seq<char>) -> bool {
    let k = skip_opening(s, skip_ws(s, 0));
    k < s.len() && unicode_uppercase(s[k])
}

pub fn lm2_blocksplit_starts_like_sentence(text: &str) -> (r: bool)
    ensures r == starts_like_sentence_spec(text@),
{
    let cs = chars_vec(text);
    let s = cs.as_slice();
    let a = skip_whitespace(s, 0);
    proof {
        lemma_skip_ws_bounds(s@, 0);
    }
    let k = skip_opening_exec(s, a);
    k < s.len() && char_is_uppercase(s[k])
}

/// A deferred marginalia block should be reflowed between `before` and
/// `after`: both are non-blank, the paragraph before is visibly open and the
/// text after reads as its continuation.
pub open spec fn should_reflow_spec(before: Seq<char>, after: Seq<char>) -> bool {
    let b = trim(before);
    let a = trim(after);
    b.len() > 0 && a.len() > 0 && visibly_open_at(b, b.len() as int)
        && starts_like_continuation_at(a, 0)
}

pub fn lm2_should_reflow_deferred_marginalia(before: &str, after: &str) -> (r: bool)
    ensures r == should_reflow_spec(before@, after@),
{
    let bc = chars_vec(before);
    let ac = chars_vec(after);
    let (b0, b1) = trim_bounds(bc.as_slice());
    let (a0, a1) = trim_bounds(ac.as_slice());
    if b0 == b1 || a0 == a1 {
        return false;
    }
    let bt = crate::text::copy_range(bc.as_slice(), b0, b1);
    let at = crate::text::copy_range(ac.as_slice(), a0, a1);
    if !visibly_open_chars(bt.as_slice(), bt.len()) {
        return false;
    }
    starts_like_continuation_chars(at.as_slice(), 0)
}

pub open spec fn is_divider_char(c: char) -> bool {
    c == '-' || c == '\u{2013}' || c == '\u{2014}' || c == '_' || is_ws(c)
}

/// A rule drawn with dashes or underscores, at least twelve characters.
pub open spec fn divider_like_spec(s: Seq<char>) -> bool {
    let t = trim(s);
    t.len() >= 12 && forall|i: int| 0 <= i < t.len() ==> is_divider_char(#[trigger] t[i])
}

pub fn lm2_blocksplit_divider_like(text: &str) -> (r: bool)
    ensures r == divider_like_spec(text@),
{
    let cs = chars_vec(text);
    let s = cs.as_slice();
    let (a, b) = trim_bounds(s);
    if b - a < 12 {
        return false;
    }
    let mut i = a;
    while i < b
        invariant
            a <= i <= b <= s@.len(),
            s@ == text@,
            trim(s@) == s@.subrange(a as int, b as int),
            forall|q: int| a <= q < i ==> is_divider_char(#[trigger] s@[q]),
        decreases b - i,
    {
        let c = s[i];
        if !(c == '-' || c == '\u{2013}' || c == '\u{2014}' || c == '_' || is_whitespace(c)) {
            proof {
                assert(!is_divider_char(trim(s@)[i - a]));
            }
            return false;
        }
        i += 1;
    }
    proof {
        let t = trim(s@);
        assert forall|q: int| 0 <= q < t.len() implies is_divider_char(#[trigger] t[q]) by {
            assert(t[q] == s@[a + q]);
        }
    }
    true
}

/// End of the run of up to four ASCII digits starting at `k`.
pub open spec fn capped_digit_end(s: Seq<char>, k: int, n: int) -> int
    decreases 4 - n,
{
    if n >= 4 || k + n < 0 || k + n >= s.len() || !is_digit(s[k + n]) {
        k + n
    } else {
        capped_digit_end(s, k, n + 1)
    }
}

/// A numbered note start: one to four digits, `.` or `)`, then whitespace.
pub open spec fn numbered_marginalia_start_spec(s: Seq<char>) -> bool {
    let k = skip_ws(s, 0);
    let e = capped_digit_end(s, k, 0);
    &&& e > k
    &&& !(e < s.len() && is_digit(s[e]))
    &&& e < s.len() && (s[e] == '.' || s[e] == ')')
    &&& e + 1 < s.len() && is_ws(s[e + 1])
}

proof fn lemma_capped(s: Seq<char>, k: int, n: int)
    requires 0 <= k, 0 <= n <= 4, k + n <= s.len(),
    ensures k + n <= capped_digit_end(s, k, n) <= k + 4, capped_digit_end(s, k, n) <= s.len(),
    decreases 4 - n,
{
    if n < 4 && k + n < s.len() && is_digit(s[k + n]) {
        lemma_capped(s, k, n + 1);
    }
}

pub fn lm2_blocksplit_numbered_marginalia_start(text: &str) -> (r: bool)
    ensures r == numbered_marginalia_start_spec(text@),
{
    let cs = chars_vec(text);
    let s = cs.as_slice();
    let k = skip_whitespace(s, 0);
    proof {
        lemma_skip_ws_bounds(s@, 0);
        lemma_capped(s@, k as int, 0);
    }
    let mut e = k;
    let mut n: usize = 0;
    while n < 4 && e < s.len() && is_ascii_digit(s[e])
        invariant
            n <= 4,
            e == k + n,
            e <= s@.len(),
            capped_digit_end(s@, k as int, n as int) == capped_digit_end(s@, k as int, 0),
        decreases 4 - n,
    {
        e += 1;
        n += 1;
    }
    if e == k || (e < s.len() && is_ascii_digit(s[e])) {
        return false;
    }
    if !(e < s.len() && (s[e] == '.' || s[e] == ')')) {
        return false;
    }
    e + 1 < s.len() && is_whitespace(s[e + 1])
}

/// The trimmed text is one to four ASCII digits.
pub open spec fn standalone_marker_fragment_spec(s: Seq<char>) -> bool {
    let t = trim(s);
    1 <= t.len() <= 4 && forall|i: int| 0 <= i < t.len() ==> is_digit(#[trigger] t[i])
}

pub fn lm2_looks_like_standalone_marker_fragment(text: &str) -> (r: bool)
    ensures r == standalone_marker_fragment_spec(text@),
{
    let cs = chars_vec(text);
    let s = cs.as_slice();
    let (a, b) = trim_bounds(s);
    if b - a < 1 || b - a > 4 {
        return false;
    }
    let mut i = a;
    while i < b
        invariant
            a <= i <= b <= s@.len(),
            s@ == text@,
            trim(s@) == s@.subrange(a as int, b as int),
            forall|q: int| a <= q < i ==> is_digit(#[trigger] s@[q]),
        decreases b - i,
    {
        if !is_ascii_digit(s[i]) {
            proof {
                assert(!is_digit(trim(s@)[i - a]));
            }
            return false;
        }
        i += 1;
    }
    proof {
        let t = trim(s@);
        assert forall|q: int| 0 <= q < t.len() implies is_digit(#[trigger] t[q]) by {
            assert(t[q] == s@[a + q]);
        }
    }
    true
}

pub open spec fn is_tail_closer(c: char) -> bool {
    c == '"' || c == '\'' || c == '\u{2019}' || c == '\u{201D}' || c == ')' || c == ']' || c
        == '}'
}

/// End of `s[..j]` once trailing closing quotes and brackets are dropped.
pub open spec fn back_closers(s: Seq<char>, j: int) -> int
    decreases j,
{
    if j <= 0 || j > s.len() {
        if j <= 0 { 0 } else { s.len() as int }
    } else if is_tail_closer(s[j - 1]) {
        back_closers(s, j - 1)
    } else {
        j
    }
}

proof fn lemma_back_closers(s: Seq<char>, j: int)
    requires 0 <= j <= s.len(),
    ensures 0 <= back_closers(s, j) <= j,
    decreases j,
{
    if j > 0 && is_tail_closer(s[j - 1]) {
        lemma_back_closers(s, j - 1);
    }
}

/// A note's last sentence is visibly closed (behind any closing quotes or
/// brackets).
pub open spec fn note_tail_closed_spec(s: Seq<char>) -> bool {
    let e = back_ws(s, back_closers(s, back_ws(s, s.len() as int)));
    e > 0 && is_sentence_close_char(s[e - 1])
}

pub open spec fn is_sentence_close_char(c: char) -> bool {
    c == '.' || c == '?' || c == '!' || c == ')' || c == ']'
}

pub fn lm2_note_tail_visibly_closed(text: &str) -> (r: bool)
    ensures r == note_tail_closed_spec(text@),
{
    let cs = chars_vec(text);
    let s = cs.as_slice();
    let e1 = back_whitespace(s, s.len());
    proof {
        lemma_back_ws_bounds(s@, s@.len() as int);
        lemma_back_closers(s@, e1 as int);
    }
    let mut e2 = e1;
    while e2 > 0 && (s[e2 - 1] == '"' || s[e2 - 1] == '\'' || s[e2 - 1] == '\u{2019}' || s[e2
        - 1] == '\u{201D}' || s[e2 - 1] == ')' || s[e2 - 1] == ']' || s[e2 - 1] == '}')
        invariant
            e2 <= e1 <= s@.len(),
            back_closers(s@, e2 as int) == back_closers(s@, e1 as int),
        decreases e2,
    {
        e2 -= 1;
    }
    let e3 = back_whitespace(s, e2);
    proof {
        lemma_back_ws_bounds(s@, e2 as int);
    }
    if e3 == 0 {
        return false;
    }
    let c = s[e3 - 1];
    c == '.' || c == '?' || c == '!' || c == ')' || c == ']'
}

} // verus!
