//! Outline structure in line text: star pagination, roman and arabic outline
//! markers, run-in headings and canonical section titles.
use vstd::prelude::*;
use crate::markers::{digit_run_end, digit_run_end_exec, lemma_digit_run_end};
use crate::text::{
    parse_u16, all_digits, ascii_lower_of, ascii_lowercase_vec, char_is_alphanumeric, char_is_uppercase, chars_vec, digits_u16, digits_value, find_char, find_char_from, first_alpha_is_lower, first_alpha_is_upper, first_alpha_lower, first_alpha_upper, is_ascii_alpha, is_ascii_alphabetic, is_ascii_digit, is_ascii_lower, is_ascii_lowercase, is_digit, is_whitespace, is_ws, lemma_next_ws_bounds, lemma_skip_ws_bounds, next_whitespace, next_ws, skip_whitespace, skip_ws, token_ranges, token_ranges_exec, unicode_alphabetic, unicode_alphanumeric, unicode_uppercase, char_is_alphabetic,
};
use crate::types::LiquidBlockRole;

verus! {

// ---------------------------------------------------------------------------
// Star pagination
// ---------------------------------------------------------------------------

/// Start of the text once left whitespace and a leading star-pagination
/// reference (`*123 `, two to four digits) are dropped.
pub open spec fn star_strip_start(s: Seq<char>) -> int {
    let a = skip_ws(s, 0);
    if a < s.len() && s[a] == '*' {
        let e = digit_run_end(s, a + 1);
        let n = e - (a + 1);
        if 2 <= n <= 4 && e < s.len() && is_ws(s[e]) {
            skip_ws(s, e)
        } else {
            a
        }
    } else {
        a
    }
}

pub proof fn lemma_star_strip_start(s: Seq<char>)
    ensures
        0 <= star_strip_start(s) <= s.len(),
        star_strip_start(s) < s.len() ==> !is_ws(s[star_strip_start(s)]),
{
    lemma_skip_ws_bounds(s, 0);
    let a = skip_ws(s, 0);
    if a < s.len() && s[a] == '*' {
        lemma_digit_run_end(s, a + 1);
        let e = digit_run_end(s, a + 1);
        if e < s.len() {
            lemma_skip_ws_bounds(s, e);
        }
    }
}

fn star_strip_start_exec(s: &[char]) -> (r: usize)
    ensures r == star_strip_start(s@), r <= s@.len(),
{
    proof {
        lemma_star_strip_start(s@);
    }
    let a = skip_whitespace(s, 0);
    proof {
        lemma_skip_ws_bounds(s@, 0);
    }
    if a < s.len() && s[a] == '*' {
        let e = digit_run_end_exec(s, a + 1);
        proof {
            lemma_digit_run_end(s@, a + 1);
        }
        let n = e - (a + 1);
        if 2 <= n && n <= 4 && e < s.len() && is_whitespace(s[e]) {
            skip_whitespace(s, e)
        } else {
            a
        }
    } else {
        a
    }
}

/// The text without its left whitespace and leading star pagination.
pub fn lm2_strip_leading_star_pagination(text: &str) -> (r: &str)
    ensures r@ == text@.subrange(star_strip_start(text@), text@.len() as int),
{
    let cs = chars_vec(text);
    let p = star_strip_start_exec(cs.as_slice());
    text.substring_char(p, cs.len())
}

// ---------------------------------------------------------------------------
// Title-case numbered outline
// ---------------------------------------------------------------------------

/// First alphabetic position in `s[a..b]` (or `b`).
pub open spec fn alpha_core_start(s: Seq<char>, a: int, b: int) -> int
    decreases b - a,
{
    if a >= b || a < 0 || b > s.len() {
        a
    } else if unicode_alphabetic(s[a]) {
        a
    } else {
        alpha_core_start(s, a + 1, b)
    }
}

/// End of the last alphabetic character in `s[a..b]` (or `a`).
pub open spec fn alpha_core_end(s: Seq<char>, a: int, b: int) -> int
    decreases b - a,
{
    if a >= b || a < 0 || b > s.len() {
        b
    } else if unicode_alphabetic(s[b - 1]) {
        b
    } else {
        alpha_core_end(s, a, b - 1)
    }
}

pub open spec fn is_minor_title_word(w: Seq<char>) -> bool {
    ||| w == "a"@
    ||| w == "an"@
    ||| w == "and"@
    ||| w == "for"@
    ||| w == "in"@
    ||| w == "of"@
    ||| w == "on"@
    ||| w == "or"@
    ||| w == "the"@
    ||| w == "to"@
}

/// A word reads title case: after trimming non-letters it is empty, a minor
/// word (any ASCII case), or starts with an uppercase letter.
pub open spec fn title_case_word(s: Seq<char>, a: int, b: int) -> bool {
    let ca = alpha_core_start(s, a, b);
    let cb = alpha_core_end(s, ca, b);
    let core = s.subrange(ca, cb);
    ||| ca >= cb
    ||| is_minor_title_word(core.map_values(|c: char| ascii_lower_of(c)))
    ||| unicode_uppercase(s[ca])
}

/// Every word after the outline marker reads title case.
pub open spec fn title_case_outline_spec(s: Seq<char>) -> bool {
    let p = star_strip_start(s);
    let t = s.subrange(p, s.len() as int);
    let r = token_ranges(t);
    forall|j: int| 1 <= j < r.len() ==> title_case_word(t, #[trigger] r[j].0, r[j].1)
}

proof fn lemma_alpha_core_start(s: Seq<char>, a: int, b: int)
    requires 0 <= a <= b <= s.len(),
    ensures
        a <= alpha_core_start(s, a, b) <= b,
        alpha_core_start(s, a, b) < b ==> unicode_alphabetic(s[alpha_core_start(s, a, b)]),
    decreases b - a,
{
    if a < b && !unicode_alphabetic(s[a]) {
        lemma_alpha_core_start(s, a + 1, b);
    }
}

proof fn lemma_alpha_core_end(s: Seq<char>, a: int, b: int)
    requires 0 <= a <= b <= s.len(),
    ensures a <= alpha_core_end(s, a, b) <= b,
    decreases b - a,
{
    if a < b && !unicode_alphabetic(s[b - 1]) {
        lemma_alpha_core_end(s, a, b - 1);
    }
}

fn alpha_core_start_exec(s: &[char], a: usize, b: usize) -> (r: usize)
    requires a <= b <= s@.len(),
    ensures r == alpha_core_start(s@, a as int, b as int), a <= r <= b,
{
    proof {
        lemma_alpha_core_start(s@, a as int, b as int);
    }
    let mut i = a;
    while i < b && !char_is_alphabetic(s[i])
        invariant
            a <= i <= b <= s@.len(),
            alpha_core_start(s@, i as int, b as int) == alpha_core_start(s@, a as int, b as int),
        decreases b - i,
    {
        i += 1;
    }
    i
}

fn alpha_core_end_exec(s: &[char], a: usize, b: usize) -> (r: usize)
    requires a <= b <= s@.len(),
    ensures r == alpha_core_end(s@, a as int, b as int), a <= r <= b,
{
    proof {
        lemma_alpha_core_end(s@, a as int, b as int);
    }
    let mut j = b;
    while j > a && !char_is_alphabetic(s[j - 1])
        invariant
            a <= j <= b <= s@.len(),
            alpha_core_end(s@, a as int, j as int) == alpha_core_end(s@, a as int, b as int),
        decreases j - a,
    {
        j -= 1;
    }
    j
}

/// The characters `s[a..b]` equal the literal `w`.
fn range_equals(s: &[char], a: usize, b: usize, w: &str) -> (r: bool)
    requires a <= b <= s@.len(),
    ensures r == (s@.subrange(a as int, b as int) == w@),
{
    let wc = chars_vec(w);
    if b - a != wc.len() {
        return false;
    }
    let mut i: usize = 0;
    while i < wc.len()
        invariant
            a + wc@.len() == b <= s@.len(),
            wc@ == w@,
            i <= wc@.len(),
            forall|j: int| 0 <= j < i ==> s@[a + j] == wc@[j],
        decreases wc.len() - i,
    {
        if s[a + i] != wc[i] {
            proof {
                assert(s@.subrange(a as int, b as int)[i as int] != w@[i as int]);
            }
            return false;
        }
        i += 1;
    }
    proof {
        assert(s@.subrange(a as int, b as int) =~= w@);
    }
    true
}

fn is_minor_title_word_exec(l: &[char], a: usize, b: usize) -> (r: bool)
    requires a <= b <= l@.len(),
    ensures r == is_minor_title_word(l@.subrange(a as int, b as int)),
{
    range_equals(l, a, b, "a") || range_equals(l, a, b, "an") || range_equals(l, a, b, "and")
        || range_equals(l, a, b, "for") || range_equals(l, a, b, "in") || range_equals(
        l,
        a,
        b,
        "of",
    ) || range_equals(l, a, b, "on") || range_equals(l, a, b, "or") || range_equals(
        l,
        a,
        b,
        "the",
    ) || range_equals(l, a, b, "to")
}

/// Every word after the leading outline marker is title case (or a minor
/// word such as `of` or `the`).
pub fn lm2_title_case_numbered_outline(text: &str) -> (r: bool)
    ensures r == title_case_outline_spec(text@),
{
    let cs = chars_vec(text);
    let p = star_strip_start_exec(cs.as_slice());
    let t = crate::text::copy_range(cs.as_slice(), p, cs.len());
    let ts = t.as_slice();
    let lower = ascii_lowercase_vec(ts);
    let ranges = token_ranges_exec(ts);
    proof {
        lemma_star_strip_start(text@);
    }
    let mut j: usize = 1;
    while j < ranges.len()
        invariant
            1 <= j,
            ts@ == t@,
            0 <= star_strip_start(text@) <= text@.len(),
            t@ == text@.subrange(star_strip_start(text@), text@.len() as int),
            ranges@.len() == token_ranges(t@).len(),
            forall|q: int| 0 <= q < ranges@.len() ==> (#[trigger] ranges@[q].0 as int, ranges@[q].1
                as int) == token_ranges(t@)[q],
            forall|q: int| 0 <= q < ranges@.len() ==> #[trigger] ranges@[q].0 < ranges@[q].1
                <= t@.len(),
            lower@.len() == t@.len(),
            forall|i: int| 0 <= i < t@.len() ==> #[trigger] lower@[i] == ascii_lower_of(t@[i]),
            forall|q: int| 1 <= q < j && q < ranges@.len() ==> title_case_word(
                t@,
                #[trigger] token_ranges(t@)[q].0,
                token_ranges(t@)[q].1,
            ),
        decreases ranges.len() - j,
    {
        let (a, b) = ranges[j];
        proof {
            assert(ranges@[j as int].0 < ranges@[j as int].1 <= t@.len());
        }
        let ca = alpha_core_start_exec(ts, a, b);
        let cb = alpha_core_end_exec(ts, ca, b);
        let ok = if ca >= cb {
            true
        } else if is_minor_title_word_exec(lower.as_slice(), ca, cb) {
            proof {
                assert(lower@.subrange(ca as int, cb as int) =~= t@.subrange(
                    ca as int,
                    cb as int,
                ).map_values(|c: char| ascii_lower_of(c)));
            }
            true
        } else {
            proof {
                assert(lower@.subrange(ca as int, cb as int) =~= t@.subrange(
                    ca as int,
                    cb as int,
                ).map_values(|c: char| ascii_lower_of(c)));
            }
            char_is_uppercase(ts[ca])
        };
        if !ok {
            proof {
                assert(token_ranges(t@)[j as int] == (a as int, b as int));
            }
            return false;
        }
        proof {
            assert(token_ranges(t@)[j as int] == (a as int, b as int));
        }
        j += 1;
    }
    true
}

// ---------------------------------------------------------------------------
// Roman numerals
// ---------------------------------------------------------------------------

/// Value of a roman digit (any ASCII case); zero for anything else.
pub open spec fn roman_digit(c: char) -> u16 {
    let l = ascii_lower_of(c);
    if l == 'i' {
        1
    } else if l == 'v' {
        5
    } else if l == 'x' {
        10
    } else if l == 'l' {
        50
    } else if l == 'c' {
        100
    } else if l == 'd' {
        500
    } else if l == 'm' {
        1000
    } else {
        0
    }
}

/// Running `(total, largest digit so far)` after reading `s[j..]` from the
/// right: a digit below the largest one seen subtracts, any other adds.
pub open spec fn roman_acc(s: Seq<char>, j: int) -> Option<(u16, u16)>
    decreases s.len() - j,
{
    if j < 0 || j >= s.len() {
        Some((0u16, 0u16))
    } else {
        match roman_acc(s, j + 1) {
            None => None,
            Some((total, previous)) => {
                let current = roman_digit(s[j]);
                if current == 0 {
                    None
                } else if current < previous {
                    if total >= current {
                        Some(((total - current) as u16, previous))
                    } else {
                        None
                    }
                } else if total + current <= 65535 {
                    Some(((total + current) as u16, current))
                } else {
                    None
                }
            },
        }
    }
}

/// Value of a roman numeral, when it is positive and every step fits `u16`.
pub open spec fn roman_value_spec(s: Seq<char>) -> Option<u16> {
    match roman_acc(s, 0) {
        Some((total, _)) => if total > 0 { Some(total) } else { None },
        None => None,
    }
}

fn roman_digit_exec(c: char) -> (r: u16)
    ensures r == roman_digit(c),
{
    let l = if 'A' <= c && c <= 'Z' {
        let v = ascii_lowercase_vec(&[c]);
        v[0]
    } else {
        c
    };
    proof {
        assert(l == ascii_lower_of(c));
    }
    if l == 'i' {
        1
    } else if l == 'v' {
        5
    } else if l == 'x' {
        10
    } else if l == 'l' {
        50
    } else if l == 'c' {
        100
    } else if l == 'd' {
        500
    } else if l == 'm' {
        1000
    } else {
        0
    }
}

proof fn lemma_roman_none(s: Seq<char>, k: int, j: int)
    requires 0 <= k <= j <= s.len(), roman_acc(s, j) is None,
    ensures roman_acc(s, k) is None,
    decreases j - k,
{
    if k < j {
        lemma_roman_none(s, k + 1, j);
    }
}

fn roman_value_chars(s: &[char], a: usize, b: usize) -> (r: Option<u16>)
    requires a <= b <= s@.len(),
    ensures r == roman_value_spec(s@.subrange(a as int, b as int)),
{
    let ghost m = s@.subrange(a as int, b as int);
    let mut total: u16 = 0;
    let mut previous: u16 = 0;
    let mut j = b;
    while j > a
        invariant
            a <= j <= b <= s@.len(),
            m == s@.subrange(a as int, b as int),
            roman_acc(m, j - a) == Some((total, previous)),
        decreases j - a,
    {
        let current = roman_digit_exec(s[j - 1]);
        proof {
            assert(m[j - 1 - a] == s@[j - 1]);
        }
        if current == 0 {
            proof {
                lemma_roman_none(m, 0, j - 1 - a);
            }
            return None;
        }
        if current < previous {
            if total >= current {
                total = total - current;
            } else {
                proof {
                    lemma_roman_none(m, 0, j - 1 - a);
                }
                return None;
            }
        } else {
            if total as u32 + current as u32 <= 65535 {
                total = total + current;
                previous = current;
            } else {
                proof {
                    lemma_roman_none(m, 0, j - 1 - a);
                }
                return None;
            }
        }
        j -= 1;
    }
    if total > 0 {
        Some(total)
    } else {
        None
    }
}

/// Value of a roman numeral (any ASCII case), or `None` for an empty or
/// non-roman marker or one whose running value leaves `u16`.
pub fn lm2_roman_marker_value(marker: &str) -> (r: Option<u16>)
    ensures r == roman_value_spec(marker@),
{
    let cs = chars_vec(marker);
    proof {
        assert(cs@.subrange(0, cs@.len() as int) =~= cs@);
    }
    roman_value_chars(cs.as_slice(), 0, cs.len())
}

pub open spec fn is_roman_lower(c: char) -> bool {
    c == 'i' || c == 'v' || c == 'x' || c == 'l' || c == 'c' || c == 'd' || c == 'm'
}

pub open spec fn is_paren_or_dot(c: char) -> bool {
    c == '(' || c == ')' || c == '.'
}

/// Start of `s[a..b]` once leading characters matching `(`, `)`, `.` are
/// dropped.
pub open spec fn pd_start(s: Seq<char>, a: int, b: int) -> int
    decreases b - a,
{
    if a >= b || a < 0 || b > s.len() {
        a
    } else if is_paren_or_dot(s[a]) {
        pd_start(s, a + 1, b)
    } else {
        a
    }
}

/// End of `s[a..b]` once trailing `(`, `)`, `.` are dropped.
pub open spec fn pd_end(s: Seq<char>, a: int, b: int) -> int
    decreases b - a,
{
    if a >= b || a < 0 || b > s.len() {
        b
    } else if is_paren_or_dot(s[b - 1]) {
        pd_end(s, a, b - 1)
    } else {
        b
    }
}

proof fn lemma_pd(s: Seq<char>, a: int, b: int)
    requires 0 <= a <= b <= s.len(),
    ensures
        a <= pd_start(s, a, b) <= b,
        pd_start(s, a, b) <= pd_end(s, pd_start(s, a, b), b) <= b,
    decreases b - a,
{
    if a < b && is_paren_or_dot(s[a]) {
        lemma_pd(s, a + 1, b);
    } else {
        lemma_pd_end(s, a, b);
    }
}

proof fn lemma_pd_end(s: Seq<char>, a: int, b: int)
    requires 0 <= a <= b <= s.len(),
    ensures a <= pd_end(s, a, b) <= b,
    decreases b - a,
{
    if a < b && is_paren_or_dot(s[b - 1]) {
        lemma_pd_end(s, a, b - 1);
    }
}

fn pd_start_exec(s: &[char], a: usize, b: usize) -> (r: usize)
    requires a <= b <= s@.len(),
    ensures r == pd_start(s@, a as int, b as int), a <= r <= b,
{
    proof {
        lemma_pd(s@, a as int, b as int);
    }
    let mut i = a;
    while i < b && (s[i] == '(' || s[i] == ')' || s[i] == '.')
        invariant
            a <= i <= b <= s@.len(),
            pd_start(s@, i as int, b as int) == pd_start(s@, a as int, b as int),
        decreases b - i,
    {
        i += 1;
    }
    i
}

fn pd_end_exec(s: &[char], a: usize, b: usize) -> (r: usize)
    requires a <= b <= s@.len(),
    ensures r == pd_end(s@, a as int, b as int), a <= r <= b,
{
    proof {
        lemma_pd_end(s@, a as int, b as int);
    }
    let mut j = b;
    while j > a && (s[j - 1] == '(' || s[j - 1] == ')' || s[j - 1] == '.')
        invariant
            a <= j <= b <= s@.len(),
            pd_end(s@, a as int, j as int) == pd_end(s@, a as int, b as int),
        decreases j - a,
    {
        j -= 1;
    }
    j
}

/// A lowercase roman outline marker (`iv.` or `(ii)`) opens the text; the
/// result is its value.
pub open spec fn lowercase_roman_marker_spec(s: Seq<char>) -> Option<u16> {
    let r = token_ranges(s);
    if r.len() == 0 {
        None
    } else {
        let (a, b) = r[0];
        let ma = pd_start(s, a, b);
        let mb = pd_end(s, ma, b);
        if !(s[b - 1] == '.' || s[b - 1] == ')') {
            None
        } else if ma >= mb || mb - ma > 8 || !(forall|i: int|
            ma <= i < mb ==> is_roman_lower(#[trigger] s[i])) {
            None
        } else {
            roman_value_spec(s.subrange(ma, mb))
        }
    }
}

/// Value of a lowercase roman outline marker (`iv.`, `(ii)`) that opens the
/// text.
#[verifier::loop_isolation(false)]
pub fn lm2_lowercase_roman_outline_marker(text: &str) -> (r: Option<u16>)
    ensures r == lowercase_roman_marker_spec(text@),
{
    let cs = chars_vec(text);
    let s = cs.as_slice();
    let ranges = token_ranges_exec(s);
    if ranges.len() == 0 {
        return None;
    }
    let (a, b) = ranges[0];
    if !(s[b - 1] == '.' || s[b - 1] == ')') {
        return None;
    }
    let ma = pd_start_exec(s, a, b);
    let mb = pd_end_exec(s, ma, b);
    if ma >= mb || mb - ma > 8 {
        return None;
    }
    let mut i = ma;
    while i < mb
        invariant
            ma <= i <= mb <= s@.len(),
            forall|q: int| ma <= q < i ==> is_roman_lower(#[trigger] s@[q]),
        decreases mb - i,
    {
        let c = s[i];
        if !(c == 'i' || c == 'v' || c == 'x' || c == 'l' || c == 'c' || c == 'd' || c == 'm') {
            proof {
                assert(!is_roman_lower(s@[i as int]));
            }
            return None;
        }
        i += 1;
    }
    roman_value_chars(s, ma, mb)
}

// ---------------------------------------------------------------------------
// Arabic run-in heading
// ---------------------------------------------------------------------------

pub open spec fn is_dash_like(c: char) -> bool {
    c == '-' || ('\u{2010}' <= c && c <= '\u{2014}') || c == '\u{FFFD}'
}

/// Skip whitespace and dash-like characters from `i`.
pub open spec fn skip_ws_dash(s: Seq<char>, i: int) -> int
    decreases s.len() - i,
{
    if i < 0 || i >= s.len() {
        if i < 0 { 0 } else { s.len() as int }
    } else if is_ws(s[i]) || is_dash_like(s[i]) {
        skip_ws_dash(s, i + 1)
    } else {
        i
    }
}

proof fn lemma_skip_ws_dash(s: Seq<char>, i: int)
    requires 0 <= i <= s.len(),
    ensures i <= skip_ws_dash(s, i) <= s.len(),
    decreases s.len() - i,
{
    if i < s.len() && (is_ws(s[i]) || is_dash_like(s[i])) {
        lemma_skip_ws_dash(s, i + 1);
    }
}

/// Start of the body of an arabic run-in heading (`1. Label. - Body`).
pub open spec fn run_in_body_start(s: Seq<char>) -> Option<int> {
    let p = star_strip_start(s);
    let m = next_ws(s, p);
    if p >= s.len() || m - 1 <= p || s[m - 1] != '.' || m - 1 - p > 2 || !all_digits(
        s.subrange(p, m - 1),
    ) {
        None
    } else {
        let after = skip_ws(s, m);
        match find_char_from(s, '.', after) {
            None => None,
            Some(h) => {
                let body = skip_ws_dash(s, h + 1);
                if body < s.len() && first_alpha_upper(s, body) {
                    Some(body)
                } else {
                    None
                }
            },
        }
    }
}

/// The body portion of an arabic run-in heading (`1. Label. - Body`), when it
/// starts with an uppercase letter.
#[verifier::loop_isolation(false)]
pub fn lm2_numbered_run_in_body(text: &str) -> (r: Option<&str>)
    ensures
        match r {
            Some(body) => run_in_body_start(text@) matches Some(k) && body@ == text@.subrange(
                k,
                text@.len() as int,
            ),
            None => run_in_body_start(text@) is None,
        },
{
    let cs = chars_vec(text);
    let s = cs.as_slice();
    let p = star_strip_start_exec(s);
    proof {
        lemma_star_strip_start(s@);
    }
    if p >= s.len() {
        return None;
    }
    let m = next_whitespace(s, p);
    proof {
        lemma_next_ws_bounds(s@, p as int);
        lemma_next_ws_bounds(s@, p + 1);
    }
    if m - 1 <= p || s[m - 1] != '.' || m - 1 - p > 2 {
        return None;
    }
    let mut i = p;
    while i < m - 1
        invariant
            p <= i <= m - 1 < s@.len(),
            forall|q: int| p <= q < i ==> is_digit(#[trigger] s@[q]),
        decreases m - 1 - i,
    {
        if !is_ascii_digit(s[i]) {
            proof {
                assert(!is_digit(s@.subrange(p as int, m - 1)[i - p]));
            }
            return None;
        }
        i += 1;
    }
    proof {
        let d = s@.subrange(p as int, m - 1);
        assert forall|q: int| 0 <= q < d.len() implies is_digit(#[trigger] d[q]) by {
            assert(d[q] == s@[p + q]);
        }
    }
    let after = skip_whitespace(s, m);
    let h = match find_char(s, '.', after) {
        Some(h) => h,
        None => return None,
    };
    proof {
        lemma_skip_ws_dash(s@, h + 1);
    }
    let mut body = h + 1;
    while body < s.len() && (is_whitespace(s[body]) || s[body] == '-' || ('\u{2010}' <= s[body]
        && s[body] <= '\u{2014}') || s[body] == '\u{FFFD}')
        invariant
            h + 1 <= body <= s@.len(),
            skip_ws_dash(s@, body as int) == skip_ws_dash(s@, h + 1),
        decreases s.len() - body,
    {
        body += 1;
    }
    if body < s.len() && first_alpha_is_upper(s, body) {
        Some(text.substring_char(body, s.len()))
    } else {
        None
    }
}

// ---------------------------------------------------------------------------
// Outline heading role
// ---------------------------------------------------------------------------

/// Is neither alphanumeric nor whitespace (trimmed from a canonical title);
/// within ASCII, alphanumeric means a letter or a digit.
pub open spec fn title_noise(c: char) -> bool {
    !is_ws(c) && if (c as u32) < 128 {
        !crate::text::is_ascii_alnum(c)
    } else {
        !unicode_alphanumeric(c)
    }
}

pub open spec fn noise_start(s: Seq<char>, a: int, b: int) -> int
    decreases b - a,
{
    if a >= b || a < 0 || b > s.len() {
        a
    } else if title_noise(s[a]) {
        noise_start(s, a + 1, b)
    } else {
        a
    }
}

pub open spec fn noise_end(s: Seq<char>, a: int, b: int) -> int
    decreases b - a,
{
    if a >= b || a < 0 || b > s.len() {
        b
    } else if title_noise(s[b - 1]) {
        noise_end(s, a, b - 1)
    } else {
        b
    }
}

/// Tokens joined by single spaces.
pub open spec fn join_tokens(s: Seq<char>, r: Seq<(int, int)>) -> Seq<char>
    decreases r.len(),
{
    if r.len() == 0 {
        Seq::empty()
    } else if r.len() == 1 {
        s.subrange(r[0].0, r[0].1)
    } else {
        join_tokens(s, r.drop_last()) + seq![' '] + s.subrange(r.last().0, r.last().1)
    }
}

/// The lowercased text with surrounding punctuation dropped and whitespace
/// collapsed to single spaces.
pub open spec fn canonical_title(l: Seq<char>) -> Seq<char> {
    let a = noise_start(l, 0, l.len() as int);
    let b = noise_end(l, a, l.len() as int);
    let core = l.subrange(a, b);
    join_tokens(core, token_ranges(core))
}

pub open spec fn is_section_title(c: Seq<char>) -> bool {
    ||| c == "abstract"@
    ||| c == "acknowledgments"@
    ||| c == "appendix"@
    ||| c == "background"@
    ||| c == "conclusion"@
    ||| c == "discussion"@
    ||| c == "executive summary"@
    ||| c == "findings"@
    ||| c == "introduction"@
    ||| c == "limitations"@
    ||| c == "literature review"@
    ||| c == "methodology"@
    ||| c == "methods"@
    ||| c == "recommendations"@
    ||| c == "references"@
    ||| c == "related work"@
    ||| c == "results"@
}

pub open spec fn is_outline_closer(c: char) -> bool {
    c == '.' || c == ')' || c == ':'
}

/// End of `s[a..b]` once trailing `.`, `)` and `:` are dropped.
pub open spec fn closer_end(s: Seq<char>, a: int, b: int) -> int
    decreases b - a,
{
    if a >= b || a < 0 || b > s.len() {
        b
    } else if is_outline_closer(s[b - 1]) {
        closer_end(s, a, b - 1)
    } else {
        b
    }
}

/// Start of `s[a..b]` once leading `(` are dropped.
pub open spec fn open_paren_start(s: Seq<char>, a: int, b: int) -> int
    decreases b - a,
{
    if a >= b || a < 0 || b > s.len() {
        a
    } else if s[a] == '(' {
        open_paren_start(s, a + 1, b)
    } else {
        a
    }
}

pub open spec fn is_upper_roman(c: char) -> bool {
    c == 'I' || c == 'V' || c == 'X' || c == 'L' || c == 'C' || c == 'D' || c == 'M'
}

/// Outline role of a line: a canonical section title or `Part`/`Chapter`
/// opener is a heading, a roman marker a heading, an arabic or single-letter
/// marker a subheading.
pub open spec fn outline_heading_role_spec(s: Seq<char>) -> Option<LiquidBlockRole> {
    let p = star_strip_start(s);
    let t = s.subrange(p, s.len() as int);
    let lower = t.map_values(|c: char| ascii_lower_of(c));
    if is_section_title(canonical_title(lower)) {
        if first_alpha_upper(t, 0) { Some(LiquidBlockRole::Heading) } else { None }
    } else if lower.len() >= 5 && lower.subrange(0, 5) == "part "@ || lower.len() >= 8
        && lower.subrange(0, 8) == "chapter "@ {
        Some(LiquidBlockRole::Heading)
    } else {
        let r = token_ranges(t);
        if r.len() == 0 {
            None
        } else {
            let (a, b) = r[0];
            let u = open_paren_start(t, a, b);
            let me = closer_end(t, u, b);
            if me == u || me == b {
                None
            } else if forall|i: int| u <= i < me ==> is_digit(#[trigger] t[i]) {
                if first_alpha_lower(t, skip_ws(t, b)) {
                    None
                } else {
                    Some(LiquidBlockRole::Subheading)
                }
            } else if (me - u > 1 || (me - u == 1 && (t[u] == 'I' || t[u] == 'V' || t[u] == 'X')))
                && (forall|i: int| u <= i < me ==> is_upper_roman(#[trigger] t[i])) {
                Some(LiquidBlockRole::Heading)
            } else if me - u == 1 && is_ascii_alpha(t[u]) {
                Some(LiquidBlockRole::Subheading)
            } else {
                None
            }
        }
    }
}

proof fn lemma_noise(s: Seq<char>, a: int, b: int)
    requires 0 <= a <= b <= s.len(),
    ensures
        a <= noise_start(s, a, b) <= b,
        a <= noise_end(s, a, b) <= b,
    decreases b - a,
{
    if a < b {
        if title_noise(s[a]) {
            lemma_noise(s, a + 1, b);
        }
        if title_noise(s[b - 1]) {
            lemma_noise(s, a, b - 1);
        }
        lemma_noise_end(s, a, b);
    }
}

proof fn lemma_noise_end(s: Seq<char>, a: int, b: int)
    requires 0 <= a <= b <= s.len(),
    ensures a <= noise_end(s, a, b) <= b,
    decreases b - a,
{
    if a < b && title_noise(s[b - 1]) {
        lemma_noise_end(s, a, b - 1);
    }
}

proof fn lemma_closer(s: Seq<char>, a: int, b: int)
    requires 0 <= a <= b <= s.len(),
    ensures
        a <= open_paren_start(s, a, b) <= b,
        a <= closer_end(s, a, b) <= b,
    decreases b - a,
{
    if a < b {
        if s[a] == '(' {
            lemma_closer(s, a + 1, b);
        }
        if is_outline_closer(s[b - 1]) {
            lemma_closer(s, a, b - 1);
        }
    }
}

fn canonical_title_exec(l: &[char]) -> (r: Vec<char>)
    ensures r@ == canonical_title(l@),
{
    proof {
        lemma_noise(l@, 0, l@.len() as int);
    }
    let mut a: usize = 0;
    while a < l.len() && !char_is_alphanumeric(l[a]) && !is_whitespace(l[a])
        invariant
            a <= l@.len(),
            noise_start(l@, a as int, l@.len() as int) == noise_start(l@, 0, l@.len() as int),
        decreases l.len() - a,
    {
        a += 1;
    }
    proof {
        lemma_noise(l@, a as int, l@.len() as int);
    }
    let mut b: usize = l.len();
    while b > a && !char_is_alphanumeric(l[b - 1]) && !is_whitespace(l[b - 1])
        invariant
            a <= b <= l@.len(),
            noise_end(l@, a as int, b as int) == noise_end(l@, a as int, l@.len() as int),
        decreases b - a,
    {
        b -= 1;
    }
    let core = crate::text::copy_range(l, a, b);
    let cs = core.as_slice();
    let ranges = token_ranges_exec(cs);
    let mut out: Vec<char> = Vec::new();
    let mut j: usize = 0;
    while j < ranges.len()
        invariant
            core@ == l@.subrange(a as int, b as int),
            cs@ == core@,
            j <= ranges@.len(),
            ranges@.len() == token_ranges(core@).len(),
            forall|q: int| 0 <= q < ranges@.len() ==> (#[trigger] ranges@[q].0 as int, ranges@[q].1
                as int) == token_ranges(core@)[q],
            forall|q: int| 0 <= q < ranges@.len() ==> #[trigger] ranges@[q].0 < ranges@[q].1
                <= core@.len(),
            out@ == join_tokens(core@, token_ranges(core@).take(j as int)),
        decreases ranges.len() - j,
    {
        let (x, y) = ranges[j];
        proof {
            assert(ranges@[j as int].0 < ranges@[j as int].1 <= core@.len());
        }
        let ghost prev = out@;
        if j > 0 {
            out.push(' ');
        }
        let mut k = x;
        while k < y
            invariant
                x <= k <= y <= core@.len(),
                cs@ == core@,
                out@ == (if j > 0 { prev + seq![' '] } else { prev }) + core@.subrange(
                    x as int,
                    k as int,
                ),
            decreases y - k,
        {
            out.push(cs[k]);
            k += 1;
            proof {
                assert(core@.subrange(x as int, k as int) =~= core@.subrange(x as int, k - 1).push(
                    core@[k - 1],
                ));
            }
        }
        proof {
            let tr = token_ranges(core@);
            let tj = tr.take(j + 1);
            assert(tj.drop_last() =~= tr.take(j as int));
            assert(tj.last() == (x as int, y as int));
            if j == 0 {
                assert(prev =~= Seq::<char>::empty());
                assert(out@ =~= core@.subrange(x as int, y as int));
            } else {
                assert(out@ =~= prev + seq![' '] + core@.subrange(x as int, y as int));
            }
        }
        j += 1;
    }
    proof {
        assert(token_ranges(core@).take(ranges@.len() as int) =~= token_ranges(core@));
    }
    out
}

fn is_section_title_exec(c: &[char]) -> (r: bool)
    ensures r == is_section_title(c@),
{
    let n = c.len();
    proof {
        assert(c@.subrange(0, n as int) =~= c@);
    }
    range_equals(c, 0, n, "abstract") || range_equals(c, 0, n, "acknowledgments")
        || range_equals(c, 0, n, "appendix") || range_equals(c, 0, n, "background")
        || range_equals(c, 0, n, "conclusion") || range_equals(c, 0, n, "discussion")
        || range_equals(c, 0, n, "executive summary") || range_equals(c, 0, n, "findings")
        || range_equals(c, 0, n, "introduction") || range_equals(c, 0, n, "limitations")
        || range_equals(c, 0, n, "literature review") || range_equals(c, 0, n, "methodology")
        || range_equals(c, 0, n, "methods") || range_equals(c, 0, n, "recommendations")
        || range_equals(c, 0, n, "references") || range_equals(c, 0, n, "related work")
        || range_equals(c, 0, n, "results")
}

/// The outline role a heading line announces, if any.
pub fn lm2_outline_heading_role(text: &str) -> (r: Option<LiquidBlockRole>)
    ensures r == outline_heading_role_spec(text@),
{
    let cs = chars_vec(text);
    let p = star_strip_start_exec(cs.as_slice());
    let tv = crate::text::copy_range(cs.as_slice(), p, cs.len());
    let t = tv.as_slice();
    let lower = ascii_lowercase_vec(t);
    proof {
        assert(lower@ =~= t@.map_values(|c: char| ascii_lower_of(c)));
    }
    let canonical = canonical_title_exec(lower.as_slice());
    if is_section_title_exec(canonical.as_slice()) {
        return if first_alpha_is_upper(t, 0) {
            Some(LiquidBlockRole::Heading)
        } else {
            None
        };
    }
    let l = lower.as_slice();
    if (l.len() >= 5 && range_equals(l, 0, 5, "part ")) || (l.len() >= 8 && range_equals(
        l,
        0,
        8,
        "chapter ",
    )) {
        return Some(LiquidBlockRole::Heading);
    }
    let ranges = token_ranges_exec(t);
    if ranges.len() == 0 {
        return None;
    }
    let (a, b) = ranges[0];
    proof {
        lemma_closer(t@, a as int, b as int);
    }
    let mut u = a;
    while u < b && t[u] == '('
        invariant
            a <= u <= b <= t@.len(),
            open_paren_start(t@, u as int, b as int) == open_paren_start(t@, a as int, b as int),
        decreases b - u,
    {
        u += 1;
    }
    proof {
        lemma_closer(t@, u as int, b as int);
    }
    let mut me = b;
    while me > u && (t[me - 1] == '.' || t[me - 1] == ')' || t[me - 1] == ':')
        invariant
            u <= me <= b <= t@.len(),
            closer_end(t@, u as int, me as int) == closer_end(t@, u as int, b as int),
        decreases me - u,
    {
        me -= 1;
    }
    if me == u || me == b {
        return None;
    }
    let mut all_digit = true;
    let mut all_roman = true;
    let mut i = u;
    while i < me
        invariant
            u <= i <= me <= t@.len(),
            all_digit == (forall|q: int| u <= q < i ==> is_digit(#[trigger] t@[q])),
            all_roman == (forall|q: int| u <= q < i ==> is_upper_roman(#[trigger] t@[q])),
        decreases me - i,
    {
        let c = t[i];
        if !is_ascii_digit(c) {
            all_digit = false;
        }
        if !(c == 'I' || c == 'V' || c == 'X' || c == 'L' || c == 'C' || c == 'D' || c == 'M') {
            all_roman = false;
        }
        i += 1;
    }
    if all_digit {
        let rest = skip_whitespace(t, b);
        proof {
            lemma_skip_ws_bounds(t@, b as int);
        }
        if first_alpha_is_lower(t, rest) {
            return None;
        }
        return Some(LiquidBlockRole::Subheading);
    }
    if (me - u > 1 || (me - u == 1 && (t[u] == 'I' || t[u] == 'V' || t[u] == 'X'))) && all_roman {
        return Some(LiquidBlockRole::Heading);
    }
    if me - u == 1 && is_ascii_alphabetic(t[u]) {
        return Some(LiquidBlockRole::Subheading);
    }
    None
}

/// The line opens a new outline item.
pub fn lm2_heading_starts_new_outline_item(text: &str) -> (r: bool)
    ensures r == (outline_heading_role_spec(text@) is Some),
{
    lm2_outline_heading_role(text).is_some()
}

// ---------------------------------------------------------------------------
// Small outline predicates
// ---------------------------------------------------------------------------

/// End of `s[a..b]` once trailing `.` and `)` are dropped.
pub open spec fn dot_paren_end(s: Seq<char>, a: int, b: int) -> int
    decreases b - a,
{
    if a >= b || a < 0 || b > s.len() {
        b
    } else if s[b - 1] == '.' || s[b - 1] == ')' {
        dot_paren_end(s, a, b - 1)
    } else {
        b
    }
}

/// The first token is one lowercase ASCII letter followed by `.`/`)`
/// (`a.`, `b)`).
pub open spec fn lettered_item_spec(s: Seq<char>) -> bool {
    let r = token_ranges(s);
    r.len() > 0 && {
        let (a, b) = r[0];
        let m = dot_paren_end(s, a, b);
        m - a == 1 && is_ascii_lower(s[a]) && m != b
    }
}

pub fn lm2_lettered_list_item_start(text: &str) -> (r: bool)
    ensures r == lettered_item_spec(text@),
{
    let cs = chars_vec(text);
    let s = cs.as_slice();
    let ranges = token_ranges_exec(s);
    if ranges.len() == 0 {
        return false;
    }
    let (a, b) = ranges[0];
    let mut m = b;
    while m > a && (s[m - 1] == '.' || s[m - 1] == ')')
        invariant
            a <= m <= b <= s@.len(),
            dot_paren_end(s@, a as int, m as int) == dot_paren_end(s@, a as int, b as int),
        decreases m - a,
    {
        m -= 1;
    }
    m - a == 1 && is_ascii_lowercase(s[a]) && m != b
}

/// The first token is a roman numeral outline marker ending in `.` or `)`
/// (`IV.`, `(ii)`), of at most eight letters.
pub open spec fn internal_outline_hint_spec(s: Seq<char>) -> bool {
    let r = token_ranges(s);
    r.len() > 0 && {
        let (a, b) = r[0];
        let ma = pd_start(s, a, b);
        let mb = pd_end(s, ma, b);
        (s[b - 1] == '.' || s[b - 1] == ')') && ma < mb && mb - ma <= 8 && forall|i: int|
            ma <= i < mb ==> is_roman_lower(ascii_lower_of(#[trigger] s[i]))
    }
}

/// An article-span title hint that is only an internal outline number.
#[verifier::loop_isolation(false)]
pub fn lm2_internal_outline_title_hint(text: &str) -> (r: bool)
    ensures r == internal_outline_hint_spec(text@),
{
    let cs = chars_vec(text);
    let s = cs.as_slice();
    let ranges = token_ranges_exec(s);
    if ranges.len() == 0 {
        return false;
    }
    let (a, b) = ranges[0];
    if !(s[b - 1] == '.' || s[b - 1] == ')') {
        return false;
    }
    let ma = pd_start_exec(s, a, b);
    let mb = pd_end_exec(s, ma, b);
    if ma >= mb || mb - ma > 8 {
        return false;
    }
    let lower = ascii_lowercase_vec(s);
    let mut i = ma;
    while i < mb
        invariant
            ma <= i <= mb <= s@.len(),
            lower@.len() == s@.len(),
            forall|q: int| 0 <= q < s@.len() ==> #[trigger] lower@[q] == ascii_lower_of(s@[q]),
            forall|q: int| ma <= q < i ==> is_roman_lower(ascii_lower_of(#[trigger] s@[q])),
        decreases mb - i,
    {
        let c = lower[i];
        if !(c == 'i' || c == 'v' || c == 'x' || c == 'l' || c == 'c' || c == 'd' || c == 'm') {
            proof {
                assert(!is_roman_lower(ascii_lower_of(s@[i as int])));
            }
            return false;
        }
        i += 1;
    }
    true
}

/// The text opens with a parenthesized plausible year, `(1500)` to `(2200)`.
pub open spec fn parenthesized_year_spec(s: Seq<char>) -> bool {
    s.len() >= 6 && s[0] == '(' && all_digits(s.subrange(1, 5)) && 1500 <= digits_value(
        s.subrange(1, 5),
    ) <= 2200 && s[5] == ')'
}

#[verifier::loop_isolation(false)]
pub fn lm2_starts_parenthesized_year(text: &str) -> (r: bool)
    ensures r == parenthesized_year_spec(text@),
{
    let cs = chars_vec(text);
    let s = cs.as_slice();
    if s.len() < 6 || s[0] != '(' {
        return false;
    }
    let mut i: usize = 1;
    while i < 5
        invariant
            1 <= i <= 5,
            s@.len() >= 6,
            forall|q: int| 1 <= q < i ==> is_digit(#[trigger] s@[q]),
        decreases 5 - i,
    {
        if !is_ascii_digit(s[i]) {
            proof {
                assert(!is_digit(s@.subrange(1, 5)[i - 1]));
            }
            return false;
        }
        i += 1;
    }
    proof {
        let d = s@.subrange(1, 5);
        assert forall|q: int| 0 <= q < d.len() implies is_digit(#[trigger] d[q]) by {
            assert(d[q] == s@[q + 1]);
        }
    }
    let v = match digits_u16(s, 1, 5) {
        Some(v) => v,
        None => return false,
    };
    1500 <= v && v <= 2200 && s[5] == ')'
}

// ---------------------------------------------------------------------------
// Terse outline labels
// ---------------------------------------------------------------------------

/// Punctuation that may close a terse outline label.
pub open spec fn label_end_punct(c: char) -> bool {
    c == '.' || c == ',' || c == ';' || c == ':' || c == '?' || c == '!'
}

/// The text without star pagination, trimmed.
pub open spec fn outline_body(text: Seq<char>) -> Seq<char> {
    crate::text::trim(text.subrange(star_strip_start(text), text.len() as int))
}

/// The first word of `t` and, behind it, the rest with leading whitespace
/// dropped.
pub open spec fn first_word(t: Seq<char>) -> Seq<char> {
    t.subrange(0, next_ws(t, 0))
}

pub open spec fn after_first_word(t: Seq<char>) -> Seq<char> {
    t.subrange(skip_ws(t, next_ws(t, 0)), t.len() as int)
}

/// The outline number of the first word: the word without trailing `.`,
/// `)`, `:`.
pub open spec fn outline_number(t: Seq<char>) -> Seq<char> {
    crate::captions::trim_end_matching(first_word(t), crate::captions::outline_punct_class())
}

/// A short standalone numbered label (`3. The Remedy`): a number from 1 to
/// 20 closed by punctuation, two to eight words, no closing punctuation, no
/// run-in sentence or dash after the number, and a capital letter first.
pub open spec fn terse_numeric_outline(text: Seq<char>) -> bool {
    let t = outline_body(text);
    let m = outline_number(t);
    let rest = after_first_word(t);
    &&& parse_u16(m) matches Some(v) && 1 <= v <= 20
    &&& m.len() != first_word(t).len()
    &&& 2 <= token_ranges(t).len() <= 8
    &&& !(t.len() > 0 && label_end_punct(t.last()))
    &&& !crate::text::contains_seq(rest, ". "@)
    &&& !crate::text::contains_seq(rest, "\u{2014}"@)
    &&& !crate::text::contains_seq(rest, "\u{2013}"@)
    &&& first_alpha_upper(rest, 0)
}

/// A short lowercase lettered label (`a. The Scope of Review`) of a row
/// without note numbers: one lowercase letter closed by punctuation, three
/// to twelve words, no closing punctuation, and title case.
pub open spec fn terse_lowercase_lettered(r: crate::types::LiquidSourceLineRef) -> bool {
    let t = outline_body(r.text@);
    let m = outline_number(t);
    &&& r.note_markers@.len() == 0
    &&& m.len() == 1
    &&& is_ascii_lower(m[0])
    &&& m.len() != first_word(t).len()
    &&& 3 <= token_ranges(t).len() <= 12
    &&& !(t.len() > 0 && label_end_punct(t.last()))
    &&& title_case_outline_spec(t)
}

/// The trimmed body, its first word's end and the rest's start.
fn outline_parts(text: &str) -> (r: (Vec<char>, usize, usize))
    ensures
        r.0@ == outline_body(text@),
        r.1 == next_ws(r.0@, 0),
        r.2 == skip_ws(r.0@, r.1 as int),
        r.1 <= r.2 <= r.0@.len(),
{
    let st = lm2_strip_leading_star_pagination(text);
    let cs = chars_vec(st);
    let (a, b) = crate::text::trim_bounds(cs.as_slice());
    let t = crate::text::copy_range(cs.as_slice(), a, b);
    let e = next_whitespace(t.as_slice(), 0);
    proof {
        lemma_next_ws_bounds(t@, 0);
    }
    let r0 = skip_whitespace(t.as_slice(), e);
    proof {
        lemma_skip_ws_bounds(t@, e as int);
    }
    (t, e, r0)
}

/// Whether the text is a short standalone numbered label.
pub fn lm2_terse_numeric_outline_text(text: &str) -> (r: bool)
    ensures r == terse_numeric_outline(text@),
{
    let (t, e, r0) = outline_parts(text);
    let ts = t.as_slice();
    let m = crate::captions::trim_class(ts, 0, e, crate::captions::TrimClass::OutlinePunct, false);
    assert(ts@.subrange(0, e as int) == first_word(t@));
    let number_ok = match crate::text::parse_u16_str(m.as_slice()) {
        Some(v) => 1 <= v && v <= 20,
        None => false,
    };
    if !number_ok || m.len() == e {
        return false;
    }
    let words = token_ranges_exec(ts).len();
    if words < 2 || words > 8 {
        return false;
    }
    if t.len() > 0 {
        let c = t[t.len() - 1];
        assert(t@.last() == c);
        if c == '.' || c == ',' || c == ';' || c == ':' || c == '?' || c == '!' {
            return false;
        }
    }
    let rest = crate::text::copy_range(ts, r0, t.len());
    let rs = rest.as_slice();
    !crate::text::chars_contain(rs, ". ") && !crate::text::chars_contain(rs, "\u{2014}") && !crate::text::chars_contain(
        rs,
        "\u{2013}",
    ) && first_alpha_is_upper(rs, 0)
}

/// Whether a row without note numbers is a short lowercase lettered label.
pub fn lm2_terse_lowercase_lettered_outline(source: &crate::types::LiquidSourceLineRef) -> (r: bool)
    ensures r == terse_lowercase_lettered(*source),
{
    if source.note_markers.len() != 0 {
        return false;
    }
    let (t, e, _r0) = outline_parts(source.text.as_str());
    let ts = t.as_slice();
    let m = crate::captions::trim_class(ts, 0, e, crate::captions::TrimClass::OutlinePunct, false);
    assert(ts@.subrange(0, e as int) == first_word(t@));
    if m.len() != 1 || !is_ascii_lowercase(m[0]) || m.len() == e {
        return false;
    }
    let words = token_ranges_exec(ts).len();
    if words < 3 || words > 12 {
        return false;
    }
    if t.len() > 0 {
        let c = t[t.len() - 1];
        assert(t@.last() == c);
        if c == '.' || c == ',' || c == ';' || c == ':' || c == '?' || c == '!' {
            return false;
        }
    }
    let body = crate::text::string_of(ts);
    lm2_title_case_numbered_outline(body.as_str())
}

// ---------------------------------------------------------------------------
// Section titles are headings
// ---------------------------------------------------------------------------

/// Every position from `k` on holds a non-whitespace character.
proof fn lemma_next_ws_none(s: Seq<char>, k: int)
    requires
        0 <= k <= s.len(),
        forall|i: int| k <= i < s.len() ==> !is_ws(#[trigger] s[i]),
    ensures next_ws(s, k) == s.len(),
    decreases s.len() - k,
{
    if k < s.len() {
        lemma_next_ws_none(s, k + 1);
    }
}

/// Lowercase ASCII letters, and single spaces between them.
pub open spec fn letters_and_spaces(l: Seq<char>) -> bool {
    forall|i: int| 0 <= i < l.len() ==> is_ascii_lower(#[trigger] l[i]) || l[i] == ' '
}

/// A word of lowercase ASCII letters is its own canonical title.
proof fn lemma_word_tokens(l: Seq<char>, k: int)
    requires
        0 <= k < l.len(),
        forall|i: int| k <= i < l.len() ==> is_ascii_lower(#[trigger] l[i]),
    ensures
        crate::text::token_ranges_from(l, k) == seq![(k, l.len() as int)],
{
    assert(skip_ws(l, k) == k);
    lemma_next_ws_none(l, k);
    assert(crate::text::token_ranges_from(l, l.len() as int) == Seq::<(int, int)>::empty());
}

proof fn lemma_canonical_of_letters(l: Seq<char>)
    requires
        l.len() > 0,
        is_ascii_lower(l[0]),
        is_ascii_lower(l.last()),
        letters_and_spaces(l),
        forall|i: int| 0 <= i < l.len() - 1 ==> !(l[i] == ' ' && #[trigger] l[i + 1] == ' '),
    ensures
        canonical_title(l) == l,
{
    let n = l.len() as int;
    assert(noise_start(l, 0, n) == 0);
    assert(noise_end(l, 0, n) == n);
    assert(l.subrange(0, n) =~= l);
    lemma_join_letters(l, 0);
}

/// From a letter at `k`, the tokens of `l[k..]` joined by single spaces
/// give back `l[k..]`.
proof fn lemma_join_letters(l: Seq<char>, k: int)
    requires
        0 <= k < l.len(),
        is_ascii_lower(l[k]),
        is_ascii_lower(l.last()),
        letters_and_spaces(l),
        forall|i: int| 0 <= i < l.len() - 1 ==> !(l[i] == ' ' && #[trigger] l[i + 1] == ' '),
    ensures
        join_tokens(l, crate::text::token_ranges_from(l, k)) == l.subrange(k, l.len() as int),
        crate::text::token_ranges_from(l, k).len() >= 1,
        crate::text::token_ranges_from(l, k)[0].0 == k,
    decreases l.len() - k,
{
    assert(skip_ws(l, k) == k);
    crate::text::lemma_next_ws_bounds(l, k);
    let e = next_ws(l, k);
    lemma_letters_until_space(l, k);
    if e == l.len() {
        assert(crate::text::token_ranges_from(l, e) == Seq::<(int, int)>::empty());
        assert(crate::text::token_ranges_from(l, k) =~= seq![(k, e)]);
    } else {
        assert(l[e] == ' ');
        assert(e + 1 < l.len());
        assert(is_ascii_lower(l[e + 1]));
        assert(skip_ws(l, e + 1) == e + 1);
        assert(skip_ws(l, e) == e + 1);
        lemma_join_letters(l, e + 1);
        let rest = crate::text::token_ranges_from(l, e + 1);
        assert(crate::text::token_ranges_from(l, e) == rest);
        let all = crate::text::token_ranges_from(l, k);
        assert(all =~= seq![(k, e)] + rest);
        lemma_join_prepend(l, (k, e), rest);
        assert(l.subrange(k, l.len() as int) =~= l.subrange(k, e) + seq![' '] + l.subrange(e + 1, l.len() as int));
    }
}

proof fn lemma_letters_until_space(l: Seq<char>, k: int)
    requires
        0 <= k < l.len(),
        letters_and_spaces(l),
    ensures
        k <= next_ws(l, k) <= l.len(),
        next_ws(l, k) < l.len() ==> l[next_ws(l, k)] == ' ',
    decreases l.len() - k,
{
    crate::text::lemma_next_ws_bounds(l, k);
    if !is_ws(l[k]) && k + 1 < l.len() {
        lemma_letters_until_space(l, k + 1);
    }
    if is_ws(l[k]) {
        assert(l[k] == ' ');
    }
}

/// Joining a first token in front of the rest.
proof fn lemma_join_prepend(l: Seq<char>, first: (int, int), rest: Seq<(int, int)>)
    requires rest.len() >= 1,
    ensures
        join_tokens(l, seq![first] + rest) == l.subrange(first.0, first.1) + seq![' '] + join_tokens(l, rest),
    decreases rest.len(),
{
    let all = seq![first] + rest;
    if rest.len() == 1 {
        assert(all.drop_last() =~= seq![first]);
        assert(all.last() == rest[0]);
        assert(join_tokens(l, seq![first]) == l.subrange(first.0, first.1));
        assert(join_tokens(l, rest) == l.subrange(rest[0].0, rest[0].1));
        assert(join_tokens(l, all) == join_tokens(l, all.drop_last()) + seq![' '] + l.subrange(all.last().0, all.last().1));
    } else {
        lemma_join_prepend(l, first, rest.drop_last());
        assert(all.drop_last() =~= seq![first] + rest.drop_last());
        assert(all.last() == rest.last());
        assert(join_tokens(l, rest) == join_tokens(l, rest.drop_last()) + seq![' '] + l.subrange(
            rest.last().0,
            rest.last().1,
        ));
        assert(join_tokens(l, all) == join_tokens(l, all.drop_last()) + seq![' '] + l.subrange(all.last().0, all.last().1));
        assert(join_tokens(l, all) =~= l.subrange(first.0, first.1) + seq![' '] + join_tokens(l, rest));
    }
}

/// The canonical section titles.
pub open spec fn canonical_section_name(l: Seq<char>) -> bool {
    ||| l == "abstract"@
    ||| l == "acknowledgments"@
    ||| l == "appendix"@
    ||| l == "background"@
    ||| l == "conclusion"@
    ||| l == "discussion"@
    ||| l == "executive summary"@
    ||| l == "findings"@
    ||| l == "introduction"@
    ||| l == "limitations"@
    ||| l == "literature review"@
    ||| l == "methodology"@
    ||| l == "methods"@
    ||| l == "recommendations"@
    ||| l == "references"@
    ||| l == "related work"@
    ||| l == "results"@
}

proof fn lemma_section_names_are_letters(l: Seq<char>)
    requires canonical_section_name(l),
    ensures
        l.len() > 0,
        is_ascii_lower(l[0]),
        is_ascii_lower(l.last()),
        letters_and_spaces(l),
        forall|i: int| 0 <= i < l.len() - 1 ==> !(l[i] == ' ' && #[trigger] l[i + 1] == ' '),
        is_section_title(l),
{
    reveal_strlit("abstract");
    reveal_strlit("acknowledgments");
    reveal_strlit("appendix");
    reveal_strlit("background");
    reveal_strlit("conclusion");
    reveal_strlit("discussion");
    reveal_strlit("executive summary");
    reveal_strlit("findings");
    reveal_strlit("introduction");
    reveal_strlit("limitations");
    reveal_strlit("literature review");
    reveal_strlit("methodology");
    reveal_strlit("methods");
    reveal_strlit("recommendations");
    reveal_strlit("references");
    reveal_strlit("related work");
    reveal_strlit("results");
}

/// A line that reads, in any ASCII letter case, as one of the canonical
/// section titles (abstract, acknowledgments, appendix, background,
/// conclusion, discussion, executive summary, findings, introduction,
/// limitations, literature review, methodology, methods, recommendations,
/// references, related work, results) and opens with an uppercase letter is
/// a heading.
pub proof fn lemma_section_titles_are_headings(s: Seq<char>)
    requires
        canonical_section_name(s.map_values(|c: char| ascii_lower_of(c))),
        unicode_alphabetic(s[0]),
        unicode_uppercase(s[0]),
    ensures
        outline_heading_role_spec(s) == Some(LiquidBlockRole::Heading),
{
    let l = s.map_values(|c: char| ascii_lower_of(c));
    lemma_section_names_are_letters(l);
    assert(l[0] == ascii_lower_of(s[0]));
    assert(!is_ws(s[0]) && s[0] != '*');
    assert(skip_ws(s, 0) == 0);
    assert(star_strip_start(s) == 0);
    let t = s.subrange(0, s.len() as int);
    assert(t =~= s);
    assert(t.map_values(|c: char| ascii_lower_of(c)) =~= l);
    lemma_canonical_of_letters(l);
    assert(crate::text::first_alpha_from(t, 0) == Some(0int));
}

} // verus!
