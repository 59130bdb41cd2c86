//! Note markers in line text: encoded callout sentinels, whitespace-separated
//! ASCII callouts, numbered note heads and note numbers in link texts.
use vstd::prelude::*;
use crate::text::{
    decimal_digits, occurs_at, occurs_at_exec, u16_to_chars,
    all_digits, back_whitespace, back_ws, char_is_alphabetic, chars_vec, digit_value,
    digits_u16, digits_value, find_char, find_char_from, is_ascii_digit, is_ascii_whitespace,
    is_ascii_ws, is_digit, is_whitespace, is_ws, lemma_back_ws_bounds, lemma_find_char_from,
    lemma_skip_ws_bounds, parse_u16, parse_u16_range, parse_u16_str, skip_whitespace, skip_ws,
    trim, trim_bounds, trim_start, unicode_alphabetic,
};
use crate::types::{CALLOUT_END, CALLOUT_START, LM2_MAX_NOTE_MARKER, Lm2AsciiCalloutCandidate};

verus! {

// ---------------------------------------------------------------------------
// Specifications
// ---------------------------------------------------------------------------

/// `s` starts with an encoded callout `START d..d END` of one to four ASCII
/// digits; the result is the position just past `END`.
pub open spec fn callout_marker_end(s: Seq<char>) -> Option<int> {
    if s.len() > 0 && s[0] == CALLOUT_START {
        match find_char_from(s, CALLOUT_END, 1) {
            Some(e) => {
                let d = s.subrange(1, e);
                if d.len() == 0 || d.len() > 4 || !all_digits(d) {
                    None
                } else {
                    Some(e + 1)
                }
            },
            None => None,
        }
    } else {
        None
    }
}

pub open spec fn in_note_range(m: u16) -> bool {
    1 <= m && m <= LM2_MAX_NOTE_MARKER
}

/// Note number of an encoded callout that opens the (left-trimmed) text.
pub open spec fn leading_marker_spec(s: Seq<char>) -> Option<u16> {
    let t = trim_start(s);
    match callout_marker_end(t) {
        Some(e) => match parse_u16(t.subrange(1, e - 1)) {
            Some(m) => if in_note_range(m) { Some(m) } else { None },
            None => None,
        },
        None => None,
    }
}

pub open spec fn standalone_callout_spec(s: Seq<char>) -> bool {
    let t = trim(s);
    (parse_u16(t) matches Some(m) && m <= LM2_MAX_NOTE_MARKER)
        || callout_marker_end(t) == Some(t.len() as int)
}

/// Characters after which a note head or callout may follow a sentence.
pub open spec fn is_sentence_close(c: char) -> bool {
    c == '.' || c == '?' || c == '!' || c == ')' || c == ']'
}

/// The text before position `k` is blank, or its last visible character
/// closes a sentence.
pub open spec fn head_boundary_before(s: Seq<char>, k: int) -> bool {
    let b = back_ws(s, k);
    b == 0 || is_sentence_close(s[b - 1])
}

/// Encoded note heads in context, scanning sentinels from `c`.
pub open spec fn sentinel_heads_from(s: Seq<char>, c: int) -> Seq<u16>
    decreases s.len() - c,
{
    if c < 0 || c >= s.len() {
        Seq::empty()
    } else {
        match find_char_from(s, CALLOUT_START, c) {
            None => Seq::empty(),
            Some(st) => match find_char_from(s, CALLOUT_END, st + 1) {
                None => Seq::empty(),
                Some(e) => {
                    proof {
                        lemma_find_char_from(s, CALLOUT_START, c);
                        lemma_find_char_from(s, CALLOUT_END, st + 1);
                    }
                    let rest = sentinel_heads_from(s, e + 1);
                    let after_is_space = e + 1 < s.len() && is_ws(s[e + 1]);
                    match parse_u16(s.subrange(st + 1, e)) {
                        Some(m) => if head_boundary_before(s, st) && after_is_space
                            && in_note_range(m) {
                            seq![m] + rest
                        } else {
                            rest
                        },
                        None => rest,
                    }
                },
            },
        }
    }
}

/// End of the run of ASCII digits that starts at `k`.
pub open spec fn digit_run_end(s: Seq<char>, k: int) -> int
    decreases s.len() - k,
{
    if k < 0 || k >= s.len() {
        if k < 0 { 0 } else { s.len() as int }
    } else if is_digit(s[k]) {
        digit_run_end(s, k + 1)
    } else {
        k
    }
}

pub open spec fn is_callout_punct(c: char) -> bool {
    c == '.' || c == '?' || c == '!' || c == ';' || c == ':' || c == ',' || c == ')' || c == ']'
}

/// Whether a whitespace-separated ASCII callout starts at `k`.
pub open spec fn ascii_callout_at(s: Seq<char>, k: int) -> bool {
    let e = digit_run_end(s, k);
    let b = back_ws(s, k);
    let leading = b == 0;
    let punctuated = b > 0 && is_callout_punct(s[b - 1]);
    let p = skip_ws(s, e);
    let prose = p < s.len() && unicode_alphabetic(s[p]);
    &&& 0 <= k < s.len()
    &&& is_digit(s[k])
    &&& (k == 0 || is_ascii_ws(s[k - 1]))
    &&& e - k <= 3
    &&& 1 <= digits_value(s.subrange(k, e)) <= LM2_MAX_NOTE_MARKER
    &&& (e == s.len() || is_ascii_ws(s[e]))
    &&& ((leading && prose) || punctuated)
}

pub open spec fn ascii_callout_candidate(s: Seq<char>, k: int) -> Lm2AsciiCalloutCandidate {
    let e = digit_run_end(s, k);
    Lm2AsciiCalloutCandidate {
        start: k as usize,
        end: e as usize,
        marker: digits_value(s.subrange(k, e)) as u16,
        leading: back_ws(s, k) == 0,
    }
}

/// The ASCII callout candidates at positions `k..`, in text order.
pub open spec fn ascii_callouts_from(s: Seq<char>, k: int) -> Seq<Lm2AsciiCalloutCandidate>
    decreases s.len() - k,
{
    if k < 0 || k >= s.len() {
        Seq::empty()
    } else if ascii_callout_at(s, k) {
        seq![ascii_callout_candidate(s, k)] + ascii_callouts_from(s, k + 1)
    } else {
        ascii_callouts_from(s, k + 1)
    }
}

/// Whether a numbered note head (`N.`, `N)` or `N]`) opens at `k`.
pub open spec fn numeric_head_at(s: Seq<char>, k: int) -> bool {
    let e = digit_run_end(s, k);
    let at_start = back_ws(s, k) == 0;
    &&& 0 <= k < s.len()
    &&& is_digit(s[k])
    &&& (k == 0 || is_ws(s[k - 1]))
    &&& e - k <= 3
    &&& e < s.len()
    &&& (s[e] == '.' || s[e] == ')' || s[e] == ']')
    &&& (e + 1 >= s.len() || is_ws(s[e + 1]))
    &&& (at_start || skip_ws(s, e + 1) < s.len())
    &&& (at_start || head_boundary_before(s, k))
    &&& in_note_range(digits_value(s.subrange(k, e)) as u16)
}

/// Numbered note heads at positions `k..`, in text order.
pub open spec fn numeric_heads_from(s: Seq<char>, k: int) -> Seq<u16>
    decreases s.len() - k,
{
    if k < 0 || k >= s.len() {
        Seq::empty()
    } else if numeric_head_at(s, k) {
        seq![digits_value(s.subrange(k, digit_run_end(s, k))) as u16] + numeric_heads_from(s, k + 1)
    } else {
        numeric_heads_from(s, k + 1)
    }
}

/// Strictly increasing: sorted with no repeats.
pub open spec fn strictly_sorted(v: Seq<u16>) -> bool {
    forall|i: int, j: int| 0 <= i < j < v.len() ==> v[i] < v[j]
}

pub open spec fn pow10(n: nat) -> int
    decreases n,
{
    if n == 0 { 1 } else { 10 * pow10((n - 1) as nat) }
}

// ---------------------------------------------------------------------------
// Lemmas
// ---------------------------------------------------------------------------

pub proof fn lemma_digits_value_bound(s: Seq<char>)
    requires all_digits(s),
    ensures 0 <= digits_value(s) < pow10(s.len()),
    decreases s.len(),
{
    if s.len() > 0 {
        let t = s.drop_last();
        lemma_digits_value_bound(t);
        let a = digits_value(t);
        let p = pow10(t.len());
        let d = digit_value(s.last());
        assert(is_digit(s[s.len() - 1]));
        assert(0 <= d <= 9);
        assert(a * 10 + d < p * 10) by (nonlinear_arith)
            requires 0 <= a < p, 0 <= d <= 9;
    }
}

pub proof fn lemma_digit_run_end(s: Seq<char>, k: int)
    requires 0 <= k <= s.len(),
    ensures
        k <= digit_run_end(s, k) <= s.len(),
        forall|i: int| k <= i < digit_run_end(s, k) ==> is_digit(#[trigger] s[i]),
        digit_run_end(s, k) < s.len() ==> !is_digit(s[digit_run_end(s, k)]),
    decreases s.len() - k,
{
    if k < s.len() && is_digit(s[k]) {
        lemma_digit_run_end(s, k + 1);
    }
}

proof fn lemma_run_all_digits(s: Seq<char>, k: int)
    requires 0 <= k <= s.len(),
    ensures all_digits(s.subrange(k, digit_run_end(s, k))),
{
    lemma_digit_run_end(s, k);
    let e = digit_run_end(s, k);
    let d = s.subrange(k, e);
    assert forall|i: int| 0 <= i < d.len() implies is_digit(#[trigger] d[i]) by {
        assert(d[i] == s[k + i]);
    }
}

pub proof fn lemma_contains_push<T>(s: Seq<T>, x: T)
    ensures forall|m: T| s.push(x).contains(m) <==> (s.contains(m) || m == x),
{
    assert forall|m: T| s.push(x).contains(m) <==> (s.contains(m) || m == x) by {
        if s.push(x).contains(m) {
            let j = choose|j: int| 0 <= j < s.push(x).len() && s.push(x)[j] == m;
            if j < s.len() {
                assert(s[j] == m);
            }
        }
        if s.contains(m) {
            let j = choose|j: int| 0 <= j < s.len() && s[j] == m;
            assert(s.push(x)[j] == m);
        }
        if m == x {
            assert(s.push(x)[s.len() as int] == m);
        }
    }
}

// ---------------------------------------------------------------------------
// Executable helpers
// ---------------------------------------------------------------------------

/// Executable `digit_run_end`.
pub fn digit_run_end_exec(cs: &[char], k: usize) -> (r: usize)
    requires k <= cs@.len(),
    ensures r == digit_run_end(cs@, k as int),
{
    let mut i = k;
    while i < cs.len() && is_ascii_digit(cs[i])
        invariant
            k <= i <= cs@.len(),
            digit_run_end(cs@, i as int) == digit_run_end(cs@, k as int),
        decreases cs.len() - i,
    {
        i += 1;
    }
    i
}

/// Value of the digit run `cs[k..e]` of at most four digits.
fn short_digits_value(cs: &[char], k: usize, e: usize) -> (r: u16)
    requires
        k <= e <= cs@.len(),
        e - k <= 4,
        all_digits(cs@.subrange(k as int, e as int)),
    ensures r == digits_value(cs@.subrange(k as int, e as int)),
{
    proof {
        let d = cs@.subrange(k as int, e as int);
        lemma_digits_value_bound(d);
        assert(pow10(d.len()) <= 10000) by {
            reveal_with_fuel(pow10, 5);
        }
    }
    match digits_u16(cs, k, e) {
        Some(v) => v,
        None => 0,
    }
}

pub fn head_boundary_before_exec(cs: &[char], k: usize) -> (r: bool)
    requires k <= cs@.len(),
    ensures r == head_boundary_before(cs@, k as int),
{
    let b = back_whitespace(cs, k);
    proof {
        lemma_back_ws_bounds(cs@, k as int);
    }
    if b == 0 {
        return true;
    }
    let c = cs[b - 1];
    c == '.' || c == '?' || c == '!' || c == ')' || c == ']'
}

/// Inserts `m` into the strictly increasing vector `v`, keeping it strictly
/// increasing (a no-op when `m` is already present).
pub fn insert_sorted_unique(v: &mut Vec<u16>, m: u16)
    requires strictly_sorted(old(v)@),
    ensures
        strictly_sorted(final(v)@),
        forall|x: u16| final(v)@.contains(x) <==> (old(v)@.contains(x) || x == m),
{
    let mut i: usize = 0;
    while i < v.len() && v[i] < m
        invariant
            i <= v@.len(),
            v@ == old(v)@,
            strictly_sorted(v@),
            forall|j: int| 0 <= j < i ==> v@[j] < m,
        decreases v.len() - i,
    {
        i += 1;
    }
    if i < v.len() && v[i] == m {
        proof {
            assert(v@[i as int] == m);
            assert(v@.contains(m));
        }
        return;
    }
    let ghost before = v@;
    assert(before == old(v)@);
    v.insert(i, m);
    proof {
        assert(v@ == before.insert(i as int, m));
        assert forall|x: u16| #[trigger] v@.contains(x) <==> (old(v)@.contains(x) || x == m) by {
            if v@.contains(x) {
                let j = choose|j: int| 0 <= j < v@.len() && v@[j] == x;
                if j < i {
                    assert(before[j] == x);
                } else if j > i {
                    assert(before[j - 1] == x);
                }
            }
            if before.contains(x) {
                let j = choose|j: int| 0 <= j < before.len() && before[j] == x;
                if j < i {
                    assert(v@[j] == x);
                } else {
                    assert(v@[j + 1] == x);
                }
            }
            if x == m {
                assert(v@[i as int] == m);
            }
        }
    }
}

// ---------------------------------------------------------------------------
// Encoded callouts
// ---------------------------------------------------------------------------

fn callout_marker_end_chars(cs: &[char]) -> (r: Option<usize>)
    ensures
        match r {
            Some(e) => callout_marker_end(cs@) == Some(e as int),
            None => callout_marker_end(cs@) is None,
        },
{
    if cs.len() == 0 || cs[0] != CALLOUT_START {
        return None;
    }
    let e = match find_char(cs, CALLOUT_END, 1) {
        Some(e) => e,
        None => return None,
    };
    proof {
        lemma_find_char_from(cs@, CALLOUT_END, 1);
    }
    if e == 1 || e - 1 > 4 {
        return None;
    }
    let mut k: usize = 1;
    while k < e
        invariant
            1 <= k <= e < cs@.len(),
            cs@[0] == CALLOUT_START,
            find_char_from(cs@, CALLOUT_END, 1) == Some(e as int),
            2 <= e <= 5,
            forall|m: int| 1 <= m < k ==> is_digit(#[trigger] cs@[m]),
        decreases e - k,
    {
        if !is_ascii_digit(cs[k]) {
            proof {
                assert(!is_digit(cs@.subrange(1, e as int)[k - 1]));
            }
            return None;
        }
        k += 1;
    }
    proof {
        let d = cs@.subrange(1, e as int);
        assert forall|m: int| 0 <= m < d.len() implies is_digit(#[trigger] d[m]) by {
            assert(d[m] == cs@[m + 1]);
        }
    }
    Some(e + 1)
}

/// Length of the encoded callout that opens `text` (`START d..d END`, one to
/// four ASCII digits), in characters.
pub fn leading_callout_marker_end(text: &str) -> (r: Option<usize>)
    ensures
        match r {
            Some(e) => callout_marker_end(text@) == Some(e as int),
            None => callout_marker_end(text@) is None,
        },
{
    let cs = chars_vec(text);
    callout_marker_end_chars(cs.as_slice())
}

/// Note number of an encoded callout at the start of the left-trimmed text,
/// when it lies in `1..=LM2_MAX_NOTE_MARKER`.
pub fn leading_sentineled_marker(text: &str) -> (r: Option<u16>)
    ensures r == leading_marker_spec(text@),
{
    let cs = chars_vec(text);
    let start = skip_whitespace(cs.as_slice(), 0);
    proof {
        lemma_skip_ws_bounds(cs@, 0);
    }
    let mut tail: Vec<char> = Vec::new();
    let mut i = start;
    while i < cs.len()
        invariant
            start <= i <= cs@.len(),
            tail@ == cs@.subrange(start as int, i as int),
        decreases cs.len() - i,
    {
        tail.push(cs[i]);
        i += 1;
    }
    let end = match callout_marker_end_chars(tail.as_slice()) {
        Some(e) => e,
        None => return None,
    };
    proof {
        lemma_find_char_from(tail@, CALLOUT_END, 1);
    }
    match parse_u16_range(tail.as_slice(), 1, end - 1) {
        Some(m) => {
            if 1 <= m && m <= LM2_MAX_NOTE_MARKER {
                Some(m)
            } else {
                None
            }
        },
        None => None,
    }
}

/// The trimmed text is nothing but a note number (an in-range ASCII number
/// or one encoded callout).
pub fn lm2_standalone_callout_block(text: &str) -> (r: bool)
    ensures r == standalone_callout_spec(text@),
{
    let cs = chars_vec(text);
    let (a, b) = trim_bounds(cs.as_slice());
    let mut t: Vec<char> = Vec::new();
    let mut i = a;
    while i < b
        invariant
            a <= i <= b <= cs@.len(),
            t@ == cs@.subrange(a as int, i as int),
        decreases b - i,
    {
        t.push(cs[i]);
        i += 1;
    }
    let numeric = match parse_u16_str(t.as_slice()) {
        Some(m) => m <= LM2_MAX_NOTE_MARKER,
        None => false,
    };
    if numeric {
        return true;
    }
    match callout_marker_end_chars(t.as_slice()) {
        Some(e) => e == t.len(),
        None => false,
    }
}

/// Encoded note heads that a marginalia row carries in context: the sentinel
/// opens the text or follows sentence punctuation, and is followed by a
/// space.
pub fn sentineled_note_head_markers_in_context(text: &str) -> (r: Vec<u16>)
    ensures r@ == sentinel_heads_from(text@, 0),
{
    let cs = chars_vec(text);
    let s = cs.as_slice();
    let mut markers: Vec<u16> = Vec::new();
    let mut cursor: usize = 0;
    if cs.len() == 0 {
        return markers;
    }
    while cursor < s.len()
        invariant
            cursor <= s@.len(),
            s@ == text@,
            s@.len() > 0,
            markers@ + sentinel_heads_from(s@, cursor as int) == sentinel_heads_from(s@, 0),
        decreases s.len() - cursor,
    {
        let ghost c0 = cursor as int;
        let st = match find_char(s, CALLOUT_START, cursor) {
            Some(st) => st,
            None => {
                proof {
                    assert(sentinel_heads_from(s@, c0) == Seq::<u16>::empty());
                    assert(markers@ + Seq::<u16>::empty() =~= markers@);
                }
                return markers;
            },
        };
        proof {
            lemma_find_char_from(s@, CALLOUT_START, c0);
        }
        let e = match find_char(s, CALLOUT_END, st + 1) {
            Some(e) => e,
            None => {
                proof {
                    assert(sentinel_heads_from(s@, c0) == Seq::<u16>::empty());
                    assert(markers@ + Seq::<u16>::empty() =~= markers@);
                }
                return markers;
            },
        };
        proof {
            lemma_find_char_from(s@, CALLOUT_END, (st + 1) as int);
        }
        let after_is_space = e + 1 < s.len() && is_whitespace(s[e + 1]);
        let boundary = head_boundary_before_exec(s, st);
        let ghost rest = sentinel_heads_from(s@, e + 1);
        match parse_u16_range(s, st + 1, e) {
            Some(m) => {
                if boundary && after_is_space && 1 <= m && m <= LM2_MAX_NOTE_MARKER {
                    proof {
                        assert(sentinel_heads_from(s@, c0) == seq![m] + rest);
                        assert(markers@.push(m) + rest =~= markers@ + (seq![m] + rest));
                    }
                    markers.push(m);
                } else {
                    proof {
                        assert(sentinel_heads_from(s@, c0) == rest);
                    }
                }
            },
            None => {
                proof {
                    assert(sentinel_heads_from(s@, c0) == rest);
                }
            },
        }
        cursor = e + 1;
    }
    proof {
        assert(sentinel_heads_from(s@, cursor as int) == Seq::<u16>::empty());
        assert(markers@ + Seq::<u16>::empty() =~= markers@);
    }
    markers
}

/// Whitespace-separated ASCII body callouts (`... sentence. 12 Next ...` or a
/// leading `12 Prose`), one to three digits in `1..=LM2_MAX_NOTE_MARKER`, in
/// text order.
pub fn lm2_local_ascii_callout_candidates(text: &str) -> (r: Vec<Lm2AsciiCalloutCandidate>)
    ensures r@ == ascii_callouts_from(text@, 0),
{
    let cs = chars_vec(text);
    let s = cs.as_slice();
    let mut out: Vec<Lm2AsciiCalloutCandidate> = Vec::new();
    let mut k: usize = 0;
    while k < s.len()
        invariant
            k <= s@.len(),
            s@ == text@,
            out@ + ascii_callouts_from(s@, k as int) == ascii_callouts_from(s@, 0),
        decreases s.len() - k,
    {
        let ghost rest = ascii_callouts_from(s@, k + 1);
        let found = ascii_callout_at_exec(s, k);
        if found {
            let e = digit_run_end_exec(s, k);
            proof {
                lemma_digit_run_end(s@, k as int);
                lemma_run_all_digits(s@, k as int);
            }
            let marker = short_digits_value(s, k, e);
            let leading = back_whitespace(s, k) == 0;
            let cand = Lm2AsciiCalloutCandidate { start: k, end: e, marker, leading };
            proof {
                assert(cand == ascii_callout_candidate(s@, k as int));
                assert(ascii_callouts_from(s@, k as int) == seq![cand] + rest);
                assert(out@.push(cand) + rest =~= out@ + (seq![cand] + rest));
            }
            out.push(cand);
        }
        k += 1;
    }
    proof {
        assert(out@ + Seq::<Lm2AsciiCalloutCandidate>::empty() =~= out@);
    }
    out
}

fn ascii_callout_at_exec(s: &[char], k: usize) -> (r: bool)
    requires k < s@.len(),
    ensures r == ascii_callout_at(s@, k as int),
{
    if !is_ascii_digit(s[k]) || (k > 0 && !is_ascii_whitespace(s[k - 1])) {
        return false;
    }
    let e = digit_run_end_exec(s, k);
    proof {
        lemma_digit_run_end(s@, k as int);
        lemma_run_all_digits(s@, k as int);
    }
    if e - k > 3 {
        return false;
    }
    let marker = short_digits_value(s, k, e);
    if marker < 1 || marker > LM2_MAX_NOTE_MARKER {
        return false;
    }
    if e < s.len() && !is_ascii_whitespace(s[e]) {
        return false;
    }
    let b = back_whitespace(s, k);
    proof {
        lemma_back_ws_bounds(s@, k as int);
    }
    let leading = b == 0;
    let punctuated = b > 0 && {
        let c = s[b - 1];
        c == '.' || c == '?' || c == '!' || c == ';' || c == ':' || c == ',' || c == ')'
            || c == ']'
    };
    let p = skip_whitespace(s, e);
    proof {
        lemma_skip_ws_bounds(s@, e as int);
    }
    let prose = p < s.len() && char_is_alphabetic(s[p]);
    (leading && prose) || punctuated
}

fn numeric_head_at_exec(s: &[char], k: usize) -> (r: bool)
    requires k < s@.len(),
    ensures r == numeric_head_at(s@, k as int),
{
    if !is_ascii_digit(s[k]) || (k > 0 && !is_whitespace(s[k - 1])) {
        return false;
    }
    let e = digit_run_end_exec(s, k);
    proof {
        lemma_digit_run_end(s@, k as int);
        lemma_run_all_digits(s@, k as int);
    }
    if e - k > 3 || e >= s.len() {
        return false;
    }
    let p = s[e];
    if !(p == '.' || p == ')' || p == ']') {
        return false;
    }
    if e + 1 < s.len() && !is_whitespace(s[e + 1]) {
        return false;
    }
    let at_start = back_whitespace(s, k) == 0;
    if !at_start && skip_whitespace(s, e + 1) >= s.len() {
        return false;
    }
    if !(at_start || head_boundary_before_exec(s, k)) {
        return false;
    }
    let marker = short_digits_value(s, k, e);
    1 <= marker && marker <= LM2_MAX_NOTE_MARKER
}

/// Later numbered heads embedded in a marginalia row, together with its
/// encoded heads in context: the sorted set of their note numbers.
pub fn embedded_numeric_note_head_markers(text: &str) -> (r: Vec<u16>)
    ensures
        strictly_sorted(r@),
        forall|m: u16| r@.contains(m) <==> (numeric_heads_from(text@, 0).contains(m)
            || sentinel_heads_from(text@, 0).contains(m)),
        forall|i: int| 0 <= i < r@.len() ==> 1 <= #[trigger] r@[i] <= LM2_MAX_NOTE_MARKER,
{
    let r = embedded_heads_exec(text);
    proof {
        lemma_numeric_heads_in_range(text@, 0);
        lemma_sentinel_heads_in_range(text@, 0);
        assert forall|i: int| 0 <= i < r@.len() implies 1 <= #[trigger] r@[i] <= LM2_MAX_NOTE_MARKER by {
            assert(r@.contains(r@[i]));
        }
    }
    r
}

/// Every numbered note head lies in the note range.
pub proof fn lemma_numeric_heads_in_range(s: Seq<char>, k: int)
    ensures forall|m: u16| #[trigger] numeric_heads_from(s, k).contains(m) ==> in_note_range(m),
    decreases s.len() - k,
{
    if 0 <= k < s.len() {
        lemma_numeric_heads_in_range(s, k + 1);
        let rest = numeric_heads_from(s, k + 1);
        if numeric_head_at(s, k) {
            let h = digits_value(s.subrange(k, digit_run_end(s, k))) as u16;
            assert forall|m: u16| #[trigger] (seq![h] + rest).contains(m) implies in_note_range(m) by {
                let j = choose|j: int| 0 <= j < (seq![h] + rest).len() && (seq![h] + rest)[j] == m;
                if j > 0 {
                    assert(rest[j - 1] == m);
                    assert(rest.contains(m));
                }
            }
        }
    }
}

/// Every encoded note head lies in the note range.
pub proof fn lemma_sentinel_heads_in_range(s: Seq<char>, c: int)
    ensures forall|m: u16| #[trigger] sentinel_heads_from(s, c).contains(m) ==> in_note_range(m),
    decreases s.len() - c,
{
    if 0 <= c < s.len() {
        match find_char_from(s, CALLOUT_START, c) {
            None => {},
            Some(st) => match find_char_from(s, CALLOUT_END, st + 1) {
                None => {},
                Some(e) => {
                    lemma_find_char_from(s, CALLOUT_START, c);
                    lemma_find_char_from(s, CALLOUT_END, st + 1);
                    lemma_sentinel_heads_in_range(s, e + 1);
                    let rest = sentinel_heads_from(s, e + 1);
                    match parse_u16(s.subrange(st + 1, e)) {
                        Some(h) => {
                            assert forall|m: u16| #[trigger] (seq![h] + rest).contains(m) && in_note_range(h)
                                implies in_note_range(m) by {
                                let j = choose|j: int| 0 <= j < (seq![h] + rest).len() && (seq![h] + rest)[j] == m;
                                if j > 0 {
                                    assert(rest[j - 1] == m);
                                    assert(rest.contains(m));
                                }
                            }
                        },
                        None => {},
                    }
                },
            },
        }
    }
}

fn embedded_heads_exec(text: &str) -> (r: Vec<u16>)
    ensures
        strictly_sorted(r@),
        forall|m: u16| r@.contains(m) <==> (numeric_heads_from(text@, 0).contains(m)
            || sentinel_heads_from(text@, 0).contains(m)),
{
    let cs = chars_vec(text);
    let s = cs.as_slice();
    let mut numeric: Vec<u16> = Vec::new();
    let mut k: usize = 0;
    while k < s.len()
        invariant
            k <= s@.len(),
            s@ == text@,
            numeric@ + numeric_heads_from(s@, k as int) == numeric_heads_from(s@, 0),
        decreases s.len() - k,
    {
        let ghost rest = numeric_heads_from(s@, k + 1);
        if numeric_head_at_exec(s, k) {
            let e = digit_run_end_exec(s, k);
            proof {
                lemma_digit_run_end(s@, k as int);
                lemma_run_all_digits(s@, k as int);
            }
            let m = short_digits_value(s, k, e);
            proof {
                assert(numeric_heads_from(s@, k as int) == seq![m] + rest);
                assert(numeric@.push(m) + rest =~= numeric@ + (seq![m] + rest));
            }
            numeric.push(m);
        }
        k += 1;
    }
    proof {
        assert(numeric@ + Seq::<u16>::empty() =~= numeric@);
    }
    let sentineled = sentineled_note_head_markers_in_context(text);
    let mut out: Vec<u16> = Vec::new();
    proof {
        assert(numeric@.take(0) =~= Seq::<u16>::empty());
    }
    let mut i: usize = 0;
    while i < numeric.len()
        invariant
            i <= numeric@.len(),
            strictly_sorted(out@),
            forall|m: u16| out@.contains(m) <==> numeric@.take(i as int).contains(m),
        decreases numeric.len() - i,
    {
        insert_sorted_unique(&mut out, numeric[i]);
        proof {
            let t = numeric@.take(i as int);
            assert(numeric@.take(i + 1) =~= t.push(numeric@[i as int]));
            lemma_contains_push(t, numeric@[i as int]);
            assert forall|m: u16| out@.contains(m) <==> numeric@.take(i + 1).contains(m) by {
                assert(t.push(numeric@[i as int]).contains(m) <==> (t.contains(m) || m
                    == numeric@[i as int]));
            }
        }
        i += 1;
    }
    proof {
        assert(numeric@.take(numeric@.len() as int) =~= numeric@);
        assert(sentineled@.take(0) =~= Seq::<u16>::empty());
    }
    let mut j: usize = 0;
    while j < sentineled.len()
        invariant
            j <= sentineled@.len(),
            strictly_sorted(out@),
            forall|m: u16| out@.contains(m) <==> (numeric@.contains(m)
                || sentineled@.take(j as int).contains(m)),
        decreases sentineled.len() - j,
    {
        insert_sorted_unique(&mut out, sentineled[j]);
        proof {
            let t = sentineled@.take(j as int);
            assert(sentineled@.take(j + 1) =~= t.push(sentineled@[j as int]));
            lemma_contains_push(t, sentineled@[j as int]);
            assert forall|m: u16| out@.contains(m) <==> (numeric@.contains(m)
                || sentineled@.take(j + 1).contains(m)) by {
                assert(t.push(sentineled@[j as int]).contains(m) <==> (t.contains(m) || m
                    == sentineled@[j as int]));
            }
        }
        j += 1;
    }
    proof {
        assert(numeric@.take(numeric@.len() as int) =~= numeric@);
        assert(sentineled@.take(sentineled@.len() as int) =~= sentineled@);
    }
    out
}

// ---------------------------------------------------------------------------
// Stripping a leading callout
// ---------------------------------------------------------------------------

/// Where the text after a leading note `marker` starts: after an encoded
/// callout that opens the text and decodes to `marker`, or after `marker` in
/// ASCII digits that open the left-trimmed text and are followed by
/// whitespace; in both cases the remainder is left-trimmed and must not be
/// empty.
pub open spec fn strip_leading_callout_start(s: Seq<char>, marker: u16) -> Option<int> {
    match callout_marker_end(s) {
        Some(e) => match parse_u16(s.subrange(1, e - 1)) {
            Some(d) => if d == marker && skip_ws(s, e) < s.len() {
                Some(skip_ws(s, e))
            } else {
                None
            },
            None => None,
        },
        None => {
            let a = skip_ws(s, 0);
            let d = decimal_digits(marker as nat);
            if occurs_at(s, d, a) && a + d.len() < s.len() && is_ws(s[a + d.len()]) && skip_ws(
                s,
                a + d.len(),
            ) < s.len() {
                Some(skip_ws(s, a + d.len()))
            } else {
                None
            }
        },
    }
}

/// The prose after a leading note `marker` (encoded or in ASCII digits), if
/// the text opens with that marker and has prose after it.
pub fn lm2_strip_leading_ascii_or_decoded_callout(text: &str, marker: u16) -> (r: Option<&str>)
    ensures
        match strip_leading_callout_start(text@, marker) {
            Some(k) => r matches Some(t) && t@ == text@.subrange(k, text@.len() as int),
            None => r is None,
        },
{
    let cs = chars_vec(text);
    let s = cs.as_slice();
    match callout_marker_end_chars(s) {
        Some(end) => {
            proof {
                lemma_find_char_from(s@, CALLOUT_END, 1);
            }
            let decoded = match parse_u16_range(s, 1, end - 1) {
                Some(d) => d,
                None => return None,
            };
            let k = skip_whitespace(s, end);
            proof {
                lemma_skip_ws_bounds(s@, end as int);
            }
            if decoded == marker && k < s.len() {
                Some(text.substring_char(k, s.len()))
            } else {
                None
            }
        },
        None => {
            let a = skip_whitespace(s, 0);
            proof {
                lemma_skip_ws_bounds(s@, 0);
            }
            let digits = u16_to_chars(marker);
            if !occurs_at_exec(s, digits.as_slice(), a) {
                return None;
            }
            let p = a + digits.len();
            if p >= s.len() || !is_whitespace(s[p]) {
                return None;
            }
            let k = skip_whitespace(s, p);
            proof {
                lemma_skip_ws_bounds(s@, p as int);
            }
            if k < s.len() {
                Some(text.substring_char(k, s.len()))
            } else {
                None
            }
        },
    }
}

/// What remains after a stripped marker is prose: it is not empty and does
/// not start with whitespace.
pub proof fn lemma_stripped_callout_remainder(s: Seq<char>, marker: u16)
    ensures
        strip_leading_callout_start(s, marker) matches Some(k) ==> 0 <= k < s.len() && !is_ws(s[k]),
{
    lemma_skip_ws_bounds(s, 0);
    if let Some(e) = callout_marker_end(s) {
        lemma_find_char_from(s, CALLOUT_END, 1);
        if e <= s.len() {
            lemma_skip_ws_bounds(s, e);
        }
    } else {
        let a = skip_ws(s, 0);
        let d = decimal_digits(marker as nat);
        if a + d.len() < s.len() {
            lemma_skip_ws_bounds(s, a + d.len());
        }
    }
}

/// A list of note markers kept strictly increasing is determined by which
/// markers it holds: two such lists with the same markers are equal. Merging
/// the same heads into a row twice therefore leaves the row as merging once.
pub proof fn lemma_strictly_sorted_determined(a: Seq<u16>, b: Seq<u16>)
    requires
        strictly_sorted(a),
        strictly_sorted(b),
        forall|x: u16| a.contains(x) <==> b.contains(x),
    ensures a == b,
    decreases a.len(),
{
    if a.len() == 0 {
        if b.len() > 0 {
            assert(b.contains(b[0]));
        }
        assert(a =~= b);
    } else {
        assert(a.contains(a[0]));
        assert(b.contains(a[0]));
        assert(b.len() > 0);
        assert(b.contains(b[0]));
        assert(a.contains(b[0]));
        let i = choose|i: int| 0 <= i < a.len() && a[i] == b[0];
        let j = choose|j: int| 0 <= j < b.len() && b[j] == a[0];
        assert(a[0] <= a[i]);
        assert(b[0] <= b[j]);
        assert(a[0] == b[0]);
        let ta = a.drop_first();
        let tb = b.drop_first();
        assert forall|x: u16| ta.contains(x) <==> tb.contains(x) by {
            if ta.contains(x) {
                let k = choose|k: int| 0 <= k < ta.len() && ta[k] == x;
                assert(a[k + 1] == x);
                assert(a.contains(x));
                assert(b.contains(x));
                let m = choose|m: int| 0 <= m < b.len() && b[m] == x;
                assert(x > a[0]);
                assert(m != 0);
                assert(tb[m - 1] == x);
            }
            if tb.contains(x) {
                let k = choose|k: int| 0 <= k < tb.len() && tb[k] == x;
                assert(b[k + 1] == x);
                assert(b.contains(x));
                assert(a.contains(x));
                let m = choose|m: int| 0 <= m < a.len() && a[m] == x;
                assert(x > b[0]);
                assert(m != 0);
                assert(ta[m - 1] == x);
            }
        }
        lemma_strictly_sorted_determined(ta, tb);
        assert(a =~= seq![a[0]] + ta);
        assert(b =~= seq![b[0]] + tb);
    }
}

// ---------------------------------------------------------------------------
// Note numbers in a candidate link text
// ---------------------------------------------------------------------------

/// `s[a..b]` is a whole run of ASCII digits: digits throughout, with no
/// digit just before or just after it.
pub open spec fn whole_digit_run(s: Seq<char>, a: int, b: int) -> bool {
    &&& 0 <= a < b <= s.len()
    &&& forall|k: int| a <= k < b ==> is_digit(#[trigger] s[k])
    &&& (a == 0 || !is_digit(s[a - 1]))
    &&& (b == s.len() || !is_digit(s[b]))
}

/// The text carries note number `marker`: among the encoded callouts
/// decoded from it (`sentineled`), or as a whole run of one to three ASCII
/// digits.
pub open spec fn link_text_has_marker(s: Seq<char>, marker: u16, sentineled: Seq<u16>) -> bool {
    ||| sentineled.contains(marker)
    ||| exists|a: int, b: int|
        #[trigger] whole_digit_run(s, a, b) && b - a <= 3 && digits_value(s.subrange(a, b))
            == marker
}

proof fn lemma_whole_run_ends_at_run_end(s: Seq<char>, a: int, b: int)
    requires whole_digit_run(s, a, b),
    ensures b == digit_run_end(s, a),
{
    lemma_digit_run_end(s, a);
    let e = digit_run_end(s, a);
    if b < e {
        assert(is_digit(s[b]));
    } else if b > e {
        assert(is_digit(s[e]));
    }
}

/// Whether a candidate link text carries note number `marker`, given the
/// note numbers of the encoded callouts decoded from it.
pub fn lm2_link_text_contains_marker(text: &str, marker: u16, sentineled: &[u16]) -> (r: bool)
    ensures r == link_text_has_marker(text@, marker, sentineled@),
{
    let mut k: usize = 0;
    while k < sentineled.len()
        invariant
            k <= sentineled@.len(),
            forall|j: int| 0 <= j < k ==> sentineled@[j] != marker,
        decreases sentineled.len() - k,
    {
        if sentineled[k] == marker {
            proof {
                assert(sentineled@[k as int] == marker);
            }
            return true;
        }
        k += 1;
    }
    let cs = chars_vec(text);
    let n = cs.len();
    let ghost s = cs@;
    let mut i: usize = 0;
    while i < n
        invariant
            n == s.len(),
            s == cs@,
            s == text@,
            i <= n,
            !sentineled@.contains(marker),
            i == 0 || i == n || !is_digit(s[i - 1]) || !is_digit(s[i as int]),
            forall|a: int, b: int|
                #[trigger] whole_digit_run(s, a, b) && a < i && b - a <= 3 ==> digits_value(
                    s.subrange(a, b),
                ) != marker,
        decreases n - i,
    {
        if !is_ascii_digit(cs[i]) {
            proof {
                assert forall|a: int, b: int|
                    #[trigger] whole_digit_run(s, a, b) && a < i + 1 && b - a <= 3 implies digits_value(
                        s.subrange(a, b),
                    ) != marker by {
                    if a == i {
                        assert(is_digit(s[a]));
                    }
                }
            }
            i += 1;
        } else {
            let e = digit_run_end_exec(cs.as_slice(), i);
            proof {
                lemma_digit_run_end(s, i as int);
                lemma_run_all_digits(s, i as int);
            }
            if e - i <= 3 {
                let v = short_digits_value(cs.as_slice(), i, e);
                if v == marker {
                    proof {
                        assert(whole_digit_run(s, i as int, e as int));
                    }
                    return true;
                }
            }
            proof {
                assert forall|a: int, b: int|
                    #[trigger] whole_digit_run(s, a, b) && a < e && b - a <= 3 implies digits_value(
                        s.subrange(a, b),
                    ) != marker by {
                    if a >= i {
                        if a > i {
                            assert(is_digit(s[a - 1]));
                        } else {
                            lemma_whole_run_ends_at_run_end(s, a, b);
                        }
                    }
                }
            }
            i = e;
        }
    }
    false
}

/// The (left-trimmed) text opens with the encoded callout of `marker`
/// followed by `.`, `)` or `]` and then whitespace or the end: the shape of
/// an explicit note head.
pub open spec fn explicit_note_head_shape(s: Seq<char>, marker: u16) -> bool {
    let t = trim_start(s);
    match callout_marker_end(t) {
        None => false,
        Some(e) => {
            &&& parse_u16(t.subrange(1, e - 1)) == Some(marker)
            &&& e < t.len()
            &&& (t[e] == '.' || t[e] == ')' || t[e] == ']')
            &&& (e + 1 == t.len() || is_ws(t[e + 1]))
        },
    }
}

/// Whether the text opens like the explicit note head of `marker`.
pub fn lm2_explicit_note_head_shape(text: &str, marker: u16) -> (r: bool)
    ensures r == explicit_note_head_shape(text@, marker),
{
    let cs = chars_vec(text);
    let start = skip_whitespace(cs.as_slice(), 0);
    proof {
        lemma_skip_ws_bounds(cs@, 0);
    }
    let mut tail: Vec<char> = Vec::new();
    let mut i = start;
    while i < cs.len()
        invariant
            start <= i <= cs@.len(),
            tail@ == cs@.subrange(start as int, i as int),
        decreases cs.len() - i,
    {
        tail.push(cs[i]);
        i += 1;
    }
    let end = match callout_marker_end_chars(tail.as_slice()) {
        Some(e) => e,
        None => return false,
    };
    proof {
        lemma_find_char_from(tail@, CALLOUT_END, 1);
    }
    match parse_u16_range(tail.as_slice(), 1, end - 1) {
        Some(m) => {
            if m != marker {
                return false;
            }
        },
        None => return false,
    }
    if end >= tail.len() {
        return false;
    }
    let c = tail[end];
    if !(c == '.' || c == ')' || c == ']') {
        return false;
    }
    end + 1 == tail.len() || is_whitespace(tail[end + 1])
}

proof fn lemma_digit_run_end_at(s: Seq<char>, k: int, e: int)
    requires
        0 <= k <= e <= s.len(),
        forall|x: int| k <= x < e ==> is_digit(#[trigger] s[x]),
        e == s.len() || !is_digit(s[e]),
    ensures digit_run_end(s, k) == e,
    decreases e - k,
{
    if k < e {
        lemma_digit_run_end_at(s, k + 1, e);
    }
}

proof fn lemma_back_ws_at(s: Seq<char>, j: int, k: int)
    requires
        0 <= j < k <= s.len(),
        !is_ws(s[j]),
        forall|x: int| j < x < k ==> is_ws(#[trigger] s[x]),
    ensures back_ws(s, k) == j + 1,
    decreases k - j,
{
    if k > j + 1 {
        lemma_back_ws_at(s, j, k - 1);
    }
}

proof fn lemma_callouts_from_contains(s: Seq<char>, m: int, k: int)
    requires
        0 <= m <= k,
        ascii_callout_at(s, k),
    ensures ascii_callouts_from(s, m).contains(ascii_callout_candidate(s, k)),
    decreases k - m,
{
    if m == k {
        assert(ascii_callouts_from(s, m)[0] == ascii_callout_candidate(s, k));
    } else {
        lemma_callouts_from_contains(s, m + 1, k);
        let rest = ascii_callouts_from(s, m + 1);
        let x = choose|x: int| 0 <= x < rest.len() && rest[x] == ascii_callout_candidate(s, k);
        if ascii_callout_at(s, m) {
            assert(ascii_callouts_from(s, m)[x + 1] == rest[x]);
        }
    }
}

/// A number of one to three ASCII digits, from 1 to `LM2_MAX_NOTE_MARKER`,
/// standing between ASCII whitespace (or the end) and following, after
/// nothing but whitespace, a sentence or clause mark (`.`, `?`, `!`, `;`,
/// `:`, `,`, `)`, `]`), is a body callout candidate: not leading, spanning
/// its digits, with its value as the marker.
pub proof fn lemma_callout_after_clause_mark(s: Seq<char>, j: int, k: int, e: int)
    requires
        0 <= j < k < e <= s.len(),
        e - k <= 3,
        s[j] == '.' || s[j] == '?' || s[j] == '!' || s[j] == ';' || s[j] == ':' || s[j] == ',' || s[j] == ')'
            || s[j] == ']',
        forall|x: int| j < x < k ==> is_ws(#[trigger] s[x]),
        s[k - 1] == ' ' || s[k - 1] == '\t' || s[k - 1] == '\n' || s[k - 1] == '\u{C}' || s[k - 1] == '\r',
        forall|x: int| k <= x < e ==> '0' <= #[trigger] s[x] && s[x] <= '9',
        e == s.len() || s[e] == ' ' || s[e] == '\t' || s[e] == '\n' || s[e] == '\u{C}' || s[e] == '\r',
        1 <= digits_value(s.subrange(k, e)) <= LM2_MAX_NOTE_MARKER,
    ensures
        ascii_callouts_from(s, 0).contains(
            Lm2AsciiCalloutCandidate {
                start: k as usize,
                end: e as usize,
                marker: digits_value(s.subrange(k, e)) as u16,
                leading: false,
            },
        ),
{
    assert forall|x: int| k <= x < e implies is_digit(#[trigger] s[x]) by {}
    lemma_digit_run_end_at(s, k, e);
    if k - 1 > j {
        assert(is_ws(s[k - 1]));
    }
    lemma_back_ws_at(s, j, k);
    assert(ascii_callout_at(s, k));
    lemma_callouts_from_contains(s, 0, k);
}

proof fn lemma_back_ws_all_ws(s: Seq<char>, k: int)
    requires
        0 <= k <= s.len(),
        forall|x: int| 0 <= x < k ==> is_ws(#[trigger] s[x]),
    ensures back_ws(s, k) == 0,
    decreases k,
{
    if k > 0 {
        lemma_back_ws_all_ws(s, k - 1);
    }
}

proof fn lemma_skip_ws_at(s: Seq<char>, e: int, p: int)
    requires
        0 <= e <= p < s.len(),
        !is_ws(s[p]),
        forall|x: int| e <= x < p ==> is_ws(#[trigger] s[x]),
    ensures crate::text::skip_ws(s, e) == p,
    decreases p - e,
{
    if e < p {
        lemma_skip_ws_at(s, e + 1, p);
    }
}

/// A number of one to three ASCII digits, from 1 to `LM2_MAX_NOTE_MARKER`,
/// that opens the line (behind whitespace only) and is followed by ASCII
/// whitespace and then, behind whitespace, a letter, is a leading body
/// callout candidate spanning its digits.
pub proof fn lemma_leading_callout_before_prose(s: Seq<char>, k: int, e: int, p: int)
    requires
        0 <= k < e < p < s.len(),
        e - k <= 3,
        forall|x: int| 0 <= x < k ==> is_ws(#[trigger] s[x]),
        k == 0 || s[k - 1] == ' ' || s[k - 1] == '\t' || s[k - 1] == '\n' || s[k - 1] == '\u{C}' || s[k - 1] == '\r',
        forall|x: int| k <= x < e ==> '0' <= #[trigger] s[x] && s[x] <= '9',
        s[e] == ' ' || s[e] == '\t' || s[e] == '\n' || s[e] == '\u{C}' || s[e] == '\r',
        forall|x: int| e <= x < p ==> is_ws(#[trigger] s[x]),
        unicode_alphabetic(s[p]),
        !is_ws(s[p]),
        1 <= digits_value(s.subrange(k, e)) <= LM2_MAX_NOTE_MARKER,
    ensures
        ascii_callouts_from(s, 0).contains(
            Lm2AsciiCalloutCandidate {
                start: k as usize,
                end: e as usize,
                marker: digits_value(s.subrange(k, e)) as u16,
                leading: true,
            },
        ),
{
    assert forall|x: int| k <= x < e implies is_digit(#[trigger] s[x]) by {}
    lemma_digit_run_end_at(s, k, e);
    lemma_back_ws_all_ws(s, k);
    lemma_skip_ws_at(s, e, p);
    assert(ascii_callout_at(s, k));
    lemma_callouts_from_contains(s, 0, k);
}

} // verus!
