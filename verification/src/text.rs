//! Character classes, trimming, searching and decimal parsing over the
//! character sequence of a line.
//!
//! Every position handled by this crate is a *character* index into the text
//! (the `@` view of a `&str` or `String`), never a byte offset.
use vstd::prelude::*;

verus! {

// ---------------------------------------------------------------------------
// Character classes
// ---------------------------------------------------------------------------

/// `char::is_whitespace`: the Unicode `White_Space` property.
pub open spec fn is_ws(c: char) -> bool {
    ||| ('\u{9}' <= c && c <= '\u{D}')
    ||| c == ' '
    ||| c == '\u{85}'
    ||| c == '\u{A0}'
    ||| c == '\u{1680}'
    ||| ('\u{2000}' <= c && c <= '\u{200A}')
    ||| c == '\u{2028}'
    ||| c == '\u{2029}'
    ||| c == '\u{202F}'
    ||| c == '\u{205F}'
    ||| c == '\u{3000}'
}

/// `char::is_ascii_whitespace` (also `u8::is_ascii_whitespace`).
pub open spec fn is_ascii_ws(c: char) -> bool {
    c == ' ' || c == '\t' || c == '\n' || c == '\u{C}' || c == '\r'
}

pub open spec fn is_digit(c: char) -> bool {
    '0' <= c && c <= '9'
}

pub open spec fn is_ascii_lower(c: char) -> bool {
    'a' <= c && c <= 'z'
}

pub open spec fn is_ascii_upper(c: char) -> bool {
    'A' <= c && c <= 'Z'
}

pub open spec fn is_ascii_alpha(c: char) -> bool {
    is_ascii_lower(c) || is_ascii_upper(c)
}

pub open spec fn is_ascii_alnum(c: char) -> bool {
    is_ascii_alpha(c) || is_digit(c)
}

/// `char::is_ascii_punctuation`.
pub open spec fn is_ascii_punct(c: char) -> bool {
    ||| ('\u{21}' <= c && c <= '\u{2F}')
    ||| ('\u{3A}' <= c && c <= '\u{40}')
    ||| ('\u{5B}' <= c && c <= '\u{60}')
    ||| ('\u{7B}' <= c && c <= '\u{7E}')
}

/// `char::to_ascii_lowercase`.
pub open spec fn ascii_lower_of(c: char) -> char {
    if is_ascii_upper(c) {
        ((c as u32) + 32) as char
    } else {
        c
    }
}

/// Decimal value of an ASCII digit.
pub open spec fn digit_value(c: char) -> int {
    (c as int) - ('0' as int)
}

/// What `char::is_alphabetic` returns (Unicode `Alphabetic`).
pub uninterp spec fn unicode_alphabetic(c: char) -> bool;

/// What `char::is_uppercase` returns (Unicode `Uppercase`).
pub uninterp spec fn unicode_uppercase(c: char) -> bool;

/// What `char::is_lowercase` returns (Unicode `Lowercase`).
pub uninterp spec fn unicode_lowercase(c: char) -> bool;

/// What `char::is_alphanumeric` returns (`Alphabetic` or `Numeric`).
pub uninterp spec fn unicode_alphanumeric(c: char) -> bool;

/// `char::is_alphabetic`. Trusted: the result is the Unicode `Alphabetic`
/// property of `c`; within ASCII that property holds exactly of `A`-`Z` and
/// `a`-`z`, as the Unicode character database shows.
#[verifier::external_body]
pub fn char_is_alphabetic(c: char) -> (r: bool)
    ensures
        r == unicode_alphabetic(c),
        (c as u32) < 128 ==> (r == is_ascii_alpha(c)),
{
    c.is_alphabetic()
}

/// `char::is_uppercase`. Trusted: the result is the Unicode `Uppercase`
/// property of `c`; within ASCII that property holds exactly of `A`-`Z`.
#[verifier::external_body]
pub fn char_is_uppercase(c: char) -> (r: bool)
    ensures
        r == unicode_uppercase(c),
        (c as u32) < 128 ==> (r == is_ascii_upper(c)),
{
    c.is_uppercase()
}

/// `char::is_lowercase`. Trusted: the result is the Unicode `Lowercase`
/// property of `c`; within ASCII that property holds exactly of `a`-`z`.
#[verifier::external_body]
pub fn char_is_lowercase(c: char) -> (r: bool)
    ensures
        r == unicode_lowercase(c),
        (c as u32) < 128 ==> (r == is_ascii_lower(c)),
{
    c.is_lowercase()
}

/// `char::is_alphanumeric`. Trusted: the result is the union of the Unicode
/// `Alphabetic` and `Numeric` properties; within ASCII that is exactly the
/// letters and the digits `0`-`9`.
#[verifier::external_body]
pub fn char_is_alphanumeric(c: char) -> (r: bool)
    ensures
        r == unicode_alphanumeric(c),
        (c as u32) < 128 ==> (r == is_ascii_alnum(c)),
{
    c.is_alphanumeric()
}

pub fn is_whitespace(c: char) -> (r: bool)
    ensures r == is_ws(c),
{
    ('\u{9}' <= c && c <= '\u{D}') || c == ' ' || c == '\u{85}' || c == '\u{A0}'
        || c == '\u{1680}' || ('\u{2000}' <= c && c <= '\u{200A}') || c == '\u{2028}'
        || c == '\u{2029}' || c == '\u{202F}' || c == '\u{205F}' || c == '\u{3000}'
}

pub fn is_ascii_whitespace(c: char) -> (r: bool)
    ensures r == is_ascii_ws(c),
{
    c == ' ' || c == '\t' || c == '\n' || c == '\u{C}' || c == '\r'
}

pub fn is_ascii_digit(c: char) -> (r: bool)
    ensures r == is_digit(c),
{
    '0' <= c && c <= '9'
}

pub fn is_ascii_lowercase(c: char) -> (r: bool)
    ensures r == is_ascii_lower(c),
{
    'a' <= c && c <= 'z'
}

pub fn is_ascii_alphabetic(c: char) -> (r: bool)
    ensures r == is_ascii_alpha(c),
{
    ('a' <= c && c <= 'z') || ('A' <= c && c <= 'Z')
}

pub fn is_ascii_alphanumeric(c: char) -> (r: bool)
    ensures r == is_ascii_alnum(c),
{
    ('a' <= c && c <= 'z') || ('A' <= c && c <= 'Z') || ('0' <= c && c <= '9')
}

pub fn is_ascii_punctuation(c: char) -> (r: bool)
    ensures r == is_ascii_punct(c),
{
    ('\u{21}' <= c && c <= '\u{2F}') || ('\u{3A}' <= c && c <= '\u{40}')
        || ('\u{5B}' <= c && c <= '\u{60}') || ('\u{7B}' <= c && c <= '\u{7E}')
}

// ---------------------------------------------------------------------------
// Conversions between strings and character vectors
// ---------------------------------------------------------------------------

pub fn chars_vec(s: &str) -> (v: Vec<char>)
    ensures v@ == s@,
{
    let mut v: Vec<char> = Vec::new();
    for c in it: s.chars()
        invariant
            v@ == it.seq().take(it.index() as int),
    {
        v.push(c);
    }
    v
}

/// `String::push`. Trusted: appends `c` to the end of `s`.
#[verifier::external_body]
pub fn string_push(s: &mut String, c: char)
    ensures final(s)@ == old(s)@.push(c),
{
    s.push(c);
}

/// The characters `cs[from..to]` as a new `String`.
pub fn string_of_range(cs: &[char], from: usize, to: usize) -> (r: String)
    requires from <= to <= cs@.len(),
    ensures r@ == cs@.subrange(from as int, to as int),
{
    let mut r = String::new();
    let mut i: usize = from;
    while i < to
        invariant
            from <= i <= to <= cs@.len(),
            r@ == cs@.subrange(from as int, i as int),
        decreases to - i,
    {
        string_push(&mut r, cs[i]);
        i += 1;
    }
    r
}

pub fn string_of(cs: &[char]) -> (r: String)
    ensures r@ == cs@,
{
    string_of_range(cs, 0, cs.len())
}

/// A copy of `cs[from..to]`.
pub fn copy_range(cs: &[char], from: usize, to: usize) -> (r: Vec<char>)
    requires from <= to <= cs@.len(),
    ensures r@ == cs@.subrange(from as int, to as int),
{
    let mut r: Vec<char> = Vec::new();
    let mut i = from;
    while i < to
        invariant
            from <= i <= to <= cs@.len(),
            r@ == cs@.subrange(from as int, i as int),
        decreases to - i,
    {
        r.push(cs[i]);
        i += 1;
    }
    r
}

// ---------------------------------------------------------------------------
// Trimming
// ---------------------------------------------------------------------------

/// Index of the first non-whitespace character at or after `i`
/// (`s.len()` when there is none).
pub open spec fn skip_ws(s: Seq<char>, i: int) -> int
    decreases s.len() - i,
{
    if i < 0 || i >= s.len() {
        if i < 0 { 0 } else { s.len() as int }
    } else if is_ws(s[i]) {
        skip_ws(s, i + 1)
    } else {
        i
    }
}

/// End of `s[..j]` once trailing whitespace is dropped.
pub open spec fn back_ws(s: Seq<char>, j: int) -> int
    decreases j,
{
    if j <= 0 || j > s.len() {
        if j <= 0 { 0 } else { s.len() as int }
    } else if is_ws(s[j - 1]) {
        back_ws(s, j - 1)
    } else {
        j
    }
}

/// Index of the first whitespace character at or after `i`.
pub open spec fn next_ws(s: Seq<char>, i: int) -> int
    decreases s.len() - i,
{
    if i < 0 || i >= s.len() {
        if i < 0 { 0 } else { s.len() as int }
    } else if is_ws(s[i]) {
        i
    } else {
        next_ws(s, i + 1)
    }
}

/// `str::trim_start`.
pub open spec fn trim_start(s: Seq<char>) -> Seq<char> {
    s.subrange(skip_ws(s, 0), s.len() as int)
}

/// `str::trim_end`.
pub open spec fn trim_end(s: Seq<char>) -> Seq<char> {
    s.subrange(0, back_ws(s, s.len() as int))
}

/// `str::trim`.
pub open spec fn trim(s: Seq<char>) -> Seq<char> {
    trim_end(trim_start(s))
}

/// The first item of `str::split_whitespace` (the empty sequence when there
/// is none).
pub open spec fn first_token(s: Seq<char>) -> Seq<char> {
    let t = trim_start(s);
    t.subrange(0, next_ws(t, 0))
}

pub proof fn lemma_skip_ws_bounds(s: Seq<char>, i: int)
    requires 0 <= i <= s.len(),
    ensures
        i <= skip_ws(s, i) <= s.len(),
        forall|k: int| i <= k < skip_ws(s, i) ==> is_ws(#[trigger] s[k]),
        skip_ws(s, i) < s.len() ==> !is_ws(s[skip_ws(s, i)]),
    decreases s.len() - i,
{
    if i < s.len() && is_ws(s[i]) {
        lemma_skip_ws_bounds(s, i + 1);
    }
}

pub proof fn lemma_back_ws_bounds(s: Seq<char>, j: int)
    requires 0 <= j <= s.len(),
    ensures
        0 <= back_ws(s, j) <= j,
        forall|k: int| back_ws(s, j) <= k < j ==> is_ws(#[trigger] s[k]),
        back_ws(s, j) > 0 ==> !is_ws(s[back_ws(s, j) - 1]),
    decreases j,
{
    if j > 0 && is_ws(s[j - 1]) {
        lemma_back_ws_bounds(s, j - 1);
    }
}

pub proof fn lemma_next_ws_bounds(s: Seq<char>, i: int)
    requires 0 <= i <= s.len(),
    ensures
        i <= next_ws(s, i) <= s.len(),
        forall|k: int| i <= k < next_ws(s, i) ==> !is_ws(#[trigger] s[k]),
        next_ws(s, i) < s.len() ==> is_ws(s[next_ws(s, i)]),
    decreases s.len() - i,
{
    if i < s.len() && !is_ws(s[i]) {
        lemma_next_ws_bounds(s, i + 1);
    }
}

/// Executable `skip_ws`.
pub fn skip_whitespace(cs: &[char], from: usize) -> (r: usize)
    requires from <= cs@.len(),
    ensures r == skip_ws(cs@, from as int),
{
    let mut i = from;
    while i < cs.len() && is_whitespace(cs[i])
        invariant
            from <= i <= cs@.len(),
            skip_ws(cs@, i as int) == skip_ws(cs@, from as int),
        decreases cs.len() - i,
    {
        i += 1;
    }
    i
}

/// Executable `back_ws`.
pub fn back_whitespace(cs: &[char], to: usize) -> (r: usize)
    requires to <= cs@.len(),
    ensures r == back_ws(cs@, to as int),
{
    let mut j = to;
    while j > 0 && is_whitespace(cs[j - 1])
        invariant
            j <= to <= cs@.len(),
            back_ws(cs@, j as int) == back_ws(cs@, to as int),
        decreases j,
    {
        j -= 1;
    }
    j
}

/// Executable `next_ws`.
pub fn next_whitespace(cs: &[char], from: usize) -> (r: usize)
    requires from <= cs@.len(),
    ensures r == next_ws(cs@, from as int),
{
    let mut i = from;
    while i < cs.len() && !is_whitespace(cs[i])
        invariant
            from <= i <= cs@.len(),
            next_ws(cs@, i as int) == next_ws(cs@, from as int),
        decreases cs.len() - i,
    {
        i += 1;
    }
    i
}

/// The bounds `(start, end)` of the trimmed part of `cs`, so that
/// `trim(cs@) == cs@.subrange(start, end)`.
pub fn trim_bounds(cs: &[char]) -> (r: (usize, usize))
    ensures
        r.0 <= r.1 <= cs@.len(),
        trim(cs@) == cs@.subrange(r.0 as int, r.1 as int),
        trim_start(cs@) == cs@.subrange(r.0 as int, cs@.len() as int),
{
    let start = skip_whitespace(cs, 0);
    let end = back_whitespace(cs, cs.len());
    proof {
        let s = cs@;
        lemma_skip_ws_bounds(s, 0);
        lemma_back_ws_bounds(s, s.len() as int);
        let t = trim_start(s);
        lemma_back_ws_bounds(t, t.len() as int);
        lemma_back_ws_of_suffix(s, start as int);
    }
    if end < start {
        proof {
            let s = cs@;
            assert(trim(s).len() == 0);
            assert(trim(s) =~= s.subrange(start as int, start as int));
        }
        (start, start)
    } else {
        proof {
            let s = cs@;
            assert(trim(s) =~= s.subrange(start as int, end as int));
        }
        (start, end)
    }
}

/// Trailing-whitespace trimming of a suffix `s[k..]` ends where it ends for
/// `s` itself (or at `k` when the suffix is all whitespace).
pub proof fn lemma_back_ws_of_suffix(s: Seq<char>, k: int)
    requires
        0 <= k <= s.len(),
        forall|i: int| 0 <= i < k ==> is_ws(#[trigger] s[i]),
    ensures
        ({
            let t = s.subrange(k, s.len() as int);
            let b = back_ws(s, s.len() as int);
            &&& b <= k ==> back_ws(t, t.len() as int) == 0
            &&& b > k ==> back_ws(t, t.len() as int) == b - k
        }),
{
    let t = s.subrange(k, s.len() as int);
    lemma_back_ws_rel(s, k, s.len() as int);
}

proof fn lemma_back_ws_rel(s: Seq<char>, k: int, j: int)
    requires
        0 <= k <= j <= s.len(),
        forall|i: int| 0 <= i < k ==> is_ws(#[trigger] s[i]),
    ensures
        ({
            let t = s.subrange(k, s.len() as int);
            let b = back_ws(s, j);
            &&& b <= k ==> back_ws(t, j - k) == 0
            &&& b > k ==> back_ws(t, j - k) == b - k
        }),
    decreases j,
{
    let t = s.subrange(k, s.len() as int);
    if j == k {
        lemma_back_ws_all(s, k);
    } else {
        assert(t[j - k - 1] == s[j - 1]);
        if is_ws(s[j - 1]) {
            lemma_back_ws_rel(s, k, j - 1);
        }
    }
}

proof fn lemma_back_ws_all(s: Seq<char>, k: int)
    requires
        0 <= k <= s.len(),
        forall|i: int| 0 <= i < k ==> is_ws(#[trigger] s[i]),
    ensures back_ws(s, k) == 0,
    decreases k,
{
    if k > 0 {
        lemma_back_ws_all(s, k - 1);
    }
}

/// Character ranges of the items of `str::split_whitespace` on `s[i..]`.
pub open spec fn token_ranges_from(s: Seq<char>, i: int) -> Seq<(int, int)>
    decreases s.len() - i,
{
    if i < 0 || i >= s.len() {
        Seq::empty()
    } else {
        let a = skip_ws(s, i);
        if a >= s.len() {
            Seq::empty()
        } else {
            let b = next_ws(s, a);
            proof {
                lemma_skip_ws_bounds(s, i);
                lemma_next_ws_bounds(s, a);
            }
            seq![(a, b)] + token_ranges_from(s, b)
        }
    }
}

pub open spec fn token_ranges(s: Seq<char>) -> Seq<(int, int)> {
    token_ranges_from(s, 0)
}

pub proof fn lemma_token_ranges_from(s: Seq<char>, i: int)
    requires 0 <= i <= s.len(),
    ensures
        forall|j: int| 0 <= j < token_ranges_from(s, i).len() ==> {
            let (a, b) = #[trigger] token_ranges_from(s, i)[j];
            i <= a < b <= s.len()
        },
    decreases s.len() - i,
{
    if i < s.len() {
        lemma_skip_ws_bounds(s, i);
        let a = skip_ws(s, i);
        if a < s.len() {
            lemma_next_ws_bounds(s, a);
            let b = next_ws(s, a);
            lemma_token_ranges_from(s, b);
            let rest = token_ranges_from(s, b);
            assert forall|j: int| 0 <= j < token_ranges_from(s, i).len() implies {
                let (x, y) = #[trigger] token_ranges_from(s, i)[j];
                i <= x < y <= s.len()
            } by {
                if j > 0 {
                    assert(token_ranges_from(s, i)[j] == rest[j - 1]);
                }
            }
        }
    }
}

/// The ranges of the whitespace-separated tokens of `cs`, in order.
pub fn token_ranges_exec(cs: &[char]) -> (r: Vec<(usize, usize)>)
    ensures
        r@.len() == token_ranges(cs@).len(),
        forall|j: int| 0 <= j < r@.len() ==> (#[trigger] r@[j].0 as int, r@[j].1 as int)
            == token_ranges(cs@)[j],
        forall|j: int| 0 <= j < r@.len() ==> #[trigger] r@[j].0 < r@[j].1 <= cs@.len(),
{
    let mut r: Vec<(usize, usize)> = Vec::new();
    let mut i: usize = 0;
    proof {
        lemma_token_ranges_from(cs@, 0);
    }
    while i < cs.len()
        invariant
            i <= cs@.len(),
            ({
                let full = token_ranges(cs@);
                let rest = token_ranges_from(cs@, i as int);
                &&& r@.len() + rest.len() == full.len()
                &&& forall|j: int| 0 <= j < r@.len() ==> (#[trigger] r@[j].0 as int, r@[j].1 as int)
                    == full[j]
                &&& forall|j: int| 0 <= j < rest.len() ==> rest[j] == full[r@.len() + j]
            }),
            forall|j: int| 0 <= j < r@.len() ==> #[trigger] r@[j].0 < r@[j].1 <= cs@.len(),
        decreases cs.len() - i,
    {
        let ghost rest0 = token_ranges_from(cs@, i as int);
        let a = skip_whitespace(cs, i);
        proof {
            lemma_skip_ws_bounds(cs@, i as int);
        }
        if a >= cs.len() {
            proof {
                assert(rest0.len() == 0);
            }
            i = cs.len();
        } else {
            let b = next_whitespace(cs, a);
            proof {
                lemma_next_ws_bounds(cs@, a as int);
                let rest1 = token_ranges_from(cs@, b as int);
                assert(rest0 == seq![(a as int, b as int)] + rest1);
                assert(rest0[0] == (a as int, b as int));
                assert forall|j: int| 0 <= j < rest1.len() implies rest1[j] == token_ranges(
                    cs@,
                )[r@.len() + 1 + j] by {
                    assert(rest0[j + 1] == rest1[j]);
                }
            }
            r.push((a, b));
            i = b;
        }
    }
    proof {
        assert(token_ranges_from(cs@, i as int).len() == 0);
    }
    r
}

/// First alphabetic character at or after `i`.
pub open spec fn first_alpha_from(s: Seq<char>, i: int) -> Option<int>
    decreases s.len() - i,
{
    if i < 0 || i >= s.len() {
        None
    } else if unicode_alphabetic(s[i]) {
        Some(i)
    } else {
        first_alpha_from(s, i + 1)
    }
}

/// The first alphabetic character of `s[i..]` exists and is uppercase.
pub open spec fn first_alpha_upper(s: Seq<char>, i: int) -> bool {
    first_alpha_from(s, i) matches Some(k) && unicode_uppercase(s[k])
}

/// The first alphabetic character of `s[i..]` exists and is lowercase.
pub open spec fn first_alpha_lower(s: Seq<char>, i: int) -> bool {
    first_alpha_from(s, i) matches Some(k) && unicode_lowercase(s[k])
}

pub proof fn lemma_first_alpha_from(s: Seq<char>, i: int)
    requires 0 <= i,
    ensures first_alpha_from(s, i) matches Some(k) ==> i <= k < s.len(),
    decreases s.len() - i,
{
    if i < s.len() && !unicode_alphabetic(s[i]) {
        lemma_first_alpha_from(s, i + 1);
    }
}

pub fn first_alpha_exec(cs: &[char], from: usize) -> (r: Option<usize>)
    ensures
        match r {
            Some(k) => first_alpha_from(cs@, from as int) == Some(k as int) && k < cs@.len(),
            None => first_alpha_from(cs@, from as int) is None,
        },
{
    let mut i = from;
    while i < cs.len()
        invariant
            from <= i,
            first_alpha_from(cs@, i as int) == first_alpha_from(cs@, from as int),
        decreases cs.len() - i,
    {
        if char_is_alphabetic(cs[i]) {
            return Some(i);
        }
        i += 1;
    }
    None
}

pub fn first_alpha_is_upper(cs: &[char], from: usize) -> (r: bool)
    ensures r == first_alpha_upper(cs@, from as int),
{
    match first_alpha_exec(cs, from) {
        Some(k) => char_is_uppercase(cs[k]),
        None => false,
    }
}

pub fn first_alpha_is_lower(cs: &[char], from: usize) -> (r: bool)
    ensures r == first_alpha_lower(cs@, from as int),
{
    match first_alpha_exec(cs, from) {
        Some(k) => char_is_lowercase(cs[k]),
        None => false,
    }
}

/// `str::to_ascii_lowercase` on characters.
pub fn ascii_lowercase_vec(cs: &[char]) -> (r: Vec<char>)
    ensures
        r@.len() == cs@.len(),
        forall|i: int| 0 <= i < cs@.len() ==> #[trigger] r@[i] == ascii_lower_of(cs@[i]),
{
    let mut r: Vec<char> = Vec::new();
    let mut i: usize = 0;
    while i < cs.len()
        invariant
            i <= cs@.len(),
            r@.len() == i,
            forall|j: int| 0 <= j < i ==> #[trigger] r@[j] == ascii_lower_of(cs@[j]),
        decreases cs.len() - i,
    {
        let c = cs[i];
        let l = if 'A' <= c && c <= 'Z' {
            char_from_ascii_upper(c)
        } else {
            c
        };
        r.push(l);
        i += 1;
    }
    r
}

/// `char::to_ascii_lowercase`.
pub fn ascii_lower_char(c: char) -> (r: char)
    ensures r == ascii_lower_of(c),
{
    if 'A' <= c && c <= 'Z' {
        char_from_ascii_upper(c)
    } else {
        c
    }
}

fn char_from_ascii_upper(c: char) -> (r: char)
    requires is_ascii_upper(c),
    ensures r == ((c as u32) + 32) as char,
{
    let v = (c as u32) + 32;
    let b = v as u8;
    proof {
        assert(v < 128);
        assert((b as u32) == v) by (bit_vector)
            requires v < 128, b == v as u8;
    }
    b as char
}

// ---------------------------------------------------------------------------
// Searching
// ---------------------------------------------------------------------------

/// `p` occurs in `s` at position `i`.
pub open spec fn occurs_at(s: Seq<char>, p: Seq<char>, i: int) -> bool {
    0 <= i && i + p.len() <= s.len() && s.subrange(i, i + p.len()) == p
}

/// First occurrence of `p` in `s` at or after `i` (`str::find` on `s[i..]`).
pub open spec fn find_from(s: Seq<char>, p: Seq<char>, i: int) -> Option<int>
    decreases s.len() + 1 - i,
{
    if i < 0 || i + p.len() > s.len() {
        None
    } else if occurs_at(s, p, i) {
        Some(i)
    } else {
        find_from(s, p, i + 1)
    }
}

pub proof fn lemma_find_from(s: Seq<char>, p: Seq<char>, i: int)
    requires 0 <= i,
    ensures
        find_from(s, p, i) matches Some(k) ==> i <= k && occurs_at(s, p, k),
        find_from(s, p, i) matches Some(k) ==> forall|m: int| i <= m < k ==> !occurs_at(s, p, m),
        find_from(s, p, i) is None ==> forall|m: int| i <= m ==> !occurs_at(s, p, m),
    decreases s.len() + 1 - i,
{
    if i + p.len() <= s.len() && !occurs_at(s, p, i) {
        lemma_find_from(s, p, i + 1);
    }
}

/// `cs[i..]` starts with `p`.
pub fn occurs_at_exec(cs: &[char], p: &[char], i: usize) -> (r: bool)
    ensures r == occurs_at(cs@, p@, i as int),
{
    if i > cs.len() || p.len() > cs.len() - i {
        return false;
    }
    let mut k: usize = 0;
    while k < p.len()
        invariant
            i + p@.len() <= cs@.len(),
            i + p.len() <= cs.len(),
            k <= p@.len(),
            forall|m: int| 0 <= m < k ==> cs@[i + m] == p@[m],
        decreases p.len() - k,
    {
        if cs[i + k] != p[k] {
            proof {
                assert(cs@.subrange(i as int, i + p@.len())[k as int] != p@[k as int]);
            }
            return false;
        }
        k += 1;
    }
    proof {
        assert(cs@.subrange(i as int, i + p@.len()) =~= p@);
    }
    true
}

/// First occurrence of `p` in `cs` at or after `from`.
pub fn find_chars(cs: &[char], p: &[char], from: usize) -> (r: Option<usize>)
    ensures
        match r {
            Some(k) => find_from(cs@, p@, from as int) == Some(k as int) && from <= k && k + p.len()
                <= cs.len(),
            None => find_from(cs@, p@, from as int) is None,
        },
{
    if p.len() == 0 {
        if from <= cs.len() {
            proof {
                assert(cs@.subrange(from as int, from as int) =~= p@);
            }
            return Some(from);
        }
        return None;
    }
    let mut i = from;
    loop
        invariant
            from <= i,
            p@.len() >= 1,
            find_from(cs@, p@, i as int) == find_from(cs@, p@, from as int),
        decreases cs.len() + 1 - i,
    {
        if i > cs.len() || p.len() > cs.len() - i {
            return None;
        }
        if occurs_at_exec(cs, p, i) {
            return Some(i);
        }
        i += 1;
    }
}

/// First index at or after `i` holding `c`.
pub open spec fn find_char_from(s: Seq<char>, c: char, i: int) -> Option<int>
    decreases s.len() - i,
{
    if i < 0 || i >= s.len() {
        None
    } else if s[i] == c {
        Some(i)
    } else {
        find_char_from(s, c, i + 1)
    }
}

pub proof fn lemma_find_char_from(s: Seq<char>, c: char, i: int)
    requires 0 <= i,
    ensures
        find_char_from(s, c, i) matches Some(k) ==> i <= k < s.len() && s[k] == c,
        find_char_from(s, c, i) matches Some(k) ==> forall|m: int| i <= m < k ==> s[m] != c,
        find_char_from(s, c, i) is None ==> forall|m: int| i <= m < s.len() ==> s[m] != c,
    decreases s.len() - i,
{
    if i < s.len() && s[i] != c {
        lemma_find_char_from(s, c, i + 1);
    }
}

pub fn find_char(cs: &[char], c: char, from: usize) -> (r: Option<usize>)
    ensures
        match r {
            Some(k) => find_char_from(cs@, c, from as int) == Some(k as int) && from <= k < cs.len(),
            None => find_char_from(cs@, c, from as int) is None,
        },
{
    let mut i = from;
    while i < cs.len()
        invariant
            from <= i,
            find_char_from(cs@, c, i as int) == find_char_from(cs@, c, from as int),
        decreases cs.len() - i,
    {
        if cs[i] == c {
            return Some(i);
        }
        i += 1;
    }
    None
}

// ---------------------------------------------------------------------------
// Decimal numbers
// ---------------------------------------------------------------------------

pub open spec fn all_digits(s: Seq<char>) -> bool {
    forall|i: int| 0 <= i < s.len() ==> is_digit(#[trigger] s[i])
}

/// Value of a sequence of decimal digits.
pub open spec fn digits_value(s: Seq<char>) -> int
    decreases s.len(),
{
    if s.len() == 0 {
        0
    } else {
        digits_value(s.drop_last()) * 10 + digit_value(s.last())
    }
}

/// `str::parse::<u16>`: an optional `+`, then one or more ASCII digits whose
/// value fits in a `u16`.
pub open spec fn parse_u16(s: Seq<char>) -> Option<u16> {
    let d = if s.len() > 0 && s[0] == '+' { s.drop_first() } else { s };
    if d.len() > 0 && all_digits(d) && digits_value(d) <= 65535 {
        Some(digits_value(d) as u16)
    } else {
        None
    }
}

/// Decimal digits of `n` without leading zeros (what `to_string` prints).
pub open spec fn decimal_digits(n: nat) -> Seq<char>
    decreases n,
{
    if n < 10 {
        seq![(n + ('0' as nat)) as char]
    } else {
        decimal_digits(n / 10).push(((n % 10) + ('0' as nat)) as char)
    }
}

pub proof fn lemma_digits_value_nonneg(s: Seq<char>)
    requires all_digits(s),
    ensures digits_value(s) >= 0,
    decreases s.len(),
{
    if s.len() > 0 {
        lemma_digits_value_nonneg(s.drop_last());
    }
}

/// Appending digits never decreases the value.
pub proof fn lemma_digits_value_prefix(s: Seq<char>, i: int)
    requires all_digits(s), 0 <= i <= s.len(),
    ensures digits_value(s.take(i)) <= digits_value(s),
    decreases s.len() - i,
{
    if i < s.len() {
        let t = s.take(i + 1);
        assert(t.drop_last() =~= s.take(i));
        lemma_digits_value_nonneg(s.take(i));
        lemma_digits_value_prefix(s, i + 1);
    } else {
        assert(s.take(i) =~= s);
    }
}

/// Value of `cs[from..to]`, which must be all digits, or `None` when it
/// exceeds 65535.
pub fn digits_u16(cs: &[char], from: usize, to: usize) -> (r: Option<u16>)
    requires
        from <= to <= cs@.len(),
        all_digits(cs@.subrange(from as int, to as int)),
    ensures
        ({
            let v = digits_value(cs@.subrange(from as int, to as int));
            &&& r matches Some(x) ==> v <= 65535 && x == v
            &&& r is None ==> v > 65535
        }),
{
    let ghost s = cs@.subrange(from as int, to as int);
    let mut acc: u32 = 0;
    let mut i = from;
    while i < to
        invariant
            from <= i <= to <= cs@.len(),
            s == cs@.subrange(from as int, to as int),
            all_digits(s),
            acc == digits_value(s.take(i - from)),
            acc <= 65535,
        decreases to - i,
    {
        let c = cs[i];
        proof {
            assert(s[i - from] == c);
            let t = s.take(i - from + 1);
            assert(t.drop_last() =~= s.take(i - from));
            assert(t.last() == c);
        }
        let d = (c as u32) - ('0' as u32);
        let next = acc * 10 + d;
        if next > 65535 {
            proof {
                lemma_digits_value_prefix(s, i - from + 1);
            }
            return None;
        }
        acc = next;
        i += 1;
    }
    proof {
        assert(s.take(to - from) =~= s);
    }
    Some(acc as u16)
}

/// `str::parse::<u16>` on `cs[from..to]`.
pub fn parse_u16_range(cs: &[char], from: usize, to: usize) -> (r: Option<u16>)
    requires from <= to <= cs@.len(),
    ensures r == parse_u16(cs@.subrange(from as int, to as int)),
{
    let ghost s = cs@.subrange(from as int, to as int);
    let mut start = from;
    if from < to && cs[from] == '+' {
        start = from + 1;
    }
    proof {
        if from < to && cs@[from as int] == '+' {
            assert(s.drop_first() =~= cs@.subrange(start as int, to as int));
        } else {
            assert(s =~= cs@.subrange(start as int, to as int));
        }
    }
    proof {
        let d = if s.len() > 0 && s[0] == '+' { s.drop_first() } else { s };
        assert(d =~= cs@.subrange(start as int, to as int));
    }
    if start == to {
        return None;
    }
    let mut k = start;
    while k < to
        invariant
            start <= k <= to <= cs@.len(),
            s == cs@.subrange(from as int, to as int),
            (if s.len() > 0 && s[0] == '+' { s.drop_first() } else { s }) == cs@.subrange(
                start as int,
                to as int,
            ),
            forall|m: int| start <= m < k ==> is_digit(#[trigger] cs@[m]),
        decreases to - k,
    {
        if !is_ascii_digit(cs[k]) {
            proof {
                let d = cs@.subrange(start as int, to as int);
                assert(!is_digit(d[k - start]));
            }
            return None;
        }
        k += 1;
    }
    proof {
        let d = cs@.subrange(start as int, to as int);
        assert forall|m: int| 0 <= m < d.len() implies is_digit(#[trigger] d[m]) by {
            assert(d[m] == cs@[start + m]);
        }
    }
    digits_u16(cs, start, to)
}

/// `str::parse::<u16>`.
pub fn parse_u16_str(cs: &[char]) -> (r: Option<u16>)
    ensures r == parse_u16(cs@),
{
    proof {
        assert(cs@.subrange(0, cs@.len() as int) =~= cs@);
    }
    parse_u16_range(cs, 0, cs.len())
}

pub proof fn lemma_decimal_digits_len(n: nat)
    ensures 1 <= decimal_digits(n).len(),
        n < 10 ==> decimal_digits(n).len() == 1,
        n < 100 ==> decimal_digits(n).len() <= 2,
        n < 1000 ==> decimal_digits(n).len() <= 3,
        n < 10000 ==> decimal_digits(n).len() <= 4,
        n < 100000 ==> decimal_digits(n).len() <= 5,
        all_digits(decimal_digits(n)),
    decreases n,
{
    if n >= 10 {
        lemma_decimal_digits_len(n / 10);
    }
}

/// `u16::to_string` as characters.
pub fn u16_to_chars(n: u16) -> (r: Vec<char>)
    ensures r@ == decimal_digits(n as nat),
    decreases n,
{
    if n < 10 {
        let mut v = Vec::new();
        v.push(((n as u8) + 48u8) as char);
        proof {
            assert(v@ =~= decimal_digits(n as nat));
        }
        v
    } else {
        let mut v = u16_to_chars(n / 10);
        v.push((((n % 10) as u8) + 48u8) as char);
        proof {
            assert(v@ =~= decimal_digits(n as nat));
        }
        v
    }
}

/// `usize::to_string`.
pub fn usize_to_string(n: usize) -> (r: String)
    ensures r@ == decimal_digits(n as nat),
    decreases n,
{
    if n < 10 {
        let mut s = String::new();
        string_push(&mut s, ((n as u8) + 48u8) as char);
        proof {
            assert(s@ =~= decimal_digits(n as nat));
        }
        s
    } else {
        let mut s = usize_to_string(n / 10);
        string_push(&mut s, (((n % 10) as u8) + 48u8) as char);
        proof {
            assert(s@ =~= decimal_digits(n as nat));
        }
        s
    }
}

/// Appends the characters of `t` to `s`.
pub fn push_str(s: &mut String, t: &str)
    ensures final(s)@ == old(s)@ + t@,
{
    let cs = chars_vec(t);
    let mut i: usize = 0;
    while i < cs.len()
        invariant
            i <= cs@.len(),
            cs@ == t@,
            s@ == old(s)@ + cs@.subrange(0, i as int),
        decreases cs.len() - i,
    {
        string_push(s, cs[i]);
        i += 1;
        proof {
            assert(s@ =~= old(s)@ + cs@.subrange(0, i as int));
        }
    }
    proof {
        assert(cs@.subrange(0, cs@.len() as int) =~= cs@);
    }
}

/// `a`, `b` and `c` joined.
pub fn concat3(a: &str, b: &str, c: &str) -> (r: String)
    ensures r@ == a@ + b@ + c@,
{
    let mut s = a.to_owned();
    push_str(&mut s, b);
    push_str(&mut s, c);
    s
}

/// `p` occurs somewhere in `s` (`str::contains`).
pub open spec fn contains_seq(s: Seq<char>, p: Seq<char>) -> bool {
    exists|i: int| occurs_at(s, p, i)
}

/// `s` starts with `p` (`str::starts_with`).
pub open spec fn starts_with_seq(s: Seq<char>, p: Seq<char>) -> bool {
    occurs_at(s, p, 0)
}

/// Whether `pat` occurs in `cs`.
pub fn chars_contain(cs: &[char], pat: &str) -> (r: bool)
    ensures r == contains_seq(cs@, pat@),
{
    let p = chars_vec(pat);
    proof {
        lemma_find_from(cs@, p@, 0);
    }
    match find_chars(cs, p.as_slice(), 0) {
        Some(_) => true,
        None => {
            proof {
                assert forall|i: int| !occurs_at(cs@, p@, i) by {
                    if i >= 0 {
                        assert(!occurs_at(cs@, p@, i));
                    }
                }
            }
            false
        },
    }
}

/// Whether `cs` starts with `pat`.
pub fn chars_start_with(cs: &[char], pat: &str) -> (r: bool)
    ensures r == starts_with_seq(cs@, pat@),
{
    let p = chars_vec(pat);
    occurs_at_exec(cs, p.as_slice(), 0)
}

} // verus!
