//! Text tests on normalized line text (lower case, as the pipeline's text
//! normalisation gives it): numbered table and figure captions and anchors,
//! and the citation cues of a note carried over a page break.
use vstd::prelude::*;

use crate::tables::Lm2TableCues;
use crate::text::{
    ascii_lower_char, ascii_lower_of, char_is_alphabetic, chars_contain, chars_start_with, chars_vec,
    contains_seq, is_ascii_alnum, is_ascii_alphanumeric, is_ascii_digit, is_digit, starts_with_seq,
    token_ranges, token_ranges_exec, unicode_alphabetic,
};

verus! {

// ---------------------------------------------------------------------------
// Trimming by a character class
// ---------------------------------------------------------------------------

/// The first position at or after `i` whose character is not in `p`.
pub open spec fn front_skip(t: Seq<char>, p: spec_fn(char) -> bool, i: int) -> int
    decreases t.len() - i,
{
    if i < 0 || i >= t.len() {
        if i < 0 { 0 } else { t.len() as int }
    } else if p(t[i]) {
        front_skip(t, p, i + 1)
    } else {
        i
    }
}

/// The end of `t[..j]` once trailing characters in `p` are dropped.
pub open spec fn back_skip(t: Seq<char>, p: spec_fn(char) -> bool, j: int) -> int
    decreases j,
{
    if j <= 0 || j > t.len() {
        if j <= 0 { 0 } else { t.len() as int }
    } else if p(t[j - 1]) {
        back_skip(t, p, j - 1)
    } else {
        j
    }
}

/// `str::trim_matches` with the class `p`.
pub open spec fn trim_matching(t: Seq<char>, p: spec_fn(char) -> bool) -> Seq<char> {
    let a = front_skip(t, p, 0);
    let b = back_skip(t, p, t.len() as int);
    if a < b {
        t.subrange(a, b)
    } else {
        Seq::empty()
    }
}

/// `str::trim_end_matches` with the class `p`.
pub open spec fn trim_end_matching(t: Seq<char>, p: spec_fn(char) -> bool) -> Seq<char> {
    t.subrange(0, back_skip(t, p, t.len() as int))
}

proof fn lemma_front_skip(t: Seq<char>, p: spec_fn(char) -> bool, i: int)
    requires 0 <= i <= t.len(),
    ensures i <= front_skip(t, p, i) <= t.len(),
    decreases t.len() - i,
{
    if i < t.len() && p(t[i]) {
        lemma_front_skip(t, p, i + 1);
    }
}

proof fn lemma_back_skip(t: Seq<char>, p: spec_fn(char) -> bool, j: int)
    requires 0 <= j <= t.len(),
    ensures 0 <= back_skip(t, p, j) <= j,
    decreases j,
{
    if j > 0 && p(t[j - 1]) {
        lemma_back_skip(t, p, j - 1);
    }
}

/// Caption punctuation around a number: `.`, `:`, `)`, `]`.
pub open spec fn caption_punct(c: char) -> bool {
    c == '.' || c == ':' || c == ')' || c == ']'
}

pub open spec fn caption_punct_class() -> spec_fn(char) -> bool {
    |c: char| caption_punct(c)
}

/// The punctuation that may close an outline number: `.`, `)`, `:`.
pub open spec fn outline_punct_class() -> spec_fn(char) -> bool {
    |c: char| c == '.' || c == ')' || c == ':'
}

pub open spec fn colon_class() -> spec_fn(char) -> bool {
    |c: char| c == ':'
}

pub open spec fn non_alphabetic_class() -> spec_fn(char) -> bool {
    |c: char| !unicode_alphabetic(c)
}

pub open spec fn non_ascii_alnum_class() -> spec_fn(char) -> bool {
    |c: char| !is_ascii_alnum(c)
}

/// The classes the caption tests trim by.
#[derive(Clone, Copy)]
pub(crate) enum TrimClass {
    OutlinePunct,
    CaptionPunct,
    Colon,
    NonAlphabetic,
    NonAsciiAlnum,
}

pub(crate) open spec fn class_of(k: TrimClass) -> spec_fn(char) -> bool {
    match k {
        TrimClass::OutlinePunct => outline_punct_class(),
        TrimClass::CaptionPunct => caption_punct_class(),
        TrimClass::Colon => colon_class(),
        TrimClass::NonAlphabetic => non_alphabetic_class(),
        TrimClass::NonAsciiAlnum => non_ascii_alnum_class(),
    }
}

fn in_class(c: char, k: TrimClass) -> (r: bool)
    ensures r == class_of(k)(c),
{
    match k {
        TrimClass::OutlinePunct => c == '.' || c == ')' || c == ':',
        TrimClass::CaptionPunct => c == '.' || c == ':' || c == ')' || c == ']',
        TrimClass::Colon => c == ':',
        TrimClass::NonAlphabetic => !char_is_alphabetic(c),
        TrimClass::NonAsciiAlnum => !is_ascii_alphanumeric(c),
    }
}

/// `t[from..to]` with the characters of class `k` trimmed at both ends
/// (`both`) or at the end only.
pub(crate) fn trim_class(t: &[char], from: usize, to: usize, k: TrimClass, both: bool) -> (r: Vec<char>)
    requires from <= to <= t@.len(),
    ensures
        r@ == if both {
            trim_matching(t@.subrange(from as int, to as int), class_of(k))
        } else {
            trim_end_matching(t@.subrange(from as int, to as int), class_of(k))
        },
{
    let ghost w = t@.subrange(from as int, to as int);
    let p = Ghost(class_of(k));
    let mut a: usize = from;
    if both {
        while a < to && in_class(t[a], k)
            invariant
                from <= a <= to <= t@.len(),
                w == t@.subrange(from as int, to as int),
                p@ == class_of(k),
                front_skip(w, p@, 0) == front_skip(w, p@, a - from),
            decreases to - a,
        {
            assert(w[a - from] == t@[a as int]);
            a += 1;
        }
        if a < to {
            assert(w[a - from] == t@[a as int]);
        }
        assert(front_skip(w, p@, a - from) == a - from);
    }
    let mut b: usize = to;
    while b > a && in_class(t[b - 1], k)
        invariant
            from <= a <= b <= to <= t@.len(),
            w == t@.subrange(from as int, to as int),
            p@ == class_of(k),
            back_skip(w, p@, w.len() as int) == back_skip(w, p@, b - from),
        decreases b,
    {
        assert(w[b - from - 1] == t@[b - 1]);
        b -= 1;
    }
    let ghost bb = back_skip(w, p@, w.len() as int);
    proof {
        if b > a {
            assert(w[b - from - 1] == t@[b - 1]);
            assert(bb == b - from);
        }
    }
    let mut r: Vec<char> = Vec::new();
    let mut i = a;
    while i < b
        invariant
            a <= i <= b <= t@.len(),
            r@ == t@.subrange(a as int, i as int),
        decreases b - i,
    {
        r.push(t[i]);
        i += 1;
    }
    proof {
        lemma_front_skip(w, p@, 0);
        lemma_back_skip(w, p@, w.len() as int);
        if both {
            if a < b {
                assert(r@ =~= w.subrange(a - from, b - from));
                assert(bb == b - from);
            } else {
                assert(r@ =~= Seq::<char>::empty());
                // Every character of the window is trimmed from one end or the other.
                if a < to {
                    assert(bb <= a - from) by {
                        lemma_back_skip_stops(w, p@, (b - from) as int, (a - from) as int);
                    }
                }
            }
        } else {
            assert(a == from);
            if b > a {
                assert(r@ =~= w.subrange(0, b - from));
            } else {
                assert(bb == 0) by {
                    lemma_back_skip_stops(w, p@, 0, 0);
                }
                assert(r@ =~= w.subrange(0, 0));
            }
        }
    }
    r
}

proof fn lemma_back_skip_stops(t: Seq<char>, p: spec_fn(char) -> bool, j: int, lo: int)
    requires
        0 <= lo,
        lo >= j,
        j <= t.len(),
        back_skip(t, p, t.len() as int) == back_skip(t, p, j),
    ensures back_skip(t, p, t.len() as int) <= lo,
{
    if j >= 0 {
        lemma_back_skip(t, p, j);
    }
}

// ---------------------------------------------------------------------------
// Numbered captions and anchors
// ---------------------------------------------------------------------------

/// A Roman-numeral letter in either case.
pub open spec fn roman_letter(c: char) -> bool {
    let l = ascii_lower_of(c);
    l == 'i' || l == 'v' || l == 'x' || l == 'l' || l == 'c' || l == 'd' || l == 'm'
}

/// A caption number: one to eight digits, or one to eight Roman-numeral
/// letters.
pub open spec fn caption_number(m: Seq<char>) -> bool {
    &&& 0 < m.len() <= 8
    &&& (forall|i: int| 0 <= i < m.len() ==> is_digit(#[trigger] m[i])) || (forall|i: int|
        0 <= i < m.len() ==> roman_letter(#[trigger] m[i]))
}

/// Word `i` of `s` (`split_whitespace`).
pub open spec fn word_at(s: Seq<char>, i: int) -> Seq<char> {
    s.subrange(token_ranges(s)[i].0, token_ranges(s)[i].1)
}

/// `table`, `figure` or `fig.`.
pub open spec fn caption_word(w: Seq<char>) -> bool {
    w == "table"@ || w == "figure"@ || w == "fig."@
}

/// The normalized text opens with a caption word and a caption number,
/// the number possibly wrapped in caption punctuation (`Table 3.`).
pub open spec fn numbered_caption(s: Seq<char>) -> bool {
    &&& token_ranges(s).len() >= 2
    &&& caption_word(word_at(s, 0))
    &&& caption_number(trim_matching(word_at(s, 1), caption_punct_class()))
}

/// The normalized text opens with a caption word and a caption number
/// followed by a colon (`Table 3:`).
pub open spec fn explicit_numbered_caption(s: Seq<char>) -> bool {
    &&& token_ranges(s).len() >= 2
    &&& caption_word(word_at(s, 0))
    &&& word_at(s, 1).last() == ':'
    &&& caption_number(trim_end_matching(word_at(s, 1), colon_class()))
}

/// Words `i` and `i + 1` name a table or figure and its number.
pub open spec fn anchor_pair(s: Seq<char>, i: int) -> bool {
    let kind = trim_matching(word_at(s, i), non_alphabetic_class());
    &&& kind == "table"@ || kind == "figure"@ || kind == "fig"@
    &&& caption_number(trim_matching(word_at(s, i + 1), non_ascii_alnum_class()))
}

/// Somewhere in the normalized text a table or figure is named with its
/// number (`see table 2`).
pub open spec fn table_figure_page_anchor(s: Seq<char>) -> bool {
    exists|i: int| 0 <= i && i + 1 < token_ranges(s).len() && #[trigger] anchor_pair(s, i)
}

fn is_caption_number(m: &[char]) -> (r: bool)
    ensures r == caption_number(m@),
{
    if m.len() == 0 || m.len() > 8 {
        return false;
    }
    let mut digits = true;
    let mut roman = true;
    let mut i: usize = 0;
    while i < m.len()
        invariant
            i <= m@.len(),
            digits == forall|j: int| 0 <= j < i ==> is_digit(#[trigger] m@[j]),
            roman == forall|j: int| 0 <= j < i ==> roman_letter(#[trigger] m@[j]),
        decreases m.len() - i,
    {
        let c = m[i];
        if !is_ascii_digit(c) {
            digits = false;
        }
        let l = ascii_lower_char(c);
        if !(l == 'i' || l == 'v' || l == 'x' || l == 'l' || l == 'c' || l == 'd' || l == 'm') {
            roman = false;
        }
        i += 1;
    }
    digits || roman
}

fn is_caption_word(cs: &[char], a: usize, b: usize) -> (r: bool)
    requires a <= b <= cs@.len(),
    ensures r == caption_word(cs@.subrange(a as int, b as int)),
{
    let w = crate::text::copy_range(cs, a, b);
    let r = chars_eq(w.as_slice(), "table") || chars_eq(w.as_slice(), "figure") || chars_eq(w.as_slice(), "fig.");
    r
}

fn chars_eq(cs: &[char], pat: &str) -> (r: bool)
    ensures r == (cs@ == pat@),
{
    let p = chars_vec(pat);
    if p.len() != cs.len() {
        return false;
    }
    let mut i: usize = 0;
    while i < cs.len()
        invariant
            i <= cs@.len(),
            p@.len() == cs@.len(),
            p@ == pat@,
            forall|j: int| 0 <= j < i ==> cs@[j] == p@[j],
        decreases cs.len() - i,
    {
        if cs[i] != p[i] {
            return false;
        }
        i += 1;
    }
    assert(cs@ =~= p@);
    true
}

/// Whether the normalized text opens with a numbered caption (`table 3.`).
pub fn lm2_numbered_table_figure_caption(normalized: &str) -> (r: bool)
    ensures r == numbered_caption(normalized@),
{
    let cs = chars_vec(normalized);
    let s = cs.as_slice();
    let words = token_ranges_exec(s);
    if words.len() < 2 {
        return false;
    }
    let (a0, b0) = words[0];
    let (a1, b1) = words[1];
    if !is_caption_word(s, a0, b0) {
        return false;
    }
    let m = trim_class(s, a1, b1, TrimClass::CaptionPunct, true);
    is_caption_number(m.as_slice())
}

/// Whether the normalized text opens with an explicit numbered caption
/// (`table 3:`).
pub fn lm2_explicit_numbered_table_figure_caption(normalized: &str) -> (r: bool)
    ensures r == explicit_numbered_caption(normalized@),
{
    let cs = chars_vec(normalized);
    let s = cs.as_slice();
    let words = token_ranges_exec(s);
    if words.len() < 2 {
        return false;
    }
    let (a0, b0) = words[0];
    let (a1, b1) = words[1];
    if !is_caption_word(s, a0, b0) {
        return false;
    }
    assert(cs@.subrange(a1 as int, b1 as int).last() == cs@[b1 - 1]);
    if s[b1 - 1] != ':' {
        return false;
    }
    let m = trim_class(s, a1, b1, TrimClass::Colon, false);
    is_caption_number(m.as_slice())
}

/// Whether the normalized text names a table or figure with its number.
pub fn lm2_numbered_table_figure_page_anchor(normalized: &str) -> (r: bool)
    ensures r == table_figure_page_anchor(normalized@),
{
    let cs = chars_vec(normalized);
    let s = cs.as_slice();
    let words = token_ranges_exec(s);
    assert(forall|j: int| 0 <= j < words@.len() ==> #[trigger] words@[j].0 < words@[j].1 <= s@.len());
    let mut i: usize = 0;
    while i < words.len() && i + 1 < words.len()
        invariant
            s@ == normalized@,
            words@.len() == token_ranges(s@).len(),
            forall|j: int| 0 <= j < words@.len() ==> (#[trigger] words@[j].0 as int, words@[j].1 as int)
                == token_ranges(s@)[j],
            forall|j: int| 0 <= j < words@.len() ==> #[trigger] words@[j].0 < words@[j].1 <= s@.len(),
            forall|j: int| 0 <= j < i ==> !#[trigger] anchor_pair(s@, j),
        decreases words.len() - i,
    {
        let (a0, b0) = words[i];
        let (a1, b1) = words[i + 1];
        let kind = trim_class(s, a0, b0, TrimClass::NonAlphabetic, true);
        let k = kind.as_slice();
        let kind_ok = chars_eq(k, "table") || chars_eq(k, "figure") || chars_eq(k, "fig");
        if kind_ok {
            let m = trim_class(s, a1, b1, TrimClass::NonAsciiAlnum, true);
            if is_caption_number(m.as_slice()) {
                assert(anchor_pair(s@, i as int));
                return true;
            }
        }
        assert(!anchor_pair(s@, i as int));
        i += 1;
    }
    false
}

/// The text cues of a line for the table routing, from its normalized text
/// and whether it reads as a short figure or table label.
pub fn lm2_table_text_cues(normalized: &str, short_label: bool) -> (r: Lm2TableCues)
    ensures
        r.explicit_caption == explicit_numbered_caption(normalized@),
        r.table_figure_anchor == table_figure_page_anchor(normalized@),
        r.short_label == short_label,
{
    Lm2TableCues {
        explicit_caption: lm2_explicit_numbered_table_figure_caption(normalized),
        table_figure_anchor: lm2_numbered_table_figure_page_anchor(normalized),
        short_label,
    }
}

// ---------------------------------------------------------------------------
// Citation cues of a carried-over note
// ---------------------------------------------------------------------------

/// The normalized text reads as citation matter: a signal (`see`, `cf.`,
/// `compare`, `accord`), a web address, a case name, a reporter or code
/// citation, a section sign, or a parenthesized month.
pub open spec fn citation_continuation_cue(s: Seq<char>) -> bool {
    ||| starts_with_seq(s, "see "@)
    ||| starts_with_seq(s, "see, "@)
    ||| starts_with_seq(s, "but see "@)
    ||| starts_with_seq(s, "cf. "@)
    ||| starts_with_seq(s, "compare "@)
    ||| starts_with_seq(s, "accord "@)
    ||| contains_seq(s, "http://"@)
    ||| contains_seq(s, "https://"@)
    ||| contains_seq(s, "www."@)
    ||| contains_seq(s, " v. "@)
    ||| contains_seq(s, " f.2d "@)
    ||| contains_seq(s, " f.3d "@)
    ||| contains_seq(s, " f.4th "@)
    ||| contains_seq(s, " u.s. "@)
    ||| contains_seq(s, " u.s.c. "@)
    ||| contains_seq(s, "\u{a7}"@)
    ||| contains_seq(s, "(jan."@)
    ||| contains_seq(s, "(feb."@)
    ||| contains_seq(s, "(mar."@)
    ||| contains_seq(s, "(apr."@)
    ||| contains_seq(s, "(may "@)
    ||| contains_seq(s, "(june "@)
    ||| contains_seq(s, "(july "@)
    ||| contains_seq(s, "(aug."@)
    ||| contains_seq(s, "(sept."@)
    ||| contains_seq(s, "(oct."@)
    ||| contains_seq(s, "(nov."@)
    ||| contains_seq(s, "(dec."@)
}

/// Whether the normalized text of a carried-over segment reads as citation
/// matter.
pub fn lm2_uppercase_note_continuation_cue(normalized: &str) -> (r: bool)
    ensures r == citation_continuation_cue(normalized@),
{
    let cs = chars_vec(normalized);
    let s = cs.as_slice();
    chars_start_with(s, "see ") || chars_start_with(s, "see, ") || chars_start_with(s, "but see ")
        || chars_start_with(s, "cf. ") || chars_start_with(s, "compare ") || chars_start_with(s, "accord ")
        || chars_contain(s, "http://") || chars_contain(s, "https://") || chars_contain(s, "www.")
        || chars_contain(s, " v. ") || chars_contain(s, " f.2d ") || chars_contain(s, " f.3d ")
        || chars_contain(s, " f.4th ") || chars_contain(s, " u.s. ") || chars_contain(s, " u.s.c. ")
        || chars_contain(s, "\u{a7}") || chars_contain(s, "(jan.") || chars_contain(s, "(feb.")
        || chars_contain(s, "(mar.") || chars_contain(s, "(apr.") || chars_contain(s, "(may ")
        || chars_contain(s, "(june ") || chars_contain(s, "(july ") || chars_contain(s, "(aug.")
        || chars_contain(s, "(sept.") || chars_contain(s, "(oct.") || chars_contain(s, "(nov.")
        || chars_contain(s, "(dec.")
}

/// A character with curly single quotes made straight and ASCII letters
/// made lower case.
pub open spec fn fold_quote_lower(c: char) -> char {
    if c == '\u{2019}' || c == '\u{2018}' {
        '\''
    } else {
        ascii_lower_of(c)
    }
}

/// `s` ends with `p`.
pub open spec fn ends_with_seq(s: Seq<char>, p: Seq<char>) -> bool {
    p.len() <= s.len() && s.subrange(s.len() - p.len(), s.len() as int) == p
}

/// A reporter among the first twelve words.
pub open spec fn early_reporter(s: Seq<char>) -> bool {
    exists|i: int|
        0 <= i < 12 && i < token_ranges(s).len() && {
            let w = #[trigger] word_at(s, i);
            w == "f.2d"@ || w == "f.3d"@ || w == "f.4th"@ || w == "u.s."@ || w == "s.ct."@
        }
}

/// The previous note ends in a company name's form (`Ltd.`, `L.L.C.`,
/// `LLC`, `Inc.`, `P'ship`) and the continuation, opening with the rest of
/// that name (`P'ship,`, `Inc.,`, ...), cites a reporter in its first
/// twelve words. `previous` is the previous note's text without callout
/// sentinels; `continuation` the segment's text with its whitespace runs
/// collapsed to single spaces.
pub open spec fn citation_suffix_bridge(previous: Seq<char>, continuation: Seq<char>) -> bool {
    let lower = continuation.map_values(|c: char| fold_quote_lower(c));
    let prev = crate::text::trim_end(previous);
    &&& (starts_with_seq(lower, "p'ship,"@) || starts_with_seq(lower, "partnership,"@) || starts_with_seq(
        lower,
        "l.l.c.,"@,
    ) || starts_with_seq(lower, "llc,"@) || starts_with_seq(lower, "ltd.,"@) || starts_with_seq(lower, "inc.,"@))
    &&& early_reporter(lower)
    &&& (ends_with_seq(prev, "Ltd."@) || ends_with_seq(prev, "L.L.C."@) || ends_with_seq(prev, "LLC"@)
        || ends_with_seq(prev, "Inc."@) || ends_with_seq(prev, "P'ship"@) || ends_with_seq(prev, "P\u{2019}ship"@))
}

fn chars_end_with(cs: &[char], pat: &str) -> (r: bool)
    ensures r == ends_with_seq(cs@, pat@),
{
    let p = chars_vec(pat);
    if p.len() > cs.len() {
        return false;
    }
    let n = cs.len();
    let off = n - p.len();
    let mut i: usize = 0;
    while i < p.len()
        invariant
            i <= p@.len(),
            n == cs@.len(),
            off + p@.len() == n,
            p@ == pat@,
            forall|j: int| 0 <= j < i ==> cs@[off + j] == p@[j],
        decreases p.len() - i,
    {
        if cs[off + i] != p[i] {
            assert(cs@.subrange(off as int, cs@.len() as int)[i as int] != p@[i as int]);
            return false;
        }
        i += 1;
    }
    assert(cs@.subrange(off as int, cs@.len() as int) =~= p@);
    true
}

/// Whether a markerless segment carries the previous page's last note over
/// by the rest of a company name and a reporter citation.
pub fn lm2_citation_suffix_cross_page_bridge(previous: &str, continuation: &str) -> (r: bool)
    ensures r == citation_suffix_bridge(previous@, continuation@),
{
    let pc = chars_vec(previous);
    let e = crate::text::back_whitespace(pc.as_slice(), pc.len());
    proof {
        crate::text::lemma_back_ws_bounds(pc@, pc@.len() as int);
    }
    let prev = crate::text::copy_range(pc.as_slice(), 0, e);
    let cc = chars_vec(continuation);
    let mut lower: Vec<char> = Vec::new();
    let mut i: usize = 0;
    while i < cc.len()
        invariant
            i <= cc@.len(),
            lower@ == cc@.subrange(0, i as int).map_values(|c: char| fold_quote_lower(c)),
        decreases cc.len() - i,
    {
        let c = cc[i];
        let f = if c == '\u{2019}' || c == '\u{2018}' {
            '\''
        } else {
            ascii_lower_char(c)
        };
        lower.push(f);
        proof {
            assert(cc@.subrange(0, i as int + 1).map_values(|c: char| fold_quote_lower(c)) =~= cc@.subrange(
                0,
                i as int,
            ).map_values(|c: char| fold_quote_lower(c)).push(f));
        }
        i += 1;
    }
    assert(cc@.subrange(0, cc@.len() as int) =~= cc@);
    let l = lower.as_slice();
    let suffix = chars_start_with(l, "p'ship,") || chars_start_with(l, "partnership,") || chars_start_with(
        l,
        "l.l.c.,",
    ) || chars_start_with(l, "llc,") || chars_start_with(l, "ltd.,") || chars_start_with(l, "inc.,");
    if !suffix {
        return false;
    }
    let words = token_ranges_exec(l);
    let mut reporter = false;
    let mut k: usize = 0;
    while k < words.len() && k < 12
        invariant
            k <= words@.len(),
            k <= 12,
            words@.len() == token_ranges(l@).len(),
            forall|j: int| 0 <= j < words@.len() ==> (#[trigger] words@[j].0 as int, words@[j].1 as int)
                == token_ranges(l@)[j],
            forall|j: int| 0 <= j < words@.len() ==> #[trigger] words@[j].0 < words@[j].1 <= l@.len(),
            reporter == exists|j: int|
                0 <= j < k && {
                    let w = #[trigger] word_at(l@, j);
                    w == "f.2d"@ || w == "f.3d"@ || w == "f.4th"@ || w == "u.s."@ || w == "s.ct."@
                },
        decreases words.len() - k,
    {
        let (a, b) = words[k];
        let w = crate::text::copy_range(l, a, b);
        let ws = w.as_slice();
        let hit = chars_eq(ws, "f.2d") || chars_eq(ws, "f.3d") || chars_eq(ws, "f.4th") || chars_eq(ws, "u.s.")
            || chars_eq(ws, "s.ct.");
        proof {
            assert(w@ == word_at(l@, k as int));
        }
        reporter = reporter || hit;
        k += 1;
    }
    let p = prev.as_slice();
    assert(p@ == crate::text::trim_end(previous@));
    assert(l@ == continuation@.map_values(|c: char| fold_quote_lower(c)));
    assert(reporter == early_reporter(l@)) by {
        if early_reporter(l@) {
            let i = choose|i: int|
                0 <= i < 12 && i < token_ranges(l@).len() && {
                    let w = #[trigger] word_at(l@, i);
                    w == "f.2d"@ || w == "f.3d"@ || w == "f.4th"@ || w == "u.s."@ || w == "s.ct."@
                };
            assert(i < k);
        }
    }
    reporter && (chars_end_with(p, "Ltd.") || chars_end_with(p, "L.L.C.") || chars_end_with(p, "LLC")
        || chars_end_with(p, "Inc.") || chars_end_with(p, "P'ship") || chars_end_with(p, "P\u{2019}ship"))
}

/// The citation cue of a carried-over note segment: the company-name
/// bridge to the previous note, or citation matter in the segment.
/// `previous` is the previous note's text without callout sentinels,
/// `collapsed` the segment's text with whitespace runs collapsed, and
/// `normalized` its normalized text.
pub fn lm2_citation_continuation(previous: &str, collapsed: &str, normalized: &str) -> (r: bool)
    ensures r == (citation_suffix_bridge(previous@, collapsed@) || citation_continuation_cue(normalized@)),
{
    lm2_citation_suffix_cross_page_bridge(previous, collapsed) || lm2_uppercase_note_continuation_cue(normalized)
}

/// A line among the first nine of `page` opens with a numbered table or
/// figure caption (`normalized` holds each decoded line's normalized text).
pub open spec fn caption_band(
    decoded: Seq<(crate::types::Lm2SourceLine, crate::types::Lm2Action)>,
    normalized: Seq<String>,
    page: usize,
) -> bool {
    exists|i: int|
        0 <= i < decoded.len() && (#[trigger] decoded[i]).0.page_index == page && decoded[i].0.line_index <= 8
            && numbered_caption(normalized[i]@)
}

/// Whether a numbered table or figure caption opens `page`: the caption
/// band that makes an article boundary on that page false.
pub fn lm2_caption_band(
    decoded: &[(crate::types::Lm2SourceLine, crate::types::Lm2Action)],
    normalized: &[String],
    page: usize,
) -> (r: bool)
    requires normalized@.len() == decoded@.len(),
    ensures r == caption_band(decoded@, normalized@, page),
{
    let mut i: usize = 0;
    while i < decoded.len()
        invariant
            i <= decoded@.len(),
            normalized@.len() == decoded@.len(),
            forall|j: int|
                0 <= j < i ==> !((#[trigger] decoded@[j]).0.page_index == page && decoded@[j].0.line_index <= 8
                    && numbered_caption(normalized@[j]@)),
        decreases decoded.len() - i,
    {
        let l = &decoded[i].0;
        if l.page_index == page && l.line_index <= 8 && lm2_numbered_table_figure_caption(normalized[i].as_str()) {
            assert(decoded@[i as int].0.page_index == page);
            return true;
        }
        i += 1;
    }
    false
}

} // verus!
