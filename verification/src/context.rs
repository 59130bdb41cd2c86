//! Line-level cues that the learned context models read: how an assembled
//! role maps back to a decoder action, the majority action of a window,
//! note-start and dot-leader shapes, the shape of a line's text, normalized
//! document paths, and the small-font furniture that the layout priors
//! recognize.
use vstd::prelude::*;

use crate::markers::digit_run_end;
use crate::text::{
    ascii_lower_char, ascii_lower_of, char_is_alphabetic, chars_contain, chars_start_with, chars_vec, contains_seq, is_ascii_alnum, is_ascii_alpha, is_ascii_alphabetic, is_ascii_alphanumeric, is_ascii_digit, is_ascii_lower, is_ascii_lowercase, is_ascii_upper, is_digit, is_whitespace, is_ws, lemma_skip_ws_bounds, skip_whitespace, starts_with_seq, string_push, token_ranges, token_ranges_exec, trim, trim_bounds, trim_start, unicode_alphabetic,
};
use crate::types::{LiquidBlockRole, Lm2Action};

verus! {

// ---------------------------------------------------------------------------
// Actions
// ---------------------------------------------------------------------------

/// The position of an action in the models' class order.
pub open spec fn action_index(a: Lm2Action) -> int {
    match a {
        Lm2Action::HideNoise => 0,
        Lm2Action::Keep => 1,
        Lm2Action::Marginalia => 2,
    }
}

/// The class index of a decoder action (`HideNoise`, `Keep`, `Marginalia`).
pub fn lm2_context_action_index(action: Lm2Action) -> (r: usize)
    ensures r == action_index(action),
{
    match action {
        Lm2Action::HideNoise => 0,
        Lm2Action::Keep => 1,
        Lm2Action::Marginalia => 2,
    }
}

/// The decoder action that an assembled role stands for.
pub open spec fn action_for_role(role: LiquidBlockRole) -> Lm2Action {
    match role {
        LiquidBlockRole::Footnote | LiquidBlockRole::Marginalia => Lm2Action::Marginalia,
        LiquidBlockRole::Table | LiquidBlockRole::Caption | LiquidBlockRole::Contents
        | LiquidBlockRole::Header | LiquidBlockRole::Footer | LiquidBlockRole::Metadata
        | LiquidBlockRole::SectionBreak | LiquidBlockRole::Noise => Lm2Action::HideNoise,
        _ => Lm2Action::Keep,
    }
}

/// Notes map to `Marginalia`, tables, captions, contents, page furniture,
/// metadata, section breaks and noise to `HideNoise`, the rest to `Keep`.
pub fn lm2_context_action_for_role(role: LiquidBlockRole) -> (r: Lm2Action)
    ensures r == action_for_role(role),
{
    match role {
        LiquidBlockRole::Footnote | LiquidBlockRole::Marginalia => Lm2Action::Marginalia,
        LiquidBlockRole::Table | LiquidBlockRole::Caption | LiquidBlockRole::Contents
        | LiquidBlockRole::Header | LiquidBlockRole::Footer | LiquidBlockRole::Metadata
        | LiquidBlockRole::SectionBreak | LiquidBlockRole::Noise => Lm2Action::HideNoise,
        _ => Lm2Action::Keep,
    }
}

/// How often `a` occurs in `s`.
pub open spec fn action_count(s: Seq<Lm2Action>, a: Lm2Action) -> nat
    decreases s.len(),
{
    if s.len() == 0 {
        0
    } else {
        action_count(s.drop_last(), a) + if s.last() == a {
            1nat
        } else {
            0nat
        }
    }
}

/// The most frequent action; a tie goes to the later action in class order.
pub open spec fn most_common_action(s: Seq<Lm2Action>) -> Lm2Action {
    let h = action_count(s, Lm2Action::HideNoise);
    let k = action_count(s, Lm2Action::Keep);
    let m = action_count(s, Lm2Action::Marginalia);
    if m >= k && m >= h {
        Lm2Action::Marginalia
    } else if k >= h {
        Lm2Action::Keep
    } else {
        Lm2Action::HideNoise
    }
}

/// The majority action of a window of decoded lines (always present; on a
/// tie the later action in class order wins, so `Marginalia` for an empty
/// window).
pub fn most_common_lm2_context_action(actions: &[Lm2Action]) -> (r: Option<Lm2Action>)
    ensures r == Some(most_common_action(actions@)),
{
    let mut h: usize = 0;
    let mut k: usize = 0;
    let mut m: usize = 0;
    let mut i: usize = 0;
    while i < actions.len()
        invariant
            i <= actions@.len(),
            h == action_count(actions@.subrange(0, i as int), Lm2Action::HideNoise),
            k == action_count(actions@.subrange(0, i as int), Lm2Action::Keep),
            m == action_count(actions@.subrange(0, i as int), Lm2Action::Marginalia),
            h + k + m == i,
        decreases actions.len() - i,
    {
        proof {
            assert(actions@.subrange(0, i + 1).drop_last() =~= actions@.subrange(0, i as int));
        }
        match actions[i] {
            Lm2Action::HideNoise => h += 1,
            Lm2Action::Keep => k += 1,
            Lm2Action::Marginalia => m += 1,
        }
        i += 1;
    }
    proof {
        assert(actions@.subrange(0, actions@.len() as int) =~= actions@);
    }
    if m >= k && m >= h {
        Some(Lm2Action::Marginalia)
    } else if k >= h {
        Some(Lm2Action::Keep)
    } else {
        Some(Lm2Action::HideNoise)
    }
}

/// The majority action is a true majority: no action occurs more often.
pub proof fn lemma_most_common_action_is_maximal(s: Seq<Lm2Action>, a: Lm2Action)
    ensures action_count(s, most_common_action(s)) >= action_count(s, a),
{
}

// ---------------------------------------------------------------------------
// Text cues
// ---------------------------------------------------------------------------

/// The text has a dot leader: three dots, three middle dots or an ellipsis.
pub open spec fn has_dotleader(s: Seq<char>) -> bool {
    contains_seq(s, "..."@) || contains_seq(s, "\u{b7}\u{b7}\u{b7}"@) || contains_seq(
        s,
        "\u{2026}"@,
    )
}

/// Whether the text carries a dot leader.
pub fn lm2_context_has_dotleader(text: &str) -> (r: bool)
    ensures r == has_dotleader(text@),
{
    let cs = chars_vec(text);
    chars_contain(cs.as_slice(), "...") || chars_contain(cs.as_slice(), "\u{b7}\u{b7}\u{b7}")
        || chars_contain(cs.as_slice(), "\u{2026}")
}

/// Whether the text has any alphabetic character.
pub fn lm2_context_has_substantive_text(text: &str) -> (r: bool)
    ensures r == exists|i: int| 0 <= i < text@.len() && unicode_alphabetic(#[trigger] text@[i]),
{
    let cs = chars_vec(text);
    let mut i: usize = 0;
    while i < cs.len()
        invariant
            i <= cs@.len(),
            cs@ == text@,
            forall|j: int| 0 <= j < i ==> !unicode_alphabetic(#[trigger] cs@[j]),
        decreases cs.len() - i,
    {
        if char_is_alphabetic(cs[i]) {
            return true;
        }
        i += 1;
    }
    false
}

/// A path key: backslashes as slashes, ASCII letters in lower case.
pub open spec fn path_key_char(c: char) -> char {
    if c == '\\' {
        '/'
    } else {
        ascii_lower_of(c)
    }
}

fn path_key_char_exec(c: char) -> (r: char)
    ensures r == path_key_char(c),
{
    if c == '\\' {
        '/'
    } else {
        ascii_lower_char(c)
    }
}

/// The normalized form of a document path used to key learned overlays:
/// trimmed, with slashes for backslashes, ASCII letters lower-cased.
pub fn lm2_context_norm_path(value: &str) -> (r: String)
    ensures r@ == trim(value@).map_values(|c: char| path_key_char(c)),
{
    let cs = chars_vec(value);
    let (a, b) = trim_bounds(cs.as_slice());
    let mut out = String::new();
    let mut i = a;
    while i < b
        invariant
            a <= i <= b <= cs@.len(),
            cs@ == value@,
            trim(value@) == cs@.subrange(a as int, b as int),
            out@ == cs@.subrange(a as int, i as int).map_values(|c: char| path_key_char(c)),
        decreases b - i,
    {
        string_push(&mut out, path_key_char_exec(cs[i]));
        i += 1;
        proof {
            assert(out@ =~= cs@.subrange(a as int, i as int).map_values(|c: char| path_key_char(c)));
        }
    }
    out
}

/// The note-start shapes the context model knows: a `*`, `†`, `‡` or `§`
/// mark before a space; `a) `; or one to four digits, optionally in
/// parentheses (`12 `, `(12) `, `12) `).
pub open spec fn context_note_start(s: Seq<char>) -> bool {
    let t = trim_start(s);
    if t.len() == 0 {
        false
    } else if t[0] == '*' || t[0] == '\u{2020}' || t[0] == '\u{2021}' || t[0] == '\u{a7}' {
        t.len() > 1 && is_ws(t[1])
    } else if is_ascii_lower(t[0]) {
        t.len() > 2 && t[1] == ')' && is_ws(t[2])
    } else {
        let r = if t[0] == '(' {
            t.drop_first()
        } else {
            t
        };
        let d = digit_run_end(r, 0);
        let r2 = r.subrange(d, r.len() as int);
        let r3 = if r2.len() > 0 && r2[0] == ')' {
            r2.drop_first()
        } else {
            r2
        };
        1 <= d <= 4 && r3.len() > 0 && is_ws(r3[0])
    }
}

/// Whether a line opens like a note in the context model's eyes.
pub fn lm2_context_note_start(text: &str) -> (r: bool)
    ensures r == context_note_start(text@),
{
    let cs = chars_vec(text);
    let s = cs.as_slice();
    let a = skip_whitespace(s, 0);
    proof {
        lemma_skip_ws_bounds(s@, 0);
        crate::markers::lemma_digit_run_end(s@, a as int);
    }
    let ghost t = trim_start(text@);
    assert(t == s@.subrange(a as int, s@.len() as int));
    if a >= s.len() {
        return false;
    }
    let first = s[a];
    if first == '*' || first == '\u{2020}' || first == '\u{2021}' || first == '\u{a7}' {
        return a + 1 < s.len() && is_whitespace(s[a + 1]);
    }
    if is_ascii_lowercase(first) {
        return a + 1 < s.len() && s[a + 1] == ')' && a + 2 < s.len() && is_whitespace(s[a + 2]);
    }
    let mut p = a;
    if first == '(' {
        p = a + 1;
    }
    let ghost r = if t[0] == '(' {
        t.drop_first()
    } else {
        t
    };
    assert(r == s@.subrange(p as int, s@.len() as int));
    let mut e = p;
    while e < s.len() && is_ascii_digit(s[e])
        invariant
            p <= e <= s@.len(),
            r == s@.subrange(p as int, s@.len() as int),
            digit_run_end(r, 0) == digit_run_end(r, (e - p) as int),
        decreases s.len() - e,
    {
        e += 1;
    }
    proof {
        crate::markers::lemma_digit_run_end(r, 0);
    }
    let d = e - p;
    assert(d == digit_run_end(r, 0));
    if d < 1 || d > 4 {
        return false;
    }
    let mut q = e;
    if q < s.len() && s[q] == ')' {
        q = q + 1;
    }
    proof {
        let r2 = r.subrange(d as int, r.len() as int);
        assert(r2 == s@.subrange(e as int, s@.len() as int));
        let r3 = if r2.len() > 0 && r2[0] == ')' {
            r2.drop_first()
        } else {
            r2
        };
        assert(r3 == s@.subrange(q as int, s@.len() as int));
    }
    q < s.len() && is_whitespace(s[q])
}

// ---------------------------------------------------------------------------
// Small-font page furniture
// ---------------------------------------------------------------------------

/// The phrases of repository cover pages, copyright lines and running
/// furniture that mark a small-font row as page furniture.
pub open spec fn furniture_phrase(t: Seq<char>) -> bool {
    ||| contains_seq(t, "all rights reserved"@)
    ||| contains_seq(t, "published by "@)
    ||| contains_seq(t, "brought to you for free and open access"@)
    ||| contains_seq(t, "accepted for inclusion"@)
    ||| contains_seq(t, "law archive of scholarship"@)
    ||| contains_seq(t, "scholar commons"@)
    ||| contains_seq(t, "scholarcommons"@)
    ||| contains_seq(t, "for more information, please contact"@)
    ||| contains_seq(t, "journal of legal studies"@)
    ||| contains_seq(t, "university press"@)
    ||| contains_seq(t, "footnote continued"@)
    ||| (contains_seq(t, "received:"@) && contains_seq(t, "revised:"@))
}

/// The second whitespace-separated token exists and is all ASCII digits.
pub open spec fn second_token_numeric(t: Seq<char>) -> bool {
    let r = token_ranges(t);
    r.len() >= 2 && forall|i: int| r[1].0 <= i < r[1].1 ==> is_digit(#[trigger] t[i])
}

/// A lower-cased row that is page furniture: a volume or page label, a
/// copyright or repository notice, an e-mail address or a web address.
pub open spec fn small_font_furniture(lower: Seq<char>) -> bool {
    let t = trim(lower);
    &&& t.len() > 0
    &&& {
        ||| starts_with_seq(t, "[vol."@)
        ||| starts_with_seq(t, "vol."@)
        ||| (starts_with_seq(t, "page "@) && second_token_numeric(t))
        ||| starts_with_seq(t, "copyright "@)
        ||| furniture_phrase(t)
        ||| contains_seq(t, "@"@)
        ||| contains_seq(t, "http://"@)
        ||| contains_seq(t, "https://"@)
    }
}

fn furniture_phrase_exec(t: &[char]) -> (r: bool)
    ensures r == furniture_phrase(t@),
{
    chars_contain(t, "all rights reserved") || chars_contain(t, "published by ")
        || chars_contain(t, "brought to you for free and open access")
        || chars_contain(t, "accepted for inclusion")
        || chars_contain(t, "law archive of scholarship") || chars_contain(t, "scholar commons")
        || chars_contain(t, "scholarcommons")
        || chars_contain(t, "for more information, please contact")
        || chars_contain(t, "journal of legal studies") || chars_contain(t, "university press")
        || chars_contain(t, "footnote continued") || (chars_contain(t, "received:")
        && chars_contain(t, "revised:"))
}

fn second_token_numeric_exec(t: &[char]) -> (r: bool)
    ensures r == second_token_numeric(t@),
{
    let ranges = token_ranges_exec(t);
    if ranges.len() < 2 {
        return false;
    }
    let (a, b) = ranges[1];
    assert((a as int, b as int) == token_ranges(t@)[1]);
    let mut i = a;
    while i < b
        invariant
            a <= i <= b <= t@.len(),
            (a as int, b as int) == token_ranges(t@)[1],
            token_ranges(t@).len() >= 2,
            forall|j: int| a <= j < i ==> is_digit(#[trigger] t@[j]),
        decreases b - i,
    {
        if !is_ascii_digit(t[i]) {
            assert(!is_digit(t@[i as int]));
            return false;
        }
        i += 1;
    }
    true
}

/// Whether a lower-cased small-font row is page furniture rather than note
/// text.
pub fn looks_like_small_font_page_furniture(lower: &str) -> (r: bool)
    ensures r == small_font_furniture(lower@),
{
    let cs = chars_vec(lower);
    let (a, b) = trim_bounds(cs.as_slice());
    if a == b {
        return false;
    }
    let mut t: Vec<char> = Vec::new();
    let mut i = a;
    while i < b
        invariant
            a <= i <= b <= cs@.len(),
            t@ == cs@.subrange(a as int, i as int),
        decreases b - i,
    {
        t.push(cs[i]);
        i += 1;
    }
    let ts = t.as_slice();
    assert(ts@ == trim(lower@));
    if chars_start_with(ts, "[vol.") || chars_start_with(ts, "vol.") {
        return true;
    }
    if chars_start_with(ts, "page ") && second_token_numeric_exec(ts) {
        return true;
    }
    if chars_start_with(ts, "copyright ") || furniture_phrase_exec(ts) {
        return true;
    }
    chars_contain(ts, "@") || chars_contain(ts, "http://") || chars_contain(ts, "https://")
}

// ---------------------------------------------------------------------------
// Text shape
// ---------------------------------------------------------------------------

/// The shape of a line's text as the context model measures it: its counts
/// of characters, tokens, ASCII letters, ASCII capitals and ASCII digits,
/// and whether it is short, a bare number or roman numeral, in capitals
/// throughout, dot-leadered, or opens like a note. (The model's ratio
/// features divide these counts.)
#[derive(Clone, Copy, Debug)]
pub struct Lm2ContextTextShape {
    pub char_count: usize,
    pub token_count: usize,
    pub letter_count: usize,
    pub upper_count: usize,
    pub digit_count: usize,
    pub short_text: bool,
    pub numeric_or_roman: bool,
    pub allcaps: bool,
    pub dotleader: bool,
    pub note_start: bool,
}

/// A character of a token: an ASCII letter or digit, or `§`.
pub open spec fn is_token_char(c: char) -> bool {
    is_ascii_alnum(c) || c == '\u{a7}'
}

/// An ASCII digit or a roman-numeral letter of either case.
pub open spec fn is_numeral_char(c: char) -> bool {
    is_digit(c) || c == 'I' || c == 'V' || c == 'X' || c == 'L' || c == 'C' || c == 'D' || c
        == 'M' || c == 'i' || c == 'v' || c == 'x' || c == 'l' || c == 'c' || c == 'd' || c == 'm'
}

/// Number of tokens: maximal runs of token characters.
pub open spec fn token_count(s: Seq<char>) -> nat
    decreases s.len(),
{
    if s.len() == 0 {
        0
    } else {
        token_count(s.drop_last()) + if is_token_char(s.last()) && (s.len() == 1 || !is_token_char(
            s[s.len() - 2],
        )) {
            1nat
        } else {
            0nat
        }
    }
}

/// Number of ASCII letters.
pub open spec fn letter_count(s: Seq<char>) -> nat
    decreases s.len(),
{
    if s.len() == 0 {
        0
    } else {
        letter_count(s.drop_last()) + if is_ascii_alpha(s.last()) {
            1nat
        } else {
            0nat
        }
    }
}

/// Number of ASCII capitals.
pub open spec fn upper_count(s: Seq<char>) -> nat
    decreases s.len(),
{
    if s.len() == 0 {
        0
    } else {
        upper_count(s.drop_last()) + if is_ascii_upper(s.last()) {
            1nat
        } else {
            0nat
        }
    }
}

/// Number of ASCII digits.
pub open spec fn digit_count(s: Seq<char>) -> nat
    decreases s.len(),
{
    if s.len() == 0 {
        0
    } else {
        digit_count(s.drop_last()) + if is_digit(s.last()) {
            1nat
        } else {
            0nat
        }
    }
}

/// `r` is the shape of the text `s`.
pub open spec fn is_text_shape(r: Lm2ContextTextShape, s: Seq<char>) -> bool {
    &&& r.char_count == s.len()
    &&& r.token_count == token_count(s)
    &&& r.letter_count == letter_count(s)
    &&& r.upper_count == upper_count(s)
    &&& r.digit_count == digit_count(s)
    &&& r.short_text == (token_count(s) <= 4 || s.len() <= 24)
    &&& r.numeric_or_roman == (0 < s.len() <= 8 && forall|i: int|
        0 <= i < s.len() ==> is_numeral_char(#[trigger] s[i]))
    &&& r.allcaps == (letter_count(s) >= 8 && upper_count(s) == letter_count(s))
    &&& r.dotleader == has_dotleader(s)
    &&& r.note_start == context_note_start(s)
}

proof fn lemma_counts_bounded(s: Seq<char>)
    ensures
        token_count(s) <= s.len(),
        upper_count(s) <= letter_count(s) <= s.len(),
        digit_count(s) <= s.len(),
    decreases s.len(),
{
    if s.len() > 0 {
        lemma_counts_bounded(s.drop_last());
    }
}

/// The shape of a line's text.
pub fn lm2_context_text_shape(text: &str) -> (r: Lm2ContextTextShape)
    ensures is_text_shape(r, text@),
{
    let cs = chars_vec(text);
    let n = cs.len();
    let mut tokens: usize = 0;
    let mut letters: usize = 0;
    let mut uppers: usize = 0;
    let mut digits: usize = 0;
    let mut in_token = false;
    let mut numerals = true;
    let mut i: usize = 0;
    while i < n
        invariant
            n == cs@.len(),
            cs@ == text@,
            i <= n,
            tokens == token_count(cs@.subrange(0, i as int)),
            letters == letter_count(cs@.subrange(0, i as int)),
            uppers == upper_count(cs@.subrange(0, i as int)),
            digits == digit_count(cs@.subrange(0, i as int)),
            tokens <= i && letters <= i && uppers <= i && digits <= i,
            in_token == (i > 0 && is_token_char(cs@[i - 1])),
            numerals == forall|j: int| 0 <= j < i ==> is_numeral_char(#[trigger] cs@[j]),
        decreases n - i,
    {
        let c = cs[i];
        let ghost before = cs@.subrange(0, i as int);
        let ghost after = cs@.subrange(0, i + 1);
        proof {
            assert(after.drop_last() =~= before);
            assert(after.last() == c);
            lemma_counts_bounded(before);
            if i > 0 {
                assert(after[after.len() - 2] == cs@[i - 1]);
            }
        }
        let token = is_ascii_alphanumeric(c) || c == '\u{a7}';
        if token && !in_token {
            tokens += 1;
        }
        in_token = token;
        if is_ascii_alphabetic(c) {
            letters += 1;
        }
        if 'A' <= c && c <= 'Z' {
            uppers += 1;
        }
        if is_ascii_digit(c) {
            digits += 1;
        }
        let numeral = is_ascii_digit(c) || c == 'I' || c == 'V' || c == 'X' || c == 'L' || c == 'C'
            || c == 'D' || c == 'M' || c == 'i' || c == 'v' || c == 'x' || c == 'l' || c == 'c'
            || c == 'd' || c == 'm';
        numerals = numerals && numeral;
        i += 1;
    }
    proof {
        assert(cs@.subrange(0, n as int) =~= cs@);
    }
    Lm2ContextTextShape {
        char_count: n,
        token_count: tokens,
        letter_count: letters,
        upper_count: uppers,
        digit_count: digits,
        short_text: tokens <= 4 || n <= 24,
        numeric_or_roman: n > 0 && n <= 8 && numerals,
        allcaps: letters >= 8 && uppers == letters,
        dotleader: lm2_context_has_dotleader(text),
        note_start: lm2_context_note_start(text),
    }
}

} // verus!
