//! Numbered outline subheadings that the decoder took for a note: a single
//! row carrying a small note number, shaped like a title-case outline
//! heading, set between two body blocks on consecutive lines.
use vstd::prelude::*;

use crate::blocks::{entry_position, entry_position_exec, lemma_last_entry_of};
use crate::outline::{lm2_outline_heading_role, lm2_title_case_numbered_outline, outline_heading_role_spec, title_case_outline_spec};
use crate::tables::{lm2_word_count, word_count};
use crate::types::{LiquidBlock, LiquidBlockRole, LiquidBlockSourceLines, LiquidSourceLineRef};

verus! {

/// A role of running body text.
pub open spec fn body_text_role(r: LiquidBlockRole) -> bool {
    r == LiquidBlockRole::Paragraph || r == LiquidBlockRole::Lead || r == LiquidBlockRole::Quote
        || r == LiquidBlockRole::ListItem
}

/// The single row's text reads as a title-case numbered subheading of three
/// to eight words.
pub open spec fn numbered_subheading_text(t: Seq<char>) -> bool {
    &&& outline_heading_role_spec(t) == Some(LiquidBlockRole::Subheading)
    &&& 3 <= word_count(t) <= 8
    &&& title_case_outline_spec(t)
}

/// Block `i` is a Marginalia block between two body blocks whose provenance
/// is one row with a note number from 1 to 20, a numbered subheading's text,
/// on the line right after the previous block's last row and right before
/// the next block's first row, all on one page.
pub open spec fn sandwiched_subheading(blocks: Seq<LiquidBlock>, srcs: Seq<LiquidBlockSourceLines>, i: int) -> bool {
    &&& 1 <= i
    &&& i + 1 < blocks.len()
    &&& blocks[i].role == LiquidBlockRole::Marginalia
    &&& body_text_role(blocks[i - 1].role)
    &&& body_text_role(blocks[i + 1].role)
    &&& entry_position(srcs, i - 1) matches Some(pp)
    &&& entry_position(srcs, i) matches Some(cp)
    &&& entry_position(srcs, i + 1) matches Some(np)
    &&& srcs[pp].lines@.len() > 0
    &&& srcs[cp].lines@.len() == 1
    &&& srcs[np].lines@.len() > 0
    &&& {
        let prev = srcs[pp].lines@.last();
        let cur = srcs[cp].lines@[0];
        let next = srcs[np].lines@[0];
        &&& cur.note_markers@.len() > 0
        &&& 1 <= cur.note_markers@[0] <= 20
        &&& numbered_subheading_text(cur.text@)
        &&& prev.page_index == cur.page_index
        &&& cur.page_index == next.page_index
        &&& prev.line_index + 1 == cur.line_index
        &&& cur.line_index + 1 == next.line_index
    }
}

/// Entry `k`'s first row is the row of a recovered subheading.
pub open spec fn recovered_entry(blocks: Seq<LiquidBlock>, srcs: Seq<LiquidBlockSourceLines>, k: int) -> bool {
    &&& sandwiched_subheading(blocks, srcs, srcs[k].block_index as int)
    &&& entry_position(srcs, srcs[k].block_index as int) == Some(k)
}

/// `n` is `o`, as a recovered subheading row when `recovered`: role
/// Subheading and no note number.
pub open spec fn subheading_row(o: LiquidSourceLineRef, n: LiquidSourceLineRef, recovered: bool) -> bool {
    &&& n.id == o.id
    &&& n.page_index == o.page_index
    &&& n.line_index == o.line_index
    &&& n.text == o.text
    &&& n.role == if recovered {
        LiquidBlockRole::Subheading
    } else {
        o.role
    }
    &&& n.note_markers@ == if recovered {
        Seq::<u16>::empty()
    } else {
        o.note_markers@
    }
}

/// How many of the blocks `0..n` are recovered subheadings.
pub open spec fn subheading_count(blocks: Seq<LiquidBlock>, srcs: Seq<LiquidBlockSourceLines>, n: int) -> nat
    decreases n,
{
    if n <= 0 {
        0
    } else {
        subheading_count(blocks, srcs, n - 1) + if sandwiched_subheading(blocks, srcs, n - 1) {
            1nat
        } else {
            0nat
        }
    }
}

pub open spec fn entries_after(
    s0: Seq<LiquidBlockSourceLines>,
    s: Seq<LiquidBlockSourceLines>,
    b0: Seq<LiquidBlock>,
    upto: int,
) -> bool {
    &&& s.len() == s0.len()
    &&& forall|k: int|
        0 <= k < s.len() ==> {
            &&& (#[trigger] s[k]).block_index == s0[k].block_index
            &&& s[k].lines@.len() == s0[k].lines@.len()
            &&& forall|q: int|
                0 <= q < s[k].lines@.len() ==> subheading_row(
                    s0[k].lines@[q],
                    #[trigger] s[k].lines@[q],
                    q == 0 && s0[k].block_index < upto && recovered_entry(b0, s0, k),
                )
        }
}

/// Gives each sandwiched numbered subheading (see
/// `sandwiched_subheading`) back its Subheading role: the block's role and
/// its row's role become Subheading and the row loses its note number.
/// Nothing else changes; the result counts the blocks recovered.
pub fn apply_sandwiched_numbered_outline_recovery(
    blocks: &mut Vec<LiquidBlock>,
    sources: &mut Vec<LiquidBlockSourceLines>,
) -> (repaired: usize)
    ensures
        final(blocks)@.len() == old(blocks)@.len(),
        forall|i: int|
            0 <= i < final(blocks)@.len() ==> {
                &&& (#[trigger] final(blocks)@[i]).text == old(blocks)@[i].text
                &&& final(blocks)@[i].label == old(blocks)@[i].label
                &&& final(blocks)@[i].role == if sandwiched_subheading(old(blocks)@, old(sources)@, i) {
                    LiquidBlockRole::Subheading
                } else {
                    old(blocks)@[i].role
                }
            },
        entries_after(old(sources)@, final(sources)@, old(blocks)@, old(blocks)@.len() as int),
        repaired == subheading_count(old(blocks)@, old(sources)@, old(blocks)@.len() as int),
{
    let ghost b0 = blocks@;
    let ghost s0 = sources@;
    let n = blocks.len();
    if n < 3 {
        proof {
            assert forall|i: int| 0 <= i <= n implies subheading_count(b0, s0, i) == 0 by {
                lemma_no_subheadings_below(b0, s0, i);
            }
        }
        return 0;
    }
    let mut repaired: usize = 0;
    let mut index: usize = 1;
    proof {
        assert(!sandwiched_subheading(b0, s0, 0));
        assert(subheading_count(b0, s0, 0) == 0);
        assert(subheading_count(b0, s0, 1) == 0);
    }
    while index < n - 1
        invariant
            3 <= n == b0.len(),
            1 <= index <= n - 1,
            blocks@.len() == n,
            forall|i: int|
                0 <= i < n ==> {
                    &&& (#[trigger] blocks@[i]).text == b0[i].text
                    &&& blocks@[i].label == b0[i].label
                    &&& blocks@[i].role == if i < index && sandwiched_subheading(b0, s0, i) {
                        LiquidBlockRole::Subheading
                    } else {
                        b0[i].role
                    }
                },
            entries_after(s0, sources@, b0, index as int),
            repaired == subheading_count(b0, s0, index as int),
            repaired <= index,
        decreases n - 1 - index,
    {
        let hit = sandwiched_exec(blocks, sources, index, Ghost(b0), Ghost(s0));
        if hit {
            proof {
                lemma_entry_position_frame(s0, sources@, index as int);
                lemma_last_entry_of(s0, index as int, s0.len() as int);
            }
            let cp = entry_position_exec(sources, index).unwrap();
            let ghost pre = sources@;
            blocks[index].role = LiquidBlockRole::Subheading;
            sources[cp].lines[0].role = LiquidBlockRole::Subheading;
            sources[cp].lines[0].note_markers = Vec::new();
            repaired += 1;
            proof {
                assert forall|k: int| 0 <= k < sources@.len() && k != cp implies #[trigger] sources@[k] == pre[k] by {}
            }
        }
        proof {
            assert forall|k: int| 0 <= k < sources@.len() implies {
                &&& (#[trigger] sources@[k]).block_index == s0[k].block_index
                &&& sources@[k].lines@.len() == s0[k].lines@.len()
                &&& forall|q: int|
                    0 <= q < sources@[k].lines@.len() ==> subheading_row(
                        s0[k].lines@[q],
                        #[trigger] sources@[k].lines@[q],
                        q == 0 && s0[k].block_index < index + 1 && recovered_entry(b0, s0, k),
                    )
            } by {
                lemma_last_entry_of(s0, s0[k].block_index as int, s0.len() as int);
            }
        }
        index += 1;
    }
    proof {
        assert(!sandwiched_subheading(b0, s0, n - 1));
        assert(subheading_count(b0, s0, n as int) == subheading_count(b0, s0, (n - 1) as int));
        assert forall|k: int| 0 <= k < sources@.len() implies {
            &&& (#[trigger] sources@[k]).block_index == s0[k].block_index
            &&& sources@[k].lines@.len() == s0[k].lines@.len()
            &&& forall|q: int|
                0 <= q < sources@[k].lines@.len() ==> subheading_row(
                    s0[k].lines@[q],
                    #[trigger] sources@[k].lines@[q],
                    q == 0 && s0[k].block_index < n && recovered_entry(b0, s0, k),
                )
        } by {
            if s0[k].block_index >= n - 1 {
                assert(!sandwiched_subheading(b0, s0, s0[k].block_index as int));
            }
        }
    }
    repaired
}

proof fn lemma_no_subheadings_below(b: Seq<LiquidBlock>, s: Seq<LiquidBlockSourceLines>, i: int)
    requires b.len() < 3,
    ensures subheading_count(b, s, i) == 0,
    decreases i,
{
    if i > 0 {
        lemma_no_subheadings_below(b, s, i - 1);
    }
}

/// Where entries keep their blocks, they keep their positions.
proof fn lemma_entry_position_frame(s0: Seq<LiquidBlockSourceLines>, s: Seq<LiquidBlockSourceLines>, b: int)
    requires
        s.len() == s0.len(),
        forall|k: int| 0 <= k < s.len() ==> (#[trigger] s[k]).block_index == s0[k].block_index,
    ensures entry_position(s, b) == entry_position(s0, b),
{
    lemma_last_entry_of_frame(s0, s, b, s.len() as int);
}

proof fn lemma_last_entry_of_frame(s0: Seq<LiquidBlockSourceLines>, s: Seq<LiquidBlockSourceLines>, b: int, n: int)
    requires
        s.len() == s0.len(),
        forall|k: int| 0 <= k < s.len() ==> (#[trigger] s[k]).block_index == s0[k].block_index,
    ensures crate::blocks::last_entry_of(s, b, n) == crate::blocks::last_entry_of(s0, b, n),
    decreases n,
{
    if n > 0 && n <= s.len() {
        assert(s[n - 1].block_index == s0[n - 1].block_index);
        lemma_last_entry_of_frame(s0, s, b, n - 1);
    }
}

fn body_text_role_exec(r: LiquidBlockRole) -> (b: bool)
    ensures b == body_text_role(r),
{
    match r {
        LiquidBlockRole::Paragraph | LiquidBlockRole::Lead | LiquidBlockRole::Quote | LiquidBlockRole::ListItem => true,
        _ => false,
    }
}

/// Whether block `index` is a sandwiched subheading of the original blocks,
/// read from the current ones (earlier candidates may have been recovered).
fn sandwiched_exec(
    blocks: &Vec<LiquidBlock>,
    sources: &Vec<LiquidBlockSourceLines>,
    index: usize,
    Ghost(b0): Ghost<Seq<LiquidBlock>>,
    Ghost(s0): Ghost<Seq<LiquidBlockSourceLines>>,
) -> (r: bool)
    requires
        1 <= index,
        index + 1 < blocks@.len(),
        blocks@.len() == b0.len(),
        forall|i: int|
            0 <= i < b0.len() ==> {
                &&& (#[trigger] blocks@[i]).text == b0[i].text
                &&& blocks@[i].role == if i < index && sandwiched_subheading(b0, s0, i) {
                    LiquidBlockRole::Subheading
                } else {
                    b0[i].role
                }
            },
        entries_after(s0, sources@, b0, index as int),
    ensures r == sandwiched_subheading(b0, s0, index as int),
{
    proof {
        lemma_entry_position_frame(s0, sources@, index - 1);
        lemma_entry_position_frame(s0, sources@, index as int);
        lemma_entry_position_frame(s0, sources@, index + 1);
        lemma_last_entry_of(s0, index - 1, s0.len() as int);
        lemma_last_entry_of(s0, index as int, s0.len() as int);
        lemma_last_entry_of(s0, index + 1, s0.len() as int);
    }
    let len = blocks.len();
    assert(index + 1 < len);
    if !(blocks[index].role == LiquidBlockRole::Marginalia && body_text_role_exec(blocks[index - 1].role)
        && body_text_role_exec(blocks[index + 1].role)) {
        return false;
    }
    let pp = match entry_position_exec(sources, index - 1) {
        Some(p) => p,
        None => return false,
    };
    let cp = match entry_position_exec(sources, index) {
        Some(p) => p,
        None => return false,
    };
    let np = match entry_position_exec(sources, index + 1) {
        Some(p) => p,
        None => return false,
    };
    let prev_rows = &sources[pp].lines;
    let cur_rows = &sources[cp].lines;
    let next_rows = &sources[np].lines;
    if prev_rows.len() == 0 || cur_rows.len() != 1 || next_rows.len() == 0 {
        return false;
    }
    let prev = &prev_rows[prev_rows.len() - 1];
    let cur = &cur_rows[0];
    let next = &next_rows[0];
    proof {
        assert(s0[pp as int].lines@.last() == s0[pp as int].lines@[s0[pp as int].lines@.len() - 1]);
        assert(subheading_row(s0[pp as int].lines@[prev_rows@.len() - 1], sources@[pp as int].lines@[prev_rows@.len() - 1], false)
            || subheading_row(s0[pp as int].lines@[prev_rows@.len() - 1], sources@[pp as int].lines@[prev_rows@.len() - 1], true));
        assert(subheading_row(s0[cp as int].lines@[0], sources@[cp as int].lines@[0], false));
        assert(subheading_row(s0[np as int].lines@[0], sources@[np as int].lines@[0], false));
    }
    if cur.note_markers.len() == 0 {
        return false;
    }
    let m = cur.note_markers[0];
    if !(1 <= m && m <= 20) {
        return false;
    }
    if !(prev.page_index == cur.page_index && cur.page_index == next.page_index) {
        return false;
    }
    if !(cur.line_index > 0 && prev.line_index == cur.line_index - 1 && next.line_index > 0 && cur.line_index
        == next.line_index - 1) {
        return false;
    }
    let text = cur.text.as_str();
    let words = lm2_word_count(text);
    let role_ok = match lm2_outline_heading_role(text) {
        Some(LiquidBlockRole::Subheading) => true,
        _ => false,
    };
    role_ok && 3 <= words && words <= 8
        && lm2_title_case_numbered_outline(text)
}

/// The recovery only relabels Marginalia: a block it gives the Subheading
/// role was a Marginalia block set between two body blocks.
pub proof fn lemma_subheading_recovery_relabels_marginalia(
    blocks: Seq<LiquidBlock>,
    srcs: Seq<LiquidBlockSourceLines>,
    i: int,
)
    requires sandwiched_subheading(blocks, srcs, i),
    ensures
        0 < i < blocks.len() - 1,
        blocks[i].role == LiquidBlockRole::Marginalia,
        body_text_role(blocks[i - 1].role) && body_text_role(blocks[i + 1].role),
        !sandwiched_subheading(blocks, srcs, i - 1),
        !sandwiched_subheading(blocks, srcs, i + 1),
{
}

} // verus!
