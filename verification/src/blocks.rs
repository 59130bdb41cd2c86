//! Bookkeeping shared by the block-level passes: removing a block while
//! keeping the provenance table aligned, merging the source lines of two
//! blocks in reading order, and the small provenance predicates the passes
//! consult.
use vstd::prelude::*;

use std::collections::BTreeMap;

use crate::lines::{line_for_row, line_for_source_row, outside_tables};
use crate::text::{ascii_lower_of, ascii_lowercase_vec, chars_contain, chars_vec, contains_seq};
use crate::types::{LiquidBlock, LiquidBlockRole, LiquidBlockSourceLines, LiquidSourceLineRef, Lm2Action, Lm2SourceLine};

verus! {

// ---------------------------------------------------------------------------
// Removing a block
// ---------------------------------------------------------------------------

/// The provenance entry `s` after the block at `index` was removed: entries
/// of later blocks move down by one.
pub open spec fn shift_source(s: LiquidBlockSourceLines, index: int) -> LiquidBlockSourceLines {
    if s.block_index > index {
        LiquidBlockSourceLines { block_index: (s.block_index - 1) as usize, lines: s.lines }
    } else {
        s
    }
}

/// The provenance table after the block at `index` was removed: its own
/// entries are dropped, the others keep their order and follow their block.
pub open spec fn sources_after_removal(
    s: Seq<LiquidBlockSourceLines>,
    index: int,
) -> Seq<LiquidBlockSourceLines>
    decreases s.len(),
{
    if s.len() == 0 {
        Seq::empty()
    } else {
        let rest = sources_after_removal(s.drop_last(), index);
        if s.last().block_index == index {
            rest
        } else {
            rest.push(shift_source(s.last(), index))
        }
    }
}

proof fn lemma_sources_after_removal_step(s: Seq<LiquidBlockSourceLines>, k: int, index: int)
    requires 0 <= k < s.len(),
    ensures
        sources_after_removal(s.subrange(0, k + 1), index) == if s[k].block_index == index {
            sources_after_removal(s.subrange(0, k), index)
        } else {
            sources_after_removal(s.subrange(0, k), index).push(shift_source(s[k], index))
        },
{
    assert(s.subrange(0, k + 1).drop_last() =~= s.subrange(0, k));
}

/// Removing a block keeps the provenance table aligned: every entry that
/// remains names the same block (as a value) that it named before and lies in
/// range of the shorter block list, and every entry of another block remains.
pub proof fn lemma_remove_block_keeps_provenance(
    blocks: Seq<LiquidBlock>,
    sources: Seq<LiquidBlockSourceLines>,
    index: int,
)
    requires
        0 <= index < blocks.len(),
        forall|j: int| 0 <= j < sources.len() ==> #[trigger] sources[j].block_index < blocks.len(),
    ensures
        forall|k: int|
            0 <= k < sources_after_removal(sources, index).len() ==> {
                let e = #[trigger] sources_after_removal(sources, index)[k];
                &&& e.block_index < blocks.remove(index).len()
                &&& exists|j: int|
                    0 <= j < sources.len() && sources[j].block_index != index && e.lines
                        == sources[j].lines && blocks.remove(index)[e.block_index as int]
                        == blocks[sources[j].block_index as int]
            },
        forall|j: int|
            0 <= j < sources.len() && sources[j].block_index != index ==> sources_after_removal(
                sources,
                index,
            ).contains(shift_source(#[trigger] sources[j], index)),
    decreases sources.len(),
{
    if sources.len() > 0 {
        let t = sources.drop_last();
        lemma_remove_block_keeps_provenance(blocks, t, index);
        let r = sources_after_removal(sources, index);
        let rt = sources_after_removal(t, index);
        let last = sources.last();
        let n = sources.len() - 1;
        assert forall|k: int| 0 <= k < r.len() implies {
            let e = #[trigger] r[k];
            &&& e.block_index < blocks.remove(index).len()
            &&& exists|j: int|
                0 <= j < sources.len() && sources[j].block_index != index && e.lines
                    == sources[j].lines && blocks.remove(index)[e.block_index as int]
                    == blocks[sources[j].block_index as int]
        } by {
            if k < rt.len() {
                assert(r[k] == rt[k]);
                let e = rt[k];
                let j = choose|j: int|
                    0 <= j < t.len() && t[j].block_index != index && e.lines == t[j].lines
                        && blocks.remove(index)[e.block_index as int]
                        == blocks[t[j].block_index as int];
                assert(sources[j] == t[j]);
            } else {
                assert(last.block_index != index);
                assert(r[k] == shift_source(last, index));
                assert(sources[n] == last);
                assert(last.block_index < blocks.len());
            }
        }
        assert forall|j: int|
            0 <= j < sources.len() && sources[j].block_index != index implies r.contains(
            shift_source(#[trigger] sources[j], index),
        ) by {
            if j < n {
                assert(sources[j] == t[j]);
                assert(rt.contains(shift_source(t[j], index)));
                let k = choose|k: int| 0 <= k < rt.len() && rt[k] == shift_source(t[j], index);
                assert(r[k] == rt[k]);
            } else {
                assert(r[r.len() - 1] == shift_source(last, index));
            }
        }
    }
}

/// Removes the block at `index` and drops its provenance entries; entries of
/// later blocks are renumbered so that each still names its own block.
pub fn lm2_remove_block(
    index: usize,
    blocks: &mut Vec<LiquidBlock>,
    sources: &mut Vec<LiquidBlockSourceLines>,
)
    requires index < old(blocks)@.len(),
    ensures
        final(blocks)@ == old(blocks)@.remove(index as int),
        final(sources)@ == sources_after_removal(old(sources)@, index as int),
{
    blocks.remove(index);
    let ghost orig = sources@;
    let n = sources.len();
    let mut i: usize = 0;
    let mut k: usize = 0;
    while k < n
        invariant
            n == orig.len(),
            k <= orig.len(),
            i <= sources@.len(),
            sources@.len() - i == orig.len() - k,
            orig == old(sources)@,
            sources@.subrange(0, i as int) == sources_after_removal(orig.subrange(0, k as int), index as int),
            sources@.subrange(i as int, sources@.len() as int) == orig.subrange(k as int, orig.len() as int),
        decreases orig.len() - k,
    {
        proof {
            lemma_sources_after_removal_step(orig, k as int, index as int);
            assert(sources@[i as int] == sources@.subrange(i as int, sources@.len() as int)[0]);
        }
        let ghost before = sources@;
        if sources[i].block_index == index {
            sources.remove(i);
            proof {
                assert(sources@.subrange(0, i as int) =~= before.subrange(0, i as int));
                assert(sources@.subrange(i as int, sources@.len() as int)
                    =~= before.subrange(i as int + 1, before.len() as int));
                assert(orig.subrange(k as int + 1, orig.len() as int)
                    =~= orig.subrange(k as int, orig.len() as int).subrange(1, orig.len() - k));
            }
        } else {
            if sources[i].block_index > index {
                let b = sources[i].block_index - 1;
                sources[i].block_index = b;
            }
            proof {
                assert(sources@[i as int] == shift_source(orig[k as int], index as int));
                assert(sources@.subrange(0, i as int + 1) =~= before.subrange(0, i as int).push(
                    sources@[i as int],
                ));
                assert(sources@.subrange(i as int + 1, sources@.len() as int)
                    =~= before.subrange(i as int + 1, before.len() as int));
                assert(orig.subrange(k as int + 1, orig.len() as int)
                    =~= orig.subrange(k as int, orig.len() as int).subrange(1, orig.len() - k));
            }
            assert(i < sources.len());
            i += 1;
        }
        k += 1;
    }
    proof {
        assert(orig.subrange(0, orig.len() as int) =~= orig);
        assert(sources@.subrange(i as int, sources@.len() as int).len() == 0);
        assert(sources@ =~= sources@.subrange(0, i as int));
    }
}

// ---------------------------------------------------------------------------
// Copies of provenance rows
// ---------------------------------------------------------------------------

/// An exact copy of a list of note markers.
pub fn copy_markers(v: &Vec<u16>) -> (r: Vec<u16>)
    ensures r@ == v@,
{
    let mut r: Vec<u16> = Vec::new();
    let mut i: usize = 0;
    while i < v.len()
        invariant
            i <= v@.len(),
            r@ == v@.subrange(0, i as int),
        decreases v.len() - i,
    {
        r.push(v[i]);
        i += 1;
        proof {
            assert(r@ =~= v@.subrange(0, i as int));
        }
    }
    proof {
        assert(v@.subrange(0, v@.len() as int) =~= v@);
    }
    r
}

fn copy_opt_string(s: &Option<String>) -> (r: Option<String>)
    ensures r == *s,
{
    match s {
        Some(t) => Some(t.clone()),
        None => None,
    }
}

/// An exact copy of one provenance row.
pub fn copy_line_ref(l: &LiquidSourceLineRef) -> (r: LiquidSourceLineRef)
    ensures
        r.id == l.id,
        r.page_index == l.page_index,
        r.line_index == l.line_index,
        r.text == l.text,
        r.role == l.role,
        r.note_markers@ == l.note_markers@,
{
    LiquidSourceLineRef {
        id: copy_opt_string(&l.id),
        page_index: l.page_index,
        line_index: l.line_index,
        text: l.text.clone(),
        role: l.role,
        note_markers: copy_markers(&l.note_markers),
    }
}

/// Two provenance rows that agree on every field (the marker lists by their
/// contents).
pub open spec fn same_line_ref(a: LiquidSourceLineRef, b: LiquidSourceLineRef) -> bool {
    &&& a.id == b.id
    &&& a.page_index == b.page_index
    &&& a.line_index == b.line_index
    &&& a.text == b.text
    &&& a.role == b.role
    &&& a.note_markers@ == b.note_markers@
}

/// Two lists of provenance rows that agree row by row.
pub open spec fn same_line_refs(a: Seq<LiquidSourceLineRef>, b: Seq<LiquidSourceLineRef>) -> bool {
    a.len() == b.len() && forall|i: int| 0 <= i < a.len() ==> same_line_ref(#[trigger] a[i], b[i])
}

// ---------------------------------------------------------------------------
// Provenance predicates
// ---------------------------------------------------------------------------

/// The first note marker carried by any of the rows from `i` on.
pub open spec fn primary_marker_from(s: Seq<LiquidSourceLineRef>, i: int) -> Option<u16>
    decreases s.len() - i,
{
    if i < 0 || i >= s.len() {
        None
    } else if s[i].note_markers@.len() > 0 {
        Some(s[i].note_markers@[0])
    } else {
        primary_marker_from(s, i + 1)
    }
}

/// The first note marker of a block's provenance, if it has any.
#[verifier::loop_isolation(false)]
pub fn lm2_source_primary_note_marker(lines: Option<&Vec<LiquidSourceLineRef>>) -> (r: Option<u16>)
    ensures
        r == match lines {
            Some(v) => primary_marker_from(v@, 0),
            None => None,
        },
{
    let v = match lines {
        Some(v) => v,
        None => return None,
    };
    let mut i: usize = 0;
    while i < v.len()
        invariant
            i <= v@.len(),
            primary_marker_from(v@, 0) == primary_marker_from(v@, i as int),
        decreases v.len() - i,
    {
        if v[i].note_markers.len() > 0 {
            return Some(v[i].note_markers[0]);
        }
        i += 1;
    }
    None
}

/// The last row of the block `left` and the first row of the block `right`
/// are consecutive lines of one page.
pub open spec fn source_blocks_contiguous_spec(
    m: Map<usize, Vec<LiquidSourceLineRef>>,
    left: usize,
    right: usize,
) -> bool {
    &&& m.contains_key(left)
    &&& m.contains_key(right)
    &&& m[left]@.len() > 0
    &&& m[right]@.len() > 0
    &&& m[left]@.last().page_index == m[right]@[0].page_index
    &&& m[left]@.last().line_index + 1 == m[right]@[0].line_index
}

/// Whether two blocks continue one another line by line on the same page.
pub fn lm2_source_blocks_contiguous(
    sources: &BTreeMap<usize, Vec<LiquidSourceLineRef>>,
    left_index: usize,
    right_index: usize,
) -> (r: bool)
    ensures r == source_blocks_contiguous_spec(sources@, left_index, right_index),
{
    let left = match sources.get(&left_index) {
        Some(v) => v,
        None => return false,
    };
    let right = match sources.get(&right_index) {
        Some(v) => v,
        None => return false,
    };
    if left.len() == 0 || right.len() == 0 {
        return false;
    }
    let left_line = &left[left.len() - 1];
    let right_line = &right[0];
    left_line.page_index == right_line.page_index && left_line.line_index < usize::MAX
        && left_line.line_index + 1 == right_line.line_index
}

/// `id` is one of `ids`.
pub open spec fn id_listed(ids: Seq<String>, id: Seq<char>) -> bool {
    exists|k: int| 0 <= k < ids.len() && (#[trigger] ids[k])@ == id
}

fn id_listed_exec(ids: &[String], id: &String) -> (r: bool)
    ensures r == id_listed(ids@, id@),
{
    let mut k: usize = 0;
    while k < ids.len()
        invariant
            k <= ids@.len(),
            forall|j: int| 0 <= j < k ==> (#[trigger] ids@[j])@ != id@,
        decreases ids.len() - k,
    {
        if ids[k] == *id {
            return true;
        }
        k += 1;
    }
    false
}

/// A row that no footnote evidence backs: it carries no note marker and its
/// id is not among the rows found in a footnote zone.
pub open spec fn unbacked_row(l: LiquidSourceLineRef, ids: Seq<String>) -> bool {
    &&& l.note_markers@.len() == 0
    &&& match l.id {
        Some(id) => !id_listed(ids, id@),
        None => true,
    }
}

/// A Marginalia or Footnote block none of whose (at least one) rows carries
/// footnote evidence.
pub open spec fn false_body_marginalia_spec(
    role: LiquidBlockRole,
    lines: Option<Seq<LiquidSourceLineRef>>,
    ids: Seq<String>,
) -> bool {
    &&& (role == LiquidBlockRole::Marginalia || role == LiquidBlockRole::Footnote)
    &&& match lines {
        Some(s) => s.len() > 0 && forall|i: int| 0 <= i < s.len() ==> unbacked_row(#[trigger] s[i], ids),
        None => false,
    }
}

/// Whether a note-role block is really body text: nothing in its provenance
/// ties it to a footnote (`footnote_zone_ids` lists the ids of the rows found
/// in a footnote zone).
#[verifier::loop_isolation(false)]
pub fn lm2_false_body_marginalia(
    block: &LiquidBlock,
    source_lines: Option<&Vec<LiquidSourceLineRef>>,
    footnote_zone_ids: &[String],
) -> (r: bool)
    ensures
        r == false_body_marginalia_spec(
            block.role,
            match source_lines {
                Some(v) => Some(v@),
                None => None,
            },
            footnote_zone_ids@,
        ),
{
    if !(block.role == LiquidBlockRole::Marginalia || block.role == LiquidBlockRole::Footnote) {
        return false;
    }
    let lines = match source_lines {
        Some(v) => v,
        None => return false,
    };
    if lines.len() == 0 {
        return false;
    }
    let mut i: usize = 0;
    while i < lines.len()
        invariant
            i <= lines@.len(),
            forall|j: int| 0 <= j < i ==> unbacked_row(#[trigger] lines@[j], footnote_zone_ids@),
        decreases lines.len() - i,
    {
        let line = &lines[i];
        if line.note_markers.len() > 0 {
            proof {
                assert(!unbacked_row(lines@[i as int], footnote_zone_ids@));
            }
            return false;
        }
        match &line.id {
            Some(id) => {
                if id_listed_exec(footnote_zone_ids, id) {
                    proof {
                        assert(!unbacked_row(lines@[i as int], footnote_zone_ids@));
                    }
                    return false;
                }
            },
            None => {},
        }
        i += 1;
    }
    true
}

// ---------------------------------------------------------------------------
// Merging the provenance of two blocks
// ---------------------------------------------------------------------------

/// `a` comes no later than `b` in reading order (page, then line).
pub open spec fn position_le(a: LiquidSourceLineRef, b: LiquidSourceLineRef) -> bool {
    a.page_index < b.page_index || (a.page_index == b.page_index && a.line_index <= b.line_index)
}

/// Where a stable insertion places `x` in `s` (searching from `i`): after
/// every row that does not come later than `x`.
pub open spec fn insert_position(s: Seq<LiquidSourceLineRef>, x: LiquidSourceLineRef, i: int) -> int
    decreases s.len() - i,
{
    if i < 0 || i >= s.len() {
        s.len() as int
    } else if !position_le(s[i], x) {
        i
    } else {
        insert_position(s, x, i + 1)
    }
}

/// `s` in reading order; rows at the same position keep their order (a
/// stable sort by page and line).
pub open spec fn sorted_by_position(s: Seq<LiquidSourceLineRef>) -> Seq<LiquidSourceLineRef>
    decreases s.len(),
{
    if s.len() == 0 {
        Seq::empty()
    } else {
        let t = sorted_by_position(s.drop_last());
        t.insert(insert_position(t, s.last(), 0), s.last())
    }
}

/// The index of the first provenance entry of block `b`, from `i` on.
pub open spec fn first_entry_of(s: Seq<LiquidBlockSourceLines>, b: int, i: int) -> Option<int>
    decreases s.len() - i,
{
    if i < 0 || i >= s.len() {
        None
    } else if s[i].block_index == b {
        Some(i)
    } else {
        first_entry_of(s, b, i + 1)
    }
}

proof fn lemma_first_entry_of(s: Seq<LiquidBlockSourceLines>, b: int, i: int)
    requires 0 <= i,
    ensures
        match first_entry_of(s, b, i) {
            Some(k) => i <= k < s.len() && s[k].block_index == b,
            None => true,
        },
    decreases s.len() - i,
{
    if i < s.len() && s[i].block_index != b {
        lemma_first_entry_of(s, b, i + 1);
    }
}

/// The rows of the first entry of block `b` (none when it has no entry).
pub open spec fn entry_rows(s: Seq<LiquidBlockSourceLines>, b: int) -> Seq<LiquidSourceLineRef> {
    match first_entry_of(s, b, 0) {
        Some(k) => s[k].lines@,
        None => Seq::empty(),
    }
}

proof fn lemma_insert_position(s: Seq<LiquidSourceLineRef>, x: LiquidSourceLineRef, i: int)
    requires 0 <= i <= s.len(),
    ensures i <= insert_position(s, x, i) <= s.len(),
    decreases s.len() - i,
{
    if i < s.len() && position_le(s[i], x) {
        lemma_insert_position(s, x, i + 1);
    }
}

proof fn lemma_insert_position_congruent(
    s: Seq<LiquidSourceLineRef>,
    s2: Seq<LiquidSourceLineRef>,
    x: LiquidSourceLineRef,
    x2: LiquidSourceLineRef,
    i: int,
)
    requires same_line_refs(s, s2), same_line_ref(x, x2),
    ensures insert_position(s, x, i) == insert_position(s2, x2, i),
    decreases s.len() - i,
{
    if 0 <= i < s.len() {
        assert(same_line_ref(s[i], s2[i]));
        lemma_insert_position_congruent(s, s2, x, x2, i + 1);
    }
}

proof fn lemma_same_line_refs_trans(
    a: Seq<LiquidSourceLineRef>,
    b: Seq<LiquidSourceLineRef>,
    c: Seq<LiquidSourceLineRef>,
)
    requires same_line_refs(a, b), same_line_refs(b, c),
    ensures same_line_refs(a, c),
{
    assert forall|i: int| 0 <= i < a.len() implies same_line_ref(#[trigger] a[i], c[i]) by {
        assert(same_line_ref(a[i], b[i]));
        assert(same_line_ref(b[i], c[i]));
    }
}

/// Sorting respects row-by-row agreement: only page and line decide where a
/// row goes.
proof fn lemma_sorted_by_position_congruent(s: Seq<LiquidSourceLineRef>, s2: Seq<LiquidSourceLineRef>)
    requires same_line_refs(s, s2),
    ensures same_line_refs(sorted_by_position(s), sorted_by_position(s2)),
    decreases s.len(),
{
    if s.len() > 0 {
        let t = sorted_by_position(s.drop_last());
        let t2 = sorted_by_position(s2.drop_last());
        assert(same_line_refs(s.drop_last(), s2.drop_last())) by {
            assert forall|i: int| 0 <= i < s.drop_last().len() implies same_line_ref(
                #[trigger] s.drop_last()[i],
                s2.drop_last()[i],
            ) by {
                assert(same_line_ref(s[i], s2[i]));
            }
        }
        lemma_sorted_by_position_congruent(s.drop_last(), s2.drop_last());
        assert(same_line_ref(s[s.len() - 1], s2[s.len() - 1]));
        lemma_insert_position_congruent(t, t2, s.last(), s2.last(), 0);
        lemma_insert_position(t, s.last(), 0);
        let p = insert_position(t, s.last(), 0);
        let u = t.insert(p, s.last());
        let u2 = t2.insert(p, s2.last());
        assert forall|i: int| 0 <= i < u.len() implies same_line_ref(#[trigger] u[i], u2[i]) by {
            if i < p {
                assert(same_line_ref(t[i], t2[i]));
            } else if i > p {
                assert(same_line_ref(t[i - 1], t2[i - 1]));
            }
        }
    }
}

proof fn lemma_insert_position_split(s: Seq<LiquidSourceLineRef>, x: LiquidSourceLineRef, i: int)
    requires 0 <= i <= s.len(),
    ensures
        forall|k: int| i <= k < insert_position(s, x, i) ==> position_le(#[trigger] s[k], x),
        insert_position(s, x, i) < s.len() ==> !position_le(s[insert_position(s, x, i)], x),
    decreases s.len() - i,
{
    if i < s.len() && position_le(s[i], x) {
        lemma_insert_position_split(s, x, i + 1);
    }
}

/// Merged provenance is in reading order and neither loses nor invents a
/// row: the stable sort orders rows by page and line and is a permutation.
pub proof fn lemma_sorted_by_position_ordered_permutation(s: Seq<LiquidSourceLineRef>)
    ensures
        forall|i: int, j: int|
            0 <= i < j < sorted_by_position(s).len() ==> position_le(
                #[trigger] sorted_by_position(s)[i],
                #[trigger] sorted_by_position(s)[j],
            ),
        sorted_by_position(s).to_multiset() == s.to_multiset(),
    decreases s.len(),
{
    broadcast use vstd::seq_lib::to_multiset_insert, vstd::seq_lib::to_multiset_build;

    if s.len() > 0 {
        let x = s.last();
        let t = sorted_by_position(s.drop_last());
        lemma_sorted_by_position_ordered_permutation(s.drop_last());
        lemma_insert_position(t, x, 0);
        lemma_insert_position_split(t, x, 0);
        let p = insert_position(t, x, 0);
        let u = t.insert(p, x);
        assert(u == sorted_by_position(s));
        assert forall|i: int, j: int| 0 <= i < j < u.len() implies position_le(
            #[trigger] u[i],
            #[trigger] u[j],
        ) by {
            if j < p {
                assert(u[i] == t[i] && u[j] == t[j]);
            } else if j == p {
                assert(u[i] == t[i]);
            } else if i < p {
                assert(u[i] == t[i] && u[j] == t[j - 1]);
                assert(position_le(t[i], t[j - 1]));
            } else if i == p {
                assert(u[j] == t[j - 1]);
                assert(!position_le(t[p], x));
                if j - 1 > p {
                    assert(position_le(t[p], t[j - 1]));
                }
            } else {
                assert(u[i] == t[i - 1] && u[j] == t[j - 1]);
            }
        }
        assert(s == s.drop_last().push(x));
        assert(u.to_multiset() == t.to_multiset().insert(x));
        assert(s.drop_last().push(x).to_multiset() == s.drop_last().to_multiset().insert(x));
    } else {
        assert(s =~= Seq::<LiquidSourceLineRef>::empty());
    }
}

fn find_entry(sources: &[LiquidBlockSourceLines], b: usize) -> (r: Option<usize>)
    ensures
        match r {
            Some(k) => first_entry_of(sources@, b as int, 0) == Some(k as int),
            None => first_entry_of(sources@, b as int, 0) is None,
        },
{
    let mut i: usize = 0;
    while i < sources.len()
        invariant
            i <= sources@.len(),
            first_entry_of(sources@, b as int, 0) == first_entry_of(sources@, b as int, i as int),
        decreases sources.len() - i,
    {
        if sources[i].block_index == b {
            return Some(i);
        }
        i += 1;
    }
    None
}

/// `a` followed by `b`, in reading order, as fresh copies.
fn merged_by_position(a: &Vec<LiquidSourceLineRef>, b: &Vec<LiquidSourceLineRef>) -> (r: Vec<
    LiquidSourceLineRef,
>)
    requires a@.len() + b@.len() <= usize::MAX,
    ensures same_line_refs(r@, sorted_by_position(a@ + b@)),
{
    let ghost all = a@ + b@;
    let total = a.len() + b.len();
    let mut r: Vec<LiquidSourceLineRef> = Vec::new();
    let mut j: usize = 0;
    while j < total
        invariant
            total == all.len(),
            all == a@ + b@,
            j <= total,
            same_line_refs(r@, sorted_by_position(all.subrange(0, j as int))),
        decreases total - j,
    {
        let x = if j < a.len() {
            copy_line_ref(&a[j])
        } else {
            copy_line_ref(&b[j - a.len()])
        };
        let ghost xs = all[j as int];
        assert(same_line_ref(x, xs));
        let ghost t = sorted_by_position(all.subrange(0, j as int));
        proof {
            assert(all.subrange(0, j as int + 1).drop_last() =~= all.subrange(0, j as int));
            assert(all.subrange(0, j as int + 1).last() == xs);
            lemma_insert_position(t, xs, 0);
        }
        let mut p: usize = 0;
        while p < r.len() && (r[p].page_index < x.page_index || (r[p].page_index == x.page_index
            && r[p].line_index <= x.line_index))
            invariant
                p <= r@.len(),
                same_line_refs(r@, t),
                same_line_ref(x, xs),
                insert_position(t, xs, 0) == insert_position(t, xs, p as int),
            decreases r.len() - p,
        {
            p += 1;
        }
        let ghost before = r@;
        r.insert(p, x);
        proof {
            let u = t.insert(p as int, xs);
            assert(sorted_by_position(all.subrange(0, j as int + 1)) == u);
            assert forall|i: int| 0 <= i < r@.len() implies same_line_ref(#[trigger] r@[i], u[i]) by {
                if i < p {
                    assert(r@[i] == before[i]);
                } else if i > p {
                    assert(r@[i] == before[i - 1]);
                }
            }
        }
        j += 1;
    }
    proof {
        assert(all.subrange(0, total as int) =~= all);
    }
    r
}

/// Appends the rows of block `donor` to those of block `target` and puts the
/// result in reading order (a stable sort by page, then line). Only the
/// first entry of each block takes part; without a `target` entry nothing
/// changes.
pub fn lm2_merge_block_sources(target: usize, donor: usize, sources: &mut Vec<LiquidBlockSourceLines>)
    requires
        forall|k: int| 0 <= k < old(sources)@.len() ==> (#[trigger] old(sources)@[k]).lines@.len() <= usize::MAX / 2,
    ensures
        final(sources)@.len() == old(sources)@.len(),
        match first_entry_of(old(sources)@, target as int, 0) {
            Some(t) => {
                &&& forall|k: int| 0 <= k < final(sources)@.len() && k != t ==> #[trigger] final(sources)@[k] == old(sources)@[k]
                &&& final(sources)@[t].block_index == old(sources)@[t].block_index
                &&& same_line_refs(final(sources)@[t].lines@, sorted_by_position(
                    old(sources)@[t].lines@ + entry_rows(old(sources)@, donor as int),
                ))
            },
            None => final(sources)@ == old(sources)@,
        },
{
    proof {
        lemma_first_entry_of(sources@, target as int, 0);
        lemma_first_entry_of(sources@, donor as int, 0);
    }
    let t = match find_entry(sources.as_slice(), target) {
        Some(t) => t,
        None => return,
    };
    let donor_rows: Vec<LiquidSourceLineRef> = match find_entry(sources.as_slice(), donor) {
        Some(d) => {
            let mut c: Vec<LiquidSourceLineRef> = Vec::new();
            let rows = &sources[d].lines;
            let mut i: usize = 0;
            while i < rows.len()
                invariant
                    i <= rows@.len(),
                    same_line_refs(c@, rows@.subrange(0, i as int)),
                decreases rows.len() - i,
            {
                c.push(copy_line_ref(&rows[i]));
                i += 1;
            }
            proof {
                assert(rows@.subrange(0, rows@.len() as int) =~= rows@);
            }
            c
        },
        None => Vec::new(),
    };
    let ghost old_rows = sources@[t as int].lines@;
    let merged = merged_by_position(&sources[t].lines, &donor_rows);
    proof {
        let ghost_all = old_rows + donor_rows@;
        let spec_all = old_rows + entry_rows(old(sources)@, donor as int);
        assert(same_line_refs(ghost_all, spec_all)) by {
            assert forall|i: int| 0 <= i < ghost_all.len() implies same_line_ref(
                #[trigger] ghost_all[i],
                spec_all[i],
            ) by {
                if i >= old_rows.len() {
                    assert(donor_rows@[i - old_rows.len()] == ghost_all[i]);
                }
            }
        }
        lemma_sorted_by_position_congruent(ghost_all, spec_all);
        lemma_same_line_refs_trans(merged@, sorted_by_position(ghost_all), sorted_by_position(spec_all));
    }
    sources[t].lines = merged;
}

// ---------------------------------------------------------------------------
// Web addresses sandwiched between consecutive notes
// ---------------------------------------------------------------------------

/// The index of the last provenance entry of block `b` among `0..n` (a map
/// from block to entry built in order keeps the last one).
pub open spec fn last_entry_of(s: Seq<LiquidBlockSourceLines>, b: int, n: int) -> Option<int>
    decreases n,
{
    if n <= 0 || n > s.len() {
        None
    } else if s[n - 1].block_index == b {
        Some(n - 1)
    } else {
        last_entry_of(s, b, n - 1)
    }
}

/// The provenance entry of block `b`.
pub open spec fn entry_position(s: Seq<LiquidBlockSourceLines>, b: int) -> Option<int> {
    last_entry_of(s, b, s.len() as int)
}

pub(crate) proof fn lemma_last_entry_of(s: Seq<LiquidBlockSourceLines>, b: int, n: int)
    ensures
        last_entry_of(s, b, n) matches Some(k) ==> 0 <= k < n && k < s.len() && s[k].block_index == b,
    decreases n,
{
    if n > 0 && n <= s.len() && s[n - 1].block_index != b {
        lemma_last_entry_of(s, b, n - 1);
    }
}

pub(crate) fn entry_position_exec(sources: &Vec<LiquidBlockSourceLines>, b: usize) -> (r: Option<usize>)
    ensures
        match r {
            Some(k) => entry_position(sources@, b as int) == Some(k as int) && k < sources@.len(),
            None => entry_position(sources@, b as int) is None,
        },
{
    let mut n = sources.len();
    while n > 0
        invariant
            n <= sources@.len(),
            entry_position(sources@, b as int) == last_entry_of(sources@, b as int, n as int),
        decreases n,
    {
        if sources[n - 1].block_index == b {
            return Some(n - 1);
        }
        n -= 1;
    }
    None
}

/// `n + 1`, capped at the largest `usize`.
pub open spec fn next_index(n: usize) -> int {
    if n < usize::MAX {
        n + 1
    } else {
        n as int
    }
}

/// `m + 1`, capped at the largest `u16`.
pub open spec fn next_marker(m: u16) -> int {
    if m < u16::MAX {
        m + 1
    } else {
        m as int
    }
}

/// The rows of `cur` continue the last row of `prev` and are continued by
/// the first row of `next`, line by line on one page.
pub open spec fn rows_sandwiched(
    prev: Seq<LiquidSourceLineRef>,
    cur: Seq<LiquidSourceLineRef>,
    next: Seq<LiquidSourceLineRef>,
) -> bool {
    &&& prev.len() > 0
    &&& cur.len() > 0
    &&& next.len() > 0
    &&& prev.last().page_index == cur[0].page_index
    &&& cur[0].page_index == cur.last().page_index
    &&& cur.last().page_index == next[0].page_index
    &&& next_index(prev.last().line_index) == cur[0].line_index
    &&& next_index(cur.last().line_index) == next[0].line_index
}

/// Every row's decoded line is set in a note-sized font outside any table.
pub open spec fn small_note_rows(
    decoded: Seq<(Lm2SourceLine, Lm2Action)>,
    rows: Seq<LiquidSourceLineRef>,
) -> bool {
    forall|q: int|
        0 <= q < rows.len() ==> (line_for_row(decoded, #[trigger] rows[q]) matches Some(l)
            && l.small_note_font && outside_tables(l))
}

/// What the provenance says about block `bi`: its neighbours carry
/// consecutive note numbers, it carries none itself, its rows sit between
/// theirs on one page, and they are set as notes.
pub open spec fn url_sources_ok(
    srcs: Seq<LiquidBlockSourceLines>,
    decoded: Seq<(Lm2SourceLine, Lm2Action)>,
    bi: int,
) -> bool {
    &&& entry_position(srcs, bi - 1) matches Some(pp)
    &&& entry_position(srcs, bi) matches Some(cp)
    &&& entry_position(srcs, bi + 1) matches Some(np)
    &&& primary_marker_from(srcs[pp].lines@, 0) matches Some(pm)
    &&& primary_marker_from(srcs[np].lines@, 0) matches Some(nm)
    &&& nm == next_marker(pm)
    &&& srcs[cp].lines@.len() > 0
    &&& forall|q: int| 0 <= q < srcs[cp].lines@.len() ==> (#[trigger] srcs[cp].lines@[q]).note_markers@.len() == 0
    &&& rows_sandwiched(srcs[pp].lines@, srcs[cp].lines@, srcs[np].lines@)
    &&& small_note_rows(decoded, srcs[cp].lines@)
}

/// A note block (Marginalia or Footnote).
pub open spec fn note_role(r: LiquidBlockRole) -> bool {
    r == LiquidBlockRole::Marginalia || r == LiquidBlockRole::Footnote
}

/// The text mentions `http` in any ASCII case.
pub open spec fn mentions_http(t: Seq<char>) -> bool {
    contains_seq(t.map_values(|c: char| ascii_lower_of(c)), "http"@)
}

/// Block `bi` of `b` is a Noise or Paragraph block that mentions `http`
/// between two note blocks.
pub open spec fn url_blocks_ok(b: Seq<LiquidBlock>, bi: int) -> bool {
    &&& 1 <= bi
    &&& bi + 1 < b.len()
    &&& note_role(b[bi - 1].role)
    &&& (b[bi].role == LiquidBlockRole::Noise || b[bi].role == LiquidBlockRole::Paragraph)
    &&& note_role(b[bi + 1].role)
    &&& mentions_http(b[bi].text@)
}

/// The blocks after the candidates `1..n` were visited.
pub open spec fn url_blocks_after(
    blocks: Seq<LiquidBlock>,
    srcs: Seq<LiquidBlockSourceLines>,
    decoded: Seq<(Lm2SourceLine, Lm2Action)>,
    n: int,
) -> Seq<LiquidBlock>
    decreases n,
{
    if n <= 1 {
        blocks
    } else {
        let b = url_blocks_after(blocks, srcs, decoded, n - 1);
        let bi = n - 1;
        if url_blocks_ok(b, bi) && url_sources_ok(srcs, decoded, bi) {
            b.update(bi, LiquidBlock { role: LiquidBlockRole::Marginalia, text: b[bi].text, label: None })
        } else {
            b
        }
    }
}

/// Candidate `bi` is taken when it is visited.
pub open spec fn url_bridged(
    blocks: Seq<LiquidBlock>,
    srcs: Seq<LiquidBlockSourceLines>,
    decoded: Seq<(Lm2SourceLine, Lm2Action)>,
    bi: int,
) -> bool {
    url_blocks_ok(url_blocks_after(blocks, srcs, decoded, bi), bi) && url_sources_ok(srcs, decoded, bi)
}

/// How many of the candidates `1..n` were taken.
pub open spec fn url_repairs_after(
    blocks: Seq<LiquidBlock>,
    srcs: Seq<LiquidBlockSourceLines>,
    decoded: Seq<(Lm2SourceLine, Lm2Action)>,
    n: int,
) -> nat
    decreases n,
{
    if n <= 1 {
        0
    } else {
        url_repairs_after(blocks, srcs, decoded, n - 1) + if url_bridged(blocks, srcs, decoded, n - 1) {
            1nat
        } else {
            0nat
        }
    }
}

/// Entry `k` belongs to a candidate among `1..n` that was taken.
pub open spec fn url_entry_claimed(
    blocks: Seq<LiquidBlock>,
    srcs: Seq<LiquidBlockSourceLines>,
    decoded: Seq<(Lm2SourceLine, Lm2Action)>,
    n: int,
    k: int,
) -> bool {
    exists|bi: int|
        1 <= bi < n && #[trigger] url_bridged(blocks, srcs, decoded, bi) && entry_position(srcs, bi)
            == Some(k)
}

/// `new` is `old` with, when `claimed`, every row's role set to Marginalia.
pub open spec fn rows_after_claim(
    old_rows: Seq<LiquidSourceLineRef>,
    new_rows: Seq<LiquidSourceLineRef>,
    claimed: bool,
) -> bool {
    &&& new_rows.len() == old_rows.len()
    &&& forall|q: int|
        0 <= q < new_rows.len() ==> {
            let o = old_rows[q];
            let n = #[trigger] new_rows[q];
            &&& n.id == o.id
            &&& n.page_index == o.page_index
            &&& n.line_index == o.line_index
            &&& n.text == o.text
            &&& n.note_markers@ == o.note_markers@
            &&& n.role == if claimed {
                LiquidBlockRole::Marginalia
            } else {
                o.role
            }
        }
}

fn lower_mentions_http(text: &String) -> (r: bool)
    ensures r == mentions_http(text@),
{
    let cs = chars_vec(text.as_str());
    let lower = ascii_lowercase_vec(cs.as_slice());
    proof {
        assert(lower@ =~= text@.map_values(|c: char| ascii_lower_of(c)));
    }
    chars_contain(lower.as_slice(), "http")
}

#[verifier::loop_isolation(false)]
fn url_sources_ok_exec(
    sources: &Vec<LiquidBlockSourceLines>,
    decoded: &[(Lm2SourceLine, Lm2Action)],
    bi: usize,
) -> (r: (bool, usize))
    requires 1 <= bi < usize::MAX,
    ensures
        r.0 == url_sources_ok(sources@, decoded@, bi as int),
        r.0 ==> entry_position(sources@, bi as int) == Some(r.1 as int),
{
    let pp = match entry_position_exec(sources, bi - 1) {
        Some(p) => p,
        None => return (false, 0),
    };
    let cp = match entry_position_exec(sources, bi) {
        Some(p) => p,
        None => return (false, 0),
    };
    let np = match entry_position_exec(sources, bi + 1) {
        Some(p) => p,
        None => return (false, 0),
    };
    let pm = match lm2_source_primary_note_marker(Some(&sources[pp].lines)) {
        Some(m) => m,
        None => return (false, 0),
    };
    let nm = match lm2_source_primary_note_marker(Some(&sources[np].lines)) {
        Some(m) => m,
        None => return (false, 0),
    };
    if nm != pm.saturating_add(1) {
        return (false, 0);
    }
    let prev = &sources[pp].lines;
    let cur = &sources[cp].lines;
    let next = &sources[np].lines;
    if cur.len() == 0 || prev.len() == 0 || next.len() == 0 {
        return (false, 0);
    }
    let mut q: usize = 0;
    while q < cur.len()
        invariant
            q <= cur@.len(),
            forall|j: int| 0 <= j < q ==> (#[trigger] cur@[j]).note_markers@.len() == 0,
        decreases cur.len() - q,
    {
        if cur[q].note_markers.len() > 0 {
            proof {
                assert(cur@[q as int].note_markers@.len() > 0);
            }
            return (false, 0);
        }
        q += 1;
    }
    let p = &prev[prev.len() - 1];
    let cf = &cur[0];
    let cl = &cur[cur.len() - 1];
    let n = &next[0];
    let sandwiched = p.page_index == cf.page_index && cf.page_index == cl.page_index
        && cl.page_index == n.page_index && p.line_index.saturating_add(1) == cf.line_index
        && cl.line_index.saturating_add(1) == n.line_index;
    if !sandwiched {
        return (false, 0);
    }
    let mut q: usize = 0;
    while q < cur.len()
        invariant
            q <= cur@.len(),
            forall|j: int|
                0 <= j < q ==> (line_for_row(decoded@, #[trigger] cur@[j]) matches Some(l)
                    && l.small_note_font && outside_tables(l)),
        decreases cur.len() - q,
    {
        match line_for_source_row(decoded, &cur[q]) {
            Some(l) => {
                if !(l.small_note_font && !l.in_ruled_cell && !l.ruled_row_membership_exact
                    && !l.page_table_column_like && !l.page_object_overlaps_image_bbox) {
                    proof {
                        assert(!(line_for_row(decoded@, cur@[q as int]) matches Some(l2)
                            && l2.small_note_font && outside_tables(l2)));
                    }
                    return (false, 0);
                }
            },
            None => {
                proof {
                    assert(line_for_row(decoded@, cur@[q as int]) is None);
                }
                return (false, 0);
            },
        }
        q += 1;
    }
    (true, cp)
}

proof fn lemma_url_blocks_len(
    blocks: Seq<LiquidBlock>,
    srcs: Seq<LiquidBlockSourceLines>,
    decoded: Seq<(Lm2SourceLine, Lm2Action)>,
    n: int,
)
    ensures url_blocks_after(blocks, srcs, decoded, n).len() == blocks.len(),
    decreases n,
{
    if n > 1 {
        lemma_url_blocks_len(blocks, srcs, decoded, n - 1);
    }
}

/// Past the last candidate nothing changes any more.
proof fn lemma_url_tail(
    blocks: Seq<LiquidBlock>,
    srcs: Seq<LiquidBlockSourceLines>,
    decoded: Seq<(Lm2SourceLine, Lm2Action)>,
    m: int,
    n: int,
)
    requires
        1 <= m <= n,
        m + 1 >= blocks.len(),
    ensures
        url_blocks_after(blocks, srcs, decoded, n) == url_blocks_after(blocks, srcs, decoded, m),
        url_repairs_after(blocks, srcs, decoded, n) == url_repairs_after(blocks, srcs, decoded, m),
        forall|k: int|
            url_entry_claimed(blocks, srcs, decoded, n, k) == url_entry_claimed(blocks, srcs, decoded, m, k),
    decreases n - m,
{
    if n > m {
        lemma_url_tail(blocks, srcs, decoded, m, n - 1);
        lemma_url_blocks_len(blocks, srcs, decoded, n - 1);
        assert(!url_bridged(blocks, srcs, decoded, n - 1));
        assert forall|k: int|
            url_entry_claimed(blocks, srcs, decoded, n, k) == url_entry_claimed(blocks, srcs, decoded, n - 1, k) by {
            if url_entry_claimed(blocks, srcs, decoded, n, k) {
                let bi = choose|bi: int|
                    1 <= bi < n && #[trigger] url_bridged(blocks, srcs, decoded, bi) && entry_position(srcs, bi)
                        == Some(k);
                assert(bi != n - 1);
            }
        }
    }
}

/// `b` is row `a` turned into a Marginalia row.
pub open spec fn row_claimed(a: LiquidSourceLineRef, b: LiquidSourceLineRef) -> bool {
    &&& b.id == a.id
    &&& b.page_index == a.page_index
    &&& b.line_index == a.line_index
    &&& b.text == a.text
    &&& b.note_markers@ == a.note_markers@
    &&& b.role == LiquidBlockRole::Marginalia
}

/// Sets the role of every row of entry `k` to Marginalia.
fn claim_rows(sources: &mut Vec<LiquidBlockSourceLines>, k: usize)
    requires k < old(sources)@.len(),
    ensures
        final(sources)@.len() == old(sources)@.len(),
        forall|j: int| 0 <= j < final(sources)@.len() && j != k ==> #[trigger] final(sources)@[j] == old(sources)@[j],
        final(sources)@[k as int].block_index == old(sources)@[k as int].block_index,
        rows_after_claim(old(sources)@[k as int].lines@, final(sources)@[k as int].lines@, true),
{
    let ghost start = sources@;
    let m = sources[k].lines.len();
    let mut r: usize = 0;
    while r < m
        invariant
            k < sources@.len(),
            sources@.len() == start.len(),
            start == old(sources)@,
            m == start[k as int].lines@.len(),
            r <= m,
            forall|j: int| 0 <= j < sources@.len() && j != k ==> #[trigger] sources@[j] == start[j],
            sources@[k as int].block_index == start[k as int].block_index,
            sources@[k as int].lines@.len() == m,
            forall|q: int| 0 <= q < r ==> row_claimed(start[k as int].lines@[q], #[trigger] sources@[k as int].lines@[q]),
            forall|q: int| r <= q < m ==> #[trigger] sources@[k as int].lines@[q] == start[k as int].lines@[q],
        decreases m - r,
    {
        sources[k].lines[r].role = LiquidBlockRole::Marginalia;
        r += 1;
    }
}

fn url_blocks_ok_exec(blocks: &Vec<LiquidBlock>, bi: usize) -> (r: bool)
    requires 1 <= bi, bi + 1 < blocks.len(),
    ensures r == url_blocks_ok(blocks@, bi as int),
{
    let before = blocks[bi - 1].role;
    let here = blocks[bi].role;
    let after = blocks[bi + 1].role;
    (before == LiquidBlockRole::Marginalia || before == LiquidBlockRole::Footnote) && (here
        == LiquidBlockRole::Noise || here == LiquidBlockRole::Paragraph) && (after
        == LiquidBlockRole::Marginalia || after == LiquidBlockRole::Footnote)
        && lower_mentions_http(&blocks[bi].text)
}

/// Turns a Noise or Paragraph block that mentions a web address into
/// Marginalia (with its rows) when it sits between two note blocks whose
/// first note numbers are consecutive, carries no note number itself, lies
/// line by line between their rows on one page, and is set as a note
/// outside any table. Candidates are visited in order, so a recovered block
/// can serve as the left neighbour of the next. Returns how many blocks
/// were recovered.
#[verifier::rlimit(40)]
pub fn apply_sandwiched_note_url_continuation_reflow(
    blocks: &mut Vec<LiquidBlock>,
    sources: &mut Vec<LiquidBlockSourceLines>,
    decoded: &[(Lm2SourceLine, Lm2Action)],
) -> (repaired: usize)
    ensures
        final(blocks)@ == url_blocks_after(old(blocks)@, old(sources)@, decoded@, old(blocks)@.len() as int),
        repaired == url_repairs_after(old(blocks)@, old(sources)@, decoded@, old(blocks)@.len() as int),
        final(sources)@.len() == old(sources)@.len(),
        forall|k: int|
            0 <= k < final(sources)@.len() ==> {
                &&& (#[trigger] final(sources)@[k]).block_index == old(sources)@[k].block_index
                &&& rows_after_claim(
                    old(sources)@[k].lines@,
                    final(sources)@[k].lines@,
                    url_entry_claimed(old(blocks)@, old(sources)@, decoded@, old(blocks)@.len() as int, k),
                )
            },
{
    let ghost blocks0 = blocks@;
    let ghost srcs = sources@;
    let nb = blocks.len();
    let mut verdicts: Vec<(bool, usize)> = Vec::new();
    let mut j: usize = 0;
    while j < nb
        invariant
            j <= nb,
            nb == blocks0.len(),
            sources@ == srcs,
            blocks@ == blocks0,
            verdicts@.len() == j,
            forall|i: int|
                0 <= i < j ==> if 1 <= i && i + 1 < nb {
                    &&& (#[trigger] verdicts@[i]).0 == url_sources_ok(srcs, decoded@, i)
                    &&& verdicts@[i].0 ==> entry_position(srcs, i) == Some(verdicts@[i].1 as int)
                } else {
                    !(#[trigger] verdicts@[i]).0
                },
        decreases nb - j,
    {
        if j >= 1 && j + 1 < nb {
            let v = url_sources_ok_exec(sources, decoded, j);
            verdicts.push(v);
        } else {
            verdicts.push((false, 0));
        }
        j += 1;
    }
    let mut repaired: usize = 0;
    let mut bi: usize = 1;
    proof {
        lemma_url_blocks_len(blocks0, srcs, decoded@, 1);
    }
    while nb >= 2 && bi < nb - 1
        invariant
            1 <= bi,
            nb == blocks0.len(),
            bi <= nb || nb <= 1,
            nb <= 1 ==> bi == 1,
            verdicts@.len() == nb,
            forall|i: int|
                0 <= i < nb ==> if 1 <= i && i + 1 < nb {
                    &&& (#[trigger] verdicts@[i]).0 == url_sources_ok(srcs, decoded@, i)
                    &&& verdicts@[i].0 ==> entry_position(srcs, i) == Some(verdicts@[i].1 as int)
                } else {
                    !(#[trigger] verdicts@[i]).0
                },
            blocks@ == url_blocks_after(blocks0, srcs, decoded@, bi as int),
            repaired == url_repairs_after(blocks0, srcs, decoded@, bi as int),
            repaired <= bi,
            sources@.len() == srcs.len(),
            forall|k: int|
                0 <= k < sources@.len() ==> {
                    &&& (#[trigger] sources@[k]).block_index == srcs[k].block_index
                    &&& rows_after_claim(
                        srcs[k].lines@,
                        sources@[k].lines@,
                        url_entry_claimed(blocks0, srcs, decoded@, bi as int, k),
                    )
                },
        decreases nb - bi,
    {
        proof {
            lemma_url_blocks_len(blocks0, srcs, decoded@, bi as int);
        }
        let (sok, cp) = verdicts[bi];
        let taken = sok && url_blocks_ok_exec(blocks, bi);
        assert(taken == url_bridged(blocks0, srcs, decoded@, bi as int));
        if taken {
            proof {
                lemma_last_entry_of(srcs, bi as int, srcs.len() as int);
            }
            blocks[bi].role = LiquidBlockRole::Marginalia;
            blocks[bi].label = None;
            let ghost before = sources@;
            claim_rows(sources, cp);
            repaired += 1;
            proof {
                assert forall|k: int| 0 <= k < sources@.len() implies {
                    &&& (#[trigger] sources@[k]).block_index == srcs[k].block_index
                    &&& rows_after_claim(
                        srcs[k].lines@,
                        sources@[k].lines@,
                        url_entry_claimed(blocks0, srcs, decoded@, bi + 1, k),
                    )
                } by {
                    if k == cp {
                        assert(url_entry_claimed(blocks0, srcs, decoded@, bi + 1, k)) by {
                            assert(url_bridged(blocks0, srcs, decoded@, bi as int));
                        }
                        assert(rows_after_claim(srcs[k].lines@, before[k].lines@,
                            url_entry_claimed(blocks0, srcs, decoded@, bi as int, k)));
                        assert forall|q: int| 0 <= q < sources@[k].lines@.len() implies {
                            let o = srcs[k].lines@[q];
                            let n = #[trigger] sources@[k].lines@[q];
                            &&& n.id == o.id
                            &&& n.page_index == o.page_index
                            &&& n.line_index == o.line_index
                            &&& n.text == o.text
                            &&& n.note_markers@ == o.note_markers@
                            &&& n.role == LiquidBlockRole::Marginalia
                        } by {
                            assert(before[k].lines@[q] == before[k].lines@[q]);
                        }
                    } else {
                        assert(sources@[k] == before[k]);
                        assert(url_entry_claimed(blocks0, srcs, decoded@, bi + 1, k)
                            == url_entry_claimed(blocks0, srcs, decoded@, bi as int, k)) by {
                            if url_entry_claimed(blocks0, srcs, decoded@, bi + 1, k) {
                                let w = choose|w: int|
                                    1 <= w < bi + 1 && #[trigger] url_bridged(blocks0, srcs, decoded@, w)
                                        && entry_position(srcs, w) == Some(k);
                                assert(w != bi);
                            }
                        }
                    }
                }
            }
        } else {
            proof {
                assert forall|k: int|
                    url_entry_claimed(blocks0, srcs, decoded@, bi + 1, k) == url_entry_claimed(
                        blocks0,
                        srcs,
                        decoded@,
                        bi as int,
                        k,
                    ) by {
                    if url_entry_claimed(blocks0, srcs, decoded@, bi + 1, k) {
                        let w = choose|w: int|
                            1 <= w < bi + 1 && #[trigger] url_bridged(blocks0, srcs, decoded@, w)
                                && entry_position(srcs, w) == Some(k);
                        assert(w != bi);
                    }
                }
            }
        }
        proof {
            assert(blocks@ =~= url_blocks_after(blocks0, srcs, decoded@, bi + 1));
        }
        bi += 1;
    }
    proof {
        if nb >= 1 {
            lemma_url_tail(blocks0, srcs, decoded@, bi as int, nb as int);
        } else {
            assert(url_blocks_after(blocks0, srcs, decoded@, nb as int) == blocks0);
        }
    }
    repaired
}

/// The web-address bridge only turns Noise or Paragraph blocks into
/// Marginalia (same text, no label) and counts each such change once.
pub proof fn lemma_url_bridge_only_recovers_notes(
    blocks: Seq<LiquidBlock>,
    srcs: Seq<LiquidBlockSourceLines>,
    decoded: Seq<(Lm2SourceLine, Lm2Action)>,
    n: int,
)
    ensures
        url_blocks_after(blocks, srcs, decoded, n).len() == blocks.len(),
        url_repairs_after(blocks, srcs, decoded, n) <= if n > 1 { n - 1 } else { 0 },
        forall|i: int|
            0 <= i < blocks.len() ==> {
                let b = #[trigger] url_blocks_after(blocks, srcs, decoded, n)[i];
                ||| b == blocks[i]
                ||| (b == LiquidBlock { role: LiquidBlockRole::Marginalia, text: blocks[i].text, label: None }
                    && (blocks[i].role == LiquidBlockRole::Noise || blocks[i].role == LiquidBlockRole::Paragraph))
            },
    decreases n,
{
    if n > 1 {
        lemma_url_bridge_only_recovers_notes(blocks, srcs, decoded, n - 1);
        lemma_url_blocks_len(blocks, srcs, decoded, n - 1);
    }
}

proof fn lemma_url_prefix(
    blocks: Seq<LiquidBlock>,
    srcs: Seq<LiquidBlockSourceLines>,
    decoded: Seq<(Lm2SourceLine, Lm2Action)>,
    m: int,
)
    requires 1 <= m,
    ensures
        url_blocks_after(blocks, srcs, decoded, m).len() == blocks.len(),
        forall|j: int|
            0 <= j < blocks.len() ==> #[trigger] url_blocks_after(blocks, srcs, decoded, m)[j] == if j
                < m {
                url_blocks_after(blocks, srcs, decoded, j + 1)[j]
            } else {
                blocks[j]
            },
    decreases m,
{
    lemma_url_blocks_len(blocks, srcs, decoded, m);
    if m > 1 {
        lemma_url_prefix(blocks, srcs, decoded, m - 1);
        lemma_url_blocks_len(blocks, srcs, decoded, m - 1);
        let prev = url_blocks_after(blocks, srcs, decoded, m - 1);
        let cur = url_blocks_after(blocks, srcs, decoded, m);
        assert forall|j: int| 0 <= j < blocks.len() implies #[trigger] cur[j] == if j < m {
            url_blocks_after(blocks, srcs, decoded, j + 1)[j]
        } else {
            blocks[j]
        } by {
            if j < m - 1 {
                assert(cur[j] == prev[j]);
            } else if j >= m {
                assert(cur[j] == prev[j]);
            }
        }
    } else {
        assert forall|j: int| 0 <= j < blocks.len() implies #[trigger] url_blocks_after(
            blocks,
            srcs,
            decoded,
            m,
        )[j] == if j < m {
            url_blocks_after(blocks, srcs, decoded, j + 1)[j]
        } else {
            blocks[j]
        } by {
            if j == 0 {
                assert(url_blocks_after(blocks, srcs, decoded, 1) == blocks);
            }
        }
    }
}

/// `new` is `old` row by row, up to the rows' roles.
pub open spec fn rows_same_but_roles(old_rows: Seq<LiquidSourceLineRef>, new_rows: Seq<LiquidSourceLineRef>) -> bool {
    &&& new_rows.len() == old_rows.len()
    &&& forall|q: int|
        0 <= q < new_rows.len() ==> {
            let o = old_rows[q];
            let n = #[trigger] new_rows[q];
            &&& n.id == o.id
            &&& n.page_index == o.page_index
            &&& n.line_index == o.line_index
            &&& n.text == o.text
            &&& n.note_markers@ == o.note_markers@
        }
}

/// What the bridge does to an entry's rows changes only their roles.
pub proof fn lemma_claimed_rows_same_but_roles(
    old_rows: Seq<LiquidSourceLineRef>,
    new_rows: Seq<LiquidSourceLineRef>,
    claimed: bool,
)
    requires rows_after_claim(old_rows, new_rows, claimed),
    ensures rows_same_but_roles(old_rows, new_rows),
{
}

proof fn lemma_primary_marker_congruent(a: Seq<LiquidSourceLineRef>, b: Seq<LiquidSourceLineRef>, i: int)
    requires
        a.len() == b.len(),
        forall|q: int| 0 <= q < a.len() ==> (#[trigger] a[q]).note_markers@ == b[q].note_markers@,
    ensures primary_marker_from(a, i) == primary_marker_from(b, i),
    decreases a.len() - i,
{
    if 0 <= i < a.len() {
        assert(a[i].note_markers@ == b[i].note_markers@);
        lemma_primary_marker_congruent(a, b, i + 1);
    }
}

proof fn lemma_last_entry_congruent(a: Seq<LiquidBlockSourceLines>, b: Seq<LiquidBlockSourceLines>, x: int, n: int)
    requires
        a.len() == b.len(),
        forall|k: int| 0 <= k < a.len() ==> (#[trigger] a[k]).block_index == b[k].block_index,
    ensures last_entry_of(a, x, n) == last_entry_of(b, x, n),
    decreases n,
{
    if 0 < n <= a.len() {
        assert(a[n - 1].block_index == b[n - 1].block_index);
        lemma_last_entry_congruent(a, b, x, n - 1);
    }
}

/// The provenance verdict reads no row role: rewriting roles (as the bridge
/// does) leaves it unchanged.
proof fn lemma_url_sources_ok_congruent(
    a: Seq<LiquidBlockSourceLines>,
    b: Seq<LiquidBlockSourceLines>,
    decoded: Seq<(Lm2SourceLine, Lm2Action)>,
    bi: int,
)
    requires
        a.len() == b.len(),
        forall|k: int|
            0 <= k < a.len() ==> (#[trigger] b[k]).block_index == a[k].block_index
                && rows_same_but_roles(a[k].lines@, b[k].lines@),
    ensures url_sources_ok(a, decoded, bi) == url_sources_ok(b, decoded, bi),
{
    lemma_last_entry_congruent(a, b, bi - 1, a.len() as int);
    lemma_last_entry_congruent(a, b, bi, a.len() as int);
    lemma_last_entry_congruent(a, b, bi + 1, a.len() as int);
    lemma_last_entry_of(a, bi - 1, a.len() as int);
    lemma_last_entry_of(a, bi, a.len() as int);
    lemma_last_entry_of(a, bi + 1, a.len() as int);
    if entry_position(a, bi - 1) is Some && entry_position(a, bi) is Some && entry_position(
        a,
        bi + 1,
    ) is Some {
        let pp = entry_position(a, bi - 1)->0;
        let cp = entry_position(a, bi)->0;
        let np = entry_position(a, bi + 1)->0;
        assert(rows_same_but_roles(a[pp].lines@, b[pp].lines@));
        assert(rows_same_but_roles(a[cp].lines@, b[cp].lines@));
        assert(rows_same_but_roles(a[np].lines@, b[np].lines@));
        lemma_primary_marker_congruent(a[pp].lines@, b[pp].lines@, 0);
        lemma_primary_marker_congruent(a[np].lines@, b[np].lines@, 0);
        let ac = a[cp].lines@;
        let bc = b[cp].lines@;
        assert((forall|q: int| 0 <= q < ac.len() ==> (#[trigger] ac[q]).note_markers@.len() == 0)
            == (forall|q: int| 0 <= q < bc.len() ==> (#[trigger] bc[q]).note_markers@.len() == 0)) by {
            if forall|q: int| 0 <= q < ac.len() ==> (#[trigger] ac[q]).note_markers@.len() == 0 {
                assert forall|q: int| 0 <= q < bc.len() implies (#[trigger] bc[q]).note_markers@.len() == 0 by {
                    assert(ac[q].note_markers@.len() == 0);
                }
            }
            if forall|q: int| 0 <= q < bc.len() ==> (#[trigger] bc[q]).note_markers@.len() == 0 {
                assert forall|q: int| 0 <= q < ac.len() implies (#[trigger] ac[q]).note_markers@.len() == 0 by {
                    assert(bc[q].note_markers@.len() == 0);
                }
            }
        }
        assert(small_note_rows(decoded, ac) == small_note_rows(decoded, bc)) by {
            if small_note_rows(decoded, ac) {
                assert forall|q: int| 0 <= q < bc.len() implies (line_for_row(decoded, #[trigger] bc[q]) matches Some(l)
                    && l.small_note_font && outside_tables(l)) by {
                    assert(line_for_row(decoded, ac[q]) == line_for_row(decoded, bc[q]));
                }
            }
            if small_note_rows(decoded, bc) {
                assert forall|q: int| 0 <= q < ac.len() implies (line_for_row(decoded, #[trigger] ac[q]) matches Some(l)
                    && l.small_note_font && outside_tables(l)) by {
                    assert(line_for_row(decoded, ac[q]) == line_for_row(decoded, bc[q]));
                }
            }
        }
        if ac.len() > 0 && a[pp].lines@.len() > 0 && a[np].lines@.len() > 0 {
            assert(a[pp].lines@.last() == a[pp].lines@[a[pp].lines@.len() - 1]);
            assert(b[pp].lines@.last() == b[pp].lines@[b[pp].lines@.len() - 1]);
            assert(ac.last() == ac[ac.len() - 1]);
            assert(bc.last() == bc[bc.len() - 1]);
            assert(rows_sandwiched(a[pp].lines@, ac, a[np].lines@) == rows_sandwiched(
                b[pp].lines@,
                bc,
                b[np].lines@,
            ));
        }
    }
}

/// The web-address bridge is idempotent: a second run over the blocks the
/// first run left, with the provenance it left (rows rewritten only in
/// role, as its contract states), changes no block and counts nothing.
pub proof fn lemma_url_bridge_idempotent(
    blocks: Seq<LiquidBlock>,
    srcs: Seq<LiquidBlockSourceLines>,
    srcs2: Seq<LiquidBlockSourceLines>,
    decoded: Seq<(Lm2SourceLine, Lm2Action)>,
)
    requires
        srcs2.len() == srcs.len(),
        forall|k: int|
            0 <= k < srcs.len() ==> (#[trigger] srcs2[k]).block_index == srcs[k].block_index
                && rows_same_but_roles(srcs[k].lines@, srcs2[k].lines@),
    ensures
        ({
            let once = url_blocks_after(blocks, srcs, decoded, blocks.len() as int);
            &&& url_blocks_after(once, srcs2, decoded, once.len() as int) == once
            &&& url_repairs_after(once, srcs2, decoded, once.len() as int) == 0
        }),
{
    let n = blocks.len() as int;
    let once = url_blocks_after(blocks, srcs, decoded, n);
    lemma_url_blocks_len(blocks, srcs, decoded, n);
    if n >= 1 {
        lemma_url_prefix(blocks, srcs, decoded, n);
    }
    assert forall|bi: int| 1 <= bi && bi + 1 < n implies !(url_blocks_ok(once, bi)
        && url_sources_ok(srcs, decoded, bi)) by {
        if url_blocks_ok(once, bi) && url_sources_ok(srcs, decoded, bi) {
            lemma_url_prefix(blocks, srcs, decoded, bi);
            lemma_url_prefix(blocks, srcs, decoded, bi + 1);
            lemma_url_prefix(blocks, srcs, decoded, bi + 2);
            let p = url_blocks_after(blocks, srcs, decoded, bi);
            let q = url_blocks_after(blocks, srcs, decoded, bi + 1);
            let r = url_blocks_after(blocks, srcs, decoded, bi + 2);
            assert(once[bi] == q[bi]);
            assert(once[bi + 1] == r[bi + 1]);
            assert(once[bi - 1] == p[bi - 1]);
            assert(p[bi] == blocks[bi]);
            assert(p[bi + 1] == blocks[bi + 1]);
            assert(q[bi + 1] == blocks[bi + 1]);
            assert(q[bi] == once[bi]);
            assert(!url_bridged(blocks, srcs, decoded, bi));
            assert(q[bi] == p[bi]);
            assert(!url_blocks_ok(p, bi));
            assert(!url_bridged(blocks, srcs, decoded, bi + 1));
        }
    }
    assert forall|m: int| 1 <= m <= n implies url_blocks_after(once, srcs2, decoded, m) == once
        && url_repairs_after(once, srcs2, decoded, m) == 0 by {
        lemma_url_pass_unchanged(once, srcs, srcs2, decoded, m);
    }
    if n < 1 {
        assert(url_blocks_after(once, srcs2, decoded, n) == once);
    }
}

proof fn lemma_url_pass_unchanged(
    once: Seq<LiquidBlock>,
    srcs: Seq<LiquidBlockSourceLines>,
    srcs2: Seq<LiquidBlockSourceLines>,
    decoded: Seq<(Lm2SourceLine, Lm2Action)>,
    m: int,
)
    requires
        srcs2.len() == srcs.len(),
        forall|k: int|
            0 <= k < srcs.len() ==> (#[trigger] srcs2[k]).block_index == srcs[k].block_index
                && rows_same_but_roles(srcs[k].lines@, srcs2[k].lines@),
        forall|bi: int| 1 <= bi && bi + 1 < once.len() ==> !(url_blocks_ok(once, bi)
            && url_sources_ok(srcs, decoded, bi)),
    ensures
        url_blocks_after(once, srcs2, decoded, m) == once,
        url_repairs_after(once, srcs2, decoded, m) == 0,
    decreases m,
{
    if m > 1 {
        lemma_url_pass_unchanged(once, srcs, srcs2, decoded, m - 1);
        lemma_url_sources_ok_congruent(srcs, srcs2, decoded, m - 1);
        assert(!url_bridged(once, srcs2, decoded, m - 1));
    }
}

/// The web-address bridge keeps provenance well formed: every entry names
/// the block it named before, and the block list keeps its length.
pub proof fn lemma_url_bridge_keeps_provenance_well_formed(
    blocks: Seq<LiquidBlock>,
    srcs: Seq<LiquidBlockSourceLines>,
    decoded: Seq<(Lm2SourceLine, Lm2Action)>,
    after: Seq<LiquidBlockSourceLines>,
)
    requires
        crate::pipeline::provenance_well_formed(blocks, srcs),
        after.len() == srcs.len(),
        forall|k: int| 0 <= k < after.len() ==> (#[trigger] after[k]).block_index == srcs[k].block_index,
    ensures
        crate::pipeline::provenance_well_formed(
            url_blocks_after(blocks, srcs, decoded, blocks.len() as int),
            after,
        ),
{
    lemma_url_blocks_len(blocks, srcs, decoded, blocks.len() as int);
}

} // verus!
