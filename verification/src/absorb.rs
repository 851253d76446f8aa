//! Algorithm to split changes in a single source commit into its most
//! relevant ancestors, 'absorbing' them away.

use crate::diff::engine::hunk_ranges_view;
use crate::diff::engine::hunks_tile;
use crate::diff::engine::lemma_hunks_tile;
use crate::diff::engine::lemma_tiles_ascend;
use crate::diff::engine::hunks_compact;
use crate::diff::engine::hunks_in_bounds;
use crate::diff::engine::lemma_hunks;
use crate::diff::engine::spec_hunks;
use crate::diff::regions::all_empty;
use crate::diff::regions::input_lens;
use crate::diff::regions::region_in_bounds;
use crate::diff::regions::Sides;
use crate::diff::Diff;
use crate::diff::DiffHunkKind;
use crate::diff::DiffHunkRange;
use crate::object_id::CommitId;
use std::ops::Range;
use crate::absorb_fit::lemma_selection_fits;
use vstd::prelude::*;
use vstd::slice::slice_subrange;

verus! {

/// A range of the parent's text with the range of the source's text that
/// replaces it.
pub type SelectedRange = (Range<usize>, Range<usize>);

/// A sub-hunk with the index of the annotation range that it is mapped to.
pub type Selection = (int, SelectedRange);

/// The ranges of an annotation, without the commits.
pub open spec fn annotation_ranges_of(annotation: Seq<(&CommitId, Range<usize>)>) -> Seq<
    Range<usize>,
> {
    Seq::new(annotation.len(), |i: int| annotation[i].1)
}

/// The commits of an annotation, each as its identifier's bytes.
pub open spec fn annotation_keys_of(annotation: Seq<(&CommitId, Range<usize>)>) -> Seq<Seq<u8>> {
    Seq::new(annotation.len(), |i: int| annotation[i].0@)
}

/// Annotation ranges are not empty and ascend without overlapping. There
/// may be gaps between them: lines of no commit in question.
pub open spec fn annotation_wf(ranges: Seq<Range<usize>>) -> bool {
    &&& forall|i: int| 0 <= i < ranges.len() ==> (#[trigger] ranges[i]).start < ranges[i].end
    &&& forall|i: int, j: int|
        0 <= i < j < ranges.len() ==> (#[trigger] ranges[i]).end <= (#[trigger] ranges[j]).start
}

/// Hunks of a diff of two texts, the different ones only: the ranges are
/// well formed, no hunk is empty on both sides, and the hunks ascend in the
/// left text.
pub open spec fn hunks_wf(hunks: Seq<SelectedRange>) -> bool {
    &&& forall|h: int|
        0 <= h < hunks.len() ==> (#[trigger] hunks[h]).0.start <= hunks[h].0.end
            && hunks[h].1.start <= hunks[h].1.end && (hunks[h].0.start < hunks[h].0.end
            || hunks[h].1.start < hunks[h].1.end)
    &&& forall|g: int, h: int|
        0 <= g < h < hunks.len() ==> (#[trigger] hunks[g]).0.end <= (#[trigger] hunks[h]).0.start
}

/// The least index from `from` on of a range that ends at `x` or behind it;
/// the number of ranges if there is none.
pub open spec fn first_reaching(ranges: Seq<Range<usize>>, x: int, from: int) -> int
    decreases ranges.len() - from,
{
    if from < 0 || from >= ranges.len() {
        ranges.len() as int
    } else if ranges[from].end >= x {
        from
    } else {
        first_reaching(ranges, x, from + 1)
    }
}

/// The least index from `from` on of a range that ends behind `x`; the
/// number of ranges if there is none.
pub open spec fn first_passing(ranges: Seq<Range<usize>>, x: int, from: int) -> int
    decreases ranges.len() - from,
{
    if from < 0 || from >= ranges.len() {
        ranges.len() as int
    } else if ranges[from].end > x {
        from
    } else {
        first_passing(ranges, x, from + 1)
    }
}

/// The ranges from `s` to `e` leave no gap from `start` on: the first begins
/// at `start` or before it, and each other where the one before it ends.
pub open spec fn covered(ranges: Seq<Range<usize>>, s: int, e: int, start: int) -> bool {
    &&& ranges[s].start <= start
    &&& forall|i: int| s < i <= e ==> (#[trigger] ranges[i]).start <= ranges[i - 1].end
}

/// The part of `range` inside `left`.
pub open spec fn clipped(range: Range<usize>, left: Range<usize>) -> Range<usize> {
    (if range.start >= left.start {
        range.start
    } else {
        left.start
    })..(if range.end <= left.end {
        range.end
    } else {
        left.end
    })
}

/// A hunk that only deletes is mapped to every annotation range that it
/// overlaps, each with its part of the hunk; but to none if the ranges leave
/// out a part of what the hunk deletes.
pub open spec fn deletion_selection(
    ranges: Seq<Range<usize>>,
    left: Range<usize>,
    right: Range<usize>,
) -> Seq<Selection> {
    let s = first_passing(ranges, left.start as int, 0);
    let e = first_reaching(ranges, left.end as int, s);
    if s <= e < ranges.len() && covered(ranges, s, e, left.start as int) {
        Seq::new((e - s + 1) as nat, |i: int| (s + i, (clipped(ranges[s + i], left), right)))
    } else {
        Seq::empty()
    }
}

/// The hunk would go to the range at `c` as well as to the next one: it
/// inserts where the one ends and the other begins.
pub open spec fn is_ambiguous(ranges: Seq<Range<usize>>, c: int, left: Range<usize>) -> bool {
    ranges[c].end == left.start && c + 1 < ranges.len() && ranges[c + 1].start == left.end
}

/// A hunk that inserts or modifies is mapped to the one annotation range
/// that holds all of its left side; to none if there is no such range, or if
/// two ranges would do.
pub open spec fn single_selection(
    ranges: Seq<Range<usize>>,
    left: Range<usize>,
    right: Range<usize>,
) -> Seq<Selection> {
    let c = first_reaching(ranges, left.end as int, 0);
    if 0 <= c < ranges.len() && ranges[c].start <= left.start && left.end <= ranges[c].end
        && !is_ambiguous(ranges, c, left) {
        seq![(c, (left, right))]
    } else {
        Seq::empty()
    }
}

/// The sub-hunks of one hunk, each with the annotation range it goes to.
pub open spec fn hunk_selection(ranges: Seq<Range<usize>>, hunk: SelectedRange) -> Seq<Selection> {
    if hunk.1.start >= hunk.1.end {
        deletion_selection(ranges, hunk.0, hunk.1)
    } else {
        single_selection(ranges, hunk.0, hunk.1)
    }
}

/// The sub-hunks of all hunks, in the order of the hunks.
pub open spec fn all_selections(ranges: Seq<Range<usize>>, hunks: Seq<SelectedRange>) -> Seq<
    Selection,
>
    decreases hunks.len(),
{
    if hunks.len() == 0 {
        Seq::empty()
    } else {
        all_selections(ranges, hunks.drop_last()) + hunk_selection(ranges, hunks.last())
    }
}

/// The sub-hunks that go to the commit `key`, in order.
pub open spec fn selected_for(keys: Seq<Seq<u8>>, selections: Seq<Selection>, key: Seq<u8>) -> Seq<
    SelectedRange,
>
    decreases selections.len(),
{
    if selections.len() == 0 {
        Seq::empty()
    } else if keys[selections.last().0] == key {
        selected_for(keys, selections.drop_last(), key).push(selections.last().1)
    } else {
        selected_for(keys, selections.drop_last(), key)
    }
}

/// `selected` maps each commit that a sub-hunk goes to, and no other, to
/// the sub-hunks that go to it, in order; no commit comes twice.
pub open spec fn is_grouping(
    selected: Seq<(&CommitId, Vec<SelectedRange>)>,
    keys: Seq<Seq<u8>>,
    selections: Seq<Selection>,
) -> bool {
    &&& forall|a: int, b: int|
        0 <= a < b < selected.len() ==> (#[trigger] selected[a]).0@ != (#[trigger] selected[b]).0@
    &&& forall|e: int|
        0 <= e < selected.len() ==> (#[trigger] selected[e]).1@ == selected_for(
            keys,
            selections,
            selected[e].0@,
        ) && selected[e].1.len() > 0
    &&& forall|key: Seq<u8>|
        selected_for(keys, selections, key).len() > 0 ==> exists|e: int|
            0 <= e < selected.len() && (#[trigger] selected[e]).0@ == key
}

/// One more sub-hunk: the commit it goes to gains it, the others stay.
pub proof fn lemma_selected_for_push(
    keys: Seq<Seq<u8>>,
    selections: Seq<Selection>,
    selection: Selection,
    key: Seq<u8>,
)
    ensures
        selected_for(keys, selections.push(selection), key) == if keys[selection.0] == key {
            selected_for(keys, selections, key).push(selection.1)
        } else {
            selected_for(keys, selections, key)
        },
{
    assert(selections.push(selection).drop_last() =~= selections);
}

/// Adds one sub-hunk to the sub-hunks of `commit_id`.
#[verifier::loop_isolation(false)]
fn add_selected<'a>(
    selected: &mut Vec<(&'a CommitId, Vec<SelectedRange>)>,
    commit_id: &'a CommitId,
    range: SelectedRange,
    Ghost(keys): Ghost<Seq<Seq<u8>>>,
    Ghost(selections): Ghost<Seq<Selection>>,
    Ghost(index): Ghost<int>,
)
    requires
        is_grouping(old(selected)@, keys, selections),
        0 <= index < keys.len(),
        keys[index] == commit_id@,
    ensures
        is_grouping(final(selected)@, keys, selections.push((index, range))),
{
    let ghost before = selected@;
    let ghost after_selections = selections.push((index, range));
    proof {
        assert forall|key: Seq<u8>|
            selected_for(keys, after_selections, key) == if keys[index] == key {
                selected_for(keys, selections, key).push(range)
            } else {
                selected_for(keys, selections, key)
            } by {
            lemma_selected_for_push(keys, selections, (index, range), key);
        }
    }
    let mut e: usize = 0;
    while e < selected.len()
        invariant
            selected@ == before,
            e <= selected.len(),
            forall|a: int| 0 <= a < e ==> (#[trigger] selected[a]).0@ != commit_id@,
        decreases selected.len() - e,
    {
        if *selected[e].0 == *commit_id {
            selected[e].1.push(range);
            proof {
                let after = selected@;
                assert(after.len() == before.len());
                assert forall|a: int| 0 <= a < after.len() implies (#[trigger] after[a]).0
                    == before[a].0 && (a != e ==> after[a].1@ == before[a].1@) by {}
                assert forall|a: int| 0 <= a < after.len() implies (#[trigger] after[a]).1@
                    == selected_for(keys, after_selections, after[a].0@) && after[a].1.len() > 0 by {
                    assert(before[a].1@ == selected_for(keys, selections, before[a].0@));
                    if a != e {
                        assert(before[a].0@ != before[e as int].0@);
                    }
                }
                assert forall|key: Seq<u8>|
                    selected_for(keys, after_selections, key).len() > 0 implies exists|a: int|
                    0 <= a < after.len() && (#[trigger] after[a]).0@ == key by {
                    if key == commit_id@ {
                        assert(after[e as int].0@ == key);
                    } else {
                        let a = choose|a: int|
                            0 <= a < before.len() && (#[trigger] before[a]).0@ == key;
                        assert(after[a].0@ == key);
                    }
                }
                assert forall|a: int, b: int| 0 <= a < b < after.len() implies (
                #[trigger] after[a]).0@ != (#[trigger] after[b]).0@ by {
                    assert(before[a].0@ != before[b].0@);
                }
            }
            return ;
        }
        e += 1;
    }
    let mut ranges: Vec<SelectedRange> = Vec::new();
    ranges.push(range);
    selected.push((commit_id, ranges));
    proof {
        let after = selected@;
        let last = before.len() as int;
        assert(selected_for(keys, selections, commit_id@).len() == 0) by {
            if selected_for(keys, selections, commit_id@).len() > 0 {
                let a = choose|a: int|
                    0 <= a < before.len() && (#[trigger] before[a]).0@ == commit_id@;
                assert(false);
            }
        }
        assert(after[last].1@ =~= selected_for(keys, selections, commit_id@).push(range));
        assert forall|a: int| 0 <= a < after.len() implies (#[trigger] after[a]).1@
            == selected_for(keys, after_selections, after[a].0@) && after[a].1.len() > 0 by {
            if a < last {
                assert(after[a] == before[a]);
                assert(before[a].1@ == selected_for(keys, selections, before[a].0@));
            }
        }
        assert forall|key: Seq<u8>|
            selected_for(keys, after_selections, key).len() > 0 implies exists|a: int|
            0 <= a < after.len() && (#[trigger] after[a]).0@ == key by {
            if key == commit_id@ {
                assert(after[last].0@ == key);
            } else {
                let a = choose|a: int| 0 <= a < before.len() && (#[trigger] before[a]).0@ == key;
                assert(after[a] == before[a]);
            }
        }
        assert forall|a: int, b: int| 0 <= a < b < after.len() implies (#[trigger] after[a]).0@ != (
        #[trigger] after[b]).0@ by {
            assert(after[a] == before[a]);
            if b < last {
                assert(after[b] == before[b]);
            }
        }
    }
}

/// Ranges that end before `x` are passed over by both searches.
pub proof fn lemma_search_from(ranges: Seq<Range<usize>>, x: int, from: int, to: int)
    requires
        0 <= from <= to <= ranges.len(),
        forall|i: int| from <= i < to ==> (#[trigger] ranges[i]).end < x,
    ensures
        first_reaching(ranges, x, from) == first_reaching(ranges, x, to),
        first_passing(ranges, x, from) == first_passing(ranges, x, to),
    decreases to - from,
{
    if from < to {
        lemma_search_from(ranges, x, from + 1, to);
    }
}

/// Ranges that end at `x` or before it are passed over by the search for a
/// range that ends behind `x`.
pub proof fn lemma_passing_from(ranges: Seq<Range<usize>>, x: int, from: int, to: int)
    requires
        0 <= from <= to <= ranges.len(),
        forall|i: int| from <= i < to ==> (#[trigger] ranges[i]).end <= x,
    ensures
        first_passing(ranges, x, from) == first_passing(ranges, x, to),
    decreases to - from,
{
    if from < to {
        lemma_passing_from(ranges, x, from + 1, to);
    }
}

/// Behind the last annotation range no hunk is mapped to a commit.
pub proof fn lemma_no_more_selections(
    ranges: Seq<Range<usize>>,
    hunks: Seq<SelectedRange>,
    h: int,
    bound: int,
)
    requires
        0 <= h <= hunks.len(),
        forall|i: int| 0 <= i < ranges.len() ==> (#[trigger] ranges[i]).end < bound,
        forall|g: int| h <= g < hunks.len() ==> bound <= (#[trigger] hunks[g]).0.start <= hunks[g].0.end,
    ensures
        all_selections(ranges, hunks) == all_selections(ranges, hunks.take(h)),
    decreases hunks.len() - h,
{
    if h < hunks.len() {
        let last = hunks.last();
        let init = hunks.drop_last();
        assert(bound <= last.0.start <= last.0.end);
        lemma_search_from(ranges, last.0.end as int, 0, ranges.len() as int);
        lemma_passing_from(ranges, last.0.start as int, 0, ranges.len() as int);
        assert(hunk_selection(ranges, last) =~= Seq::<Selection>::empty());
        assert forall|g: int| h <= g < init.len() implies bound <= (#[trigger] init[g]).0.start
            <= init[g].0.end by {
            assert(init[g] == hunks[g]);
        }
        lemma_no_more_selections(ranges, init, h, bound);
        assert(init.take(h) =~= hunks.take(h));
        assert(all_selections(ranges, hunks) =~= all_selections(ranges, init));
    } else {
        assert(hunks.take(h) =~= hunks);
    }
}

/// The index from `pos` on of the first annotation range that ends behind
/// `x`.
fn find_passing(annotation_ranges: &[(&CommitId, Range<usize>)], pos: usize, x: usize) -> (found:
    usize)
    requires
        pos <= annotation_ranges.len(),
    ensures
        found == first_passing(annotation_ranges_of(annotation_ranges@), x as int, pos as int),
        pos <= found <= annotation_ranges.len(),
        forall|i: int|
            pos <= i < found ==> (#[trigger] annotation_ranges_of(annotation_ranges@)[i]).end <= x,
{
    let ghost ranges = annotation_ranges_of(annotation_ranges@);
    let mut found: usize = pos;
    while found < annotation_ranges.len() && annotation_ranges[found].1.end <= x
        invariant
            ranges == annotation_ranges_of(annotation_ranges@),
            pos <= found <= annotation_ranges.len(),
            forall|i: int| pos <= i < found ==> (#[trigger] ranges[i]).end <= x,
        decreases annotation_ranges.len() - found,
    {
        proof {
            assert(ranges[found as int] == annotation_ranges[found as int].1);
        }
        found += 1;
    }
    proof {
        lemma_passing_from(ranges, x as int, pos as int, found as int);
        if found < annotation_ranges.len() {
            assert(ranges[found as int] == annotation_ranges[found as int].1);
        }
    }
    found
}

/// The index from `pos` on of the first annotation range that ends at `x` or
/// behind it.
fn find_reaching(annotation_ranges: &[(&CommitId, Range<usize>)], pos: usize, x: usize) -> (found:
    usize)
    requires
        pos <= annotation_ranges.len(),
    ensures
        found == first_reaching(annotation_ranges_of(annotation_ranges@), x as int, pos as int),
        pos <= found <= annotation_ranges.len(),
        forall|i: int|
            pos <= i < found ==> (#[trigger] annotation_ranges_of(annotation_ranges@)[i]).end < x,
{
    let ghost ranges = annotation_ranges_of(annotation_ranges@);
    let mut found: usize = pos;
    while found < annotation_ranges.len() && annotation_ranges[found].1.end < x
        invariant
            ranges == annotation_ranges_of(annotation_ranges@),
            pos <= found <= annotation_ranges.len(),
            forall|i: int| pos <= i < found ==> (#[trigger] ranges[i]).end < x,
        decreases annotation_ranges.len() - found,
    {
        proof {
            assert(ranges[found as int] == annotation_ranges[found as int].1);
        }
        found += 1;
    }
    proof {
        lemma_search_from(ranges, x as int, pos as int, found as int);
        if found < annotation_ranges.len() {
            assert(ranges[found as int] == annotation_ranges[found as int].1);
        }
    }
    found
}

/// Whether the annotation ranges from `s` to `e` leave no gap from `start`
/// on.
fn is_covered(annotation_ranges: &[(&CommitId, Range<usize>)], s: usize, e: usize, start: usize) -> (r:
    bool)
    requires
        s <= e < annotation_ranges.len(),
    ensures
        r == covered(annotation_ranges_of(annotation_ranges@), s as int, e as int, start as int),
{
    let ghost ranges = annotation_ranges_of(annotation_ranges@);
    proof {
        assert(forall|i: int|
            0 <= i < annotation_ranges.len() ==> #[trigger] ranges[i] == annotation_ranges[i].1);
    }
    if annotation_ranges[s].1.start > start {
        return false;
    }
    let mut i: usize = s + 1;
    while i <= e
        invariant
            ranges == annotation_ranges_of(annotation_ranges@),
            forall|j: int|
                0 <= j < annotation_ranges.len() ==> #[trigger] ranges[j] == annotation_ranges[j].1,
            s < i <= e + 1,
            e < annotation_ranges.len(),
            forall|j: int| s < j < i ==> (#[trigger] ranges[j]).start <= ranges[j - 1].end,
        decreases e + 1 - i,
    {
        if annotation_ranges[i].1.start > annotation_ranges[i - 1].1.end {
            proof {
                assert(ranges[i as int].start > ranges[i - 1].end);
            }
            return false;
        }
        i += 1;
    }
    true
}

/// Maps a hunk that only deletes to the annotation ranges from `s` to `e`,
/// one part of it to each.
fn select_deletion<'a>(
    selected: &mut Vec<(&'a CommitId, Vec<SelectedRange>)>,
    annotation_ranges: &[(&'a CommitId, Range<usize>)],
    s: usize,
    e: usize,
    hunk: &SelectedRange,
    Ghost(selections): Ghost<Seq<Selection>>,
)
    requires
        s <= e < annotation_ranges.len(),
        is_grouping(old(selected)@, annotation_keys_of(annotation_ranges@), selections),
    ensures
        is_grouping(
            final(selected)@,
            annotation_keys_of(annotation_ranges@),
            selections + Seq::new(
                (e - s + 1) as nat,
                |i: int|
                    (s + i, (clipped(annotation_ranges_of(annotation_ranges@)[s + i], hunk.0), hunk.1)),
            ),
        ),
{
    let ghost ranges = annotation_ranges_of(annotation_ranges@);
    let ghost keys = annotation_keys_of(annotation_ranges@);
    let ghost chosen = Seq::new(
        (e - s + 1) as nat,
        |i: int| (s + i, (clipped(ranges[s + i], hunk.0), hunk.1)),
    );
    let ghost mut current = selections;
    let mut i: usize = s;
    proof {
        assert(selections + chosen.take(0) =~= selections);
    }
    while i <= e
        invariant
            ranges == annotation_ranges_of(annotation_ranges@),
            keys == annotation_keys_of(annotation_ranges@),
            s <= i <= e + 1,
            e < annotation_ranges.len(),
            chosen.len() == e - s + 1,
            forall|j: int|
                0 <= j < chosen.len() ==> (#[trigger] chosen[j]) == (
                    s + j,
                    (clipped(ranges[s + j], hunk.0), hunk.1),
                ),
            current == selections + chosen.take(i - s),
            is_grouping(selected@, keys, current),
        decreases e + 1 - i,
    {
        let range_start: usize = annotation_ranges[i].1.start;
        let range_end: usize = annotation_ranges[i].1.end;
        let from: usize = if range_start >= hunk.0.start {
            range_start
        } else {
            hunk.0.start
        };
        let to: usize = if range_end <= hunk.0.end {
            range_end
        } else {
            hunk.0.end
        };
        let ghost item: Selection = (i as int, (from..to, hunk.1));
        proof {
            assert(ranges[i as int] == annotation_ranges[i as int].1);
            assert(keys[i as int] == annotation_ranges[i as int].0@);
            assert(chosen[i - s] == item);
            assert(chosen.take(i - s + 1) =~= chosen.take(i - s).push(item));
            assert(selections + chosen.take(i - s + 1) =~= current.push(item));
        }
        add_selected(
            selected,
            annotation_ranges[i].0,
            (from..to, hunk.1.start..hunk.1.end),
            Ghost(keys),
            Ghost(current),
            Ghost(i as int),
        );
        proof {
            current = current.push(item);
        }
        i += 1;
    }
    proof {
        assert(chosen.take(e - s + 1) =~= chosen);
    }
}

/// Maps one hunk: adds its sub-hunks to the commits they go to. Returns the
/// index of the first annotation range that a later hunk may touch.
fn map_hunk<'a>(
    selected: &mut Vec<(&'a CommitId, Vec<SelectedRange>)>,
    annotation_ranges: &[(&'a CommitId, Range<usize>)],
    pos: usize,
    hunk: &SelectedRange,
    Ghost(selections): Ghost<Seq<Selection>>,
    Ghost(bound): Ghost<int>,
) -> (next: usize)
    requires
        pos <= annotation_ranges.len(),
        forall|i: int|
            0 <= i < pos ==> (#[trigger] annotation_ranges_of(annotation_ranges@)[i]).end < bound,
        bound <= hunk.0.start <= hunk.0.end,
        hunk.1.start <= hunk.1.end,
        hunk.0.start < hunk.0.end || hunk.1.start < hunk.1.end,
        is_grouping(old(selected)@, annotation_keys_of(annotation_ranges@), selections),
    ensures
        is_grouping(
            final(selected)@,
            annotation_keys_of(annotation_ranges@),
            selections + hunk_selection(annotation_ranges_of(annotation_ranges@), *hunk),
        ),
        pos <= next <= annotation_ranges.len(),
        forall|i: int|
            0 <= i < next ==> (#[trigger] annotation_ranges_of(annotation_ranges@)[i]).end
                < hunk.0.end,
{
    let ghost ranges = annotation_ranges_of(annotation_ranges@);
    let ghost keys = annotation_keys_of(annotation_ranges@);
    let count: usize = annotation_ranges.len();
    if hunk.1.start >= hunk.1.end {
        // If the hunk is pure deletion, it can be mapped to multiple
        // overlapped annotation ranges unambiguously.
        let start: usize = find_passing(annotation_ranges, pos, hunk.0.start);
        let end: usize = find_reaching(annotation_ranges, start, hunk.0.end);
        proof {
            lemma_passing_from(ranges, hunk.0.start as int, 0, pos as int);
        }
        if end < count && is_covered(annotation_ranges, start, end, hunk.0.start) {
            select_deletion(selected, annotation_ranges, start, end, hunk, Ghost(selections));
            proof {
                assert(deletion_selection(ranges, hunk.0, hunk.1) =~= Seq::new(
                    (end - start + 1) as nat,
                    |i: int| (start + i, (clipped(ranges[start + i], hunk.0), hunk.1)),
                ));
            }
        } else {
            proof {
                assert(selections + hunk_selection(ranges, *hunk) =~= selections);
            }
        }
        end
    } else {
        // In other cases, the hunk should be included in an annotation range
        // to map it unambiguously. Skip any pre-overlapped ranges.
        let at: usize = find_reaching(annotation_ranges, pos, hunk.0.end);
        proof {
            lemma_search_from(ranges, hunk.0.end as int, 0, pos as int);
        }
        let mut mapped: bool = false;
        if at < count {
            proof {
                assert(ranges[at as int] == annotation_ranges[at as int].1);
                assert(keys[at as int] == annotation_ranges[at as int].0@);
                if at + 1 < count {
                    assert(ranges[at + 1] == annotation_ranges[at + 1].1);
                }
            }
            let contained: bool = annotation_ranges[at].1.start <= hunk.0.start && hunk.0.end
                <= annotation_ranges[at].1.end;
            // If the hunk is pure insertion, it can be mapped to two distinct
            // annotation ranges, which is ambiguous.
            let ambiguous: bool = annotation_ranges[at].1.end == hunk.0.start && at + 1 < count
                && annotation_ranges[at + 1].1.start == hunk.0.end;
            if contained && !ambiguous {
                let ghost item: Selection = (at as int, (hunk.0, hunk.1));
                add_selected(
                    selected,
                    annotation_ranges[at].0,
                    (hunk.0.start..hunk.0.end, hunk.1.start..hunk.1.end),
                    Ghost(keys),
                    Ghost(selections),
                    Ghost(at as int),
                );
                proof {
                    assert(selections + hunk_selection(ranges, *hunk) =~= selections.push(item));
                }
                mapped = true;
            }
        }
        proof {
            if !mapped {
                assert(selections + hunk_selection(ranges, *hunk) =~= selections);
            }
        }
        at
    }
}

/// Maps hunks to commits by the annotation of the left text: each hunk, or
/// each part of it, to the commit of the annotation range that holds it
/// alone. A hunk that only deletes may go to several ranges, one part to
/// each; any other hunk goes to one range or to none.
pub fn split_hunk_ranges<'a>(
    annotation_ranges: &[(&'a CommitId, Range<usize>)],
    hunks: &[SelectedRange],
) -> (selected: Vec<(&'a CommitId, Vec<SelectedRange>)>)
    requires
        hunks_wf(hunks@),
    ensures
        is_grouping(
            selected@,
            annotation_keys_of(annotation_ranges@),
            all_selections(annotation_ranges_of(annotation_ranges@), hunks@),
        ),
{
    let ghost ranges = annotation_ranges_of(annotation_ranges@);
    let ghost keys = annotation_keys_of(annotation_ranges@);
    let count: usize = annotation_ranges.len();
    let mut selected: Vec<(&'a CommitId, Vec<SelectedRange>)> = Vec::new();
    let mut pos: usize = 0;
    let mut h: usize = 0;
    let ghost mut bound: int = 0;
    let ghost mut selections: Seq<Selection> = Seq::empty();
    proof {
        assert(hunks@.take(0) =~= Seq::<SelectedRange>::empty());
    }
    while pos < count && h < hunks.len()
        invariant
            ranges == annotation_ranges_of(annotation_ranges@),
            keys == annotation_keys_of(annotation_ranges@),
            count == annotation_ranges.len(),
            hunks_wf(hunks@),
            pos <= count,
            h <= hunks.len(),
            forall|i: int| 0 <= i < pos ==> (#[trigger] ranges[i]).end < bound,
            forall|g: int| h <= g < hunks.len() ==> bound <= (#[trigger] hunks[g]).0.start,
            selections == all_selections(ranges, hunks@.take(h as int)),
            is_grouping(selected@, keys, selections),
        decreases hunks.len() - h,
    {
        proof {
            assert(hunks@.take(h + 1).drop_last() =~= hunks@.take(h as int));
            assert(hunks@.take(h + 1).last() == hunks[h as int]);
            assert(bound <= hunks[h as int].0.start);
        }
        pos = map_hunk(
            &mut selected,
            annotation_ranges,
            pos,
            &hunks[h],
            Ghost(selections),
            Ghost(bound),
        );
        proof {
            selections = selections + hunk_selection(ranges, hunks[h as int]);
            bound = hunks[h as int].0.end as int;
            assert forall|g: int| h + 1 <= g < hunks.len() implies bound <= (#[trigger] hunks[g]).0.start by {
                assert(hunks[h as int].0.end <= hunks[g].0.start);
            }
        }
        h += 1;
    }
    proof {
        if h < hunks.len() {
            assert forall|g: int| h <= g < hunks.len() implies bound <= (#[trigger] hunks@[g]).0.start
                <= hunks@[g].0.end by {}
            lemma_no_more_selections(ranges, hunks@, h as int, bound);
        } else {
            assert(hunks@.take(h as int) =~= hunks@);
        }
    }
    selected
}

/// The hunks in which two inputs differ, each as its range in the left and
/// its range in the right input.
pub open spec fn different_ranges(hunks: Seq<(DiffHunkKind, Sides)>) -> Seq<SelectedRange>
    decreases hunks.len(),
{
    if hunks.len() == 0 {
        Seq::empty()
    } else if hunks.last().0 == DiffHunkKind::Different {
        different_ranges(hunks.drop_last()).push((hunks.last().1[0], hunks.last().1[1]))
    } else {
        different_ranges(hunks.drop_last())
    }
}

/// What `split_file_hunks` selects: for each hunk in which the two inputs
/// of the diff differ, the sub-hunks that are mapped to annotation ranges.
pub open spec fn file_selections(ranges: Seq<Range<usize>>, diff: Diff) -> Seq<Selection> {
    all_selections(ranges, different_ranges(spec_hunks(diff.regions())))
}

/// Maps `diff` hunks to commits based on the left `annotation_ranges`. The
/// `annotation_ranges` should be compacted.
pub fn split_file_hunks<'a>(
    annotation_ranges: &[(&'a CommitId, Range<usize>)],
    diff: &Diff,
) -> (selected: Vec<(&'a CommitId, Vec<SelectedRange>)>)
    requires
        diff.wf(),
        diff.inputs().len() == 2,
    ensures
        is_grouping(
            selected@,
            annotation_keys_of(annotation_ranges@),
            file_selections(annotation_ranges_of(annotation_ranges@), *diff),
        ),
        annotation_wf(annotation_ranges_of(annotation_ranges@)) ==> forall|e: int|
            0 <= e < selected.len() ==> selection_fits(
                diff.inputs()[0].len() as int,
                diff.inputs()[1].len() as int,
                (#[trigger] selected[e]).1@,
            ),
{
    let all: Vec<DiffHunkRange> = diff.hunk_ranges().collect_vec();
    let ghost views = hunk_ranges_view(all@);
    let ghost lens = input_lens(diff.inputs());
    proof {
        lemma_hunks(*diff);
        lemma_hunks_tile(*diff);
        assert(views == spec_hunks(diff.regions()));
        assert(views.take(0) =~= Seq::<(DiffHunkKind, Sides)>::empty());
    }
    let mut hunks: Vec<SelectedRange> = Vec::new();
    let mut n: usize = 0;
    while n < all.len()
        invariant
            views == hunk_ranges_view(all@),
            hunks_compact(views),
            hunks_in_bounds(views, lens),
            hunks_tile(views),
            lens.len() == 2,
            n <= all.len(),
            hunks@ == different_ranges(views.take(n as int)),
            hunks_wf(hunks@),
            forall|g: int|
                0 <= g < hunks.len() ==> (#[trigger] hunks[g]).0.end <= lens[0] && hunks[g].1.end
                    <= lens[1],
            forall|g: int, m: int|
                0 <= g < hunks.len() && n <= m < all.len() ==> (#[trigger] hunks[g]).0.end <= (
                #[trigger] views[m]).1[0].start,
        decreases all.len() - n,
    {
        let hunk: &DiffHunkRange = &all[n];
        proof {
            assert(views[n as int] == (hunk.kind, hunk.ranges@));
            assert(region_in_bounds(views[n as int].1, lens));
            assert(!all_empty(views[n as int].1));
            assert(views.take(n + 1).drop_last() =~= views.take(n as int));
            assert(views.take(n + 1).last() == views[n as int]);
        }
        if hunk.kind == DiffHunkKind::Different {
            let left: Range<usize> = hunk.ranges[0].start..hunk.ranges[0].end;
            let right: Range<usize> = hunk.ranges[1].start..hunk.ranges[1].end;
            let ghost before = hunks@;
            hunks.push((left, right));
            proof {
                let sides = views[n as int].1;
                assert(sides[0].start <= sides[0].end && sides[1].start <= sides[1].end);
                if sides[0].start == sides[0].end && sides[1].start == sides[1].end {
                    assert forall|k: int| 0 <= k < sides.len() implies (#[trigger] sides[k]).start
                        == sides[k].end by {}
                }
                assert forall|g: int, h: int| 0 <= g < h < hunks.len() implies (
                #[trigger] hunks[g]).0.end <= (#[trigger] hunks[h]).0.start by {
                    if h < before.len() {
                        assert(hunks[g] == before[g] && hunks[h] == before[h]);
                    } else {
                        assert(hunks[g] == before[g]);
                        assert(before[g].0.end <= views[n as int].1[0].start);
                    }
                }
                assert forall|g: int, m: int|
                    0 <= g < hunks.len() && n + 1 <= m < all.len() implies (#[trigger] hunks[g]).0.end
                    <= (#[trigger] views[m]).1[0].start by {
                    if g < before.len() {
                        assert(hunks[g] == before[g]);
                    } else {
                        lemma_tiles_ascend(views, lens, n as int, m, 0);
                    }
                }
            }
        }
        n += 1;
    }
    proof {
        assert(views.take(all.len() as int) =~= views);
    }
    let selected = split_hunk_ranges(annotation_ranges, hunks.as_slice());
    proof {
        let ranges = annotation_ranges_of(annotation_ranges@);
        let keys = annotation_keys_of(annotation_ranges@);
        if annotation_wf(ranges) {
            assert forall|e: int| 0 <= e < selected.len() implies selection_fits(
                diff.inputs()[0].len() as int,
                diff.inputs()[1].len() as int,
                (#[trigger] selected[e]).1@,
            ) by {
                lemma_selection_fits(ranges, hunks@, keys, selected[e].0@, lens[0], lens[1]);
            }
        }
    }
    selected
}

/// A hunk that inserts or modifies, and whose left side no annotation range
/// holds alone, is mapped to no commit; and none is a hunk that inserts
/// where one annotation range ends and the next begins.
pub proof fn lemma_ambiguous_hunk_is_skipped(ranges: Seq<Range<usize>>, hunk: SelectedRange)
    requires
        hunk.1.start < hunk.1.end,
        (forall|i: int|
            0 <= i < ranges.len() ==> !((#[trigger] ranges[i]).start <= hunk.0.start && hunk.0.end
                <= ranges[i].end)) || (exists|i: int|
            0 <= i < ranges.len() - 1 && (#[trigger] ranges[i]).end == hunk.0.start && hunk.0.start
                == hunk.0.end && ranges[i + 1].start == hunk.0.end && annotation_wf(ranges)),
    ensures
        hunk_selection(ranges, hunk) == Seq::<Selection>::empty(),
{
    let c = first_reaching(ranges, hunk.0.end as int, 0);
    lemma_first_reaching(ranges, hunk.0.end as int, 0);
    if 0 <= c < ranges.len() && ranges[c].start <= hunk.0.start && hunk.0.end <= ranges[c].end {
        let i = choose|i: int|
            0 <= i < ranges.len() - 1 && (#[trigger] ranges[i]).end == hunk.0.start && hunk.0.start
                == hunk.0.end && ranges[i + 1].start == hunk.0.end && annotation_wf(ranges);
        // The first range that reaches the place of the insertion is the
        // one that ends there.
        if c < i {
            assert(ranges[c].end <= ranges[i].start);
            assert(ranges[i].start < ranges[i].end);
        } else if c > i {
            assert(ranges[i].end >= hunk.0.end);
        }
        assert(c == i);
        assert(is_ambiguous(ranges, c, hunk.0));
    }
}

/// What the search for a range that reaches `x` finds: the first such
/// range from `from` on.
pub proof fn lemma_first_reaching(ranges: Seq<Range<usize>>, x: int, from: int)
    requires
        0 <= from <= ranges.len(),
    ensures
        from <= first_reaching(ranges, x, from) <= ranges.len(),
        first_reaching(ranges, x, from) < ranges.len() ==> ranges[first_reaching(
            ranges,
            x,
            from,
        )].end >= x,
        forall|i: int| from <= i < first_reaching(ranges, x, from) ==> (#[trigger] ranges[i]).end < x,
    decreases ranges.len() - from,
{
    if from < ranges.len() && ranges[from].end < x {
        lemma_first_reaching(ranges, x, from + 1);
    }
}

/// Where the text before the selected range at `k` ends that is already
/// copied: at the end of the range before it, or at the start of the text.
pub open spec fn previous_end(selected: Seq<SelectedRange>, k: int) -> int {
    if 0 < k <= selected.len() {
        selected[k - 1].0.end as int
    } else {
        0
    }
}

/// The selected ranges ascend in the first text without overlapping, and
/// each lies inside its text.
pub open spec fn selection_fits(len1: int, len2: int, selected: Seq<SelectedRange>) -> bool {
    forall|k: int|
        0 <= k < selected.len() ==> previous_end(selected, k) <= (#[trigger] selected[k]).0.start
            <= selected[k].0.end <= len1 && selected[k].1.start <= selected[k].1.end <= len2
}

/// The text made of the first `k` selected ranges and of what lies before
/// each of them in the first text.
pub open spec fn combined_prefix(
    text1: Seq<u8>,
    text2: Seq<u8>,
    selected: Seq<SelectedRange>,
    k: int,
) -> Seq<u8>
    decreases k,
{
    if k <= 0 {
        Seq::empty()
    } else {
        combined_prefix(text1, text2, selected, k - 1) + text1.subrange(
            previous_end(selected, k - 1),
            selected[k - 1].0.start as int,
        ) + text2.subrange(selected[k - 1].1.start as int, selected[k - 1].1.end as int)
    }
}

/// The first text with each selected range of it replaced by the range of
/// the second text that goes with it.
pub open spec fn combined(text1: Seq<u8>, text2: Seq<u8>, selected: Seq<SelectedRange>) -> Seq<u8> {
    combined_prefix(text1, text2, selected, selected.len() as int) + text1.subrange(
        previous_end(selected, selected.len() as int),
        text1.len() as int,
    )
}

/// Constructs new text by replacing `text1` range with `text2` range for
/// each selected `(range1, range2)` pairs.
pub fn combine_texts(text1: &[u8], text2: &[u8], selected_ranges: &[SelectedRange]) -> (text: Vec<
    u8,
>)
    requires
        selection_fits(text1.len() as int, text2.len() as int, selected_ranges@),
    ensures
        text@ == combined(text1@, text2@, selected_ranges@),
{
    let mut text: Vec<u8> = Vec::new();
    let mut previous: usize = 0;
    let mut k: usize = 0;
    while k < selected_ranges.len()
        invariant
            selection_fits(text1.len() as int, text2.len() as int, selected_ranges@),
            k <= selected_ranges.len(),
            previous == previous_end(selected_ranges@, k as int),
            previous <= text1.len(),
            text@ == combined_prefix(text1@, text2@, selected_ranges@, k as int),
        decreases selected_ranges.len() - k,
    {
        let range1: &Range<usize> = &selected_ranges[k].0;
        let range2: &Range<usize> = &selected_ranges[k].1;
        proof {
            assert(previous_end(selected_ranges@, k as int) <= selected_ranges@[k as int].0.start);
        }
        // Copy unchanged hunk from text1 and current hunk from text2
        text.extend_from_slice(slice_subrange(text1, previous, range1.start));
        text.extend_from_slice(slice_subrange(text2, range2.start, range2.end));
        previous = range1.end;
        k += 1;
    }
    text.extend_from_slice(slice_subrange(text1, previous, text1.len()));
    text
}

/// Whether selected ranges can be combined: see `selection_fits`.
pub fn selected_ranges_fit(len1: usize, len2: usize, selected_ranges: &[SelectedRange]) -> (fits:
    bool)
    ensures
        fits == selection_fits(len1 as int, len2 as int, selected_ranges@),
{
    let mut previous: usize = 0;
    let mut k: usize = 0;
    while k < selected_ranges.len()
        invariant
            k <= selected_ranges.len(),
            previous == previous_end(selected_ranges@, k as int),
            forall|j: int|
                0 <= j < k ==> previous_end(selected_ranges@, j) <= (
                #[trigger] selected_ranges[j]).0.start <= selected_ranges[j].0.end <= len1
                    && selected_ranges[j].1.start <= selected_ranges[j].1.end <= len2,
        decreases selected_ranges.len() - k,
    {
        let range1: &Range<usize> = &selected_ranges[k].0;
        let range2: &Range<usize> = &selected_ranges[k].1;
        if !(previous <= range1.start && range1.start <= range1.end && range1.end <= len1
            && range2.start <= range2.end && range2.end <= len2) {
            return false;
        }
        previous = range1.end;
        k += 1;
    }
    true
}

} // verus!

verus! {

/// Whether the ranges of an annotation are not empty and ascend without
/// overlapping.
pub fn is_ascending_annotation(annotation_ranges: &[(&CommitId, Range<usize>)]) -> (r: bool)
    ensures
        r == annotation_wf(annotation_ranges_of(annotation_ranges@)),
{
    let ghost ranges = annotation_ranges_of(annotation_ranges@);
    let mut k: usize = 0;
    while k < annotation_ranges.len()
        invariant
            k <= annotation_ranges.len(),
            ranges == annotation_ranges_of(annotation_ranges@),
            forall|i: int| 0 <= i < k ==> (#[trigger] ranges[i]).start < ranges[i].end,
            forall|i: int, j: int|
                0 <= i < j < k ==> (#[trigger] ranges[i]).end <= (#[trigger] ranges[j]).start,
        decreases annotation_ranges.len() - k,
    {
        proof {
            assert(ranges[k as int] == annotation_ranges[k as int].1);
            if k > 0 {
                assert(ranges[k - 1] == annotation_ranges[k - 1].1);
            }
        }
        if annotation_ranges[k].1.start >= annotation_ranges[k].1.end {
            return false;
        }
        if k > 0 && annotation_ranges[k - 1].1.end > annotation_ranges[k].1.start {
            return false;
        }
        proof {
            assert forall|i: int, j: int| 0 <= i < j < k + 1 implies (#[trigger] ranges[i]).end <= (
            #[trigger] ranges[j]).start by {
                if j == k && i < k - 1 {
                    assert(ranges[i].end <= ranges[k - 1].start);
                }
            }
        }
        k += 1;
    }
    true
}

} // verus!
