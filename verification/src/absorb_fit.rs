//! The sub-hunks that are selected for a commit can be put into the text of
//! its parent: they lie inside the texts and ascend there.

use crate::absorb::all_selections;
use crate::absorb::annotation_wf;
use crate::absorb::clipped;
use crate::absorb::covered;
use crate::absorb::deletion_selection;
use crate::absorb::first_passing;
use crate::absorb::first_reaching;
use crate::absorb::hunk_selection;
use crate::absorb::hunks_wf;
use crate::absorb::lemma_first_reaching;
use crate::absorb::selected_for;
use crate::absorb::selection_fits;
use crate::absorb::SelectedRange;
use crate::absorb::Selection;
use std::ops::Range;
use vstd::prelude::*;

verus! {

/// The ranges lie between `lo` and `hi` in the first text and inside the
/// second text, and they ascend in the first text without overlapping.
pub open spec fn ranges_ascend(group: Seq<SelectedRange>, lo: int, hi: int, len2: int) -> bool {
    &&& forall|k: int|
        0 <= k < group.len() ==> lo <= (#[trigger] group[k]).0.start <= group[k].0.end <= hi
            && group[k].1.start <= group[k].1.end <= len2
    &&& forall|a: int, b: int|
        0 <= a < b < group.len() ==> (#[trigger] group[a]).0.end <= (#[trigger] group[b]).0.start
}

/// The sub-hunks of the selections, without the ranges they go to.
pub open spec fn sub_hunks(selections: Seq<Selection>) -> Seq<SelectedRange> {
    Seq::new(selections.len(), |k: int| selections[k].1)
}

/// The first range from `from` on that ends behind `x` is the first: the
/// ranges before it do not.
pub proof fn lemma_first_passing(ranges: Seq<Range<usize>>, x: int, from: int)
    requires
        0 <= from <= ranges.len(),
    ensures
        from <= first_passing(ranges, x, from) <= ranges.len(),
        first_passing(ranges, x, from) < ranges.len() ==> ranges[first_passing(
            ranges,
            x,
            from,
        )].end > x,
        forall|i: int| from <= i < first_passing(ranges, x, from) ==> (#[trigger] ranges[i]).end <= x,
    decreases ranges.len() - from,
{
    if from < ranges.len() && ranges[from].end <= x {
        lemma_first_passing(ranges, x, from + 1);
    }
}

/// The sub-hunks of one hunk lie inside the hunk and ascend.
pub proof fn lemma_hunk_selection_ascends(
    ranges: Seq<Range<usize>>,
    hunk: SelectedRange,
    len2: int,
)
    requires
        annotation_wf(ranges),
        hunk.0.start <= hunk.0.end,
        hunk.1.start <= hunk.1.end <= len2,
    ensures
        ranges_ascend(
            sub_hunks(hunk_selection(ranges, hunk)),
            hunk.0.start as int,
            hunk.0.end as int,
            len2,
        ),
{
    let left = hunk.0;
    let right = hunk.1;
    if right.start >= right.end {
        let s = first_passing(ranges, left.start as int, 0);
        lemma_first_passing(ranges, left.start as int, 0);
        if s <= ranges.len() {
            lemma_first_reaching(ranges, left.end as int, s);
        }
        let e = first_reaching(ranges, left.end as int, s);
        if s <= e < ranges.len() && covered(ranges, s, e, left.start as int) {
            let group = sub_hunks(deletion_selection(ranges, left, right));
            assert forall|k: int| 0 <= k < group.len() implies left.start <= (
            #[trigger] group[k]).0.start <= group[k].0.end <= left.end && group[k].1.start
                <= group[k].1.end <= len2 by {
                assert(group[k] == (clipped(ranges[s + k], left), right));
                let range = ranges[s + k];
                if k > 0 {
                    assert(ranges[s + k].start <= ranges[s + k - 1].end);
                    assert(ranges[s + k - 1].end < left.end);
                    assert(ranges[s].end <= ranges[s + k].start);
                }
            }
            assert forall|a: int, b: int| 0 <= a < b < group.len() implies (
            #[trigger] group[a]).0.end <= (#[trigger] group[b]).0.start by {
                assert(group[a] == (clipped(ranges[s + a], left), right));
                assert(group[b] == (clipped(ranges[s + b], left), right));
                assert(ranges[s + a].end <= ranges[s + b].start);
            }
        } else {
            assert(sub_hunks(hunk_selection(ranges, hunk)) =~= Seq::<SelectedRange>::empty());
        }
    } else {
        let group = sub_hunks(hunk_selection(ranges, hunk));
        assert(group.len() <= 1);
        if group.len() == 1 {
            assert(group[0] == (left, right));
        }
    }
}

/// The sub-hunks of all hunks lie before the end of the last hunk and
/// ascend.
pub proof fn lemma_all_selections_ascend(
    ranges: Seq<Range<usize>>,
    hunks: Seq<SelectedRange>,
    len2: int,
)
    requires
        annotation_wf(ranges),
        hunks_wf(hunks),
        forall|h: int| 0 <= h < hunks.len() ==> (#[trigger] hunks[h]).1.end <= len2,
    ensures
        ranges_ascend(
            sub_hunks(all_selections(ranges, hunks)),
            0,
            if hunks.len() > 0 {
                hunks.last().0.end as int
            } else {
                0
            },
            len2,
        ),
    decreases hunks.len(),
{
    if hunks.len() > 0 {
        let before = hunks.drop_last();
        let last = hunks.last();
        assert forall|h: int| 0 <= h < before.len() implies (#[trigger] before[h]).1.end
            <= len2 by {
            assert(before[h] == hunks[h]);
        }
        assert(hunks_wf(before)) by {
            assert forall|h: int| 0 <= h < before.len() implies (#[trigger] before[h]).0.start
                <= before[h].0.end && before[h].1.start <= before[h].1.end && (before[h].0.start
                < before[h].0.end || before[h].1.start < before[h].1.end) by {
                assert(before[h] == hunks[h]);
            }
            assert forall|g: int, h: int| 0 <= g < h < before.len() implies (
            #[trigger] before[g]).0.end <= (#[trigger] before[h]).0.start by {
                assert(before[g] == hunks[g] && before[h] == hunks[h]);
            }
        }
        lemma_all_selections_ascend(ranges, before, len2);
        assert(hunks[hunks.len() - 1] == last);
        lemma_hunk_selection_ascends(ranges, last, len2);
        let first = sub_hunks(all_selections(ranges, before));
        let second = sub_hunks(hunk_selection(ranges, last));
        let all = sub_hunks(all_selections(ranges, hunks));
        assert(all =~= first + second);
        if before.len() > 0 {
            assert(before.last() == hunks[hunks.len() - 2]);
            assert(hunks[hunks.len() - 2].0.end <= hunks[hunks.len() - 1].0.start);
        }
        assert forall|k: int| 0 <= k < all.len() implies 0 <= (#[trigger] all[k]).0.start
            <= all[k].0.end <= last.0.end && all[k].1.start <= all[k].1.end <= len2 by {
            if k < first.len() {
                assert(all[k] == first[k]);
            } else {
                assert(all[k] == second[k - first.len()]);
            }
        }
        assert forall|a: int, b: int| 0 <= a < b < all.len() implies (#[trigger] all[a]).0.end <= (
        #[trigger] all[b]).0.start by {
            if b < first.len() {
                assert(all[a] == first[a] && all[b] == first[b]);
            } else if a < first.len() {
                assert(all[a] == first[a] && all[b] == second[b - first.len()]);
            } else {
                assert(all[a] == second[a - first.len()] && all[b] == second[b - first.len()]);
            }
        }
    } else {
        assert(sub_hunks(all_selections(ranges, hunks)) =~= Seq::<SelectedRange>::empty());
    }
}

/// The sub-hunks that go to one commit ascend as all sub-hunks do.
pub proof fn lemma_selected_for_ascends(
    keys: Seq<Seq<u8>>,
    selections: Seq<Selection>,
    key: Seq<u8>,
    hi: int,
    len2: int,
)
    requires
        ranges_ascend(sub_hunks(selections), 0, hi, len2),
    ensures
        ranges_ascend(selected_for(keys, selections, key), 0, hi, len2),
    decreases selections.len(),
{
    if selections.len() > 0 {
        let before = selections.drop_last();
        let last = selections.last();
        let all = sub_hunks(selections);
        assert(all[selections.len() - 1] == last.1);
        let bound = last.1.0.start as int;
        assert(ranges_ascend(sub_hunks(before), 0, bound, len2)) by {
            let group = sub_hunks(before);
            assert forall|k: int| 0 <= k < group.len() implies 0 <= (#[trigger] group[k]).0.start
                <= group[k].0.end <= bound && group[k].1.start <= group[k].1.end <= len2 by {
                assert(group[k] == all[k]);
                assert(all[k].0.end <= all[selections.len() - 1].0.start);
            }
            assert forall|a: int, b: int| 0 <= a < b < group.len() implies (
            #[trigger] group[a]).0.end <= (#[trigger] group[b]).0.start by {
                assert(group[a] == all[a] && group[b] == all[b]);
            }
        }
        lemma_selected_for_ascends(keys, before, key, bound, len2);
        let chosen = selected_for(keys, before, key);
        let group = selected_for(keys, selections, key);
        if keys[last.0] == key {
            assert(group == chosen.push(last.1));
            assert forall|k: int| 0 <= k < group.len() implies 0 <= (#[trigger] group[k]).0.start
                <= group[k].0.end <= hi && group[k].1.start <= group[k].1.end <= len2 by {
                if k < chosen.len() {
                    assert(group[k] == chosen[k]);
                }
            }
            assert forall|a: int, b: int| 0 <= a < b < group.len() implies (
            #[trigger] group[a]).0.end <= (#[trigger] group[b]).0.start by {
                assert(group[a] == chosen[a]);
                if b < chosen.len() {
                    assert(group[b] == chosen[b]);
                }
            }
        } else {
            assert(group == chosen);
        }
    }
}

/// Ranges that ascend inside the texts can be put into the first text.
pub proof fn lemma_ascending_fits(group: Seq<SelectedRange>, len1: int, len2: int)
    requires
        ranges_ascend(group, 0, len1, len2),
    ensures
        selection_fits(len1, len2, group),
{
    assert forall|k: int| 0 <= k < group.len() implies crate::absorb::previous_end(group, k) <= (
    #[trigger] group[k]).0.start <= group[k].0.end <= len1 && group[k].1.start <= group[k].1.end
        <= len2 by {
        if k > 0 {
            assert(group[k - 1].0.end <= group[k].0.start);
        }
    }
}

/// The sub-hunks that go to a commit can be put into the text of the
/// parent: they lie inside the texts and ascend in the first.
pub proof fn lemma_selection_fits(
    ranges: Seq<Range<usize>>,
    hunks: Seq<SelectedRange>,
    keys: Seq<Seq<u8>>,
    key: Seq<u8>,
    len1: int,
    len2: int,
)
    requires
        annotation_wf(ranges),
        hunks_wf(hunks),
        forall|h: int|
            0 <= h < hunks.len() ==> (#[trigger] hunks[h]).0.end <= len1 && hunks[h].1.end <= len2,
    ensures
        selection_fits(len1, len2, selected_for(keys, all_selections(ranges, hunks), key)),
{
    lemma_all_selections_ascend(ranges, hunks, len2);
    let hi = if hunks.len() > 0 {
        hunks.last().0.end as int
    } else {
        0
    };
    lemma_selected_for_ascends(keys, all_selections(ranges, hunks), key, hi, len2);
    let group = selected_for(keys, all_selections(ranges, hunks), key);
    assert(ranges_ascend(group, 0, len1, len2)) by {
        if hunks.len() > 0 {
            assert(hunks[hunks.len() - 1].0.end <= len1);
        }
    }
    lemma_ascending_fits(group, len1, len2);
}

} // verus!
