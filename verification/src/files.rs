//! Merging the contents of files: a line diff of all the terms, each hunk
//! resolved where its terms allow it.

use crate::diff::compare::bytes_equal;
use crate::diff::engine::contents_of;
use crate::diff::engine::hunk_contents_view;
use crate::diff::compare::CompareBytesExactly;
use crate::diff::engine::inputs_view;
use crate::diff::engine::is_diff_under;
use crate::diff::determined::lemma_diff_is_determined;
use crate::diff::determined::lemma_lines_cut_by_text;
use crate::diff::tokens::find_line_ranges;
use crate::diff::engine::spec_hunks;
use crate::diff::regions::input_lens;
use crate::diff::regions::regions_agree;
use crate::diff::regions::regions_compacted;
use crate::diff::regions::regions_ordered;
use crate::diff::regions::regions_span;
use crate::diff::regions::Sides;
use crate::diff::Diff;
use crate::diff::DiffHunk;
use crate::diff::DiffHunkKind;
use crate::merge::Merge;
use vstd::slice::slice_to_vec;
use vstd::prelude::*;

verus! {

/// How often `v` stands among the first `upto` terms at the places of the
/// given parity: `0` for the adds, `1` for the removes.
pub open spec fn occurrences(values: Seq<Seq<u8>>, v: Seq<u8>, parity: int, upto: int) -> nat
    decreases upto,
{
    if upto <= 0 {
        0
    } else {
        occurrences(values, v, parity, upto - 1) + if values[upto - 1] == v && (upto - 1) % 2
            == parity {
            1nat
        } else {
            0nat
        }
    }
}

/// `v` is added more often than it is removed.
pub open spec fn more_added(values: Seq<Seq<u8>>, v: Seq<u8>) -> bool {
    occurrences(values, v, 0, values.len() as int) > occurrences(values, v, 1, values.len() as int)
}

/// `v` is removed more often than it is added.
pub open spec fn more_removed(values: Seq<Seq<u8>>, v: Seq<u8>) -> bool {
    occurrences(values, v, 0, values.len() as int) < occurrences(values, v, 1, values.len() as int)
}

/// The terms resolve to the one at `i`: once each add is cancelled against
/// an equal remove, that value is left as an add, no other value is, and at
/// most one value is left as a remove (all sides then made the same change).
pub open spec fn resolves_to(values: Seq<Seq<u8>>, i: int) -> bool {
    &&& 0 <= i < values.len()
    &&& more_added(values, values[i])
    &&& forall|j: int|
        0 <= j < values.len() && more_added(values, #[trigger] values[j]) ==> values[j]
            == values[i]
    &&& forall|j: int, k: int|
        0 <= j < values.len() && 0 <= k < values.len() && more_removed(values, #[trigger] values[j])
            && more_removed(values, #[trigger] values[k]) ==> values[j] == values[k]
}

/// What the terms resolve to without a look into them, if they do.
pub open spec fn spec_trivial_merge(values: Seq<Seq<u8>>) -> Option<Seq<u8>> {
    if exists|i: int| resolves_to(values, i) {
        Some(values[choose|i: int| resolves_to(values, i)])
    } else {
        None
    }
}

/// Counts how often the term at `at` stands at the places of one parity.
fn count_occurrences(values: &[&[u8]], at: usize, parity: usize) -> (n: usize)
    requires
        at < values.len(),
        parity < 2,
    ensures
        n == occurrences(hunk_contents_view(values@), values[at as int]@, parity as int, values.len() as int),
{
    let ghost view = hunk_contents_view(values@);
    let mut n: usize = 0;
    let mut j: usize = 0;
    while j < values.len()
        invariant
            j <= values.len(),
            at < values.len(),
            n <= j,
            view == hunk_contents_view(values@),
            n == occurrences(view, values[at as int]@, parity as int, j as int),
        decreases values.len() - j,
    {
        if j % 2 == parity && bytes_equal(values[j], values[at]) {
            n += 1;
        }
        j += 1;
    }
    n
}

/// Attempts to resolve trivial conflicts between the terms: the terms are
/// given in turn, adds at even places. There is no look into the values.
pub fn trivial_merge<'a>(values: &[&'a [u8]]) -> (merged: Option<&'a [u8]>)
    ensures
        match merged {
            Some(value) => spec_trivial_merge(hunk_contents_view(values@)) == Some(value@),
            None => spec_trivial_merge(hunk_contents_view(values@)).is_none(),
        },
{
    let ghost view = hunk_contents_view(values@);
    let mut positive: Option<usize> = None;
    let mut negative: Option<usize> = None;
    let mut i: usize = 0;
    while i < values.len()
        invariant
            i <= values.len(),
            view == hunk_contents_view(values@),
            match positive {
                Some(p) => p < i && more_added(view, view[p as int]) && forall|j: int|
                    0 <= j < i && more_added(view, #[trigger] view[j]) ==> view[j] == view[p as int],
                None => forall|j: int| 0 <= j < i ==> !more_added(view, #[trigger] view[j]),
            },
            match negative {
                Some(q) => q < i && more_removed(view, view[q as int]) && forall|j: int|
                    0 <= j < i && more_removed(view, #[trigger] view[j]) ==> view[j] == view[
                        q as int],
                None => forall|j: int| 0 <= j < i ==> !more_removed(view, #[trigger] view[j]),
            },
        decreases values.len() - i,
    {
        let added: usize = count_occurrences(values, i, 0);
        let removed: usize = count_occurrences(values, i, 1);
        if added > removed {
            match positive {
                Some(p) => {
                    if !bytes_equal(values[p], values[i]) {
                        proof {
                            assert forall|c: int| !resolves_to(view, c) by {
                                if resolves_to(view, c) {
                                    assert(view[p as int] == view[c]);
                                    assert(view[i as int] == view[c]);
                                }
                            }
                        }
                        return None;
                    }
                },
                None => {
                    positive = Some(i);
                },
            }
        } else if added < removed {
            match negative {
                Some(q) => {
                    if !bytes_equal(values[q], values[i]) {
                        proof {
                            assert forall|c: int| !resolves_to(view, c) by {
                                if resolves_to(view, c) {
                                    assert(view[q as int] == view[i as int]);
                                }
                            }
                        }
                        return None;
                    }
                },
                None => {
                    negative = Some(i);
                },
            }
        }
        i += 1;
    }
    match positive {
        Some(p) => {
            proof {
                assert(resolves_to(view, p as int));
                let c = choose|c: int| resolves_to(view, c);
                assert(view[c] == view[p as int]);
            }
            Some(values[p])
        },
        None => {
            proof {
                assert forall|c: int| !resolves_to(view, c) by {}
            }
            None
        },
    }
}

/// The terms of a merge of texts.
pub open spec fn terms_view(merge: Merge<Vec<u8>>) -> Seq<Seq<u8>> {
    Seq::new(merge.values().len(), |k: int| merge.values()[k]@)
}

/// The terms of each merge of a list.
pub open spec fn hunks_view(hunks: Seq<Merge<Vec<u8>>>) -> Seq<Seq<Seq<u8>>> {
    Seq::new(hunks.len(), |k: int| terms_view(hunks[k]))
}

/// The result of merging the contents of a file.
#[derive(Debug, PartialEq, Eq)]
pub enum MergeResult {
    /// The merge was resolved: the merged content.
    Resolved(Vec<u8>),
    /// The merge left conflicts: resolved hunks and conflicts in turn, in
    /// the order of the file.
    Conflict(Vec<Merge<Vec<u8>>>),
}

impl MergeResult {
    /// Every hunk has one add more than it has removes.
    pub open spec fn wf(self) -> bool {
        match self {
            MergeResult::Resolved(_) => true,
            MergeResult::Conflict(hunks) => forall|k: int|
                0 <= k < hunks.len() ==> (#[trigger] hunks[k]).wf(),
        }
    }

    /// The hunks of the result, each as its terms; for a resolved merge the
    /// content as one hunk of one term.
    pub open spec fn hunks(self) -> Seq<Seq<Seq<u8>>> {
        match self {
            MergeResult::Resolved(content) => seq![seq![content@]],
            MergeResult::Conflict(hunks) => hunks_view(hunks@),
        }
    }
}

/// The terms of a hunk of a diff whose inputs are the removes of a merge
/// and then its adds, put in turn again.
pub open spec fn in_turn(contents: Seq<Seq<u8>>) -> Seq<Seq<u8>> {
    Seq::new(
        contents.len(),
        |j: int|
            if j % 2 == 0 {
                contents[contents.len() / 2 + j / 2]
            } else {
                contents[j / 2]
            },
    )
}

/// The terms of a merge in the order in which they are diffed: the removes,
/// then the adds.
pub open spec fn removes_then_adds(terms: Seq<Seq<u8>>) -> Seq<Seq<u8>> {
    Seq::new(
        terms.len(),
        |k: int|
            if k < terms.len() / 2 {
                terms[2 * k + 1]
            } else {
                terms[2 * (k - terms.len() / 2)]
            },
    )
}

/// A hunk of the diff of the terms, resolved where it can be: a matching
/// hunk is its content, a different one what its terms resolve to without a
/// look into them, or else those terms.
pub open spec fn spec_resolved_hunk(kind: DiffHunkKind, contents: Seq<Seq<u8>>) -> Seq<Seq<u8>> {
    if kind == DiffHunkKind::Matching {
        seq![contents[0]]
    } else {
        match spec_trivial_merge(in_turn(contents)) {
            Some(content) => seq![content],
            None => in_turn(contents),
        }
    }
}

/// The hunks gathered so far and the resolved text that is still open
/// behind them, after the first `upto` hunks of a diff.
pub open spec fn gathered(hunks: Seq<(DiffHunkKind, Seq<Seq<u8>>)>, upto: int) -> (
    Seq<Seq<Seq<u8>>>,
    Seq<u8>,
)
    decreases upto,
{
    if upto <= 0 {
        (Seq::empty(), Seq::empty())
    } else {
        let (done, open) = gathered(hunks, upto - 1);
        let hunk = spec_resolved_hunk(hunks[upto - 1].0, hunks[upto - 1].1);
        if hunk.len() == 1 {
            (done, open + hunk[0])
        } else if open.len() > 0 {
            (done.push(seq![open]).push(hunk), Seq::empty())
        } else {
            (done.push(hunk), Seq::empty())
        }
    }
}

/// The merged file made of the hunks of a diff: resolved text joined until
/// the next conflict; one text if no conflict is left.
pub open spec fn spec_merge_hunks(hunks: Seq<(DiffHunkKind, Seq<Seq<u8>>)>) -> Seq<Seq<Seq<u8>>> {
    let (done, open) = gathered(hunks, hunks.len() as int);
    if done.len() == 0 {
        seq![seq![open]]
    } else if open.len() > 0 {
        done.push(seq![open])
    } else {
        done
    }
}

/// The regions are the unchanged regions of the inputs, cut into lines
/// and compared byte by byte.
pub open spec fn is_by_line(inputs: Seq<Seq<u8>>, regions: Seq<Sides>) -> bool {
    exists|slices: Seq<&[u8]>|
        inputs_view(slices) == inputs && #[trigger] is_diff_under(
            &find_line_ranges,
            &&CompareBytesExactly,
            slices,
            regions,
        )
}

/// The inputs have one diff by lines: its unchanged regions are a
/// function of the texts.
pub proof fn lemma_by_line_is_determined(
    inputs: Seq<Seq<u8>>,
    first: Seq<Sides>,
    second: Seq<Sides>,
)
    requires
        is_by_line(inputs, first),
        is_by_line(inputs, second),
    ensures
        first == second,
{
    let slices = choose|slices: Seq<&[u8]>|
        inputs_view(slices) == inputs && #[trigger] is_diff_under(
            &find_line_ranges,
            &&CompareBytesExactly,
            slices,
            first,
        );
    let again = choose|again: Seq<&[u8]>|
        inputs_view(again) == inputs && #[trigger] is_diff_under(
            &find_line_ranges,
            &&CompareBytesExactly,
            again,
            second,
        );
    lemma_lines_cut_by_text();
    lemma_diff_is_determined(
        &find_line_ranges,
        &&CompareBytesExactly,
        slices,
        again,
        first,
        second,
    );
}

/// The regions are those of a diff by lines of the inputs; they lie in
/// order inside the inputs, span them, hold the same bytes on every side,
/// and none continues the one before it.
pub open spec fn is_diff_of(inputs: Seq<Seq<u8>>, regions: Seq<Sides>) -> bool {
    &&& is_by_line(inputs, regions)
    &&& regions_ordered(regions, input_lens(inputs))
    &&& regions_compacted(regions)
    &&& regions_span(regions, input_lens(inputs))
    &&& regions_agree(inputs, regions)
}

/// The hunks between and in the unchanged regions of a diff, each with its
/// texts.
pub open spec fn hunks_of(inputs: Seq<Seq<u8>>, regions: Seq<Sides>) -> Seq<
    (DiffHunkKind, Seq<Seq<u8>>),
> {
    Seq::new(
        spec_hunks(regions).len(),
        |i: int| (spec_hunks(regions)[i].0, contents_of(inputs, spec_hunks(regions)[i].1)),
    )
}

/// The hunks of a list, each with its texts.
pub open spec fn diff_hunks_view(hunks: Seq<DiffHunk>) -> Seq<(DiffHunkKind, Seq<Seq<u8>>)> {
    Seq::new(hunks.len(), |i: int| (hunks[i].kind, hunk_contents_view(hunks[i].contents@)))
}

/// The hunks are those of a line diff of the inputs.
pub open spec fn is_line_diff(inputs: Seq<Seq<u8>>, hunks: Seq<(DiffHunkKind, Seq<Seq<u8>>)>) -> bool {
    exists|regions: Seq<Sides>| #[trigger] is_diff_of(inputs, regions) && hunks == hunks_of(inputs, regions)
}

/// The inputs have one line diff: its hunks are a function of the texts.
pub proof fn lemma_line_diff_is_determined(
    inputs: Seq<Seq<u8>>,
    first: Seq<(DiffHunkKind, Seq<Seq<u8>>)>,
    second: Seq<(DiffHunkKind, Seq<Seq<u8>>)>,
)
    requires
        is_line_diff(inputs, first),
        is_line_diff(inputs, second),
    ensures
        first == second,
{
    let regions = choose|regions: Seq<Sides>| #[trigger]
        is_diff_of(inputs, regions) && first == hunks_of(inputs, regions);
    let again = choose|again: Seq<Sides>| #[trigger]
        is_diff_of(inputs, again) && second == hunks_of(inputs, again);
    lemma_by_line_is_determined(inputs, regions, again);
}

/// Diffs the inputs by line and gathers the hunks.
pub fn line_diff_hunks<'a>(inputs: &[&'a [u8]]) -> (hunks: Vec<DiffHunk<'a>>)
    requires
        inputs.len() >= 1,
    ensures
        is_line_diff(inputs_view(inputs@), diff_hunks_view(hunks@)),
        forall|i: int| 0 <= i < hunks.len() ==> (#[trigger] hunks[i]).contents.len() == inputs.len(),
{
    let diff = Diff::by_line(inputs);
    let hunks = diff.hunks().collect_vec();
    proof {
        let regions = diff.regions();
        assert(is_diff_under(&find_line_ranges, &&CompareBytesExactly, inputs@, regions));
        assert(is_by_line(inputs_view(inputs@), regions));
        assert(is_diff_of(inputs_view(inputs@), regions));
        assert(diff_hunks_view(hunks@) =~= hunks_of(inputs_view(inputs@), regions));
        assert forall|i: int| 0 <= i < hunks.len() implies (#[trigger] hunks[i]).contents.len()
            == inputs.len() by {
            assert(hunk_contents_view(hunks[i].contents@).len() == contents_of(
                inputs_view(inputs@),
                spec_hunks(regions)[i].1,
            ).len());
            crate::diff::engine::lemma_hunks(diff);
        }
    }
    hunks
}

} // verus!

verus! {

/// Puts the texts of a hunk of a diff of removes and adds in turn again,
/// adds at even places.
fn terms_in_turn<'a>(contents: &[&'a [u8]]) -> (terms: Vec<&'a [u8]>)
    requires
        contents.len() % 2 == 1,
    ensures
        hunk_contents_view(terms@) == in_turn(hunk_contents_view(contents@)),
        terms.len() == contents.len(),
{
    let num_diffs: usize = contents.len() / 2;
    let mut terms: Vec<&'a [u8]> = Vec::new();
    let mut j: usize = 0;
    while j < contents.len()
        invariant
            j <= contents.len(),
            contents.len() % 2 == 1,
            num_diffs == contents.len() / 2,
            terms.len() == j,
            forall|k: int|
                0 <= k < j ==> (#[trigger] terms[k])@ == in_turn(hunk_contents_view(contents@))[k],
        decreases contents.len() - j,
    {
        if j % 2 == 0 {
            terms.push(contents[num_diffs + j / 2]);
        } else {
            terms.push(contents[j / 2]);
        }
        j += 1;
    }
    proof {
        assert(hunk_contents_view(terms@) =~= in_turn(hunk_contents_view(contents@)));
    }
    terms
}

/// Copies the terms of a hunk into a merge of its own.
fn owned_merge(terms: &[&[u8]]) -> (merge: Merge<Vec<u8>>)
    requires
        terms.len() % 2 == 1,
    ensures
        merge.wf(),
        terms_view(merge) == hunk_contents_view(terms@),
{
    let mut values: Vec<Vec<u8>> = Vec::new();
    let mut j: usize = 0;
    while j < terms.len()
        invariant
            j <= terms.len(),
            values.len() == j,
            forall|k: int| 0 <= k < j ==> (#[trigger] values[k])@ == terms[k]@,
        decreases terms.len() - j,
    {
        values.push(slice_to_vec(terms[j]));
        j += 1;
    }
    let merge = Merge::from_vec(values);
    proof {
        assert(terms_view(merge) =~= hunk_contents_view(terms@));
    }
    merge
}

/// The terms of a merge in the order in which they are diffed: the removes,
/// then the adds.
fn diff_inputs(inputs: &Merge<Vec<u8>>) -> (slices: Vec<&[u8]>)
    requires
        inputs.wf(),
    ensures
        inputs_view(slices@) == removes_then_adds(terms_view(*inputs)),
        slices.len() == inputs.values().len(),
{
    let values = inputs.as_slice();
    let num_diffs: usize = values.len() / 2;
    let mut slices: Vec<&[u8]> = Vec::new();
    let mut k: usize = 0;
    while k < values.len()
        invariant
            k <= values.len(),
            values.len() % 2 == 1,
            values@ == inputs.values(),
            num_diffs == values.len() / 2,
            slices.len() == k,
            forall|i: int|
                0 <= i < k ==> (#[trigger] slices[i])@ == removes_then_adds(terms_view(*inputs))[i],
        decreases values.len() - k,
    {
        if k < num_diffs {
            slices.push(values[2 * k + 1].as_slice());
        } else {
            slices.push(values[2 * (k - num_diffs)].as_slice());
        }
        k += 1;
    }
    proof {
        assert(inputs_view(slices@) =~= removes_then_adds(terms_view(*inputs)));
    }
    slices
}

/// Gathers the hunks of a diff of removes and adds into a merged file.
pub fn collect_hunks(hunks: &[DiffHunk]) -> (result: MergeResult)
    requires
        forall|i: int|
            0 <= i < hunks.len() ==> (#[trigger] hunks[i]).contents.len() % 2 == 1,
    ensures
        result.hunks() == spec_merge_hunks(diff_hunks_view(hunks@)),
        result is Resolved <==> gathered(diff_hunks_view(hunks@), hunks.len() as int).0.len() == 0,
        result.wf(),
{
    let ghost view = diff_hunks_view(hunks@);
    let mut resolved_hunk: Vec<u8> = Vec::new();
    let mut merge_hunks: Vec<Merge<Vec<u8>>> = Vec::new();
    let mut i: usize = 0;
    while i < hunks.len()
        invariant
            i <= hunks.len(),
            view == diff_hunks_view(hunks@),
            forall|i: int|
                0 <= i < hunks.len() ==> (#[trigger] hunks[i]).contents.len() % 2 == 1,
            (hunks_view(merge_hunks@), resolved_hunk@) == gathered(view, i as int),
            forall|k: int| 0 <= k < merge_hunks.len() ==> (#[trigger] merge_hunks[k]).wf(),
        decreases hunks.len() - i,
    {
        let hunk = &hunks[i];
        let ghost before = hunks_view(merge_hunks@);
        let ghost open = resolved_hunk@;
        proof {
            assert(view[i as int] == (hunk.kind, hunk_contents_view(hunk.contents@)));
            assert(hunk_contents_view(hunk.contents@)[0] == hunk.contents[0]@);
        }
        if hunk.kind == DiffHunkKind::Matching {
            resolved_hunk.extend_from_slice(hunk.contents[0]);
            proof {
                assert(resolved_hunk@ =~= open + hunk.contents[0]@);
                assert(spec_resolved_hunk(view[i as int].0, view[i as int].1) =~= seq![
                    hunk.contents[0]@,
                ]);
            }
        } else {
            let terms = terms_in_turn(hunk.contents.as_slice());
            match trivial_merge(terms.as_slice()) {
                Some(content) => {
                    resolved_hunk.extend_from_slice(content);
                    proof {
                        assert(resolved_hunk@ =~= open + content@);
                        assert(spec_resolved_hunk(view[i as int].0, view[i as int].1) =~= seq![
                            content@,
                        ]);
                    }
                },
                None => {
                    if resolved_hunk.len() > 0 {
                        merge_hunks.push(Merge::resolved(resolved_hunk));
                        resolved_hunk = Vec::new();
                    }
                    merge_hunks.push(owned_merge(terms.as_slice()));
                    proof {
                        let hunk_terms = in_turn(hunk_contents_view(hunk.contents@));
                        assert(spec_resolved_hunk(view[i as int].0, view[i as int].1) == hunk_terms);
                        if hunk_terms.len() == 1 {
                            reveal_with_fuel(occurrences, 2);
                            assert(resolves_to(hunk_terms, 0));
                        }
                        if open.len() > 0 {
                            assert(terms_view(merge_hunks[merge_hunks.len() - 2]) =~= seq![open]);
                            assert(hunks_view(merge_hunks@) =~= before.push(seq![open]).push(
                                hunk_terms,
                            ));
                        } else {
                            assert(hunks_view(merge_hunks@) =~= before.push(hunk_terms));
                        }
                        assert(resolved_hunk@ =~= Seq::<u8>::empty());
                    }
                },
            }
        }
        i += 1;
    }
    if merge_hunks.len() == 0 {
        MergeResult::Resolved(resolved_hunk)
    } else {
        if resolved_hunk.len() > 0 {
            let ghost before = hunks_view(merge_hunks@);
            let ghost open = resolved_hunk@;
            merge_hunks.push(Merge::resolved(resolved_hunk));
            proof {
                assert(terms_view(merge_hunks[merge_hunks.len() - 1]) =~= seq![open]);
                assert(hunks_view(merge_hunks@) =~= before.push(seq![open]));
            }
        }
        MergeResult::Conflict(merge_hunks)
    }
}

/// Merges the contents of a file: the terms are diffed by line, and each
/// hunk of the diff is resolved where its terms allow it.
pub fn merge_hunks(inputs: &Merge<Vec<u8>>) -> (result: MergeResult)
    requires
        inputs.wf(),
    ensures
        exists|hunks: Seq<(DiffHunkKind, Seq<Seq<u8>>)>| #[trigger]
            is_line_diff(removes_then_adds(terms_view(*inputs)), hunks) && result.hunks()
                == spec_merge_hunks(hunks) && (result is Resolved <==> gathered(
                hunks,
                hunks.len() as int,
            ).0.len() == 0),
        result.wf(),
{
    let slices = diff_inputs(inputs);
    let hunks = line_diff_hunks(slices.as_slice());
    let result = collect_hunks(hunks.as_slice());
    proof {
        assert(is_line_diff(removes_then_adds(terms_view(*inputs)), diff_hunks_view(hunks@)));
    }
    result
}

} // verus!
