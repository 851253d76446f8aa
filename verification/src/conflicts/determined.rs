//! The text of a merged file is a function of the terms, the style and the
//! length of the markers: what is written for them is written in one way
//! only. So are the terms that are read back from an edited file.

use crate::conflicts::materialize::adds_used;
use crate::conflicts::materialize::hunks_text;
use crate::conflicts::materialize::is_materialized;
use crate::conflicts::materialize::is_merged_text;
use crate::conflicts::materialize::is_pair_diff;
use crate::conflicts::materialize::is_plan;
use crate::conflicts::materialize::is_planned;
use crate::conflicts::materialize::plans_valid;
use crate::conflicts::materialize::step_valid;
use crate::conflicts::materialize::ConflictMarkerStyle;
use crate::conflicts::update::contents_or_empty;
use crate::conflicts::update::is_update;
use crate::conflicts::update::option_views;
use crate::merge::terms_at;
use crate::conflicts::sections::spec_diff_size;
use crate::conflicts::materialize::StepView;
use crate::diff::DiffHunkKind;
use crate::files::lemma_line_diff_is_determined;
use crate::files::removes_then_adds;
use crate::files::spec_merge_hunks;
use vstd::prelude::*;

verus! {

/// Two texts have one line diff.
proof fn lemma_pair_diff_is_determined(
    left: Seq<u8>,
    right: Seq<u8>,
    first: Seq<(DiffHunkKind, Seq<Seq<u8>>)>,
    second: Seq<(DiffHunkKind, Seq<Seq<u8>>)>,
)
    requires
        is_pair_diff(left, right, first),
        is_pair_diff(left, right, second),
    ensures
        first == second,
{
    lemma_line_diff_is_determined(Seq::empty().push(left).push(right), first, second);
}

/// There is one step to write a base with.
proof fn lemma_step_is_determined(
    terms: Seq<Seq<u8>>,
    style: ConflictMarkerStyle,
    b: int,
    a: int,
    first: StepView,
    second: StepView,
)
    requires
        step_valid(terms, style, b, a, first),
        step_valid(terms, style, b, a, second),
    ensures
        first == second,
{
    reveal(step_valid);
    if 2 * a < terms.len() && style == ConflictMarkerStyle::Diff {
        let base = terms[2 * b + 1];
        match (first, second) {
            (StepView::Diff(h1), StepView::Diff(h2)) => {
                lemma_pair_diff_is_determined(base, terms[2 * a], h1, h2);
            },
            (StepView::SideAndDiff(h1), StepView::SideAndDiff(h2)) => {
                lemma_pair_diff_is_determined(base, terms[2 * a + 2], h1, h2);
            },
            (StepView::Diff(h1), StepView::SideAndDiff(h2)) => {
                let to_next = choose|other: Seq<(DiffHunkKind, Seq<Seq<u8>>)>| #[trigger]
                    is_pair_diff(base, terms[2 * a + 2], other) && spec_diff_size(
                        other,
                        other.len() as int,
                    ) >= spec_diff_size(h1, h1.len() as int);
                let to_this = choose|other: Seq<(DiffHunkKind, Seq<Seq<u8>>)>| #[trigger]
                    is_pair_diff(base, terms[2 * a], other) && spec_diff_size(
                        h2,
                        h2.len() as int,
                    ) < spec_diff_size(other, other.len() as int);
                lemma_pair_diff_is_determined(base, terms[2 * a + 2], to_next, h2);
                lemma_pair_diff_is_determined(base, terms[2 * a], to_this, h1);
            },
            (StepView::SideAndDiff(h1), StepView::Diff(h2)) => {
                let to_next = choose|other: Seq<(DiffHunkKind, Seq<Seq<u8>>)>| #[trigger]
                    is_pair_diff(base, terms[2 * a + 2], other) && spec_diff_size(
                        other,
                        other.len() as int,
                    ) >= spec_diff_size(h2, h2.len() as int);
                let to_this = choose|other: Seq<(DiffHunkKind, Seq<Seq<u8>>)>| #[trigger]
                    is_pair_diff(base, terms[2 * a], other) && spec_diff_size(
                        h1,
                        h1.len() as int,
                    ) < spec_diff_size(other, other.len() as int);
                lemma_pair_diff_is_determined(base, terms[2 * a + 2], to_next, h1);
                lemma_pair_diff_is_determined(base, terms[2 * a], to_this, h2);
            },
            _ => {},
        }
    }
}

/// Two plans for a conflict have the same steps.
proof fn lemma_plan_steps(
    terms: Seq<Seq<u8>>,
    style: ConflictMarkerStyle,
    first: Seq<StepView>,
    second: Seq<StepView>,
    upto: int,
)
    requires
        is_plan(terms, style, first),
        is_plan(terms, style, second),
        0 <= upto <= first.len(),
    ensures
        adds_used(first, upto) == adds_used(second, upto),
        forall|b: int| 0 <= b < upto ==> first[b] == second[b],
    decreases upto,
{
    if upto > 0 {
        lemma_plan_steps(terms, style, first, second, upto - 1);
        let b = upto - 1;
        assert(step_valid(terms, style, b, adds_used(first, b), first[b]));
        assert(step_valid(terms, style, b, adds_used(second, b), second[b]));
        lemma_step_is_determined(terms, style, b, adds_used(first, b), first[b], second[b]);
    }
}

/// A conflict has one plan.
pub proof fn lemma_plan_is_determined(
    terms: Seq<Seq<u8>>,
    style: ConflictMarkerStyle,
    first: Seq<StepView>,
    second: Seq<StepView>,
)
    requires
        is_plan(terms, style, first),
        is_plan(terms, style, second),
    ensures
        first == second,
{
    lemma_plan_steps(terms, style, first, second, first.len() as int);
    assert(first =~= second);
}

/// Hunks are written in one way, whatever plans stand for the hunks that
/// need none.
proof fn lemma_hunks_text_is_determined(
    hunks: Seq<Seq<Seq<u8>>>,
    style: ConflictMarkerStyle,
    marker_len: int,
    first: Seq<Seq<StepView>>,
    second: Seq<Seq<StepView>>,
    upto: int,
)
    requires
        plans_valid(hunks, style, first),
        plans_valid(hunks, style, second),
        0 <= upto <= hunks.len(),
    ensures
        hunks_text(hunks, style, marker_len, first, upto) == hunks_text(
            hunks,
            style,
            marker_len,
            second,
            upto,
        ),
    decreases upto,
{
    if upto > 0 {
        lemma_hunks_text_is_determined(hunks, style, marker_len, first, second, upto - 1);
        if is_planned(hunks[upto - 1], style) {
            lemma_plan_is_determined(hunks[upto - 1], style, first[upto - 1], second[upto - 1]);
        }
    }
}

/// The hunks of a merged file are written in one way in a style, with
/// markers of a length.
pub proof fn lemma_materialized_is_determined(
    hunks: Seq<Seq<Seq<u8>>>,
    style: ConflictMarkerStyle,
    marker_len: int,
    first_plans: Seq<Seq<StepView>>,
    first: Seq<u8>,
    second_plans: Seq<Seq<StepView>>,
    second: Seq<u8>,
)
    requires
        is_materialized(hunks, style, marker_len, first_plans, first),
        is_materialized(hunks, style, marker_len, second_plans, second),
    ensures
        first == second,
{
    lemma_hunks_text_is_determined(
        hunks,
        style,
        marker_len,
        first_plans,
        second_plans,
        hunks.len() as int,
    );
}

/// The terms of a file are merged and written in one way in a style, with
/// markers of a length: the text is a function of the terms.
pub proof fn lemma_merged_text_is_determined(
    terms: Seq<Seq<u8>>,
    style: ConflictMarkerStyle,
    marker_len: int,
    first_hunks: Seq<(DiffHunkKind, Seq<Seq<u8>>)>,
    first_plans: Seq<Seq<StepView>>,
    first: Seq<u8>,
    second_hunks: Seq<(DiffHunkKind, Seq<Seq<u8>>)>,
    second_plans: Seq<Seq<StepView>>,
    second: Seq<u8>,
)
    requires
        is_merged_text(terms, style, marker_len, first_hunks, first_plans, first),
        is_merged_text(terms, style, marker_len, second_hunks, second_plans, second),
    ensures
        first == second,
{
    lemma_line_diff_is_determined(removes_then_adds(terms), first_hunks, second_hunks);
    lemma_materialized_is_determined(
        spec_merge_hunks(first_hunks),
        style,
        marker_len,
        first_plans,
        first,
        second_plans,
        second,
    );
}

/// The terms of a conflict are updated from an edited file in one way.
pub proof fn lemma_update_is_determined(
    original: Seq<Option<Vec<u8>>>,
    style: ConflictMarkerStyle,
    marker_len: int,
    content: Seq<u8>,
    first_places: Seq<usize>,
    first_written: Seq<u8>,
    first: Seq<Option<Seq<u8>>>,
    second_places: Seq<usize>,
    second_written: Seq<u8>,
    second: Seq<Option<Seq<u8>>>,
)
    requires
        is_update(original, style, marker_len, content, first_places, first_written, first),
        is_update(original, style, marker_len, content, second_places, second_written, second),
    ensures
        first == second,
{
    let terms = contents_or_empty(terms_at(option_views(original), first_places));
    let (first_hunks, first_plans) = choose|
        hunks: Seq<(DiffHunkKind, Seq<Seq<u8>>)>,
        plans: Seq<Seq<StepView>>,
    | #[trigger]
        is_merged_text(terms, style, marker_len, hunks, plans, first_written);
    let (second_hunks, second_plans) = choose|
        hunks: Seq<(DiffHunkKind, Seq<Seq<u8>>)>,
        plans: Seq<Seq<StepView>>,
    | #[trigger]
        is_merged_text(terms, style, marker_len, hunks, plans, second_written);
    lemma_merged_text_is_determined(
        terms,
        style,
        marker_len,
        first_hunks,
        first_plans,
        first_written,
        second_hunks,
        second_plans,
        second_written,
    );
}

} // verus!
