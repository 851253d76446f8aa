//! Writing the hunks of a merged file with conflict markers.

use crate::conflicts::lines::line_end;
use crate::conflicts::lines::next_line_end;
use crate::conflicts::markers::lemma_run_len_bound;
use crate::conflicts::markers::marker_line;
use crate::conflicts::markers::parse_conflict_marker_any_len;
use crate::conflicts::markers::spec_marker_any_len;
use crate::conflicts::markers::write_conflict_marker;
use crate::conflicts::markers::ConflictMarker;
use crate::conflicts::markers::CONFLICT_MARKER_LEN_INCREMENT;
use crate::conflicts::markers::MIN_CONFLICT_MARKER_LEN;
use crate::conflicts::sections::base_name;
use crate::conflicts::sections::base_text;
use crate::conflicts::sections::conflict_info;
use crate::conflicts::sections::diff_size;
use crate::conflicts::sections::diff_text;
use crate::conflicts::sections::git_text;
use crate::conflicts::sections::materialize_git_style_conflict;
use crate::conflicts::sections::side_text;
use crate::conflicts::sections::spec_diff_size;
use crate::conflicts::sections::write_base;
use crate::conflicts::sections::write_base_name;
use crate::conflicts::sections::write_conflict_info;
use crate::conflicts::sections::write_diff;
use crate::conflicts::sections::write_side;
use crate::diff::engine::inputs_view;
use crate::files::is_line_diff;
use crate::files::line_diff_hunks;
use crate::diff::DiffHunk;
use crate::diff::DiffHunkKind;
use crate::files::diff_hunks_view;
use crate::files::gathered;
use crate::files::hunks_view;
use crate::files::merge_hunks;
use crate::files::removes_then_adds;
use crate::files::spec_merge_hunks;
use crate::files::MergeResult;
use crate::files::terms_view;
use crate::merge::Merge;
use vstd::string::StringSliceAdditionalSpecFns;
use vstd::prelude::*;
use vstd::slice::slice_subrange;

verus! {

/// Describes what style should be used when materializing conflicts.
#[derive(Clone, Copy, Debug, PartialEq, Eq, Structural)]
pub enum ConflictMarkerStyle {
    /// Style which shows a snapshot and a series of diffs to apply.
    Diff,
    /// Style which shows a snapshot for each base and side.
    Snapshot,
    /// Style which replicates Git's "diff3" style to support external tools.
    Git,
}

impl Default for ConflictMarkerStyle {
    fn default() -> (style: Self)
        ensures
            style == ConflictMarkerStyle::Diff,
    {
        ConflictMarkerStyle::Diff
    }
}

/// The length of the marker that a line begins with; `0` if it begins with
/// none.
pub open spec fn marker_len_of(line: Seq<u8>) -> int {
    match spec_marker_any_len(line) {
        Some((_, len)) => len,
        None => 0,
    }
}

/// The length of the longest marker that a line of `text` from `from` on
/// begins with.
pub open spec fn longest_marker(text: Seq<u8>, from: int) -> int
    decreases text.len() - from,
{
    if from < 0 || from >= text.len() {
        0
    } else {
        let end = line_end(text, from);
        if from < end <= text.len() {
            let here = marker_len_of(text.subrange(from, end));
            let rest = longest_marker(text, end);
            if here >= rest {
                here
            } else {
                rest
            }
        } else {
            0
        }
    }
}

/// The length of the longest marker that a line of one of the first `upto`
/// terms begins with.
pub open spec fn longest_marker_in(terms: Seq<Seq<u8>>, upto: int) -> int
    decreases upto,
{
    if upto <= 0 {
        0
    } else {
        let before = longest_marker_in(terms, upto - 1);
        let here = longest_marker(terms[upto - 1], 0);
        if here >= before {
            here
        } else {
            before
        }
    }
}

/// The length of the markers to write a conflict with: longer by the
/// increment than the longest marker in its terms, and the minimum at
/// least.
pub open spec fn spec_marker_len(terms: Seq<Seq<u8>>) -> int {
    let longest = longest_marker_in(terms, terms.len() as int);
    let wanted = if longest + CONFLICT_MARKER_LEN_INCREMENT > usize::MAX {
        usize::MAX as int
    } else {
        longest + CONFLICT_MARKER_LEN_INCREMENT
    };
    if wanted >= MIN_CONFLICT_MARKER_LEN {
        wanted
    } else {
        MIN_CONFLICT_MARKER_LEN as int
    }
}

/// No marker is shorter than nothing.
pub proof fn lemma_longest_marker(text: Seq<u8>, from: int)
    ensures
        longest_marker(text, from) >= 0,
    decreases text.len() - from,
{
    if 0 <= from < text.len() {
        let end = line_end(text, from);
        if from < end <= text.len() {
            let line = text.subrange(from, end);
            lemma_run_len_bound(line, line[0], 0);
            lemma_longest_marker(text, end);
        }
    }
}

/// The length of the longest marker that a line of `text` begins with.
fn longest_marker_of(text: &[u8]) -> (longest: usize)
    ensures
        longest == longest_marker(text@, 0),
{
    let mut longest: usize = 0;
    let mut pos: usize = 0;
    proof {
        lemma_longest_marker(text@, 0);
    }
    while pos < text.len()
        invariant
            pos <= text.len(),
            longest_marker(text@, 0) == if longest >= longest_marker(text@, pos as int) {
                longest as int
            } else {
                longest_marker(text@, pos as int)
            },
        decreases text.len() - pos,
    {
        let end: usize = next_line_end(text, pos);
        let line = slice_subrange(text, pos, end);
        proof {
            lemma_longest_marker(text@, end as int);
        }
        match parse_conflict_marker_any_len(line) {
            Some((_, len)) => {
                if len > longest {
                    longest = len;
                }
            },
            None => {},
        }
        pos = end;
    }
    longest
}

/// Computes the length of the markers to materialize a conflict with,
/// based on the lines of its terms that look like markers already.
pub fn choose_materialized_conflict_marker_len(single_hunk: &Merge<Vec<u8>>) -> (len: usize)
    ensures
        len == spec_marker_len(terms_view(*single_hunk)),
        len >= MIN_CONFLICT_MARKER_LEN,
{
    let values = single_hunk.as_slice();
    let ghost terms = terms_view(*single_hunk);
    let mut longest: usize = 0;
    let mut k: usize = 0;
    while k < values.len()
        invariant
            k <= values.len(),
            values@ == single_hunk.values(),
            terms == terms_view(*single_hunk),
            longest == longest_marker_in(terms, k as int),
        decreases values.len() - k,
    {
        let here: usize = longest_marker_of(values[k].as_slice());
        if here > longest {
            longest = here;
        }
        k += 1;
    }
    let wanted: usize = longest.saturating_add(CONFLICT_MARKER_LEN_INCREMENT);
    if wanted >= MIN_CONFLICT_MARKER_LEN {
        wanted
    } else {
        MIN_CONFLICT_MARKER_LEN
    }
}

} // verus!

verus! {

/// Every hunk has two texts.
pub open spec fn pairs_only(hunks: Seq<DiffHunk>) -> bool {
    forall|i: int| 0 <= i < hunks.len() ==> (#[trigger] hunks[i]).contents.len() == 2
}

/// How one base of a conflict is written, together with the sides that are
/// written with it.
pub enum ConflictStep<'a> {
    /// The base as a snapshot; no side is left to go with it.
    BaseOnly,
    /// The next side as a snapshot, then the base as a snapshot.
    SideAndBase,
    /// The diff from the base to the next side.
    Diff(Vec<DiffHunk<'a>>),
    /// The next side as a snapshot, then the diff from the base to the side
    /// behind it.
    SideAndDiff(Vec<DiffHunk<'a>>),
}

/// A step with the hunks of its diff as texts.
pub enum StepView {
    BaseOnly,
    SideAndBase,
    Diff(Seq<(DiffHunkKind, Seq<Seq<u8>>)>),
    SideAndDiff(Seq<(DiffHunkKind, Seq<Seq<u8>>)>),
}

impl<'a> ConflictStep<'a> {
    /// The step with the hunks of its diff as texts.
    pub open spec fn view(self) -> StepView {
        match self {
            ConflictStep::BaseOnly => StepView::BaseOnly,
            ConflictStep::SideAndBase => StepView::SideAndBase,
            ConflictStep::Diff(hunks) => StepView::Diff(diff_hunks_view(hunks@)),
            ConflictStep::SideAndDiff(hunks) => StepView::SideAndDiff(diff_hunks_view(hunks@)),
        }
    }

    /// Every hunk of the step's diff has a text of the base and one of the
    /// side.
    pub open spec fn wf(self) -> bool {
        match self {
            ConflictStep::Diff(hunks) => pairs_only(hunks@),
            ConflictStep::SideAndDiff(hunks) => pairs_only(hunks@),
            _ => true,
        }
    }
}

/// The number of sides that a step writes.
pub open spec fn step_adds(step: StepView) -> int {
    match step {
        StepView::BaseOnly => 0,
        StepView::SideAndBase => 1,
        StepView::Diff(_) => 1,
        StepView::SideAndDiff(_) => 2,
    }
}

/// The number of sides that the first `upto` steps write.
pub open spec fn adds_used(plan: Seq<StepView>, upto: int) -> int
    decreases upto,
{
    if upto <= 0 {
        0
    } else {
        adds_used(plan, upto - 1) + step_adds(plan[upto - 1])
    }
}

/// The hunks are those of a line diff from `left` to `right`.
pub open spec fn is_pair_diff(
    left: Seq<u8>,
    right: Seq<u8>,
    hunks: Seq<(DiffHunkKind, Seq<Seq<u8>>)>,
) -> bool {
    is_line_diff(Seq::empty().push(left).push(right), hunks)
}

/// The step is the one to write the base at `b` with, where the sides
/// before `a` are written: the base alone if no side is left; snapshots of
/// the next side and the base in every style but the diff style; and in
/// that style a line diff from the base to the next side, unless a line
/// diff to the side behind it is smaller: then the next side is a snapshot
/// and the diff leads to the side behind it.
#[verifier::opaque]
pub open spec fn step_valid(
    terms: Seq<Seq<u8>>,
    style: ConflictMarkerStyle,
    b: int,
    a: int,
    step: StepView,
) -> bool {
    if 2 * a >= terms.len() {
        step == StepView::BaseOnly
    } else if style != ConflictMarkerStyle::Diff {
        step == StepView::SideAndBase
    } else {
        match step {
            StepView::Diff(hunks) => {
                &&& is_pair_diff(terms[2 * b + 1], terms[2 * a], hunks)
                &&& 2 * a + 2 < terms.len() ==> exists|other: Seq<(DiffHunkKind, Seq<Seq<u8>>)>|
                    #[trigger] is_pair_diff(terms[2 * b + 1], terms[2 * a + 2], other)
                        && spec_diff_size(other, other.len() as int) >= spec_diff_size(
                        hunks,
                        hunks.len() as int,
                    )
            },
            StepView::SideAndDiff(hunks) => {
                &&& 2 * a + 2 < terms.len()
                &&& is_pair_diff(terms[2 * b + 1], terms[2 * a + 2], hunks)
                &&& exists|other: Seq<(DiffHunkKind, Seq<Seq<u8>>)>| #[trigger]
                    is_pair_diff(terms[2 * b + 1], terms[2 * a], other) && spec_diff_size(
                        hunks,
                        hunks.len() as int,
                    ) < spec_diff_size(other, other.len() as int)
            },
            _ => false,
        }
    }
}

/// What a step writes.
#[verifier::opaque]
pub open spec fn step_text(
    terms: Seq<Seq<u8>>,
    b: int,
    a: int,
    step: StepView,
    marker_len: int,
) -> Seq<u8> {
    let name = base_name(b, terms.len() as int / 2);
    let left = terms[2 * b + 1];
    match step {
        StepView::BaseOnly => base_text(name, left, marker_len),
        StepView::SideAndBase => side_text(a, terms[2 * a], marker_len) + base_text(
            name,
            left,
            marker_len,
        ),
        StepView::Diff(hunks) => diff_text(name, a, hunks, marker_len),
        StepView::SideAndDiff(hunks) => side_text(a, terms[2 * a], marker_len) + diff_text(
            name,
            a + 1,
            hunks,
            marker_len,
        ),
    }
}

/// Diffs two texts by line.
fn diff_pair<'a>(left: &'a [u8], right: &'a [u8]) -> (hunks: Vec<DiffHunk<'a>>)
    ensures
        is_pair_diff(left@, right@, diff_hunks_view(hunks@)),
        forall|i: int| 0 <= i < hunks.len() ==> (#[trigger] hunks[i]).contents.len() == 2,
{
    let mut inputs: Vec<&'a [u8]> = Vec::new();
    inputs.push(left);
    inputs.push(right);
    let hunks = line_diff_hunks(inputs.as_slice());
    proof {
        assert(inputs_view(inputs@) =~= Seq::empty().push(left@).push(right@));
    }
    hunks
}

/// Decides how to write the base at `base_index` of a conflict of which
/// the sides before `add_index` are written.
pub fn plan_step<'a>(
    hunk: &'a Merge<Vec<u8>>,
    style: ConflictMarkerStyle,
    base_index: usize,
    add_index: usize,
) -> (step: ConflictStep<'a>)
    requires
        hunk.wf(),
        2 * base_index + 1 < hunk.values().len(),
        2 * add_index <= hunk.values().len() + 1,
    ensures
        step.wf(),
        step_valid(terms_view(*hunk), style, base_index as int, add_index as int, step.view()),
{
    let values = hunk.as_slice();
    let ghost terms = terms_view(*hunk);
    proof {
        reveal(step_valid);
    }
    if add_index > values.len() / 2 {
        return ConflictStep::BaseOnly;
    }
    if style != ConflictMarkerStyle::Diff {
        return ConflictStep::SideAndBase;
    }
    let left: &'a [u8] = values[2 * base_index + 1].as_slice();
    let right1: &'a [u8] = values[2 * add_index].as_slice();
    let diff1 = diff_pair(left, right1);
    proof {
        assert(terms[2 * base_index + 1] == left@);
        assert(terms[2 * add_index as int] == right1@);
    }
    // Check if the diff against the next positive term is better. Since
    // we want to preserve the order of the terms, we don't match against
    // any later positive terms.
    if add_index < values.len() / 2 {
        let right2: &'a [u8] = values[2 * add_index + 2].as_slice();
        let diff2 = diff_pair(left, right2);
        proof {
            assert(terms[2 * add_index + 2] == right2@);
        }
        if diff_size(diff2.as_slice()) < diff_size(diff1.as_slice()) {
            return ConflictStep::SideAndDiff(diff2);
        }
    }
    ConflictStep::Diff(diff1)
}

/// Writes the base at `base_index` of a conflict as the step says, with
/// the sides that the step takes.
pub fn write_step(
    output: &mut Vec<u8>,
    hunk: &Merge<Vec<u8>>,
    step: &ConflictStep,
    base_index: usize,
    add_index: usize,
    marker_len: usize,
)
    requires
        hunk.wf(),
        step.wf(),
        2 * base_index + 1 < hunk.values().len(),
        !(step is BaseOnly) ==> 2 * add_index < hunk.values().len(),
    ensures
        final(output)@ == old(output)@ + step_text(
            terms_view(*hunk),
            base_index as int,
            add_index as int,
            step.view(),
            marker_len as int,
        ),
{
    let ghost start = output@;
    let values = hunk.as_slice();
    let ghost terms = terms_view(*hunk);
    let name = write_base_name(base_index, values.len() / 2);
    let left: &[u8] = values[2 * base_index + 1].as_slice();
    proof {
        reveal(step_text);
        assert(terms[2 * base_index + 1] == left@);
        if !(step is BaseOnly) {
            assert(terms[2 * add_index as int] == values[2 * add_index as int]@);
        }
    }
    match step {
        ConflictStep::BaseOnly => {
            write_base(output, name.as_slice(), left, marker_len);
        },
        ConflictStep::SideAndBase => {
            write_side(output, add_index, values[2 * add_index].as_slice(), marker_len);
            write_base(output, name.as_slice(), left, marker_len);
        },
        ConflictStep::Diff(hunks) => {
            write_diff(output, name.as_slice(), add_index, hunks.as_slice(), marker_len);
        },
        ConflictStep::SideAndDiff(hunks) => {
            write_side(output, add_index, values[2 * add_index].as_slice(), marker_len);
            write_diff(output, name.as_slice(), add_index + 1, hunks.as_slice(), marker_len);
        },
    }
    proof {
        assert(output@ =~= start + step_text(
            terms,
            base_index as int,
            add_index as int,
            step.view(),
            marker_len as int,
        ));
    }
}

/// The number of sides that a step takes.
pub fn step_add_count(step: &ConflictStep) -> (n: usize)
    ensures
        n == step_adds(step.view()),
{
    match step {
        ConflictStep::BaseOnly => 0,
        ConflictStep::SideAndBase => 1,
        ConflictStep::Diff(_) => 1,
        ConflictStep::SideAndDiff(_) => 2,
    }
}

} // verus!

verus! {

/// What the first `upto` steps of a plan write.
pub open spec fn steps_text(
    terms: Seq<Seq<u8>>,
    plan: Seq<StepView>,
    marker_len: int,
    upto: int,
) -> Seq<u8>
    decreases upto,
{
    if upto <= 0 {
        Seq::empty()
    } else {
        steps_text(terms, plan, marker_len, upto - 1) + step_text(
            terms,
            upto - 1,
            adds_used(plan, upto - 1),
            plan[upto - 1],
            marker_len,
        )
    }
}

/// The snapshots of the sides from `from` on.
pub open spec fn sides_text(terms: Seq<Seq<u8>>, from: int, marker_len: int) -> Seq<u8>
    decreases terms.len() - from,
{
    if from < 0 || 2 * from >= terms.len() {
        Seq::empty()
    } else {
        side_text(from, terms[2 * from], marker_len) + sides_text(terms, from + 1, marker_len)
    }
}

/// Each step of the plan is the one to write its base with.
pub open spec fn steps_valid(
    terms: Seq<Seq<u8>>,
    style: ConflictMarkerStyle,
    plan: Seq<StepView>,
) -> bool {
    forall|b: int|
        0 <= b < plan.len() ==> step_valid(terms, style, b, adds_used(plan, b), #[trigger] plan[b])
}

/// The plan has a step for each base of the conflict, and each step is the
/// one to write its base with.
pub open spec fn is_plan(terms: Seq<Seq<u8>>, style: ConflictMarkerStyle, plan: Seq<StepView>) -> bool {
    plan.len() == terms.len() / 2 && steps_valid(terms, style, plan)
}

/// A conflict as the plan writes it: the line that begins the conflict,
/// the steps of the plan, the sides that are left as snapshots, and the
/// line that ends the conflict.
pub open spec fn planned_text(
    terms: Seq<Seq<u8>>,
    info: Seq<u8>,
    plan: Seq<StepView>,
    marker_len: int,
) -> Seq<u8> {
    marker_line(ConflictMarker::ConflictStart, marker_len, info) + steps_text(
        terms,
        plan,
        marker_len,
        plan.len() as int,
    ) + sides_text(terms, adds_used(plan, plan.len() as int), marker_len) + marker_line(
        ConflictMarker::ConflictEnd,
        marker_len,
        info + " ends".spec_bytes(),
    )
}

/// Writes the sides from `add_index` on as snapshots.
fn write_remaining_sides(
    output: &mut Vec<u8>,
    hunk: &Merge<Vec<u8>>,
    add_index: usize,
    marker_len: usize,
)
    requires
        hunk.wf(),
    ensures
        final(output)@ == old(output)@ + sides_text(
            terms_view(*hunk),
            add_index as int,
            marker_len as int,
        ),
{
    let ghost start = output@;
    let ghost terms = terms_view(*hunk);
    let values = hunk.as_slice();
    let mut a: usize = add_index;
    while a <= values.len() / 2
        invariant
            values@ == hunk.values(),
            terms == terms_view(*hunk),
            values.len() % 2 == 1,
            output@ + sides_text(terms, a as int, marker_len as int) == start + sides_text(
                terms,
                add_index as int,
                marker_len as int,
            ),
        decreases values.len() + 2 - a,
    {
        let ghost before = output@;
        write_side(output, a, values[2 * a].as_slice(), marker_len);
        proof {
            let rest = sides_text(terms, a + 1, marker_len as int);
            assert(terms[2 * a as int] == values[2 * a as int]@);
            assert(output@ + rest =~= before + (side_text(
                a as int,
                terms[2 * a as int],
                marker_len as int,
            ) + rest));
        }
        a += 1;
    }
    proof {
        assert(sides_text(terms, a as int, marker_len as int) =~= Seq::<u8>::empty());
        assert(output@ =~= output@ + Seq::<u8>::empty());
    }
}

/// Writes the bases of a conflict, each with the sides that its step
/// takes, and says how many sides are written then.
fn write_steps(
    hunk: &Merge<Vec<u8>>,
    conflict_marker_style: ConflictMarkerStyle,
    conflict_marker_len: usize,
    output: &mut Vec<u8>,
) -> (done: (usize, Ghost<Seq<StepView>>))
    requires
        hunk.wf(),
    ensures
        is_plan(terms_view(*hunk), conflict_marker_style, done.1@),
        done.0 == adds_used(done.1@, done.1@.len() as int),
        final(output)@ == old(output)@ + steps_text(
            terms_view(*hunk),
            done.1@,
            conflict_marker_len as int,
            done.1@.len() as int,
        ),
{
    let ghost head = output@;
    let ghost terms = terms_view(*hunk);
    let ghost mut plan: Seq<StepView> = Seq::empty();
    let num_bases: usize = hunk.as_slice().len() / 2;
    let mut add_index: usize = 0;
    let mut base_index: usize = 0;
    proof {
        assert(output@ =~= head + steps_text(terms, plan, conflict_marker_len as int, 0));
    }
    while base_index < num_bases
        invariant
            hunk.wf(),
            terms == terms_view(*hunk),
            num_bases == hunk.values().len() / 2,
            hunk.values().len() <= usize::MAX,
            base_index <= num_bases,
            plan.len() == base_index,
            add_index == adds_used(plan, base_index as int),
            2 * add_index <= hunk.values().len() + 1,
            steps_valid(terms, conflict_marker_style, plan),
            output@ == head + steps_text(
                terms,
                plan,
                conflict_marker_len as int,
                base_index as int,
            ),
        decreases num_bases - base_index,
    {
        let ghost before = output@;
        let ghost old_plan = plan;
        let step = plan_step(hunk, conflict_marker_style, base_index, add_index);
        proof {
            lemma_extend_plan(
                terms,
                conflict_marker_style,
                old_plan,
                step.view(),
                conflict_marker_len as int,
            );
            lemma_step_has_side(
                terms,
                conflict_marker_style,
                base_index as int,
                add_index as int,
                step.view(),
            );
        }
        write_step(output, hunk, &step, base_index, add_index, conflict_marker_len);
        let taken: usize = step_add_count(&step);
        proof {
            plan = plan.push(step.view());
            let written = step_text(
                terms,
                base_index as int,
                add_index as int,
                step.view(),
                conflict_marker_len as int,
            );
            let earlier = steps_text(
                terms,
                old_plan,
                conflict_marker_len as int,
                base_index as int,
            );
            assert(output@ == before + written);
            assert(head + earlier + written =~= head + (earlier + written));
        }
        add_index += taken;
        base_index += 1;
    }
    (add_index, Ghost(plan))
}

/// A valid step that is not a base alone has a side to write.
proof fn lemma_step_has_side(
    terms: Seq<Seq<u8>>,
    style: ConflictMarkerStyle,
    b: int,
    a: int,
    step: StepView,
)
    requires
        step_valid(terms, style, b, a, step),
    ensures
        !(step is BaseOnly) ==> 2 * a < terms.len(),
        step is SideAndDiff ==> 2 * a + 2 < terms.len(),
{
    reveal(step_valid);
}

/// Writes a conflict with a marker line for each side, base and diff, in
/// the diff style or the snapshot style.
pub fn materialize_jj_style_conflict(
    hunk: &Merge<Vec<u8>>,
    conflict_info: &[u8],
    conflict_marker_style: ConflictMarkerStyle,
    conflict_marker_len: usize,
    output: &mut Vec<u8>,
)
    requires
        hunk.wf(),
    ensures
        exists|plan: Seq<StepView>| #[trigger]
            is_plan(terms_view(*hunk), conflict_marker_style, plan) && final(output)@ == old(
                output,
            )@ + planned_text(terms_view(*hunk), conflict_info@, plan, conflict_marker_len as int),
{
    let ghost start = output@;
    let ghost terms = terms_view(*hunk);
    write_conflict_marker(
        output,
        ConflictMarker::ConflictStart,
        conflict_marker_len,
        conflict_info,
    );
    let (add_index, Ghost(plan)) = write_steps(
        hunk,
        conflict_marker_style,
        conflict_marker_len,
        output,
    );
    write_remaining_sides(output, hunk, add_index, conflict_marker_len);
    let mut footer: Vec<u8> = Vec::new();
    footer.extend_from_slice(conflict_info);
    footer.extend_from_slice(" ends".as_bytes());
    proof {
        assert(footer@ =~= conflict_info@ + " ends".spec_bytes());
    }
    write_conflict_marker(
        output,
        ConflictMarker::ConflictEnd,
        conflict_marker_len,
        footer.as_slice(),
    );
    proof {
        assert(output@ =~= start + planned_text(
            terms,
            conflict_info@,
            plan,
            conflict_marker_len as int,
        ));
    }
}

/// A plan with one valid step more.
pub proof fn lemma_extend_plan(
    terms: Seq<Seq<u8>>,
    style: ConflictMarkerStyle,
    plan: Seq<StepView>,
    step: StepView,
    marker_len: int,
)
    requires
        terms.len() % 2 == 1,
        steps_valid(terms, style, plan),
        step_valid(terms, style, plan.len() as int, adds_used(plan, plan.len() as int), step),
        0 <= 2 * adds_used(plan, plan.len() as int) <= terms.len() + 1,
    ensures
        steps_valid(terms, style, plan.push(step)),
        adds_used(plan.push(step), plan.len() as int + 1) == adds_used(plan, plan.len() as int)
            + step_adds(step),
        0 <= 2 * adds_used(plan.push(step), plan.len() as int + 1) <= terms.len() + 1,
        steps_text(terms, plan.push(step), marker_len, plan.len() as int + 1) == steps_text(
            terms,
            plan,
            marker_len,
            plan.len() as int,
        ) + step_text(
            terms,
            plan.len() as int,
            adds_used(plan, plan.len() as int),
            step,
            marker_len,
        ),
{
    let longer = plan.push(step);
    lemma_step_has_side(terms, style, plan.len() as int, adds_used(plan, plan.len() as int), step);
    lemma_adds_used_prefix(plan, longer, plan.len() as int);
    lemma_steps_text_prefix(terms, plan, longer, marker_len, plan.len() as int);
    assert forall|b: int| 0 <= b < longer.len() implies step_valid(
        terms,
        style,
        b,
        adds_used(longer, b),
        #[trigger] longer[b],
    ) by {
        if b < plan.len() {
            lemma_adds_used_prefix(plan, longer, b);
            assert(longer[b] == plan[b]);
        }
    }
}

/// The sides that the first steps take do not depend on the steps behind
/// them.
pub proof fn lemma_adds_used_prefix(short: Seq<StepView>, long: Seq<StepView>, upto: int)
    requires
        0 <= upto <= short.len() <= long.len(),
        forall|i: int| 0 <= i < short.len() ==> short[i] == long[i],
    ensures
        adds_used(short, upto) == adds_used(long, upto),
    decreases upto,
{
    if upto > 0 {
        lemma_adds_used_prefix(short, long, upto - 1);
    }
}

/// What the first steps write does not depend on the steps behind them.
pub proof fn lemma_steps_text_prefix(
    terms: Seq<Seq<u8>>,
    short: Seq<StepView>,
    long: Seq<StepView>,
    marker_len: int,
    upto: int,
)
    requires
        0 <= upto <= short.len() <= long.len(),
        forall|i: int| 0 <= i < short.len() ==> short[i] == long[i],
    ensures
        steps_text(terms, short, marker_len, upto) == steps_text(terms, long, marker_len, upto),
    decreases upto,
{
    if upto > 0 {
        lemma_steps_text_prefix(terms, short, long, marker_len, upto - 1);
        lemma_adds_used_prefix(short, long, upto - 1);
    }
}

} // verus!

verus! {

/// The number of conflicts among the first `upto` hunks: of hunks with
/// more than one term.
pub open spec fn conflicts_upto(hunks: Seq<Seq<Seq<u8>>>, upto: int) -> nat
    decreases upto,
{
    if upto <= 0 {
        0
    } else {
        conflicts_upto(hunks, upto - 1) + if hunks[upto - 1].len() == 1 {
            0nat
        } else {
            1nat
        }
    }
}

/// A hunk of a merged file as text: a resolved hunk is its content; a
/// conflict of two sides in the style of Git has the form of Git; every
/// other conflict is written as its plan says.
pub open spec fn hunk_text(
    terms: Seq<Seq<u8>>,
    style: ConflictMarkerStyle,
    marker_len: int,
    info: Seq<u8>,
    plan: Seq<StepView>,
) -> Seq<u8> {
    if terms.len() == 1 {
        terms[0]
    } else if style == ConflictMarkerStyle::Git && terms.len() == 3 {
        git_text(terms[0], terms[1], terms[2], info, marker_len)
    } else {
        planned_text(terms, info, plan, marker_len)
    }
}

/// The hunk needs a plan: it is a conflict that is not written in the form
/// of Git.
pub open spec fn is_planned(terms: Seq<Seq<u8>>, style: ConflictMarkerStyle) -> bool {
    terms.len() != 1 && !(style == ConflictMarkerStyle::Git && terms.len() == 3)
}

/// Every hunk that needs a plan has one.
pub open spec fn plans_valid(
    hunks: Seq<Seq<Seq<u8>>>,
    style: ConflictMarkerStyle,
    plans: Seq<Seq<StepView>>,
) -> bool {
    &&& plans.len() == hunks.len()
    &&& forall|i: int|
        0 <= i < hunks.len() && is_planned(#[trigger] hunks[i], style) ==> is_plan(
            hunks[i],
            style,
            plans[i],
        )
}

/// The first `upto` hunks of a merged file as text, the conflicts numbered
/// from one.
pub open spec fn hunks_text(
    hunks: Seq<Seq<Seq<u8>>>,
    style: ConflictMarkerStyle,
    marker_len: int,
    plans: Seq<Seq<StepView>>,
    upto: int,
) -> Seq<u8>
    decreases upto,
{
    if upto <= 0 {
        Seq::empty()
    } else {
        hunks_text(hunks, style, marker_len, plans, upto - 1) + hunk_text(
            hunks[upto - 1],
            style,
            marker_len,
            conflict_info(
                conflicts_upto(hunks, upto),
                conflicts_upto(hunks, hunks.len() as int),
            ),
            plans[upto - 1],
        )
    }
}

/// The text is the merged file with its conflicts written in the style.
pub open spec fn is_materialized(
    hunks: Seq<Seq<Seq<u8>>>,
    style: ConflictMarkerStyle,
    marker_len: int,
    plans: Seq<Seq<StepView>>,
    text: Seq<u8>,
) -> bool {
    plans_valid(hunks, style, plans) && text == hunks_text(
        hunks,
        style,
        marker_len,
        plans,
        hunks.len() as int,
    )
}

/// Counts the conflicts among hunks.
fn count_conflicts(hunks: &[Merge<Vec<u8>>]) -> (count: usize)
    ensures
        count == conflicts_upto(hunks_view(hunks@), hunks.len() as int),
{
    let ghost view = hunks_view(hunks@);
    let mut count: usize = 0;
    let mut i: usize = 0;
    while i < hunks.len()
        invariant
            i <= hunks.len(),
            count <= i,
            view == hunks_view(hunks@),
            count == conflicts_upto(view, i as int),
        decreases hunks.len() - i,
    {
        proof {
            assert(view[i as int] == terms_view(hunks[i as int]));
        }
        if !hunks[i].is_resolved() {
            count += 1;
        }
        i += 1;
    }
    count
}

/// What the first hunks write does not depend on the plans behind theirs.
pub proof fn lemma_hunks_text_prefix(
    hunks: Seq<Seq<Seq<u8>>>,
    style: ConflictMarkerStyle,
    marker_len: int,
    short: Seq<Seq<StepView>>,
    long: Seq<Seq<StepView>>,
    upto: int,
)
    requires
        0 <= upto <= short.len() <= long.len(),
        forall|i: int| 0 <= i < short.len() ==> short[i] == long[i],
    ensures
        hunks_text(hunks, style, marker_len, short, upto) == hunks_text(
            hunks,
            style,
            marker_len,
            long,
            upto,
        ),
    decreases upto,
{
    if upto > 0 {
        lemma_hunks_text_prefix(hunks, style, marker_len, short, long, upto - 1);
    }
}

/// No more conflicts lie among the first hunks than there are hunks.
pub proof fn lemma_conflicts_upto(hunks: Seq<Seq<Seq<u8>>>, upto: int)
    requires
        0 <= upto,
    ensures
        conflicts_upto(hunks, upto) <= upto,
    decreases upto,
{
    if upto > 0 {
        lemma_conflicts_upto(hunks, upto - 1);
    }
}

/// Writes one hunk of a merged file.
fn materialize_hunk(
    hunk: &Merge<Vec<u8>>,
    conflict_marker_style: ConflictMarkerStyle,
    conflict_marker_len: usize,
    conflict_info: &[u8],
    output: &mut Vec<u8>,
) -> (plan: Ghost<Seq<StepView>>)
    requires
        hunk.wf(),
    ensures
        is_planned(terms_view(*hunk), conflict_marker_style) ==> is_plan(
            terms_view(*hunk),
            conflict_marker_style,
            plan@,
        ),
        final(output)@ == old(output)@ + hunk_text(
            terms_view(*hunk),
            conflict_marker_style,
            conflict_marker_len as int,
            conflict_info@,
            plan@,
        ),
{
    let values = hunk.as_slice();
    let ghost terms = terms_view(*hunk);
    let ghost start = output@;
    proof {
        assert(forall|k: int| 0 <= k < values.len() ==> terms[k] == (#[trigger] values[k])@);
    }
    if values.len() == 1 {
        output.extend_from_slice(values[0].as_slice());
        proof {
            assert(output@ =~= start + terms[0]);
        }
        Ghost(Seq::empty())
    } else if conflict_marker_style == ConflictMarkerStyle::Git && values.len() == 3 {
        // 2-sided conflicts can use Git-style conflict markers
        materialize_git_style_conflict(
            values[0].as_slice(),
            values[1].as_slice(),
            values[2].as_slice(),
            conflict_info,
            conflict_marker_len,
            output,
        );
        Ghost(Seq::empty())
    } else {
        materialize_jj_style_conflict(
            hunk,
            conflict_info,
            conflict_marker_style,
            conflict_marker_len,
            output,
        );
        let ghost plan = choose|plan: Seq<StepView>| #[trigger]
            is_plan(terms, conflict_marker_style, plan) && output@ == start + planned_text(
                terms,
                conflict_info@,
                plan,
                conflict_marker_len as int,
            );
        Ghost(plan)
    }
}

/// Writes the hunks of a merged file: resolved hunks as they are, and
/// each conflict with markers of the given length in the given style,
/// numbered from one.
pub fn materialize_conflict_hunks(
    hunks: &[Merge<Vec<u8>>],
    conflict_marker_style: ConflictMarkerStyle,
    conflict_marker_len: usize,
    output: &mut Vec<u8>,
)
    requires
        forall|i: int| 0 <= i < hunks.len() ==> (#[trigger] hunks[i]).wf(),
    ensures
        exists|plans: Seq<Seq<StepView>>, text: Seq<u8>| #[trigger]
            is_materialized(
                hunks_view(hunks@),
                conflict_marker_style,
                conflict_marker_len as int,
                plans,
                text,
            ) && final(output)@ == old(output)@ + text,
{
    let ghost start = output@;
    let ghost view = hunks_view(hunks@);
    let ghost mut plans: Seq<Seq<StepView>> = Seq::empty();
    let num_conflicts: usize = count_conflicts(hunks);
    let mut conflict_index: usize = 0;
    let mut i: usize = 0;
    proof {
        assert(output@ =~= start + hunks_text(
            view,
            conflict_marker_style,
            conflict_marker_len as int,
            plans,
            0,
        ));
    }
    while i < hunks.len()
        invariant
            i <= hunks.len(),
            view == hunks_view(hunks@),
            forall|i: int| 0 <= i < hunks.len() ==> (#[trigger] hunks[i]).wf(),
            num_conflicts == conflicts_upto(view, hunks.len() as int),
            conflict_index == conflicts_upto(view, i as int),
            conflict_index <= i,
            plans.len() == i,
            forall|k: int|
                0 <= k < i && is_planned(#[trigger] view[k], conflict_marker_style) ==> is_plan(
                    view[k],
                    conflict_marker_style,
                    plans[k],
                ),
            output@ == start + hunks_text(
                view,
                conflict_marker_style,
                conflict_marker_len as int,
                plans,
                i as int,
            ),
        decreases hunks.len() - i,
    {
        let hunk = &hunks[i];
        let ghost before = output@;
        let ghost old_plans = plans;
        proof {
            assert(view[i as int] == terms_view(*hunk));
        }
        if !hunk.is_resolved() {
            conflict_index += 1;
        }
        let info = write_conflict_info(conflict_index, num_conflicts);
        let plan = materialize_hunk(
            hunk,
            conflict_marker_style,
            conflict_marker_len,
            info.as_slice(),
            output,
        );
        proof {
            plans = plans.push(plan@);
            lemma_hunks_text_prefix(
                view,
                conflict_marker_style,
                conflict_marker_len as int,
                old_plans,
                plans,
                i as int,
            );
            let earlier = hunks_text(
                view,
                conflict_marker_style,
                conflict_marker_len as int,
                old_plans,
                i as int,
            );
            let written = hunk_text(
                view[i as int],
                conflict_marker_style,
                conflict_marker_len as int,
                info@,
                plan@,
            );
            assert(start + earlier + written =~= start + (earlier + written));
        }
        i += 1;
    }
    proof {
        assert(is_materialized(
            view,
            conflict_marker_style,
            conflict_marker_len as int,
            plans,
            hunks_text(
                view,
                conflict_marker_style,
                conflict_marker_len as int,
                plans,
                hunks.len() as int,
            ),
        ));
    }
}

} // verus!

verus! {

/// The text is a merged file of the terms: the terms are diffed by line,
/// the hunks of the diff are resolved where they can be, and the conflicts
/// that are left are written in the style, with markers of the given
/// length.
pub open spec fn is_merged_text(
    terms: Seq<Seq<u8>>,
    style: ConflictMarkerStyle,
    marker_len: int,
    hunks: Seq<(DiffHunkKind, Seq<Seq<u8>>)>,
    plans: Seq<Seq<StepView>>,
    text: Seq<u8>,
) -> bool {
    is_line_diff(removes_then_adds(terms), hunks) && is_materialized(
        spec_merge_hunks(hunks),
        style,
        marker_len,
        plans,
        text,
    )
}

/// Merges the terms of a file and writes the result to `output`: the
/// merged content where the merge resolves, else the resolved hunks with
/// the conflicts between them, each with markers of the given length.
pub fn materialize_merge_result_with_marker_len(
    single_hunk: &Merge<Vec<u8>>,
    conflict_marker_style: ConflictMarkerStyle,
    conflict_marker_len: usize,
    output: &mut Vec<u8>,
)
    requires
        single_hunk.wf(),
    ensures
        exists|hunks: Seq<(DiffHunkKind, Seq<Seq<u8>>)>, plans: Seq<Seq<StepView>>, text: Seq<u8>|
            #[trigger] is_merged_text(
                terms_view(*single_hunk),
                conflict_marker_style,
                conflict_marker_len as int,
                hunks,
                plans,
                text,
            ) && final(output)@ == old(output)@ + text,
{
    let ghost start = output@;
    let ghost terms = terms_view(*single_hunk);
    let merge_result = merge_hunks(single_hunk);
    let ghost diff = choose|hunks: Seq<(DiffHunkKind, Seq<Seq<u8>>)>| #[trigger]
        is_line_diff(removes_then_adds(terms), hunks) && merge_result.hunks() == spec_merge_hunks(
            hunks,
        ) && (merge_result is Resolved <==> gathered(hunks, hunks.len() as int).0.len() == 0);
    match merge_result {
        MergeResult::Resolved(content) => {
            output.extend_from_slice(content.as_slice());
            proof {
                let merged = spec_merge_hunks(diff);
                let plans = seq![Seq::<StepView>::empty()];
                reveal_with_fuel(hunks_text, 2);
                assert(merged =~= seq![seq![content@]]);
                let text = hunks_text(
                    merged,
                    conflict_marker_style,
                    conflict_marker_len as int,
                    plans,
                    1,
                );
                assert(text =~= content@);
                assert(is_merged_text(
                    terms,
                    conflict_marker_style,
                    conflict_marker_len as int,
                    diff,
                    plans,
                    text,
                ));
            }
        },
        MergeResult::Conflict(hunks) => {
            materialize_conflict_hunks(
                hunks.as_slice(),
                conflict_marker_style,
                conflict_marker_len,
                output,
            );
            proof {
                let (plans, text) = choose|plans: Seq<Seq<StepView>>, text: Seq<u8>| #[trigger]
                    is_materialized(
                        hunks_view(hunks@),
                        conflict_marker_style,
                        conflict_marker_len as int,
                        plans,
                        text,
                    ) && output@ == start + text;
                assert(is_merged_text(
                    terms,
                    conflict_marker_style,
                    conflict_marker_len as int,
                    diff,
                    plans,
                    text,
                ));
            }
        },
    }
}

/// Merges the terms of a file and returns the result as text: the merged
/// content where the merge resolves, else the resolved hunks with the
/// conflicts between them, each with markers long enough to stand out from
/// the terms.
pub fn materialize_merge_result_to_bytes(
    single_hunk: &Merge<Vec<u8>>,
    conflict_marker_style: ConflictMarkerStyle,
) -> (output: Vec<u8>)
    requires
        single_hunk.wf(),
    ensures
        exists|hunks: Seq<(DiffHunkKind, Seq<Seq<u8>>)>, plans: Seq<Seq<StepView>>| #[trigger]
            is_merged_text(
                terms_view(*single_hunk),
                conflict_marker_style,
                spec_marker_len(terms_view(*single_hunk)),
                hunks,
                plans,
                output@,
            ),
{
    let conflict_marker_len: usize = choose_materialized_conflict_marker_len(single_hunk);
    let mut output: Vec<u8> = Vec::new();
    materialize_merge_result_with_marker_len(
        single_hunk,
        conflict_marker_style,
        conflict_marker_len,
        &mut output,
    );
    proof {
        let (hunks, plans, text) = choose|
            hunks: Seq<(DiffHunkKind, Seq<Seq<u8>>)>,
            plans: Seq<Seq<StepView>>,
            text: Seq<u8>,
        | #[trigger]
            is_merged_text(
                terms_view(*single_hunk),
                conflict_marker_style,
                conflict_marker_len as int,
                hunks,
                plans,
                text,
            ) && output@ == Seq::<u8>::empty() + text;
        assert(output@ =~= text);
    }
    output
}

} // verus!
