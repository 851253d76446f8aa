//! A merged file with conflicts that was written is read back as the hunks
//! of the merge.

use crate::conflicts::lines::lemma_line_end;
use crate::conflicts::lines::line_end;
use crate::conflicts::lines::lines_from;
use crate::conflicts::lines::lines_of;
use crate::conflicts::markers::lemma_run_len_bound;
use crate::conflicts::materialize::lemma_longest_marker;
use crate::conflicts::materialize::longest_marker;
use crate::conflicts::materialize::longest_marker_in;
use crate::conflicts::materialize::spec_marker_len;
use crate::conflicts::markers::spec_marker;
use crate::conflicts::markers::with_newline;
use crate::conflicts::materialize::conflicts_upto;
use crate::conflicts::materialize::is_merged_text;
use crate::conflicts::materialize::ConflictMarkerStyle;
use crate::conflicts::materialize::StepView;
use crate::conflicts::parse::spec_parse_conflict;
use crate::conflicts::plain_lines::is_line_start;
use crate::conflicts::plain_lines::lemma_lines_begin;
use crate::conflicts::plain_lines::lemma_part_lines_plain;
use crate::conflicts::plain_lines::line_at;
use crate::conflicts::diff_style::lemma_line_shape;
use crate::conflicts::round_trip::all_plain;
use crate::conflicts::round_trip::ends_lines;
use crate::conflicts::round_trip::is_plain;
use crate::conflicts::round_trip::is_readable;
use crate::conflicts::round_trip::lemma_ends_lines_concat;
use crate::conflicts::round_trip::lemma_lines_concat;
use crate::conflicts::round_trip::lemma_plain_has_no_bounds;
use crate::conflicts::round_trip::lemma_round_trip_of_plain_terms;
use crate::conflicts::round_trip::newlined;
use crate::conflicts::round_trip::no_marker_lines;
use crate::conflicts::round_trip::read_back;
use crate::diff::aligned::is_cut;
use crate::diff::aligned::lemma_hunks_cut;
use crate::diff::aligned::lemma_line_regions_cut;
use crate::diff::aligned::lemma_matching_hunks_agree;
use crate::diff::aligned::region_cut;
use crate::diff::compare::CompareBytesExactly;
use crate::diff::engine::contents_of;
use crate::diff::engine::inputs_view;
use crate::diff::engine::is_diff_under;
use crate::diff::engine::lemma_remaining_hunks;
use crate::diff::engine::spec_hunks;
use crate::diff::engine::DiffHunkKind;
use crate::diff::regions::all_empty;
use crate::diff::regions::contents_agree;
use crate::diff::regions::input_lens;
use crate::diff::regions::region_in_bounds;
use crate::diff::regions::Sides;
use crate::diff::tokens::find_line_ranges;
use crate::files::gathered;
use crate::files::hunks_of;
use crate::files::in_turn;
use crate::files::is_diff_of;
use crate::files::is_line_diff;
use crate::files::removes_then_adds;
use crate::files::resolves_to;
use crate::files::spec_merge_hunks;
use crate::files::spec_resolved_hunk;
use crate::files::spec_trivial_merge;
use vstd::prelude::*;

verus! {

/// The text ends its lines, and none of them begins with a marker of the
/// given length or a longer one.
pub open spec fn good_text(text: Seq<u8>, marker_len: int) -> bool {
    ends_lines(text) && no_marker_lines(lines_of(text), marker_len)
}

/// A hunk of a diff of `n` good texts: it has a good text of each, the
/// same of all where the texts match.
pub open spec fn hunk_good(n: int, hunk: (DiffHunkKind, Seq<Seq<u8>>), marker_len: int) -> bool {
    &&& hunk.1.len() == n
    &&& forall|k: int| 0 <= k < n ==> good_text(#[trigger] hunk.1[k], marker_len)
    &&& hunk.0 == DiffHunkKind::Matching ==> forall|k: int|
        0 <= k < n ==> #[trigger] hunk.1[k] == hunk.1[0]
}

/// A part of a good text between two cuts is a good text.
proof fn lemma_part_good(text: Seq<u8>, from: int, to: int, marker_len: int)
    requires
        good_text(text, marker_len),
        is_cut(text, from),
        is_cut(text, to),
        from <= to,
    ensures
        good_text(text.subrange(from, to), marker_len),
{
    let part = text.subrange(from, to);
    if part.len() > 0 {
        assert(part.last() == text[to - 1]);
        assert(text.last() == text[text.len() - 1]);
    }
    assert(with_newline(text) == text);
    assert forall|i: int| 0 <= i < lines_of(part).len() implies spec_marker(
        #[trigger] lines_of(part)[i],
        marker_len,
    ).is_none() by {
        lemma_part_lines_plain(text, from, to, marker_len, i);
        lemma_lines_begin(part, 0, i);
        let q = choose|q: int| is_line_start(part, q) && lines_of(part)[i] == #[trigger] line_at(part, q);
        lemma_line_shape(part, q);
        let line = line_at(part, q);
        assert(line.last() == part[crate::conflicts::lines::line_end(part, q) - 1]);
        assert(with_newline(line) == line);
    }
}

/// Good texts put together are a good text.
proof fn lemma_good_concat(a: Seq<u8>, b: Seq<u8>, marker_len: int)
    requires
        good_text(a, marker_len),
        good_text(b, marker_len),
    ensures
        good_text(a + b, marker_len),
{
    lemma_ends_lines_concat(a, b);
    lemma_lines_concat(a, b, 0);
    let lines = lines_of(a) + lines_of(b);
    assert forall|i: int| 0 <= i < lines.len() implies spec_marker(
        #[trigger] lines[i],
        marker_len,
    ).is_none() by {
        if i < lines_of(a).len() {
            assert(lines[i] == lines_of(a)[i]);
        } else {
            assert(lines[i] == lines_of(b)[i - lines_of(a).len()]);
        }
    }
}

/// The hunks of a diff by lines of good texts are good.
pub proof fn lemma_line_hunks_good(
    inputs: Seq<Seq<u8>>,
    hunks: Seq<(DiffHunkKind, Seq<Seq<u8>>)>,
    marker_len: int,
)
    requires
        inputs.len() >= 2,
        is_line_diff(inputs, hunks),
        forall|k: int| 0 <= k < inputs.len() ==> good_text(#[trigger] inputs[k], marker_len),
    ensures
        forall|i: int| 0 <= i < hunks.len() ==> hunk_good(inputs.len() as int, #[trigger] hunks[i], marker_len),
{
    let lens = input_lens(inputs);
    let regions = choose|regions: Seq<Sides>| #[trigger]
        is_diff_of(inputs, regions) && hunks == hunks_of(inputs, regions);
    let places = spec_hunks(regions);
    let slices = choose|slices: Seq<&[u8]>|
        inputs_view(slices) == inputs && #[trigger] is_diff_under(
            &find_line_ranges,
            &&CompareBytesExactly,
            slices,
            regions,
        );
    assert(slices.len() == inputs.len()) by {
        assert(inputs_view(slices).len() == inputs.len());
    }
    lemma_line_regions_cut(slices, regions);
    lemma_hunks_cut(inputs, regions, 0, all_empty(regions[0]));
    lemma_matching_hunks_agree(inputs, regions, 0, all_empty(regions[0]));
    lemma_remaining_hunks(regions, lens, 0, all_empty(regions[0]));
    assert forall|i: int| 0 <= i < hunks.len() implies hunk_good(
        inputs.len() as int,
        #[trigger] hunks[i],
        marker_len,
    ) by {
        let sides = places[i].1;
        assert(hunks[i] == (places[i].0, contents_of(inputs, sides)));
        assert(region_in_bounds(sides, lens));
        assert(region_cut(inputs, sides));
        assert forall|k: int| 0 <= k < inputs.len() implies good_text(
            #[trigger] hunks[i].1[k],
            marker_len,
        ) by {
            assert(hunks[i].1[k] == inputs[k].subrange(sides[k].start as int, sides[k].end as int));
            lemma_part_good(inputs[k], sides[k].start as int, sides[k].end as int, marker_len);
        }
        if hunks[i].0 == DiffHunkKind::Matching {
            assert(contents_agree(inputs, sides));
            assert forall|k: int| 0 <= k < inputs.len() implies #[trigger] hunks[i].1[k]
                == hunks[i].1[0] by {
                assert(hunks[i].1[k] == inputs[k].subrange(
                    sides[k].start as int,
                    sides[k].end as int,
                ));
                assert(hunks[i].1[0] == inputs[0].subrange(
                    sides[0].start as int,
                    sides[0].end as int,
                ));
            }
        }
    }
}

/// What the hunks gathered of a merge of good texts are like: the
/// resolved text that is open is good; a resolved hunk has content, is
/// good and stands before a conflict; a conflict has `n` good terms.
pub open spec fn gathered_good(
    done: Seq<Seq<Seq<u8>>>,
    open: Seq<u8>,
    n: int,
    marker_len: int,
) -> bool {
    &&& good_text(open, marker_len)
    &&& forall|j: int|
        0 <= j < done.len() && (#[trigger] done[j]).len() == 1 ==> done[j][0].len() > 0
            && good_text(done[j][0], marker_len) && j + 1 < done.len() && done[j + 1].len() != 1
    &&& forall|j: int|
        0 <= j < done.len() && (#[trigger] done[j]).len() != 1 ==> done[j].len() == n && forall|
            k: int,
        |
            0 <= k < n ==> good_text(#[trigger] done[j][k], marker_len)
}

/// A hunk of good texts is good when it is resolved where it can be.
proof fn lemma_resolved_hunk_good(n: int, hunk: (DiffHunkKind, Seq<Seq<u8>>), marker_len: int)
    requires
        n >= 3,
        hunk_good(n, hunk, marker_len),
    ensures
        ({
            let resolved = spec_resolved_hunk(hunk.0, hunk.1);
            &&& resolved.len() == 1 || resolved.len() == n
            &&& forall|k: int| 0 <= k < resolved.len() ==> good_text(#[trigger] resolved[k], marker_len)
        }),
{
    let resolved = spec_resolved_hunk(hunk.0, hunk.1);
    let terms = in_turn(hunk.1);
    assert forall|j: int| 0 <= j < terms.len() implies good_text(#[trigger] terms[j], marker_len) by {
        if j % 2 == 0 {
            assert(terms[j] == hunk.1[hunk.1.len() / 2 + j / 2]);
        } else {
            assert(terms[j] == hunk.1[j / 2]);
        }
    }
    if hunk.0 == DiffHunkKind::Matching {
        assert(good_text(hunk.1[0], marker_len));
    } else if spec_trivial_merge(terms).is_some() {
        let i = choose|i: int| resolves_to(terms, i);
        assert(resolved[0] == terms[i]);
    }
}

/// The hunks gathered of a merge of good texts are as `gathered_good`
/// says.
pub proof fn lemma_gathered_good(
    hunks: Seq<(DiffHunkKind, Seq<Seq<u8>>)>,
    n: int,
    marker_len: int,
    upto: int,
)
    requires
        n >= 3,
        0 <= upto <= hunks.len(),
        forall|i: int| 0 <= i < hunks.len() ==> hunk_good(n, #[trigger] hunks[i], marker_len),
    ensures
        gathered_good(gathered(hunks, upto).0, gathered(hunks, upto).1, n, marker_len),
        gathered(hunks, upto).0.len() > 0 ==> gathered(hunks, upto).0.last().len() != 1,
    decreases upto,
{
    if upto == 0 {
        assert(lines_of(Seq::<u8>::empty()) =~= Seq::<Seq<u8>>::empty());
    } else {
        lemma_gathered_good(hunks, n, marker_len, upto - 1);
        let (done, open) = gathered(hunks, upto - 1);
        let hunk = spec_resolved_hunk(hunks[upto - 1].0, hunks[upto - 1].1);
        assert(hunk_good(n, hunks[upto - 1], marker_len));
        lemma_resolved_hunk_good(n, hunks[upto - 1], marker_len);
        let (after, rest) = gathered(hunks, upto);
        if hunk.len() == 1 {
            lemma_good_concat(open, hunk[0], marker_len);
        } else {
            assert(lines_of(Seq::<u8>::empty()) =~= Seq::<Seq<u8>>::empty());
            if open.len() > 0 {
                let middle = done.push(seq![open]);
                assert(after == middle.push(hunk));
                assert forall|j: int| 0 <= j < after.len() && (#[trigger] after[j]).len()
                    == 1 implies after[j][0].len() > 0 && good_text(after[j][0], marker_len) && j
                    + 1 < after.len() && after[j + 1].len() != 1 by {
                    if j < done.len() {
                        assert(after[j] == done[j]);
                        assert(after[j + 1] == done[j + 1]);
                    } else {
                        assert(j == done.len());
                        assert(after[j] == seq![open]);
                        assert(after[j + 1] == hunk);
                    }
                }
                assert forall|j: int| 0 <= j < after.len() && (#[trigger] after[j]).len()
                    != 1 implies after[j].len() == n && forall|k: int|
                    0 <= k < n ==> good_text(#[trigger] after[j][k], marker_len) by {
                    if j < done.len() {
                        assert(after[j] == done[j]);
                    } else {
                        assert(after[j] == hunk);
                    }
                }
            } else {
                assert(after == done.push(hunk));
                assert forall|j: int| 0 <= j < after.len() && (#[trigger] after[j]).len()
                    == 1 implies after[j][0].len() > 0 && good_text(after[j][0], marker_len) && j
                    + 1 < after.len() && after[j + 1].len() != 1 by {
                    assert(after[j] == done[j]);
                    if j + 1 < done.len() {
                        assert(after[j + 1] == done[j + 1]);
                    }
                }
                assert forall|j: int| 0 <= j < after.len() && (#[trigger] after[j]).len()
                    != 1 implies after[j].len() == n && forall|k: int|
                    0 <= k < n ==> good_text(#[trigger] after[j][k], marker_len) by {
                    if j < done.len() {
                        assert(after[j] == done[j]);
                    } else {
                        assert(after[j] == hunk);
                    }
                }
            }
        }
    }
}

/// Where the last hunk is a conflict, there is a conflict.
proof fn lemma_has_conflict(hunks: Seq<Seq<Seq<u8>>>, j: int, upto: int)
    requires
        0 <= j < upto <= hunks.len(),
        hunks[j].len() != 1,
    ensures
        conflicts_upto(hunks, upto) > 0,
    decreases upto,
{
    if j < upto - 1 {
        lemma_has_conflict(hunks, j, upto - 1);
    }
}

/// A good text is without markers, with a line feed at its end or
/// without.
proof fn lemma_good_is_plain(text: Seq<u8>, marker_len: int)
    requires
        good_text(text, marker_len - 1),
    ensures
        good_text(text, marker_len),
        is_plain(text, marker_len),
        is_plain(text, marker_len - 1),
        with_newline(text) == text,
{
    assert(with_newline(text) == text);
    assert forall|i: int| 0 <= i < lines_of(text).len() implies spec_marker(
        #[trigger] lines_of(text)[i],
        marker_len,
    ).is_none() by {
        assert(spec_marker(lines_of(text)[i], marker_len - 1).is_none());
    }
}

/// The hunks of a merge of good terms that leaves a conflict can be
/// written and read back, and are read back as they are.
pub proof fn lemma_merged_readable(
    terms: Seq<Seq<u8>>,
    hunks: Seq<(DiffHunkKind, Seq<Seq<u8>>)>,
    marker_len: int,
)
    requires
        terms.len() % 2 == 1,
        terms.len() >= 3,
        is_line_diff(removes_then_adds(terms), hunks),
        forall|k: int| 0 <= k < terms.len() ==> good_text(#[trigger] terms[k], marker_len - 1),
        gathered(hunks, hunks.len() as int).0.len() > 0,
    ensures
        is_readable(spec_merge_hunks(hunks), (terms.len() as int + 1) / 2, marker_len),
        read_back(spec_merge_hunks(hunks)) == spec_merge_hunks(hunks),
        conflicts_upto(spec_merge_hunks(hunks), spec_merge_hunks(hunks).len() as int) > 0,
        forall|i: int|
            0 <= i < spec_merge_hunks(hunks).len() && (#[trigger] spec_merge_hunks(hunks)[i]).len()
                != 1 ==> all_plain(spec_merge_hunks(hunks)[i], marker_len - 1),
{
    let n = terms.len() as int;
    let inputs = removes_then_adds(terms);
    assert forall|k: int| 0 <= k < inputs.len() implies good_text(
        #[trigger] inputs[k],
        marker_len - 1,
    ) by {
        if k < terms.len() / 2 {
            assert(inputs[k] == terms[2 * k + 1]);
        } else {
            assert(inputs[k] == terms[2 * (k - terms.len() / 2)]);
        }
    }
    lemma_line_hunks_good(inputs, hunks, marker_len - 1);
    lemma_gathered_good(hunks, n, marker_len - 1, hunks.len() as int);
    let (done, open) = gathered(hunks, hunks.len() as int);
    let merged = spec_merge_hunks(hunks);
    lemma_good_is_plain(open, marker_len);
    assert forall|i: int| 0 <= i < merged.len() && (#[trigger] merged[i]).len() != 1 implies merged[i].len()
        == n && all_plain(merged[i], marker_len) && all_plain(merged[i], marker_len - 1)
        && newlined(merged[i]) == merged[i] by {
        assert(merged[i] == done[i]);
        assert forall|k: int| 0 <= k < n implies is_plain(#[trigger] merged[i][k], marker_len)
            && is_plain(merged[i][k], marker_len - 1) && with_newline(merged[i][k])
            == merged[i][k] by {
            assert(good_text(done[i][k], marker_len - 1));
            lemma_good_is_plain(merged[i][k], marker_len);
        }
        assert(newlined(merged[i]) =~= merged[i]);
    }
    assert forall|i: int| 0 <= i < merged.len() && (#[trigger] merged[i]).len() == 1 implies merged[i][0].len()
        > 0 && crate::conflicts::round_trip::no_conflict_bounds(
        lines_of(merged[i][0]),
        marker_len,
    ) && (i + 1 < merged.len() ==> ends_lines(merged[i][0]) && merged[i + 1].len() != 1) by {
        if i < done.len() {
            assert(merged[i] == done[i]);
            assert(merged[i + 1] == done[i + 1]);
            lemma_good_is_plain(done[i][0], marker_len);
        } else {
            assert(merged[i] == seq![open]);
        }
        lemma_plain_has_no_bounds(lines_of(merged[i][0]), marker_len);
    }
    assert(read_back(merged) =~= merged);
    assert(merged[done.len() - 1] == done.last());
    lemma_has_conflict(merged, done.len() - 1, merged.len() as int);
}

/// A merge of terms that leaves a conflict, written in any of the three
/// styles with markers of two characters at least, is read back as the
/// hunks of the merge: this holds where every term ends its lines and no
/// line of a term begins with a marker of the length before that which
/// the file was written with.
pub proof fn lemma_merge_round_trip(
    terms: Seq<Seq<u8>>,
    style: ConflictMarkerStyle,
    marker_len: int,
    hunks: Seq<(DiffHunkKind, Seq<Seq<u8>>)>,
    plans: Seq<Seq<StepView>>,
    text: Seq<u8>,
)
    requires
        terms.len() % 2 == 1,
        terms.len() >= 3,
        marker_len >= 2,
        forall|k: int| 0 <= k < terms.len() ==> good_text(#[trigger] terms[k], marker_len - 1),
        is_merged_text(terms, style, marker_len, hunks, plans, text),
        gathered(hunks, hunks.len() as int).0.len() > 0,
    ensures
        spec_parse_conflict(text, (terms.len() as int + 1) / 2, marker_len) == Some(
            spec_merge_hunks(hunks),
        ),
{
    lemma_merged_readable(terms, hunks, marker_len);
    lemma_round_trip_of_plain_terms(
        spec_merge_hunks(hunks),
        style,
        marker_len,
        plans,
        (terms.len() as int + 1) / 2,
        text,
    );
}

/// No line from `from` on begins with a marker longer than the longest
/// one.
proof fn lemma_longest_marker_bounds(text: Seq<u8>, from: int, marker_len: int)
    requires
        0 <= from <= text.len(),
        longest_marker(text, from) < marker_len,
    ensures
        no_marker_lines(lines_from(text, from), marker_len),
        longest_marker(text, from) <= text.len(),
    decreases text.len() - from,
{
    if from < text.len() {
        lemma_line_end(text, from);
        let end = line_end(text, from);
        let line = text.subrange(from, end);
        lemma_longest_marker(text, end);
        lemma_run_len_bound(line, line[0], 0);
        lemma_longest_marker_bounds(text, end, marker_len);
        let lines = lines_from(text, from);
        assert forall|i: int| 0 <= i < lines.len() implies spec_marker(
            #[trigger] lines[i],
            marker_len,
        ).is_none() by {
            if i > 0 {
                assert(lines[i] == lines_from(text, end)[i - 1]);
            } else {
                assert(lines[0] == line);
            }
        }
    }
}

/// The longest marker of all terms is no shorter than that of one.
proof fn lemma_longest_marker_in(terms: Seq<Seq<u8>>, upto: int, k: int)
    requires
        0 <= k < upto <= terms.len(),
    ensures
        longest_marker(terms[k], 0) <= longest_marker_in(terms, upto),
    decreases upto,
{
    if k < upto - 1 {
        lemma_longest_marker_in(terms, upto - 1, k);
    }
}

/// The longest marker of terms is no longer than the longest term.
proof fn lemma_longest_marker_in_bound(terms: Seq<Seq<u8>>, upto: int, bound: int)
    requires
        0 <= upto <= terms.len(),
        0 <= bound,
        forall|k: int| 0 <= k < terms.len() ==> (#[trigger] terms[k]).len() <= bound,
    ensures
        longest_marker_in(terms, upto) <= bound,
    decreases upto,
{
    if upto > 0 {
        lemma_longest_marker_in_bound(terms, upto - 1, bound);
        lemma_longest_marker(terms[upto - 1], 0);
        if longest_marker(terms[upto - 1], 0) >= 0 {
            lemma_longest_marker_bounds(
                terms[upto - 1],
                0,
                longest_marker(terms[upto - 1], 0) + 1,
            );
        }
    }
}

/// With markers of the length that is chosen for them, terms that end
/// their lines are good texts for markers one shorter.
pub proof fn lemma_chosen_len_is_plain(terms: Seq<Seq<u8>>)
    requires
        forall|k: int|
            0 <= k < terms.len() ==> ends_lines(#[trigger] terms[k]) && terms[k].len() + 4
                <= usize::MAX,
    ensures
        spec_marker_len(terms) >= 2,
        forall|k: int|
            0 <= k < terms.len() ==> good_text(#[trigger] terms[k], spec_marker_len(terms) - 1),
{
    let chosen = spec_marker_len(terms);
    lemma_longest_marker_in_bound(terms, terms.len() as int, usize::MAX - 4);
    assert forall|k: int| 0 <= k < terms.len() implies good_text(
        #[trigger] terms[k],
        chosen - 1,
    ) by {
        lemma_longest_marker_in(terms, terms.len() as int, k);
        lemma_longest_marker_bounds(terms[k], 0, chosen - 1);
    }
}

/// A merge of terms that end their lines, where it leaves a conflict, is
/// read back from what is written for it, in any of the three styles and
/// with markers of the length that is chosen for the terms, as the hunks
/// of the merge.
pub proof fn lemma_written_merge_is_read_back(
    terms: Seq<Seq<u8>>,
    style: ConflictMarkerStyle,
    hunks: Seq<(DiffHunkKind, Seq<Seq<u8>>)>,
    plans: Seq<Seq<StepView>>,
    text: Seq<u8>,
)
    requires
        terms.len() % 2 == 1,
        terms.len() >= 3,
        forall|k: int|
            0 <= k < terms.len() ==> ends_lines(#[trigger] terms[k]) && terms[k].len() + 4
                <= usize::MAX,
        is_merged_text(terms, style, spec_marker_len(terms), hunks, plans, text),
        gathered(hunks, hunks.len() as int).0.len() > 0,
    ensures
        spec_parse_conflict(text, (terms.len() as int + 1) / 2, spec_marker_len(terms)) == Some(
            spec_merge_hunks(hunks),
        ),
{
    lemma_chosen_len_is_plain(terms);
    lemma_merge_round_trip(terms, style, spec_marker_len(terms), hunks, plans, text);
}

} // verus!
