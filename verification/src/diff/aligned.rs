//! The hunks of a diff by lines are made of whole lines: each begins and
//! ends where a line begins, or where the text ends.

use super::builder::end_region;
use super::builder::initial_regions;
use super::builder::region_of;
use super::builder::zero_region;
use super::compare::CompareBytes;
use super::compare::CompareBytesExactly;
use super::engine::inputs_view;
use super::engine::is_diff_under;
use super::engine::is_tokenized;
use super::engine::ranges_view;
use super::engine::remaining_hunks;
use super::engine::seeded_regions;
use super::engine::DiffHunkKind;
use super::nway::lemma_nway_matching;
use super::nway::nway_unchanged;
use super::nway::Joined;
use super::regions::all_empty;
use super::regions::between;
use super::regions::compact_from;
use super::regions::contents_agree;
use super::regions::contiguous;
use super::regions::region_in_bounds;
use super::regions::regions_agree;
use super::regions::regions_ordered;
use super::regions::input_lens;
use super::regions::merged;
use super::regions::spec_compact;
use super::regions::Sides;
use super::source::seeded_hashes;
use super::source::words_of;
use super::tokens::find_line_ranges;
use super::tokens::is_line_split;
use std::ops::Range;
use vstd::prelude::*;

verus! {

/// A line begins at `p`, or the text ends there.
pub open spec fn is_cut(text: Seq<u8>, p: int) -> bool {
    0 <= p <= text.len() && (p == 0 || p == text.len() || text[p - 1] == 0x0a)
}

/// On every side the region begins and ends at a cut of its input.
pub open spec fn region_cut(inputs: Seq<Seq<u8>>, region: Sides) -> bool {
    &&& region.len() == inputs.len()
    &&& forall|k: int|
        0 <= k < inputs.len() ==> is_cut(inputs[k], (#[trigger] region[k]).start as int) && is_cut(
            inputs[k],
            region[k].end as int,
        )
}

/// Every region begins and ends at cuts.
pub open spec fn regions_cut(inputs: Seq<Seq<u8>>, regions: Seq<Sides>) -> bool {
    forall|i: int| 0 <= i < regions.len() ==> region_cut(inputs, #[trigger] regions[i])
}

/// Every token range begins and ends at a cut of the text.
pub open spec fn ranges_cut(text: Seq<u8>, ranges: Seq<Range<usize>>) -> bool {
    forall|i: int|
        0 <= i < ranges.len() ==> is_cut(text, (#[trigger] ranges[i]).start as int) && is_cut(
            text,
            ranges[i].end as int,
        )
}

/// The inputs have tokens that begin and end at cuts, and no more inputs
/// or tokens than a machine counts.
pub open spec fn cut_tokens(
    inputs: Seq<Seq<u8>>,
    base_ranges: Seq<Range<usize>>,
    other_ranges: Seq<Seq<Range<usize>>>,
) -> bool {
    &&& other_ranges.len() >= 1
    &&& inputs.len() == other_ranges.len() + 1
    &&& forall|k: int| 0 <= k < inputs.len() ==> (#[trigger] inputs[k]).len() <= usize::MAX
    &&& base_ranges.len() <= usize::MAX
    &&& forall|k: int| 0 <= k < other_ranges.len() ==> (#[trigger] other_ranges[k]).len() <= usize::MAX
    &&& ranges_cut(inputs[0], base_ranges)
    &&& forall|k: int|
        0 <= k < other_ranges.len() ==> ranges_cut(inputs[k + 1], #[trigger] other_ranges[k])
}

/// The lines of a text begin and end at cuts.
pub proof fn lemma_lines_cut(text: Seq<u8>, ranges: Seq<Range<usize>>)
    requires
        is_line_split(text, ranges),
    ensures
        ranges_cut(text, ranges),
{
    assert forall|i: int| 0 <= i < ranges.len() implies is_cut(
        text,
        (#[trigger] ranges[i]).start as int,
    ) && is_cut(text, ranges[i].end as int) by {
        if i > 0 {
            assert(ranges[i - 1].end == ranges[i].start);
            assert(text[ranges[i - 1].end - 1] == 0x0a);
        }
        if i < ranges.len() - 1 {
            assert(text[ranges[i].end - 1] == 0x0a);
        }
    }
}

/// Regions that are merged where one continues the other begin and end
/// at cuts if the regions do.
pub proof fn lemma_compact_cut(inputs: Seq<Seq<u8>>, regions: Seq<Sides>, i: int, previous: Sides)
    requires
        regions_cut(inputs, regions),
        region_cut(inputs, previous),
        0 <= i,
    ensures
        regions_cut(inputs, compact_from(regions, i, previous)),
    decreases regions.len() - i,
{
    let out = compact_from(regions, i, previous);
    if i < regions.len() {
        assert(region_cut(inputs, regions[i]));
        if contiguous(previous, regions[i]) {
            let both = merged(previous, regions[i]);
            assert(region_cut(inputs, both));
            lemma_compact_cut(inputs, regions, i + 1, both);
        } else {
            lemma_compact_cut(inputs, regions, i + 1, regions[i]);
            let rest = compact_from(regions, i + 1, regions[i]);
            assert forall|j: int| 0 <= j < out.len() implies region_cut(inputs, #[trigger] out[j]) by {
                if j > 0 {
                    assert(out[j] == rest[j - 1]);
                }
            }
        }
    }
}

/// The hunks of regions that begin and end at cuts begin and end at cuts.
pub proof fn lemma_hunks_cut(inputs: Seq<Seq<u8>>, regions: Seq<Sides>, p: int, emitted: bool)
    requires
        regions_cut(inputs, regions),
    ensures
        forall|i: int|
            0 <= i < remaining_hunks(regions, p, emitted).len() ==> region_cut(
                inputs,
                (#[trigger] remaining_hunks(regions, p, emitted)[i]).1,
            ),
    decreases regions.len() - p, if emitted { 0nat } else { 1nat },
{
    let hunks = remaining_hunks(regions, p, emitted);
    if !(0 <= p < regions.len()) {
    } else if !emitted {
        lemma_hunks_cut(inputs, regions, p, true);
        let rest = remaining_hunks(regions, p, true);
        assert forall|i: int| 0 <= i < hunks.len() implies region_cut(inputs, (#[trigger] hunks[i]).1) by {
            if i > 0 {
                assert(hunks[i] == rest[i - 1]);
            } else {
                assert(region_cut(inputs, regions[p]));
            }
        }
    } else if p + 1 < regions.len() {
        lemma_hunks_cut(inputs, regions, p + 1, all_empty(regions[p + 1]));
        let rest = remaining_hunks(regions, p + 1, all_empty(regions[p + 1]));
        assert forall|i: int| 0 <= i < hunks.len() implies region_cut(inputs, (#[trigger] hunks[i]).1) by {
            if i > 0 {
                assert(hunks[i] == rest[i - 1]);
            } else {
                assert(region_cut(inputs, regions[p]));
                assert(region_cut(inputs, regions[p + 1]));
                assert(region_cut(inputs, between(regions[p], regions[p + 1])));
            }
        }
    }
}

/// The regions of the words that are unchanged, between the empty regions
/// at both ends, begin and end at cuts if the tokens do.
pub proof fn lemma_initial_cut(
    inputs: Seq<Seq<u8>>,
    base_ranges: Seq<Range<usize>>,
    other_ranges: Seq<Seq<Range<usize>>>,
    joined: Seq<Joined>,
)
    requires
        inputs.len() == other_ranges.len() + 1,
        forall|k: int| 0 <= k < inputs.len() ==> (#[trigger] inputs[k]).len() <= usize::MAX,
        ranges_cut(inputs[0], base_ranges),
        forall|k: int| 0 <= k < other_ranges.len() ==> ranges_cut(inputs[k + 1], #[trigger] other_ranges[k]),
        forall|i: int|
            0 <= i < joined.len() ==> 0 <= (#[trigger] joined[i]).0 < base_ranges.len()
                && joined[i].1.len() == other_ranges.len(),
        forall|i: int, k: int|
            0 <= i < joined.len() && 0 <= k < other_ranges.len() ==> 0 <= (#[trigger] joined[i].1[k])
                < other_ranges[k].len(),
    ensures
        regions_cut(inputs, initial_regions(input_lens(inputs), base_ranges, other_ranges, joined)),
{
    let lens = input_lens(inputs);
    let all = initial_regions(lens, base_ranges, other_ranges, joined);
    let count = joined.len() as int;
    assert(all.len() == count + 2);
    assert forall|i: int| 0 <= i < all.len() implies region_cut(inputs, #[trigger] all[i]) by {
        if i == 0 {
            assert(all[0] == zero_region(lens.len()));
            assert(all[0].len() == inputs.len());
        } else if i == count + 1 {
            assert(all[i] == end_region(lens));
            assert(all[i].len() == inputs.len());
            assert forall|k: int| 0 <= k < inputs.len() implies is_cut(
                inputs[k],
                (#[trigger] all[i][k]).start as int,
            ) && is_cut(inputs[k], all[i][k].end as int) by {
                assert(lens[k] == inputs[k].len());
                assert(all[i][k].start == lens[k] as usize);
            }
        } else {
            let e = joined[i - 1];
            assert(all[i] == region_of(base_ranges, other_ranges, e));
            assert(all[i].len() == inputs.len());
            assert forall|k: int| 0 <= k < inputs.len() implies is_cut(
                inputs[k],
                (#[trigger] all[i][k]).start as int,
            ) && is_cut(inputs[k], all[i][k].end as int) by {
                if k == 0 {
                    assert(all[i][0] == base_ranges[e.0]);
                } else {
                    assert(0 <= joined[i - 1].1[k - 1] < other_ranges[k - 1].len());
                    assert(all[i][k] == other_ranges[k - 1][e.1[k - 1]]);
                    assert(ranges_cut(inputs[k], other_ranges[k - 1]));
                }
            }
        }
    }
}

/// The unchanged regions of tokenized inputs begin and end at cuts if the
/// tokens do.
pub proof fn lemma_seeded_regions_cut<C: CompareBytes>(
    comp: &C,
    inputs: Seq<Seq<u8>>,
    base_ranges: Seq<Range<usize>>,
    other_ranges: Seq<Seq<Range<usize>>>,
    seed: Seq<Seq<u8>>,
)
    requires
        cut_tokens(inputs, base_ranges, other_ranges),
    ensures
        regions_cut(inputs, seeded_regions(comp, inputs, base_ranges, other_ranges, seed)),
{
    let n = other_ranges.len() as int;
    let base_words = words_of(inputs[0], base_ranges, seeded_hashes(comp, seed, inputs[0], base_ranges));
    let other_hashes = Seq::new(
        other_ranges.len(),
        |k: int| seeded_hashes(comp, seed, inputs[k + 1], other_ranges[k]),
    );
    let other_words = Seq::new(
        other_ranges.len(),
        |k: int| words_of(inputs[k + 1], other_ranges[k], other_hashes[k]),
    );
    let joined = nway_unchanged(comp, base_words, other_words, n);
    let initial = initial_regions(input_lens(inputs), base_ranges, other_ranges, joined);
    assert(seeded_regions(comp, inputs, base_ranges, other_ranges, seed) == spec_compact(initial));
    assert forall|k: int| 0 <= k < other_words.len() implies (#[trigger] other_words[k]).len()
        <= usize::MAX by {
        assert(other_words[k].len() == other_ranges[k].len());
    }
    lemma_nway_matching(comp, base_words, other_words, n);
    assert forall|i: int, k: int| 0 <= i < joined.len() && 0 <= k < other_ranges.len() implies 0
        <= (#[trigger] joined[i].1[k]) < other_ranges[k].len() by {
        assert(other_words[k].len() == other_ranges[k].len());
    }
    lemma_initial_cut(inputs, base_ranges, other_ranges, joined);
    assert(region_cut(inputs, initial[0]));
    lemma_compact_cut(inputs, initial, 1, initial[0]);
}

/// The tokens that the line tokenizer cuts inputs into begin and end at
/// cuts.
proof fn lemma_line_tokens(
    slices: Seq<&[u8]>,
    base_ranges: Vec<Range<usize>>,
    other_ranges: Seq<Vec<Range<usize>>>,
)
    requires
        slices.len() >= 2,
        is_tokenized(&find_line_ranges, slices, base_ranges, other_ranges),
    ensures
        ranges_cut(slices[0]@, base_ranges@),
        forall|k: int|
            0 <= k < other_ranges.len() ==> ranges_cut(slices[k + 1]@, (#[trigger] other_ranges[k])@),
{
    if call_ensures(find_line_ranges, (slices[0],), base_ranges) {
        lemma_lines_cut(slices[0]@, base_ranges@);
    }
    assert forall|k: int| 0 <= k < other_ranges.len() implies ranges_cut(
        slices[k + 1]@,
        (#[trigger] other_ranges[k])@,
    ) by {
        if call_ensures(find_line_ranges, (slices[k + 1],), other_ranges[k]) {
            lemma_lines_cut(slices[k + 1]@, other_ranges[k]@);
        }
    }
}

/// Texts and token ranges as they are held are no more than a machine
/// counts.
proof fn lemma_views_bounded(slices: Seq<&[u8]>, other_ranges: Seq<Vec<Range<usize>>>)
    ensures
        forall|k: int|
            0 <= k < slices.len() ==> (#[trigger] inputs_view(slices)[k]).len() <= usize::MAX,
        forall|k: int|
            0 <= k < other_ranges.len() ==> (#[trigger] ranges_view(other_ranges)[k]).len()
                <= usize::MAX,
{
    assert forall|k: int| 0 <= k < slices.len() implies (#[trigger] inputs_view(slices)[k]).len()
        <= usize::MAX by {
        assert(slices[k]@.len() == slices[k].len());
    }
    assert forall|k: int| 0 <= k < other_ranges.len() implies (#[trigger] ranges_view(
        other_ranges,
    )[k]).len() <= usize::MAX by {
        assert(other_ranges[k]@.len() == other_ranges[k].len());
    }
}

/// The tokens that the line tokenizer cuts inputs into begin and end at
/// cuts.
proof fn lemma_line_tokens_cut(
    slices: Seq<&[u8]>,
    base_ranges: Vec<Range<usize>>,
    other_ranges: Seq<Vec<Range<usize>>>,
)
    requires
        slices.len() >= 2,
        other_ranges.len() == slices.len() - 1,
        ranges_cut(slices[0]@, base_ranges@),
        forall|k: int|
            0 <= k < other_ranges.len() ==> ranges_cut(slices[k + 1]@, (#[trigger] other_ranges[k])@),
    ensures
        cut_tokens(inputs_view(slices), base_ranges@, ranges_view(other_ranges)),
{
    let inputs = inputs_view(slices);
    let others = ranges_view(other_ranges);
    lemma_views_bounded(slices, other_ranges);
    assert(base_ranges@.len() == base_ranges.len());
    assert forall|k: int| 0 <= k < others.len() implies ranges_cut(
        inputs[k + 1],
        #[trigger] others[k],
    ) by {
        assert(others[k] == other_ranges[k]@);
        assert(inputs[k + 1] == slices[k + 1]@);
    }
}

/// The unchanged regions of inputs that the line tokenizer has cut begin
/// and end at cuts.
proof fn lemma_tokenized_regions_cut(
    slices: Seq<&[u8]>,
    base_ranges: Vec<Range<usize>>,
    other_ranges: Seq<Vec<Range<usize>>>,
    seed: Seq<Seq<u8>>,
)
    requires
        slices.len() >= 2,
        is_tokenized(&find_line_ranges, slices, base_ranges, other_ranges),
    ensures
        regions_cut(
            inputs_view(slices),
            seeded_regions(
                &&CompareBytesExactly,
                inputs_view(slices),
                base_ranges@,
                ranges_view(other_ranges),
                seed,
            ),
        ),
{
    lemma_line_tokens(slices, base_ranges, other_ranges);
    lemma_line_tokens_cut(slices, base_ranges, other_ranges);
    lemma_seeded_regions_cut(
        &&CompareBytesExactly,
        inputs_view(slices),
        base_ranges@,
        ranges_view(other_ranges),
        seed,
    );
}

/// The unchanged regions of a diff by lines of two or more inputs begin
/// and end at cuts.
pub proof fn lemma_line_regions_cut(slices: Seq<&[u8]>, regions: Seq<Sides>)
    requires
        slices.len() >= 2,
        is_diff_under(&find_line_ranges, &&CompareBytesExactly, slices, regions),
    ensures
        regions_cut(inputs_view(slices), regions),
{
    let (base_ranges, other_ranges, seed) = choose|
        base_ranges: Vec<Range<usize>>,
        other_ranges: Seq<Vec<Range<usize>>>,
        seed: Seq<Seq<u8>>,
    |
        is_tokenized(&find_line_ranges, slices, base_ranges, other_ranges) && regions
            == #[trigger] seeded_regions(
            &&CompareBytesExactly,
            inputs_view(slices),
            base_ranges@,
            ranges_view(other_ranges),
            seed,
        );
    lemma_tokenized_regions_cut(slices, base_ranges, other_ranges, seed);
}

/// Where the inputs match in a hunk, the hunk holds the same bytes on
/// every side.
pub proof fn lemma_matching_hunks_agree(
    inputs: Seq<Seq<u8>>,
    regions: Seq<Sides>,
    p: int,
    emitted: bool,
)
    requires
        regions_agree(inputs, regions),
    ensures
        forall|i: int|
            0 <= i < remaining_hunks(regions, p, emitted).len() && (#[trigger] remaining_hunks(
                regions,
                p,
                emitted,
            )[i]).0 == DiffHunkKind::Matching ==> contents_agree(
                inputs,
                remaining_hunks(regions, p, emitted)[i].1,
            ),
    decreases regions.len() - p, if emitted { 0nat } else { 1nat },
{
    let hunks = remaining_hunks(regions, p, emitted);
    if !(0 <= p < regions.len()) {
    } else if !emitted {
        lemma_matching_hunks_agree(inputs, regions, p, true);
        let rest = remaining_hunks(regions, p, true);
        assert forall|i: int| 0 <= i < hunks.len() && (#[trigger] hunks[i]).0
            == DiffHunkKind::Matching implies contents_agree(inputs, hunks[i].1) by {
            if i > 0 {
                assert(hunks[i] == rest[i - 1]);
            } else {
                assert(contents_agree(inputs, regions[p]));
            }
        }
    } else if p + 1 < regions.len() {
        lemma_matching_hunks_agree(inputs, regions, p + 1, all_empty(regions[p + 1]));
        let rest = remaining_hunks(regions, p + 1, all_empty(regions[p + 1]));
        assert forall|i: int| 0 <= i < hunks.len() && (#[trigger] hunks[i]).0
            == DiffHunkKind::Matching implies contents_agree(inputs, hunks[i].1) by {
            if i > 0 {
                assert(hunks[i] == rest[i - 1]);
            }
        }
    }
}

/// The last hunk ends where the last region ends; there is no hunk only
/// where the last region is reached and its hunk is out.
pub proof fn lemma_hunks_reach_end(regions: Seq<Sides>, lens: Seq<int>, p: int, emitted: bool)
    requires
        regions_ordered(regions, lens),
        0 <= p < regions.len(),
    ensures
        remaining_hunks(regions, p, emitted).len() == 0 ==> emitted && p == regions.len() - 1,
        remaining_hunks(regions, p, emitted).len() > 0 ==> forall|k: int|
            0 <= k < lens.len() ==> (#[trigger] remaining_hunks(regions, p, emitted).last().1[k]).end
                == regions[regions.len() - 1][k].end,
    decreases regions.len() - p, if emitted { 0nat } else { 1nat },
{
    let hunks = remaining_hunks(regions, p, emitted);
    let last = regions[regions.len() - 1];
    assert(region_in_bounds(last, lens));
    assert(region_in_bounds(regions[p], lens));
    if !emitted {
        lemma_hunks_reach_end(regions, lens, p, true);
        let rest = remaining_hunks(regions, p, true);
        if rest.len() > 0 {
            assert(hunks.last() == rest.last());
        } else {
            assert(hunks.last() == (DiffHunkKind::Matching, regions[p]));
        }
    } else if p + 1 < regions.len() {
        assert(region_in_bounds(regions[p + 1], lens));
        lemma_hunks_reach_end(regions, lens, p + 1, all_empty(regions[p + 1]));
        let rest = remaining_hunks(regions, p + 1, all_empty(regions[p + 1]));
        if rest.len() > 0 {
            assert(hunks.last() == rest.last());
        } else {
            assert(hunks.last() == (DiffHunkKind::Different, between(regions[p], regions[p + 1])));
            assert forall|k: int| 0 <= k < lens.len() implies (#[trigger] hunks.last().1[k]).end
                == last[k].end by {
                assert(last[k].start == last[k].end);
            }
        }
    }
}

} // verus!
