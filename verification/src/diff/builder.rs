//! From tokenized inputs to unchanged regions.

use super::compare::CompareBytes;
use super::compare::WordComparator;
use super::nway::intersect_unchanged_words;
use super::nway::joined_view;
use super::nway::lemma_nway_matching;
use super::nway::nway_matching;
use super::nway::nway_unchanged;
use super::nway::positions_view;
use super::nway::starting;
use super::nway::Joined;
use super::regions::contents_agree;
use super::regions::input_lens;
use super::regions::precedes_next;
use super::regions::region_in_bounds;
use super::regions::regions_agree;
use super::regions::regions_ordered;
use super::regions::regions_span;
use super::regions::regions_view;
use super::regions::spec_compact;
use super::regions::Sides;
use super::regions::UnchangedRange;
use super::source::ranges_in_bounds;
use super::source::ranges_ordered;
use super::source::word_eq;
use super::source::DiffSource;
use super::source::Word;
use super::unchanged::collect_unchanged_words;
use super::unchanged::lemma_unchanged_matching;
use super::unchanged::matching;
use super::unchanged::pairs_view;
use super::unchanged::shifted;
use super::unchanged::unchanged_words;
use std::ops::Range;
use vstd::prelude::*;

verus! {

/// The words of each source.
pub open spec fn source_words(sources: Seq<DiffSource>) -> Seq<Seq<Word>> {
    Seq::new(sources.len(), |k: int| sources[k].words())
}

/// The token ranges of each source.
pub open spec fn source_ranges(sources: Seq<DiffSource>) -> Seq<Seq<Range<usize>>> {
    Seq::new(sources.len(), |k: int| sources[k].ranges@)
}

/// The texts of a base source and of other sources, the base first.
pub open spec fn source_texts(base: DiffSource, others: Seq<DiffSource>) -> Seq<Seq<u8>> {
    seq![base.text@] + Seq::new(others.len(), |k: int| others[k].text@)
}

/// The byte ranges of the tokens that an entry joins, the base first.
pub open spec fn region_of(
    base_ranges: Seq<Range<usize>>,
    other_ranges: Seq<Seq<Range<usize>>>,
    entry: Joined,
) -> Sides {
    seq![base_ranges[entry.0]] + Seq::new(
        other_ranges.len(),
        |k: int| other_ranges[k][entry.1[k]],
    )
}

/// The empty region at the start of every input.
pub open spec fn zero_region(sides: nat) -> Sides {
    Seq::new(sides, |k: int| 0usize..0usize)
}

/// The empty region at the end of every input.
pub open spec fn end_region(lens: Seq<int>) -> Sides {
    Seq::new(lens.len(), |k: int| (lens[k] as usize)..(lens[k] as usize))
}

/// The regions of the unchanged words, between an empty region at the start
/// and one at the end of the inputs.
pub open spec fn initial_regions(
    lens: Seq<int>,
    base_ranges: Seq<Range<usize>>,
    other_ranges: Seq<Seq<Range<usize>>>,
    joined: Seq<Joined>,
) -> Seq<Sides> {
    seq![zero_region(lens.len())] + Seq::new(
        joined.len(),
        |i: int| region_of(base_ranges, other_ranges, joined[i]),
    ) + seq![end_region(lens)]
}

/// The unchanged regions of tokenized inputs: the whole input where there is
/// one input only; else the regions of the words that are unchanged in all
/// inputs, merged where one continues the other.
pub open spec fn spec_regions<C: CompareBytes>(
    comp: &C,
    lens: Seq<int>,
    base_ranges: Seq<Range<usize>>,
    other_ranges: Seq<Seq<Range<usize>>>,
    base_words: Seq<Word>,
    other_words: Seq<Seq<Word>>,
) -> Seq<Sides> {
    if other_words.len() == 0 {
        seq![seq![0usize..(lens[0] as usize)]]
    } else {
        spec_compact(
            initial_regions(
                lens,
                base_ranges,
                other_ranges,
                nway_unchanged(comp, base_words, other_words, other_words.len() as int),
            ),
        )
    }
}

/// Each source has a hash for each token, and its tokens lie inside its text
/// in ascending order.
pub open spec fn sources_wf(base: DiffSource, others: Seq<DiffSource>) -> bool {
    &&& base.wf()
    &&& ranges_ordered(base.ranges@)
    &&& forall|k: int|
        0 <= k < others.len() ==> (#[trigger] others[k]).wf() && ranges_ordered(others[k].ranges@)
}

/// The word positions of a diff of two inputs as entries with one other
/// position each.
fn start_positions(first: &Vec<(usize, usize)>) -> (joined: Vec<(usize, Vec<usize>)>)
    ensures
        joined_view(joined@) == starting(pairs_view(first@)),
{
    let mut joined: Vec<(usize, Vec<usize>)> = Vec::new();
    let mut i: usize = 0;
    while i < first.len()
        invariant
            i <= first.len(),
            joined.len() == i,
            forall|j: int|
                0 <= j < i ==> (#[trigger] joined[j]).0 == first[j].0 && joined[j].1@
                    == seq![first[j].1],
        decreases first.len() - i,
    {
        let mut others: Vec<usize> = Vec::new();
        others.push(first[i].1);
        joined.push((first[i].0, others));
        i += 1;
    }
    proof {
        let a = joined_view(joined@);
        let b = starting(pairs_view(first@));
        assert(a.len() == b.len());
        assert forall|j: int| 0 <= j < a.len() implies a[j] == b[j] by {
            assert(a[j].1 =~= b[j].1);
        }
        assert(a =~= b);
    }
    joined
}

/// The positions of the words of the base input that are unchanged against
/// every other input, each with the positions of its partners.
pub fn nway_positions<C: CompareBytes>(
    base_source: &DiffSource,
    other_sources: &Vec<DiffSource>,
    comp: &WordComparator<C>,
) -> (joined: Vec<(usize, Vec<usize>)>)
    requires
        sources_wf(*base_source, other_sources@),
        other_sources.len() >= 1,
    ensures
        joined_view(joined@) == nway_unchanged(
            &comp.compare,
            base_source.words(),
            source_words(other_sources@),
            other_sources.len() as int,
        ),
{
    let ghost c = &comp.compare;
    let ghost base = base_source.words();
    let ghost others = source_words(other_sources@);
    let base_local = base_source.local();
    let mut first: Vec<(usize, usize)> = Vec::new();
    proof {
        assert(others[0] == other_sources[0].words());
    }
    collect_unchanged_words(&mut first, &base_local, &other_sources[0].local(), comp);
    proof {
        let found = unchanged_words(c, base, others[0]);
        assert(shifted(found, 0, 0) =~= found);
        assert(pairs_view(first@) =~= found);
    }
    let mut joined: Vec<(usize, Vec<usize>)> = start_positions(&first);
    let mut n: usize = 1;
    while n < other_sources.len()
        invariant
            sources_wf(*base_source, other_sources@),
            c == &comp.compare,
            base == base_source.words(),
            others == source_words(other_sources@),
            base_local.wf(),
            base_local.words() == base,
            base_local.global_offset == 0,
            1 <= n <= other_sources.len(),
            joined_view(joined@) == nway_unchanged(c, base, others, n as int),
        decreases other_sources.len() - n,
    {
        let mut new_positions: Vec<(usize, usize)> = Vec::new();
        proof {
            assert(others[n as int] == other_sources[n as int].words());
        }
        collect_unchanged_words(&mut new_positions, &base_local, &other_sources[n].local(), comp);
        proof {
            let found = unchanged_words(c, base, others[n as int]);
            assert(shifted(found, 0, 0) =~= found);
            assert(pairs_view(new_positions@) =~= found);
            lemma_unchanged_matching(c, base, others[n as int]);
            assert forall|k: int| 0 <= k < others.len() implies (#[trigger] others[k]).len()
                <= usize::MAX by {
                assert(others[k] == other_sources[k].words());
            }
            lemma_nway_matching(c, base, others, n as int);
            let current = joined_view(joined@);
            assert forall|i: int, j: int| 0 <= i < j < joined.len() implies (#[trigger] joined[i]).0
                < (#[trigger] joined[j]).0 by {
                assert(current[i].0 < current[j].0);
            }
        }
        joined = intersect_unchanged_words(joined, new_positions.as_slice());
        n += 1;
    }
    joined
}

/// The comparator takes only identical texts for equivalent.
pub open spec fn compares_exactly<C: CompareBytes>(comp: &C) -> bool {
    forall|a: Seq<u8>, b: Seq<u8>| #[trigger] comp.eq_spec(a, b) ==> a == b
}

/// There is a word for each token, and the tokens of each input lie inside
/// it in ascending order.
pub open spec fn tokens_wf(
    lens: Seq<int>,
    base_ranges: Seq<Range<usize>>,
    other_ranges: Seq<Seq<Range<usize>>>,
    base_words: Seq<Word>,
    other_words: Seq<Seq<Word>>,
) -> bool {
    &&& lens.len() == other_ranges.len() + 1
    &&& other_words.len() == other_ranges.len()
    &&& forall|k: int| 0 <= k < lens.len() ==> 0 <= #[trigger] lens[k] <= usize::MAX
    &&& base_words.len() == base_ranges.len() <= usize::MAX
    &&& ranges_in_bounds(base_ranges, lens[0])
    &&& ranges_ordered(base_ranges)
    &&& forall|k: int|
        0 <= k < other_ranges.len() ==> other_words[k].len() == (#[trigger] other_ranges[k]).len()
            <= usize::MAX && ranges_in_bounds(other_ranges[k], lens[k + 1]) && ranges_ordered(
            other_ranges[k],
        )
}

/// The regions of a matching, between the empty regions at both ends, are
/// ordered and span the inputs.
pub proof fn lemma_initial_ordered<C: CompareBytes>(
    comp: &C,
    lens: Seq<int>,
    base_ranges: Seq<Range<usize>>,
    other_ranges: Seq<Seq<Range<usize>>>,
    base_words: Seq<Word>,
    other_words: Seq<Seq<Word>>,
    joined: Seq<Joined>,
)
    requires
        tokens_wf(lens, base_ranges, other_ranges, base_words, other_words),
        other_ranges.len() >= 1,
        nway_matching(comp, base_words, other_words, other_ranges.len() as int, joined),
    ensures
        regions_ordered(initial_regions(lens, base_ranges, other_ranges, joined), lens),
        regions_span(initial_regions(lens, base_ranges, other_ranges, joined), lens),
{
    let n = other_ranges.len() as int;
    let words = other_words;
    let all = initial_regions(lens, base_ranges, other_ranges, joined);
    let count = joined.len() as int;
    assert(all.len() == count + 2);
    assert(lens.len() == n + 1);
    assert(all[0] == zero_region(lens.len()));
    assert(all[count + 1] == end_region(lens));
    assert forall|i: int| 1 <= i <= count implies #[trigger] all[i] == region_of(
        base_ranges,
        other_ranges,
        joined[i - 1],
    ) by {}
    assert forall|k: int| 1 <= k <= n implies words[k - 1].len() == (#[trigger] other_ranges[k
        - 1]).len() && ranges_in_bounds(other_ranges[k - 1], lens[k]) && ranges_ordered(
        other_ranges[k - 1],
    ) by {}
    // Each token region is inside the inputs.
    assert forall|i: int, k: int| 1 <= i <= count && 0 <= k <= n implies (#[trigger] all[i][k]).start
        <= all[i][k].end <= lens[k] by {
        let e = joined[i - 1];
        assert(e.1.len() == n && 0 <= e.0 < base_words.len());
        if k > 0 {
            assert(0 <= joined[i - 1].1[k - 1] < words[k - 1].len());
            assert(words[k - 1].len() == other_ranges[k - 1].len());
            assert(all[i][k] == other_ranges[k - 1][e.1[k - 1]]);
        } else {
            assert(all[i][0] == base_ranges[e.0]);
        }
    }
    assert forall|i: int| 0 <= i < all.len() implies region_in_bounds(#[trigger] all[i], lens) by {
        if 1 <= i <= count {
            assert forall|k: int| 0 <= k < lens.len() implies (#[trigger] all[i][k]).start
                <= all[i][k].end <= lens[k] by {}
        } else {
            assert forall|k: int| 0 <= k < lens.len() implies (#[trigger] all[i][k]).start
                <= all[i][k].end <= lens[k] by {
                assert(0 <= lens[k] <= usize::MAX);
            }
        }
    }
    assert forall|i: int| 0 <= i < all.len() - 1 implies #[trigger] precedes_next(all, i) by {
        assert forall|k: int| 0 <= k < all[i].len() implies (#[trigger] all[i][k]).end <= all[i
            + 1][k].start by {
            assert(region_in_bounds(all[i], lens));
            assert(region_in_bounds(all[i + 1], lens));
            assert(0 <= lens[k] <= usize::MAX);
            if i == 0 {
            } else if i + 1 == count + 1 {
            } else {
                let e1 = joined[i - 1];
                let e2 = joined[i];
                assert(e1.0 < e2.0);
                if k > 0 {
                    assert(joined[i - 1].1[k - 1] < joined[i].1[k - 1]);
                    assert(0 <= joined[i - 1].1[k - 1] < words[k - 1].len());
                    assert(0 <= joined[i].1[k - 1] < words[k - 1].len());
                    assert(words[k - 1].len() == other_ranges[k - 1].len());
                    assert(all[i][k] == other_ranges[k - 1][e1.1[k - 1]]);
                    assert(all[i + 1][k] == other_ranges[k - 1][e2.1[k - 1]]);
                } else {
                    assert(all[i][0] == base_ranges[e1.0]);
                    assert(all[i + 1][0] == base_ranges[e2.0]);
                }
            }
        }
    }
    assert forall|k: int| 0 <= k < lens.len() implies (#[trigger] all[0][k]).start == 0 by {}
    assert forall|k: int| 0 <= k < lens.len() implies (#[trigger] all[all.len() - 1][k]).end
        == lens[k] by {
        assert(0 <= lens[k] <= usize::MAX);
    }
}

/// The words and ranges of sources are tokens as a diff asks for them.
pub proof fn lemma_sources_tokens(base: DiffSource, others: Seq<DiffSource>)
    requires
        sources_wf(base, others),
    ensures
        tokens_wf(
            input_lens(source_texts(base, others)),
            base.ranges@,
            source_ranges(others),
            base.words(),
            source_words(others),
        ),
{
    let lens = input_lens(source_texts(base, others));
    let other_ranges = source_ranges(others);
    let words = source_words(others);
    assert(base.ranges@.len() == base.ranges.len());
    assert(base.text@.len() == base.text.len());
    assert forall|k: int| 0 <= k < lens.len() implies 0 <= #[trigger] lens[k] <= usize::MAX by {
        if k > 0 {
            assert(others[k - 1].text@.len() == others[k - 1].text.len());
        }
    }
    assert forall|k: int| 0 <= k < other_ranges.len() implies words[k].len()
        == (#[trigger] other_ranges[k]).len() <= usize::MAX && ranges_in_bounds(
        other_ranges[k],
        lens[k + 1],
    ) && ranges_ordered(other_ranges[k]) by {
        assert(others[k].wf());
        assert(others[k].ranges@.len() == others[k].ranges.len());
        assert(words[k] == others[k].words());
        assert(lens[k + 1] == others[k].text@.len());
    }
}

/// The regions of a matching, between the empty regions at both ends, are
/// ordered and span the inputs; they agree where the comparator is exact.
pub proof fn lemma_initial_regions<C: CompareBytes>(
    comp: &C,
    base: DiffSource,
    others: Seq<DiffSource>,
    joined: Seq<Joined>,
)
    requires
        sources_wf(base, others),
        others.len() >= 1,
        nway_matching(comp, base.words(), source_words(others), others.len() as int, joined),
    ensures
        regions_ordered(
            initial_regions(
                input_lens(source_texts(base, others)),
                base.ranges@,
                source_ranges(others),
                joined,
            ),
            input_lens(source_texts(base, others)),
        ),
        regions_span(
            initial_regions(
                input_lens(source_texts(base, others)),
                base.ranges@,
                source_ranges(others),
                joined,
            ),
            input_lens(source_texts(base, others)),
        ),
        compares_exactly(comp) ==> regions_agree(
            source_texts(base, others),
            initial_regions(
                input_lens(source_texts(base, others)),
                base.ranges@,
                source_ranges(others),
                joined,
            ),
        ),
{
    let texts = source_texts(base, others);
    let lens = input_lens(texts);
    let n = others.len() as int;
    let base_ranges = base.ranges@;
    let other_ranges = source_ranges(others);
    let words = source_words(others);
    let all = initial_regions(lens, base_ranges, other_ranges, joined);
    let count = joined.len() as int;
    lemma_sources_tokens(base, others);
    lemma_initial_ordered(comp, lens, base_ranges, other_ranges, base.words(), words, joined);
    assert(all.len() == count + 2);
    assert forall|i: int| 1 <= i <= count implies #[trigger] all[i] == region_of(
        base_ranges,
        other_ranges,
        joined[i - 1],
    ) by {}
    assert forall|k: int| 1 <= k <= n implies #[trigger] lens[k] == others[k - 1].text.len()
        && others[k - 1].wf() && ranges_ordered(others[k - 1].ranges@) && other_ranges[k - 1]
        == others[k - 1].ranges@ && words[k - 1] == others[k - 1].words() by {}
    if compares_exactly(comp) {
        assert forall|i: int| 0 <= i < all.len() implies contents_agree(texts, #[trigger] all[i]) by {
            assert forall|k: int| 0 <= k < all[i].len() implies texts[k].subrange(
                (#[trigger] all[i][k]).start as int,
                all[i][k].end as int,
            ) == texts[0].subrange(all[i][0].start as int, all[i][0].end as int) by {
                assert(region_in_bounds(all[i], lens));
                if 1 <= i <= count {
                    let e = joined[i - 1];
                    assert(all[i][0] == base_ranges[e.0]);
                    if k > 0 {
                        let o = joined[i - 1].1[k - 1];
                        assert(0 <= o < words[k - 1].len());
                        assert(all[i][k] == other_ranges[k - 1][o]);
                        assert(word_eq(comp, base.words()[e.0], words[k - 1][o]));
                        assert(comp.eq_spec(base.words()[e.0].text, words[k - 1][o].text));
                        assert(texts[k] == others[k - 1].text@);
                    }
                } else {
                    assert(all[i][k].start == all[i][k].end);
                    assert(all[i][0].start == all[i][0].end);
                    assert(texts[k].subrange(all[i][k].start as int, all[i][k].end as int)
                        =~= texts[0].subrange(all[i][0].start as int, all[i][0].end as int));
                }
            }
        }
    }
}

/// A region that is empty on every side: at `base_at` in the base input, and
/// at the end or at the start of each other input.
fn empty_region(base_at: usize, other_sources: &Vec<DiffSource>, at_end: bool) -> (region:
    UnchangedRange)
    ensures
        region.base == (base_at..base_at),
        region.others.len() == other_sources.len(),
        forall|k: int|
            0 <= k < other_sources.len() ==> (#[trigger] region.others[k]) == if at_end {
                other_sources[k].text.len()..other_sources[k].text.len()
            } else {
                0usize..0usize
            },
{
    let mut others: Vec<Range<usize>> = Vec::new();
    let mut k: usize = 0;
    while k < other_sources.len()
        invariant
            k <= other_sources.len(),
            others.len() == k,
            forall|j: int|
                0 <= j < k ==> (#[trigger] others[j]) == if at_end {
                    other_sources[j].text.len()..other_sources[j].text.len()
                } else {
                    0usize..0usize
                },
        decreases other_sources.len() - k,
    {
        if at_end {
            let len: usize = other_sources[k].text.len();
            others.push(len..len);
        } else {
            others.push(0..0);
        }
        k += 1;
    }
    UnchangedRange { base: base_at..base_at, others }
}

/// Turns the positions of unchanged words into regions of bytes, and
/// puts an empty region before the first and behind the last.
pub fn regions_from_positions(
    base_source: &DiffSource,
    other_sources: &Vec<DiffSource>,
    joined: &Vec<(usize, Vec<usize>)>,
) -> (regions: Vec<UnchangedRange>)
    requires
        other_sources.len() >= 1,
        forall|i: int|
            0 <= i < joined.len() ==> (#[trigger] joined[i]).0 < base_source.ranges.len()
                && joined[i].1.len() == other_sources.len(),
        forall|i: int, k: int|
            0 <= i < joined.len() && 0 <= k < other_sources.len() ==> (#[trigger] joined[i].1[k])
                < other_sources[k].ranges.len(),
    ensures
        regions_view(regions@) == initial_regions(
            input_lens(source_texts(*base_source, other_sources@)),
            base_source.ranges@,
            source_ranges(other_sources@),
            joined_view(joined@),
        ),
        forall|i: int|
            0 <= i < regions.len() ==> (#[trigger] regions[i]).others.len() == other_sources.len(),
{
    let ghost lens = input_lens(source_texts(*base_source, other_sources@));
    let ghost base_ranges = base_source.ranges@;
    let ghost other_ranges = source_ranges(other_sources@);
    let ghost entries = joined_view(joined@);
    let mut regions: Vec<UnchangedRange> = Vec::new();
    // An empty region at the start makes life easier for the hunks.
    regions.push(empty_region(0, other_sources, false));
    proof {
        assert(regions[0].sides() =~= zero_region(lens.len()));
    }
    let mut i: usize = 0;
    while i < joined.len()
        invariant
            lens == input_lens(source_texts(*base_source, other_sources@)),
            base_ranges == base_source.ranges@,
            other_ranges == source_ranges(other_sources@),
            entries == joined_view(joined@),
            i <= joined.len(),
            regions.len() == i + 1,
            forall|j: int|
                0 <= j < joined.len() ==> (#[trigger] joined[j]).0 < base_source.ranges.len()
                    && joined[j].1.len() == other_sources.len(),
            forall|j: int, k: int|
                0 <= j < joined.len() && 0 <= k < other_sources.len() ==> (#[trigger] joined[j].1[k])
                    < other_sources[k].ranges.len(),
            regions[0].sides() == zero_region(lens.len()),
            forall|j: int|
                0 <= j < i ==> (#[trigger] regions[j + 1]).sides() == region_of(
                    base_ranges,
                    other_ranges,
                    entries[j],
                ),
            forall|j: int|
                0 <= j < regions.len() ==> (#[trigger] regions[j]).others.len()
                    == other_sources.len(),
        decreases joined.len() - i,
    {
        proof {
            assert forall|k: int| 0 <= k < other_sources.len() implies (
            #[trigger] joined[i as int].1[k]) < other_sources[k].ranges.len() by {}
        }
        let region: UnchangedRange = UnchangedRange::from_word_positions(
            base_source,
            other_sources.as_slice(),
            joined[i].0,
            joined[i].1.as_slice(),
        );
        proof {
            let e = entries[i as int];
            assert(e.1 == positions_view(joined[i as int].1@));
            assert(region.sides() =~= region_of(base_ranges, other_ranges, e));
        }
        regions.push(region);
        i += 1;
    }
    // An empty region at the end makes life easier for the hunks.
    regions.push(empty_region(base_source.text.len(), other_sources, true));
    proof {
        let last = regions[regions.len() - 1];
        assert(last.sides() =~= end_region(lens));
        let expected = initial_regions(lens, base_ranges, other_ranges, entries);
        let got = regions_view(regions@);
        assert(got.len() == expected.len());
        assert forall|j: int| 0 <= j < got.len() implies got[j] == expected[j] by {
            if 1 <= j <= joined.len() {
                assert(regions[(j - 1) + 1].sides() == region_of(
                    base_ranges,
                    other_ranges,
                    entries[j - 1],
                ));
            }
        }
        assert(got =~= expected);
    }
    regions
}

} // verus!
