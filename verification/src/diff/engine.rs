//! The diff of one base input against any number of other inputs.

use super::builder::compares_exactly;
use super::builder::lemma_initial_regions;
use super::builder::nway_positions;
use super::builder::regions_from_positions;
use super::builder::source_ranges;
use super::builder::source_texts;
use super::builder::source_words;
use super::builder::sources_wf;
use super::builder::spec_regions;
use super::compare::CompareBytes;
use super::compare::WordComparator;
use super::nway::joined_view;
use super::nway::lemma_nway_matching;
use super::regions::all_empty;
use super::regions::between;
use super::regions::compact_regions;
use super::regions::contiguous;
use super::regions::contents_agree;
use super::regions::precedes;
use super::regions::precedes_next;
use super::regions::continues_next;
use super::regions::input_lens;
use super::regions::lemma_spec_compact;
use super::regions::lemma_spec_compact_agree;
use super::regions::region_in_bounds;
use super::regions::regions_agree;
use super::regions::regions_compacted;
use super::regions::regions_ordered;
use super::regions::regions_span;
use super::regions::regions_view;
use super::regions::spec_compact;
use super::regions::Sides;
use super::regions::UnchangedRange;
use super::source::ranges_in_bounds;
use super::source::ranges_ordered;
use super::source::seeded_hashes;
use super::source::words_of;
use super::tokens::find_line_ranges;
use super::tokens::find_nonword_ranges;
use super::tokens::find_word_ranges;
use super::tokens::lemma_line_split_valid;
use super::compare::CompareBytesExactly;
use super::source::DiffSource;
use std::ops::Range;
use vstd::prelude::*;
use vstd::slice::slice_subrange;

verus! {

/// Takes any number of inputs and finds regions that are the same between
/// all of them.
pub struct Diff<'input> {
    base_input: &'input [u8],
    other_inputs: Vec<&'input [u8]>,
    /// Sorted list of ranges of unchanged regions in bytes.
    ///
    /// The list is never empty. The first and the last region may be empty
    /// if inputs start or end with changes.
    unchanged_regions: Vec<UnchangedRange>,
}

/// The texts of a base input and of other inputs, the base first.
pub open spec fn texts_of(base_input: Seq<u8>, other_inputs: Seq<&[u8]>) -> Seq<Seq<u8>> {
    seq![base_input] + Seq::new(other_inputs.len(), |k: int| other_inputs[k]@)
}

/// The unchanged regions of inputs with the given token ranges and hashes.
pub open spec fn hashed_regions<C: CompareBytes>(
    comp: &C,
    inputs: Seq<Seq<u8>>,
    base_ranges: Seq<Range<usize>>,
    other_ranges: Seq<Seq<Range<usize>>>,
    base_hashes: Seq<u64>,
    other_hashes: Seq<Seq<u64>>,
) -> Seq<Sides> {
    spec_regions(
        comp,
        input_lens(inputs),
        base_ranges,
        other_ranges,
        words_of(inputs[0], base_ranges, base_hashes),
        Seq::new(
            other_ranges.len(),
            |k: int| words_of(inputs[k + 1], other_ranges[k], other_hashes[k]),
        ),
    )
}

/// The unchanged regions of inputs with the given token ranges, where
/// every token is hashed under the comparator behind one seed: tokens that
/// the comparator finds equivalent have the same hash then.
pub open spec fn seeded_regions<C: CompareBytes>(
    comp: &C,
    inputs: Seq<Seq<u8>>,
    base_ranges: Seq<Range<usize>>,
    other_ranges: Seq<Seq<Range<usize>>>,
    seed: Seq<Seq<u8>>,
) -> Seq<Sides> {
    hashed_regions(
        comp,
        inputs,
        base_ranges,
        other_ranges,
        seeded_hashes(comp, seed, inputs[0], base_ranges),
        Seq::new(
            other_ranges.len(),
            |k: int| seeded_hashes(comp, seed, inputs[k + 1], other_ranges[k]),
        ),
    )
}

/// The token ranges of each input, as sequences.
pub open spec fn ranges_view(ranges: Seq<Vec<Range<usize>>>) -> Seq<Seq<Range<usize>>> {
    Seq::new(ranges.len(), |k: int| ranges[k]@)
}

impl<'input> Diff<'input> {
    /// The inputs, the base first.
    pub closed spec fn inputs(&self) -> Seq<Seq<u8>> {
        texts_of(self.base_input@, self.other_inputs@)
    }

    /// The unchanged regions, each as its ranges side by side.
    pub closed spec fn regions(&self) -> Seq<Sides> {
        regions_view(self.unchanged_regions@)
    }

    /// There is a region; every region lies inside the inputs; on every side
    /// the regions ascend without overlapping, from the start of the input to
    /// its end; and no region continues the one before it on every side.
    pub open spec fn wf(&self) -> bool {
        &&& self.inputs().len() >= 1
        &&& regions_ordered(self.regions(), input_lens(self.inputs()))
        &&& regions_compacted(self.regions())
        &&& regions_span(self.regions(), input_lens(self.inputs()))
    }

    /// Every unchanged region holds the same bytes in all inputs.
    pub open spec fn agrees(&self) -> bool {
        regions_agree(self.inputs(), self.regions())
    }

    /// The diff of hashed sources.
    pub fn from_sources<C: CompareBytes>(
        base_source: &DiffSource<'input, '_>,
        other_sources: &Vec<DiffSource<'input, '_>>,
        comp: &WordComparator<C>,
    ) -> (diff: Self)
        requires
            sources_wf(*base_source, other_sources@),
        ensures
            diff.wf(),
            diff.inputs() == source_texts(*base_source, other_sources@),
            diff.regions() == spec_regions(
                &comp.compare,
                input_lens(source_texts(*base_source, other_sources@)),
                base_source.ranges@,
                source_ranges(other_sources@),
                base_source.words(),
                source_words(other_sources@),
            ),
            compares_exactly(&comp.compare) ==> diff.agrees(),
    {
        let ghost c = &comp.compare;
        let ghost texts = source_texts(*base_source, other_sources@);
        let ghost lens = input_lens(texts);
        let base_input: &'input [u8] = base_source.text;
        let mut other_inputs: Vec<&'input [u8]> = Vec::new();
        let mut k: usize = 0;
        while k < other_sources.len()
            invariant
                k <= other_sources.len(),
                other_inputs.len() == k,
                forall|j: int| 0 <= j < k ==> (#[trigger] other_inputs[j]) == other_sources[j].text,
            decreases other_sources.len() - k,
        {
            other_inputs.push(other_sources[k].text);
            k += 1;
        }
        proof {
            assert(texts_of(base_input@, other_inputs@) =~= texts);
        }
        if other_sources.len() == 0 {
            // The whole base input is unchanged compared to itself.
            let whole = UnchangedRange { base: 0..base_input.len(), others: Vec::new() };
            let mut unchanged_regions: Vec<UnchangedRange> = Vec::new();
            unchanged_regions.push(whole);
            let diff = Diff { base_input, other_inputs, unchanged_regions };
            proof {
                let regions = diff.regions();
                assert(regions[0] =~= seq![0usize..(lens[0] as usize)]);
                assert(regions =~= seq![seq![0usize..(lens[0] as usize)]]);
                assert(region_in_bounds(regions[0], lens));
                assert(source_words(other_sources@).len() == 0);
                if compares_exactly(c) {
                    assert(regions_agree(texts, regions));
                }
            }
            return diff;
        }
        let joined: Vec<(usize, Vec<usize>)> = nway_positions(base_source, other_sources, comp);
        proof {
            let others = source_words(other_sources@);
            assert forall|j: int| 0 <= j < others.len() implies (#[trigger] others[j]).len()
                <= usize::MAX by {
                assert(others[j] == other_sources[j].words());
            }
            lemma_nway_matching(c, base_source.words(), others, others.len() as int);
            let entries = joined_view(joined@);
            assert forall|i: int| 0 <= i < joined.len() implies (#[trigger] joined[i]).0
                < base_source.ranges.len() && joined[i].1.len() == other_sources.len() by {
                assert(entries[i].1.len() == others.len());
                assert(0 <= entries[i].0 < base_source.words().len());
            }
            assert forall|i: int, j: int|
                0 <= i < joined.len() && 0 <= j < other_sources.len() implies (
            #[trigger] joined[i].1[j]) < other_sources[j].ranges.len() by {
                assert(0 <= entries[i].1[j] < others[j].len());
                assert(others[j] == other_sources[j].words());
            }
            lemma_initial_regions(c, *base_source, other_sources@, entries);
        }
        let regions: Vec<UnchangedRange> = regions_from_positions(
            base_source,
            other_sources,
            &joined,
        );
        let unchanged_regions: Vec<UnchangedRange> = compact_regions(&regions);
        proof {
            lemma_spec_compact(regions_view(regions@), lens);
            if compares_exactly(c) {
                lemma_spec_compact_agree(texts, regions_view(regions@));
            }
        }
        Diff { base_input, other_inputs, unchanged_regions }
    }

    /// The diff of inputs with the given token ranges, under hashes that are
    /// seeded here: whatever the seed is, the regions are those of the
    /// tokens hashed behind it.
    pub fn with_inputs_and_token_ranges<C: CompareBytes>(
        base_input: &'input [u8],
        other_inputs: Vec<&'input [u8]>,
        base_token_ranges: &[Range<usize>],
        other_token_ranges: &[Vec<Range<usize>>],
        compare: C,
    ) -> (diff: Self)
        requires
            other_inputs.len() == other_token_ranges.len(),
            ranges_in_bounds(base_token_ranges@, base_input.len() as int),
            ranges_ordered(base_token_ranges@),
            forall|k: int|
                0 <= k < other_inputs.len() ==> ranges_in_bounds(
                    (#[trigger] other_token_ranges[k])@,
                    other_inputs[k].len() as int,
                ) && ranges_ordered(other_token_ranges[k]@),
        ensures
            diff.wf(),
            diff.inputs() == texts_of(base_input@, other_inputs@),
            compares_exactly(&compare) ==> diff.agrees(),
            exists|seed: Seq<Seq<u8>>|
                diff.regions() == #[trigger] seeded_regions(
                    &compare,
                    texts_of(base_input@, other_inputs@),
                    base_token_ranges@,
                    ranges_view(other_token_ranges@),
                    seed,
                ),
    {
        let comp: WordComparator<C> = WordComparator::new(compare);
        let base_source: DiffSource = DiffSource::new(base_input, base_token_ranges, &comp);
        let mut other_sources: Vec<DiffSource> = Vec::new();
        let mut k: usize = 0;
        while k < other_inputs.len()
            invariant
                other_inputs.len() == other_token_ranges.len(),
                forall|j: int|
                    0 <= j < other_inputs.len() ==> ranges_in_bounds(
                        (#[trigger] other_token_ranges[j])@,
                        other_inputs[j].len() as int,
                    ) && ranges_ordered(other_token_ranges[j]@),
                k <= other_inputs.len(),
                other_sources.len() == k,
                forall|j: int|
                    0 <= j < k ==> (#[trigger] other_sources[j]).wf() && other_sources[j].text
                        == other_inputs[j] && other_sources[j].ranges@ == other_token_ranges[j]@
                        && other_sources[j].hashes@ == seeded_hashes(
                        &comp.compare,
                        comp.seed(),
                        other_inputs[j]@,
                        other_token_ranges[j]@,
                    ),
            decreases other_inputs.len() - k,
        {
            let source: DiffSource = DiffSource::new(
                other_inputs[k],
                other_token_ranges[k].as_slice(),
                &comp,
            );
            other_sources.push(source);
            k += 1;
        }
        let diff = Self::from_sources(&base_source, &other_sources, &comp);
        proof {
            let texts = texts_of(base_input@, other_inputs@);
            assert(source_texts(base_source, other_sources@) =~= texts);
            let base_hashes = base_source.hashes@;
            let other_hashes = Seq::new(other_sources.len() as nat, |j: int| other_sources[j].hashes@);
            assert(source_ranges(other_sources@) =~= ranges_view(other_token_ranges@));
            assert(source_words(other_sources@) =~= Seq::new(
                ranges_view(other_token_ranges@).len(),
                |j: int|
                    words_of(texts[j + 1], ranges_view(other_token_ranges@)[j], other_hashes[j]),
            ));
            assert(diff.regions() == hashed_regions(
                &compare,
                texts,
                base_token_ranges@,
                ranges_view(other_token_ranges@),
                base_hashes,
                other_hashes,
            ));
            assert(base_hashes == seeded_hashes(&compare, comp.seed(), texts[0], base_token_ranges@));
            assert(other_hashes =~= Seq::new(
                ranges_view(other_token_ranges@).len(),
                |j: int|
                    seeded_hashes(
                        &compare,
                        comp.seed(),
                        texts[j + 1],
                        ranges_view(other_token_ranges@)[j],
                    ),
            ));
            assert(diff.regions() == seeded_regions(
                &compare,
                texts,
                base_token_ranges@,
                ranges_view(other_token_ranges@),
                comp.seed(),
            ));
        }
        diff
    }
}

/// The texts of a list of inputs.
pub open spec fn inputs_view(inputs: Seq<&[u8]>) -> Seq<Seq<u8>> {
    Seq::new(inputs.len(), |k: int| inputs[k]@)
}

/// What a diff asks of its tokenizer: for every text, token ranges inside
/// the text that ascend without overlapping.
pub open spec fn is_tokenizer<F: Fn(&[u8]) -> Vec<Range<usize>>>(tokenizer: &F) -> bool {
    &&& forall|text: &[u8]| #[trigger] call_requires(*tokenizer, (text,))
    &&& forall|text: &[u8], ranges: Vec<Range<usize>>| #[trigger]
        call_ensures(*tokenizer, (text,), ranges) ==> ranges_in_bounds(
            ranges@,
            text.len() as int,
        ) && ranges_ordered(ranges@)
}

/// The token ranges are those that the tokenizer cuts the inputs into; no
/// input is cut if one of them is empty.
pub open spec fn is_tokenized<F: Fn(&[u8]) -> Vec<Range<usize>>>(
    tokenizer: &F,
    inputs: Seq<&[u8]>,
    base_ranges: Vec<Range<usize>>,
    other_ranges: Seq<Vec<Range<usize>>>,
) -> bool {
    &&& other_ranges.len() == inputs.len() - 1
    &&& if exists|k: int| 0 <= k < inputs.len() && (#[trigger] inputs[k]).len() == 0 {
        base_ranges@.len() == 0 && forall|k: int|
            0 <= k < other_ranges.len() ==> (#[trigger] other_ranges[k])@.len() == 0
    } else {
        call_ensures(*tokenizer, (inputs[0],), base_ranges) && forall|k: int|
            0 <= k < other_ranges.len() ==> call_ensures(
                *tokenizer,
                (inputs[k + 1],),
                #[trigger] other_ranges[k],
            )
    }
}

/// The regions are the unchanged regions of the inputs, cut into tokens by
/// the tokenizer and compared under the comparator, with the tokens hashed
/// behind some seed. Which seed it is does not show in the regions: they
/// are the same behind every seed.
pub open spec fn is_diff_under<F: Fn(&[u8]) -> Vec<Range<usize>>, C: CompareBytes>(
    tokenizer: &F,
    compare: &C,
    inputs: Seq<&[u8]>,
    regions: Seq<Sides>,
) -> bool {
    exists|
        base_ranges: Vec<Range<usize>>,
        other_ranges: Seq<Vec<Range<usize>>>,
        seed: Seq<Seq<u8>>,
    |
        is_tokenized(tokenizer, inputs, base_ranges, other_ranges) && regions
            == #[trigger] seeded_regions(
            compare,
            inputs_view(inputs),
            base_ranges@,
            ranges_view(other_ranges),
            seed,
        )
}

/// The unchanged regions of inputs that are compared as wholes: of inputs
/// without tokens.
pub open spec fn whole_regions(inputs: Seq<Seq<u8>>) -> Seq<Sides> {
    hashed_regions(
        &&CompareBytesExactly,
        inputs,
        Seq::empty(),
        Seq::new((inputs.len() - 1) as nat, |k: int| Seq::empty()),
        Seq::empty(),
        Seq::new((inputs.len() - 1) as nat, |k: int| Seq::empty()),
    )
}

/// Whether some text of the list is empty.
fn any_empty(inputs: &[&[u8]]) -> (r: bool)
    ensures
        r == exists|k: int| 0 <= k < inputs.len() && (#[trigger] inputs[k]).len() == 0,
{
    let mut k: usize = 0;
    while k < inputs.len()
        invariant
            k <= inputs.len(),
            forall|j: int| 0 <= j < k ==> (#[trigger] inputs[j]).len() != 0,
        decreases inputs.len() - k,
    {
        if inputs[k].len() == 0 {
            return true;
        }
        k += 1;
    }
    false
}

impl<'input> Diff<'input> {
    /// Compares `inputs` by the tokens that `tokenizer` cuts them into,
    /// under the comparator `compare`. The first input is the base.
    pub fn for_tokenizer<F: Fn(&[u8]) -> Vec<Range<usize>>, C: CompareBytes>(
        inputs: &[&'input [u8]],
        tokenizer: F,
        compare: C,
    ) -> (diff: Self)
        requires
            inputs.len() >= 1,
            is_tokenizer(&tokenizer),
        ensures
            diff.wf(),
            diff.inputs() == inputs_view(inputs@),
            compares_exactly(&compare) ==> diff.agrees(),
            is_diff_under(&tokenizer, &&compare, inputs@, diff.regions()),
    {
        Self::for_tokenizer_ref(inputs, &tokenizer, &compare)
    }

    /// As `for_tokenizer`, with tokenizer and comparator by reference.
    pub fn for_tokenizer_ref<F: Fn(&[u8]) -> Vec<Range<usize>>, C: CompareBytes>(
        inputs: &[&'input [u8]],
        tokenizer: &F,
        compare: &C,
    ) -> (diff: Self)
        requires
            inputs.len() >= 1,
            is_tokenizer(tokenizer),
        ensures
            diff.wf(),
            diff.inputs() == inputs_view(inputs@),
            compares_exactly(compare) ==> diff.agrees(),
            is_diff_under(tokenizer, &compare, inputs@, diff.regions()),
    {
        let base_input: &'input [u8] = inputs[0];
        let mut other_inputs: Vec<&'input [u8]> = Vec::new();
        let mut k: usize = 1;
        while k < inputs.len()
            invariant
                1 <= k <= inputs.len(),
                other_inputs.len() == k - 1,
                forall|j: int| 0 <= j < k - 1 ==> (#[trigger] other_inputs[j]) == inputs[j + 1],
            decreases inputs.len() - k,
        {
            other_inputs.push(inputs[k]);
            k += 1;
        }
        proof {
            assert(texts_of(base_input@, other_inputs@) =~= inputs_view(inputs@));
        }
        // First tokenize each input. There is no need to tokenize if one of
        // the inputs is empty: all the others are different from it then.
        let mut base_token_ranges: Vec<Range<usize>> = Vec::new();
        let mut other_token_ranges: Vec<Vec<Range<usize>>> = Vec::new();
        let tokenize: bool = !any_empty(inputs);
        if tokenize {
            base_token_ranges = tokenizer(base_input);
        }
        let mut k: usize = 0;
        while k < other_inputs.len()
            invariant
                is_tokenizer(tokenizer),
                k <= other_inputs.len(),
                other_token_ranges.len() == k,
                forall|j: int|
                    0 <= j < k ==> ranges_in_bounds(
                        (#[trigger] other_token_ranges[j])@,
                        other_inputs[j].len() as int,
                    ) && ranges_ordered(other_token_ranges[j]@),
                forall|j: int|
                    0 <= j < k ==> if tokenize {
                        call_ensures(*tokenizer, (other_inputs[j],), #[trigger] other_token_ranges[j])
                    } else {
                        other_token_ranges[j]@.len() == 0
                    },
            decreases other_inputs.len() - k,
        {
            if tokenize {
                other_token_ranges.push(tokenizer(other_inputs[k]));
            } else {
                other_token_ranges.push(Vec::new());
            }
            k += 1;
        }
        let diff = Self::with_inputs_and_token_ranges(
            base_input,
            other_inputs,
            base_token_ranges.as_slice(),
            other_token_ranges.as_slice(),
            compare,
        );
        proof {
            if compares_exactly(compare) {
                assert forall|a: Seq<u8>, b: Seq<u8>| #[trigger] (&compare).eq_spec(a, b) implies a
                    == b by {
                    assert(compare.eq_spec(a, b));
                }
            }
            let seed = choose|seed: Seq<Seq<u8>>|
                diff.regions() == #[trigger] seeded_regions(
                    &compare,
                    texts_of(base_input@, other_inputs@),
                    base_token_ranges@,
                    ranges_view(other_token_ranges@),
                    seed,
                );
            assert(is_tokenized(tokenizer, inputs@, base_token_ranges, other_token_ranges@)) by {
                assert forall|j: int| 0 <= j < other_token_ranges.len() implies (if tokenize {
                    call_ensures(*tokenizer, (inputs[j + 1],), #[trigger] other_token_ranges[j])
                } else {
                    other_token_ranges[j]@.len() == 0
                }) by {
                    assert(other_inputs[j] == inputs[j + 1]);
                }
            }
            assert(diff.regions() == seeded_regions(
                &compare,
                inputs_view(inputs@),
                base_token_ranges@,
                ranges_view(other_token_ranges@),
                seed,
            ));
        }
        diff
    }

    /// Compares `inputs` as wholes: what differs at all differs altogether.
    pub fn unrefined(inputs: &[&'input [u8]]) -> (diff: Self)
        requires
            inputs.len() >= 1,
        ensures
            diff.wf(),
            diff.inputs() == inputs_view(inputs@),
            diff.agrees(),
            diff.regions() == whole_regions(inputs_view(inputs@)),
    {
        let tokenizer = |text: &[u8]| -> (ranges: Vec<Range<usize>>)
            ensures
                ranges@.len() == 0,
            { Vec::new() };
        let diff = Diff::for_tokenizer(inputs, tokenizer, CompareBytesExactly);
        proof {
            let (base_ranges, other_ranges, seed) = choose|
                base_ranges: Vec<Range<usize>>,
                other_ranges: Seq<Vec<Range<usize>>>,
                seed: Seq<Seq<u8>>,
            |
                is_tokenized(&tokenizer, inputs@, base_ranges, other_ranges) && diff.regions()
                    == #[trigger] seeded_regions(
                    &&CompareBytesExactly,
                    inputs_view(inputs@),
                    base_ranges@,
                    ranges_view(other_ranges),
                    seed,
                );
            let texts = inputs_view(inputs@);
            let none = Seq::<Range<usize>>::empty();
            assert(base_ranges@ =~= none);
            assert(ranges_view(other_ranges) =~~= Seq::new(
                (texts.len() - 1) as nat,
                |k: int| Seq::<Range<usize>>::empty(),
            )) by {
                assert forall|k: int| 0 <= k < other_ranges.len() implies (
                #[trigger] other_ranges[k])@ =~= none by {}
            }
            assert(seeded_hashes(&&CompareBytesExactly, seed, texts[0], none) =~= Seq::<
                u64,
            >::empty());
            assert(Seq::new(
                ranges_view(other_ranges).len(),
                |k: int|
                    seeded_hashes(
                        &&CompareBytesExactly,
                        seed,
                        texts[k + 1],
                        ranges_view(other_ranges)[k],
                    ),
            ) =~~= Seq::new((texts.len() - 1) as nat, |k: int| Seq::<u64>::empty()));
        }
        diff
    }

    /// Compares `inputs` line by line.
    pub fn by_line(inputs: &[&'input [u8]]) -> (diff: Self)
        requires
            inputs.len() >= 1,
        ensures
            diff.wf(),
            diff.inputs() == inputs_view(inputs@),
            diff.agrees(),
            is_diff_under(&find_line_ranges, &&CompareBytesExactly, inputs@, diff.regions()),
    {
        proof {
            assert forall|text: &[u8], ranges: Vec<Range<usize>>| #[trigger]
                call_ensures(find_line_ranges, (text,), ranges) implies ranges_in_bounds(
                ranges@,
                text.len() as int,
            ) && ranges_ordered(ranges@) by {
                lemma_line_split_valid(text@, ranges@);
            }
        }
        Diff::for_tokenizer(inputs, find_line_ranges, CompareBytesExactly)
    }
}

/// Whether the inputs match or differ in a hunk.
#[derive(Clone, Copy, Debug, PartialEq, Eq, Structural)]
pub enum DiffHunkKind {
    Matching,
    Different,
}

/// Hunk ranges in bytes: one range for each input, the base first.
#[derive(Clone, Debug, PartialEq, Eq)]
pub struct DiffHunkRange {
    pub kind: DiffHunkKind,
    pub ranges: Vec<Range<usize>>,
}

/// Hunk texts: one for each input, the base first.
#[derive(Clone, Debug, PartialEq, Eq)]
pub struct DiffHunk<'input> {
    pub kind: DiffHunkKind,
    pub contents: Vec<&'input [u8]>,
}

impl<'input> DiffHunk<'input> {
    /// A hunk in which the inputs match.
    pub fn matching(contents: Vec<&'input [u8]>) -> (hunk: Self)
        ensures
            hunk.kind == DiffHunkKind::Matching,
            hunk.contents == contents,
    {
        DiffHunk { kind: DiffHunkKind::Matching, contents }
    }

    /// A hunk in which the inputs differ.
    pub fn different(contents: Vec<&'input [u8]>) -> (hunk: Self)
        ensures
            hunk.kind == DiffHunkKind::Different,
            hunk.contents == contents,
    {
        DiffHunk { kind: DiffHunkKind::Different, contents }
    }
}

/// The hunks that are still to come when the region at `p` is the last one
/// reached and `emitted` says whether its own hunk is out: the region's
/// matching hunk unless it is out or the region is empty, then in turn what
/// differs up to the next region and that region's hunks.
pub open spec fn remaining_hunks(regions: Seq<Sides>, p: int, emitted: bool) -> Seq<
    (DiffHunkKind, Sides),
>
    decreases regions.len() - p, if emitted { 0nat } else { 1nat },
{
    if !(0 <= p < regions.len()) {
        Seq::empty()
    } else if !emitted {
        seq![(DiffHunkKind::Matching, regions[p])] + remaining_hunks(regions, p, true)
    } else if p + 1 < regions.len() {
        seq![(DiffHunkKind::Different, between(regions[p], regions[p + 1]))] + remaining_hunks(
            regions,
            p + 1,
            all_empty(regions[p + 1]),
        )
    } else {
        Seq::empty()
    }
}

/// All hunks of a list of regions.
pub open spec fn spec_hunks(regions: Seq<Sides>) -> Seq<(DiffHunkKind, Sides)> {
    remaining_hunks(regions, 0, all_empty(regions[0]))
}

/// Hunks of ranges as pairs of kind and ranges.
pub open spec fn hunk_ranges_view(hunks: Seq<DiffHunkRange>) -> Seq<(DiffHunkKind, Sides)> {
    Seq::new(hunks.len(), |i: int| (hunks[i].kind, hunks[i].ranges@))
}

/// The bytes of each input in its range.
pub open spec fn contents_of(inputs: Seq<Seq<u8>>, ranges: Sides) -> Seq<Seq<u8>> {
    Seq::new(ranges.len(), |k: int| inputs[k].subrange(ranges[k].start as int, ranges[k].end as int))
}

/// The texts of a hunk.
pub open spec fn hunk_contents_view(contents: Seq<&[u8]>) -> Seq<Seq<u8>> {
    Seq::new(contents.len(), |k: int| contents[k]@)
}

/// The hunk at `i` and the next one are matching hunks.
pub open spec fn both_matching(hunks: Seq<(DiffHunkKind, Sides)>, i: int) -> bool {
    hunks[i].0 == DiffHunkKind::Matching && hunks[i + 1].0 == DiffHunkKind::Matching
}

/// No hunk is empty in every input, and no two matching hunks follow each
/// other.
pub open spec fn hunks_compact(hunks: Seq<(DiffHunkKind, Sides)>) -> bool {
    &&& forall|i: int| 0 <= i < hunks.len() ==> !all_empty((#[trigger] hunks[i]).1)
    &&& forall|i: int| 0 <= i < hunks.len() - 1 ==> !#[trigger] both_matching(hunks, i)
}

/// Every hunk lies inside inputs of the given lengths.
pub open spec fn hunks_in_bounds(hunks: Seq<(DiffHunkKind, Sides)>, lens: Seq<int>) -> bool {
    forall|i: int| 0 <= i < hunks.len() ==> region_in_bounds((#[trigger] hunks[i]).1, lens)
}

/// A hunk before compact hunks, which is not empty and not matching before a
/// matching one, gives compact hunks.
proof fn lemma_prepend_hunk(
    head: (DiffHunkKind, Sides),
    rest: Seq<(DiffHunkKind, Sides)>,
    lens: Seq<int>,
)
    requires
        hunks_compact(rest),
        hunks_in_bounds(rest, lens),
        !all_empty(head.1),
        region_in_bounds(head.1, lens),
        rest.len() > 0 && head.0 == DiffHunkKind::Matching ==> rest[0].0 == DiffHunkKind::Different,
    ensures
        hunks_compact(seq![head] + rest),
        hunks_in_bounds(seq![head] + rest, lens),
{
    let hunks = seq![head] + rest;
    assert forall|i: int| 0 <= i < hunks.len() implies !all_empty((#[trigger] hunks[i]).1)
        && region_in_bounds(hunks[i].1, lens) by {
        if i > 0 {
            assert(hunks[i] == rest[i - 1]);
        }
    }
    assert forall|i: int| 0 <= i < hunks.len() - 1 implies !#[trigger] both_matching(hunks, i) by {
        assert(hunks[i + 1] == rest[i]);
        if i > 0 {
            assert(hunks[i] == rest[i - 1]);
            assert(!both_matching(rest, i - 1));
        }
    }
}

/// What lies between a region and the next one that does not continue it is
/// inside the inputs and not empty in every input.
proof fn lemma_gap(previous: Sides, current: Sides, lens: Seq<int>)
    requires
        region_in_bounds(previous, lens),
        region_in_bounds(current, lens),
        precedes(previous, current),
        !contiguous(previous, current),
    ensures
        region_in_bounds(between(previous, current), lens),
        !all_empty(between(previous, current)),
{
    let gap = between(previous, current);
    assert forall|k: int| 0 <= k < lens.len() implies (#[trigger] gap[k]).start <= gap[k].end
        <= lens[k] by {
        assert(previous[k].end <= current[k].start);
        assert(current[k].start <= current[k].end);
    }
    if all_empty(gap) {
        assert forall|k: int| 0 <= k < previous.len() implies (#[trigger] previous[k]).end
            == current[k].start by {
            assert(gap[k].start == gap[k].end);
        }
    }
}

/// The hunks of ordered, compacted regions: none is empty in every input,
/// a matching hunk is never followed by a matching hunk, and each lies
/// inside the inputs.
pub proof fn lemma_remaining_hunks(regions: Seq<Sides>, lens: Seq<int>, p: int, emitted: bool)
    requires
        lens.len() >= 1,
        regions_ordered(regions, lens),
        regions_compacted(regions),
        0 <= p < regions.len(),
        emitted || !all_empty(regions[p]),
    ensures
        hunks_compact(remaining_hunks(regions, p, emitted)),
        hunks_in_bounds(remaining_hunks(regions, p, emitted), lens),
        emitted && remaining_hunks(regions, p, emitted).len() > 0 ==> remaining_hunks(
            regions,
            p,
            emitted,
        )[0].0 == DiffHunkKind::Different,
    decreases regions.len() - p, if emitted { 0nat } else { 1nat },
{
    if !emitted {
        lemma_remaining_hunks(regions, lens, p, true);
        assert(region_in_bounds(regions[p], lens));
        lemma_prepend_hunk(
            (DiffHunkKind::Matching, regions[p]),
            remaining_hunks(regions, p, true),
            lens,
        );
    } else if p + 1 < regions.len() {
        let previous = regions[p];
        let current = regions[p + 1];
        assert(region_in_bounds(previous, lens));
        assert(region_in_bounds(current, lens));
        assert(precedes_next(regions, p));
        assert(!continues_next(regions, p));
        lemma_gap(previous, current, lens);
        lemma_remaining_hunks(regions, lens, p + 1, all_empty(current));
        lemma_prepend_hunk(
            (DiffHunkKind::Different, between(previous, current)),
            remaining_hunks(regions, p + 1, all_empty(current)),
            lens,
        );
    }
}

/// Iterator over matching and different ranges in bytes.
pub struct DiffHunkRangeIterator<'diff> {
    regions: &'diff Vec<UnchangedRange>,
    previous: usize,
    unchanged_emitted: bool,
}

impl<'diff> DiffHunkRangeIterator<'diff> {
    /// The regions that the iterator walks.
    pub closed spec fn regions(&self) -> Seq<Sides> {
        regions_view(self.regions@)
    }

    /// The hunks that are still to come.
    pub closed spec fn remaining(&self) -> Seq<(DiffHunkKind, Sides)> {
        remaining_hunks(self.regions(), self.previous as int, self.unchanged_emitted)
    }

    pub closed spec fn wf(&self) -> bool {
        &&& self.previous < self.regions.len()
        &&& forall|i: int|
            0 <= i < self.regions.len() ==> (#[trigger] self.regions[i]).others.len()
                == self.regions[0].others.len()
    }

    fn new(diff: &'diff Diff) -> (iter: Self)
        requires
            diff.wf(),
        ensures
            iter.wf(),
            iter.regions() == diff.regions(),
            iter.remaining() == spec_hunks(diff.regions()),
    {
        let regions: &'diff Vec<UnchangedRange> = &diff.unchanged_regions;
        proof {
            let views = diff.regions();
            let lens = input_lens(diff.inputs());
            assert forall|i: int| 0 <= i < regions.len() implies (#[trigger] regions[i]).others.len()
                == regions[0].others.len() by {
                assert(region_in_bounds(views[i], lens));
                assert(region_in_bounds(views[0], lens));
                assert(views[i].len() == regions[i].others.len() + 1);
                assert(views[0].len() == regions[0].others.len() + 1);
            }
        }
        DiffHunkRangeIterator {
            regions,
            previous: 0,
            unchanged_emitted: regions[0].is_all_empty(),
        }
    }

    /// The next hunk, if there is one.
    pub fn next(&mut self) -> (hunk: Option<DiffHunkRange>)
        requires
            old(self).wf(),
        ensures
            final(self).wf(),
            final(self).regions() == old(self).regions(),
            match hunk {
                Some(h) => old(self).remaining().len() > 0 && (h.kind, h.ranges@) == old(
                    self,
                ).remaining()[0] && final(self).remaining() == old(self).remaining().drop_first(),
                None => old(self).remaining().len() == 0 && final(self).remaining().len() == 0,
            },
    {
        let ghost views = self.regions();
        let previous: &UnchangedRange = &self.regions[self.previous];
        if !self.unchanged_emitted {
            self.unchanged_emitted = true;
            let copy: UnchangedRange = previous.duplicate();
            let mut ranges: Vec<Range<usize>> = Vec::new();
            ranges.push(copy.base);
            let mut others: Vec<Range<usize>> = copy.others;
            ranges.append(&mut others);
            proof {
                assert(ranges@ =~= views[self.previous as int]);
                let rest = remaining_hunks(views, self.previous as int, true);
                assert((seq![(DiffHunkKind::Matching, views[self.previous as int])] + rest).drop_first()
                    =~= rest);
            }
            return Some(DiffHunkRange { kind: DiffHunkKind::Matching, ranges });
        }
        if self.previous + 1 >= self.regions.len() {
            return None;
        }
        let current: &UnchangedRange = &self.regions[self.previous + 1];
        let mut ranges: Vec<Range<usize>> = Vec::new();
        ranges.push(previous.base.end..current.base.start);
        let mut k: usize = 0;
        proof {
            assert(previous.others.len() == self.regions[0].others.len());
            assert(current.others.len() == self.regions[0].others.len());
        }
        while k < previous.others.len()
            invariant
                previous.others.len() == current.others.len(),
                k <= previous.others.len(),
                ranges.len() == k + 1,
                ranges[0] == (previous.base.end..current.base.start),
                forall|j: int|
                    0 <= j < k ==> (#[trigger] ranges[j + 1]) == (
                    previous.others[j].end..current.others[j].start),
            decreases previous.others.len() - k,
        {
            ranges.push(previous.others[k].end..current.others[k].start);
            k += 1;
        }
        let emitted: bool = current.is_all_empty();
        proof {
            let p = self.previous as int;
            let gap = between(views[p], views[p + 1]);
            assert(ranges@.len() == gap.len());
            assert forall|j: int| 0 <= j < gap.len() implies ranges@[j] == gap[j] by {
                if j > 0 {
                    assert(ranges[(j - 1) + 1] == (
                    previous.others[j - 1].end..current.others[j - 1].start));
                }
            }
            assert(ranges@ =~= gap);
            let rest = remaining_hunks(views, p + 1, emitted);
            assert((seq![(DiffHunkKind::Different, gap)] + rest).drop_first() =~= rest);
        }
        self.previous = self.previous + 1;
        self.unchanged_emitted = emitted;
        Some(DiffHunkRange { kind: DiffHunkKind::Different, ranges })
    }

    /// All the hunks that are still to come.
    pub fn collect_vec(self) -> (hunks: Vec<DiffHunkRange>)
        requires
            self.wf(),
        ensures
            hunk_ranges_view(hunks@) == self.remaining(),
    {
        let mut iter = self;
        let ghost all = iter.remaining();
        let mut hunks: Vec<DiffHunkRange> = Vec::new();
        loop
            invariant_except_break
                iter.wf(),
                all == hunk_ranges_view(hunks@) + iter.remaining(),
            ensures
                all == hunk_ranges_view(hunks@),
            decreases iter.remaining().len(),
        {
            let ghost done = hunk_ranges_view(hunks@);
            let ghost rest = iter.remaining();
            match iter.next() {
                Some(hunk) => {
                    hunks.push(hunk);
                    proof {
                        assert(hunk_ranges_view(hunks@) =~= done.push(rest[0]));
                        assert(done + rest =~= done.push(rest[0]) + rest.drop_first());
                    }
                },
                None => {
                    proof {
                        assert(done + rest =~= done);
                    }
                    break ;
                },
            }
        }
        hunks
    }
}

/// Iterator over matching and different texts.
pub struct DiffHunkIterator<'diff, 'input> {
    diff: &'diff Diff<'input>,
    ranges: DiffHunkRangeIterator<'diff>,
}

impl<'diff, 'input> DiffHunkIterator<'diff, 'input> {
    /// The inputs of the diff that the iterator walks.
    pub closed spec fn inputs(&self) -> Seq<Seq<u8>> {
        self.diff.inputs()
    }

    /// The hunks that are still to come, as ranges.
    pub closed spec fn remaining(&self) -> Seq<(DiffHunkKind, Sides)> {
        self.ranges.remaining()
    }

    pub closed spec fn wf(&self) -> bool {
        &&& self.diff.wf()
        &&& self.ranges.wf()
        &&& self.ranges.regions() == self.diff.regions()
        &&& hunks_in_bounds(self.ranges.remaining(), input_lens(self.diff.inputs()))
    }

    /// The next hunk, if there is one: the bytes of each input in the range
    /// of the next hunk of ranges.
    pub fn next(&mut self) -> (hunk: Option<DiffHunk<'input>>)
        requires
            old(self).wf(),
        ensures
            final(self).wf(),
            final(self).inputs() == old(self).inputs(),
            match hunk {
                Some(h) => old(self).remaining().len() > 0 && h.kind == old(self).remaining()[0].0
                    && hunk_contents_view(h.contents@) == contents_of(
                    old(self).inputs(),
                    old(self).remaining()[0].1,
                ) && final(self).remaining() == old(self).remaining().drop_first(),
                None => old(self).remaining().len() == 0 && final(self).remaining().len() == 0,
            },
    {
        let ghost inputs = self.diff.inputs();
        let ghost lens = input_lens(inputs);
        let ghost before = self.ranges.remaining();
        let next: Option<DiffHunkRange> = self.ranges.next();
        match next {
            Some(hunk) => {
                proof {
                    assert(region_in_bounds(before[0].1, lens));
                    assert forall|i: int| 0 <= i < before.drop_first().len() implies region_in_bounds(
                        (#[trigger] before.drop_first()[i]).1,
                        lens,
                    ) by {
                        assert(before.drop_first()[i] == before[i + 1]);
                    }
                }
                let contents: Vec<&'input [u8]> = self.diff.contents_at(&hunk.ranges);
                Some(DiffHunk { kind: hunk.kind, contents })
            },
            None => None,
        }
    }

    /// All the hunks that are still to come.
    pub fn collect_vec(self) -> (hunks: Vec<DiffHunk<'input>>)
        requires
            self.wf(),
        ensures
            hunks.len() == self.remaining().len(),
            forall|i: int|
                0 <= i < hunks.len() ==> (#[trigger] hunks[i]).kind == self.remaining()[i].0
                    && hunk_contents_view(hunks[i].contents@) == contents_of(
                    self.inputs(),
                    self.remaining()[i].1,
                ),
    {
        let mut iter = self;
        let ghost all = iter.remaining();
        let ghost inputs = iter.inputs();
        let mut hunks: Vec<DiffHunk<'input>> = Vec::new();
        loop
            invariant_except_break
                iter.wf(),
                iter.inputs() == inputs,
                hunks.len() + iter.remaining().len() == all.len(),
                iter.remaining() == all.skip(hunks.len() as int),
                forall|i: int|
                    0 <= i < hunks.len() ==> (#[trigger] hunks[i]).kind == all[i].0
                        && hunk_contents_view(hunks[i].contents@) == contents_of(inputs, all[i].1),
            ensures
                hunks.len() == all.len(),
                forall|i: int|
                    0 <= i < hunks.len() ==> (#[trigger] hunks[i]).kind == all[i].0
                        && hunk_contents_view(hunks[i].contents@) == contents_of(inputs, all[i].1),
            decreases iter.remaining().len(),
        {
            let ghost rest = iter.remaining();
            match iter.next() {
                Some(hunk) => {
                    proof {
                        assert(rest[0] == all[hunks.len() as int]);
                        assert(rest.drop_first() =~= all.skip(hunks.len() + 1));
                    }
                    hunks.push(hunk);
                },
                None => {
                    break ;
                },
            }
        }
        hunks
    }
}

impl<'input> Diff<'input> {
    /// The bytes of each input in its range.
    fn contents_at(&self, ranges: &Vec<Range<usize>>) -> (contents: Vec<&'input [u8]>)
        requires
            self.wf(),
            region_in_bounds(ranges@, input_lens(self.inputs())),
        ensures
            hunk_contents_view(contents@) == contents_of(self.inputs(), ranges@),
    {
        let ghost inputs = self.inputs();
        let ghost lens = input_lens(inputs);
        let mut contents: Vec<&'input [u8]> = Vec::new();
        proof {
            assert(ranges@[0].start <= ranges@[0].end <= lens[0]);
            assert(inputs[0] == self.base_input@);
        }
        contents.push(slice_subrange(self.base_input, ranges[0].start, ranges[0].end));
        let mut k: usize = 0;
        while k < self.other_inputs.len()
            invariant
                inputs == self.inputs(),
                lens == input_lens(inputs),
                region_in_bounds(ranges@, lens),
                ranges.len() == self.other_inputs.len() + 1,
                k <= self.other_inputs.len(),
                contents.len() == k + 1,
                forall|j: int|
                    0 <= j < k + 1 ==> (#[trigger] contents[j])@ == inputs[j].subrange(
                        ranges[j].start as int,
                        ranges[j].end as int,
                    ),
            decreases self.other_inputs.len() - k,
        {
            proof {
                assert(ranges@[k + 1].start <= ranges@[k + 1].end <= lens[k + 1]);
                assert(inputs[k + 1] == self.other_inputs[k as int]@);
            }
            contents.push(
                slice_subrange(self.other_inputs[k], ranges[k + 1].start, ranges[k + 1].end),
            );
            k += 1;
        }
        proof {
            assert(hunk_contents_view(contents@) =~= contents_of(inputs, ranges@));
        }
        contents
    }

    /// Returns iterator over matching and different ranges in bytes.
    pub fn hunk_ranges(&self) -> (iter: DiffHunkRangeIterator<'_>)
        requires
            self.wf(),
        ensures
            iter.wf(),
            iter.regions() == self.regions(),
            iter.remaining() == spec_hunks(self.regions()),
    {
        DiffHunkRangeIterator::new(self)
    }

    /// Returns iterator over matching and different texts.
    pub fn hunks(&self) -> (iter: DiffHunkIterator<'_, 'input>)
        requires
            self.wf(),
        ensures
            iter.wf(),
            iter.inputs() == self.inputs(),
            iter.remaining() == spec_hunks(self.regions()),
    {
        let ranges = self.hunk_ranges();
        proof {
            lemma_hunks(*self);
        }
        DiffHunkIterator { diff: self, ranges }
    }
}

/// No hunk of a diff is empty in every input, no two matching hunks follow
/// each other, and every hunk lies inside the inputs.
pub proof fn lemma_hunks(diff: Diff)
    requires
        diff.wf(),
    ensures
        hunks_compact(spec_hunks(diff.regions())),
        hunks_in_bounds(spec_hunks(diff.regions()), input_lens(diff.inputs())),
{
    let regions = diff.regions();
    lemma_remaining_hunks(regions, input_lens(diff.inputs()), 0, all_empty(regions[0]));
}

/// The region `r` of a diff of what lies between two regions, moved to
/// where that begins: behind `previous`.
pub open spec fn shift_region(r: Sides, previous: Sides) -> Sides {
    Seq::new(
        r.len(),
        |k: int| ((r[k].start + previous[k].end) as usize)..((r[k].end + previous[k].end) as usize),
    )
}

/// One more region behind ordered regions, beginning where the last of them
/// ends or later, leaves them ordered.
proof fn lemma_push_ordered(regions: Seq<Sides>, lens: Seq<int>, r: Sides)
    requires
        regions.len() >= 1,
        regions_ordered(regions, lens),
        region_in_bounds(r, lens),
        precedes(regions.last(), r),
    ensures
        regions_ordered(regions.push(r), lens),
{
    let out = regions.push(r);
    assert forall|i: int| 0 <= i < out.len() implies region_in_bounds(#[trigger] out[i], lens) by {
        if i < regions.len() {
            assert(out[i] == regions[i]);
        }
    }
    assert forall|i: int| 0 <= i < out.len() - 1 implies #[trigger] precedes_next(out, i) by {
        if i < regions.len() - 1 {
            assert(precedes_next(regions, i));
            assert(out[i] == regions[i] && out[i + 1] == regions[i + 1]);
        } else {
            assert(out[i] == regions.last() && out[i + 1] == r);
        }
    }
}

/// A region of the diff of what lies between `previous` and `current`,
/// moved behind `previous`, lies between the two in the whole inputs, and
/// agrees there if it agrees in the diff of what lies between.
proof fn lemma_shift_region(
    inputs: Seq<Seq<u8>>,
    previous: Sides,
    current: Sides,
    sub: Seq<Sides>,
    j: int,
)
    requires
        inputs.len() >= 1,
        region_in_bounds(previous, input_lens(inputs)),
        region_in_bounds(current, input_lens(inputs)),
        precedes(previous, current),
        regions_ordered(sub, input_lens(contents_of(inputs, between(previous, current)))),
        regions_span(sub, input_lens(contents_of(inputs, between(previous, current)))),
        0 <= j < sub.len(),
    ensures
        region_in_bounds(shift_region(sub[j], previous), input_lens(inputs)),
        precedes(previous, shift_region(sub[j], previous)),
        precedes(shift_region(sub[j], previous), current),
        j + 1 < sub.len() ==> precedes(
            shift_region(sub[j], previous),
            shift_region(sub[j + 1], previous),
        ),
        contents_agree(contents_of(inputs, between(previous, current)), sub[j]) ==> contents_agree(
            inputs,
            shift_region(sub[j], previous),
        ),
        forall|k: int|
            0 <= k < inputs.len() ==> (#[trigger] sub[j][k]).end + previous[k].end
                <= current[k].start,
{
    let lens = input_lens(inputs);
    let gap = between(previous, current);
    let sub_inputs = contents_of(inputs, gap);
    let sub_lens = input_lens(sub_inputs);
    let r = sub[j];
    let moved = shift_region(r, previous);
    assert(region_in_bounds(r, sub_lens));
    assert forall|k: int| 0 <= k < inputs.len() implies previous[k].end <= current[k].start
        <= lens[k] && #[trigger] sub_lens[k] == current[k].start - previous[k].end && (
    #[trigger] r[k]).start <= r[k].end <= sub_lens[k] && sub_inputs[k] == inputs[k].subrange(
        previous[k].end as int,
        current[k].start as int,
    ) by {
        assert(previous[k].end <= current[k].start);
        assert(current[k].start <= current[k].end <= lens[k]);
        assert(gap[k] == (previous[k].end..current[k].start));
    }
    assert forall|k: int| 0 <= k < lens.len() implies (#[trigger] moved[k]).start <= moved[k].end
        <= lens[k] by {
        assert(r[k].end <= sub_lens[k]);
    }
    assert forall|k: int| 0 <= k < previous.len() implies (#[trigger] previous[k]).end
        <= moved[k].start by {
        assert(r[k].end <= sub_lens[k]);
    }
    assert forall|k: int| 0 <= k < moved.len() implies (#[trigger] moved[k]).end
        <= current[k].start by {
        assert(r[k].end <= sub_lens[k]);
    }
    if j + 1 < sub.len() {
        let next = sub[j + 1];
        let moved_next = shift_region(next, previous);
        assert(precedes_next(sub, j));
        assert(region_in_bounds(next, sub_lens));
        assert forall|k: int| 0 <= k < moved.len() implies (#[trigger] moved[k]).end
            <= moved_next[k].start by {
            assert(r[k].end <= next[k].start);
            assert(r[k].end <= sub_lens[k]);
            assert(next[k].start <= next[k].end <= sub_lens[k]);
        }
    }
    if contents_agree(sub_inputs, r) {
        assert forall|k: int| 0 <= k < moved.len() implies inputs[k].subrange(
            (#[trigger] moved[k]).start as int,
            moved[k].end as int,
        ) == inputs[0].subrange(moved[0].start as int, moved[0].end as int) by {
            assert(r[k].end <= sub_lens[k]);
            assert(r[0].end <= sub_lens[0]);
            assert(sub_inputs[k].subrange(r[k].start as int, r[k].end as int)
                == sub_inputs[0].subrange(r[0].start as int, r[0].end as int));
            assert(inputs[k].subrange(moved[k].start as int, moved[k].end as int)
                =~= sub_inputs[k].subrange(r[k].start as int, r[k].end as int));
            assert(inputs[0].subrange(moved[0].start as int, moved[0].end as int)
                =~= sub_inputs[0].subrange(r[0].start as int, r[0].end as int));
        }
    }
    assert forall|k: int| 0 <= k < inputs.len() implies (#[trigger] sub[j][k]).end
        + previous[k].end <= current[k].start by {
        assert(r[k].end <= sub_lens[k]);
    }
}

/// What lies between two regions, as ranges.
fn gap_ranges(previous: &UnchangedRange, current: &UnchangedRange) -> (ranges: Vec<Range<usize>>)
    requires
        previous.others.len() == current.others.len(),
    ensures
        ranges@ == between(previous.sides(), current.sides()),
{
    let mut ranges: Vec<Range<usize>> = Vec::new();
    ranges.push(previous.base.end..current.base.start);
    let mut k: usize = 0;
    while k < previous.others.len()
        invariant
            previous.others.len() == current.others.len(),
            k <= previous.others.len(),
            ranges.len() == k + 1,
            ranges[0] == (previous.base.end..current.base.start),
            forall|j: int|
                0 <= j < k ==> (#[trigger] ranges[j + 1]) == (
                previous.others[j].end..current.others[j].start),
        decreases previous.others.len() - k,
    {
        ranges.push(previous.others[k].end..current.others[k].start);
        k += 1;
    }
    proof {
        let gap = between(previous.sides(), current.sides());
        assert(ranges@.len() == gap.len());
        assert forall|j: int| 0 <= j < gap.len() implies ranges@[j] == gap[j] by {
            if j > 0 {
                assert(ranges[(j - 1) + 1] == (previous.others[j - 1].end..current.others[j - 1].start));
            }
        }
        assert(ranges@ =~= gap);
    }
    ranges
}

/// The region `r` moved behind `previous`.
fn shifted_region(r: &UnchangedRange, previous: &UnchangedRange) -> (moved: UnchangedRange)
    requires
        r.others.len() == previous.others.len(),
        forall|k: int|
            0 <= k < r.sides().len() ==> (#[trigger] r.sides()[k]).end + previous.sides()[k].end
                <= usize::MAX,
        forall|k: int| 0 <= k < r.sides().len() ==> (#[trigger] r.sides()[k]).start <= r.sides()[k].end,
    ensures
        moved.sides() == shift_region(r.sides(), previous.sides()),
{
    let ghost a = r.sides();
    let ghost b = previous.sides();
    proof {
        assert(a[0] == r.base && b[0] == previous.base);
        assert(a[0].end + b[0].end <= usize::MAX);
        assert(a[0].start <= a[0].end);
    }
    let base: Range<usize> = (r.base.start + previous.base.end)..(r.base.end + previous.base.end);
    let mut others: Vec<Range<usize>> = Vec::new();
    let mut k: usize = 0;
    while k < r.others.len()
        invariant
            a == r.sides(),
            b == previous.sides(),
            r.others.len() == previous.others.len(),
            forall|j: int| 0 <= j < a.len() ==> (#[trigger] a[j]).end + b[j].end <= usize::MAX,
            forall|j: int| 0 <= j < a.len() ==> (#[trigger] a[j]).start <= a[j].end,
            k <= r.others.len(),
            others.len() == k,
            forall|j: int|
                0 <= j < k ==> (#[trigger] others[j]) == (
                ((r.others[j].start + previous.others[j].end) as usize)..((r.others[j].end
                    + previous.others[j].end) as usize)),
        decreases r.others.len() - k,
    {
        proof {
            assert(a[k + 1] == r.others[k as int] && b[k + 1] == previous.others[k as int]);
            assert(a[k + 1].end + b[k + 1].end <= usize::MAX);
            assert(a[k + 1].start <= a[k + 1].end);
        }
        others.push(
            (r.others[k].start + previous.others[k].end)..(r.others[k].end
                + previous.others[k].end),
        );
        k += 1;
    }
    let moved = UnchangedRange { base, others };
    proof {
        let expected = shift_region(a, b);
        assert(moved.sides().len() == expected.len());
        assert forall|j: int| 0 <= j < expected.len() implies moved.sides()[j] == expected[j] by {
            if j > 0 {
                assert(a[j] == r.others[j - 1] && b[j] == previous.others[j - 1]);
                assert(moved.sides()[j] == moved.others[j - 1]);
            }
        }
        assert(moved.sides() =~= expected);
    }
    moved
}

/// The regions of a diff of what lies between two regions, each moved to
/// where it lies in the whole inputs: behind `previous`.
pub open spec fn shifted_all(sub: Seq<Sides>, previous: Sides) -> Seq<Sides> {
    Seq::new(sub.len(), |j: int| shift_region(sub[j], previous))
}

/// The first `upto` regions, and between each of them and the next the
/// regions of the diff of what lies between the two: `subs[w]` holds the
/// regions of the diff between the regions `w` and `w + 1`.
pub open spec fn spliced(regions: Seq<Sides>, subs: Seq<Seq<Sides>>, upto: int) -> Seq<Sides>
    decreases upto,
{
    if upto <= 1 {
        seq![regions[0]]
    } else {
        spliced(regions, subs, upto - 1) + shifted_all(subs[upto - 2], regions[upto - 2])
            + seq![regions[upto - 1]]
    }
}

/// `sub` holds the unchanged regions of a diff, under the tokenizer and
/// the comparator, of what lies between the regions `previous` and
/// `current` in the inputs.
pub open spec fn is_gap_diff<F: Fn(&[u8]) -> Vec<Range<usize>>, C: CompareBytes>(
    tokenizer: &F,
    compare: &C,
    inputs: Seq<Seq<u8>>,
    previous: Sides,
    current: Sides,
    sub: Seq<Sides>,
) -> bool {
    exists|parts: Seq<&[u8]>|
        inputs_view(parts) == contents_of(inputs, between(previous, current))
            && #[trigger] is_diff_under(tokenizer, compare, parts, sub)
}

/// `subs` holds, for each region but the last, a diff of what lies between
/// the region and the next.
pub open spec fn are_gap_diffs<F: Fn(&[u8]) -> Vec<Range<usize>>, C: CompareBytes>(
    tokenizer: &F,
    compare: &C,
    inputs: Seq<Seq<u8>>,
    regions: Seq<Sides>,
    subs: Seq<Seq<Sides>>,
) -> bool {
    forall|w: int|
        0 <= w < subs.len() ==> is_gap_diff(
            tokenizer,
            compare,
            inputs,
            regions[w],
            regions[w + 1],
            #[trigger] subs[w],
        )
}

/// The new regions are the old ones refined: what lies between each
/// region and the next is diffed under the tokenizer and the comparator,
/// the unchanged regions of each such diff are put between the two at the
/// place where they lie in the whole inputs, and regions of which one
/// continues the other are merged.
pub open spec fn is_refined<F: Fn(&[u8]) -> Vec<Range<usize>>, C: CompareBytes>(
    tokenizer: &F,
    compare: &C,
    inputs: Seq<Seq<u8>>,
    old_regions: Seq<Sides>,
    new_regions: Seq<Sides>,
) -> bool {
    exists|subs: Seq<Seq<Sides>>|
        subs.len() == old_regions.len() - 1 && #[trigger] are_gap_diffs(
            tokenizer,
            compare,
            inputs,
            old_regions,
            subs,
        ) && new_regions == spec_compact(spliced(old_regions, subs, old_regions.len() as int))
}

/// What is spliced in between the first regions does not depend on the
/// diffs behind them.
proof fn lemma_spliced_prefix(regions: Seq<Sides>, short: Seq<Seq<Sides>>, long: Seq<Seq<Sides>>, upto: int)
    requires
        short.len() <= long.len(),
        forall|w: int| 0 <= w < short.len() ==> short[w] == long[w],
        upto <= short.len() + 1,
    ensures
        spliced(regions, short, upto) == spliced(regions, long, upto),
    decreases upto,
{
    if upto > 1 {
        lemma_spliced_prefix(regions, short, long, upto - 1);
    }
}

/// One more diff is spliced in behind the others.
proof fn lemma_spliced_step(regions: Seq<Sides>, subs: Seq<Seq<Sides>>, sub: Seq<Sides>, w: int)
    requires
        w >= 1,
        subs.len() == w - 1,
    ensures
        spliced(regions, subs.push(sub), w + 1) == spliced(regions, subs, w) + shifted_all(
            sub,
            regions[w - 1],
        ) + seq![regions[w]],
{
    lemma_spliced_prefix(regions, subs, subs.push(sub), w);
    assert(subs.push(sub)[w - 1] == sub);
}

/// One more gap diff behind gap diffs.
proof fn lemma_gap_diffs_step<F: Fn(&[u8]) -> Vec<Range<usize>>, C: CompareBytes>(
    tokenizer: &F,
    compare: &C,
    inputs: Seq<Seq<u8>>,
    regions: Seq<Sides>,
    subs: Seq<Seq<Sides>>,
    sub: Seq<Sides>,
)
    requires
        are_gap_diffs(tokenizer, compare, inputs, regions, subs),
        is_gap_diff(
            tokenizer,
            compare,
            inputs,
            regions[subs.len() as int],
            regions[subs.len() as int + 1],
            sub,
        ),
    ensures
        are_gap_diffs(tokenizer, compare, inputs, regions, subs.push(sub)),
{
    let more = subs.push(sub);
    assert forall|w: int| 0 <= w < more.len() implies is_gap_diff(
        tokenizer,
        compare,
        inputs,
        regions[w],
        regions[w + 1],
        #[trigger] more[w],
    ) by {
        if w < subs.len() {
            assert(more[w] == subs[w]);
        }
    }
}

impl<'input> Diff<'input> {
    /// Uses the given tokenizer to split the changed regions into smaller
    /// regions, and finds unchanged regions among them. The inputs stay, and
    /// what was unchanged stays unchanged; where the regions agreed and the
    /// comparator is exact, they agree.
    pub fn refine_changed_regions<F: Fn(&[u8]) -> Vec<Range<usize>>, C: CompareBytes>(
        &mut self,
        tokenizer: F,
        compare: C,
    )
        requires
            old(self).wf(),
            is_tokenizer(&tokenizer),
        ensures
            final(self).wf(),
            final(self).inputs() == old(self).inputs(),
            old(self).agrees() && compares_exactly(&compare) ==> final(self).agrees(),
            is_refined(
                &tokenizer,
                &&compare,
                old(self).inputs(),
                old(self).regions(),
                final(self).regions(),
            ),
    {
        let ghost inputs = self.inputs();
        let ghost lens = input_lens(inputs);
        let ghost old_regions = self.regions();
        let ghost exact = self.agrees() && compares_exactly(&compare);
        let ghost mut subs: Seq<Seq<Sides>> = Seq::empty();
        let count: usize = self.unchanged_regions.len();
        let mut new_regions: Vec<UnchangedRange> = Vec::new();
        new_regions.push(self.unchanged_regions[0].duplicate());
        proof {
            assert(region_in_bounds(old_regions[0], lens));
            assert(regions_view(new_regions@) =~= seq![old_regions[0]]);
        }
        let mut w: usize = 1;
        while w < count
            invariant
                subs.len() == w - 1,
                are_gap_diffs(&tokenizer, &&compare, inputs, old_regions, subs),
                regions_view(new_regions@) == spliced(old_regions, subs, w as int),
                self.wf(),
                inputs == self.inputs(),
                lens == input_lens(inputs),
                old_regions == self.regions(),
                exact == (self.agrees() && compares_exactly(&compare)),
                is_tokenizer(&tokenizer),
                count == self.unchanged_regions.len(),
                1 <= w <= count,
                new_regions.len() >= 1,
                regions_ordered(regions_view(new_regions@), lens),
                regions_view(new_regions@)[0] == old_regions[0],
                regions_view(new_regions@).last() == old_regions[w - 1],
                exact ==> regions_agree(inputs, regions_view(new_regions@)),
            decreases count - w,
        {
            let previous: &UnchangedRange = &self.unchanged_regions[w - 1];
            let current: &UnchangedRange = &self.unchanged_regions[w];
            proof {
                assert(region_in_bounds(old_regions[w - 1], lens));
                assert(region_in_bounds(old_regions[w as int], lens));
                assert(precedes_next(old_regions, w - 1));
                assert(old_regions[w - 1].len() == previous.others.len() + 1);
                assert(old_regions[w as int].len() == current.others.len() + 1);
                lemma_gap_in_bounds(old_regions[w - 1], old_regions[w as int], lens);
            }
            // For the changed region between the previous region and the
            // current one, make a diff of its own; then move its regions to
            // where they lie in the whole inputs.
            let gap: Vec<Range<usize>> = gap_ranges(previous, current);
            let parts: Vec<&'input [u8]> = self.contents_at(&gap);
            proof {
                assert(hunk_contents_view(parts@).len() == parts.len());
                assert(contents_of(inputs, gap@).len() == gap@.len());
                assert(gap@.len() == lens.len());
            }
            let refined: Diff = Diff::for_tokenizer_ref(parts.as_slice(), &tokenizer, &compare);
            let ghost sub = refined.regions();
            let ghost head = regions_view(new_regions@);
            proof {
                assert(inputs_view(parts@) =~= hunk_contents_view(parts@));
                assert(refined.inputs() == contents_of(inputs, gap@));
                assert(is_diff_under(&tokenizer, &&compare, parts@, sub));
                assert(is_gap_diff(
                    &tokenizer,
                    &&compare,
                    inputs,
                    old_regions[w - 1],
                    old_regions[w as int],
                    sub,
                ));
                assert(head =~= head + shifted_all(sub, old_regions[w - 1]).take(0));
            }
            let mut j: usize = 0;
            while j < refined.unchanged_regions.len()
                invariant
                    regions_view(new_regions@) == head + shifted_all(sub, old_regions[w - 1]).take(
                        j as int,
                    ),
                    refined.unchanged_regions.len() == sub.len(),
                    self.wf(),
                    refined.wf(),
                    inputs == self.inputs(),
                    lens == input_lens(inputs),
                    old_regions == self.regions(),
                    sub == refined.regions(),
                    refined.inputs() == contents_of(inputs, gap@),
                    gap@ == between(old_regions[w - 1], old_regions[w as int]),
                    exact ==> refined.agrees(),
                    1 <= w < count,
                    count == self.unchanged_regions.len(),
                    previous == &self.unchanged_regions[w - 1],
                    previous.sides() == old_regions[w - 1],
                    j <= refined.unchanged_regions.len(),
                    new_regions.len() >= 1,
                    regions_ordered(regions_view(new_regions@), lens),
                    regions_view(new_regions@)[0] == old_regions[0],
                    regions_view(new_regions@).last() == if j == 0 {
                        old_regions[w - 1]
                    } else {
                        shift_region(sub[j - 1], old_regions[w - 1])
                    },
                    exact ==> regions_agree(inputs, regions_view(new_regions@)),
                decreases refined.unchanged_regions.len() - j,
            {
                let r: &UnchangedRange = &refined.unchanged_regions[j];
                let ghost before = regions_view(new_regions@);
                proof {
                    assert(region_in_bounds(old_regions[w - 1], lens));
                    assert(region_in_bounds(old_regions[w as int], lens));
                    assert(precedes_next(old_regions, w - 1));
                    lemma_shift_region(inputs, old_regions[w - 1], old_regions[w as int], sub, j as int);
                    if j > 0 {
                        lemma_shift_region(
                            inputs,
                            old_regions[w - 1],
                            old_regions[w as int],
                            sub,
                            j - 1,
                        );
                    }
                    assert(region_in_bounds(sub[j as int], input_lens(refined.inputs())));
                    assert(sub[j as int] == r.sides());
                    assert(r.sides().len() == r.others.len() + 1);
                    assert(old_regions[w - 1].len() == previous.others.len() + 1);
                    assert forall|k: int| 0 <= k < r.sides().len() implies (#[trigger] r.sides()[k]).end
                        + previous.sides()[k].end <= usize::MAX && r.sides()[k].start
                        <= r.sides()[k].end by {
                        assert(sub[j as int][k].end + old_regions[w - 1][k].end
                            <= old_regions[w as int][k].start);
                    }
                }
                let moved: UnchangedRange = shifted_region(r, previous);
                proof {
                    lemma_push_ordered(before, lens, moved.sides());
                    if exact {
                        assert(contents_agree(refined.inputs(), sub[j as int]));
                    }
                }
                new_regions.push(moved);
                proof {
                    let moved_view = shift_region(sub[j as int], old_regions[w - 1]);
                    assert(regions_view(new_regions@) =~= before.push(moved_view));
                    let all = shifted_all(sub, old_regions[w - 1]);
                    assert(all.take(j + 1) =~= all.take(j as int).push(moved_view));
                    assert(head + all.take(j + 1) =~= (head + all.take(j as int)).push(moved_view));
                    if exact {
                        assert forall|i: int| 0 <= i < before.push(moved_view).len() implies contents_agree(
                            inputs,
                            #[trigger] before.push(moved_view)[i],
                        ) by {
                            if i < before.len() {
                                assert(before.push(moved_view)[i] == before[i]);
                            }
                        }
                    }
                }
                j += 1;
            }
            let ghost before = regions_view(new_regions@);
            proof {
                let last = sub.len() - 1;
                lemma_shift_region(inputs, old_regions[w - 1], old_regions[w as int], sub, last);
                assert(before.last() == shift_region(sub[last], old_regions[w - 1]));
                lemma_push_ordered(before, lens, old_regions[w as int]);
            }
            new_regions.push(current.duplicate());
            proof {
                let view = old_regions[w as int];
                assert(regions_view(new_regions@) =~= before.push(view));
                let all = shifted_all(sub, old_regions[w - 1]);
                assert(all.take(sub.len() as int) =~= all);
                lemma_spliced_step(old_regions, subs, sub, w as int);
                lemma_gap_diffs_step(&tokenizer, &&compare, inputs, old_regions, subs, sub);
                assert(before.push(view) =~= head + all + seq![view]);
                subs = subs.push(sub);
                if exact {
                    assert(contents_agree(inputs, old_regions[w as int]));
                    assert forall|i: int| 0 <= i < before.push(view).len() implies contents_agree(
                        inputs,
                        #[trigger] before.push(view)[i],
                    ) by {
                        if i < before.len() {
                            assert(before.push(view)[i] == before[i]);
                        }
                    }
                }
            }
            w += 1;
        }
        proof {
            let view = regions_view(new_regions@);
            assert forall|k: int| 0 <= k < lens.len() implies (#[trigger] view[0][k]).start == 0 by {
                assert(old_regions[0][k].start == 0);
            }
            assert forall|k: int| 0 <= k < lens.len() implies (#[trigger] view[view.len() - 1][k]).end
                == lens[k] by {
                assert(old_regions[old_regions.len() - 1][k].end == lens[k]);
            }
            lemma_spec_compact(view, lens);
            if exact {
                lemma_spec_compact_agree(inputs, view);
            }
            assert forall|i: int| 0 <= i < new_regions.len() implies (
            #[trigger] new_regions[i]).others.len() == new_regions[0].others.len() by {
                assert(region_in_bounds(view[i], lens));
                assert(region_in_bounds(view[0], lens));
                assert(view[i].len() == new_regions[i].others.len() + 1);
                assert(view[0].len() == new_regions[0].others.len() + 1);
            }
        }
        self.unchanged_regions = compact_regions(&new_regions);
        proof {
            assert(old_regions.len() == count);
            assert(is_refined(&tokenizer, &&compare, inputs, old_regions, self.regions()));
        }
    }

    /// Compares `inputs` word by word, and what differs then by the
    /// characters that belong to no word.
    ///
    /// The `inputs` is usually a changed hunk that was the output from a
    /// line-by-line diff.
    pub fn by_word(inputs: &[&'input [u8]]) -> (diff: Self)
        requires
            inputs.len() >= 1,
        ensures
            diff.wf(),
            diff.inputs() == inputs_view(inputs@),
            diff.agrees(),
            is_word_diff(inputs@, diff.regions()),
    {
        let mut diff = Diff::for_tokenizer(inputs, find_word_ranges, CompareBytesExactly);
        let ghost first = diff.regions();
        diff.refine_changed_regions(find_nonword_ranges, CompareBytesExactly);
        proof {
            assert(is_refined(
                &find_nonword_ranges,
                &&CompareBytesExactly,
                inputs_view(inputs@),
                first,
                diff.regions(),
            ));
        }
        diff
    }
}

/// The regions are those of a diff by words, refined by the characters
/// that belong to no word.
pub open spec fn is_word_diff(inputs: Seq<&[u8]>, regions: Seq<Sides>) -> bool {
    exists|first: Seq<Sides>|
        is_diff_under(&find_word_ranges, &&CompareBytesExactly, inputs, first)
            && #[trigger] is_refined(
            &find_nonword_ranges,
            &&CompareBytesExactly,
            inputs_view(inputs),
            first,
            regions,
        )
}

/// The regions are those of a diff by lines, refined by words, and then
/// by the characters that belong to no word.
pub open spec fn is_full_diff(inputs: Seq<&[u8]>, regions: Seq<Sides>) -> bool {
    exists|lines: Seq<Sides>, words: Seq<Sides>|
        is_diff_under(&find_line_ranges, &&CompareBytesExactly, inputs, lines) && #[trigger] is_refined(
            &find_word_ranges,
            &&CompareBytesExactly,
            inputs_view(inputs),
            lines,
            words,
        ) && #[trigger] is_refined(
            &find_nonword_ranges,
            &&CompareBytesExactly,
            inputs_view(inputs),
            words,
            regions,
        )
}

/// What lies between a region and a later one lies inside the inputs.
proof fn lemma_gap_in_bounds(previous: Sides, current: Sides, lens: Seq<int>)
    requires
        region_in_bounds(previous, lens),
        region_in_bounds(current, lens),
        precedes(previous, current),
    ensures
        region_in_bounds(between(previous, current), lens),
{
    let gap = between(previous, current);
    assert forall|k: int| 0 <= k < lens.len() implies (#[trigger] gap[k]).start <= gap[k].end
        <= lens[k] by {
        assert(previous[k].end <= current[k].start);
        assert(current[k].start <= current[k].end);
    }
}

/// Diffs slices of bytes: first by lines, then what differs by words, and
/// what differs then by the characters that belong to no word. The hunks may
/// be any length: many lines, or part of a line.
pub fn diff<'a>(inputs: &[&'a [u8]]) -> (hunks: Vec<DiffHunk<'a>>)
    requires
        inputs.len() >= 1,
    ensures
        exists|regions: Seq<Sides>|
            is_full_diff(inputs@, regions) && regions_ordered(
                regions,
                input_lens(inputs_view(inputs@)),
            ) && regions_compacted(regions) && regions_span(
                regions,
                input_lens(inputs_view(inputs@)),
            ) && regions_agree(inputs_view(inputs@), regions) && #[trigger] spec_hunks(
                regions,
            ).len() == hunks.len() && forall|i: int|
                0 <= i < hunks.len() ==> (#[trigger] hunks[i]).kind == spec_hunks(regions)[i].0
                    && hunk_contents_view(hunks[i].contents@) == contents_of(
                    inputs_view(inputs@),
                    spec_hunks(regions)[i].1,
                ),
{
    let mut diff = Diff::by_line(inputs);
    let ghost lines = diff.regions();
    diff.refine_changed_regions(find_word_ranges, CompareBytesExactly);
    let ghost words = diff.regions();
    diff.refine_changed_regions(find_nonword_ranges, CompareBytesExactly);
    let hunks = diff.hunks().collect_vec();
    proof {
        assert(is_refined(
            &find_word_ranges,
            &&CompareBytesExactly,
            inputs_view(inputs@),
            lines,
            words,
        ));
        assert(is_refined(
            &find_nonword_ranges,
            &&CompareBytesExactly,
            inputs_view(inputs@),
            words,
            diff.regions(),
        ));
        assert(is_full_diff(inputs@, diff.regions()));
        assert(spec_hunks(diff.regions()).len() == hunks.len());
    }
    hunks
}

/// The hunk behind the one at `i` begins, in every input, where that one
/// ends.
pub open spec fn joins_next(hunks: Seq<(DiffHunkKind, Sides)>, i: int) -> bool {
    contiguous(hunks[i].1, hunks[i + 1].1)
}

/// Each hunk begins, in every input, where the one before it ends.
pub open spec fn hunks_tile(hunks: Seq<(DiffHunkKind, Sides)>) -> bool {
    forall|i: int| 0 <= i < hunks.len() - 1 ==> #[trigger] joins_next(hunks, i)
}

/// The hunks that are still to come tile the inputs from where the last
/// hunk ended.
pub proof fn lemma_remaining_hunks_tile(
    regions: Seq<Sides>,
    lens: Seq<int>,
    p: int,
    emitted: bool,
)
    requires
        regions_ordered(regions, lens),
        0 <= p < regions.len(),
        emitted || !all_empty(regions[p]),
    ensures
        hunks_tile(remaining_hunks(regions, p, emitted)),
        remaining_hunks(regions, p, emitted).len() > 0 ==> forall|k: int|
            0 <= k < lens.len() ==> (#[trigger] remaining_hunks(regions, p, emitted)[0].1[k]).start
                == if emitted {
                regions[p][k].end
            } else {
                regions[p][k].start
            },
    decreases regions.len() - p, if emitted { 0nat } else { 1nat },
{
    let hunks = remaining_hunks(regions, p, emitted);
    assert(region_in_bounds(regions[p], lens));
    if !emitted {
        lemma_remaining_hunks_tile(regions, lens, p, true);
        let rest = remaining_hunks(regions, p, true);
        assert forall|i: int| 0 <= i < hunks.len() - 1 implies #[trigger] joins_next(hunks, i) by {
            assert(hunks[i + 1] == rest[i]);
            if i > 0 {
                assert(hunks[i] == rest[i - 1]);
                assert(joins_next(rest, i - 1));
            } else {
                assert forall|k: int| 0 <= k < hunks[0].1.len() implies (#[trigger] hunks[0].1[k]).end
                    == rest[0].1[k].start by {}
            }
        }
    } else if p + 1 < regions.len() {
        let next = regions[p + 1];
        assert(region_in_bounds(next, lens));
        lemma_remaining_hunks_tile(regions, lens, p + 1, all_empty(next));
        let rest = remaining_hunks(regions, p + 1, all_empty(next));
        assert forall|i: int| 0 <= i < hunks.len() - 1 implies #[trigger] joins_next(hunks, i) by {
            assert(hunks[i + 1] == rest[i]);
            if i > 0 {
                assert(hunks[i] == rest[i - 1]);
                assert(joins_next(rest, i - 1));
            } else {
                assert forall|k: int| 0 <= k < hunks[0].1.len() implies (#[trigger] hunks[0].1[k]).end
                    == rest[0].1[k].start by {
                    assert(rest[0].1[k].start == if all_empty(next) {
                        next[k].end
                    } else {
                        next[k].start
                    });
                    assert(hunks[0].1[k].end == next[k].start);
                }
            }
        }
    }
}

/// Of hunks that tile the inputs, an earlier one ends where a later one
/// begins, or before.
pub proof fn lemma_tiles_ascend(
    hunks: Seq<(DiffHunkKind, Sides)>,
    lens: Seq<int>,
    i: int,
    j: int,
    k: int,
)
    requires
        hunks_tile(hunks),
        hunks_in_bounds(hunks, lens),
        0 <= i < j < hunks.len(),
        0 <= k < lens.len(),
    ensures
        hunks[i].1[k].end <= hunks[j].1[k].start,
    decreases j - i,
{
    assert(joins_next(hunks, i));
    assert(region_in_bounds(hunks[i].1, lens));
    assert(region_in_bounds(hunks[i + 1].1, lens));
    assert(hunks[i].1[k].end == hunks[i + 1].1[k].start);
    if i + 1 < j {
        lemma_tiles_ascend(hunks, lens, i + 1, j, k);
        assert(hunks[i + 1].1[k].start <= hunks[i + 1].1[k].end);
    }
}

/// The hunks of a diff tile its inputs.
pub proof fn lemma_hunks_tile(diff: Diff)
    requires
        diff.wf(),
    ensures
        hunks_tile(spec_hunks(diff.regions())),
{
    let regions = diff.regions();
    lemma_remaining_hunks_tile(regions, input_lens(diff.inputs()), 0, all_empty(regions[0]));
}

impl<'input> Diff<'input> {
    /// The number of inputs that the base input is compared with.
    pub fn num_other_inputs(&self) -> (n: usize)
        ensures
            n == self.inputs().len() - 1,
    {
        self.other_inputs.len()
    }
}

} // verus!
