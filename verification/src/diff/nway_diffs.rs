//! Diffs of the same inputs under one tokenizer and one comparator: what a
//! diff of several inputs finds unchanged, a diff of fewer of them finds
//! unchanged too.

use super::builder::end_region;
use super::builder::initial_regions;
use super::builder::lemma_initial_ordered;
use super::builder::spec_regions;
use super::builder::tokens_wf;
use super::builder::zero_region;
use super::compare::CompareBytes;
use super::engine::inputs_view;
use super::engine::remaining_hunks;
use super::engine::spec_hunks;
use super::engine::DiffHunkKind;
use super::regions::all_empty;
use super::regions::regions_ordered;
use super::nway_regions::within_region;
use super::engine::is_diff_under;
use super::engine::is_tokenized;
use super::engine::is_tokenizer;
use super::engine::ranges_view;
use super::engine::seeded_regions;
use super::nway::lemma_nway_matching;
use super::nway::nway_unchanged;
use super::nway_regions::in_some;
use super::nway_regions::lemma_compact_covers;
use super::nway_regions::lemma_compact_selected;
use super::nway_regions::lemma_nway_regions_in_fewer;
use super::nway_regions::lemma_nway_regions_in_pairwise;
use super::nway_regions::pair_sides;
use super::nway_regions::selected;
use super::nway_regions::selects;
use super::nway_regions::sides_without;
use super::regions::input_lens;
use super::regions::lemma_spec_compact;
use super::regions::precedes_next;
use super::regions::region_in_bounds;
use super::regions::spec_compact;
use super::regions::Sides;
use super::same_words::lemma_regions_under_every_seed;
use super::same_words::lemma_seeded_regions;
use super::same_words::seeded_others;
use super::same_words::seeded_words;
use super::source::ranges_in_bounds;
use super::source::ranges_ordered;
use super::source::Word;
use std::ops::Range;
use vstd::prelude::*;

verus! {

/// The tokenizer cuts a text in one way only.
pub open spec fn cuts_one_way<F: Fn(&[u8]) -> Vec<Range<usize>>>(tokenizer: &F) -> bool {
    forall|text: &[u8], first: Vec<Range<usize>>, second: Vec<Range<usize>>|
        #![trigger call_ensures(*tokenizer, (text,), first), call_ensures(*tokenizer, (text,), second)]
        call_ensures(*tokenizer, (text,), first) && call_ensures(*tokenizer, (text,), second)
            ==> first@ == second@
}

/// There are token ranges for each input, inside it and ascending, and
/// neither the inputs nor their tokens are more than a machine counts.
pub open spec fn tokens_in(
    inputs: Seq<Seq<u8>>,
    base_ranges: Seq<Range<usize>>,
    other_ranges: Seq<Seq<Range<usize>>>,
) -> bool {
    &&& inputs.len() == other_ranges.len() + 1
    &&& forall|k: int| 0 <= k < inputs.len() ==> (#[trigger] inputs[k]).len() <= usize::MAX
    &&& base_ranges.len() <= usize::MAX
    &&& ranges_in_bounds(base_ranges, inputs[0].len() as int)
    &&& ranges_ordered(base_ranges)
    &&& forall|k: int|
        0 <= k < other_ranges.len() ==> (#[trigger] other_ranges[k]).len() <= usize::MAX
            && ranges_in_bounds(other_ranges[k], inputs[k + 1].len() as int) && ranges_ordered(
            other_ranges[k],
        )
}

proof fn lemma_seeded_tokens<C: CompareBytes>(
    comp: &C,
    inputs: Seq<Seq<u8>>,
    base_ranges: Seq<Range<usize>>,
    other_ranges: Seq<Seq<Range<usize>>>,
    seed: Seq<Seq<u8>>,
)
    requires
        tokens_in(inputs, base_ranges, other_ranges),
    ensures
        tokens_wf(
            input_lens(inputs),
            base_ranges,
            other_ranges,
            seeded_words(comp, seed, inputs[0], base_ranges),
            seeded_others(comp, seed, inputs, other_ranges),
        ),
{
    let lens = input_lens(inputs);
    let words = seeded_others(comp, seed, inputs, other_ranges);
    assert forall|k: int| 0 <= k < lens.len() implies 0 <= #[trigger] lens[k] <= usize::MAX by {
        assert(inputs[k].len() <= usize::MAX);
    }
    assert forall|k: int| 0 <= k < other_ranges.len() implies words[k].len()
        == (#[trigger] other_ranges[k]).len() <= usize::MAX && ranges_in_bounds(
        other_ranges[k],
        lens[k + 1],
    ) && ranges_ordered(other_ranges[k]) by {}
}

/// Each unchanged region of a diff of a base input and several other
/// inputs lies, in the base and in the other input `k`, inside an
/// unchanged region of the diff of these two alone, whatever the seeds
/// that the two diffs hash their tokens behind.
pub proof fn lemma_seeded_in_pairwise<C: CompareBytes>(
    comp: &C,
    inputs: Seq<Seq<u8>>,
    base_ranges: Seq<Range<usize>>,
    other_ranges: Seq<Seq<Range<usize>>>,
    k: int,
    seed: Seq<Seq<u8>>,
    pair_seed: Seq<Seq<u8>>,
)
    requires
        tokens_in(inputs, base_ranges, other_ranges),
        other_ranges.len() >= 2,
        0 <= k < other_ranges.len(),
    ensures
        forall|u: int|
            0 <= u < seeded_regions(comp, inputs, base_ranges, other_ranges, seed).len() ==> in_some(
                selected(
                    #[trigger] seeded_regions(comp, inputs, base_ranges, other_ranges, seed)[u],
                    pair_sides(k),
                ),
                seeded_regions(
                    comp,
                    seq![inputs[0], inputs[k + 1]],
                    base_ranges,
                    seq![other_ranges[k]],
                    pair_seed,
                ),
            ),
{
    let pair = seq![inputs[0], inputs[k + 1]];
    let one = seq![other_ranges[k]];
    let lens = input_lens(inputs);
    let base_words = seeded_words(comp, seed, inputs[0], base_ranges);
    let other_words = seeded_others(comp, seed, inputs, other_ranges);
    lemma_seeded_tokens(comp, inputs, base_ranges, other_ranges, seed);
    lemma_seeded_regions(comp, inputs, base_ranges, other_ranges, seed);
    lemma_nway_regions_in_pairwise(
        comp,
        lens,
        base_ranges,
        other_ranges,
        base_words,
        other_words,
        k,
    );
    assert(one[0].len() <= usize::MAX) by {
        assert(other_ranges[k].len() <= usize::MAX);
    }
    lemma_regions_under_every_seed(comp, pair, base_ranges, one, pair_seed, seed);
    lemma_seeded_regions(comp, pair, base_ranges, one, seed);
    assert(input_lens(pair) =~= seq![lens[0], lens[k + 1]]);
    assert(seeded_others(comp, seed, pair, one) =~= seq![other_words[k]]);
}

/// Each unchanged region of a diff of a base input and several other
/// inputs lies, on the sides that are left, inside an unchanged region of
/// the diff without one of the other inputs, whatever the seeds that the
/// two diffs hash their tokens behind.
pub proof fn lemma_seeded_in_fewer<C: CompareBytes>(
    comp: &C,
    inputs: Seq<Seq<u8>>,
    base_ranges: Seq<Range<usize>>,
    other_ranges: Seq<Seq<Range<usize>>>,
    left_out: int,
    seed: Seq<Seq<u8>>,
    fewer_seed: Seq<Seq<u8>>,
)
    requires
        tokens_in(inputs, base_ranges, other_ranges),
        other_ranges.len() >= 2,
        0 <= left_out < other_ranges.len(),
    ensures
        forall|u: int|
            0 <= u < seeded_regions(comp, inputs, base_ranges, other_ranges, seed).len() ==> in_some(
                selected(
                    #[trigger] seeded_regions(comp, inputs, base_ranges, other_ranges, seed)[u],
                    sides_without(inputs.len() as int, left_out),
                ),
                seeded_regions(
                    comp,
                    inputs.remove(left_out + 1),
                    base_ranges,
                    other_ranges.remove(left_out),
                    fewer_seed,
                ),
            ),
{
    let fewer = inputs.remove(left_out + 1);
    let fewer_ranges = other_ranges.remove(left_out);
    let lens = input_lens(inputs);
    let base_words = seeded_words(comp, seed, inputs[0], base_ranges);
    let other_words = seeded_others(comp, seed, inputs, other_ranges);
    lemma_seeded_tokens(comp, inputs, base_ranges, other_ranges, seed);
    lemma_seeded_regions(comp, inputs, base_ranges, other_ranges, seed);
    lemma_nway_regions_in_fewer(
        comp,
        lens,
        base_ranges,
        other_ranges,
        base_words,
        other_words,
        left_out,
    );
    assert forall|q: int| 0 <= q < fewer_ranges.len() implies (#[trigger] fewer_ranges[q]).len()
        <= usize::MAX by {
        if q < left_out {
            assert(fewer_ranges[q] == other_ranges[q]);
        } else {
            assert(fewer_ranges[q] == other_ranges[q + 1]);
        }
    }
    lemma_regions_under_every_seed(comp, fewer, base_ranges, fewer_ranges, fewer_seed, seed);
    lemma_seeded_regions(comp, fewer, base_ranges, fewer_ranges, seed);
    assert(input_lens(fewer) =~= lens.remove(left_out + 1));
    assert(fewer[0] == inputs[0]);
    assert(seeded_others(comp, seed, fewer, fewer_ranges) =~= other_words.remove(left_out)) by {
        let few = seeded_others(comp, seed, fewer, fewer_ranges);
        let rest = other_words.remove(left_out);
        assert(few.len() == rest.len());
        assert forall|q: int| 0 <= q < few.len() implies few[q] == rest[q] by {
            if q < left_out {
                assert(fewer[q + 1] == inputs[q + 1]);
                assert(fewer_ranges[q] == other_ranges[q]);
                assert(rest[q] == other_words[q]);
            } else {
                assert(fewer[q + 1] == inputs[q + 2]);
                assert(fewer_ranges[q] == other_ranges[q + 1]);
                assert(rest[q] == other_words[q + 1]);
            }
        }
    }
}

/// The unchanged regions of inputs whose base has no token are the two
/// ends; on any sides, they lie inside the unchanged regions of any diff
/// of these sides.
proof fn lemma_tokenless_in_any<C: CompareBytes>(
    comp: &C,
    lens: Seq<int>,
    base_ranges: Seq<Range<usize>>,
    other_ranges: Seq<Seq<Range<usize>>>,
    base_words: Seq<Word>,
    other_words: Seq<Seq<Word>>,
    selection: Seq<int>,
    few_lens: Seq<int>,
    few_base_ranges: Seq<Range<usize>>,
    few_ranges: Seq<Seq<Range<usize>>>,
    few_base_words: Seq<Word>,
    few_words: Seq<Seq<Word>>,
)
    requires
        tokens_wf(lens, base_ranges, other_ranges, base_words, other_words),
        other_ranges.len() >= 1,
        base_ranges.len() == 0,
        selects(selection, lens.len() as int),
        few_lens == Seq::new(selection.len(), |s: int| lens[selection[s]]),
        tokens_wf(few_lens, few_base_ranges, few_ranges, few_base_words, few_words),
        few_ranges.len() >= 1,
    ensures
        forall|u: int|
            0 <= u < spec_regions(
                comp,
                lens,
                base_ranges,
                other_ranges,
                base_words,
                other_words,
            ).len() ==> in_some(
                selected(
                    #[trigger] spec_regions(
                        comp,
                        lens,
                        base_ranges,
                        other_ranges,
                        base_words,
                        other_words,
                    )[u],
                    selection,
                ),
                spec_regions(
                    comp,
                    few_lens,
                    few_base_ranges,
                    few_ranges,
                    few_base_words,
                    few_words,
                ),
            ),
{
    let n = other_ranges.len() as int;
    let m = few_ranges.len() as int;
    let joined = nway_unchanged(comp, base_words, other_words, n);
    let few_joined = nway_unchanged(comp, few_base_words, few_words, m);
    assert forall|q: int| 0 <= q < other_words.len() implies (#[trigger] other_words[q]).len()
        <= usize::MAX by {
        assert(other_words[q].len() == other_ranges[q].len());
    }
    assert forall|q: int| 0 <= q < few_words.len() implies (#[trigger] few_words[q]).len()
        <= usize::MAX by {
        assert(few_words[q].len() == few_ranges[q].len());
    }
    lemma_nway_matching(comp, base_words, other_words, n);
    lemma_nway_matching(comp, few_base_words, few_words, m);
    if joined.len() > 0 {
        assert(0 <= joined[0].0 < base_words.len());
    }
    lemma_initial_ordered(comp, lens, base_ranges, other_ranges, base_words, other_words, joined);
    lemma_initial_ordered(
        comp,
        few_lens,
        few_base_ranges,
        few_ranges,
        few_base_words,
        few_words,
        few_joined,
    );
    let all = initial_regions(lens, base_ranges, other_ranges, joined);
    let few_all = initial_regions(few_lens, few_base_ranges, few_ranges, few_joined);
    lemma_spec_compact(few_all, few_lens);
    let list = spec_compact(few_all);
    assert(region_in_bounds(few_all[0], few_lens));
    if few_all.len() > 1 {
        assert(precedes_next(few_all, 0));
    }
    lemma_compact_covers(few_all, few_lens, 1, few_all[0]);
    assert(in_some(few_all[0], list));
    assert(all.len() == 2);
    assert forall|t: int| 0 <= t < all.len() implies in_some(
        selected(#[trigger] all[t], selection),
        list,
    ) by {
        let x = selected(all[t], selection);
        if t == 0 {
            assert(all[0] == zero_region(lens.len()));
            assert(few_all[0] == zero_region(few_lens.len()));
            assert(x =~= few_all[0]);
        } else {
            assert(all[1] == end_region(lens));
            assert(few_all[few_all.len() - 1] == end_region(few_lens));
            assert(x =~= few_all[few_all.len() - 1]);
        }
    }
    assert(region_in_bounds(all[0], lens));
    assert(precedes_next(all, 0));
    lemma_compact_selected(all, lens, 1, all[0], selection, list, few_lens);
}

/// The token ranges that a tokenizer cuts inputs into are token ranges as
/// a diff asks for them.
pub proof fn lemma_tokenized_in<F: Fn(&[u8]) -> Vec<Range<usize>>>(
    tokenizer: &F,
    inputs: Seq<&[u8]>,
    base_ranges: Vec<Range<usize>>,
    other_ranges: Seq<Vec<Range<usize>>>,
)
    requires
        is_tokenizer(tokenizer),
        inputs.len() >= 1,
        is_tokenized(tokenizer, inputs, base_ranges, other_ranges),
    ensures
        tokens_in(inputs_view(inputs), base_ranges@, ranges_view(other_ranges)),
{
    let texts = inputs_view(inputs);
    let others = ranges_view(other_ranges);
    assert(base_ranges@.len() == base_ranges.len());
    assert forall|k: int| 0 <= k < texts.len() implies (#[trigger] texts[k]).len()
        <= usize::MAX by {
        assert(inputs[k]@.len() == inputs[k].len());
    }
    assert(texts[0].len() == inputs[0].len()) by {
        assert(inputs[0]@.len() == inputs[0].len());
    }
    assert forall|k: int| 0 <= k < others.len() implies (#[trigger] others[k]).len() <= usize::MAX
        && ranges_in_bounds(others[k], texts[k + 1].len() as int) && ranges_ordered(
        others[k],
    ) by {
        assert(others[k] == other_ranges[k]@);
        assert(other_ranges[k]@.len() == other_ranges[k].len());
        assert(texts[k + 1] == inputs[k + 1]@);
        assert(inputs[k + 1]@.len() == inputs[k + 1].len());
        if call_ensures(*tokenizer, (inputs[k + 1],), other_ranges[k]) {
        }
    }
}

/// Whether some text of the list is empty.
pub open spec fn some_empty(inputs: Seq<&[u8]>) -> bool {
    exists|k: int| 0 <= k < inputs.len() && (#[trigger] inputs[k]).len() == 0
}

/// A diff of a base input and several other inputs finds unchanged only
/// what the diff of the base and one of the others finds unchanged, made
/// with the same tokenizer and under the same comparator: each unchanged
/// region of the first lies, in the base and in that other input, inside
/// an unchanged region of the second.
pub proof fn lemma_diff_in_pairwise<F: Fn(&[u8]) -> Vec<Range<usize>>, C: CompareBytes>(
    tokenizer: &F,
    compare: &C,
    inputs: Seq<&[u8]>,
    regions: Seq<Sides>,
    k: int,
    pair_regions: Seq<Sides>,
)
    requires
        is_tokenizer(tokenizer),
        cuts_one_way(tokenizer),
        inputs.len() >= 3,
        0 <= k < inputs.len() - 1,
        is_diff_under(tokenizer, compare, inputs, regions),
        is_diff_under(tokenizer, compare, seq![inputs[0], inputs[k + 1]], pair_regions),
    ensures
        forall|u: int|
            0 <= u < regions.len() ==> in_some(
                selected(#[trigger] regions[u], pair_sides(k)),
                pair_regions,
            ),
{
    let pair = seq![inputs[0], inputs[k + 1]];
    let (base_ranges, other_ranges, seed) = choose|
        base_ranges: Vec<Range<usize>>,
        other_ranges: Seq<Vec<Range<usize>>>,
        seed: Seq<Seq<u8>>,
    |
        is_tokenized(tokenizer, inputs, base_ranges, other_ranges) && regions
            == #[trigger] seeded_regions(
            compare,
            inputs_view(inputs),
            base_ranges@,
            ranges_view(other_ranges),
            seed,
        );
    let (pair_base, pair_other, pair_seed) = choose|
        pair_base: Vec<Range<usize>>,
        pair_other: Seq<Vec<Range<usize>>>,
        pair_seed: Seq<Seq<u8>>,
    |
        is_tokenized(tokenizer, pair, pair_base, pair_other) && pair_regions
            == #[trigger] seeded_regions(
            compare,
            inputs_view(pair),
            pair_base@,
            ranges_view(pair_other),
            pair_seed,
        );
    let texts = inputs_view(inputs);
    let ranges = ranges_view(other_ranges);
    lemma_tokenized_in(tokenizer, inputs, base_ranges, other_ranges);
    lemma_tokenized_in(tokenizer, pair, pair_base, pair_other);
    assert(inputs_view(pair) =~= seq![texts[0], texts[k + 1]]);
    if some_empty(inputs) {
        let lens = input_lens(texts);
        let selection = pair_sides(k);
        lemma_seeded_tokens(compare, texts, base_ranges@, ranges, seed);
        lemma_seeded_tokens(
            compare,
            inputs_view(pair),
            pair_base@,
            ranges_view(pair_other),
            pair_seed,
        );
        lemma_seeded_regions(compare, texts, base_ranges@, ranges, seed);
        lemma_seeded_regions(
            compare,
            inputs_view(pair),
            pair_base@,
            ranges_view(pair_other),
            pair_seed,
        );
        assert(input_lens(inputs_view(pair)) =~= Seq::new(
            selection.len(),
            |s: int| lens[selection[s]],
        ));
        lemma_tokenless_in_any(
            compare,
            lens,
            base_ranges@,
            ranges,
            seeded_words(compare, seed, texts[0], base_ranges@),
            seeded_others(compare, seed, texts, ranges),
            selection,
            input_lens(inputs_view(pair)),
            pair_base@,
            ranges_view(pair_other),
            seeded_words(compare, pair_seed, inputs_view(pair)[0], pair_base@),
            seeded_others(compare, pair_seed, inputs_view(pair), ranges_view(pair_other)),
        );
    } else {
        if some_empty(pair) {
            let j = choose|j: int| 0 <= j < pair.len() && (#[trigger] pair[j]).len() == 0;
            if j == 0 {
                assert(inputs[0].len() == 0);
            } else {
                assert(inputs[k + 1].len() == 0);
            }
        }
        assert(pair[0] == inputs[0]);
        assert(pair[1] == inputs[k + 1]);
        assert(call_ensures(*tokenizer, (inputs[0],), base_ranges));
        assert(call_ensures(*tokenizer, (inputs[0],), pair_base));
        assert(call_ensures(*tokenizer, (inputs[k + 1],), other_ranges[k]));
        assert(call_ensures(*tokenizer, (pair[0int + 1],), pair_other[0]));
        assert(pair_base@ == base_ranges@);
        assert(pair_other[0]@ == other_ranges[k]@);
        assert(ranges_view(pair_other) =~= seq![ranges[k]]);
        lemma_seeded_in_pairwise(compare, texts, base_ranges@, ranges, k, seed, pair_seed);
    }
}

/// A diff of a base input and several other inputs finds unchanged only
/// what the diff without one of the other inputs finds unchanged, made
/// with the same tokenizer and under the same comparator: each unchanged
/// region of the first lies, on the sides that are left, inside an
/// unchanged region of the second. To leave an input out only lets what is
/// unchanged grow.
pub proof fn lemma_diff_in_fewer<F: Fn(&[u8]) -> Vec<Range<usize>>, C: CompareBytes>(
    tokenizer: &F,
    compare: &C,
    inputs: Seq<&[u8]>,
    regions: Seq<Sides>,
    left_out: int,
    fewer_regions: Seq<Sides>,
)
    requires
        is_tokenizer(tokenizer),
        cuts_one_way(tokenizer),
        inputs.len() >= 3,
        0 <= left_out < inputs.len() - 1,
        is_diff_under(tokenizer, compare, inputs, regions),
        is_diff_under(tokenizer, compare, inputs.remove(left_out + 1), fewer_regions),
    ensures
        forall|u: int|
            0 <= u < regions.len() ==> in_some(
                selected(#[trigger] regions[u], sides_without(inputs.len() as int, left_out)),
                fewer_regions,
            ),
{
    let fewer = inputs.remove(left_out + 1);
    let (base_ranges, other_ranges, seed) = choose|
        base_ranges: Vec<Range<usize>>,
        other_ranges: Seq<Vec<Range<usize>>>,
        seed: Seq<Seq<u8>>,
    |
        is_tokenized(tokenizer, inputs, base_ranges, other_ranges) && regions
            == #[trigger] seeded_regions(
            compare,
            inputs_view(inputs),
            base_ranges@,
            ranges_view(other_ranges),
            seed,
        );
    let (few_base, few_other, few_seed) = choose|
        few_base: Vec<Range<usize>>,
        few_other: Seq<Vec<Range<usize>>>,
        few_seed: Seq<Seq<u8>>,
    |
        is_tokenized(tokenizer, fewer, few_base, few_other) && fewer_regions
            == #[trigger] seeded_regions(
            compare,
            inputs_view(fewer),
            few_base@,
            ranges_view(few_other),
            few_seed,
        );
    let texts = inputs_view(inputs);
    let ranges = ranges_view(other_ranges);
    lemma_tokenized_in(tokenizer, inputs, base_ranges, other_ranges);
    lemma_tokenized_in(tokenizer, fewer, few_base, few_other);
    assert(inputs_view(fewer) =~= texts.remove(left_out + 1)) by {
        let few = inputs_view(fewer);
        let rest = texts.remove(left_out + 1);
        assert(few.len() == rest.len());
        assert forall|q: int| 0 <= q < few.len() implies few[q] == rest[q] by {
            if q < left_out + 1 {
                assert(fewer[q] == inputs[q]);
            } else {
                assert(fewer[q] == inputs[q + 1]);
            }
        }
    }
    if some_empty(inputs) {
        let lens = input_lens(texts);
        let selection = sides_without(inputs.len() as int, left_out);
        lemma_seeded_tokens(compare, texts, base_ranges@, ranges, seed);
        lemma_seeded_tokens(
            compare,
            inputs_view(fewer),
            few_base@,
            ranges_view(few_other),
            few_seed,
        );
        lemma_seeded_regions(compare, texts, base_ranges@, ranges, seed);
        lemma_seeded_regions(
            compare,
            inputs_view(fewer),
            few_base@,
            ranges_view(few_other),
            few_seed,
        );
        assert(input_lens(inputs_view(fewer)) =~= Seq::new(
            selection.len(),
            |s: int| lens[selection[s]],
        ));
        lemma_tokenless_in_any(
            compare,
            lens,
            base_ranges@,
            ranges,
            seeded_words(compare, seed, texts[0], base_ranges@),
            seeded_others(compare, seed, texts, ranges),
            selection,
            input_lens(inputs_view(fewer)),
            few_base@,
            ranges_view(few_other),
            seeded_words(compare, few_seed, inputs_view(fewer)[0], few_base@),
            seeded_others(compare, few_seed, inputs_view(fewer), ranges_view(few_other)),
        );
    } else {
        if some_empty(fewer) {
            let j = choose|j: int| 0 <= j < fewer.len() && (#[trigger] fewer[j]).len() == 0;
            if j < left_out + 1 {
                assert(inputs[j].len() == 0);
            } else {
                assert(inputs[j + 1].len() == 0);
            }
        }
        assert(fewer[0] == inputs[0]);
        assert(call_ensures(*tokenizer, (inputs[0],), base_ranges));
        assert(call_ensures(*tokenizer, (inputs[0],), few_base));
        assert(few_base@ == base_ranges@);
        assert(ranges_view(few_other) =~= ranges.remove(left_out)) by {
            let few = ranges_view(few_other);
            let rest = ranges.remove(left_out);
            assert(few.len() == rest.len());
            assert forall|q: int| 0 <= q < few.len() implies few[q] == rest[q] by {
                assert(call_ensures(*tokenizer, (fewer[q + 1],), few_other[q]));
                if q < left_out {
                    assert(fewer[q + 1] == inputs[q + 1]);
                    assert(call_ensures(*tokenizer, (inputs[q + 1],), other_ranges[q]));
                    assert(few_other[q]@ == other_ranges[q]@);
                    assert(rest[q] == ranges[q]);
                } else {
                    assert(fewer[q + 1] == inputs[q + 2]);
                    assert(call_ensures(*tokenizer, (inputs[q + 1 + 1],), other_ranges[q + 1]));
                    assert(few_other[q]@ == other_ranges[q + 1]@);
                    assert(rest[q] == ranges[q + 1]);
                }
            }
        }
        lemma_seeded_in_fewer(compare, texts, base_ranges@, ranges, left_out, seed, few_seed);
    }
}

/// The unchanged regions of a diff of two or more inputs lie inside the
/// inputs and ascend on every side.
pub proof fn lemma_diff_regions_ordered<F: Fn(&[u8]) -> Vec<Range<usize>>, C: CompareBytes>(
    tokenizer: &F,
    compare: &C,
    inputs: Seq<&[u8]>,
    regions: Seq<Sides>,
)
    requires
        is_tokenizer(tokenizer),
        inputs.len() >= 2,
        is_diff_under(tokenizer, compare, inputs, regions),
    ensures
        regions_ordered(regions, input_lens(inputs_view(inputs))),
{
    let (base_ranges, other_ranges, seed) = choose|
        base_ranges: Vec<Range<usize>>,
        other_ranges: Seq<Vec<Range<usize>>>,
        seed: Seq<Seq<u8>>,
    |
        is_tokenized(tokenizer, inputs, base_ranges, other_ranges) && regions
            == #[trigger] seeded_regions(
            compare,
            inputs_view(inputs),
            base_ranges@,
            ranges_view(other_ranges),
            seed,
        );
    let texts = inputs_view(inputs);
    let ranges = ranges_view(other_ranges);
    let lens = input_lens(texts);
    let base_words = seeded_words(compare, seed, texts[0], base_ranges@);
    let other_words = seeded_others(compare, seed, texts, ranges);
    let n = ranges.len() as int;
    lemma_tokenized_in(tokenizer, inputs, base_ranges, other_ranges);
    lemma_seeded_tokens(compare, texts, base_ranges@, ranges, seed);
    lemma_seeded_regions(compare, texts, base_ranges@, ranges, seed);
    assert forall|q: int| 0 <= q < other_words.len() implies (#[trigger] other_words[q]).len()
        <= usize::MAX by {
        assert(other_words[q].len() == ranges[q].len());
    }
    lemma_nway_matching(compare, base_words, other_words, n);
    let joined = nway_unchanged(compare, base_words, other_words, n);
    lemma_initial_ordered(compare, lens, base_ranges@, ranges, base_words, other_words, joined);
    lemma_spec_compact(initial_regions(lens, base_ranges@, ranges, joined), lens);
}

/// The hunk at `j` is a matching hunk with the ranges `ranges`.
pub open spec fn is_matching_hunk(hunks: Seq<(DiffHunkKind, Sides)>, j: int, ranges: Sides) -> bool {
    0 <= j < hunks.len() && hunks[j] == (DiffHunkKind::Matching, ranges)
}

/// A matching hunk is an unchanged region.
proof fn lemma_hunk_is_region(regions: Seq<Sides>, p: int, emitted: bool, i: int)
    requires
        0 <= i < remaining_hunks(regions, p, emitted).len(),
        remaining_hunks(regions, p, emitted)[i].0 == DiffHunkKind::Matching,
    ensures
        exists|u: int|
            0 <= u < regions.len() && #[trigger] regions[u] == remaining_hunks(
                regions,
                p,
                emitted,
            )[i].1,
    decreases regions.len() - p, if emitted { 0nat } else { 1nat },
{
    if 0 <= p < regions.len() {
        if !emitted {
            if i == 0 {
                assert(regions[p] == remaining_hunks(regions, p, emitted)[i].1);
            } else {
                assert(remaining_hunks(regions, p, emitted)[i] == remaining_hunks(
                    regions,
                    p,
                    true,
                )[i - 1]);
                lemma_hunk_is_region(regions, p, true, i - 1);
            }
        } else if p + 1 < regions.len() {
            let next = all_empty(regions[p + 1]);
            assert(i > 0);
            assert(remaining_hunks(regions, p, emitted)[i] == remaining_hunks(
                regions,
                p + 1,
                next,
            )[i - 1]);
            lemma_hunk_is_region(regions, p + 1, next, i - 1);
        }
    }
}

/// An unchanged region that is not empty in every input is a matching
/// hunk.
proof fn lemma_region_is_hunk(regions: Seq<Sides>, p: int, emitted: bool, u: int)
    requires
        0 <= p <= u < regions.len(),
        !all_empty(regions[u]),
        u == p ==> !emitted,
    ensures
        exists|j: int| #[trigger] is_matching_hunk(remaining_hunks(regions, p, emitted), j, regions[u]),
    decreases regions.len() - p, if emitted { 0nat } else { 1nat },
{
    let hunks = remaining_hunks(regions, p, emitted);
    if !emitted {
        if u == p {
            assert(is_matching_hunk(hunks, 0, regions[u]));
        } else {
            lemma_region_is_hunk(regions, p, true, u);
            let rest = remaining_hunks(regions, p, true);
            let j = choose|j: int| #[trigger] is_matching_hunk(rest, j, regions[u]);
            assert(hunks[j + 1] == rest[j]);
            assert(is_matching_hunk(hunks, j + 1, regions[u]));
        }
    } else {
        let next = all_empty(regions[p + 1]);
        lemma_region_is_hunk(regions, p + 1, next, u);
        let rest = remaining_hunks(regions, p + 1, next);
        let j = choose|j: int| #[trigger] is_matching_hunk(rest, j, regions[u]);
        assert(hunks[j + 1] == rest[j]);
        assert(is_matching_hunk(hunks, j + 1, regions[u]));
    }
}

/// A matching hunk of a diff of a base input and several other inputs
/// lies, in the base and in the other input `k`, inside a matching hunk of
/// the diff of these two alone, made with the same tokenizer and under the
/// same comparator; unless the hunk is empty in both of them.
pub proof fn lemma_matching_hunk_in_pairwise<F: Fn(&[u8]) -> Vec<Range<usize>>, C: CompareBytes>(
    tokenizer: &F,
    compare: &C,
    inputs: Seq<&[u8]>,
    regions: Seq<Sides>,
    k: int,
    pair_regions: Seq<Sides>,
    i: int,
)
    requires
        is_tokenizer(tokenizer),
        cuts_one_way(tokenizer),
        inputs.len() >= 3,
        0 <= k < inputs.len() - 1,
        is_diff_under(tokenizer, compare, inputs, regions),
        is_diff_under(tokenizer, compare, seq![inputs[0], inputs[k + 1]], pair_regions),
        0 <= i < spec_hunks(regions).len(),
        spec_hunks(regions)[i].0 == DiffHunkKind::Matching,
    ensures
        all_empty(selected(spec_hunks(regions)[i].1, pair_sides(k))) || exists|j: int, inside: Sides|
            #[trigger] is_matching_hunk(spec_hunks(pair_regions), j, inside) && within_region(
                selected(spec_hunks(regions)[i].1, pair_sides(k)),
                inside,
            ),
{
    let m = spec_hunks(regions)[i].1;
    let x = selected(m, pair_sides(k));
    lemma_hunk_is_region(regions, 0, all_empty(regions[0]), i);
    let u = choose|u: int| 0 <= u < regions.len() && #[trigger] regions[u] == m;
    lemma_diff_in_pairwise(tokenizer, compare, inputs, regions, k, pair_regions);
    assert(in_some(selected(regions[u], pair_sides(k)), pair_regions));
    let v = choose|v: int| 0 <= v < pair_regions.len() && within_region(x, #[trigger] pair_regions[v]);
    let inside = pair_regions[v];
    if all_empty(inside) {
        lemma_diff_regions_ordered(tokenizer, compare, inputs, regions);
        assert(region_in_bounds(regions[u], input_lens(inputs_view(inputs))));
        assert forall|s: int| 0 <= s < x.len() implies (#[trigger] x[s]).start == x[s].end by {
            assert(inside[s].start == inside[s].end);
            assert(x[s] == m[pair_sides(k)[s]]);
            assert(m[pair_sides(k)[s]].start <= m[pair_sides(k)[s]].end);
        }
    } else {
        lemma_region_is_hunk(pair_regions, 0, all_empty(pair_regions[0]), v);
        let j = choose|j: int| #[trigger] is_matching_hunk(spec_hunks(pair_regions), j, inside);
        assert(is_matching_hunk(spec_hunks(pair_regions), j, inside) && within_region(x, inside));
    }
}

/// The byte at `at` of the base input lies in a matching hunk of the
/// regions.
pub open spec fn base_unchanged(regions: Seq<Sides>, at: int) -> bool {
    exists|j: int, ranges: Sides| #[trigger]
        is_matching_hunk(spec_hunks(regions), j, ranges) && ranges.len() >= 1 && ranges[0].start
            <= at < ranges[0].end
}

/// A byte of the base input that a diff of the base and several other
/// inputs finds unchanged is found unchanged by the diff without one of
/// the other inputs, made with the same tokenizer and under the same
/// comparator: to leave an input out never makes less unchanged.
pub proof fn lemma_unchanged_without_input<F: Fn(&[u8]) -> Vec<Range<usize>>, C: CompareBytes>(
    tokenizer: &F,
    compare: &C,
    inputs: Seq<&[u8]>,
    regions: Seq<Sides>,
    left_out: int,
    fewer_regions: Seq<Sides>,
    at: int,
)
    requires
        is_tokenizer(tokenizer),
        cuts_one_way(tokenizer),
        inputs.len() >= 3,
        0 <= left_out < inputs.len() - 1,
        is_diff_under(tokenizer, compare, inputs, regions),
        is_diff_under(tokenizer, compare, inputs.remove(left_out + 1), fewer_regions),
        base_unchanged(regions, at),
    ensures
        base_unchanged(fewer_regions, at),
{
    let (i, m) = choose|i: int, m: Sides| #[trigger]
        is_matching_hunk(spec_hunks(regions), i, m) && m.len() >= 1 && m[0].start <= at
            < m[0].end;
    let selection = sides_without(inputs.len() as int, left_out);
    let x = selected(m, selection);
    lemma_hunk_is_region(regions, 0, all_empty(regions[0]), i);
    let u = choose|u: int| 0 <= u < regions.len() && #[trigger] regions[u] == m;
    lemma_diff_in_fewer(tokenizer, compare, inputs, regions, left_out, fewer_regions);
    assert(in_some(selected(regions[u], selection), fewer_regions));
    let v = choose|v: int|
        0 <= v < fewer_regions.len() && within_region(x, #[trigger] fewer_regions[v]);
    let inside = fewer_regions[v];
    assert(x[0] == m[0]);
    assert(inside[0].start <= x[0].start && x[0].end <= inside[0].end);
    assert(!all_empty(inside));
    lemma_region_is_hunk(fewer_regions, 0, all_empty(fewer_regions[0]), v);
    let j = choose|j: int| #[trigger] is_matching_hunk(spec_hunks(fewer_regions), j, inside);
    assert(is_matching_hunk(spec_hunks(fewer_regions), j, inside) && inside.len() >= 1
        && inside[0].start <= at < inside[0].end);
}

/// A byte of the base input that a diff of the base and several other
/// inputs finds unchanged is found unchanged by the diff of the base and
/// any one of the others, made with the same tokenizer and under the same
/// comparator.
pub proof fn lemma_unchanged_in_pairwise<F: Fn(&[u8]) -> Vec<Range<usize>>, C: CompareBytes>(
    tokenizer: &F,
    compare: &C,
    inputs: Seq<&[u8]>,
    regions: Seq<Sides>,
    k: int,
    pair_regions: Seq<Sides>,
    at: int,
)
    requires
        is_tokenizer(tokenizer),
        cuts_one_way(tokenizer),
        inputs.len() >= 3,
        0 <= k < inputs.len() - 1,
        is_diff_under(tokenizer, compare, inputs, regions),
        is_diff_under(tokenizer, compare, seq![inputs[0], inputs[k + 1]], pair_regions),
        base_unchanged(regions, at),
    ensures
        base_unchanged(pair_regions, at),
{
    let (i, m) = choose|i: int, m: Sides| #[trigger]
        is_matching_hunk(spec_hunks(regions), i, m) && m.len() >= 1 && m[0].start <= at
            < m[0].end;
    let x = selected(m, pair_sides(k));
    lemma_matching_hunk_in_pairwise(tokenizer, compare, inputs, regions, k, pair_regions, i);
    assert(x[0] == m[0]);
    assert(!all_empty(x));
    let (j, inside) = choose|j: int, inside: Sides| #[trigger]
        is_matching_hunk(spec_hunks(pair_regions), j, inside) && within_region(x, inside);
    assert(inside[0].start <= x[0].start && x[0].end <= inside[0].end);
    assert(is_matching_hunk(spec_hunks(pair_regions), j, inside) && inside.len() >= 1
        && inside[0].start <= at < inside[0].end);
}

} // verus!
