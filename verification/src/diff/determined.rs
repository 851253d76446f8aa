//! A diff is a function of the texts it compares: the seed that it
//! draws for its hashes does not show in its result, nor does where the
//! texts are held.

use super::compare::CompareBytes;
use super::compare::CompareBytesExactly;
use super::engine::contents_of;
use super::engine::inputs_view;
use super::engine::is_diff_under;
use super::engine::is_full_diff;
use super::engine::is_gap_diff;
use super::engine::is_refined;
use super::engine::is_tokenized;
use super::engine::is_tokenizer;
use super::engine::is_word_diff;
use super::engine::are_gap_diffs;
use super::engine::ranges_view;
use super::engine::seeded_regions;
use super::nway_diffs::cuts_one_way;
use super::nway_diffs::lemma_tokenized_in;
use super::nway_diffs::some_empty;
use super::regions::Sides;
use super::same_words::lemma_regions_under_every_seed;
use super::source::ranges_in_bounds;
use super::source::ranges_ordered;
use super::tokens::find_line_ranges;
use super::tokens::find_nonword_ranges;
use super::tokens::find_word_ranges;
use super::tokens::lemma_line_split_unique;
use super::tokens::lemma_line_split_valid;
use super::tokens::lemma_nonword_split_unique;
use super::tokens::lemma_word_split_unique;
use std::ops::Range;
use vstd::prelude::*;

verus! {

/// What the tokenizer cuts a text into depends on the bytes of the text
/// alone.
pub open spec fn cuts_by_text<F: Fn(&[u8]) -> Vec<Range<usize>>>(tokenizer: &F) -> bool {
    forall|text: &[u8], again: &[u8], first: Vec<Range<usize>>, second: Vec<Range<usize>>|
        #![trigger call_ensures(*tokenizer, (text,), first), call_ensures(*tokenizer, (again,), second)]
        text@ == again@ && call_ensures(*tokenizer, (text,), first) && call_ensures(
            *tokenizer,
            (again,),
            second,
        ) ==> first@ == second@
}

/// A tokenizer that cuts by the bytes of a text alone cuts a text in one
/// way only.
pub proof fn lemma_by_text_one_way<F: Fn(&[u8]) -> Vec<Range<usize>>>(tokenizer: &F)
    requires
        cuts_by_text(tokenizer),
    ensures
        cuts_one_way(tokenizer),
{
}

/// The line tokenizer is a tokenizer as a diff asks for one, and cuts by
/// the bytes of a text alone.
pub proof fn lemma_lines_cut_by_text()
    ensures
        is_tokenizer(&find_line_ranges),
        cuts_by_text(&find_line_ranges),
        cuts_one_way(&find_line_ranges),
{
    assert forall|text: &[u8], ranges: Vec<Range<usize>>| #[trigger]
        call_ensures(find_line_ranges, (text,), ranges) implies ranges_in_bounds(
        ranges@,
        text.len() as int,
    ) && ranges_ordered(ranges@) by {
        lemma_line_split_valid(text@, ranges@);
    }
    assert forall|text: &[u8], again: &[u8], first: Vec<Range<usize>>, second: Vec<Range<usize>>|
        #![trigger call_ensures(find_line_ranges, (text,), first), call_ensures(find_line_ranges, (again,), second)]
        text@ == again@ && call_ensures(find_line_ranges, (text,), first) && call_ensures(
            find_line_ranges,
            (again,),
            second,
        ) implies first@ == second@ by {
        lemma_line_split_unique(text@, first@, second@);
    }
    lemma_by_text_one_way(&find_line_ranges);
}

/// The word tokenizer is a tokenizer as a diff asks for one, and cuts by
/// the bytes of a text alone.
pub proof fn lemma_words_cut_by_text()
    ensures
        is_tokenizer(&find_word_ranges),
        cuts_by_text(&find_word_ranges),
        cuts_one_way(&find_word_ranges),
{
    assert forall|text: &[u8], again: &[u8], first: Vec<Range<usize>>, second: Vec<Range<usize>>|
        #![trigger call_ensures(find_word_ranges, (text,), first), call_ensures(find_word_ranges, (again,), second)]
        text@ == again@ && call_ensures(find_word_ranges, (text,), first) && call_ensures(
            find_word_ranges,
            (again,),
            second,
        ) implies first@ == second@ by {
        lemma_word_split_unique(text@, first@, second@);
    }
    lemma_by_text_one_way(&find_word_ranges);
}

/// The tokenizer of the bytes that belong to no word is a tokenizer as a
/// diff asks for one, and cuts by the bytes of a text alone.
pub proof fn lemma_nonwords_cut_by_text()
    ensures
        is_tokenizer(&find_nonword_ranges),
        cuts_by_text(&find_nonword_ranges),
        cuts_one_way(&find_nonword_ranges),
{
    assert forall|text: &[u8], again: &[u8], first: Vec<Range<usize>>, second: Vec<Range<usize>>|
        #![trigger call_ensures(find_nonword_ranges, (text,), first), call_ensures(find_nonword_ranges, (again,), second)]
        text@ == again@ && call_ensures(find_nonword_ranges, (text,), first) && call_ensures(
            find_nonword_ranges,
            (again,),
            second,
        ) implies first@ == second@ by {
        lemma_nonword_split_unique(text@, first@, second@);
    }
    lemma_by_text_one_way(&find_nonword_ranges);
}

/// Two diffs of the same texts, made with the same tokenizer and under the
/// same comparator, have the same unchanged regions.
pub proof fn lemma_diff_is_determined<F: Fn(&[u8]) -> Vec<Range<usize>>, C: CompareBytes>(
    tokenizer: &F,
    compare: &C,
    inputs: Seq<&[u8]>,
    again: Seq<&[u8]>,
    first: Seq<Sides>,
    second: Seq<Sides>,
)
    requires
        is_tokenizer(tokenizer),
        cuts_by_text(tokenizer),
        inputs_view(inputs) == inputs_view(again),
        is_diff_under(tokenizer, compare, inputs, first),
        is_diff_under(tokenizer, compare, again, second),
    ensures
        first == second,
{
    let (base_ranges, other_ranges, seed) = choose|
        base_ranges: Vec<Range<usize>>,
        other_ranges: Seq<Vec<Range<usize>>>,
        seed: Seq<Seq<u8>>,
    |
        is_tokenized(tokenizer, inputs, base_ranges, other_ranges) && first
            == #[trigger] seeded_regions(
            compare,
            inputs_view(inputs),
            base_ranges@,
            ranges_view(other_ranges),
            seed,
        );
    let (again_base, again_other, again_seed) = choose|
        again_base: Vec<Range<usize>>,
        again_other: Seq<Vec<Range<usize>>>,
        again_seed: Seq<Seq<u8>>,
    |
        is_tokenized(tokenizer, again, again_base, again_other) && second
            == #[trigger] seeded_regions(
            compare,
            inputs_view(again),
            again_base@,
            ranges_view(again_other),
            again_seed,
        );
    let texts = inputs_view(inputs);
    let ranges = ranges_view(other_ranges);
    let again_ranges = ranges_view(again_other);
    assert(inputs.len() == again.len()) by {
        assert(inputs_view(inputs).len() == inputs.len());
        assert(inputs_view(again).len() == again.len());
    }
    assert(inputs.len() >= 1);
    assert forall|k: int| 0 <= k < inputs.len() implies (#[trigger] inputs[k])@ == again[k]@
        && inputs[k].len() == again[k].len() by {
        assert(inputs_view(inputs)[k] == inputs[k]@);
        assert(inputs_view(again)[k] == again[k]@);
        assert(inputs[k]@.len() == inputs[k].len());
        assert(again[k]@.len() == again[k].len());
    }
    assert(some_empty(inputs) == some_empty(again)) by {
        if some_empty(inputs) {
            let k = choose|k: int| 0 <= k < inputs.len() && (#[trigger] inputs[k]).len() == 0;
            assert(again[k].len() == 0);
        }
        if some_empty(again) {
            let k = choose|k: int| 0 <= k < again.len() && (#[trigger] again[k]).len() == 0;
            assert(inputs[k].len() == again[k].len());
            assert(inputs[k].len() == 0);
        }
    }
    lemma_tokenized_in(tokenizer, inputs, base_ranges, other_ranges);
    assert(again_ranges.len() == ranges.len());
    if some_empty(inputs) {
        assert(again_base@ =~= base_ranges@);
        assert forall|q: int| 0 <= q < ranges.len() implies again_ranges[q] == ranges[q] by {
            assert(again_other[q]@.len() == 0);
            assert(other_ranges[q]@.len() == 0);
            assert(again_other[q]@ =~= other_ranges[q]@);
        }
    } else {
        assert(call_ensures(*tokenizer, (inputs[0],), base_ranges));
        assert(call_ensures(*tokenizer, (again[0],), again_base));
        assert(inputs[0]@ == again[0]@);
        assert forall|q: int| 0 <= q < ranges.len() implies again_ranges[q] == ranges[q] by {
            assert(call_ensures(*tokenizer, (inputs[q + 1],), other_ranges[q]));
            assert(call_ensures(*tokenizer, (again[q + 1],), again_other[q]));
            assert(inputs[q + 1]@ == again[q + 1]@);
        }
    }
    assert(again_ranges =~= ranges);
    lemma_regions_under_every_seed(compare, texts, base_ranges@, ranges, seed, again_seed);
}

/// What lies between two regions has one diff.
proof fn lemma_gap_diff_is_determined<F: Fn(&[u8]) -> Vec<Range<usize>>, C: CompareBytes>(
    tokenizer: &F,
    compare: &C,
    inputs: Seq<Seq<u8>>,
    previous: Sides,
    current: Sides,
    first: Seq<Sides>,
    second: Seq<Sides>,
)
    requires
        is_tokenizer(tokenizer),
        cuts_by_text(tokenizer),
        is_gap_diff(tokenizer, compare, inputs, previous, current, first),
        is_gap_diff(tokenizer, compare, inputs, previous, current, second),
    ensures
        first == second,
{
    let gap = contents_of(inputs, super::regions::between(previous, current));
    let parts = choose|parts: Seq<&[u8]>|
        inputs_view(parts) == gap && #[trigger] is_diff_under(tokenizer, compare, parts, first);
    let again = choose|again: Seq<&[u8]>|
        inputs_view(again) == gap && #[trigger] is_diff_under(tokenizer, compare, again, second);
    lemma_diff_is_determined(tokenizer, compare, parts, again, first, second);
}

/// Regions are refined in one way.
pub proof fn lemma_refined_is_determined<F: Fn(&[u8]) -> Vec<Range<usize>>, C: CompareBytes>(
    tokenizer: &F,
    compare: &C,
    inputs: Seq<Seq<u8>>,
    old_regions: Seq<Sides>,
    first: Seq<Sides>,
    second: Seq<Sides>,
)
    requires
        is_tokenizer(tokenizer),
        cuts_by_text(tokenizer),
        is_refined(tokenizer, compare, inputs, old_regions, first),
        is_refined(tokenizer, compare, inputs, old_regions, second),
    ensures
        first == second,
{
    let subs = choose|subs: Seq<Seq<Sides>>|
        subs.len() == old_regions.len() - 1 && #[trigger] are_gap_diffs(
            tokenizer,
            compare,
            inputs,
            old_regions,
            subs,
        ) && first == super::regions::spec_compact(
            super::engine::spliced(old_regions, subs, old_regions.len() as int),
        );
    let again = choose|again: Seq<Seq<Sides>>|
        again.len() == old_regions.len() - 1 && #[trigger] are_gap_diffs(
            tokenizer,
            compare,
            inputs,
            old_regions,
            again,
        ) && second == super::regions::spec_compact(
            super::engine::spliced(old_regions, again, old_regions.len() as int),
        );
    assert forall|w: int| 0 <= w < subs.len() implies subs[w] == again[w] by {
        assert(is_gap_diff(
            tokenizer,
            compare,
            inputs,
            old_regions[w],
            old_regions[w + 1],
            subs[w],
        ));
        assert(is_gap_diff(
            tokenizer,
            compare,
            inputs,
            old_regions[w],
            old_regions[w + 1],
            again[w],
        ));
        lemma_gap_diff_is_determined(
            tokenizer,
            compare,
            inputs,
            old_regions[w],
            old_regions[w + 1],
            subs[w],
            again[w],
        );
    }
    assert(subs =~= again);
}

/// Texts have one diff by words.
pub proof fn lemma_word_diff_is_determined(inputs: Seq<&[u8]>, first: Seq<Sides>, second: Seq<Sides>)
    requires
        is_word_diff(inputs, first),
        is_word_diff(inputs, second),
    ensures
        first == second,
{
    lemma_words_cut_by_text();
    lemma_nonwords_cut_by_text();
    let words = choose|words: Seq<Sides>|
        is_diff_under(&find_word_ranges, &&CompareBytesExactly, inputs, words)
            && #[trigger] is_refined(
            &find_nonword_ranges,
            &&CompareBytesExactly,
            inputs_view(inputs),
            words,
            first,
        );
    let again = choose|again: Seq<Sides>|
        is_diff_under(&find_word_ranges, &&CompareBytesExactly, inputs, again)
            && #[trigger] is_refined(
            &find_nonword_ranges,
            &&CompareBytesExactly,
            inputs_view(inputs),
            again,
            second,
        );
    lemma_diff_is_determined(&find_word_ranges, &&CompareBytesExactly, inputs, inputs, words, again);
    lemma_refined_is_determined(
        &find_nonword_ranges,
        &&CompareBytesExactly,
        inputs_view(inputs),
        words,
        first,
        second,
    );
}

/// Texts have one diff by lines, words and the bytes between words.
pub proof fn lemma_full_diff_is_determined(inputs: Seq<&[u8]>, first: Seq<Sides>, second: Seq<Sides>)
    requires
        is_full_diff(inputs, first),
        is_full_diff(inputs, second),
    ensures
        first == second,
{
    lemma_lines_cut_by_text();
    lemma_words_cut_by_text();
    lemma_nonwords_cut_by_text();
    let (lines, words) = choose|lines: Seq<Sides>, words: Seq<Sides>|
        is_diff_under(&find_line_ranges, &&CompareBytesExactly, inputs, lines) && #[trigger] is_refined(
            &find_word_ranges,
            &&CompareBytesExactly,
            inputs_view(inputs),
            lines,
            words,
        ) && #[trigger] is_refined(
            &find_nonword_ranges,
            &&CompareBytesExactly,
            inputs_view(inputs),
            words,
            first,
        );
    let (again_lines, again_words) = choose|again_lines: Seq<Sides>, again_words: Seq<Sides>|
        is_diff_under(&find_line_ranges, &&CompareBytesExactly, inputs, again_lines)
            && #[trigger] is_refined(
            &find_word_ranges,
            &&CompareBytesExactly,
            inputs_view(inputs),
            again_lines,
            again_words,
        ) && #[trigger] is_refined(
            &find_nonword_ranges,
            &&CompareBytesExactly,
            inputs_view(inputs),
            again_words,
            second,
        );
    lemma_diff_is_determined(
        &find_line_ranges,
        &&CompareBytesExactly,
        inputs,
        inputs,
        lines,
        again_lines,
    );
    lemma_refined_is_determined(
        &find_word_ranges,
        &&CompareBytesExactly,
        inputs_view(inputs),
        lines,
        words,
        again_words,
    );
    lemma_refined_is_determined(
        &find_nonword_ranges,
        &&CompareBytesExactly,
        inputs_view(inputs),
        words,
        first,
        second,
    );
}

} // verus!
