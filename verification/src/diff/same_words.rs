//! The unchanged words of two windows depend on the tokens only through
//! which of them are the same word: hashes that tell the same words apart
//! give the same diff.

use super::anchors::anchor_lefts;
use super::anchors::anchor_rights;
use super::anchors::is_anchor_right;
use super::anchors::is_least_shared;
use super::anchors::is_partner;
use super::anchors::is_shared;
use super::anchors::least_shared;
use super::anchors::lemma_anchor_has_partner;
use super::anchors::lemma_anchor_rights;
use super::anchors::lemma_least_shared_unique;
use super::anchors::lemma_partner_of;
use super::anchors::no_rare_word;
use super::anchors::partner_of;
use super::anchors::some_shared;
use super::anchors::spec_anchors;
use super::builder::spec_regions;
use super::compare::CompareBytes;
use super::engine::seeded_regions;
use super::regions::input_lens;
use super::source::lemma_seeded_word_eq;
use super::source::seeded_hashes;
use super::source::words_of;
use std::ops::Range;
use super::histogram::count_before;
use super::histogram::occurrence;
use super::histogram::word_count;
use super::nway::nway_unchanged;
use super::source::word_eq;
use super::source::Word;
use super::unchanged::leading_same;
use super::unchanged::stitched;
use super::unchanged::trailing_same;
use super::unchanged::trimmed;
use super::unchanged::unchanged_words;
use super::unchanged::unchanged_words_lcs;
use super::unchanged::window_start;
use vstd::prelude::*;

verus! {

/// The windows `lv` and `rv` hold the same words at the same places as the
/// windows `lw` and `rw`: two tokens of the one pair are the same word
/// exactly when the tokens at their places in the other pair are.
pub open spec fn alike<C: CompareBytes>(
    comp: &C,
    lw: Seq<Word>,
    rw: Seq<Word>,
    lv: Seq<Word>,
    rv: Seq<Word>,
) -> bool {
    &&& lw.len() == lv.len()
    &&& rw.len() == rv.len()
    &&& forall|i: int, j: int|
        0 <= i < lw.len() && 0 <= j < lw.len() ==> #[trigger] word_eq(comp, lw[i], lw[j])
            == word_eq(comp, lv[i], lv[j])
    &&& forall|i: int, j: int|
        0 <= i < lw.len() && 0 <= j < rw.len() ==> #[trigger] word_eq(comp, lw[i], rw[j])
            == word_eq(comp, lv[i], rv[j])
    &&& forall|i: int, j: int|
        0 <= i < rw.len() && 0 <= j < lw.len() ==> #[trigger] word_eq(comp, rw[i], lw[j])
            == word_eq(comp, rv[i], lv[j])
    &&& forall|i: int, j: int|
        0 <= i < rw.len() && 0 <= j < rw.len() ==> #[trigger] word_eq(comp, rw[i], rw[j])
            == word_eq(comp, rv[i], rv[j])
}

/// Windows of windows that are alike are alike.
proof fn lemma_alike_window<C: CompareBytes>(
    comp: &C,
    lw: Seq<Word>,
    rw: Seq<Word>,
    lv: Seq<Word>,
    rv: Seq<Word>,
    a: int,
    b: int,
    c: int,
    d: int,
)
    requires
        alike(comp, lw, rw, lv, rv),
        0 <= a <= b <= lw.len(),
        0 <= c <= d <= rw.len(),
    ensures
        alike(comp, lw.subrange(a, b), rw.subrange(c, d), lv.subrange(a, b), rv.subrange(c, d)),
{
    let lw1 = lw.subrange(a, b);
    let rw1 = rw.subrange(c, d);
    let lv1 = lv.subrange(a, b);
    let rv1 = rv.subrange(c, d);
    assert forall|i: int, j: int| 0 <= i < lw1.len() && 0 <= j < lw1.len() implies #[trigger] word_eq(
        comp,
        lw1[i],
        lw1[j],
    ) == word_eq(comp, lv1[i], lv1[j]) by {
        assert(word_eq(comp, lw[a + i], lw[a + j]) == word_eq(comp, lv[a + i], lv[a + j]));
    }
    assert forall|i: int, j: int| 0 <= i < lw1.len() && 0 <= j < rw1.len() implies #[trigger] word_eq(
        comp,
        lw1[i],
        rw1[j],
    ) == word_eq(comp, lv1[i], rv1[j]) by {
        assert(word_eq(comp, lw[a + i], rw[c + j]) == word_eq(comp, lv[a + i], rv[c + j]));
    }
    assert forall|i: int, j: int| 0 <= i < rw1.len() && 0 <= j < lw1.len() implies #[trigger] word_eq(
        comp,
        rw1[i],
        lw1[j],
    ) == word_eq(comp, rv1[i], lv1[j]) by {
        assert(word_eq(comp, rw[c + i], lw[a + j]) == word_eq(comp, rv[c + i], lv[a + j]));
    }
    assert forall|i: int, j: int| 0 <= i < rw1.len() && 0 <= j < rw1.len() implies #[trigger] word_eq(
        comp,
        rw1[i],
        rw1[j],
    ) == word_eq(comp, rv1[i], rv1[j]) by {
        assert(word_eq(comp, rw[c + i], rw[c + j]) == word_eq(comp, rv[c + i], rv[c + j]));
    }
}

/// Tokens that are the same word as `w` at the places at which the tokens
/// of another window are the same word as `v` are as many.
proof fn lemma_count_alike<C: CompareBytes>(
    comp: &C,
    ws: Seq<Word>,
    w: Word,
    vs: Seq<Word>,
    v: Word,
    n: int,
)
    requires
        n <= ws.len() == vs.len(),
        forall|k: int| 0 <= k < n ==> word_eq(comp, #[trigger] ws[k], w) == word_eq(comp, vs[k], v),
    ensures
        count_before(comp, ws, w, n) == count_before(comp, vs, v, n),
    decreases n,
{
    if n > 0 {
        lemma_count_alike(comp, ws, w, vs, v, n - 1);
        assert(word_eq(comp, ws[n - 1], w) == word_eq(comp, vs[n - 1], v));
    }
}

/// What the anchors are chosen by is the same in windows that are alike.
pub open spec fn counted_alike<C: CompareBytes>(
    comp: &C,
    lw: Seq<Word>,
    rw: Seq<Word>,
    lv: Seq<Word>,
    rv: Seq<Word>,
) -> bool {
    &&& forall|i: int|
        0 <= i < lw.len() ==> word_count(comp, lw, #[trigger] lw[i]) == word_count(comp, lv, lv[i])
            && word_count(comp, rw, lw[i]) == word_count(comp, rv, lv[i]) && occurrence(
            comp,
            lw,
            i,
        ) == occurrence(comp, lv, i)
    &&& forall|q: int|
        0 <= q < rw.len() ==> word_count(comp, rw, #[trigger] rw[q]) == word_count(comp, rv, rv[q])
            && word_count(comp, lw, rw[q]) == word_count(comp, lv, rv[q]) && occurrence(
            comp,
            rw,
            q,
        ) == occurrence(comp, rv, q)
}

proof fn lemma_counted_alike<C: CompareBytes>(
    comp: &C,
    lw: Seq<Word>,
    rw: Seq<Word>,
    lv: Seq<Word>,
    rv: Seq<Word>,
)
    requires
        alike(comp, lw, rw, lv, rv),
    ensures
        counted_alike(comp, lw, rw, lv, rv),
{
    assert forall|i: int| 0 <= i < lw.len() implies word_count(comp, lw, #[trigger] lw[i])
        == word_count(comp, lv, lv[i]) && word_count(comp, rw, lw[i]) == word_count(
        comp,
        rv,
        lv[i],
    ) && occurrence(comp, lw, i) == occurrence(comp, lv, i) by {
        assert forall|k: int| 0 <= k < lw.len() implies word_eq(comp, #[trigger] lw[k], lw[i])
            == word_eq(comp, lv[k], lv[i]) by {}
        assert forall|k: int| 0 <= k < rw.len() implies word_eq(comp, #[trigger] rw[k], lw[i])
            == word_eq(comp, rv[k], lv[i]) by {}
        lemma_count_alike(comp, lw, lw[i], lv, lv[i], lw.len() as int);
        lemma_count_alike(comp, rw, lw[i], rv, lv[i], rw.len() as int);
        lemma_count_alike(comp, lw, lw[i], lv, lv[i], i);
    }
    assert forall|q: int| 0 <= q < rw.len() implies word_count(comp, rw, #[trigger] rw[q])
        == word_count(comp, rv, rv[q]) && word_count(comp, lw, rw[q]) == word_count(
        comp,
        lv,
        rv[q],
    ) && occurrence(comp, rw, q) == occurrence(comp, rv, q) by {
        assert forall|k: int| 0 <= k < rw.len() implies word_eq(comp, #[trigger] rw[k], rw[q])
            == word_eq(comp, rv[k], rv[q]) by {}
        assert forall|k: int| 0 <= k < lw.len() implies word_eq(comp, #[trigger] lw[k], rw[q])
            == word_eq(comp, lv[k], rv[q]) by {}
        lemma_count_alike(comp, rw, rw[q], rv, rv[q], rw.len() as int);
        lemma_count_alike(comp, lw, rw[q], lv, rv[q], lw.len() as int);
        lemma_count_alike(comp, rw, rw[q], rv, rv[q], q);
    }
}

/// Among the words that both windows hold equally often, one is held least
/// often.
proof fn lemma_least_shared_below<C: CompareBytes>(
    comp: &C,
    lw: Seq<Word>,
    rw: Seq<Word>,
    i: int,
)
    requires
        0 <= i < lw.len(),
        is_shared(comp, lw, rw, i),
    ensures
        is_least_shared(comp, lw, rw, least_shared(comp, lw, rw)),
    decreases word_count(comp, lw, lw[i]),
{
    let c = word_count(comp, lw, lw[i]);
    if exists|j: int|
        0 <= j < lw.len() && #[trigger] is_shared(comp, lw, rw, j) && word_count(comp, lw, lw[j])
            < c {
        let j = choose|j: int|
            0 <= j < lw.len() && #[trigger] is_shared(comp, lw, rw, j) && word_count(
                comp,
                lw,
                lw[j],
            ) < c;
        lemma_least_shared_below(comp, lw, rw, j);
    } else {
        assert(is_least_shared(comp, lw, rw, c));
    }
}

/// Windows that are alike have the same anchors.
proof fn lemma_anchors_alike<C: CompareBytes>(
    comp: &C,
    lw: Seq<Word>,
    rw: Seq<Word>,
    lv: Seq<Word>,
    rv: Seq<Word>,
)
    requires
        alike(comp, lw, rw, lv, rv),
        lw.len() <= usize::MAX,
        rw.len() <= usize::MAX,
    ensures
        spec_anchors(comp, lw, rw) == spec_anchors(comp, lv, rv),
{
    lemma_counted_alike(comp, lw, rw, lv, rv);
    assert(no_rare_word(comp, lw) == no_rare_word(comp, lv)) by {
        if no_rare_word(comp, lw) {
            assert forall|i: int| 0 <= i < lv.len() implies word_count(comp, lv, #[trigger] lv[i])
                > super::histogram::MAX_OCCURRENCES by {
                assert(word_count(comp, lw, lw[i]) == word_count(comp, lv, lv[i]));
            }
        }
        if no_rare_word(comp, lv) {
            assert forall|i: int| 0 <= i < lw.len() implies word_count(comp, lw, #[trigger] lw[i])
                > super::histogram::MAX_OCCURRENCES by {
                assert(word_count(comp, lw, lw[i]) == word_count(comp, lv, lv[i]));
            }
        }
    }
    assert forall|i: int| 0 <= i < lw.len() implies #[trigger] is_shared(comp, lw, rw, i)
        == is_shared(comp, lv, rv, i) by {
        assert(word_count(comp, lw, lw[i]) == word_count(comp, lv, lv[i]));
    }
    assert(some_shared(comp, lw, rw) == some_shared(comp, lv, rv)) by {
        if some_shared(comp, lw, rw) {
            let i = choose|i: int| 0 <= i < lw.len() && #[trigger] is_shared(comp, lw, rw, i);
            assert(is_shared(comp, lv, rv, i));
        }
        if some_shared(comp, lv, rv) {
            let i = choose|i: int| 0 <= i < lv.len() && #[trigger] is_shared(comp, lv, rv, i);
            assert(is_shared(comp, lw, rw, i));
        }
    }
    if !(no_rare_word(comp, lw) || !some_shared(comp, lw, rw)) {
        let first = choose|i: int| 0 <= i < lw.len() && #[trigger] is_shared(comp, lw, rw, i);
        lemma_least_shared_below(comp, lw, rw, first);
        let c = least_shared(comp, lw, rw);
        assert(is_least_shared(comp, lv, rv, c)) by {
            let i = choose|i: int|
                0 <= i < lw.len() && #[trigger] is_shared(comp, lw, rw, i) && word_count(
                    comp,
                    lw,
                    lw[i],
                ) == c;
            assert(is_shared(comp, lv, rv, i));
            assert(word_count(comp, lw, lw[i]) == word_count(comp, lv, lv[i]));
            assert forall|j: int| 0 <= j < lv.len() && #[trigger] is_shared(
                comp,
                lv,
                rv,
                j,
            ) implies c <= word_count(comp, lv, lv[j]) by {
                assert(is_shared(comp, lw, rw, j));
                assert(word_count(comp, lw, lw[j]) == word_count(comp, lv, lv[j]));
            }
        }
        lemma_least_shared_unique(comp, lv, rv, c);
        lemma_rights_alike(comp, lw, rw, lv, rv, c, rw.len() as int);
        let rights = anchor_rights(comp, lw, rw, c, rw.len() as int);
        lemma_anchor_rights(comp, lw, rw, c, rw.len() as int);
        let lefts = anchor_lefts(comp, lw, rw, rights);
        let other_lefts = anchor_lefts(comp, lv, rv, rights);
        assert forall|m: int| 0 <= m < rights.len() implies #[trigger] lefts[m]
            == other_lefts[m] by {
            let q = rights[m] as int;
            assert(is_anchor_right(comp, lw, rw, c, q));
            lemma_anchor_has_partner(comp, lw, rw, c, q);
            let p = partner_of(comp, lw, rw, q);
            assert(is_partner(comp, lw, rw, p, q));
            assert(word_eq(comp, lw[p], rw[q]) == word_eq(comp, lv[p], rv[q]));
            assert(word_count(comp, lw, lw[p]) == word_count(comp, lv, lv[p]));
            assert(word_count(comp, rw, rw[q]) == word_count(comp, rv, rv[q]));
            assert(is_partner(comp, lv, rv, p, q));
            lemma_partner_of(comp, lv, rv, p, q);
        }
        assert(lefts =~= other_lefts);
    }
}

/// Windows that are alike pair the same right positions.
proof fn lemma_rights_alike<C: CompareBytes>(
    comp: &C,
    lw: Seq<Word>,
    rw: Seq<Word>,
    lv: Seq<Word>,
    rv: Seq<Word>,
    c: nat,
    n: int,
)
    requires
        alike(comp, lw, rw, lv, rv),
        counted_alike(comp, lw, rw, lv, rv),
        n <= rw.len(),
    ensures
        anchor_rights(comp, lw, rw, c, n) == anchor_rights(comp, lv, rv, c, n),
    decreases n,
{
    if n > 0 {
        lemma_rights_alike(comp, lw, rw, lv, rv, c, n - 1);
        assert(word_count(comp, rw, rw[n - 1]) == word_count(comp, rv, rv[n - 1]));
        assert(is_anchor_right(comp, lw, rw, c, n - 1) == is_anchor_right(comp, lv, rv, c, n - 1));
    }
}

/// Windows that are alike begin with the same number of common words.
proof fn lemma_leading_alike<C: CompareBytes>(
    comp: &C,
    lw: Seq<Word>,
    rw: Seq<Word>,
    lv: Seq<Word>,
    rv: Seq<Word>,
    k: int,
)
    requires
        alike(comp, lw, rw, lv, rv),
    ensures
        leading_same(comp, lw, rw, k) == leading_same(comp, lv, rv, k),
    decreases lw.len() - k,
{
    if 0 <= k < lw.len() && k < rw.len() {
        assert(word_eq(comp, lw[k], rw[k]) == word_eq(comp, lv[k], rv[k]));
        if word_eq(comp, lw[k], rw[k]) {
            lemma_leading_alike(comp, lw, rw, lv, rv, k + 1);
        }
    }
}

/// Windows that are alike end with the same number of common words.
proof fn lemma_trailing_alike<C: CompareBytes>(
    comp: &C,
    lw: Seq<Word>,
    rw: Seq<Word>,
    lv: Seq<Word>,
    rv: Seq<Word>,
    lead: int,
    k: int,
)
    requires
        alike(comp, lw, rw, lv, rv),
    ensures
        trailing_same(comp, lw, rw, lead, k) == trailing_same(comp, lv, rv, lead, k),
    decreases lw.len() - k,
{
    if 0 <= k && 0 <= lead && lead + k < lw.len() && lead + k < rw.len() {
        assert(word_eq(comp, lw[lw.len() - 1 - k], rw[rw.len() - 1 - k]) == word_eq(
            comp,
            lv[lv.len() - 1 - k],
            rv[rv.len() - 1 - k],
        ));
        if word_eq(comp, lw[lw.len() - 1 - k], rw[rw.len() - 1 - k]) {
            lemma_trailing_alike(comp, lw, rw, lv, rv, lead, k + 1);
        }
    }
}

/// Windows that are alike have the same unchanged words.
pub proof fn lemma_unchanged_alike<C: CompareBytes>(
    comp: &C,
    lw: Seq<Word>,
    rw: Seq<Word>,
    lv: Seq<Word>,
    rv: Seq<Word>,
)
    requires
        alike(comp, lw, rw, lv, rv),
        lw.len() <= usize::MAX,
        rw.len() <= usize::MAX,
    ensures
        unchanged_words(comp, lw, rw) == unchanged_words(comp, lv, rv),
    decreases lw.len() + rw.len(), 2nat, 0nat,
{
    if lw.len() != 0 && rw.len() != 0 {
        lemma_unchanged_lcs_alike(comp, lw, rw, lv, rv);
        lemma_leading_alike(comp, lw, rw, lv, rv, 0);
        lemma_trailing_alike(comp, lw, rw, lv, rv, leading_same(comp, lw, rw, 0) as int, 0);
        assert(trimmed(comp, lw, rw) == trimmed(comp, lv, rv));
    }
}

proof fn lemma_unchanged_lcs_alike<C: CompareBytes>(
    comp: &C,
    lw: Seq<Word>,
    rw: Seq<Word>,
    lv: Seq<Word>,
    rv: Seq<Word>,
)
    requires
        alike(comp, lw, rw, lv, rv),
        lw.len() <= usize::MAX,
        rw.len() <= usize::MAX,
    ensures
        unchanged_words_lcs(comp, lw, rw) == unchanged_words_lcs(comp, lv, rv),
    decreases lw.len() + rw.len(), 1nat, 0nat,
{
    lemma_anchors_alike(comp, lw, rw, lv, rv);
    let anchors = spec_anchors(comp, lw, rw);
    let (pl, pr) = window_start(anchors, anchors.len() as int);
    if anchors.len() > 0 && pl <= lw.len() && pr <= rw.len() {
        lemma_stitched_alike(comp, lw, rw, lv, rv, anchors, anchors.len() as int);
        lemma_alike_window(comp, lw, rw, lv, rv, pl, lw.len() as int, pr, rw.len() as int);
        lemma_unchanged_alike(
            comp,
            lw.subrange(pl, lw.len() as int),
            rw.subrange(pr, rw.len() as int),
            lv.subrange(pl, lv.len() as int),
            rv.subrange(pr, rv.len() as int),
        );
    }
}

proof fn lemma_stitched_alike<C: CompareBytes>(
    comp: &C,
    lw: Seq<Word>,
    rw: Seq<Word>,
    lv: Seq<Word>,
    rv: Seq<Word>,
    anchors: Seq<(usize, usize)>,
    k: int,
)
    requires
        alike(comp, lw, rw, lv, rv),
        lw.len() <= usize::MAX,
        rw.len() <= usize::MAX,
    ensures
        stitched(comp, lw, rw, anchors, k) == stitched(comp, lv, rv, anchors, k),
    decreases lw.len() + rw.len(), 0nat, k,
{
    if 0 < k <= anchors.len() {
        let (pl, pr) = window_start(anchors, k - 1);
        let l = anchors[k - 1].0 as int;
        let r = anchors[k - 1].1 as int;
        if pl <= l < lw.len() && pr <= r < rw.len() {
            lemma_stitched_alike(comp, lw, rw, lv, rv, anchors, k - 1);
            lemma_alike_window(comp, lw, rw, lv, rv, pl, l, pr, r);
            lemma_unchanged_alike(
                comp,
                lw.subrange(pl, l),
                rw.subrange(pr, r),
                lv.subrange(pl, l),
                rv.subrange(pr, r),
            );
        }
    }
}

/// A base input and other inputs that are alike, each other input with
/// the base, have the same words unchanged against all of them.
pub proof fn lemma_nway_alike<C: CompareBytes>(
    comp: &C,
    base: Seq<Word>,
    others: Seq<Seq<Word>>,
    other_base: Seq<Word>,
    other_others: Seq<Seq<Word>>,
    n: int,
)
    requires
        n <= others.len() == other_others.len(),
        base.len() <= usize::MAX,
        forall|k: int|
            0 <= k < others.len() ==> (#[trigger] others[k]).len() <= usize::MAX && alike(
                comp,
                base,
                others[k],
                other_base,
                other_others[k],
            ),
    ensures
        nway_unchanged(comp, base, others, n) == nway_unchanged(comp, other_base, other_others, n),
    decreases n,
{
    if n >= 1 {
        assert(others[n - 1].len() <= usize::MAX);
        lemma_unchanged_alike(comp, base, others[n - 1], other_base, other_others[n - 1]);
        if n > 1 {
            lemma_nway_alike(comp, base, others, other_base, other_others, n - 1);
        }
    }
}

/// The words that ranges cut out of a text, each hashed under the
/// comparator behind the seed.
pub open spec fn seeded_words<C: CompareBytes>(
    comp: &C,
    seed: Seq<Seq<u8>>,
    text: Seq<u8>,
    ranges: Seq<Range<usize>>,
) -> Seq<Word> {
    words_of(text, ranges, seeded_hashes(comp, seed, text, ranges))
}

/// The seeded words of each input but the first.
pub open spec fn seeded_others<C: CompareBytes>(
    comp: &C,
    seed: Seq<Seq<u8>>,
    inputs: Seq<Seq<u8>>,
    other_ranges: Seq<Seq<Range<usize>>>,
) -> Seq<Seq<Word>> {
    Seq::new(other_ranges.len(), |k: int| seeded_words(comp, seed, inputs[k + 1], other_ranges[k]))
}

/// The seeded regions are the regions of the seeded words.
pub proof fn lemma_seeded_regions<C: CompareBytes>(
    comp: &C,
    inputs: Seq<Seq<u8>>,
    base_ranges: Seq<Range<usize>>,
    other_ranges: Seq<Seq<Range<usize>>>,
    seed: Seq<Seq<u8>>,
)
    ensures
        seeded_regions(comp, inputs, base_ranges, other_ranges, seed) == spec_regions(
            comp,
            input_lens(inputs),
            base_ranges,
            other_ranges,
            seeded_words(comp, seed, inputs[0], base_ranges),
            seeded_others(comp, seed, inputs, other_ranges),
        ),
{
    let other_hashes = Seq::new(
        other_ranges.len(),
        |k: int| seeded_hashes(comp, seed, inputs[k + 1], other_ranges[k]),
    );
    let other_words = Seq::new(
        other_ranges.len(),
        |k: int| words_of(inputs[k + 1], other_ranges[k], other_hashes[k]),
    );
    assert(other_words =~= seeded_others(comp, seed, inputs, other_ranges));
}

/// Words hashed behind one seed are alike the same words hashed behind
/// another: behind either, two of them are the same word exactly when the
/// comparator finds their texts equivalent.
proof fn lemma_seeded_alike<C: CompareBytes>(
    comp: &C,
    first: Seq<Seq<u8>>,
    second: Seq<Seq<u8>>,
    left_text: Seq<u8>,
    left_ranges: Seq<Range<usize>>,
    right_text: Seq<u8>,
    right_ranges: Seq<Range<usize>>,
)
    ensures
        alike(
            comp,
            seeded_words(comp, first, left_text, left_ranges),
            seeded_words(comp, first, right_text, right_ranges),
            seeded_words(comp, second, left_text, left_ranges),
            seeded_words(comp, second, right_text, right_ranges),
        ),
{
    let lw = seeded_words(comp, first, left_text, left_ranges);
    let rw = seeded_words(comp, first, right_text, right_ranges);
    let lv = seeded_words(comp, second, left_text, left_ranges);
    let rv = seeded_words(comp, second, right_text, right_ranges);
    assert forall|i: int, j: int| 0 <= i < lw.len() && 0 <= j < lw.len() implies #[trigger] word_eq(
        comp,
        lw[i],
        lw[j],
    ) == word_eq(comp, lv[i], lv[j]) by {
        lemma_seeded_word_eq(comp, first, lw[i].text, lw[j].text);
        lemma_seeded_word_eq(comp, second, lw[i].text, lw[j].text);
    }
    assert forall|i: int, j: int| 0 <= i < lw.len() && 0 <= j < rw.len() implies #[trigger] word_eq(
        comp,
        lw[i],
        rw[j],
    ) == word_eq(comp, lv[i], rv[j]) by {
        lemma_seeded_word_eq(comp, first, lw[i].text, rw[j].text);
        lemma_seeded_word_eq(comp, second, lw[i].text, rw[j].text);
    }
    assert forall|i: int, j: int| 0 <= i < rw.len() && 0 <= j < lw.len() implies #[trigger] word_eq(
        comp,
        rw[i],
        lw[j],
    ) == word_eq(comp, rv[i], lv[j]) by {
        lemma_seeded_word_eq(comp, first, rw[i].text, lw[j].text);
        lemma_seeded_word_eq(comp, second, rw[i].text, lw[j].text);
    }
    assert forall|i: int, j: int| 0 <= i < rw.len() && 0 <= j < rw.len() implies #[trigger] word_eq(
        comp,
        rw[i],
        rw[j],
    ) == word_eq(comp, rv[i], rv[j]) by {
        lemma_seeded_word_eq(comp, first, rw[i].text, rw[j].text);
        lemma_seeded_word_eq(comp, second, rw[i].text, rw[j].text);
    }
}

/// The unchanged regions of tokenized inputs do not depend on the seed
/// that the tokens are hashed behind: they are the same behind every
/// seed.
pub proof fn lemma_regions_under_every_seed<C: CompareBytes>(
    comp: &C,
    inputs: Seq<Seq<u8>>,
    base_ranges: Seq<Range<usize>>,
    other_ranges: Seq<Seq<Range<usize>>>,
    first: Seq<Seq<u8>>,
    second: Seq<Seq<u8>>,
)
    requires
        base_ranges.len() <= usize::MAX,
        forall|k: int| 0 <= k < other_ranges.len() ==> (#[trigger] other_ranges[k]).len() <= usize::MAX,
    ensures
        seeded_regions(comp, inputs, base_ranges, other_ranges, first) == seeded_regions(
            comp,
            inputs,
            base_ranges,
            other_ranges,
            second,
        ),
{
    lemma_seeded_regions(comp, inputs, base_ranges, other_ranges, first);
    lemma_seeded_regions(comp, inputs, base_ranges, other_ranges, second);
    let base = seeded_words(comp, first, inputs[0], base_ranges);
    let others = seeded_others(comp, first, inputs, other_ranges);
    let other_base = seeded_words(comp, second, inputs[0], base_ranges);
    let other_others = seeded_others(comp, second, inputs, other_ranges);
    assert forall|k: int| 0 <= k < others.len() implies (#[trigger] others[k]).len() <= usize::MAX
        && alike(comp, base, others[k], other_base, other_others[k]) by {
        assert(others[k].len() == other_ranges[k].len());
        lemma_seeded_alike(
            comp,
            first,
            second,
            inputs[0],
            base_ranges,
            inputs[k + 1],
            other_ranges[k],
        );
    }
    lemma_nway_alike(comp, base, others, other_base, other_others, others.len() as int);
}

} // verus!
