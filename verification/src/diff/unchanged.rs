//! The unchanged words of two windows: anchors first, then what is unchanged
//! between them; where there is no anchor, the common words at both ends.

use super::anchors::find_anchors;
use super::anchors::is_matching;
use super::anchors::lemma_anchors_match;
use super::anchors::spec_anchors;
use super::compare::CompareBytes;
use super::compare::WordComparator;
use super::source::same_word;
use super::source::word_eq;
use super::source::LocalDiffSource;
use super::source::Word;
use vstd::prelude::*;

verus! {

/// Pairs of positions as pairs of integers.
pub open spec fn pairs_view(pairs: Seq<(usize, usize)>) -> Seq<(int, int)> {
    Seq::new(pairs.len(), |m: int| (pairs[m].0 as int, pairs[m].1 as int))
}

/// The pairs moved by `dl` in the left and `dr` in the right window.
pub open spec fn shifted(pairs: Seq<(int, int)>, dl: int, dr: int) -> Seq<(int, int)> {
    Seq::new(pairs.len(), |m: int| (pairs[m].0 + dl, pairs[m].1 + dr))
}

/// Each pair lies in the given bounds of the left and the right window.
pub open spec fn within(pairs: Seq<(int, int)>, lo_l: int, hi_l: int, lo_r: int, hi_r: int) -> bool {
    forall|m: int|
        0 <= m < pairs.len() ==> lo_l <= (#[trigger] pairs[m]).0 < hi_l && lo_r <= pairs[m].1
            < hi_r
}

/// The pairs ascend strictly in both windows.
pub open spec fn ascending(pairs: Seq<(int, int)>) -> bool {
    forall|i: int, j: int|
        0 <= i < j < pairs.len() ==> (#[trigger] pairs[i]).0 < (#[trigger] pairs[j]).0
            && pairs[i].1 < pairs[j].1
}

/// Each pair joins two tokens that are the same word.
pub open spec fn joins_equal<C: CompareBytes>(
    comp: &C,
    lw: Seq<Word>,
    rw: Seq<Word>,
    pairs: Seq<(int, int)>,
) -> bool {
    forall|m: int|
        0 <= m < pairs.len() ==> word_eq(comp, lw[(#[trigger] pairs[m]).0], rw[pairs[m].1])
}

/// The pairs are a matching of the two windows: inside them, ascending in
/// both, and joining equal words only.
pub open spec fn matching<C: CompareBytes>(
    comp: &C,
    lw: Seq<Word>,
    rw: Seq<Word>,
    pairs: Seq<(int, int)>,
) -> bool {
    &&& within(pairs, 0, lw.len() as int, 0, rw.len() as int)
    &&& ascending(pairs)
    &&& joins_equal(comp, lw, rw, pairs)
}

/// The number of places from `k` on at which both windows hold the same
/// word, up to the first at which they do not.
pub open spec fn leading_same<C: CompareBytes>(comp: &C, lw: Seq<Word>, rw: Seq<Word>, k: int) -> nat
    decreases lw.len() - k,
{
    if 0 <= k < lw.len() && k < rw.len() && word_eq(comp, lw[k], rw[k]) {
        1 + leading_same(comp, lw, rw, k + 1)
    } else {
        0
    }
}

/// The number of places, counted from the end and from the `k`-th last on,
/// at which both windows hold the same word, up to the first at which they do
/// not, and leaving out the first `lead` places of each window.
pub open spec fn trailing_same<C: CompareBytes>(
    comp: &C,
    lw: Seq<Word>,
    rw: Seq<Word>,
    lead: int,
    k: int,
) -> nat
    decreases lw.len() - k,
{
    if 0 <= k && 0 <= lead && lead + k < lw.len() && lead + k < rw.len() && word_eq(
        comp,
        lw[lw.len() - 1 - k],
        rw[rw.len() - 1 - k],
    ) {
        1 + trailing_same(comp, lw, rw, lead, k + 1)
    } else {
        0
    }
}

/// The common words at the start of both windows, then those at their ends.
pub open spec fn trimmed<C: CompareBytes>(comp: &C, lw: Seq<Word>, rw: Seq<Word>) -> Seq<(int, int)> {
    let lead = leading_same(comp, lw, rw, 0) as int;
    let trail = trailing_same(comp, lw, rw, lead, 0) as int;
    Seq::new(lead as nat, |i: int| (i, i)) + Seq::new(
        trail as nat,
        |i: int| (lw.len() - trail + i, rw.len() - trail + i),
    )
}

/// Where the window behind the first `k` anchors begins.
pub open spec fn window_start(anchors: Seq<(usize, usize)>, k: int) -> (int, int) {
    if 0 < k <= anchors.len() {
        (anchors[k - 1].0 + 1, anchors[k - 1].1 + 1)
    } else {
        (0, 0)
    }
}

/// The unchanged words of two windows, as pairs of positions in the windows.
pub open spec fn unchanged_words<C: CompareBytes>(comp: &C, lw: Seq<Word>, rw: Seq<Word>) -> Seq<
    (int, int),
>
    decreases lw.len() + rw.len(), 2nat, 0nat,
{
    if lw.len() == 0 || rw.len() == 0 {
        Seq::empty()
    } else {
        let by_anchors = unchanged_words_lcs(comp, lw, rw);
        if by_anchors.len() != 0 {
            by_anchors
        } else {
            trimmed(comp, lw, rw)
        }
    }
}

/// The anchors of two windows together with the unchanged words between
/// them, before the first and behind the last; empty if there is no anchor.
pub open spec fn unchanged_words_lcs<C: CompareBytes>(
    comp: &C,
    lw: Seq<Word>,
    rw: Seq<Word>,
) -> Seq<(int, int)>
    decreases lw.len() + rw.len(), 1nat, 0nat,
{
    let anchors = spec_anchors(comp, lw, rw);
    let (pl, pr) = window_start(anchors, anchors.len() as int);
    if anchors.len() > 0 && pl <= lw.len() && pr <= rw.len() {
        stitched(comp, lw, rw, anchors, anchors.len() as int) + shifted(
            unchanged_words(
                comp,
                lw.subrange(pl, lw.len() as int),
                rw.subrange(pr, rw.len() as int),
            ),
            pl,
            pr,
        )
    } else {
        Seq::empty()
    }
}

/// The first `k` anchors, each behind the unchanged words of the window
/// before it.
pub open spec fn stitched<C: CompareBytes>(
    comp: &C,
    lw: Seq<Word>,
    rw: Seq<Word>,
    anchors: Seq<(usize, usize)>,
    k: int,
) -> Seq<(int, int)>
    decreases lw.len() + rw.len(), 0nat, k,
{
    if 0 < k <= anchors.len() {
        let (pl, pr) = window_start(anchors, k - 1);
        let l = anchors[k - 1].0 as int;
        let r = anchors[k - 1].1 as int;
        if pl <= l < lw.len() && pr <= r < rw.len() {
            stitched(comp, lw, rw, anchors, k - 1) + shifted(
                unchanged_words(comp, lw.subrange(pl, l), rw.subrange(pr, r)),
                pl,
                pr,
            ).push((l, r))
        } else {
            Seq::empty()
        }
    } else {
        Seq::empty()
    }
}

/// Two matchings, the first wholly before the second, make a matching.
pub proof fn lemma_matching_concat<C: CompareBytes>(
    comp: &C,
    lw: Seq<Word>,
    rw: Seq<Word>,
    a: Seq<(int, int)>,
    b: Seq<(int, int)>,
    mid_l: int,
    mid_r: int,
)
    requires
        matching(comp, lw, rw, a),
        matching(comp, lw, rw, b),
        within(a, 0, mid_l, 0, mid_r),
        within(b, mid_l, lw.len() as int, mid_r, rw.len() as int),
    ensures
        matching(comp, lw, rw, a + b),
{
    let all = a + b;
    assert forall|m: int| 0 <= m < all.len() implies 0 <= (#[trigger] all[m]).0 < lw.len() && 0
        <= all[m].1 < rw.len() && word_eq(comp, lw[all[m].0], rw[all[m].1]) by {
        if m < a.len() {
            assert(all[m] == a[m]);
        } else {
            assert(all[m] == b[m - a.len()]);
        }
    }
    assert forall|i: int, j: int| 0 <= i < j < all.len() implies (#[trigger] all[i]).0 < (
    #[trigger] all[j]).0 && all[i].1 < all[j].1 by {
        if j < a.len() {
            assert(all[i] == a[i] && all[j] == a[j]);
        } else if i < a.len() {
            assert(all[i] == a[i] && all[j] == b[j - a.len()]);
        } else {
            assert(all[i] == b[i - a.len()] && all[j] == b[j - a.len()]);
        }
    }
}

/// A matching of two inner windows is, moved to where the inner windows
/// begin, a matching of the outer windows that stays inside the inner ones.
pub proof fn lemma_matching_shift<C: CompareBytes>(
    comp: &C,
    lw: Seq<Word>,
    rw: Seq<Word>,
    pairs: Seq<(int, int)>,
    pl: int,
    l: int,
    pr: int,
    r: int,
)
    requires
        0 <= pl <= l <= lw.len(),
        0 <= pr <= r <= rw.len(),
        matching(comp, lw.subrange(pl, l), rw.subrange(pr, r), pairs),
    ensures
        matching(comp, lw, rw, shifted(pairs, pl, pr)),
        within(shifted(pairs, pl, pr), pl, l, pr, r),
{
    let moved = shifted(pairs, pl, pr);
    assert forall|m: int| 0 <= m < moved.len() implies pl <= (#[trigger] moved[m]).0 < l && pr
        <= moved[m].1 < r && word_eq(comp, lw[moved[m].0], rw[moved[m].1]) by {
        assert(0 <= pairs[m].0 < l - pl && 0 <= pairs[m].1 < r - pr);
        assert(lw.subrange(pl, l)[pairs[m].0] == lw[moved[m].0]);
        assert(rw.subrange(pr, r)[pairs[m].1] == rw[moved[m].1]);
    }
    assert forall|i: int, j: int| 0 <= i < j < moved.len() implies (#[trigger] moved[i]).0 < (
    #[trigger] moved[j]).0 && moved[i].1 < moved[j].1 by {
        assert(pairs[i].0 < pairs[j].0 && pairs[i].1 < pairs[j].1);
    }
}

pub proof fn lemma_leading_same<C: CompareBytes>(comp: &C, lw: Seq<Word>, rw: Seq<Word>, k: int)
    requires
        0 <= k,
    ensures
        k + leading_same(comp, lw, rw, k) <= lw.len() || leading_same(comp, lw, rw, k) == 0,
        k + leading_same(comp, lw, rw, k) <= rw.len() || leading_same(comp, lw, rw, k) == 0,
        forall|i: int|
            k <= i < k + leading_same(comp, lw, rw, k) ==> word_eq(comp, #[trigger] lw[i], rw[i]),
    decreases lw.len() - k,
{
    if 0 <= k < lw.len() && k < rw.len() && word_eq(comp, lw[k], rw[k]) {
        lemma_leading_same(comp, lw, rw, k + 1);
    }
}

pub proof fn lemma_trailing_same<C: CompareBytes>(
    comp: &C,
    lw: Seq<Word>,
    rw: Seq<Word>,
    lead: int,
    k: int,
)
    requires
        0 <= k,
        0 <= lead,
    ensures
        lead + k + trailing_same(comp, lw, rw, lead, k) <= lw.len() || trailing_same(
            comp,
            lw,
            rw,
            lead,
            k,
        ) == 0,
        lead + k + trailing_same(comp, lw, rw, lead, k) <= rw.len() || trailing_same(
            comp,
            lw,
            rw,
            lead,
            k,
        ) == 0,
        forall|i: int|
            k <= i < k + trailing_same(comp, lw, rw, lead, k) ==> word_eq(
                comp,
                #[trigger] lw[lw.len() - 1 - i],
                rw[rw.len() - 1 - i],
            ),
    decreases lw.len() - k,
{
    if lead + k < lw.len() && lead + k < rw.len() && word_eq(
        comp,
        lw[lw.len() - 1 - k],
        rw[rw.len() - 1 - k],
    ) {
        lemma_trailing_same(comp, lw, rw, lead, k + 1);
        assert forall|i: int|
            k <= i < k + trailing_same(comp, lw, rw, lead, k) implies word_eq(
            comp,
            #[trigger] lw[lw.len() - 1 - i],
            rw[rw.len() - 1 - i],
        ) by {
            if i > k {
            }
        }
    }
}

/// The common words at both ends are a matching.
pub proof fn lemma_trimmed_matching<C: CompareBytes>(comp: &C, lw: Seq<Word>, rw: Seq<Word>)
    ensures
        matching(comp, lw, rw, trimmed(comp, lw, rw)),
{
    let lead = leading_same(comp, lw, rw, 0) as int;
    let trail = trailing_same(comp, lw, rw, lead, 0) as int;
    lemma_leading_same(comp, lw, rw, 0);
    lemma_trailing_same(comp, lw, rw, lead, 0);
    let a = Seq::new(lead as nat, |i: int| (i, i));
    let b = Seq::new(trail as nat, |i: int| (lw.len() - trail + i, rw.len() - trail + i));
    assert forall|m: int| 0 <= m < b.len() implies word_eq(
        comp,
        lw[(#[trigger] b[m]).0],
        rw[b[m].1],
    ) by {
        let i = trail - 1 - m;
        assert(word_eq(comp, lw[lw.len() - 1 - i], rw[rw.len() - 1 - i]));
    }
    assert(matching(comp, lw, rw, a));
    assert(matching(comp, lw, rw, b));
    lemma_matching_concat(comp, lw, rw, a, b, lead, lead);
}

/// The unchanged words of two windows are a matching of them.
pub proof fn lemma_unchanged_matching<C: CompareBytes>(comp: &C, lw: Seq<Word>, rw: Seq<Word>)
    requires
        lw.len() <= usize::MAX,
        rw.len() <= usize::MAX,
    ensures
        matching(comp, lw, rw, unchanged_words(comp, lw, rw)),
    decreases lw.len() + rw.len(), 2nat, 0nat,
{
    if lw.len() == 0 || rw.len() == 0 {
    } else {
        lemma_unchanged_lcs_matching(comp, lw, rw);
        lemma_trimmed_matching(comp, lw, rw);
    }
}

pub proof fn lemma_unchanged_lcs_matching<C: CompareBytes>(comp: &C, lw: Seq<Word>, rw: Seq<Word>)
    requires
        lw.len() <= usize::MAX,
        rw.len() <= usize::MAX,
    ensures
        matching(comp, lw, rw, unchanged_words_lcs(comp, lw, rw)),
        spec_anchors(comp, lw, rw).len() > 0 ==> unchanged_words_lcs(comp, lw, rw).len() > 0,
    decreases lw.len() + rw.len(), 1nat, 0nat,
{
    let anchors = spec_anchors(comp, lw, rw);
    lemma_anchors_match(comp, lw, rw);
    let (pl, pr) = window_start(anchors, anchors.len() as int);
    if anchors.len() > 0 {
        assert(anchors[anchors.len() - 1].0 < lw.len());
        lemma_stitched_matching(comp, lw, rw, anchors, anchors.len() as int);
        let tail = unchanged_words(
            comp,
            lw.subrange(pl, lw.len() as int),
            rw.subrange(pr, rw.len() as int),
        );
        lemma_unchanged_matching(
            comp,
            lw.subrange(pl, lw.len() as int),
            rw.subrange(pr, rw.len() as int),
        );
        lemma_matching_shift(comp, lw, rw, tail, pl, lw.len() as int, pr, rw.len() as int);
        lemma_matching_concat(
            comp,
            lw,
            rw,
            stitched(comp, lw, rw, anchors, anchors.len() as int),
            shifted(tail, pl, pr),
            pl,
            pr,
        );
    }
}

/// The first `k` anchors with the unchanged words before them are a
/// matching that ends at the `k`-th anchor.
pub proof fn lemma_stitched_matching<C: CompareBytes>(
    comp: &C,
    lw: Seq<Word>,
    rw: Seq<Word>,
    anchors: Seq<(usize, usize)>,
    k: int,
)
    requires
        lw.len() <= usize::MAX,
        rw.len() <= usize::MAX,
        is_matching(comp, lw, rw, anchors),
        0 <= k <= anchors.len(),
    ensures
        matching(comp, lw, rw, stitched(comp, lw, rw, anchors, k)),
        within(
            stitched(comp, lw, rw, anchors, k),
            0,
            window_start(anchors, k).0,
            0,
            window_start(anchors, k).1,
        ),
        k > 0 ==> stitched(comp, lw, rw, anchors, k).len() > 0,
        window_start(anchors, k).0 <= lw.len(),
        window_start(anchors, k).1 <= rw.len(),
    decreases lw.len() + rw.len(), 0nat, k,
{
    if k > 0 {
        let (pl, pr) = window_start(anchors, k - 1);
        let l = anchors[k - 1].0 as int;
        let r = anchors[k - 1].1 as int;
        assert(anchors[k - 1].0 < lw.len());
        if k > 1 {
            assert(anchors[k - 2].0 < anchors[k - 1].0 && anchors[k - 2].1 < anchors[k - 1].1);
        }
        lemma_stitched_matching(comp, lw, rw, anchors, k - 1);
        let before = stitched(comp, lw, rw, anchors, k - 1);
        let inner = unchanged_words(comp, lw.subrange(pl, l), rw.subrange(pr, r));
        lemma_unchanged_matching(comp, lw.subrange(pl, l), rw.subrange(pr, r));
        lemma_matching_shift(comp, lw, rw, inner, pl, l, pr, r);
        let moved = shifted(inner, pl, pr);
        let last = Seq::<(int, int)>::empty().push((l, r));
        assert(moved.push((l, r)) =~= moved + last);
        assert(matching(comp, lw, rw, last));
        assert(within(last, l, lw.len() as int, r, rw.len() as int));
        assert(within(moved, 0, l, 0, r));
        lemma_matching_concat(comp, lw, rw, moved, last, l, r);
        assert(within(moved + last, pl, lw.len() as int, pr, rw.len() as int));
        lemma_matching_concat(comp, lw, rw, before, moved + last, pl, pr);
        let all = stitched(comp, lw, rw, anchors, k);
        assert(all == before + moved.push((l, r)));
        assert forall|m: int| 0 <= m < all.len() implies 0 <= (#[trigger] all[m]).0 < l + 1 && 0
            <= all[m].1 < r + 1 by {
            if m < before.len() {
                assert(all[m] == before[m]);
            } else if m < before.len() + moved.len() {
                assert(all[m] == moved[m - before.len()]);
            } else {
                assert(all[m] == (l, r));
            }
        }
    }
}

/// The number of words at the start of both windows that are the same.
pub fn common_leading_len<C: CompareBytes>(
    left: &LocalDiffSource,
    right: &LocalDiffSource,
    comp: &WordComparator<C>,
) -> (lead: usize)
    requires
        left.wf(),
        right.wf(),
    ensures
        lead == leading_same(&comp.compare, left.words(), right.words(), 0),
        lead <= left.words().len(),
        lead <= right.words().len(),
{
    let ghost c = &comp.compare;
    let ghost lw = left.words();
    let ghost rw = right.words();
    let mut i: usize = 0;
    let mut same: bool = true;
    while same && i < left.len() && i < right.len()
        invariant
            left.wf(),
            right.wf(),
            c == &comp.compare,
            lw == left.words(),
            rw == right.words(),
            i <= lw.len(),
            i <= rw.len(),
            leading_same(c, lw, rw, 0) == i + leading_same(c, lw, rw, i as int),
            !same ==> leading_same(c, lw, rw, i as int) == 0,
        decreases lw.len() - i, if same { 1nat } else { 0nat },
    {
        if same_word(left, i, right, i, comp) {
            i += 1;
        } else {
            same = false;
        }
    }
    i
}

/// The number of words at the end of both windows that are the same, not
/// counting the first `lead` words of either.
pub fn common_trailing_len<C: CompareBytes>(
    left: &LocalDiffSource,
    right: &LocalDiffSource,
    comp: &WordComparator<C>,
    lead: usize,
) -> (trail: usize)
    requires
        left.wf(),
        right.wf(),
        lead <= left.words().len(),
        lead <= right.words().len(),
    ensures
        trail == trailing_same(&comp.compare, left.words(), right.words(), lead as int, 0),
        lead + trail <= left.words().len(),
        lead + trail <= right.words().len(),
{
    let ghost c = &comp.compare;
    let ghost lw = left.words();
    let ghost rw = right.words();
    let left_len: usize = left.len();
    let right_len: usize = right.len();
    let mut k: usize = 0;
    let mut same: bool = true;
    while same && k < left_len - lead && k < right_len - lead
        invariant
            left.wf(),
            right.wf(),
            c == &comp.compare,
            lw == left.words(),
            rw == right.words(),
            left_len == lw.len(),
            right_len == rw.len(),
            lead + k <= left_len,
            lead + k <= right_len,
            trailing_same(c, lw, rw, lead as int, 0) == k + trailing_same(
                c,
                lw,
                rw,
                lead as int,
                k as int,
            ),
            !same ==> trailing_same(c, lw, rw, lead as int, k as int) == 0,
        decreases lw.len() - k, if same { 1nat } else { 0nat },
    {
        if same_word(left, left_len - 1 - k, right, right_len - 1 - k, comp) {
            k += 1;
        } else {
            same = false;
        }
    }
    k
}

/// Finds unchanged words among the ones of the two windows, and adds their
/// positions in the whole inputs to `found_positions`.
pub fn collect_unchanged_words<C: CompareBytes>(
    found_positions: &mut Vec<(usize, usize)>,
    left: &LocalDiffSource,
    right: &LocalDiffSource,
    comp: &WordComparator<C>,
)
    requires
        left.wf(),
        right.wf(),
    ensures
        pairs_view(final(found_positions)@) == pairs_view(old(found_positions)@) + shifted(
            unchanged_words(&comp.compare, left.words(), right.words()),
            left.global_offset as int,
            right.global_offset as int,
        ),
    decreases left.words().len() + right.words().len(), 2nat,
{
    let ghost c = &comp.compare;
    let ghost lw = left.words();
    let ghost rw = right.words();
    let ghost before = pairs_view(found_positions@);
    let ghost dl = left.global_offset as int;
    let ghost dr = right.global_offset as int;
    if left.len() == 0 || right.len() == 0 {
        proof {
            assert(pairs_view(found_positions@) =~= before + shifted(
                unchanged_words(c, lw, rw),
                dl,
                dr,
            ));
        }
        return ;
    }
    // Anchors come before leading and trailing matches.
    let old_len: usize = found_positions.len();
    collect_unchanged_words_lcs(found_positions, left, right, comp);
    proof {
        let by_anchors = unchanged_words_lcs(c, lw, rw);
        assert(pairs_view(found_positions@).len() == before.len() + by_anchors.len());
    }
    if found_positions.len() != old_len {
        return ;
    }
    let lead: usize = common_leading_len(left, right, comp);
    let trail: usize = common_trailing_len(left, right, comp, lead);
    let ghost leading = Seq::new(lead as nat, |i: int| (i, i));
    let ghost trailing = Seq::new(
        trail as nat,
        |i: int| (lw.len() - trail + i, rw.len() - trail + i),
    );
    proof {
        assert(pairs_view(found_positions@) =~= before);
    }
    let mut i: usize = 0;
    while i < lead
        invariant
            left.wf(),
            right.wf(),
            lw == left.words(),
            rw == right.words(),
            dl == left.global_offset,
            dr == right.global_offset,
            i <= lead <= lw.len(),
            lead <= rw.len(),
            leading.len() == lead,
            forall|j: int| 0 <= j < lead ==> (#[trigger] leading[j]) == (j, j),
            pairs_view(found_positions@) == before + shifted(leading.take(i as int), dl, dr),
        decreases lead - i,
    {
        let ghost at = pairs_view(found_positions@);
        found_positions.push((left.map_to_global(i), right.map_to_global(i)));
        proof {
            assert(pairs_view(found_positions@) =~= at.push((dl + i, dr + i)));
            let s0 = shifted(leading.take(i as int), dl, dr);
            let s1 = shifted(leading.take(i as int + 1), dl, dr);
            assert(s1 =~= s0.push((dl + i, dr + i)));
            assert(at.push((dl + i, dr + i)) =~= before + s1);
        }
        i += 1;
    }
    let left_len: usize = left.len();
    let right_len: usize = right.len();
    let mut k: usize = 0;
    proof {
        assert(leading.take(lead as int) =~= leading);
        assert(before + shifted(leading, dl, dr) =~= before + shifted(
            leading + trailing.take(0),
            dl,
            dr,
        ));
    }
    while k < trail
        invariant
            left.wf(),
            right.wf(),
            lw == left.words(),
            rw == right.words(),
            left_len == lw.len(),
            right_len == rw.len(),
            dl == left.global_offset,
            dr == right.global_offset,
            k <= trail,
            trail <= lw.len(),
            trail <= rw.len(),
            trailing.len() == trail,
            forall|j: int|
                0 <= j < trail ==> (#[trigger] trailing[j]) == (
                    lw.len() - trail + j,
                    rw.len() - trail + j,
                ),
            pairs_view(found_positions@) == before + shifted(
                leading + trailing.take(k as int),
                dl,
                dr,
            ),
        decreases trail - k,
    {
        let ghost at = pairs_view(found_positions@);
        found_positions.push(
            (
                left.map_to_global(left_len - trail + k),
                right.map_to_global(right_len - trail + k),
            ),
        );
        proof {
            let x = (dl + (lw.len() - trail + k), dr + (rw.len() - trail + k));
            assert(pairs_view(found_positions@) =~= at.push(x));
            assert(trailing.take(k as int + 1) =~= trailing.take(k as int).push(trailing[k as int]));
            let s0 = shifted(leading + trailing.take(k as int), dl, dr);
            let s1 = shifted(leading + trailing.take(k as int + 1), dl, dr);
            assert(s1 =~= s0.push(x));
            assert(at.push(x) =~= before + s1);
        }
        k += 1;
    }
    proof {
        assert(trailing.take(trail as int) =~= trailing);
    }
}

/// Finds the anchors of the two windows and the unchanged words between
/// them, and adds their positions in the whole inputs to `found_positions`.
pub fn collect_unchanged_words_lcs<C: CompareBytes>(
    found_positions: &mut Vec<(usize, usize)>,
    left: &LocalDiffSource,
    right: &LocalDiffSource,
    comp: &WordComparator<C>,
)
    requires
        left.wf(),
        right.wf(),
    ensures
        pairs_view(final(found_positions)@) == pairs_view(old(found_positions)@) + shifted(
            unchanged_words_lcs(&comp.compare, left.words(), right.words()),
            left.global_offset as int,
            right.global_offset as int,
        ),
    decreases left.words().len() + right.words().len(), 1nat,
{
    let ghost c = &comp.compare;
    let ghost lw = left.words();
    let ghost rw = right.words();
    let ghost before = pairs_view(found_positions@);
    let ghost dl = left.global_offset as int;
    let ghost dr = right.global_offset as int;
    let anchors: Vec<(usize, usize)> = find_anchors(left, right, comp);
    if anchors.len() == 0 {
        proof {
            assert(pairs_view(found_positions@) =~= before + shifted(
                unchanged_words_lcs(c, lw, rw),
                dl,
                dr,
            ));
        }
        return ;
    }
    // Recurse into the changed areas between the anchors.
    let mut previous_left: usize = 0;
    let mut previous_right: usize = 0;
    let mut m: usize = 0;
    proof {
        assert(pairs_view(found_positions@) =~= before + shifted(
            stitched(c, lw, rw, anchors@, 0),
            dl,
            dr,
        ));
    }
    while m < anchors.len()
        invariant
            left.wf(),
            right.wf(),
            c == &comp.compare,
            lw == left.words(),
            rw == right.words(),
            dl == left.global_offset,
            dr == right.global_offset,
            anchors@ == spec_anchors(c, lw, rw),
            is_matching(c, lw, rw, anchors@),
            m <= anchors.len(),
            (previous_left as int, previous_right as int) == window_start(anchors@, m as int),
            previous_left <= lw.len(),
            previous_right <= rw.len(),
            pairs_view(found_positions@) == before + shifted(
                stitched(c, lw, rw, anchors@, m as int),
                dl,
                dr,
            ),
        decreases anchors.len() - m,
    {
        let (l, r) = anchors[m];
        proof {
            assert(anchors@[m as int].0 < lw.len());
            if m > 0 {
                assert(anchors@[m - 1].0 < anchors@[m as int].0 && anchors@[m - 1].1
                    < anchors@[m as int].1);
            }
        }
        let inner_left: LocalDiffSource = left.narrowed(previous_left, l);
        let inner_right: LocalDiffSource = right.narrowed(previous_right, r);
        let ghost at = pairs_view(found_positions@);
        collect_unchanged_words(found_positions, &inner_left, &inner_right, comp);
        let ghost inner = unchanged_words(c, inner_left.words(), inner_right.words());
        let ghost at2 = pairs_view(found_positions@);
        found_positions.push((left.map_to_global(l), right.map_to_global(r)));
        proof {
            let pl = previous_left as int;
            let pr = previous_right as int;
            assert(pairs_view(found_positions@) =~= at2.push((dl + l, dr + r)));
            assert(shifted(inner, dl + pl, dr + pr) =~= shifted(shifted(inner, pl, pr), dl, dr));
            assert(stitched(c, lw, rw, anchors@, m + 1) == stitched(c, lw, rw, anchors@, m as int)
                + shifted(inner, pl, pr).push((l as int, r as int)));
            assert(at2.push((dl + l, dr + r)) =~= before + shifted(
                stitched(c, lw, rw, anchors@, m + 1),
                dl,
                dr,
            ));
        }
        previous_left = l + 1;
        previous_right = r + 1;
        m += 1;
    }
    // Also recurse into the area behind the last anchor.
    let tail_left: LocalDiffSource = left.narrowed(previous_left, left.len());
    let tail_right: LocalDiffSource = right.narrowed(previous_right, right.len());
    let ghost at = pairs_view(found_positions@);
    collect_unchanged_words(found_positions, &tail_left, &tail_right, comp);
    proof {
        let pl = previous_left as int;
        let pr = previous_right as int;
        let tail = unchanged_words(c, tail_left.words(), tail_right.words());
        assert(shifted(tail, dl + pl, dr + pr) =~= shifted(shifted(tail, pl, pr), dl, dr));
        assert(at + shifted(tail, dl + pl, dr + pr) =~= before + shifted(
            stitched(c, lw, rw, anchors@, anchors.len() as int) + shifted(tail, pl, pr),
            dl,
            dr,
        ));
    }
}

} // verus!
