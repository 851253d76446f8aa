//! Anchors of a diff: the words that occur equally often, and seldom, in both
//! windows, paired occurrence by occurrence, of which the longest chain that
//! ascends in both windows is kept.

use super::compare::CompareBytes;
use super::compare::WordComparator;
use super::histogram::count_before;
use super::histogram::entry_wf;
use super::histogram::entry_word;
use super::histogram::has_entry;
use super::histogram::lemma_count_congruent;
use super::histogram::lemma_count_monotone;
use super::histogram::lemma_nth_occurrence_exists;
use super::histogram::lemma_occurrence_ascends;
use super::histogram::lemma_occurrence_below_total;
use super::histogram::lemma_word_count_congruent;
use super::histogram::lemma_word_eq_equivalence;
use super::histogram::occurrence;
use super::histogram::positions_get;
use super::histogram::positions_of;
use super::histogram::total;
use super::histogram::word_count;
use super::histogram::Histogram;
use super::histogram::MAX_OCCURRENCES;
use super::lcs::find_lcs;
use super::lcs::lemma_find_lcs_ascending;
use super::lcs::pairs_of_input;
use super::lcs::spec_find_lcs;
use super::lcs::strictly_ascending_pairs;
use super::source::word_eq;
use super::source::LocalDiffSource;
use super::source::Word;
use vstd::prelude::*;

verus! {

/// Every word of `lw` occurs more often than an anchor may.
pub open spec fn no_rare_word<C: CompareBytes>(comp: &C, lw: Seq<Word>) -> bool {
    forall|i: int| 0 <= i < lw.len() ==> word_count(comp, lw, #[trigger] lw[i]) > MAX_OCCURRENCES
}

/// The word at `i` of `lw` has the same count in both windows.
pub open spec fn is_shared<C: CompareBytes>(comp: &C, lw: Seq<Word>, rw: Seq<Word>, i: int) -> bool {
    word_count(comp, rw, lw[i]) == word_count(comp, lw, lw[i])
}

pub open spec fn some_shared<C: CompareBytes>(comp: &C, lw: Seq<Word>, rw: Seq<Word>) -> bool {
    exists|i: int| 0 <= i < lw.len() && #[trigger] is_shared(comp, lw, rw, i)
}

/// `c` is the least count of a word that has the same count in both windows.
pub open spec fn is_least_shared<C: CompareBytes>(
    comp: &C,
    lw: Seq<Word>,
    rw: Seq<Word>,
    c: nat,
) -> bool {
    &&& exists|i: int|
        0 <= i < lw.len() && #[trigger] is_shared(comp, lw, rw, i) && word_count(comp, lw, lw[i])
            == c
    &&& forall|i: int|
        0 <= i < lw.len() && #[trigger] is_shared(comp, lw, rw, i) ==> c <= word_count(
            comp,
            lw,
            lw[i],
        )
}

pub open spec fn least_shared<C: CompareBytes>(comp: &C, lw: Seq<Word>, rw: Seq<Word>) -> nat {
    choose|c: nat| is_least_shared(comp, lw, rw, c)
}

/// The token at `q` of `rw` is one of the occurrences that are paired: its
/// word has the count `c` in both windows, and it is among the first `c`
/// occurrences.
pub open spec fn is_anchor_right<C: CompareBytes>(
    comp: &C,
    lw: Seq<Word>,
    rw: Seq<Word>,
    c: nat,
    q: int,
) -> bool {
    &&& word_count(comp, rw, rw[q]) == c
    &&& word_count(comp, lw, rw[q]) == c
    &&& occurrence(comp, rw, q) < c
}

/// The token at `p` of `lw` is the same word as the token at `q` of `rw`, and
/// is the same occurrence of it.
pub open spec fn is_partner<C: CompareBytes>(
    comp: &C,
    lw: Seq<Word>,
    rw: Seq<Word>,
    p: int,
    q: int,
) -> bool {
    &&& 0 <= p < lw.len()
    &&& word_eq(comp, lw[p], rw[q])
    &&& occurrence(comp, lw, p) == occurrence(comp, rw, q)
}

pub open spec fn partner_of<C: CompareBytes>(comp: &C, lw: Seq<Word>, rw: Seq<Word>, q: int) -> int {
    choose|p: int| is_partner(comp, lw, rw, p, q)
}

/// The paired right positions below `n`, ascending.
pub open spec fn anchor_rights<C: CompareBytes>(
    comp: &C,
    lw: Seq<Word>,
    rw: Seq<Word>,
    c: nat,
    n: int,
) -> Seq<usize>
    decreases n,
{
    if n <= 0 {
        Seq::empty()
    } else if is_anchor_right(comp, lw, rw, c, n - 1) {
        anchor_rights(comp, lw, rw, c, n - 1).push((n - 1) as usize)
    } else {
        anchor_rights(comp, lw, rw, c, n - 1)
    }
}

/// The left partners of the paired right positions, in the order of the
/// right positions.
pub open spec fn anchor_lefts<C: CompareBytes>(
    comp: &C,
    lw: Seq<Word>,
    rw: Seq<Word>,
    rights: Seq<usize>,
) -> Seq<usize> {
    Seq::new(rights.len(), |m: int| partner_of(comp, lw, rw, rights[m] as int) as usize)
}

/// A chain over the paired positions, as pairs of a left and a right
/// position.
pub open spec fn chain_positions(chain: Seq<(usize, usize)>, rights: Seq<usize>) -> Seq<
    (usize, usize),
> {
    Seq::new(chain.len(), |m: int| (chain[m].0, rights[chain[m].1 as int]))
}

/// The anchors of two windows, as pairs of a left and a right position.
pub open spec fn spec_anchors<C: CompareBytes>(comp: &C, lw: Seq<Word>, rw: Seq<Word>) -> Seq<
    (usize, usize),
> {
    if no_rare_word(comp, lw) || !some_shared(comp, lw, rw) {
        Seq::empty()
    } else {
        let c = least_shared(comp, lw, rw);
        let rights = anchor_rights(comp, lw, rw, c, rw.len() as int);
        let lefts = anchor_lefts(comp, lw, rw, rights);
        chain_positions(spec_find_lcs(lefts), rights)
    }
}

/// The pairs are inside the two windows, join equal words, and ascend
/// strictly in both windows.
pub open spec fn is_matching<C: CompareBytes>(
    comp: &C,
    lw: Seq<Word>,
    rw: Seq<Word>,
    pairs: Seq<(usize, usize)>,
) -> bool {
    &&& forall|m: int|
        0 <= m < pairs.len() ==> (#[trigger] pairs[m]).0 < lw.len() && pairs[m].1 < rw.len()
            && word_eq(comp, lw[pairs[m].0 as int], rw[pairs[m].1 as int])
    &&& strictly_ascending_pairs(pairs)
}

pub proof fn lemma_least_shared_unique<C: CompareBytes>(
    comp: &C,
    lw: Seq<Word>,
    rw: Seq<Word>,
    c: nat,
)
    requires
        is_least_shared(comp, lw, rw, c),
    ensures
        least_shared(comp, lw, rw) == c,
        some_shared(comp, lw, rw),
{
    let d = least_shared(comp, lw, rw);
    assert(is_least_shared(comp, lw, rw, d));
}

/// A token has at most one partner.
pub proof fn lemma_partner_unique<C: CompareBytes>(
    comp: &C,
    lw: Seq<Word>,
    rw: Seq<Word>,
    p1: int,
    p2: int,
    q: int,
)
    requires
        is_partner(comp, lw, rw, p1, q),
        is_partner(comp, lw, rw, p2, q),
    ensures
        p1 == p2,
{
    lemma_word_eq_equivalence(comp, lw[p2], rw[q], lw[p2]);
    lemma_word_eq_equivalence(comp, lw[p1], rw[q], lw[p2]);
    lemma_word_eq_equivalence(comp, lw[p1], lw[p2], lw[p1]);
    if p1 < p2 {
        lemma_occurrence_ascends(comp, lw, p1, p2);
    } else if p2 < p1 {
        lemma_occurrence_ascends(comp, lw, p2, p1);
    }
}

/// Tokens that are the same word and the same occurrence of it have
/// partners in the same order as themselves.
pub proof fn lemma_partner_of<C: CompareBytes>(
    comp: &C,
    lw: Seq<Word>,
    rw: Seq<Word>,
    p: int,
    q: int,
)
    requires
        is_partner(comp, lw, rw, p, q),
    ensures
        partner_of(comp, lw, rw, q) == p,
{
    lemma_partner_unique(comp, lw, rw, p, partner_of(comp, lw, rw, q), q);
}

/// Each paired right position has a partner.
pub proof fn lemma_anchor_has_partner<C: CompareBytes>(
    comp: &C,
    lw: Seq<Word>,
    rw: Seq<Word>,
    c: nat,
    q: int,
)
    requires
        0 <= q < rw.len(),
        is_anchor_right(comp, lw, rw, c, q),
    ensures
        is_partner(comp, lw, rw, partner_of(comp, lw, rw, q), q),
{
    let w = rw[q];
    let m = occurrence(comp, rw, q) as int;
    assert(m < total(comp, lw, w));
    lemma_nth_occurrence_exists(comp, lw, w, m, lw.len() as int);
    let p = choose|p: int|
        0 <= p < lw.len() && word_eq(comp, #[trigger] lw[p], w) && count_before(comp, lw, w, p)
            == m;
    lemma_count_congruent(comp, lw, lw[p], w, p);
    assert(is_partner(comp, lw, rw, p, q));
}

/// The paired right positions are the tokens that `is_anchor_right` holds
/// of, ascending.
pub proof fn lemma_anchor_rights<C: CompareBytes>(
    comp: &C,
    lw: Seq<Word>,
    rw: Seq<Word>,
    c: nat,
    n: int,
)
    requires
        n <= rw.len() <= usize::MAX,
    ensures
        anchor_rights(comp, lw, rw, c, n).len() <= if n >= 0 { n } else { 0 },
        forall|m: int|
            0 <= m < anchor_rights(comp, lw, rw, c, n).len() ==> (#[trigger] anchor_rights(
                comp,
                lw,
                rw,
                c,
                n,
            )[m]) < n && is_anchor_right(
                comp,
                lw,
                rw,
                c,
                anchor_rights(comp, lw, rw, c, n)[m] as int,
            ),
        forall|m1: int, m2: int|
            0 <= m1 < m2 < anchor_rights(comp, lw, rw, c, n).len() ==> (#[trigger] anchor_rights(
                comp,
                lw,
                rw,
                c,
                n,
            )[m1]) < (#[trigger] anchor_rights(comp, lw, rw, c, n)[m2]),
    decreases n,
{
    if n > 0 {
        lemma_anchor_rights(comp, lw, rw, c, n - 1);
        let before = anchor_rights(comp, lw, rw, c, n - 1);
        let all = anchor_rights(comp, lw, rw, c, n);
        assert forall|m: int| 0 <= m < all.len() implies (#[trigger] all[m]) < n
            && is_anchor_right(comp, lw, rw, c, all[m] as int) by {
            if m < before.len() {
                assert(all[m] == before[m]);
            }
        }
        assert forall|m1: int, m2: int| 0 <= m1 < m2 < all.len() implies (#[trigger] all[m1]) < (
        #[trigger] all[m2]) by {
            assert(all[m1] == before[m1]);
            if m2 < before.len() {
                assert(all[m2] == before[m2]);
            }
        }
    }
}

/// Partners of tokens in ascending order that are in ascending order
/// themselves join equal words.
pub proof fn lemma_anchors_match<C: CompareBytes>(comp: &C, lw: Seq<Word>, rw: Seq<Word>)
    requires
        lw.len() <= usize::MAX,
        rw.len() <= usize::MAX,
    ensures
        is_matching(comp, lw, rw, spec_anchors(comp, lw, rw)),
{
    if !(no_rare_word(comp, lw) || !some_shared(comp, lw, rw)) {
        let c = least_shared(comp, lw, rw);
        let rights = anchor_rights(comp, lw, rw, c, rw.len() as int);
        let lefts = anchor_lefts(comp, lw, rw, rights);
        let chain = spec_find_lcs(lefts);
        let pairs = chain_positions(chain, rights);
        lemma_anchor_rights(comp, lw, rw, c, rw.len() as int);
        lemma_find_lcs_ascending(lefts);
        assert forall|m: int| 0 <= m < pairs.len() implies (#[trigger] pairs[m]).0 < lw.len()
            && pairs[m].1 < rw.len() && word_eq(
            comp,
            lw[pairs[m].0 as int],
            rw[pairs[m].1 as int],
        ) by {
            let j = chain[m].1 as int;
            let q = rights[j] as int;
            assert(is_anchor_right(comp, lw, rw, c, q));
            lemma_anchor_has_partner(comp, lw, rw, c, q);
            assert(chain[m].0 == lefts[j]);
        }
        assert forall|m1: int, m2: int| 0 <= m1 < m2 < pairs.len() implies (#[trigger] pairs[m1]).0
            < (#[trigger] pairs[m2]).0 && pairs[m1].1 < pairs[m2].1 by {
            assert(chain[m1].0 < chain[m2].0 && chain[m1].1 < chain[m2].1);
            assert(rights[chain[m1].1 as int] < rights[chain[m2].1 as int]);
        }
    }
}

/// Tokens that are the same word are shared alike, with the same count.
pub proof fn lemma_shared_congruent<C: CompareBytes>(
    comp: &C,
    lw: Seq<Word>,
    rw: Seq<Word>,
    i1: int,
    i2: int,
)
    requires
        word_eq(comp, lw[i1], lw[i2]),
    ensures
        is_shared(comp, lw, rw, i1) == is_shared(comp, lw, rw, i2),
        word_count(comp, lw, lw[i1]) == word_count(comp, lw, lw[i2]),
{
    lemma_word_count_congruent(comp, lw, lw[i1], lw[i2]);
    lemma_word_count_congruent(comp, rw, lw[i1], lw[i2]);
}

/// Whether some word of the window is seldom enough for an anchor.
pub fn has_rare_word<C: CompareBytes>(
    histogram: &Histogram,
    source: &LocalDiffSource,
    word_comp: &WordComparator<C>,
) -> (rare: bool)
    requires
        histogram.wf(&word_comp.compare, source.words()),
    ensures
        rare == !no_rare_word(&word_comp.compare, source.words()),
{
    let ghost comp = &word_comp.compare;
    let ghost lw = source.words();
    let mut least: usize = MAX_OCCURRENCES + 1;
    let ghost mut least_at: int = -1;
    let mut k: usize = 0;
    while k < histogram.entries.len()
        invariant
            comp == &word_comp.compare,
            lw == source.words(),
            histogram.wf(comp, lw),
            k <= histogram.entries.len(),
            least <= MAX_OCCURRENCES + 1,
            forall|j: int|
                0 <= j < k ==> least <= word_count(
                    comp,
                    lw,
                    #[trigger] entry_word(lw, histogram.entries@, j),
                ),
            least <= MAX_OCCURRENCES ==> 0 <= least_at < k && word_count(
                comp,
                lw,
                entry_word(lw, histogram.entries@, least_at),
            ) == least,
        decreases histogram.entries.len() - k,
    {
        let count: usize = histogram.count_at(k, source, word_comp);
        if count < least {
            least = count;
            proof {
                least_at = k as int;
            }
        }
        k += 1;
    }
    proof {
        if least > MAX_OCCURRENCES {
            assert forall|i: int| 0 <= i < lw.len() implies word_count(comp, lw, #[trigger] lw[i])
                > MAX_OCCURRENCES by {
                assert(has_entry(comp, lw, histogram.entries@, lw[i]));
                let j = choose|j: int|
                    0 <= j < histogram.entries.len() && word_eq(
                        comp,
                        #[trigger] entry_word(lw, histogram.entries@, j),
                        lw[i],
                    );
                lemma_word_count_congruent(comp, lw, entry_word(lw, histogram.entries@, j), lw[i]);
            }
        } else {
            let e = histogram.entries@[least_at];
            assert(entry_wf(comp, lw, lw.len() as int, e));
            assert(lw[e.first as int] == entry_word(lw, histogram.entries@, least_at));
        }
    }
    least <= MAX_OCCURRENCES
}

/// The least count of a word that has the same count in both windows, if
/// there is such a word.
pub fn least_shared_count<C: CompareBytes>(
    left_histogram: &Histogram,
    right_histogram: &Histogram,
    left: &LocalDiffSource,
    right: &LocalDiffSource,
    comp: &WordComparator<C>,
) -> (least: Option<usize>)
    requires
        left.wf(),
        right.wf(),
        left_histogram.wf(&comp.compare, left.words()),
        right_histogram.wf(&comp.compare, right.words()),
    ensures
        match least {
            Some(c) => is_least_shared(&comp.compare, left.words(), right.words(), c as nat) && 1
                <= c <= MAX_OCCURRENCES + 1,
            None => !some_shared(&comp.compare, left.words(), right.words()),
        },
{
    let ghost c = &comp.compare;
    let ghost lw = left.words();
    let ghost rw = right.words();
    let ghost entries = left_histogram.entries@;
    let mut chosen: usize = MAX_OCCURRENCES + 2;
    let ghost mut chosen_at: int = -1;
    let mut k: usize = 0;
    while k < left_histogram.entries.len()
        invariant
            left.wf(),
            right.wf(),
            c == &comp.compare,
            lw == left.words(),
            rw == right.words(),
            entries == left_histogram.entries@,
            left_histogram.wf(c, lw),
            right_histogram.wf(c, rw),
            k <= entries.len(),
            1 <= chosen <= MAX_OCCURRENCES + 2,
            forall|j: int|
                0 <= j < k && is_shared(c, lw, rw, (#[trigger] entries[j]).first as int) ==> chosen
                    <= word_count(c, lw, lw[entries[j].first as int]),
            chosen <= MAX_OCCURRENCES + 1 ==> 0 <= chosen_at < k && is_shared(
                c,
                lw,
                rw,
                entries[chosen_at].first as int,
            ) && word_count(c, lw, lw[entries[chosen_at].first as int]) == chosen,
        decreases entries.len() - k,
    {
        proof {
            assert(entry_wf(c, lw, lw.len() as int, entries[k as int]));
        }
        let first: usize = left_histogram.entries[k].first;
        let left_count: usize = left_histogram.count_at(k, left, comp);
        let found: Option<usize> = right_histogram.positions_by_word(right, left, first, comp);
        match found {
            Some(j) => {
                let right_count: usize = right_histogram.count_at(j, right, comp);
                proof {
                    lemma_word_count_congruent(
                        c,
                        rw,
                        entry_word(rw, right_histogram.entries@, j as int),
                        lw[first as int],
                    );
                }
                if left_count == right_count && left_count < chosen {
                    chosen = left_count;
                    proof {
                        chosen_at = k as int;
                    }
                }
            },
            None => {},
        }
        k += 1;
    }
    proof {
        if chosen <= MAX_OCCURRENCES + 1 {
            assert(entry_wf(c, lw, lw.len() as int, entries[chosen_at]));
            assert forall|i: int| 0 <= i < lw.len() && #[trigger] is_shared(c, lw, rw, i) implies chosen
                <= word_count(c, lw, lw[i]) by {
                assert(has_entry(c, lw, entries, lw[i]));
                let j = choose|j: int|
                    0 <= j < entries.len() && word_eq(c, #[trigger] entry_word(lw, entries, j), lw[i]);
                lemma_shared_congruent(c, lw, rw, entries[j].first as int, i);
            }
            assert(is_shared(c, lw, rw, entries[chosen_at].first as int));
        } else {
            assert forall|i: int| 0 <= i < lw.len() implies !#[trigger] is_shared(c, lw, rw, i) by {
                assert(has_entry(c, lw, entries, lw[i]));
                let j = choose|j: int|
                    0 <= j < entries.len() && word_eq(c, #[trigger] entry_word(lw, entries, j), lw[i]);
                lemma_shared_congruent(c, lw, rw, entries[j].first as int, i);
            }
        }
    }
    if chosen <= MAX_OCCURRENCES + 1 {
        Some(chosen)
    } else {
        None
    }
}

/// A vector of `n` zeros.
fn zeros(n: usize) -> (v: Vec<usize>)
    ensures
        v.len() == n,
        forall|i: int| 0 <= i < n ==> v[i] == 0,
{
    let mut v: Vec<usize> = Vec::new();
    while v.len() < n
        invariant
            v.len() <= n,
            forall|i: int| 0 <= i < v.len() ==> v[i] == 0,
        decreases n - v.len(),
    {
        v.push(0);
    }
    v
}

/// After the token at `q`, each entry of the right histogram has seen one
/// more token if the token is of its word, and as many as before if not.
proof fn lemma_seen_step<C: CompareBytes>(
    comp: &C,
    rw: Seq<Word>,
    histogram: Histogram,
    q: int,
    j: int,
    j2: int,
)
    requires
        0 <= q < rw.len(),
        histogram.wf(comp, rw),
        0 <= j < histogram.entries.len(),
        0 <= j2 < histogram.entries.len(),
        word_eq(comp, entry_word(rw, histogram.entries@, j), rw[q]),
    ensures
        count_before(comp, rw, entry_word(rw, histogram.entries@, j2), q + 1) == count_before(
            comp,
            rw,
            entry_word(rw, histogram.entries@, j2),
            q,
        ) + if j2 == j {
            1nat
        } else {
            0nat
        },
{
    let w = entry_word(rw, histogram.entries@, j);
    let w2 = entry_word(rw, histogram.entries@, j2);
    lemma_word_eq_equivalence(comp, w, rw[q], w);
    if j2 != j {
        assert(!word_eq(comp, w, w2));
        lemma_word_eq_equivalence(comp, w, rw[q], w2);
    }
}

/// The occurrences that are paired for the count `c`: the right positions,
/// ascending, and the left partner of each.
pub fn paired_positions<C: CompareBytes>(
    left_histogram: &Histogram,
    right_histogram: &Histogram,
    left: &LocalDiffSource,
    right: &LocalDiffSource,
    comp: &WordComparator<C>,
    c: usize,
) -> (pairs: (Vec<usize>, Vec<usize>))
    requires
        left.wf(),
        right.wf(),
        left_histogram.wf(&comp.compare, left.words()),
        right_histogram.wf(&comp.compare, right.words()),
        1 <= c,
    ensures
        pairs.0@ == anchor_rights(
            &comp.compare,
            left.words(),
            right.words(),
            c as nat,
            right.words().len() as int,
        ),
        pairs.1@ == anchor_lefts(&comp.compare, left.words(), right.words(), pairs.0@),
{
    let ghost cm = &comp.compare;
    let ghost lw = left.words();
    let ghost rw = right.words();
    let ghost rentries = right_histogram.entries@;
    let ghost lentries = left_histogram.entries@;
    let mut seen: Vec<usize> = zeros(right_histogram.entries.len());
    let mut rights: Vec<usize> = Vec::new();
    let mut lefts: Vec<usize> = Vec::new();
    let n: usize = right.len();
    let mut q: usize = 0;
    while q < n
        invariant
            left.wf(),
            right.wf(),
            cm == &comp.compare,
            lw == left.words(),
            rw == right.words(),
            rentries == right_histogram.entries@,
            lentries == left_histogram.entries@,
            left_histogram.wf(cm, lw),
            right_histogram.wf(cm, rw),
            1 <= c,
            n == rw.len(),
            q <= n,
            seen.len() == rentries.len(),
            forall|j: int|
                0 <= j < rentries.len() ==> (#[trigger] seen[j]) == count_before(
                    cm,
                    rw,
                    entry_word(rw, rentries, j),
                    q as int,
                ),
            rights@ == anchor_rights(cm, lw, rw, c as nat, q as int),
            lefts.len() == rights.len(),
            forall|m: int|
                0 <= m < lefts.len() ==> is_partner(
                    cm,
                    lw,
                    rw,
                    (#[trigger] lefts[m]) as int,
                    rights[m] as int,
                ),
        decreases n - q,
    {
        let found_right: Option<usize> = right_histogram.positions_by_word(right, right, q, comp);
        proof {
            lemma_occurrence_below_total(cm, rw, q as int);
        }
        match found_right {
            Some(j) => {
                let occ: usize = seen[j];
                let right_count: usize = right_histogram.count_at(j, right, comp);
                let ghost w = entry_word(rw, rentries, j as int);
                proof {
                    lemma_count_congruent(cm, rw, w, rw[q as int], q as int);
                    lemma_word_count_congruent(cm, rw, w, rw[q as int]);
                    lemma_count_monotone(cm, rw, w, 0, q as int);
                    assert(occ == occurrence(cm, rw, q as int));
                }
                let mut paired: bool = false;
                if right_count == c && occ < c {
                    let found_left: Option<usize> = left_histogram.positions_by_word(
                        left,
                        right,
                        q,
                        comp,
                    );
                    match found_left {
                        Some(k) => {
                            let left_count: usize = left_histogram.count_at(k, left, comp);
                            proof {
                                lemma_word_count_congruent(
                                    cm,
                                    lw,
                                    entry_word(lw, lentries, k as int),
                                    rw[q as int],
                                );
                                assert(entry_wf(cm, lw, lw.len() as int, lentries[k as int]));
                            }
                            if left_count == c {
                                let p: usize = positions_get(
                                    &left_histogram.entries[k].positions,
                                    occ,
                                );
                                proof {
                                    let ps = positions_of(lentries[k as int].positions);
                                    assert(ps[occ as int] == p);
                                    lemma_word_eq_equivalence(
                                        cm,
                                        lw[p as int],
                                        entry_word(lw, lentries, k as int),
                                        rw[q as int],
                                    );
                                    assert(is_partner(cm, lw, rw, p as int, q as int));
                                }
                                rights.push(q);
                                lefts.push(p);
                                paired = true;
                            }
                        },
                        None => {},
                    }
                }
                proof {
                    assert(paired == is_anchor_right(cm, lw, rw, c as nat, q as int));
                    assert forall|j2: int| 0 <= j2 < rentries.len() implies count_before(
                        cm,
                        rw,
                        entry_word(rw, rentries, j2),
                        q + 1,
                    ) == (#[trigger] seen[j2]) + if j2 == j {
                        1nat
                    } else {
                        0nat
                    } by {
                        lemma_seen_step(cm, rw, *right_histogram, q as int, j as int, j2);
                    }
                }
                seen.set(j, occ + 1);
            },
            None => {
                proof {
                    assert(false);
                }
            },
        }
        q += 1;
    }
    proof {
        let expected = anchor_lefts(cm, lw, rw, rights@);
        assert forall|m: int| 0 <= m < lefts.len() implies lefts[m] == expected[m] by {
            lemma_partner_of(cm, lw, rw, lefts[m] as int, rights[m] as int);
        }
        assert(lefts@ =~= expected);
    }
    (rights, lefts)
}

/// Finds the anchors of two windows.
pub fn find_anchors<C: CompareBytes>(
    left: &LocalDiffSource,
    right: &LocalDiffSource,
    comp: &WordComparator<C>,
) -> (anchors: Vec<(usize, usize)>)
    requires
        left.wf(),
        right.wf(),
    ensures
        anchors@ == spec_anchors(&comp.compare, left.words(), right.words()),
        is_matching(&comp.compare, left.words(), right.words(), anchors@),
{
    proof {
        lemma_anchors_match(&comp.compare, left.words(), right.words());
    }
    let left_histogram: Histogram = Histogram::calculate(left, comp);
    if !has_rare_word(&left_histogram, left, comp) {
        // If there are very many occurrences of all words, give up.
        return Vec::new();
    }
    let right_histogram: Histogram = Histogram::calculate(right, comp);
    let least: Option<usize> = least_shared_count(
        &left_histogram,
        &right_histogram,
        left,
        right,
        comp,
    );
    let c: usize = match least {
        Some(c) => c,
        None => {
            return Vec::new();
        },
    };
    proof {
        lemma_least_shared_unique(&comp.compare, left.words(), right.words(), c as nat);
    }
    let (rights, lefts) = paired_positions(&left_histogram, &right_histogram, left, right, comp, c);
    let chain: Vec<(usize, usize)> = find_lcs(lefts.as_slice());
    let mut anchors: Vec<(usize, usize)> = Vec::new();
    let mut m: usize = 0;
    while m < chain.len()
        invariant
            m <= chain.len(),
            anchors.len() == m,
            lefts.len() == rights.len(),
            pairs_of_input(lefts@, chain@),
            forall|i: int|
                0 <= i < m ==> (#[trigger] anchors[i]) == (chain[i].0, rights[chain[i].1 as int]),
        decreases chain.len() - m,
    {
        let (l, j) = chain[m];
        anchors.push((l, rights[j]));
        m += 1;
    }
    proof {
        assert(anchors@ =~= chain_positions(chain@, rights@));
    }
    anchors
}

} // verus!
