//! The unchanged regions of a diff of several inputs lie inside the
//! unchanged regions of a diff of fewer of them.

use super::builder::end_region;
use super::builder::initial_regions;
use super::builder::lemma_initial_ordered;
use super::builder::tokens_wf;
use super::source::ranges_in_bounds;
use super::source::ranges_ordered;
use std::ops::Range;
use super::builder::region_of;
use super::builder::spec_regions;
use super::builder::zero_region;
use super::compare::CompareBytes;
use super::nway::came_from;
use super::nway::has_base;
use super::nway::has_joined_base;
use super::nway::lemma_nway_grows_without_input;
use super::nway::has_origin;
use super::nway::lemma_intersected;
use super::nway::lemma_other_of;
use super::unchanged::lemma_unchanged_matching;
use super::nway::lemma_nway_matching;
use super::nway::nway_unchanged;
use super::nway::other_of;
use super::nway::starting;
use super::nway::Joined;
use super::regions::compact_from;
use super::regions::lemma_spec_compact;
use super::regions::spec_compact;
use super::source::Word;
use super::unchanged::unchanged_words;
use super::regions::contiguous;
use super::regions::continues_next;
use super::regions::merged;
use super::regions::precedes;
use super::regions::precedes_next;
use super::regions::region_in_bounds;
use super::regions::regions_compacted;
use super::regions::regions_ordered;
use super::regions::Sides;
use vstd::prelude::*;

verus! {

/// On every side, the region `x` lies inside the region `c`.
pub open spec fn within_region(x: Sides, c: Sides) -> bool {
    &&& x.len() == c.len()
    &&& forall|s: int|
        0 <= s < x.len() ==> c[s].start <= (#[trigger] x[s]).start && x[s].end <= c[s].end
}

/// The region lies inside one of the regions of the list.
pub open spec fn in_some(x: Sides, list: Seq<Sides>) -> bool {
    exists|u: int| 0 <= u < list.len() && within_region(x, #[trigger] list[u])
}

/// The sides of a region that a selection names, in its order.
pub open spec fn selected(region: Sides, selection: Seq<int>) -> Sides {
    Seq::new(selection.len(), |s: int| region[selection[s]])
}

/// The selection names sides of a region of `sides` sides.
pub open spec fn selects(selection: Seq<int>, sides: int) -> bool {
    forall|s: int| 0 <= s < selection.len() ==> 0 <= #[trigger] selection[s] < sides
}

/// A region before another in an ordered list ends before the other
/// begins.
pub proof fn lemma_regions_ascend(regions: Seq<Sides>, lens: Seq<int>, u: int, w: int)
    requires
        regions_ordered(regions, lens),
        0 <= u < w < regions.len(),
    ensures
        precedes(regions[u], regions[w]),
    decreases w - u,
{
    assert(region_in_bounds(regions[u], lens));
    assert(region_in_bounds(regions[w], lens));
    if u + 1 == w {
        assert(precedes_next(regions, u));
    } else {
        lemma_regions_ascend(regions, lens, u, w - 1);
        assert(precedes_next(regions, w - 1));
        assert(region_in_bounds(regions[w - 1], lens));
        assert forall|s: int| 0 <= s < regions[u].len() implies (#[trigger] regions[u][s]).end
            <= regions[w][s].start by {
            assert(regions[u][s].end <= regions[w - 1][s].start);
            assert(regions[w - 1][s].start <= regions[w - 1][s].end);
            assert(regions[w - 1][s].end <= regions[w][s].start);
        }
    }
}

/// In an ordered, compacted list no region continues an earlier one on
/// every side.
pub proof fn lemma_no_touch(regions: Seq<Sides>, lens: Seq<int>, u: int, v: int)
    requires
        regions_ordered(regions, lens),
        regions_compacted(regions),
        0 <= u < v < regions.len(),
    ensures
        !contiguous(regions[u], regions[v]),
{
    if contiguous(regions[u], regions[v]) {
        assert(region_in_bounds(regions[u], lens));
        assert(region_in_bounds(regions[u + 1], lens));
        assert(region_in_bounds(regions[v], lens));
        assert(precedes_next(regions, u));
        if u + 1 < v {
            lemma_regions_ascend(regions, lens, u + 1, v);
        }
        assert forall|s: int| 0 <= s < regions[u].len() implies (#[trigger] regions[u][s]).end
            == regions[u + 1][s].start by {
            assert(regions[u][s].end <= regions[u + 1][s].start);
            assert(regions[u + 1][s].start <= regions[u + 1][s].end);
            assert(regions[u + 1][s].end <= regions[v][s].start || u + 1 == v);
            assert(regions[u][s].end == regions[v][s].start);
        }
        assert(continues_next(regions, u));
    }
}

/// Two regions of which one continues the other, and which lie inside
/// regions of an ordered, compacted list, lie inside one region of the
/// list together.
pub proof fn lemma_same_home(
    list: Seq<Sides>,
    lens: Seq<int>,
    x: Sides,
    y: Sides,
)
    requires
        regions_ordered(list, lens),
        regions_compacted(list),
        region_in_bounds(x, lens),
        region_in_bounds(y, lens),
        contiguous(x, y),
        in_some(x, list),
        in_some(y, list),
    ensures
        in_some(merged(x, y), list),
{
    let u = choose|u: int| 0 <= u < list.len() && within_region(x, #[trigger] list[u]);
    let v = choose|v: int| 0 <= v < list.len() && within_region(y, #[trigger] list[v]);
    assert(region_in_bounds(list[u], lens));
    assert(region_in_bounds(list[v], lens));
    if u < v {
        lemma_regions_ascend(list, lens, u, v);
        assert forall|s: int| 0 <= s < list[u].len() implies (#[trigger] list[u][s]).end
            == list[v][s].start by {
            assert(x[s].end <= list[u][s].end);
            assert(list[u][s].end <= list[v][s].start);
            assert(list[v][s].start <= y[s].start);
            assert(x[s].end == y[s].start);
        }
        lemma_no_touch(list, lens, u, v);
    } else if v < u {
        lemma_regions_ascend(list, lens, v, u);
        assert forall|s: int| 0 <= s < list[v].len() implies (#[trigger] list[v][s]).end
            == list[u][s].start by {
            assert(y[s].end <= list[v][s].end);
            assert(list[v][s].end <= list[u][s].start);
            assert(list[u][s].start <= x[s].start);
            assert(x[s].start <= x[s].end);
            assert(x[s].end == y[s].start);
            assert(y[s].start <= y[s].end);
        }
        lemma_no_touch(list, lens, v, u);
    } else {
        assert(within_region(merged(x, y), list[u]));
    }
}

/// What compacting gives holds every region that is compacted: each lies
/// inside one of the regions that come out.
pub proof fn lemma_compact_covers(regions: Seq<Sides>, lens: Seq<int>, i: int, previous: Sides)
    requires
        1 <= i <= regions.len(),
        regions_ordered(regions, lens),
        region_in_bounds(previous, lens),
        i < regions.len() ==> precedes(previous, regions[i]),
    ensures
        compact_from(regions, i, previous).len() >= 1,
        within_region(previous, compact_from(regions, i, previous)[0]),
        forall|t: int|
            i <= t < regions.len() ==> in_some(#[trigger] regions[t], compact_from(regions, i, previous)),
    decreases regions.len() - i,
{
    let out = compact_from(regions, i, previous);
    if i < regions.len() {
        let current = regions[i];
        assert(region_in_bounds(current, lens));
        if i + 1 < regions.len() {
            assert(precedes_next(regions, i));
        }
        if contiguous(previous, current) {
            let both = merged(previous, current);
            assert(region_in_bounds(both, lens));
            lemma_compact_covers(regions, lens, i + 1, both);
            assert(within_region(both, out[0]));
            assert forall|s: int| 0 <= s < previous.len() implies out[0][s].start <= (
            #[trigger] previous[s]).start && previous[s].end <= out[0][s].end by {
                assert(both[s].start == previous[s].start && both[s].end == current[s].end);
                assert(previous[s].end == current[s].start);
                assert(current[s].start <= current[s].end);
            }
            assert forall|s: int| 0 <= s < current.len() implies out[0][s].start <= (
            #[trigger] current[s]).start && current[s].end <= out[0][s].end by {
                assert(both[s].start == previous[s].start && both[s].end == current[s].end);
                assert(previous[s].end == current[s].start);
                assert(previous[s].start <= previous[s].end);
            }
            assert(within_region(previous, out[0]));
            assert(within_region(current, out[0]));
        } else {
            lemma_compact_covers(regions, lens, i + 1, current);
            let rest = compact_from(regions, i + 1, current);
            assert(out[0] == previous);
            assert(out[1] == rest[0]);
            assert forall|t: int| i <= t < regions.len() implies in_some(
                #[trigger] regions[t],
                out,
            ) by {
                if t == i {
                    assert(within_region(current, out[1]));
                } else {
                    let u = choose|u: int|
                        0 <= u < rest.len() && within_region(regions[t], #[trigger] rest[u]);
                    assert(out[u + 1] == rest[u]);
                }
            }
        }
    } else {
        assert(out[0] == previous);
    }
}

/// Where the selected sides of every region that is compacted lie inside
/// regions of an ordered, compacted list, so do the selected sides of the
/// regions that come out.
pub proof fn lemma_compact_selected(
    regions: Seq<Sides>,
    lens: Seq<int>,
    i: int,
    previous: Sides,
    selection: Seq<int>,
    list: Seq<Sides>,
    list_lens: Seq<int>,
)
    requires
        1 <= i <= regions.len(),
        regions_ordered(regions, lens),
        region_in_bounds(previous, lens),
        i < regions.len() ==> precedes(previous, regions[i]),
        selects(selection, lens.len() as int),
        list_lens == Seq::new(selection.len(), |s: int| lens[selection[s]]),
        regions_ordered(list, list_lens),
        regions_compacted(list),
        in_some(selected(previous, selection), list),
        forall|t: int|
            i <= t < regions.len() ==> in_some(selected(#[trigger] regions[t], selection), list),
    ensures
        forall|u: int|
            0 <= u < compact_from(regions, i, previous).len() ==> in_some(
                selected(#[trigger] compact_from(regions, i, previous)[u], selection),
                list,
            ),
    decreases regions.len() - i,
{
    let out = compact_from(regions, i, previous);
    if i < regions.len() {
        let current = regions[i];
        assert(region_in_bounds(current, lens));
        if i + 1 < regions.len() {
            assert(precedes_next(regions, i));
        }
        if contiguous(previous, current) {
            let both = merged(previous, current);
            assert(region_in_bounds(both, lens));
            let x = selected(previous, selection);
            let y = selected(current, selection);
            assert(region_in_bounds(x, list_lens));
            assert(region_in_bounds(y, list_lens));
            assert(contiguous(x, y));
            lemma_same_home(list, list_lens, x, y);
            assert(selected(both, selection) =~= merged(x, y));
            lemma_compact_selected(regions, lens, i + 1, both, selection, list, list_lens);
            assert(out == compact_from(regions, i + 1, both));
        } else {
            lemma_compact_selected(regions, lens, i + 1, current, selection, list, list_lens);
            let rest = compact_from(regions, i + 1, current);
            assert forall|u: int| 0 <= u < out.len() implies in_some(
                selected(#[trigger] out[u], selection),
                list,
            ) by {
                if u > 0 {
                    assert(out[u] == rest[u - 1]);
                } else {
                    assert(out[0] == previous);
                }
            }
        }
    } else {
        assert(out =~= seq![previous]);
        assert forall|u: int| 0 <= u < out.len() implies in_some(
            selected(#[trigger] out[u], selection),
            list,
        ) by {
            assert(out[u] == previous);
        }
    }
}

/// The pair of base position and `k`-th other position of an entry.
pub open spec fn pair_of_entry(entry: Joined, k: int) -> (int, int) {
    (entry.0, entry.1[k])
}

/// The pair is one of the pairs.
pub open spec fn holds_pair(pairs: Seq<(int, int)>, pair: (int, int)) -> bool {
    exists|j: int| 0 <= j < pairs.len() && #[trigger] pairs[j] == pair
}

/// An entry of the words that are unchanged against several inputs joins,
/// for each of the inputs, words that are unchanged against that input
/// alone.
pub proof fn lemma_entry_pairs<C: CompareBytes>(
    comp: &C,
    base: Seq<Word>,
    others: Seq<Seq<Word>>,
    n: int,
    i: int,
    k: int,
)
    requires
        1 <= n <= others.len(),
        0 <= i < nway_unchanged(comp, base, others, n).len(),
        0 <= k < n,
        base.len() <= usize::MAX,
        forall|q: int| 0 <= q < others.len() ==> (#[trigger] others[q]).len() <= usize::MAX,
    ensures
        nway_unchanged(comp, base, others, n)[i].1.len() == n,
        holds_pair(
            unchanged_words(comp, base, others[k]),
            pair_of_entry(nway_unchanged(comp, base, others, n)[i], k),
        ),
    decreases n,
{
    let out = nway_unchanged(comp, base, others, n);
    if n == 1 {
        let first = unchanged_words(comp, base, others[0]);
        assert(out[i] == (first[i].0, seq![first[i].1]));
        assert(first[i] == pair_of_entry(out[i], 0));
    } else {
        let current = nway_unchanged(comp, base, others, n - 1);
        let new = unchanged_words(comp, base, others[n - 1]);
        lemma_intersected(current, new);
        assert(has_origin(current, new, out[i]));
        let c = choose|c: int| #[trigger] came_from(current, new, out[i], c);
        let b = current[c].0;
        lemma_entry_pairs(comp, base, others, n - 1, c, 0);
        assert(out[i].1 == current[c].1.push(other_of(new, b)));
        if k < n - 1 {
            lemma_entry_pairs(comp, base, others, n - 1, c, k);
            assert(pair_of_entry(out[i], k) == pair_of_entry(current[c], k));
        } else {
            assert(has_base(new, b));
            let j = choose|j: int| 0 <= j < new.len() && (#[trigger] new[j]).0 == b;
            assert(new[j].0 == b);
            lemma_unchanged_matching(comp, base, others[n - 1]);
            lemma_other_of(new, j);
            assert(other_of(new, b) == new[j].1);
            assert(current[c].1.len() == n - 1);
            assert(out[i].1[k] == other_of(new, b));
            assert(out[i].0 == b);
            assert(new[j] == (b, other_of(new, b)));
            assert(new[j] == pair_of_entry(out[i], k));
        }
    }
}

/// The two sides of a diff of the base and the other input `k`.
pub open spec fn pair_sides(k: int) -> Seq<int> {
    seq![0int, k + 1]
}

/// Each unchanged region of a diff of a base input and several other
/// inputs lies, in the base and in each other input, inside an unchanged
/// region of the diff of the base and that input alone: what is unchanged
/// against all inputs is unchanged against each.
pub proof fn lemma_nway_regions_in_pairwise<C: CompareBytes>(
    comp: &C,
    lens: Seq<int>,
    base_ranges: Seq<Range<usize>>,
    other_ranges: Seq<Seq<Range<usize>>>,
    base_words: Seq<Word>,
    other_words: Seq<Seq<Word>>,
    k: int,
)
    requires
        tokens_wf(lens, base_ranges, other_ranges, base_words, other_words),
        other_ranges.len() >= 2,
        0 <= k < other_ranges.len(),
    ensures
        forall|u: int|
            0 <= u < spec_regions(
                comp,
                lens,
                base_ranges,
                other_ranges,
                base_words,
                other_words,
            ).len() ==> in_some(
                selected(
                    #[trigger] spec_regions(
                        comp,
                        lens,
                        base_ranges,
                        other_ranges,
                        base_words,
                        other_words,
                    )[u],
                    pair_sides(k),
                ),
                spec_regions(
                    comp,
                    seq![lens[0], lens[k + 1]],
                    base_ranges,
                    seq![other_ranges[k]],
                    base_words,
                    seq![other_words[k]],
                ),
            ),
{
    let n = other_ranges.len() as int;
    let one_ranges = seq![other_ranges[k]];
    let one_words = seq![other_words[k]];
    let pair_lens = seq![lens[0], lens[k + 1]];
    let selection = pair_sides(k);
    let words = other_words;
    let joined = nway_unchanged(comp, base_words, words, n);
    let pairs = unchanged_words(comp, base_words, words[k]);
    let joined_one = nway_unchanged(comp, base_words, one_words, 1);
    assert(joined_one == starting(pairs));
    assert(tokens_wf(pair_lens, base_ranges, one_ranges, base_words, one_words)) by {
        assert(other_words[k].len() == other_ranges[k].len());
        assert(0 <= lens[0] <= usize::MAX && 0 <= lens[k + 1] <= usize::MAX);
        assert forall|q: int| 0 <= q < one_ranges.len() implies one_words[q].len()
            == (#[trigger] one_ranges[q]).len() <= usize::MAX && ranges_in_bounds(
            one_ranges[q],
            pair_lens[q + 1],
        ) && ranges_ordered(one_ranges[q]) by {
            assert(one_ranges[q] == other_ranges[k]);
        }
    }
    assert forall|q: int| 0 <= q < words.len() implies (#[trigger] words[q]).len()
        <= usize::MAX by {
        assert(words[q].len() == other_ranges[q].len());
    }
    lemma_nway_matching(comp, base_words, words, n);
    lemma_nway_matching(comp, base_words, one_words, 1);
    lemma_initial_ordered(comp, lens, base_ranges, other_ranges, base_words, words, joined);
    lemma_initial_ordered(
        comp,
        pair_lens,
        base_ranges,
        one_ranges,
        base_words,
        one_words,
        joined_one,
    );
    let all = initial_regions(lens, base_ranges, other_ranges, joined);
    let all_one = initial_regions(pair_lens, base_ranges, one_ranges, joined_one);
    lemma_spec_compact(all_one, pair_lens);
    let list = spec_compact(all_one);
    assert(region_in_bounds(all_one[0], pair_lens));
    if all_one.len() > 1 {
        assert(precedes_next(all_one, 0));
    }
    lemma_compact_covers(all_one, pair_lens, 1, all_one[0]);
    assert(in_some(all_one[0], list));
    assert(pair_lens =~= Seq::new(selection.len(), |s: int| lens[selection[s]]));
    assert(selects(selection, lens.len() as int));
    // Each region before compacting is, on the two sides, a region of the
    // diff of the two inputs before compacting.
    assert forall|t: int| 0 <= t < all.len() implies in_some(
        selected(#[trigger] all[t], selection),
        list,
    ) by {
        let count = joined.len() as int;
        let x = selected(all[t], selection);
        if t == 0 {
            assert(all[0] == zero_region(lens.len()));
            assert(x =~= all_one[0]);
        } else if t == count + 1 {
            assert(all[t] == end_region(lens));
            assert(0 <= lens[0] <= usize::MAX && 0 <= lens[k + 1] <= usize::MAX);
            assert(x =~= all_one[all_one.len() - 1]);
        } else {
            let e = joined[t - 1];
            lemma_entry_pairs(comp, base_words, words, n, t - 1, k);
            let j = choose|j: int| 0 <= j < pairs.len() && #[trigger] pairs[j] == pair_of_entry(e, k);
            assert(joined_one[j] == (pairs[j].0, seq![pairs[j].1]));
            assert(all[t] == region_of(base_ranges, other_ranges, e));
            assert(all_one[j + 1] == region_of(base_ranges, one_ranges, joined_one[j]));
            assert(x =~= all_one[j + 1]);
        }
    }
    assert(region_in_bounds(all[0], lens));
    if all.len() > 1 {
        assert(precedes_next(all, 0));
    }
    lemma_compact_selected(all, lens, 1, all[0], selection, list, pair_lens);
}

/// The sides of a diff that are left when the other input `left_out` is
/// left out.
pub open spec fn sides_without(sides: int, left_out: int) -> Seq<int> {
    Seq::new(
        (sides - 1) as nat,
        |s: int|
            if s <= left_out {
                s
            } else {
                s + 1
            },
    )
}

/// An entry of the words that are unchanged against several inputs is,
/// without the position in one of them, an entry of the words that are
/// unchanged against the others.
proof fn lemma_entry_without<C: CompareBytes>(
    comp: &C,
    base: Seq<Word>,
    others: Seq<Seq<Word>>,
    left_out: int,
    i: int,
)
    requires
        others.len() >= 2,
        0 <= left_out < others.len(),
        0 <= i < nway_unchanged(comp, base, others, others.len() as int).len(),
        base.len() <= usize::MAX,
        forall|q: int| 0 <= q < others.len() ==> (#[trigger] others[q]).len() <= usize::MAX,
    ensures
        exists|j: int|
            0 <= j < nway_unchanged(comp, base, others.remove(left_out), others.len() - 1).len()
                && #[trigger] nway_unchanged(
                comp,
                base,
                others.remove(left_out),
                others.len() - 1,
            )[j] == (
                nway_unchanged(comp, base, others, others.len() as int)[i].0,
                nway_unchanged(comp, base, others, others.len() as int)[i].1.remove(left_out),
            ),
{
    let n = others.len() as int;
    let fewer = others.remove(left_out);
    let joined = nway_unchanged(comp, base, others, n);
    let joined_fewer = nway_unchanged(comp, base, fewer, n - 1);
    let e = joined[i];
    assert(has_joined_base(joined, e.0));
    lemma_nway_grows_without_input(comp, base, others, left_out, e.0);
    let j = choose|j: int| 0 <= j < joined_fewer.len() && (#[trigger] joined_fewer[j]).0 == e.0;
    let f = joined_fewer[j];
    assert forall|q: int| 0 <= q < fewer.len() implies (#[trigger] fewer[q]).len()
        <= usize::MAX by {
        if q < left_out {
            assert(fewer[q] == others[q]);
        } else {
            assert(fewer[q] == others[q + 1]);
        }
    }
    lemma_entry_pairs(comp, base, others, n, i, 0);
    lemma_entry_pairs(comp, base, fewer, n - 1, j, 0);
    assert forall|k: int| 0 <= k < n - 1 implies #[trigger] f.1[k] == e.1.remove(left_out)[k] by {
        let kk = if k < left_out {
            k
        } else {
            k + 1
        };
        assert(fewer[k] == others[kk]);
        lemma_entry_pairs(comp, base, fewer, n - 1, j, k);
        lemma_entry_pairs(comp, base, others, n, i, kk);
        let pairs = unchanged_words(comp, base, others[kk]);
        lemma_unchanged_matching(comp, base, others[kk]);
        let a = choose|a: int| 0 <= a < pairs.len() && #[trigger] pairs[a] == pair_of_entry(f, k);
        let c = choose|c: int| 0 <= c < pairs.len() && #[trigger] pairs[c] == pair_of_entry(e, kk);
        if a < c {
            assert(pairs[a].0 < pairs[c].0);
        } else if c < a {
            assert(pairs[c].0 < pairs[a].0);
        }
        assert(e.1.remove(left_out)[k] == e.1[kk]);
    }
    assert(f.1 =~= e.1.remove(left_out));
    assert(f == (e.0, e.1.remove(left_out)));
}

/// Each unchanged region of a diff of a base input and several other
/// inputs lies, on the sides that are left, inside an unchanged region of
/// the diff without one of the other inputs: to leave an input out only
/// lets the unchanged regions grow.
pub proof fn lemma_nway_regions_in_fewer<C: CompareBytes>(
    comp: &C,
    lens: Seq<int>,
    base_ranges: Seq<Range<usize>>,
    other_ranges: Seq<Seq<Range<usize>>>,
    base_words: Seq<Word>,
    other_words: Seq<Seq<Word>>,
    left_out: int,
)
    requires
        tokens_wf(lens, base_ranges, other_ranges, base_words, other_words),
        other_ranges.len() >= 2,
        0 <= left_out < other_ranges.len(),
    ensures
        forall|u: int|
            0 <= u < spec_regions(
                comp,
                lens,
                base_ranges,
                other_ranges,
                base_words,
                other_words,
            ).len() ==> in_some(
                selected(
                    #[trigger] spec_regions(
                        comp,
                        lens,
                        base_ranges,
                        other_ranges,
                        base_words,
                        other_words,
                    )[u],
                    sides_without(lens.len() as int, left_out),
                ),
                spec_regions(
                    comp,
                    lens.remove(left_out + 1),
                    base_ranges,
                    other_ranges.remove(left_out),
                    base_words,
                    other_words.remove(left_out),
                ),
            ),
{
    let n = other_ranges.len() as int;
    let fewer_ranges = other_ranges.remove(left_out);
    let fewer_lens = lens.remove(left_out + 1);
    let selection = sides_without(n + 1, left_out);
    let words = other_words;
    let fewer_words = other_words.remove(left_out);
    let joined = nway_unchanged(comp, base_words, words, n);
    let joined_fewer = nway_unchanged(comp, base_words, fewer_words, n - 1);
    assert(tokens_wf(fewer_lens, base_ranges, fewer_ranges, base_words, fewer_words)) by {
        assert forall|q: int| 0 <= q < fewer_lens.len() implies 0 <= #[trigger] fewer_lens[q]
            <= usize::MAX by {
            if q < left_out + 1 {
                assert(fewer_lens[q] == lens[q]);
            } else {
                assert(fewer_lens[q] == lens[q + 1]);
            }
        }
        assert forall|q: int| 0 <= q < fewer_ranges.len() implies fewer_words[q].len()
            == (#[trigger] fewer_ranges[q]).len() <= usize::MAX && ranges_in_bounds(
            fewer_ranges[q],
            fewer_lens[q + 1],
        ) && ranges_ordered(fewer_ranges[q]) by {
            if q < left_out {
                assert(fewer_ranges[q] == other_ranges[q]);
            } else {
                assert(fewer_ranges[q] == other_ranges[q + 1]);
            }
        }
    }
    assert forall|q: int| 0 <= q < words.len() implies (#[trigger] words[q]).len()
        <= usize::MAX by {
        assert(words[q].len() == other_ranges[q].len());
    }
    assert forall|q: int| 0 <= q < fewer_words.len() implies (#[trigger] fewer_words[q]).len()
        <= usize::MAX by {
        if q < left_out {
            assert(fewer_words[q] == words[q]);
        } else {
            assert(fewer_words[q] == words[q + 1]);
        }
    }
    lemma_nway_matching(comp, base_words, words, n);
    lemma_nway_matching(comp, base_words, fewer_words, n - 1);
    lemma_initial_ordered(comp, lens, base_ranges, other_ranges, base_words, words, joined);
    lemma_initial_ordered(
        comp,
        fewer_lens,
        base_ranges,
        fewer_ranges,
        base_words,
        fewer_words,
        joined_fewer,
    );
    let all = initial_regions(lens, base_ranges, other_ranges, joined);
    let all_fewer = initial_regions(fewer_lens, base_ranges, fewer_ranges, joined_fewer);
    lemma_spec_compact(all_fewer, fewer_lens);
    let list = spec_compact(all_fewer);
    assert(region_in_bounds(all_fewer[0], fewer_lens));
    if all_fewer.len() > 1 {
        assert(precedes_next(all_fewer, 0));
    }
    lemma_compact_covers(all_fewer, fewer_lens, 1, all_fewer[0]);
    assert(in_some(all_fewer[0], list));
    assert(fewer_lens =~= Seq::new(selection.len(), |s: int| lens[selection[s]]));
    assert(selects(selection, lens.len() as int));
    assert forall|t: int| 0 <= t < all.len() implies in_some(
        selected(#[trigger] all[t], selection),
        list,
    ) by {
        let count = joined.len() as int;
        let x = selected(all[t], selection);
        if t == 0 {
            assert(all[0] == zero_region(lens.len()));
            assert(x =~= all_fewer[0]);
        } else if t == count + 1 {
            assert(all[t] == end_region(lens));
            assert forall|s: int| 0 <= s < x.len() implies x[s] == all_fewer[all_fewer.len()
                - 1][s] by {
                assert(fewer_lens[s] == lens[selection[s]]);
            }
            assert(x =~= all_fewer[all_fewer.len() - 1]);
        } else {
            let e = joined[t - 1];
            lemma_entry_without(comp, base_words, words, left_out, t - 1);
            let j = choose|j: int|
                0 <= j < joined_fewer.len() && #[trigger] joined_fewer[j] == (
                    e.0,
                    e.1.remove(left_out),
                );
            lemma_entry_pairs(comp, base_words, words, n, t - 1, 0);
            assert(all[t] == region_of(base_ranges, other_ranges, e));
            let y = region_of(base_ranges, fewer_ranges, joined_fewer[j]);
            assert(all_fewer[j + 1] == y);
            assert(x.len() == y.len());
            assert forall|s: int| 0 <= s < x.len() implies x[s] == y[s] by {
                if s >= 1 {
                    if s - 1 < left_out {
                        assert(fewer_ranges[s - 1] == other_ranges[s - 1]);
                        assert(e.1.remove(left_out)[s - 1] == e.1[s - 1]);
                    } else {
                        assert(fewer_ranges[s - 1] == other_ranges[s]);
                        assert(e.1.remove(left_out)[s - 1] == e.1[s]);
                    }
                }
            }
            assert(x =~= y);
        }
    }
    assert(region_in_bounds(all[0], lens));
    if all.len() > 1 {
        assert(precedes_next(all, 0));
    }
    lemma_compact_selected(all, lens, 1, all[0], selection, list, fewer_lens);
}

} // verus!
