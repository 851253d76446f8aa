//! Unchanged words of more than two inputs: the words of the base input that
//! are unchanged against every other input.

use super::compare::CompareBytes;
use super::join::merge_join_places;
use super::source::word_eq;
use super::source::Word;
use super::unchanged::ascending;
use super::unchanged::lemma_unchanged_matching;
use super::unchanged::matching;
use super::unchanged::pairs_view;
use super::unchanged::unchanged_words;
use vstd::prelude::*;

verus! {

/// A position in the base input with one position in each other input.
pub type Joined = (int, Seq<int>);

pub open spec fn positions_view(positions: Seq<usize>) -> Seq<int> {
    Seq::new(positions.len(), |k: int| positions[k] as int)
}

pub open spec fn joined_view(joined: Seq<(usize, Vec<usize>)>) -> Seq<Joined> {
    Seq::new(joined.len(), |i: int| (joined[i].0 as int, positions_view(joined[i].1@)))
}

/// Some pair of `new` has the base position `b`.
pub open spec fn has_base(new: Seq<(int, int)>, b: int) -> bool {
    exists|j: int| 0 <= j < new.len() && (#[trigger] new[j]).0 == b
}

/// The position that `new` pairs with the base position `b`.
pub open spec fn other_of(new: Seq<(int, int)>, b: int) -> int {
    new[choose|j: int| 0 <= j < new.len() && (#[trigger] new[j]).0 == b].1
}

/// Some entry of `joined` has the base position `b`.
pub open spec fn has_joined_base(joined: Seq<Joined>, b: int) -> bool {
    exists|i: int| 0 <= i < joined.len() && (#[trigger] joined[i]).0 == b
}

/// The entries of `current` whose base position `new` holds too, each with
/// the position that `new` pairs with it added.
pub open spec fn intersected(current: Seq<Joined>, new: Seq<(int, int)>) -> Seq<Joined>
    decreases current.len(),
{
    if current.len() == 0 {
        Seq::empty()
    } else {
        let rest = intersected(current.drop_last(), new);
        let (b, others) = current.last();
        if has_base(new, b) {
            rest.push((b, others.push(other_of(new, b))))
        } else {
            rest
        }
    }
}

/// The pairs of a diff of two inputs as entries with one other position.
pub open spec fn starting(first: Seq<(int, int)>) -> Seq<Joined> {
    Seq::new(first.len(), |i: int| (first[i].0, seq![first[i].1]))
}

/// The unchanged words of the base input against the first `n` other inputs.
pub open spec fn nway_unchanged<C: CompareBytes>(
    comp: &C,
    base: Seq<Word>,
    others: Seq<Seq<Word>>,
    n: int,
) -> Seq<Joined>
    decreases n,
{
    if n <= 0 {
        Seq::empty()
    } else if n == 1 {
        starting(unchanged_words(comp, base, others[0]))
    } else {
        intersected(
            nway_unchanged(comp, base, others, n - 1),
            unchanged_words(comp, base, others[n - 1]),
        )
    }
}

/// The entries hold `n` other positions each, lie inside the inputs, ascend
/// strictly in every input, and join equal words only.
pub open spec fn nway_matching<C: CompareBytes>(
    comp: &C,
    base: Seq<Word>,
    others: Seq<Seq<Word>>,
    n: int,
    joined: Seq<Joined>,
) -> bool {
    &&& forall|i: int|
        0 <= i < joined.len() ==> (#[trigger] joined[i]).1.len() == n && 0 <= joined[i].0
            < base.len()
    &&& forall|i: int, k: int|
        0 <= i < joined.len() && 0 <= k < n ==> 0 <= (#[trigger] joined[i].1[k]) < others[k].len()
            && word_eq(comp, base[joined[i].0], others[k][joined[i].1[k]])
    &&& forall|i: int, j: int|
        0 <= i < j < joined.len() ==> (#[trigger] joined[i]).0 < (#[trigger] joined[j]).0
    &&& forall|i: int, j: int, k: int|
        0 <= i < j < joined.len() && 0 <= k < n ==> (#[trigger] joined[i].1[k]) < (
        #[trigger] joined[j].1[k])
}

/// In a list that ascends, a base position has one partner.
pub proof fn lemma_other_of(new: Seq<(int, int)>, j: int)
    requires
        ascending(new),
        0 <= j < new.len(),
    ensures
        has_base(new, new[j].0),
        other_of(new, new[j].0) == new[j].1,
{
    let b = new[j].0;
    let c = choose|c: int| 0 <= c < new.len() && (#[trigger] new[c]).0 == b;
    if c < j {
        assert(new[c].0 < new[j].0);
    } else if j < c {
        assert(new[j].0 < new[c].0);
    }
}

/// The entry `e` of an intersection comes from the entry at `c` of `current`.
pub open spec fn came_from(current: Seq<Joined>, new: Seq<(int, int)>, e: Joined, c: int) -> bool {
    &&& 0 <= c < current.len()
    &&& has_base(new, current[c].0)
    &&& e == (current[c].0, current[c].1.push(other_of(new, current[c].0)))
}

/// The entry `e` of an intersection comes from some entry of `current`.
pub open spec fn has_origin(current: Seq<Joined>, new: Seq<(int, int)>, e: Joined) -> bool {
    exists|c: int| #[trigger] came_from(current, new, e, c)
}

/// The entries `e1` and `e2` of an intersection come from entries of
/// `current` in this order.
pub open spec fn has_ordered_origins(
    current: Seq<Joined>,
    new: Seq<(int, int)>,
    e1: Joined,
    e2: Joined,
) -> bool {
    exists|c: int, d: int|
        c < d && #[trigger] came_from(current, new, e1, c) && #[trigger] came_from(
            current,
            new,
            e2,
            d,
        )
}

/// What an intersection holds: the entries of `current` whose base position
/// is in `new`, in their order, each with its partner in `new` added.
pub proof fn lemma_intersected(current: Seq<Joined>, new: Seq<(int, int)>)
    ensures
        forall|b: int| #[trigger]
            has_joined_base(intersected(current, new), b) <==> has_joined_base(current, b)
                && has_base(new, b),
        forall|i: int|
            0 <= i < intersected(current, new).len() ==> has_origin(
                current,
                new,
                #[trigger] intersected(current, new)[i],
            ),
        forall|i: int, j: int|
            0 <= i < j < intersected(current, new).len() ==> has_ordered_origins(
                current,
                new,
                #[trigger] intersected(current, new)[i],
                #[trigger] intersected(current, new)[j],
            ),
        intersected(current, new).len() <= current.len(),
    decreases current.len(),
{
    let out = intersected(current, new);
    if current.len() > 0 {
        let init = current.drop_last();
        let rest = intersected(init, new);
        lemma_intersected(init, new);
        let (lb, lo) = current.last();
        let last = current.len() - 1;
        assert forall|b: int| #[trigger]
            has_joined_base(out, b) <==> has_joined_base(current, b) && has_base(new, b) by {
            if has_joined_base(out, b) {
                let i = choose|i: int| 0 <= i < out.len() && (#[trigger] out[i]).0 == b;
                if i < rest.len() {
                    assert(out[i] == rest[i]);
                    assert(has_joined_base(rest, b));
                    let c = choose|c: int| 0 <= c < init.len() && (#[trigger] init[c]).0 == b;
                    assert(current[c].0 == b);
                } else {
                    assert(current[last].0 == b);
                }
            }
            if has_joined_base(current, b) && has_base(new, b) {
                let c = choose|c: int| 0 <= c < current.len() && (#[trigger] current[c]).0 == b;
                if c < last {
                    assert(init[c].0 == b);
                    assert(has_joined_base(rest, b));
                    let i = choose|i: int| 0 <= i < rest.len() && (#[trigger] rest[i]).0 == b;
                    assert(out[i] == rest[i]);
                } else {
                    assert(out[out.len() - 1].0 == b);
                }
            }
        }
        assert forall|i: int| 0 <= i < out.len() implies has_origin(
            current,
            new,
            #[trigger] out[i],
        ) by {
            if i < rest.len() {
                assert(out[i] == rest[i]);
                assert(has_origin(init, new, rest[i]));
                let c = choose|c: int| #[trigger] came_from(init, new, rest[i], c);
                assert(current[c] == init[c]);
                assert(came_from(current, new, out[i], c));
            } else {
                assert(came_from(current, new, out[i], last));
            }
        }
        assert forall|i: int, j: int| 0 <= i < j < out.len() implies has_ordered_origins(
            current,
            new,
            #[trigger] out[i],
            #[trigger] out[j],
        ) by {
            assert(out[i] == rest[i]);
            if j < rest.len() {
                assert(out[j] == rest[j]);
                assert(has_ordered_origins(init, new, rest[i], rest[j]));
                let (c, d) = choose|c: int, d: int|
                    c < d && #[trigger] came_from(init, new, rest[i], c) && #[trigger] came_from(
                        init,
                        new,
                        rest[j],
                        d,
                    );
                assert(current[c] == init[c] && current[d] == init[d]);
                assert(came_from(current, new, out[i], c) && came_from(current, new, out[j], d));
            } else {
                assert(has_origin(init, new, rest[i]));
                let c = choose|c: int| #[trigger] came_from(init, new, rest[i], c);
                assert(current[c] == init[c]);
                assert(came_from(current, new, out[i], c) && came_from(current, new, out[j], last));
            }
        }
    }
}

/// Intersecting a matching of `n` inputs with a matching of the base and one
/// more input gives a matching of `n + 1` inputs.
pub proof fn lemma_intersected_matching<C: CompareBytes>(
    comp: &C,
    base: Seq<Word>,
    others: Seq<Seq<Word>>,
    n: int,
    current: Seq<Joined>,
    new: Seq<(int, int)>,
)
    requires
        1 <= n < others.len(),
        nway_matching(comp, base, others, n, current),
        matching(comp, base, others[n], new),
    ensures
        nway_matching(comp, base, others, n + 1, intersected(current, new)),
{
    let out = intersected(current, new);
    lemma_intersected(current, new);
    assert forall|i: int| 0 <= i < out.len() implies (#[trigger] out[i]).1.len() == n + 1 && 0
        <= out[i].0 < base.len() by {
        assert(has_origin(current, new, out[i]));
        let c = choose|c: int| #[trigger] came_from(current, new, out[i], c);
    }
    assert forall|i: int, k: int| 0 <= i < out.len() && 0 <= k < n + 1 implies 0 <= (
    #[trigger] out[i].1[k]) < others[k].len() && word_eq(
        comp,
        base[out[i].0],
        others[k][out[i].1[k]],
    ) by {
        assert(has_origin(current, new, out[i]));
        let c = choose|c: int| #[trigger] came_from(current, new, out[i], c);
        if k < n {
            assert(out[i].1[k] == current[c].1[k]);
        } else {
            let b = current[c].0;
            let j = choose|j: int| 0 <= j < new.len() && (#[trigger] new[j]).0 == b;
            lemma_other_of(new, j);
        }
    }
    assert forall|i: int, j: int| 0 <= i < j < out.len() implies (#[trigger] out[i]).0 < (
    #[trigger] out[j]).0 by {
        assert(has_ordered_origins(current, new, out[i], out[j]));
        let (c, d) = choose|c: int, d: int|
            c < d && #[trigger] came_from(current, new, out[i], c) && #[trigger] came_from(
                current,
                new,
                out[j],
                d,
            );
        assert(current[c].0 < current[d].0);
    }
    assert forall|i: int, j: int, k: int| 0 <= i < j < out.len() && 0 <= k < n + 1 implies (
    #[trigger] out[i].1[k]) < (#[trigger] out[j].1[k]) by {
        assert(has_ordered_origins(current, new, out[i], out[j]));
        let (c, d) = choose|c: int, d: int|
            c < d && #[trigger] came_from(current, new, out[i], c) && #[trigger] came_from(
                current,
                new,
                out[j],
                d,
            );
        assert(current[c].0 < current[d].0);
        if k < n {
            assert(out[i].1[k] == current[c].1[k]);
            assert(out[j].1[k] == current[d].1[k]);
            assert(current[c].1[k] < current[d].1[k]);
        } else {
            let bi = current[c].0;
            let bj = current[d].0;
            let ji = choose|ji: int| 0 <= ji < new.len() && (#[trigger] new[ji]).0 == bi;
            let jj = choose|jj: int| 0 <= jj < new.len() && (#[trigger] new[jj]).0 == bj;
            lemma_other_of(new, ji);
            lemma_other_of(new, jj);
            if ji > jj {
                assert(new[jj].0 < new[ji].0);
            }
            assert(ji < jj);
            assert(new[ji].1 < new[jj].1);
        }
    }
}

/// The unchanged words of several inputs are a matching of them all.
pub proof fn lemma_nway_matching<C: CompareBytes>(
    comp: &C,
    base: Seq<Word>,
    others: Seq<Seq<Word>>,
    n: int,
)
    requires
        1 <= n <= others.len(),
        base.len() <= usize::MAX,
        forall|k: int| 0 <= k < others.len() ==> (#[trigger] others[k]).len() <= usize::MAX,
    ensures
        nway_matching(comp, base, others, n, nway_unchanged(comp, base, others, n)),
    decreases n,
{
    if n == 1 {
        lemma_unchanged_matching(comp, base, others[0]);
        let first = unchanged_words(comp, base, others[0]);
        let out = starting(first);
        assert forall|i: int, k: int| 0 <= i < out.len() && 0 <= k < 1 implies 0 <= (
        #[trigger] out[i].1[k]) < others[k].len() && word_eq(
            comp,
            base[out[i].0],
            others[k][out[i].1[k]],
        ) by {
            assert(out[i].1[0] == first[i].1);
        }
        assert forall|i: int, j: int, k: int| 0 <= i < j < out.len() && 0 <= k < 1 implies (
        #[trigger] out[i].1[k]) < (#[trigger] out[j].1[k]) by {
            assert(first[i].1 < first[j].1);
        }
        assert forall|i: int, j: int| 0 <= i < j < out.len() implies (#[trigger] out[i]).0 < (
        #[trigger] out[j]).0 by {
            assert(first[i].0 < first[j].0);
        }
    } else {
        lemma_nway_matching(comp, base, others, n - 1);
        lemma_unchanged_matching(comp, base, others[n - 1]);
        lemma_intersected_matching(
            comp,
            base,
            others,
            n - 1,
            nway_unchanged(comp, base, others, n - 1),
            unchanged_words(comp, base, others[n - 1]),
        );
    }
}

/// A word of the base input is reported unchanged against several inputs
/// exactly when it is unchanged against each of them alone.
pub proof fn lemma_nway_is_intersection<C: CompareBytes>(
    comp: &C,
    base: Seq<Word>,
    others: Seq<Seq<Word>>,
    n: int,
    b: int,
)
    requires
        1 <= n <= others.len(),
    ensures
        has_joined_base(nway_unchanged(comp, base, others, n), b) <==> forall|k: int|
            0 <= k < n ==> has_base(unchanged_words(comp, base, #[trigger] others[k]), b),
    decreases n,
{
    if n == 1 {
        let first = unchanged_words(comp, base, others[0]);
        let out = starting(first);
        if has_joined_base(out, b) {
            let i = choose|i: int| 0 <= i < out.len() && (#[trigger] out[i]).0 == b;
            assert(first[i].0 == b);
            assert forall|k: int| 0 <= k < 1 implies has_base(
                unchanged_words(comp, base, #[trigger] others[k]),
                b,
            ) by {}
        }
        if forall|k: int|
            0 <= k < 1 ==> has_base(unchanged_words(comp, base, #[trigger] others[k]), b) {
            assert(has_base(unchanged_words(comp, base, others[0]), b));
            let j = choose|j: int| 0 <= j < first.len() && (#[trigger] first[j]).0 == b;
            assert(out[j].0 == b);
        }
    } else {
        lemma_nway_is_intersection(comp, base, others, n - 1, b);
        let current = nway_unchanged(comp, base, others, n - 1);
        let new = unchanged_words(comp, base, others[n - 1]);
        lemma_intersected(current, new);
        assert(has_joined_base(intersected(current, new), b) <==> has_joined_base(current, b)
            && has_base(new, b));
        if has_joined_base(current, b) && has_base(new, b) {
            assert forall|k: int| 0 <= k < n implies has_base(
                unchanged_words(comp, base, #[trigger] others[k]),
                b,
            ) by {
                if k < n - 1 {
                }
            }
        }
        if forall|k: int|
            0 <= k < n ==> has_base(unchanged_words(comp, base, #[trigger] others[k]), b) {
            assert(has_base(unchanged_words(comp, base, others[n - 1]), b));
            assert forall|k: int| 0 <= k < n - 1 implies has_base(
                unchanged_words(comp, base, #[trigger] others[k]),
                b,
            ) by {}
        }
    }
}

/// Leaving out one of the other inputs never takes a word of the base input
/// away from the unchanged ones.
pub proof fn lemma_nway_grows_without_input<C: CompareBytes>(
    comp: &C,
    base: Seq<Word>,
    others: Seq<Seq<Word>>,
    left_out: int,
    b: int,
)
    requires
        others.len() >= 2,
        0 <= left_out < others.len(),
        has_joined_base(nway_unchanged(comp, base, others, others.len() as int), b),
    ensures
        has_joined_base(
            nway_unchanged(comp, base, others.remove(left_out), others.len() - 1),
            b,
        ),
{
    let fewer = others.remove(left_out);
    lemma_nway_is_intersection(comp, base, others, others.len() as int, b);
    lemma_nway_is_intersection(comp, base, fewer, fewer.len() as int, b);
    assert forall|k: int| 0 <= k < fewer.len() implies has_base(
        unchanged_words(comp, base, #[trigger] fewer[k]),
        b,
    ) by {
        if k < left_out {
            assert(fewer[k] == others[k]);
        } else {
            assert(fewer[k] == others[k + 1]);
        }
    }
}

/// A copy of `positions` with one more position behind them.
fn copy_with(positions: &Vec<usize>, extra: usize) -> (out: Vec<usize>)
    ensures
        positions_view(out@) == positions_view(positions@).push(extra as int),
{
    let mut out: Vec<usize> = Vec::new();
    let mut k: usize = 0;
    while k < positions.len()
        invariant
            k <= positions.len(),
            out.len() == k,
            forall|j: int| 0 <= j < k ==> out[j] == positions[j],
        decreases positions.len() - k,
    {
        out.push(positions[k]);
        k += 1;
    }
    out.push(extra);
    proof {
        assert(positions_view(out@) =~= positions_view(positions@).push(extra as int));
    }
    out
}

/// A place in the merge of two ascending lists: the index of an item that
/// only the left list holds, or that only the right list holds, or the
/// indices at which both lists hold the same item.
#[derive(Debug, PartialEq, Eq)]
pub enum JoinPlace {
    Left(usize),
    Right(usize),
    Both(usize, usize),
}

/// The items ascend strictly.
pub open spec fn items_ascend(items: Seq<usize>) -> bool {
    forall|i: int, j: int| 0 <= i < j < items.len() ==> (#[trigger] items[i]) < (#[trigger] items[j])
}

/// The place names an item that both lists hold.
pub open spec fn is_shared_place(current: Seq<usize>, new: Seq<usize>, place: JoinPlace) -> bool {
    place matches JoinPlace::Both(i, j) ==> i < current.len() && j < new.len() && current[i as int]
        == new[j as int]
}

/// The place stands before the other where both name shared items.
pub open spec fn shared_before(first: JoinPlace, second: JoinPlace) -> bool {
    first matches JoinPlace::Both(i, j) ==> (second matches JoinPlace::Both(i2, j2) ==> i < i2 && j
        < j2)
}

/// What the places of a merge of two ascending lists say of the items
/// that both lists hold: each such place names equal items, the places
/// ascend in both lists, and every pair of equal items has its place.
pub open spec fn is_join(current: Seq<usize>, new: Seq<usize>, places: Seq<JoinPlace>) -> bool {
    &&& forall|k: int| 0 <= k < places.len() ==> is_shared_place(current, new, #[trigger] places[k])
    &&& forall|k: int, l: int|
        0 <= k < l < places.len() ==> shared_before(#[trigger] places[k], #[trigger] places[l])
    &&& forall|i: int, j: int|
        #![trigger current[i], new[j]]
        0 <= i < current.len() && 0 <= j < new.len() && current[i] == new[j] ==> exists|k: int|
            0 <= k < places.len() && #[trigger] places[k] == JoinPlace::Both(
                i as usize,
                j as usize,
            )
}

/// The index in the left list of a place of shared items; `-1` for
/// another place.
pub open spec fn left_index(place: JoinPlace) -> int {
    match place {
        JoinPlace::Both(i, j) => i as int,
        _ => -1,
    }
}

/// Entries whose base position `new` does not hold add nothing to an
/// intersection.
proof fn lemma_intersected_skip(current: Seq<Joined>, new: Seq<(int, int)>, n: int, i: int)
    requires
        0 <= n <= i <= current.len(),
        forall|m: int| n <= m < i ==> !has_base(new, (#[trigger] current[m]).0),
    ensures
        intersected(current.take(i), new) == intersected(current.take(n), new),
    decreases i - n,
{
    if n < i {
        lemma_intersected_skip(current, new, n, i - 1);
        assert(current.take(i).drop_last() =~= current.take(i - 1));
        assert(current.take(i).last() == current[i - 1]);
    }
}

/// The base positions of entries.
fn current_bases(current_positions: &Vec<(usize, Vec<usize>)>) -> (bases: Vec<usize>)
    ensures
        bases.len() == current_positions.len(),
        forall|i: int| 0 <= i < bases.len() ==> (#[trigger] bases[i]) == current_positions[i].0,
{
    let mut bases: Vec<usize> = Vec::new();
    let mut i: usize = 0;
    while i < current_positions.len()
        invariant
            i <= current_positions.len(),
            bases.len() == i,
            forall|k: int| 0 <= k < i ==> (#[trigger] bases[k]) == current_positions[k].0,
        decreases current_positions.len() - i,
    {
        bases.push(current_positions[i].0);
        i += 1;
    }
    bases
}

/// The base positions of pairs.
fn new_bases(new_positions: &[(usize, usize)]) -> (bases: Vec<usize>)
    ensures
        bases.len() == new_positions.len(),
        forall|i: int| 0 <= i < bases.len() ==> (#[trigger] bases[i]) == new_positions[i].0,
{
    let mut bases: Vec<usize> = Vec::new();
    let mut i: usize = 0;
    while i < new_positions.len()
        invariant
            i <= new_positions.len(),
            bases.len() == i,
            forall|k: int| 0 <= k < i ==> (#[trigger] bases[k]) == new_positions[k].0,
        decreases new_positions.len() - i,
    {
        bases.push(new_positions[i].0);
        i += 1;
    }
    bases
}

/// Intersects two lists of word positions, both ascending by their position
/// in the base input: keeps the entries of `current_positions` whose base
/// position `new_positions` holds too, and adds to each the other position
/// that `new_positions` pairs with it.
pub fn intersect_unchanged_words(
    current_positions: Vec<(usize, Vec<usize>)>,
    new_positions: &[(usize, usize)],
) -> (result: Vec<(usize, Vec<usize>)>)
    requires
        forall|i: int, j: int|
            0 <= i < j < current_positions.len() ==> (#[trigger] current_positions[i]).0 < (
            #[trigger] current_positions[j]).0,
        ascending(pairs_view(new_positions@)),
    ensures
        joined_view(result@) == intersected(
            joined_view(current_positions@),
            pairs_view(new_positions@),
        ),
{
    let ghost current = joined_view(current_positions@);
    let ghost new = pairs_view(new_positions@);
    let left: Vec<usize> = current_bases(&current_positions);
    let right: Vec<usize> = new_bases(new_positions);
    proof {
        assert forall|i: int, j: int| 0 <= i < j < right.len() implies (#[trigger] right[i]) < (
        #[trigger] right[j]) by {
            assert(new[i].0 < new[j].0);
        }
    }
    let places: Vec<JoinPlace> = merge_join_places(left.as_slice(), right.as_slice());
    let mut result: Vec<(usize, Vec<usize>)> = Vec::new();
    let mut k: usize = 0;
    let ghost mut n: int = 0;
    let ghost mut last: int = 0;
    proof {
        assert(current.take(0) =~= Seq::<Joined>::empty());
        assert(joined_view(result@) =~= Seq::<Joined>::empty());
    }
    while k < places.len()
        invariant
            current == joined_view(current_positions@),
            new == pairs_view(new_positions@),
            ascending(new),
            left.len() == current_positions.len(),
            right.len() == new_positions.len(),
            forall|i: int| 0 <= i < left.len() ==> (#[trigger] left[i]) == current_positions[i].0,
            forall|i: int| 0 <= i < right.len() ==> (#[trigger] right[i]) == new_positions[i].0,
            is_join(left@, right@, places@),
            k <= places.len(),
            0 <= n <= current.len(),
            forall|l: int| 0 <= l < k ==> left_index(#[trigger] places[l]) < n,
            n > 0 ==> 0 <= last < k && left_index(places[last]) == n - 1,
            joined_view(result@) == intersected(current.take(n), new),
        decreases places.len() - k,
    {
        match &places[k] {
            JoinPlace::Both(i, j) => {
                let i: usize = *i;
                let j: usize = *j;
                let ghost done = joined_view(result@);
                proof {
                    assert(is_shared_place(left@, right@, places[k as int]));
                    assert(left[i as int] == right[j as int]);
                    assert(n <= i) by {
                        if n > 0 {
                            assert(shared_before(places[last], places[k as int]));
                        }
                    }
                    assert forall|m: int| n <= m < i implies !has_base(
                        new,
                        (#[trigger] current[m]).0,
                    ) by {
                        if has_base(new, current[m].0) {
                            let c = choose|c: int|
                                0 <= c < new.len() && (#[trigger] new[c]).0 == current[m].0;
                            assert(left[m] == right[c]);
                            let l = choose|l: int|
                                0 <= l < places.len() && #[trigger] places[l] == JoinPlace::Both(
                                    m as usize,
                                    c as usize,
                                );
                            if l < k {
                            } else if l > k {
                                assert(shared_before(places[k as int], places[l]));
                            }
                        }
                    }
                    lemma_intersected_skip(current, new, n, i as int);
                    assert(current.take(i + 1).drop_last() =~= current.take(i as int));
                    assert(current.take(i + 1).last() == current[i as int]);
                    assert(new[j as int].0 == current[i as int].0);
                    lemma_other_of(new, j as int);
                }
                let others: Vec<usize> = copy_with(&current_positions[i].1, new_positions[j].1);
                result.push((current_positions[i].0, others));
                proof {
                    assert(joined_view(result@) =~= done.push(
                        (current[i as int].0, current[i as int].1.push(new[j as int].1)),
                    ));
                    n = i + 1;
                    last = k as int;
                }
            },
            _ => {},
        }
        k += 1;
    }
    proof {
        assert forall|m: int| n <= m < current.len() implies !has_base(
            new,
            (#[trigger] current[m]).0,
        ) by {
            if has_base(new, current[m].0) {
                let c = choose|c: int| 0 <= c < new.len() && (#[trigger] new[c]).0 == current[m].0;
                assert(left[m] == right[c]);
                let l = choose|l: int|
                    0 <= l < places.len() && #[trigger] places[l] == JoinPlace::Both(
                        m as usize,
                        c as usize,
                    );
            }
        }
        lemma_intersected_skip(current, new, n, current.len() as int);
        assert(current.take(current.len() as int) =~= current);
    }
    result
}

} // verus!
