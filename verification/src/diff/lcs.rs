//! Longest increasing chains in a sequence of positions.

use vstd::prelude::*;

verus! {

/// Among the indices `lo <= j < r` with `input[j] < input[r]`, the greatest
/// length of a longest increasing chain ending at `j`; zero if there is no
/// such index. A chain ending at `r` has length `1 + best_in(input, r, 0)`.
pub open spec fn best_in(input: Seq<usize>, r: int, lo: int) -> nat
    decreases r, r - lo,
{
    if 0 <= lo < r <= input.len() {
        let rest = best_in(input, r, lo + 1);
        let here = 1 + best_in(input, lo, 0);
        if input[lo] < input[r] && here > rest {
            here
        } else {
            rest
        }
    } else {
        0
    }
}

/// The length of the longest strictly increasing subsequence of `input` that
/// ends at index `r`.
pub open spec fn chain_len(input: Seq<usize>, r: int) -> nat {
    1 + best_in(input, r, 0)
}

/// The predecessor of `r` in its chain, searched among `lo <= j < r`: the
/// greatest index that attains `best_in`; `-1` if there is none.
pub open spec fn prev_in(input: Seq<usize>, r: int, lo: int) -> int
    decreases r - lo,
{
    if 0 <= lo < r <= input.len() {
        if input[lo] < input[r] && chain_len(input, lo) > best_in(input, r, lo + 1) {
            lo
        } else {
            prev_in(input, r, lo + 1)
        }
    } else {
        -1
    }
}

/// The least index below `k` at which the greatest chain length is reached.
pub open spec fn first_longest(input: Seq<usize>, k: int) -> int
    decreases k,
{
    if k <= 1 {
        0
    } else {
        let before = first_longest(input, k - 1);
        if chain_len(input, k - 1) > chain_len(input, before) {
            k - 1
        } else {
            before
        }
    }
}

/// The chain that ends at `r`, as pairs of a value and its index, ascending.
pub open spec fn chain_to(input: Seq<usize>, r: int) -> Seq<(usize, usize)>
    decreases r,
{
    if 0 <= r < input.len() {
        let p = prev_in(input, r, 0);
        if 0 <= p < r {
            chain_to(input, p).push((input[r], r as usize))
        } else {
            seq![(input[r], r as usize)]
        }
    } else {
        Seq::empty()
    }
}

/// The chain that `find_lcs` returns: the longest increasing chain of `input`
/// that is completed first; among the possible predecessors of an element the
/// nearest one is taken.
pub open spec fn spec_find_lcs(input: Seq<usize>) -> Seq<(usize, usize)> {
    if input.len() == 0 {
        Seq::empty()
    } else {
        chain_to(input, first_longest(input, input.len() as int))
    }
}

/// Pairs ascend strictly in both components.
pub open spec fn strictly_ascending_pairs(pairs: Seq<(usize, usize)>) -> bool {
    forall|i: int, j: int|
        0 <= i < j < pairs.len() ==> (#[trigger] pairs[i]).0 < (#[trigger] pairs[j]).0
            && pairs[i].1 < pairs[j].1
}

/// Each pair holds the value of `input` at the pair's index.
pub open spec fn pairs_of_input(input: Seq<usize>, pairs: Seq<(usize, usize)>) -> bool {
    forall|i: int|
        0 <= i < pairs.len() ==> (#[trigger] pairs[i]).1 < input.len() && pairs[i].0
            == input[pairs[i].1 as int]
}

pub proof fn lemma_best_in_bound(input: Seq<usize>, r: int, lo: int)
    ensures
        best_in(input, r, lo) <= if r >= 0 { r } else { 0 },
    decreases r, r - lo,
{
    if 0 <= lo < r <= input.len() {
        lemma_best_in_bound(input, r, lo + 1);
        lemma_best_in_bound(input, lo, 0);
    }
}

/// `prev_in` is `-1` exactly when `best_in` is zero, and otherwise names an
/// index in range with a smaller value whose chain is one shorter.
pub proof fn lemma_prev_in(input: Seq<usize>, r: int, lo: int)
    requires
        0 <= lo,
        0 <= r < input.len(),
    ensures
        best_in(input, r, lo) == 0 <==> prev_in(input, r, lo) == -1,
        prev_in(input, r, lo) != -1 ==> lo <= prev_in(input, r, lo) < r && input[prev_in(
            input,
            r,
            lo,
        )] < input[r] && chain_len(input, prev_in(input, r, lo)) == best_in(input, r, lo),
    decreases r - lo,
{
    if lo < r {
        lemma_prev_in(input, r, lo + 1);
    }
}

/// Below an index whose chain is at least as long as every earlier chain,
/// the search changes no more.
pub proof fn lemma_best_in_stable(input: Seq<usize>, r: int, at: int, lo: int)
    requires
        0 <= lo <= at <= r <= input.len(),
        forall|j: int| 0 <= j < at ==> #[trigger] chain_len(input, j) <= best_in(input, r, at),
    ensures
        best_in(input, r, lo) == best_in(input, r, at),
        prev_in(input, r, lo) == prev_in(input, r, at),
    decreases at - lo,
{
    if lo < at {
        lemma_best_in_stable(input, r, at, lo + 1);
        assert(chain_len(input, lo) <= best_in(input, r, at));
    }
}

/// The least index of a longest chain lies in range and no chain before `k`
/// is longer; every chain before it is strictly shorter.
pub proof fn lemma_first_longest(input: Seq<usize>, k: int)
    requires
        1 <= k <= input.len(),
    ensures
        0 <= first_longest(input, k) < k,
        forall|j: int|
            0 <= j < k ==> #[trigger] chain_len(input, j) <= chain_len(
                input,
                first_longest(input, k),
            ),
        forall|j: int|
            0 <= j < first_longest(input, k) ==> #[trigger] chain_len(input, j) < chain_len(
                input,
                first_longest(input, k),
            ),
    decreases k,
{
    if k > 1 {
        lemma_first_longest(input, k - 1);
    }
}

/// A chain ascends strictly in both components, ends at its index and holds
/// as many pairs as `chain_len` says.
pub proof fn lemma_chain_to(input: Seq<usize>, r: int)
    requires
        0 <= r < input.len() <= usize::MAX,
    ensures
        chain_to(input, r).len() == chain_len(input, r),
        chain_to(input, r).last() == (input[r], r as usize),
        strictly_ascending_pairs(chain_to(input, r)),
        pairs_of_input(input, chain_to(input, r)),
    decreases r,
{
    lemma_prev_in(input, r, 0);
    let p = prev_in(input, r, 0);
    if 0 <= p < r {
        lemma_chain_to(input, p);
        let before = chain_to(input, p);
        let all = chain_to(input, r);
        assert forall|i: int, j: int| 0 <= i < j < all.len() implies (#[trigger] all[i]).0 < (
        #[trigger] all[j]).0 && all[i].1 < all[j].1 by {
            if j < before.len() {
                assert(all[i] == before[i] && all[j] == before[j]);
            } else {
                assert(all[i] == before[i]);
                if i < before.len() - 1 {
                    assert(before[i].0 < before[before.len() - 1].0);
                    assert(before[i].1 < before[before.len() - 1].1);
                }
            }
        }
        assert forall|i: int| 0 <= i < all.len() implies (#[trigger] all[i]).1 < input.len()
            && all[i].0 == input[all[i].1 as int] by {
            if i < before.len() {
                assert(all[i] == before[i]);
            }
        }
    }
}

/// What `find_lcs` returns ascends strictly in both components, and pairs
/// each value of `input` it holds with the value's index.
pub proof fn lemma_find_lcs_ascending(input: Seq<usize>)
    requires
        input.len() <= usize::MAX,
    ensures
        strictly_ascending_pairs(spec_find_lcs(input)),
        pairs_of_input(input, spec_find_lcs(input)),
        input.len() > 0 ==> spec_find_lcs(input).len() > 0,
{
    if input.len() > 0 {
        lemma_first_longest(input, input.len() as int);
        lemma_chain_to(input, first_longest(input, input.len() as int));
    }
}

/// A longest chain that ends at `r` is longer than each chain that ends
/// before `r` at a smaller value.
pub proof fn lemma_best_in_covers(input: Seq<usize>, r: int, lo: int, j: int)
    requires
        0 <= lo <= j < r <= input.len(),
        input[j] < input[r],
    ensures
        best_in(input, r, lo) >= chain_len(input, j),
    decreases j - lo,
{
    if lo < j {
        lemma_best_in_covers(input, r, lo + 1, j);
    }
}

/// Pairs of `input` that ascend strictly in both components are no more
/// than the longest chain holds that ends where they end.
pub proof fn lemma_chain_is_longest(input: Seq<usize>, pairs: Seq<(usize, usize)>)
    requires
        pairs.len() > 0,
        strictly_ascending_pairs(pairs),
        pairs_of_input(input, pairs),
    ensures
        pairs.len() <= chain_len(input, pairs.last().1 as int),
    decreases pairs.len(),
{
    if pairs.len() > 1 {
        let before = pairs.drop_last();
        assert(strictly_ascending_pairs(before)) by {
            assert forall|i: int, j: int| 0 <= i < j < before.len() implies (
            #[trigger] before[i]).0 < (#[trigger] before[j]).0 && before[i].1 < before[j].1 by {
                assert(before[i] == pairs[i] && before[j] == pairs[j]);
            }
        }
        assert(pairs_of_input(input, before)) by {
            assert forall|i: int| 0 <= i < before.len() implies (#[trigger] before[i]).1
                < input.len() && before[i].0 == input[before[i].1 as int] by {
                assert(before[i] == pairs[i]);
            }
        }
        lemma_chain_is_longest(input, before);
        let p = pairs[pairs.len() - 2];
        let r = pairs[pairs.len() - 1];
        assert(before.last() == p);
        assert(p.0 < r.0 && p.1 < r.1);
        assert(p.0 == input[p.1 as int] && r.0 == input[r.1 as int]);
        lemma_best_in_covers(input, r.1 as int, 0, p.1 as int);
    }
}

/// No pairs of `input` that ascend strictly in both components are more
/// than `find_lcs` returns: the chain that it returns is a longest one.
pub proof fn lemma_find_lcs_longest(input: Seq<usize>, pairs: Seq<(usize, usize)>)
    requires
        input.len() <= usize::MAX,
        strictly_ascending_pairs(pairs),
        pairs_of_input(input, pairs),
    ensures
        pairs.len() <= spec_find_lcs(input).len(),
{
    if pairs.len() > 0 {
        let r = pairs.last().1 as int;
        assert(pairs[pairs.len() - 1].1 < input.len());
        lemma_chain_is_longest(input, pairs);
        lemma_first_longest(input, input.len() as int);
        lemma_chain_to(input, first_longest(input, input.len() as int));
        assert(chain_len(input, r) <= chain_len(input, first_longest(input, input.len() as int)));
    }
}

/// Finds a longest increasing chain in `input`, where `input[i]` is the left
/// position of the element whose right position is `i`. Returns the chain as
/// pairs of a left and a right position, ascending.
pub fn find_lcs(input: &[usize]) -> (result: Vec<(usize, usize)>)
    ensures
        result@ == spec_find_lcs(input@),
        strictly_ascending_pairs(result@),
        pairs_of_input(input@, result@),
        forall|pairs: Seq<(usize, usize)>|
            strictly_ascending_pairs(pairs) && #[trigger] pairs_of_input(input@, pairs)
                ==> pairs.len() <= result.len(),
{
    let n: usize = input.len();
    proof {
        lemma_find_lcs_ascending(input@);
        assert forall|pairs: Seq<(usize, usize)>|
            strictly_ascending_pairs(pairs) && #[trigger] pairs_of_input(
                input@,
                pairs,
            ) implies pairs.len() <= spec_find_lcs(input@).len() by {
            lemma_find_lcs_longest(input@, pairs);
        }
    }
    if n == 0 {
        return Vec::new();
    }
    // For each right position: the chain's length, the left position, and
    // the previous right position in the chain.
    let mut chain: Vec<(usize, usize, usize)> = Vec::new();
    let mut global_longest: usize = 0;
    let mut global_longest_right_pos: usize = 0;
    let mut right_pos: usize = 0;
    while right_pos < n
        invariant
            n == input.len(),
            n > 0,
            right_pos <= n,
            chain.len() == right_pos,
            forall|j: int|
                0 <= j < right_pos ==> (#[trigger] chain[j]).0 == chain_len(input@, j)
                    && chain[j].1 == input[j] && (if prev_in(input@, j, 0) == -1 {
                    chain[j].2 == usize::MAX
                } else {
                    chain[j].2 == prev_in(input@, j, 0)
                }),
            global_longest_right_pos == first_longest(input@, right_pos as int),
            global_longest == 0 ==> forall|j: int|
                0 <= j < right_pos ==> #[trigger] chain_len(input@, j) == 1,
            global_longest != 0 ==> global_longest >= 2 && right_pos > 0 && global_longest
                == chain_len(input@, first_longest(input@, right_pos as int)),
        decreases n - right_pos,
    {
        let left_pos: usize = input[right_pos];
        let mut longest_from_here: usize = 1;
        let mut previous_right_pos: usize = usize::MAX;
        let mut is_longest: bool = false;
        let mut i: usize = right_pos;
        proof {
            if right_pos > 0 {
                lemma_first_longest(input@, right_pos as int);
            }
        }
        while i > 0 && !is_longest
            invariant
                n == input.len(),
                right_pos < n,
                i <= right_pos,
                left_pos == input[right_pos as int],
                chain.len() == right_pos,
                forall|j: int|
                    0 <= j < right_pos ==> (#[trigger] chain[j]).0 == chain_len(input@, j)
                        && chain[j].1 == input[j],
                longest_from_here == 1 + best_in(input@, right_pos as int, i as int),
                if prev_in(input@, right_pos as int, i as int) == -1 {
                    previous_right_pos == usize::MAX
                } else {
                    previous_right_pos == prev_in(input@, right_pos as int, i as int)
                },
                forall|j: int|
                    0 <= j < right_pos ==> #[trigger] chain_len(input@, j) <= (if global_longest == 0 {
                        1
                    } else {
                        global_longest as int
                    }),
                is_longest ==> longest_from_here > global_longest && longest_from_here >= 2,
                !is_longest ==> longest_from_here <= (if global_longest == 0 {
                    1
                } else {
                    global_longest as int
                }),
            decreases i,
        {
            i -= 1;
            let (previous_len, previous_left_pos, _) = chain[i];
            proof {
                lemma_best_in_bound(input@, i as int, 0);
                lemma_prev_in(input@, right_pos as int, i as int);
                lemma_prev_in(input@, right_pos as int, i as int + 1);
            }
            if previous_left_pos < left_pos {
                let len: usize = previous_len + 1;
                if len > longest_from_here {
                    longest_from_here = len;
                    previous_right_pos = i;
                    if len > global_longest {
                        // No earlier element can make a longer chain.
                        is_longest = true;
                    }
                }
            }
        }
        proof {
            lemma_best_in_bound(input@, right_pos as int, 0);
            if is_longest {
                assert forall|j: int| 0 <= j < i implies #[trigger] chain_len(input@, j) <= best_in(
                    input@,
                    right_pos as int,
                    i as int,
                ) by {
                    assert(chain_len(input@, j) <= (if global_longest == 0 {
                        1
                    } else {
                        global_longest as int
                    }));
                }
                lemma_best_in_stable(input@, right_pos as int, i as int, 0);
            }
            assert(longest_from_here == chain_len(input@, right_pos as int));
            lemma_prev_in(input@, right_pos as int, 0);
            if right_pos > 0 {
                let before = first_longest(input@, right_pos as int);
                assert(chain_len(input@, before) == (if global_longest == 0 {
                    1
                } else {
                    global_longest as int
                }));
                assert(is_longest <==> chain_len(input@, right_pos as int) > chain_len(
                    input@,
                    before,
                ));
            } else {
                assert(!is_longest);
            }
        }
        if is_longest {
            global_longest = longest_from_here;
            global_longest_right_pos = right_pos;
        }
        chain.push((longest_from_here, left_pos, previous_right_pos));
        right_pos += 1;
    }

    let mut reversed: Vec<(usize, usize)> = Vec::new();
    let mut at: usize = global_longest_right_pos;
    let ghost end = at as int;
    proof {
        lemma_first_longest(input@, n as int);
    }
    loop
        invariant_except_break
            n == input.len(),
            chain.len() == n,
            0 <= at <= end < n,
            forall|j: int|
                0 <= j < n ==> (#[trigger] chain[j]).1 == input[j] && (if prev_in(input@, j, 0)
                    == -1 {
                    chain[j].2 == usize::MAX
                } else {
                    chain[j].2 == prev_in(input@, j, 0)
                }),
            chain_to(input@, end) == chain_to(input@, at as int) + reversed@.reverse(),
        ensures
            chain_to(input@, end) == reversed@.reverse(),
        decreases at,
    {
        let (_, left_pos, previous_right_pos) = chain[at];
        let ghost before = reversed@;
        reversed.push((left_pos, at));
        proof {
            lemma_prev_in(input@, at as int, 0);
            assert(reversed@.reverse() =~= seq![(left_pos, at)] + before.reverse());
            let p = prev_in(input@, at as int, 0);
            if p == -1 {
                assert(chain_to(input@, at as int) + before.reverse() =~= reversed@.reverse());
            } else {
                assert(chain_to(input@, at as int) + before.reverse() =~= chain_to(input@, p)
                    + reversed@.reverse());
            }
        }
        if previous_right_pos == usize::MAX {
            break;
        }
        at = previous_right_pos;
    }

    let mut result: Vec<(usize, usize)> = Vec::new();
    let mut k: usize = reversed.len();
    while k > 0
        invariant
            k <= reversed.len(),
            result.len() == reversed.len() - k,
            forall|j: int|
                0 <= j < result.len() ==> result[j] == reversed[reversed.len() - 1 - j],
        decreases k,
    {
        k -= 1;
        result.push(reversed[k]);
    }
    proof {
        assert(result@ =~= reversed@.reverse());
    }
    result
}

} // verus!
