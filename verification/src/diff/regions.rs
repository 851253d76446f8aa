//! Unchanged regions: for each input, one byte range of a region that all
//! inputs share.

use super::source::DiffSource;
use std::ops::Range;
use vstd::prelude::*;

verus! {

/// A region that all inputs share: its byte range in the base input and in
/// each other input.
#[derive(Debug)]
pub struct UnchangedRange {
    pub base: Range<usize>,
    pub others: Vec<Range<usize>>,
}

/// The ranges of a region side by side, the base first.
pub type Sides = Seq<Range<usize>>;

/// Every range of the region is empty.
pub open spec fn all_empty(region: Sides) -> bool {
    forall|k: int| 0 <= k < region.len() ==> (#[trigger] region[k]).start == region[k].end
}

/// On every side, `b` begins where `a` ends.
pub open spec fn contiguous(a: Sides, b: Sides) -> bool {
    forall|k: int| 0 <= k < a.len() ==> (#[trigger] a[k]).end == b[k].start
}

/// The region from the start of `a` to the end of `b`, on every side.
pub open spec fn merged(a: Sides, b: Sides) -> Sides {
    Seq::new(a.len(), |k: int| a[k].start..b[k].end)
}

/// What lies between two regions, on every side.
pub open spec fn between(a: Sides, b: Sides) -> Sides {
    Seq::new(a.len(), |k: int| a[k].end..b[k].start)
}

/// The region has one range for each input, each inside its input.
pub open spec fn region_in_bounds(region: Sides, lens: Seq<int>) -> bool {
    &&& region.len() == lens.len()
    &&& forall|k: int|
        0 <= k < lens.len() ==> (#[trigger] region[k]).start <= region[k].end <= lens[k]
}

/// On every side, `a` ends before `b` begins, or where it begins.
pub open spec fn precedes(a: Sides, b: Sides) -> bool {
    forall|k: int| 0 <= k < a.len() ==> (#[trigger] a[k]).end <= b[k].start
}

/// The region at `i` ends before the next one begins, on every side.
pub open spec fn precedes_next(regions: Seq<Sides>, i: int) -> bool {
    precedes(regions[i], regions[i + 1])
}

/// The region behind the one at `i` continues it on every side.
pub open spec fn continues_next(regions: Seq<Sides>, i: int) -> bool {
    contiguous(regions[i], regions[i + 1])
}

/// Every region is inside the inputs, and on every side the regions ascend
/// without overlapping.
pub open spec fn regions_ordered(regions: Seq<Sides>, lens: Seq<int>) -> bool {
    &&& forall|i: int| 0 <= i < regions.len() ==> region_in_bounds(#[trigger] regions[i], lens)
    &&& forall|i: int| 0 <= i < regions.len() - 1 ==> #[trigger] precedes_next(regions, i)
}

/// All sides of the region hold the same bytes.
pub open spec fn contents_agree(inputs: Seq<Seq<u8>>, region: Sides) -> bool {
    forall|k: int|
        0 <= k < region.len() ==> inputs[k].subrange(
            (#[trigger] region[k]).start as int,
            region[k].end as int,
        ) == inputs[0].subrange(region[0].start as int, region[0].end as int)
}

pub open spec fn regions_agree(inputs: Seq<Seq<u8>>, regions: Seq<Sides>) -> bool {
    forall|i: int| 0 <= i < regions.len() ==> contents_agree(inputs, #[trigger] regions[i])
}

/// The lengths of the inputs.
pub open spec fn input_lens(inputs: Seq<Seq<u8>>) -> Seq<int> {
    Seq::new(inputs.len(), |k: int| inputs[k].len() as int)
}

/// No region continues the one before it on every side.
pub open spec fn regions_compacted(regions: Seq<Sides>) -> bool {
    forall|i: int| 0 <= i < regions.len() - 1 ==> !#[trigger] continues_next(regions, i)
}

/// The first region begins at the start of every input and the last one ends
/// at the end of every input.
pub open spec fn regions_span(regions: Seq<Sides>, lens: Seq<int>) -> bool {
    &&& regions.len() >= 1
    &&& forall|k: int| 0 <= k < lens.len() ==> (#[trigger] regions[0][k]).start == 0
    &&& forall|k: int|
        0 <= k < lens.len() ==> (#[trigger] regions[regions.len() - 1][k]).end == lens[k]
}

/// The regions from index `i` on, merged where one continues the other,
/// behind the region `previous` that may still grow.
pub open spec fn compact_from(regions: Seq<Sides>, i: int, previous: Sides) -> Seq<Sides>
    decreases regions.len() - i,
{
    if 0 <= i < regions.len() {
        if contiguous(previous, regions[i]) {
            compact_from(regions, i + 1, merged(previous, regions[i]))
        } else {
            seq![previous] + compact_from(regions, i + 1, regions[i])
        }
    } else {
        seq![previous]
    }
}

/// The regions, merged where one continues the other on every side.
pub open spec fn spec_compact(regions: Seq<Sides>) -> Seq<Sides> {
    if regions.len() == 0 {
        Seq::empty()
    } else {
        compact_from(regions, 1, regions[0])
    }
}

impl UnchangedRange {
    /// The ranges of the region side by side, the base first.
    pub open spec fn sides(&self) -> Sides {
        seq![self.base] + self.others@
    }

    /// Turns word positions into byte ranges in the source texts.
    pub fn from_word_positions(
        base_source: &DiffSource,
        other_sources: &[DiffSource],
        base_position: usize,
        other_positions: &[usize],
    ) -> (region: Self)
        requires
            other_sources.len() == other_positions.len(),
            base_position < base_source.ranges.len(),
            forall|k: int|
                0 <= k < other_sources.len() ==> (#[trigger] other_positions[k])
                    < other_sources[k].ranges.len(),
        ensures
            region.base == base_source.ranges[base_position as int],
            region.others.len() == other_sources.len(),
            forall|k: int|
                0 <= k < other_sources.len() ==> (#[trigger] region.others[k])
                    == other_sources[k].ranges[other_positions[k] as int],
    {
        let base: Range<usize> = base_source.range_at(base_position);
        let mut others: Vec<Range<usize>> = Vec::new();
        let mut k: usize = 0;
        while k < other_sources.len()
            invariant
                other_sources.len() == other_positions.len(),
                k <= other_sources.len(),
                others.len() == k,
                forall|j: int|
                    0 <= j < other_sources.len() ==> (#[trigger] other_positions[j])
                        < other_sources[j].ranges.len(),
                forall|j: int|
                    0 <= j < k ==> (#[trigger] others[j])
                        == other_sources[j].ranges[other_positions[j] as int],
            decreases other_sources.len() - k,
        {
            others.push(other_sources[k].range_at(other_positions[k]));
            k += 1;
        }
        UnchangedRange { base, others }
    }

    /// Whether the region is empty on every side.
    pub fn is_all_empty(&self) -> (empty: bool)
        ensures
            empty == all_empty(self.sides()),
    {
        let ghost sides = self.sides();
        if self.base.start != self.base.end {
            proof {
                assert(sides[0] == self.base);
            }
            return false;
        }
        let mut k: usize = 0;
        while k < self.others.len()
            invariant
                sides == self.sides(),
                k <= self.others.len(),
                forall|j: int| 0 <= j < k ==> (#[trigger] self.others[j]).start == self.others[j].end,
            decreases self.others.len() - k,
        {
            if self.others[k].start != self.others[k].end {
                proof {
                    assert(sides[k + 1] == self.others[k as int]);
                }
                return false;
            }
            k += 1;
        }
        proof {
            assert forall|j: int| 0 <= j < sides.len() implies (#[trigger] sides[j]).start
                == sides[j].end by {
                if j > 0 {
                    assert(sides[j] == self.others[j - 1]);
                }
            }
        }
        true
    }

    /// A copy of the region.
    pub fn duplicate(&self) -> (copy: Self)
        ensures
            copy.sides() == self.sides(),
            copy.base == self.base,
            copy.others@ == self.others@,
    {
        let mut others: Vec<Range<usize>> = Vec::new();
        let mut k: usize = 0;
        while k < self.others.len()
            invariant
                k <= self.others.len(),
                others.len() == k,
                forall|j: int| 0 <= j < k ==> others[j] == self.others[j],
            decreases self.others.len() - k,
        {
            others.push(self.others[k].start..self.others[k].end);
            k += 1;
        }
        proof {
            assert(others@ =~= self.others@);
        }
        UnchangedRange { base: self.base.start..self.base.end, others }
    }
}

/// The regions of a list, each as its ranges side by side.
pub open spec fn regions_view(regions: Seq<UnchangedRange>) -> Seq<Sides> {
    Seq::new(regions.len(), |i: int| regions[i].sides())
}

/// Whether `current` continues `previous` on every side.
pub fn continues(previous: &UnchangedRange, current: &UnchangedRange) -> (r: bool)
    requires
        previous.others.len() == current.others.len(),
    ensures
        r == contiguous(previous.sides(), current.sides()),
{
    let ghost a = previous.sides();
    let ghost b = current.sides();
    if previous.base.end != current.base.start {
        proof {
            assert(a[0] == previous.base && b[0] == current.base);
        }
        return false;
    }
    let mut k: usize = 0;
    while k < previous.others.len()
        invariant
            a == previous.sides(),
            b == current.sides(),
            previous.others.len() == current.others.len(),
            k <= previous.others.len(),
            forall|j: int| 0 <= j < k ==> (#[trigger] previous.others[j]).end == current.others[j].start,
        decreases previous.others.len() - k,
    {
        if previous.others[k].end != current.others[k].start {
            proof {
                assert(a[k + 1] == previous.others[k as int] && b[k + 1] == current.others[k as int]);
            }
            return false;
        }
        k += 1;
    }
    proof {
        assert forall|j: int| 0 <= j < a.len() implies (#[trigger] a[j]).end == b[j].start by {
            if j > 0 {
                assert(a[j] == previous.others[j - 1] && b[j] == current.others[j - 1]);
            }
        }
    }
    true
}

/// The region from the start of `previous` to the end of `current`.
pub fn merge_regions(previous: &UnchangedRange, current: &UnchangedRange) -> (region: UnchangedRange)
    requires
        previous.others.len() == current.others.len(),
    ensures
        region.sides() == merged(previous.sides(), current.sides()),
{
    let mut others: Vec<Range<usize>> = Vec::new();
    let mut k: usize = 0;
    while k < previous.others.len()
        invariant
            previous.others.len() == current.others.len(),
            k <= previous.others.len(),
            others.len() == k,
            forall|j: int|
                0 <= j < k ==> (#[trigger] others[j]) == (previous.others[j].start..current.others[j].end),
        decreases previous.others.len() - k,
    {
        others.push(previous.others[k].start..current.others[k].end);
        k += 1;
    }
    let region = UnchangedRange { base: previous.base.start..current.base.end, others };
    proof {
        assert(region.sides() =~= merged(previous.sides(), current.sides()));
    }
    region
}

/// Merges the regions of which one continues the other on every side.
pub fn compact_regions(regions: &Vec<UnchangedRange>) -> (compacted: Vec<UnchangedRange>)
    requires
        forall|i: int|
            0 <= i < regions.len() ==> (#[trigger] regions[i]).others.len()
                == regions[0].others.len(),
    ensures
        regions_view(compacted@) == spec_compact(regions_view(regions@)),
{
    let ghost all = regions_view(regions@);
    let mut compacted: Vec<UnchangedRange> = Vec::new();
    if regions.len() == 0 {
        proof {
            assert(regions_view(compacted@) =~= spec_compact(all));
        }
        return compacted;
    }
    let mut previous: UnchangedRange = regions[0].duplicate();
    let mut i: usize = 1;
    while i < regions.len()
        invariant
            all == regions_view(regions@),
            1 <= i <= regions.len(),
            forall|j: int|
                0 <= j < regions.len() ==> (#[trigger] regions[j]).others.len()
                    == regions[0].others.len(),
            previous.others.len() == regions[0].others.len(),
            spec_compact(all) == regions_view(compacted@) + compact_from(
                all,
                i as int,
                previous.sides(),
            ),
        decreases regions.len() - i,
    {
        let current: &UnchangedRange = &regions[i];
        let ghost done = regions_view(compacted@);
        proof {
            assert(all[i as int] == current.sides());
        }
        if continues(&previous, current) {
            previous = merge_regions(&previous, current);
            proof {
                assert(previous.others.len() == regions[0].others.len()) by {
                    assert(previous.sides().len() == current.sides().len());
                }
            }
        } else {
            let ghost before = previous.sides();
            compacted.push(previous);
            previous = current.duplicate();
            proof {
                assert(regions_view(compacted@) =~= done.push(before));
                assert(done + (seq![before] + compact_from(all, i + 1, all[i as int]))
                    =~= done.push(before) + compact_from(all, i + 1, all[i as int]));
            }
        }
        i += 1;
    }
    let ghost done = regions_view(compacted@);
    let ghost last = previous.sides();
    compacted.push(previous);
    proof {
        assert(regions_view(compacted@) =~= done + seq![last]);
    }
    compacted
}

/// Compacting, from a region that ends before the others begin: the result
/// is ordered and compacted, begins where that region begins and ends where
/// the last region ends.
pub proof fn lemma_compact_from(regions: Seq<Sides>, lens: Seq<int>, i: int, previous: Sides)
    requires
        1 <= i <= regions.len(),
        regions_ordered(regions, lens),
        region_in_bounds(previous, lens),
        i < regions.len() ==> precedes(previous, regions[i]),
    ensures
        regions_ordered(compact_from(regions, i, previous), lens),
        regions_compacted(compact_from(regions, i, previous)),
        compact_from(regions, i, previous).len() >= 1,
        forall|k: int|
            0 <= k < lens.len() ==> (#[trigger] compact_from(regions, i, previous)[0][k]).start
                == previous[k].start,
        forall|k: int|
            0 <= k < lens.len() ==> (#[trigger] compact_from(regions, i, previous).last()[k]).end
                == if i < regions.len() {
                regions.last()[k].end
            } else {
                previous[k].end
            },
    decreases regions.len() - i,
{
    let out = compact_from(regions, i, previous);
    if i < regions.len() {
        let current = regions[i];
        assert(region_in_bounds(current, lens));
        if i + 1 < regions.len() {
            assert(precedes_next(regions, i));
        }
        if contiguous(previous, current) {
            let both = merged(previous, current);
            assert(region_in_bounds(both, lens)) by {
                assert forall|k: int| 0 <= k < lens.len() implies (#[trigger] both[k]).start
                    <= both[k].end <= lens[k] by {
                    assert(previous[k].end == current[k].start);
                    assert(current[k].start <= current[k].end);
                }
            }
            if i + 1 < regions.len() {
                assert(precedes(both, regions[i + 1])) by {
                    assert forall|k: int| 0 <= k < both.len() implies (#[trigger] both[k]).end
                        <= regions[i + 1][k].start by {
                        assert(current[k].end <= regions[i + 1][k].start);
                    }
                }
            }
            lemma_compact_from(regions, lens, i + 1, both);
        } else {
            lemma_compact_from(regions, lens, i + 1, current);
            let rest = compact_from(regions, i + 1, current);
            assert(out == seq![previous] + rest);
            assert forall|j: int| 0 <= j < out.len() implies region_in_bounds(
                #[trigger] out[j],
                lens,
            ) by {
                if j > 0 {
                    assert(out[j] == rest[j - 1]);
                }
            }
            assert forall|j: int|
                #![trigger precedes_next(out, j)]
                #![trigger continues_next(out, j)]
                0 <= j < out.len() - 1 implies precedes_next(out, j) && !continues_next(out, j) by {
                if j > 0 {
                    assert(out[j] == rest[j - 1] && out[j + 1] == rest[j]);
                    assert(precedes_next(rest, j - 1));
                    assert(!continues_next(rest, j - 1));
                } else {
                    assert(out[1] == rest[0]);
                    assert forall|k: int| 0 <= k < previous.len() implies (#[trigger] previous[k]).end
                        <= rest[0][k].start by {
                        assert(rest[0][k].start == current[k].start);
                    }
                    if contiguous(previous, rest[0]) {
                        assert forall|k: int| 0 <= k < previous.len() implies (
                        #[trigger] previous[k]).end == current[k].start by {
                            assert(rest[0][k].start == current[k].start);
                        }
                    }
                }
            }
            assert forall|k: int| 0 <= k < lens.len() implies (#[trigger] out.last()[k]).end
                == regions.last()[k].end by {
                assert(out.last() == rest.last());
            }
        }
    }
}

/// Compacting keeps the regions ordered and their span, and leaves no region
/// that continues the one before it.
pub proof fn lemma_spec_compact(regions: Seq<Sides>, lens: Seq<int>)
    requires
        regions_ordered(regions, lens),
        regions_span(regions, lens),
    ensures
        regions_ordered(spec_compact(regions), lens),
        regions_compacted(spec_compact(regions)),
        regions_span(spec_compact(regions), lens),
{
    assert(region_in_bounds(regions[0], lens));
    if regions.len() > 1 {
        assert(precedes_next(regions, 0));
    }
    lemma_compact_from(regions, lens, 1, regions[0]);
    let out = spec_compact(regions);
    assert forall|k: int| 0 <= k < lens.len() implies (#[trigger] out[0][k]).start == 0 by {
        assert(regions[0][k].start == 0);
    }
    assert forall|k: int| 0 <= k < lens.len() implies (#[trigger] out[out.len() - 1][k]).end
        == lens[k] by {
        assert(out.last()[k].end == regions.last()[k].end);
        assert(regions[regions.len() - 1][k].end == lens[k]);
    }
}

/// Two regions that agree, of which one continues the other, agree when
/// merged.
pub proof fn lemma_merged_agree(inputs: Seq<Seq<u8>>, a: Sides, b: Sides)
    requires
        a.len() == inputs.len(),
        region_in_bounds(a, input_lens(inputs)),
        region_in_bounds(b, input_lens(inputs)),
        contiguous(a, b),
        contents_agree(inputs, a),
        contents_agree(inputs, b),
    ensures
        contents_agree(inputs, merged(a, b)),
{
    let both = merged(a, b);
    let lens = input_lens(inputs);
    assert forall|k: int| 0 <= k < both.len() implies inputs[k].subrange(
        (#[trigger] both[k]).start as int,
        both[k].end as int,
    ) == inputs[0].subrange(both[0].start as int, both[0].end as int) by {
        assert(a[k].end == b[k].start && a[0].end == b[0].start);
        assert(a[k].start <= a[k].end <= lens[k] && b[k].start <= b[k].end <= lens[k]);
        assert(a[0].start <= a[0].end <= lens[0] && b[0].start <= b[0].end <= lens[0]);
        let x = inputs[k];
        let y = inputs[0];
        assert(x.subrange(a[k].start as int, b[k].end as int) =~= x.subrange(
            a[k].start as int,
            a[k].end as int,
        ) + x.subrange(b[k].start as int, b[k].end as int));
        assert(y.subrange(a[0].start as int, b[0].end as int) =~= y.subrange(
            a[0].start as int,
            a[0].end as int,
        ) + y.subrange(b[0].start as int, b[0].end as int));
    }
}

/// Compacting regions that agree gives regions that agree.
pub proof fn lemma_compact_from_agree(
    inputs: Seq<Seq<u8>>,
    regions: Seq<Sides>,
    i: int,
    previous: Sides,
)
    requires
        1 <= i <= regions.len(),
        inputs.len() >= 1,
        regions_ordered(regions, input_lens(inputs)),
        region_in_bounds(previous, input_lens(inputs)),
        regions_agree(inputs, regions),
        contents_agree(inputs, previous),
    ensures
        regions_agree(inputs, compact_from(regions, i, previous)),
    decreases regions.len() - i,
{
    let out = compact_from(regions, i, previous);
    let lens = input_lens(inputs);
    if i < regions.len() {
        let current = regions[i];
        assert(region_in_bounds(current, lens));
        assert(contents_agree(inputs, current));
        if contiguous(previous, current) {
            let both = merged(previous, current);
            assert(region_in_bounds(both, lens)) by {
                assert forall|k: int| 0 <= k < lens.len() implies (#[trigger] both[k]).start
                    <= both[k].end <= lens[k] by {
                    assert(previous[k].end == current[k].start);
                    assert(current[k].start <= current[k].end);
                }
            }
            lemma_merged_agree(inputs, previous, current);
            lemma_compact_from_agree(inputs, regions, i + 1, both);
        } else {
            lemma_compact_from_agree(inputs, regions, i + 1, current);
            let rest = compact_from(regions, i + 1, current);
            assert forall|j: int| 0 <= j < out.len() implies contents_agree(
                inputs,
                #[trigger] out[j],
            ) by {
                if j > 0 {
                    assert(out[j] == rest[j - 1]);
                }
            }
        }
    }
}

pub proof fn lemma_spec_compact_agree(inputs: Seq<Seq<u8>>, regions: Seq<Sides>)
    requires
        inputs.len() >= 1,
        regions.len() >= 1,
        regions_ordered(regions, input_lens(inputs)),
        regions_agree(inputs, regions),
    ensures
        regions_agree(inputs, spec_compact(regions)),
{
    assert(region_in_bounds(regions[0], input_lens(inputs)));
    lemma_compact_from_agree(inputs, regions, 1, regions[0]);
}

} // verus!
