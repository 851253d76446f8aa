//! A max-heap of index positions that may hold a position more than once;
//! the greatest position is taken out with all its duplicates at once.

use vstd::prelude::*;

verus! {

/// A heap of positions. The positions are kept in ascending order, so that
/// the greatest is the last.
#[derive(Debug)]
pub struct PositionHeap {
    items: Vec<u32>,
}

/// The positions ascend; equal ones may follow each other.
pub open spec fn is_ascending(items: Seq<u32>) -> bool {
    forall|i: int, j: int| 0 <= i < j < items.len() ==> (#[trigger] items[i]) <= (#[trigger] items[j])
}

/// The positions that a sequence holds, as a set.
pub open spec fn positions_set(items: Seq<u32>) -> Set<int> {
    Set::new(|x: int| exists|i: int| 0 <= i < items.len() && (#[trigger] items[i]) == x)
}

/// The positions with one more, which stands behind the positions that
/// are not greater.
pub open spec fn inserted(items: Seq<u32>, position: u32) -> Seq<u32>
    decreases items.len(),
{
    if items.len() == 0 || items.last() <= position {
        items.push(position)
    } else {
        inserted(items.drop_last(), position).push(items.last())
    }
}

/// The positions without those at the end that equal `item`.
pub open spec fn without_top(items: Seq<u32>, item: u32) -> Seq<u32>
    decreases items.len(),
{
    if items.len() > 0 && items.last() == item {
        without_top(items.drop_last(), item)
    } else {
        items
    }
}

/// A position is inserted before the positions that are greater.
pub proof fn lemma_inserted_at(items: Seq<u32>, position: u32, at: int)
    requires
        0 <= at <= items.len(),
        forall|i: int| at <= i < items.len() ==> (#[trigger] items[i]) > position,
        at > 0 ==> items[at - 1] <= position,
    ensures
        inserted(items, position) == items.insert(at, position),
    decreases items.len(),
{
    if at == items.len() {
        assert(items.insert(at, position) =~= items.push(position));
    } else {
        let shorter = items.drop_last();
        assert(items.last() == items[items.len() - 1]);
        assert forall|i: int| at <= i < shorter.len() implies (#[trigger] shorter[i])
            > position by {
            assert(shorter[i] == items[i]);
        }
        if at > 0 {
            assert(shorter[at - 1] == items[at - 1]);
        }
        lemma_inserted_at(shorter, position, at);
        assert(shorter.insert(at, position).push(items.last()) =~= items.insert(at, position));
    }
}

/// Without the greatest position at its end, an ascending sequence holds
/// every position but that one.
pub proof fn lemma_without_top_set(items: Seq<u32>, item: u32)
    requires
        is_ascending(items),
        items.len() > 0,
        items.last() == item,
    ensures
        positions_set(without_top(items, item)) == positions_set(items).remove(item as int),
        is_ascending(without_top(items, item)),
    decreases items.len(),
{
    let shorter = items.drop_last();
    assert forall|i: int, j: int| 0 <= i < j < shorter.len() implies (#[trigger] shorter[i]) <= (
    #[trigger] shorter[j]) by {
        assert(shorter[i] == items[i] && shorter[j] == items[j]);
    }
    let rest = without_top(items, item);
    if shorter.len() > 0 && shorter.last() == item {
        lemma_without_top_set(shorter, item);
        assert forall|x: int| positions_set(rest).contains(x) <==> positions_set(items).remove(
            item as int,
        ).contains(x) by {
            if positions_set(items).contains(x) && x != item {
                let i = choose|i: int| 0 <= i < items.len() && (#[trigger] items[i]) == x;
                assert(shorter[i] == x);
                assert(positions_set(shorter).contains(x));
            }
            if positions_set(shorter).contains(x) {
                let i = choose|i: int| 0 <= i < shorter.len() && (#[trigger] shorter[i]) == x;
                assert(items[i] == x);
            }
        }
    } else {
        reveal_with_fuel(without_top, 2);
        assert(rest == shorter);
        assert forall|x: int| positions_set(shorter).contains(x) <==> positions_set(items).remove(
            item as int,
        ).contains(x) by {
            if positions_set(items).contains(x) && x != item {
                let i = choose|i: int| 0 <= i < items.len() && (#[trigger] items[i]) == x;
                assert(shorter[i] == x);
            }
            if positions_set(shorter).contains(x) {
                let i = choose|i: int| 0 <= i < shorter.len() && (#[trigger] shorter[i]) == x;
                assert(items[i] == x);
                if x == item {
                    assert(shorter[i] <= shorter[shorter.len() - 1]);
                    assert(shorter[shorter.len() - 1] == items[items.len() - 2]);
                    assert(items[items.len() - 2] <= items[items.len() - 1]);
                }
            }
        }
    }
    assert(positions_set(rest) =~= positions_set(items).remove(item as int));
}

impl PositionHeap {
    /// The positions in ascending order.
    pub closed spec fn view(&self) -> Seq<u32> {
        self.items@
    }

    /// The positions are in ascending order.
    pub closed spec fn wf(&self) -> bool {
        is_ascending(self.items@)
    }

    /// The positions that the heap holds.
    pub open spec fn set(&self) -> Set<int> {
        positions_set(self@)
    }

    /// The greatest position, if the heap holds any.
    pub open spec fn max(&self) -> Option<int> {
        if self@.len() == 0 {
            None
        } else {
            Some(self@.last() as int)
        }
    }

    /// The greatest position is in the heap and no position is greater; of
    /// an empty heap the set is empty.
    pub proof fn lemma_max(&self)
        requires
            self.wf(),
        ensures
            match self.max() {
                Some(m) => self.set().contains(m) && forall|x: int|
                    self.set().contains(x) ==> x <= m,
                None => self.set() == Set::<int>::empty(),
            },
            forall|x: int| self.set().contains(x) ==> 0 <= x <= u32::MAX,
    {
        if self@.len() == 0 {
            assert(self.set() =~= Set::<int>::empty());
        } else {
            assert(self@[self@.len() - 1] == self@.last());
            assert forall|x: int| self.set().contains(x) implies x <= self@.last() by {
                let i = choose|i: int| 0 <= i < self@.len() && (#[trigger] self@[i]) == x;
                if i < self@.len() - 1 {
                    assert(self@[i] <= self@[self@.len() - 1]);
                }
            }
        }
    }

    /// An empty heap.
    pub fn new() -> (heap: Self)
        ensures
            heap.wf(),
            heap@.len() == 0,
            heap.set() == Set::<int>::empty(),
    {
        let heap = PositionHeap { items: Vec::new() };
        proof {
            assert(heap.set() =~= Set::<int>::empty());
        }
        heap
    }

    /// Whether the heap holds no position.
    pub fn is_empty(&self) -> (r: bool)
        ensures
            r == (self@.len() == 0),
            r == self.max().is_none(),
    {
        self.items.len() == 0
    }

    /// The greatest position, if the heap holds any.
    pub fn peek(&self) -> (top: Option<u32>)
        ensures
            match top {
                Some(m) => self.max() == Some(m as int),
                None => self.max().is_none(),
            },
    {
        if self.items.len() == 0 {
            None
        } else {
            Some(self.items[self.items.len() - 1])
        }
    }

    /// Adds a position.
    pub fn push(&mut self, position: u32)
        requires
            old(self).wf(),
        ensures
            final(self).wf(),
            final(self)@ == inserted(old(self)@, position),
            final(self).set() == old(self).set().insert(position as int),
            final(self)@.len() == old(self)@.len() + 1,
    {
        let ghost before = self.items@;
        let mut at: usize = self.items.len();
        while at > 0 && self.items[at - 1] > position
            invariant
                self.items@ == before,
                at <= before.len(),
                forall|i: int| at <= i < before.len() ==> (#[trigger] before[i]) > position,
            decreases at,
        {
            at -= 1;
        }
        self.items.insert(at, position);
        proof {
            let after = self.items@;
            assert(after == before.insert(at as int, position));
            lemma_inserted_at(before, position, at as int);
            assert forall|i: int, j: int| 0 <= i < j < after.len() implies (#[trigger] after[i]) <= (
            #[trigger] after[j]) by {
                let bi = if i < at {
                    i
                } else {
                    i - 1
                };
                let bj = if j < at {
                    j
                } else {
                    j - 1
                };
                if i != at && j != at {
                    assert(after[i] == before[bi] && after[j] == before[bj]);
                } else if i == at {
                    assert(after[j] == before[bj]);
                } else {
                    assert(after[i] == before[bi]);
                    if at > 0 {
                        assert(before[at - 1] <= position);
                        if bi < at - 1 {
                            assert(before[bi] <= before[at - 1]);
                        }
                    }
                }
            }
            assert forall|x: int| positions_set(after).contains(x) <==> positions_set(before).insert(
                position as int,
            ).contains(x) by {
                if positions_set(after).contains(x) {
                    let i = choose|i: int| 0 <= i < after.len() && (#[trigger] after[i]) == x;
                    if i < at {
                        assert(before[i] == x);
                    } else if i > at {
                        assert(before[i - 1] == x);
                    }
                }
                if positions_set(before).contains(x) {
                    let i = choose|i: int| 0 <= i < before.len() && (#[trigger] before[i]) == x;
                    if i < at {
                        assert(after[i] == x);
                    } else {
                        assert(after[i + 1] == x);
                    }
                }
                if x == position {
                    assert(after[at as int] == x);
                }
            }
            assert(positions_set(after) =~= positions_set(before).insert(position as int));
        }
    }

    /// A heap of the given positions.
    pub fn from_vec(positions: Vec<u32>) -> (heap: Self)
        ensures
            heap.wf(),
            heap.set() == positions_set(positions@),
    {
        let mut heap = PositionHeap::new();
        let mut i: usize = 0;
        while i < positions.len()
            invariant
                heap.wf(),
                i <= positions.len(),
                heap.set() == positions_set(positions@.take(i as int)),
            decreases positions.len() - i,
        {
            proof {
                let before = positions@.take(i as int);
                let after = positions@.take(i + 1);
                assert forall|x: int| positions_set(after).contains(x) <==> positions_set(
                    before,
                ).insert(positions[i as int] as int).contains(x) by {
                    if positions_set(after).contains(x) {
                        let k = choose|k: int| 0 <= k < after.len() && (#[trigger] after[k]) == x;
                        if k < i {
                            assert(before[k] == x);
                        }
                    }
                    if positions_set(before).contains(x) {
                        let k = choose|k: int| 0 <= k < before.len() && (#[trigger] before[k]) == x;
                        assert(after[k] == x);
                    }
                    if x == positions[i as int] {
                        assert(after[i as int] == x);
                    }
                }
                assert(positions_set(after) =~= positions_set(before).insert(
                    positions[i as int] as int,
                ));
            }
            heap.push(positions[i]);
            i += 1;
        }
        proof {
            assert(positions@.take(positions.len() as int) =~= positions@);
        }
        heap
    }

    /// Takes the last position out, whatever it is.
    fn pop_last(&mut self) -> (top: u32)
        requires
            old(self).wf(),
            old(self)@.len() > 0,
        ensures
            final(self).wf(),
            top == old(self)@.last(),
            final(self)@ == old(self)@.drop_last(),
    {
        match self.items.pop() {
            Some(top) => top,
            None => 0,
        }
    }
}

/// Removes the positions equal to `item` from the top of the heap: the
/// heap stays as it is where its greatest position is another.
pub fn remove_dup(heap: &mut PositionHeap, item: u32)
    requires
        old(heap).wf(),
    ensures
        final(heap).wf(),
        final(heap)@ == without_top(old(heap)@, item),
        old(heap).max() == Some(item as int) ==> final(heap).set() == old(heap).set().remove(
            item as int,
        ),
        old(heap).max() != Some(item as int) ==> final(heap)@ == old(heap)@,
{
    let ghost before = heap@;
    proof {
        proof_is_ascending(heap);
        if before.len() > 0 && before.last() == item {
            lemma_without_top_set(before, item);
        }
    }
    loop
        invariant_except_break
            heap.wf(),
            without_top(heap@, item) == without_top(before, item),
        ensures
            heap.wf(),
            heap@ == without_top(before, item),
        decreases heap@.len(),
    {
        let top: Option<u32> = heap.peek();
        let stop: bool = match top {
            Some(x) => x != item,
            None => true,
        };
        if stop {
            break ;
        }
        heap.pop_last();
    }
}

/// What `wf` says of the positions of a heap.
pub proof fn proof_is_ascending(heap: &PositionHeap)
    requires
        heap.wf(),
    ensures
        is_ascending(heap@),
{
}

/// Removes the greatest items (including duplicates) from the heap, returns
/// one.
pub fn dedup_pop(heap: &mut PositionHeap) -> (top: Option<u32>)
    requires
        old(heap).wf(),
    ensures
        final(heap).wf(),
        match top {
            Some(m) => old(heap).max() == Some(m as int) && final(heap)@ == without_top(
                old(heap)@,
                m,
            ) && final(heap).set() == old(heap).set().remove(m as int),
            None => old(heap).max().is_none() && final(heap)@ == old(heap)@,
        },
{
    if heap.is_empty() {
        return None;
    }
    let item: u32 = match heap.peek() {
        Some(item) => item,
        None => 0,
    };
    remove_dup(heap, item);
    Some(item)
}

/// Removes the greatest items (including duplicates) from the heap, inserts
/// lesser `new_item` to the heap, returns the removed one.
///
/// The greatest item gives its place to `new_item`, and then the items
/// equal to it are removed from the top: where `new_item` is not the
/// lesser one, the duplicates stay below it, or it leaves with them.
pub fn dedup_replace(heap: &mut PositionHeap, new_item: u32) -> (top: Option<u32>)
    requires
        old(heap).wf(),
    ensures
        final(heap).wf(),
        match top {
            Some(m) => old(heap).max() == Some(m as int) && final(heap)@ == without_top(
                inserted(old(heap)@.drop_last(), new_item),
                m,
            ) && (new_item < m ==> final(heap).set() == old(heap).set().remove(m as int).insert(
                new_item as int,
            )),
            None => old(heap).max().is_none() && final(heap)@ == old(heap)@,
        },
{
    if heap.is_empty() {
        return None;
    }
    let ghost before = heap@;
    proof {
        proof_is_ascending(heap);
    }
    let old_item: u32 = heap.pop_last();
    let ghost shorter = heap@;
    let ghost shorter_set = heap.set();
    heap.push(new_item);
    let ghost pushed_max = heap.max();
    let ghost pushed_set = heap.set();
    proof {
        heap.lemma_max();
    }
    remove_dup(heap, old_item);
    proof {
        if new_item < old_item {
            let m = old_item as int;
            let old_set = positions_set(before);
            // What remains without the greatest item has the items of
            // the heap but, at most, that one.
            assert forall|x: int| x != m implies (shorter_set.contains(x) <==> old_set.contains(
                x,
            )) by {
                if shorter_set.contains(x) {
                    let i = choose|i: int| 0 <= i < shorter.len() && (#[trigger] shorter[i]) == x;
                    assert(before[i] == x);
                }
                if old_set.contains(x) {
                    let i = choose|i: int| 0 <= i < before.len() && (#[trigger] before[i]) == x;
                    assert(shorter[i] == x);
                }
            }
            assert forall|x: int| shorter_set.contains(x) implies x <= m by {
                let i = choose|i: int| 0 <= i < shorter.len() && (#[trigger] shorter[i]) == x;
                assert(before[i] <= before[before.len() - 1]);
            }
            if pushed_max == Some(m) {
                assert(heap.set() =~= old_set.remove(m).insert(new_item as int));
            } else {
                assert(!pushed_set.contains(m));
                assert(heap.set() =~= old_set.remove(m).insert(new_item as int));
            }
        }
    }
    Some(old_item)
}

} // verus!
