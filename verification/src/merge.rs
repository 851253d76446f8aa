//! Values of a merge of several sides: terms that are added and terms that
//! are removed, in turn.

use vstd::std_specs::cmp::PartialEqSpec;
use vstd::prelude::*;

verus! {

/// An N-way value: `k + 1` terms that are added, the sides, and `k` terms
/// that are removed, the bases. The terms are kept in turn, beginning and
/// ending with an add, so that the terms at even places are the adds and
/// those at odd places the removes.
#[derive(Clone, Debug, PartialEq, Eq)]
pub struct Merge<T> {
    values: Vec<T>,
}

/// The least odd place from `from` on whose term equals the add at
/// `add_index`; `-1` if there is none.
pub open spec fn first_equal_remove<T: PartialEq>(values: Seq<T>, add_index: int, from: int) -> int
    decreases values.len() + 2 - from,
{
    if from < 1 || from >= values.len() {
        -1
    } else if values[from].eq_spec(&values[add_index]) {
        from
    } else {
        first_equal_remove(values, add_index, from + 2)
    }
}

/// The terms without the add at `add_index` and the remove at
/// `remove_index`; the add that stood behind that remove takes the place of
/// the add that goes.
pub open spec fn cancelled<T>(values: Seq<T>, add_index: int, remove_index: int) -> Seq<T> {
    Seq::new(
        (values.len() - 2) as nat,
        |j: int|
            {
                let from = if j < remove_index {
                    j
                } else {
                    j + 2
                };
                if from == add_index {
                    values[remove_index + 1]
                } else {
                    values[from]
                }
            },
    )
}

/// The terms after cancelling, from the add at `add_index` on, each add
/// against the first remove that equals it.
pub open spec fn simplify_from<T: PartialEq>(values: Seq<T>, add_index: int) -> Seq<T>
    decreases values.len() + 2 - add_index,
{
    if add_index < 0 || add_index >= values.len() {
        values
    } else {
        let remove_index = first_equal_remove(values, add_index, 1);
        if 1 <= remove_index < values.len() - 1 {
            simplify_from(cancelled(values, add_index, remove_index), add_index)
        } else {
            simplify_from(values, add_index + 2)
        }
    }
}

/// The terms of a merge with every add cancelled that equals a remove.
pub open spec fn spec_simplify<T: PartialEq>(values: Seq<T>) -> Seq<T> {
    simplify_from(values, 0)
}

/// The add at the even place `a` equals no remove.
pub open spec fn add_is_free<T: PartialEq>(values: Seq<T>, a: int) -> bool {
    forall|r: int|
        0 <= r < values.len() && r % 2 == 1 ==> !(#[trigger] values[r]).eq_spec(&values[a])
}

/// No add equals a remove.
pub open spec fn is_simplified<T: PartialEq>(values: Seq<T>) -> bool {
    forall|a: int| 0 <= a < values.len() && a % 2 == 0 ==> #[trigger] add_is_free(values, a)
}

/// What the search for a remove finds: the first odd place from `from` on
/// whose term equals the add.
pub proof fn lemma_first_equal_remove<T: PartialEq>(values: Seq<T>, add_index: int, from: int)
    requires
        from >= 1,
        from % 2 == 1,
    ensures
        first_equal_remove(values, add_index, from) == -1 || (from <= first_equal_remove(
            values,
            add_index,
            from,
        ) < values.len() && first_equal_remove(values, add_index, from) % 2 == 1
            && values[first_equal_remove(values, add_index, from)].eq_spec(&values[add_index])),
        forall|r: int|
            from <= r < values.len() && r % 2 == 1 && (first_equal_remove(values, add_index, from)
                == -1 || r < first_equal_remove(values, add_index, from)) ==> !(
            #[trigger] values[r]).eq_spec(&values[add_index]),
    decreases values.len() + 2 - from,
{
    if from < values.len() && !values[from].eq_spec(&values[add_index]) {
        lemma_first_equal_remove(values, add_index, from + 2);
    }
}

/// The place that the term at `j` had before the add at `a` and the remove
/// at `r` were cancelled.
pub open spec fn origin(a: int, r: int, j: int) -> int {
    let from = if j < r {
        j
    } else {
        j + 2
    };
    if from == a {
        r + 1
    } else {
        from
    }
}

/// Cancelling an add against a remove leaves two terms fewer, each at a
/// place of the kind it had; the adds before `add_index` stay adds before it.
pub proof fn lemma_cancelled<T>(values: Seq<T>, a: int, r: int)
    requires
        values.len() % 2 == 1,
        0 <= a < values.len(),
        a % 2 == 0,
        1 <= r < values.len() - 1,
        r % 2 == 1,
    ensures
        cancelled(values, a, r).len() == values.len() - 2,
        forall|j: int|
            0 <= j < values.len() - 2 ==> 0 <= #[trigger] origin(a, r, j) < values.len() && origin(
                a,
                r,
                j,
            ) % 2 == j % 2 && (j % 2 == 0 && j < a ==> origin(a, r, j) < a) && cancelled(
                values,
                a,
                r,
            )[j] == values[origin(a, r, j)],
{
}

/// After cancelling, an add before `add_index` that equalled no remove
/// still equals none.
pub proof fn lemma_cancelled_keeps_free<T: PartialEq>(values: Seq<T>, a: int, r: int)
    requires
        values.len() % 2 == 1,
        0 <= a < values.len(),
        a % 2 == 0,
        1 <= r < values.len() - 1,
        r % 2 == 1,
        forall|j: int| 0 <= j < a && j % 2 == 0 ==> #[trigger] add_is_free(values, j),
    ensures
        forall|j: int|
            0 <= j < a && j < values.len() - 2 && j % 2 == 0 ==> #[trigger] add_is_free(
                cancelled(values, a, r),
                j,
            ),
{
    let out = cancelled(values, a, r);
    lemma_cancelled(values, a, r);
    assert forall|j: int| 0 <= j < a && j < values.len() - 2 && j % 2 == 0 implies #[trigger] add_is_free(
        out,
        j,
    ) by {
        let o = origin(a, r, j);
        assert(add_is_free(values, o));
        assert forall|q: int| 0 <= q < out.len() && q % 2 == 1 implies !(#[trigger] out[q]).eq_spec(
            &out[j],
        ) by {
            let p = origin(a, r, q);
            assert(out[q] == values[p]);
            assert(!values[p].eq_spec(&values[o]));
        }
    }
}

/// Simplifying leaves an odd number of terms, of which no add equals a
/// remove.
pub proof fn lemma_simplify_from<T: PartialEq>(values: Seq<T>, a: int)
    requires
        values.len() % 2 == 1,
        0 <= a,
        a % 2 == 0,
        forall|j: int| 0 <= j < a && j < values.len() && j % 2 == 0 ==> #[trigger] add_is_free(
            values,
            j,
        ),
    ensures
        simplify_from(values, a).len() % 2 == 1,
        simplify_from(values, a).len() <= values.len(),
        is_simplified(simplify_from(values, a)),
    decreases values.len() + 2 - a,
{
    if a < values.len() {
        let r = first_equal_remove(values, a, 1);
        lemma_first_equal_remove(values, a, 1);
        if 1 <= r < values.len() - 1 {
            lemma_cancelled(values, a, r);
            lemma_cancelled_keeps_free(values, a, r);
            lemma_simplify_from(cancelled(values, a, r), a);
        } else {
            assert(r == -1);
            assert(add_is_free(values, a));
            lemma_simplify_from(values, a + 2);
        }
    }
}

/// Where no add from `a` on equals a remove, simplifying changes nothing.
pub proof fn lemma_simplify_from_fixed<T: PartialEq>(values: Seq<T>, a: int)
    requires
        0 <= a,
        a % 2 == 0,
        forall|j: int| a <= j < values.len() && j % 2 == 0 ==> #[trigger] add_is_free(values, j),
    ensures
        simplify_from(values, a) == values,
    decreases values.len() + 2 - a,
{
    if a < values.len() {
        assert(add_is_free(values, a));
        lemma_first_equal_remove(values, a, 1);
        let r = first_equal_remove(values, a, 1);
        if r != -1 {
            assert(values[r].eq_spec(&values[a]));
        }
        lemma_simplify_from_fixed(values, a + 2);
    }
}

/// Simplifying twice gives what simplifying once gives.
pub proof fn lemma_simplify_idempotent<T: PartialEq>(values: Seq<T>)
    requires
        values.len() % 2 == 1,
    ensures
        spec_simplify(spec_simplify(values)) == spec_simplify(values),
        is_simplified(spec_simplify(values)),
        spec_simplify(values).len() % 2 == 1,
{
    lemma_simplify_from(values, 0);
    lemma_simplify_from_fixed(spec_simplify(values), 0);
}

impl<T> Merge<T> {
    /// The terms in turn: adds at even places, removes at odd places.
    pub closed spec fn values(&self) -> Seq<T> {
        self.values@
    }

    /// There is one add more than there are removes.
    pub open spec fn wf(&self) -> bool {
        self.values().len() % 2 == 1
    }

    /// The merge is resolved: one add and no remove.
    pub open spec fn spec_is_resolved(&self) -> bool {
        self.values().len() == 1
    }

    /// Creates a merge from terms in turn, adds at even places.
    pub fn from_vec(values: Vec<T>) -> (merge: Self)
        requires
            values.len() % 2 == 1,
        ensures
            merge.wf(),
            merge.values() == values@,
    {
        Merge { values }
    }

    /// Creates a value from terms of any number; it is a merge only where
    /// the number is odd.
    pub fn from_terms(values: Vec<T>) -> (merge: Self)
        ensures
            merge.values() == values@,
    {
        Merge { values }
    }

    /// Creates a merge with a single resolved value.
    pub fn resolved(value: T) -> (merge: Self)
        ensures
            merge.wf(),
            merge.spec_is_resolved(),
            merge.values() == seq![value],
    {
        let mut values: Vec<T> = Vec::new();
        values.push(value);
        Merge { values }
    }

    /// The number of sides: the number of adds.
    pub fn num_sides(&self) -> (n: usize)
        requires
            self.wf(),
        ensures
            n == self.values().len() / 2 + 1,
            2 * n == self.values().len() + 1,
    {
        self.values.len() / 2 + 1
    }

    /// Whether the merge is resolved: whether it has one add and no remove.
    pub fn is_resolved(&self) -> (r: bool)
        ensures
            r == self.spec_is_resolved(),
    {
        self.values.len() == 1
    }

    /// The resolved value, if the merge is resolved.
    pub fn as_resolved(&self) -> (value: Option<&T>)
        ensures
            match value {
                Some(v) => self.spec_is_resolved() && *v == self.values()[0],
                None => !self.spec_is_resolved(),
            },
    {
        if self.values.len() == 1 {
            Some(&self.values[0])
        } else {
            None
        }
    }

    /// The first add.
    pub fn first(&self) -> (value: &T)
        requires
            self.wf(),
        ensures
            *value == self.values()[0],
    {
        &self.values[0]
    }

    /// The add at `index`, if there is one.
    pub fn get_add(&self, index: usize) -> (value: Option<&T>)
        requires
            self.wf(),
        ensures
            match value {
                Some(v) => 2 * index < self.values().len() && *v == self.values()[2 * index],
                None => 2 * index >= self.values().len(),
            },
    {
        if index <= self.values.len() / 2 {
            Some(&self.values[2 * index])
        } else {
            None
        }
    }

    /// The remove at `index`, if there is one.
    pub fn get_remove(&self, index: usize) -> (value: Option<&T>)
        requires
            self.wf(),
        ensures
            match value {
                Some(v) => 2 * index + 1 < self.values().len() && *v == self.values()[2 * index
                    + 1],
                None => 2 * index + 1 >= self.values().len(),
            },
    {
        if index < self.values.len() / 2 {
            Some(&self.values[2 * index + 1])
        } else {
            None
        }
    }

    /// The terms in turn.
    pub fn into_vec(self) -> (values: Vec<T>)
        ensures
            values@ == self.values(),
    {
        self.values
    }

    /// The terms in turn.
    pub fn as_slice(&self) -> (values: &[T])
        ensures
            values@ == self.values(),
    {
        self.values.as_slice()
    }
}

impl<T: PartialEq> Merge<T> {
    /// Simplifies the merge by cancelling each add against the first remove
    /// that equals it, until no add equals a remove.
    pub fn simplify(self) -> (merge: Self)
        requires
            self.wf(),
            self.values().len() < usize::MAX,
            T::obeys_eq_spec(),
        ensures
            merge.wf(),
            merge.values() == spec_simplify(self.values()),
            is_simplified(merge.values()),
    {
        let ghost start = self.values();
        proof {
            lemma_simplify_idempotent(start);
        }
        let mut values: Vec<T> = self.values;
        let mut add_index: usize = 0;
        while add_index < values.len()
            invariant
                T::obeys_eq_spec(),
                values.len() % 2 == 1,
                add_index % 2 == 0,
                values.len() < usize::MAX,
                spec_simplify(start) == simplify_from(values@, add_index as int),
            decreases values.len() + 2 - add_index,
        {
            let ghost before = values@;
            let mut remove_index: usize = 1;
            let mut found: bool = false;
            while !found && remove_index < values.len()
                invariant
                    T::obeys_eq_spec(),
                    values@ == before,
                    add_index < values.len(),
                    remove_index % 2 == 1,
                    first_equal_remove(before, add_index as int, 1) == first_equal_remove(
                        before,
                        add_index as int,
                        remove_index as int,
                    ),
                    found ==> remove_index < values.len() && before[remove_index as int].eq_spec(
                        &before[add_index as int],
                    ),
                decreases values.len() + 2 - remove_index, if found { 0nat } else { 1nat },
            {
                if values[remove_index] == values[add_index] {
                    found = true;
                } else {
                    remove_index += 2;
                }
            }
            if found {
                proof {
                    assert(first_equal_remove(before, add_index as int, 1) == remove_index);
                    assert(remove_index < values.len() - 1);
                }
                if remove_index + 1 == add_index {
                    values.remove(add_index);
                    values.remove(remove_index);
                } else {
                    let moved: T = values.remove(remove_index + 1);
                    values.remove(remove_index);
                    if add_index < remove_index {
                        values.set(add_index, moved);
                    } else {
                        values.set(add_index - 2, moved);
                    }
                }
                proof {
                    assert(values@ =~= cancelled(before, add_index as int, remove_index as int));
                }
            } else {
                proof {
                    assert(first_equal_remove(before, add_index as int, 1) == -1);
                }
                add_index += 2;
            }
        }
        Merge { values }
    }
}

} // verus!

verus! {

/// The terms that stand at the given places.
pub open spec fn terms_at<T>(values: Seq<T>, places: Seq<usize>) -> Seq<T> {
    Seq::new(places.len(), |k: int| values[places[k] as int])
}

/// The terms with the given places from the one of number `from` on filled
/// anew, each with the new term of the same number.
pub open spec fn refilled<T>(values: Seq<T>, places: Seq<usize>, terms: Seq<T>, from: int) -> Seq<T>
    decreases places.len() - from,
{
    if from < 0 || from >= places.len() {
        values
    } else {
        refilled(values, places, terms, from + 1).update(places[from] as int, terms[from])
    }
}

/// The places after cancelling, from the add of number `add_index` on: as
/// the terms are cancelled, so are their places.
pub open spec fn places_from<T: PartialEq>(values: Seq<T>, places: Seq<usize>, add_index: int) -> Seq<
    usize,
>
    decreases places.len() + 2 - add_index,
{
    if add_index < 0 || add_index >= places.len() {
        places
    } else {
        let remove_index = first_equal_remove(terms_at(values, places), add_index, 1);
        if 1 <= remove_index < places.len() - 1 {
            places_from(values, cancelled(places, add_index, remove_index), add_index)
        } else {
            places_from(values, places, add_index + 2)
        }
    }
}

/// The places that the terms of the simplified merge have among the
/// terms.
pub open spec fn spec_simplified_mapping<T: PartialEq>(values: Seq<T>) -> Seq<usize> {
    places_from(values, Seq::new(values.len(), |k: int| k as usize), 0)
}

impl<T: PartialEq> Merge<T> {
    /// The places that the terms of the simplified merge have in this one.
    pub fn get_simplified_mapping(&self) -> (places: Vec<usize>)
        requires
            self.wf(),
            self.values().len() < usize::MAX,
            T::obeys_eq_spec(),
        ensures
            places@ == spec_simplified_mapping(self.values()),
            terms_at(self.values(), places@) == spec_simplify(self.values()),
            forall|k: int| 0 <= k < places.len() ==> (#[trigger] places[k]) < self.values().len(),
            places.len() % 2 == 1,
    {
        let ghost start = self.values();
        let mut places: Vec<usize> = Vec::new();
        let mut i: usize = 0;
        while i < self.values.len()
            invariant
                i <= self.values.len(),
                places.len() == i,
                forall|k: int| 0 <= k < i ==> (#[trigger] places[k]) == k,
            decreases self.values.len() - i,
        {
            places.push(i);
            i += 1;
        }
        proof {
            assert(terms_at(start, places@) =~= start);
            assert(places@ =~= Seq::new(start.len(), |k: int| k as usize));
        }
        let mut add_index: usize = 0;
        while add_index < places.len()
            invariant
                T::obeys_eq_spec(),
                start == self.values(),
                places.len() % 2 == 1,
                add_index % 2 == 0,
                places.len() < usize::MAX,
                forall|k: int| 0 <= k < places.len() ==> (#[trigger] places[k]) < start.len(),
                spec_simplify(start) == simplify_from(
                    terms_at(start, places@),
                    add_index as int,
                ),
                spec_simplified_mapping(start) == places_from(start, places@, add_index as int),
            decreases places.len() + 2 - add_index,
        {
            let ghost before = places@;
            let ghost terms = terms_at(start, before);
            let mut remove_index: usize = 1;
            let mut found: bool = false;
            while !found && remove_index < places.len()
                invariant
                    T::obeys_eq_spec(),
                    start == self.values(),
                    places@ == before,
                    terms == terms_at(start, before),
                    add_index < places.len(),
                    remove_index % 2 == 1,
                    forall|k: int| 0 <= k < places.len() ==> (#[trigger] places[k]) < start.len(),
                    first_equal_remove(terms, add_index as int, 1) == first_equal_remove(
                        terms,
                        add_index as int,
                        remove_index as int,
                    ),
                    found ==> remove_index < places.len() && terms[remove_index as int].eq_spec(
                        &terms[add_index as int],
                    ),
                decreases places.len() + 2 - remove_index, if found { 0nat } else { 1nat },
            {
                if self.values[places[remove_index]] == self.values[places[add_index]] {
                    found = true;
                } else {
                    remove_index += 2;
                }
            }
            if found {
                proof {
                    assert(first_equal_remove(terms, add_index as int, 1) == remove_index);
                    assert(remove_index < places.len() - 1);
                }
                if remove_index + 1 == add_index {
                    places.remove(add_index);
                    places.remove(remove_index);
                } else {
                    let moved: usize = places.remove(remove_index + 1);
                    places.remove(remove_index);
                    if add_index < remove_index {
                        places.set(add_index, moved);
                    } else {
                        places.set(add_index - 2, moved);
                    }
                }
                proof {
                    assert(places@ =~= cancelled(before, add_index as int, remove_index as int));
                    assert(terms_at(start, places@) =~= cancelled(
                        terms,
                        add_index as int,
                        remove_index as int,
                    ));
                }
            } else {
                proof {
                    assert(first_equal_remove(terms, add_index as int, 1) == -1);
                }
                add_index += 2;
            }
        }
        places
    }

    /// Puts the terms of a simplified merge, which may have changed, back
    /// at the places that they had before the merge was simplified; the
    /// terms that were cancelled stay.
    pub fn update_from_simplified(self, simplified: Merge<T>) -> (merge: Self)
        requires
            self.wf(),
            self.values().len() < usize::MAX,
            T::obeys_eq_spec(),
            simplified.values().len() == spec_simplify(self.values()).len(),
        ensures
            merge.wf(),
            merge.values() == refilled(
                self.values(),
                spec_simplified_mapping(self.values()),
                simplified.values(),
                0,
            ),
    {
        let places = self.get_simplified_mapping();
        let ghost start = self.values();
        let ghost terms = simplified.values();
        let mut values: Vec<T> = self.values;
        let mut rest: Vec<T> = simplified.values;
        proof {
            assert(terms_at(start, places@).len() == places.len());
        }
        while rest.len() > 0
            invariant
                rest.len() <= places.len(),
                terms.len() == places.len(),
                values.len() == start.len(),
                forall|k: int| 0 <= k < places.len() ==> (#[trigger] places[k]) < start.len(),
                forall|k: int| 0 <= k < rest.len() ==> rest[k] == terms[k],
                values@ == refilled(start, places@, terms, rest.len() as int),
            decreases rest.len(),
        {
            let k: usize = rest.len() - 1;
            match rest.pop() {
                Some(term) => {
                    values.set(places[k], term);
                },
                None => {},
            }
        }
        Merge { values }
    }
}

} // verus!

verus! {

/// Removes and adds put in turn, beginning and ending with an add.
pub open spec fn in_turn_of<T>(removes: Seq<T>, adds: Seq<T>) -> Seq<T> {
    Seq::new(
        (2 * removes.len() + 1) as nat,
        |j: int|
            if j % 2 == 0 {
                adds[j / 2]
            } else {
                removes[j / 2]
            },
    )
}

impl<T> Merge<T> {
    /// Creates a merge from the terms that are removed and the terms that
    /// are added, of which there is one more.
    pub fn from_removes_adds(removes: Vec<T>, adds: Vec<T>) -> (merge: Self)
        requires
            adds.len() == removes.len() + 1,
        ensures
            merge.wf(),
            merge.values() == in_turn_of(removes@, adds@),
    {
        let ghost wanted = in_turn_of(removes@, adds@);
        let mut removes = removes;
        let mut adds = adds;
        let mut reversed: Vec<T> = Vec::new();
        // The terms are taken from the ends, so the last term comes first.
        while adds.len() > 0
            invariant
                adds.len() == removes.len() + 1 || (adds.len() == 0 && removes.len() == 0),
                reversed.len() + adds.len() + removes.len() == wanted.len(),
                wanted.len() % 2 == 1,
                forall|k: int| 0 <= k < adds.len() ==> (#[trigger] adds[k]) == wanted[2 * k],
                forall|k: int|
                    0 <= k < removes.len() ==> (#[trigger] removes[k]) == wanted[2 * k + 1],
                forall|k: int|
                    0 <= k < reversed.len() ==> (#[trigger] reversed[k]) == wanted[wanted.len() - 1
                        - k],
            decreases adds.len(),
        {
            match adds.pop() {
                Some(add) => {
                    reversed.push(add);
                },
                None => {},
            }
            match removes.pop() {
                Some(remove) => {
                    reversed.push(remove);
                },
                None => {},
            }
        }
        let mut values: Vec<T> = Vec::new();
        while reversed.len() > 0
            invariant
                values.len() + reversed.len() == wanted.len(),
                forall|k: int|
                    0 <= k < reversed.len() ==> (#[trigger] reversed[k]) == wanted[wanted.len() - 1
                        - k],
                forall|k: int| 0 <= k < values.len() ==> (#[trigger] values[k]) == wanted[k],
            decreases reversed.len(),
        {
            match reversed.pop() {
                Some(value) => {
                    values.push(value);
                },
                None => {},
            }
        }
        proof {
            assert(values@ =~= wanted);
        }
        Merge { values }
    }

    /// Creates a resolved merge of a value that is present.
    pub fn normal(value: T) -> (merge: Merge<Option<T>>)
        ensures
            merge.wf(),
            merge.values() == seq![Some(value)],
    {
        Merge::resolved(Some(value))
    }
}

} // verus!
