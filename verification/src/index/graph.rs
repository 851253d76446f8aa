//! The commit graph of an index as plain values: for each position the
//! positions of its parents and its generation number.

use vstd::prelude::*;

verus! {

/// A commit graph by positions. A commit comes behind its parents, and has
/// a greater generation number than each of them.
pub struct Graph {
    pub parents: Seq<Seq<int>>,
    pub generations: Seq<int>,
}

impl Graph {
    /// The number of commits.
    pub open spec fn len(self) -> int {
        self.parents.len() as int
    }

    /// Whether `parent` is a parent of `child`.
    pub open spec fn is_parent(self, parent: int, child: int) -> bool {
        0 <= child < self.len() && self.parents[child].contains(parent)
    }

    /// Every commit comes behind its parents, and its generation number is
    /// greater than that of each parent.
    pub open spec fn wf(self) -> bool {
        &&& self.generations.len() == self.parents.len()
        &&& forall|child: int, k: int|
            0 <= child < self.len() && 0 <= k < self.parents[child].len() ==> 0 <= (
            #[trigger] self.parents[child][k]) < child && self.generations[self.parents[child][k]]
                < self.generations[child]
    }

    /// Whether `ancestor` is reached from `descendant` by following parent
    /// edges any number of times, none included.
    pub open spec fn is_ancestor(self, ancestor: int, descendant: int) -> bool
        decreases descendant,
    {
        if descendant < 0 || descendant >= self.len() {
            false
        } else if ancestor == descendant {
            true
        } else {
            exists|k: int|
                0 <= k < self.parents[descendant].len() && 0 <= (
                #[trigger] self.parents[descendant][k]) < descendant && self.is_ancestor(
                    ancestor,
                    self.parents[descendant][k],
                )
        }
    }

    /// Whether `ancestor` is an ancestor of `descendant` other than itself.
    pub open spec fn is_proper_ancestor(self, ancestor: int, descendant: int) -> bool {
        ancestor != descendant && self.is_ancestor(ancestor, descendant)
    }

    /// An ancestor lies at its descendant's position or before it, in range,
    /// and its generation number is the smaller one unless both are the same
    /// commit.
    pub proof fn lemma_ancestor_bounds(self, ancestor: int, descendant: int)
        requires
            self.wf(),
            self.is_ancestor(ancestor, descendant),
        ensures
            0 <= ancestor <= descendant < self.len(),
            ancestor != descendant ==> self.generations[ancestor] < self.generations[descendant],
        decreases descendant,
    {
        if ancestor != descendant {
            let k = choose|k: int|
                0 <= k < self.parents[descendant].len() && 0 <= (
                #[trigger] self.parents[descendant][k]) < descendant && self.is_ancestor(
                    ancestor,
                    self.parents[descendant][k],
                );
            self.lemma_ancestor_bounds(ancestor, self.parents[descendant][k]);
        }
    }

    /// An ancestor of a parent is an ancestor of the child.
    pub proof fn lemma_ancestor_step(self, ancestor: int, child: int, k: int)
        requires
            self.wf(),
            0 <= child < self.len(),
            0 <= k < self.parents[child].len(),
            self.is_ancestor(ancestor, self.parents[child][k]),
        ensures
            self.is_ancestor(ancestor, child),
    {
        self.lemma_ancestor_bounds(ancestor, self.parents[child][k]);
    }

    /// Ancestors of ancestors are ancestors.
    pub proof fn lemma_ancestor_transitive(self, a: int, b: int, c: int)
        requires
            self.wf(),
            self.is_ancestor(a, b),
            self.is_ancestor(b, c),
        ensures
            self.is_ancestor(a, c),
        decreases c,
    {
        if b != c {
            let k = choose|k: int|
                0 <= k < self.parents[c].len() && 0 <= (#[trigger] self.parents[c][k]) < c
                    && self.is_ancestor(b, self.parents[c][k]);
            self.lemma_ancestor_transitive(a, b, self.parents[c][k]);
            self.lemma_ancestor_step(a, c, k);
        }
    }

    /// A proper ancestor is an ancestor of a parent.
    pub proof fn lemma_proper_ancestor(self, ancestor: int, descendant: int)
        requires
            self.wf(),
            self.is_proper_ancestor(ancestor, descendant),
        ensures
            exists|k: int|
                0 <= k < self.parents[descendant].len() && #[trigger] self.is_ancestor(
                    ancestor,
                    self.parents[descendant][k],
                ),
    {
        let k = choose|k: int|
            0 <= k < self.parents[descendant].len() && 0 <= (
            #[trigger] self.parents[descendant][k]) < descendant && self.is_ancestor(
                ancestor,
                self.parents[descendant][k],
            );
        assert(self.is_ancestor(ancestor, self.parents[descendant][k]));
    }
}

} // verus!
