//! Tokenized inputs of a diff: a text, its token ranges and the tokens'
//! hashes.

use super::compare::lemma_seeded_hash_respects_eq;
use super::compare::seeded_hash;
use super::compare::CompareBytes;
use super::compare::WordComparator;
use std::ops::Range;
use vstd::prelude::*;
use vstd::slice::slice_subrange;

verus! {

/// A token of a text as the diff sees it: its bytes and their hash.
pub struct Word {
    pub hash: u64,
    pub text: Seq<u8>,
}

/// Two words are the same to the diff when their hashes agree and the
/// comparator finds their texts equivalent.
pub open spec fn word_eq<C: CompareBytes>(comp: &C, a: Word, b: Word) -> bool {
    a.hash == b.hash && comp.eq_spec(a.text, b.text)
}

/// Every range lies inside a text of length `len`.
pub open spec fn ranges_in_bounds(ranges: Seq<Range<usize>>, len: int) -> bool {
    forall|i: int| 0 <= i < ranges.len() ==> (#[trigger] ranges[i]).start <= ranges[i].end <= len
}

/// The ranges ascend without overlapping; a range may be empty.
pub open spec fn ranges_ordered(ranges: Seq<Range<usize>>) -> bool {
    forall|i: int, j: int|
        0 <= i < j < ranges.len() ==> (#[trigger] ranges[i]).end <= (#[trigger] ranges[j]).start
}

/// The words that ranges and hashes cut out of a text.
pub open spec fn words_of(text: Seq<u8>, ranges: Seq<Range<usize>>, hashes: Seq<u64>) -> Seq<
    Word,
> {
    Seq::new(
        ranges.len(),
        |i: int|
            Word {
                hash: hashes[i],
                text: text.subrange(ranges[i].start as int, ranges[i].end as int),
            },
    )
}

/// The hashes of the tokens that the ranges cut out of a text, under the
/// comparator and behind a seed.
pub open spec fn seeded_hashes<C: CompareBytes>(
    compare: &C,
    seed: Seq<Seq<u8>>,
    text: Seq<u8>,
    ranges: Seq<Range<usize>>,
) -> Seq<u64> {
    Seq::new(
        ranges.len(),
        |i: int|
            seeded_hash(compare, seed, text.subrange(ranges[i].start as int, ranges[i].end as int)),
    )
}

/// Words with seeded hashes are the same to the diff exactly when the
/// comparator finds their texts equivalent.
pub proof fn lemma_seeded_word_eq<C: CompareBytes>(
    compare: &C,
    seed: Seq<Seq<u8>>,
    a: Seq<u8>,
    b: Seq<u8>,
)
    ensures
        word_eq(
            compare,
            Word { hash: seeded_hash(compare, seed, a), text: a },
            Word { hash: seeded_hash(compare, seed, b), text: b },
        ) == compare.eq_spec(a, b),
{
    if compare.eq_spec(a, b) {
        lemma_seeded_hash_respects_eq(compare, seed, a, b);
    }
}

/// A whole input: text, token ranges, and one hash for each token.
pub struct DiffSource<'input, 'aux> {
    pub text: &'input [u8],
    pub ranges: &'aux [Range<usize>],
    pub hashes: Vec<u64>,
}

/// A window of the tokens of an input.
pub struct LocalDiffSource<'input, 'aux> {
    pub text: &'input [u8],
    pub ranges: &'aux [Range<usize>],
    pub hashes: &'aux [u64],
    /// The number of preceding tokens that the window leaves out.
    pub global_offset: usize,
}

impl<'input, 'aux> DiffSource<'input, 'aux> {
    /// There is a hash for each token, and each token lies inside the text.
    pub open spec fn wf(&self) -> bool {
        &&& self.hashes.len() == self.ranges.len()
        &&& ranges_in_bounds(self.ranges@, self.text.len() as int)
    }

    pub open spec fn words(&self) -> Seq<Word> {
        words_of(self.text@, self.ranges@, self.hashes@)
    }

    /// Hashes each token of `text` under the comparator.
    pub fn new<C: CompareBytes>(
        text: &'input [u8],
        ranges: &'aux [Range<usize>],
        comp: &WordComparator<C>,
    ) -> (source: Self)
        requires
            ranges_in_bounds(ranges@, text.len() as int),
        ensures
            source.wf(),
            source.text == text,
            source.ranges == ranges,
            source.hashes@ == seeded_hashes(&comp.compare, comp.seed(), text@, ranges@),
    {
        let mut hashes: Vec<u64> = Vec::new();
        let mut i: usize = 0;
        while i < ranges.len()
            invariant
                i <= ranges.len(),
                hashes.len() == i,
                ranges_in_bounds(ranges@, text.len() as int),
                forall|j: int|
                    0 <= j < i ==> hashes[j] == #[trigger] seeded_hashes(
                        &comp.compare,
                        comp.seed(),
                        text@,
                        ranges@,
                    )[j],
            decreases ranges.len() - i,
        {
            let word: &[u8] = slice_subrange(text, ranges[i].start, ranges[i].end);
            hashes.push(comp.hash_one(word));
            i += 1;
        }
        proof {
            assert(hashes@ =~= seeded_hashes(&comp.compare, comp.seed(), text@, ranges@));
        }
        DiffSource { text, ranges, hashes }
    }

    /// The window that holds every token.
    pub fn local(&self) -> (local: LocalDiffSource<'input, '_>)
        requires
            self.wf(),
        ensures
            local.wf(),
            local.words() == self.words(),
            local.global_offset == 0,
            local.text == self.text,
    {
        LocalDiffSource {
            text: self.text,
            ranges: self.ranges,
            hashes: self.hashes.as_slice(),
            global_offset: 0,
        }
    }

    /// The byte range of the token at `position`.
    pub fn range_at(&self, position: usize) -> (range: Range<usize>)
        requires
            position < self.ranges.len(),
        ensures
            range == self.ranges[position as int],
    {
        let r: &Range<usize> = &self.ranges[position];
        r.start..r.end
    }
}

impl<'input, 'aux> LocalDiffSource<'input, 'aux> {
    /// There is a hash for each token, each token lies inside the text, and
    /// global positions fit the machine.
    pub open spec fn wf(&self) -> bool {
        &&& self.hashes.len() == self.ranges.len()
        &&& ranges_in_bounds(self.ranges@, self.text.len() as int)
        &&& self.global_offset + self.ranges.len() <= usize::MAX
    }

    pub open spec fn words(&self) -> Seq<Word> {
        words_of(self.text@, self.ranges@, self.hashes@)
    }

    /// The number of tokens in the window.
    pub fn len(&self) -> (n: usize)
        requires
            self.wf(),
        ensures
            n == self.words().len(),
    {
        self.ranges.len()
    }

    /// The window of the tokens from `start` up to `end`.
    pub fn narrowed(&self, start: usize, end: usize) -> (narrow: Self)
        requires
            self.wf(),
            start <= end <= self.ranges.len(),
        ensures
            narrow.wf(),
            narrow.words() == self.words().subrange(start as int, end as int),
            narrow.global_offset == self.global_offset + start,
            narrow.text == self.text,
    {
        let narrow = LocalDiffSource {
            text: self.text,
            ranges: slice_subrange(self.ranges, start, end),
            hashes: slice_subrange(self.hashes, start, end),
            global_offset: self.map_to_global(start),
        };
        proof {
            assert(narrow.words() =~= self.words().subrange(start as int, end as int));
        }
        narrow
    }

    /// The position in the whole input of the window's token at `position`.
    pub fn map_to_global(&self, position: usize) -> (global: usize)
        requires
            self.wf(),
            position <= self.ranges.len(),
        ensures
            global == self.global_offset + position,
    {
        self.global_offset + position
    }

    /// The hash of the token at `position`.
    pub fn hash_at(&self, position: usize) -> (hash: u64)
        requires
            self.wf(),
            position < self.ranges.len(),
        ensures
            hash == self.words()[position as int].hash,
    {
        self.hashes[position]
    }

    /// The bytes of the token at `position`.
    pub fn text_at(&self, position: usize) -> (word: &'input [u8])
        requires
            self.wf(),
            position < self.ranges.len(),
        ensures
            word@ == self.words()[position as int].text,
    {
        slice_subrange(self.text, self.ranges[position].start, self.ranges[position].end)
    }
}

/// Whether the token at `i` of `left` and the token at `j` of `right` are the
/// same word.
pub fn same_word<C: CompareBytes>(
    left: &LocalDiffSource,
    i: usize,
    right: &LocalDiffSource,
    j: usize,
    comp: &WordComparator<C>,
) -> (same: bool)
    requires
        left.wf(),
        right.wf(),
        i < left.words().len(),
        j < right.words().len(),
    ensures
        same == word_eq(&comp.compare, left.words()[i as int], right.words()[j as int]),
{
    comp.eq_hashed(left.hash_at(i), left.text_at(i), right.hash_at(j), right.text_at(j))
}

} // verus!
