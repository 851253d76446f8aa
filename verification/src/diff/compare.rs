//! Byte comparators: equivalences on byte sequences together with the bytes
//! they feed to a hasher.

use std::collections::hash_map::DefaultHasher;
use std::hash::BuildHasher;
use std::hash::RandomState;
use std::hash::Hasher;
use vstd::prelude::*;
use vstd::std_specs::hash::*;

verus! {

/// ASCII whitespace: space, tab, line feed, form feed, carriage return.
pub open spec fn spec_is_space(b: u8) -> bool {
    b == 0x20 || b == 0x09 || b == 0x0a || b == 0x0c || b == 0x0d
}

/// `text` with every whitespace byte removed.
pub open spec fn without_whitespace(text: Seq<u8>) -> Seq<u8>
    decreases text.len(),
{
    if text.len() == 0 {
        Seq::empty()
    } else if spec_is_space(text.last()) {
        without_whitespace(text.drop_last())
    } else {
        without_whitespace(text.drop_last()).push(text.last())
    }
}

/// `text` with every run of whitespace bytes replaced by one space.
pub open spec fn with_single_spaces(text: Seq<u8>) -> Seq<u8>
    decreases text.len(),
{
    if text.len() == 0 {
        Seq::empty()
    } else if !spec_is_space(text.last()) {
        with_single_spaces(text.drop_last()).push(text.last())
    } else if text.len() >= 2 && spec_is_space(text[text.len() - 2]) {
        with_single_spaces(text.drop_last())
    } else {
        with_single_spaces(text.drop_last()).push(0x20u8)
    }
}

/// The `width` low bytes of `n`, least significant first.
pub open spec fn le_bytes(n: nat, width: nat) -> Seq<u8>
    decreases width,
{
    if width == 0 {
        Seq::empty()
    } else {
        seq![(n % 256) as u8] + le_bytes(n / 256, (width - 1) as nat)
    }
}

/// What hashing `data` with a length suffix writes: the data, then its length
/// in eight bytes.
pub open spec fn suffixed_writes(data: Seq<u8>) -> Seq<Seq<u8>> {
    seq![data, le_bytes(data.len(), 8)]
}

/// Whether `b` is ASCII whitespace.
pub fn is_space(b: u8) -> (r: bool)
    ensures
        r == spec_is_space(b),
{
    b == 0x20 || b == 0x09 || b == 0x0a || b == 0x0c || b == 0x0d
}

/// Copies `text` without its whitespace bytes.
pub fn bytes_ignore_all_whitespace(text: &[u8]) -> (out: Vec<u8>)
    ensures
        out@ == without_whitespace(text@),
{
    let mut out: Vec<u8> = Vec::new();
    let mut i: usize = 0;
    while i < text.len()
        invariant
            i <= text.len(),
            out@ == without_whitespace(text@.take(i as int)),
        decreases text.len() - i,
    {
        let b: u8 = text[i];
        proof {
            assert(text@.take(i + 1).drop_last() =~= text@.take(i as int));
        }
        if !is_space(b) {
            out.push(b);
        }
        i += 1;
    }
    proof {
        assert(text@.take(text.len() as int) =~= text@);
    }
    out
}

/// Copies `text` with each run of whitespace bytes turned into one space.
pub fn bytes_ignore_whitespace_amount(text: &[u8]) -> (out: Vec<u8>)
    ensures
        out@ == with_single_spaces(text@),
{
    let mut out: Vec<u8> = Vec::new();
    let mut prev_was_space: bool = false;
    let mut i: usize = 0;
    while i < text.len()
        invariant
            i <= text.len(),
            out@ == with_single_spaces(text@.take(i as int)),
            prev_was_space == (i > 0 && spec_is_space(text[i - 1])),
        decreases text.len() - i,
    {
        let b: u8 = text[i];
        proof {
            assert(text@.take(i + 1).drop_last() =~= text@.take(i as int));
        }
        let space: bool = is_space(b);
        if !space {
            out.push(b);
        } else if !prev_was_space {
            out.push(0x20);
        }
        prev_was_space = space;
        i += 1;
    }
    proof {
        assert(text@.take(text.len() as int) =~= text@);
    }
    out
}

/// Whether two byte slices hold the same bytes.
pub fn bytes_equal(left: &[u8], right: &[u8]) -> (r: bool)
    ensures
        r == (left@ == right@),
{
    if left.len() != right.len() {
        return false;
    }
    let mut i: usize = 0;
    while i < left.len()
        invariant
            i <= left.len(),
            left.len() == right.len(),
            forall|k: int| 0 <= k < i ==> left[k] == right[k],
        decreases left.len() - i,
    {
        if left[i] != right[i] {
            return false;
        }
        i += 1;
    }
    proof {
        assert(left@ =~= right@);
    }
    true
}

/// The length of a byte sequence in eight bytes, least significant first.
pub fn length_suffix(len: usize) -> (out: Vec<u8>)
    ensures
        out@ == le_bytes(len as nat, 8),
{
    let mut out: Vec<u8> = Vec::new();
    let mut rest: usize = len;
    let mut k: usize = 0;
    while k < 8
        invariant
            k <= 8,
            out@ + le_bytes(rest as nat, (8 - k) as nat) == le_bytes(len as nat, 8),
        decreases 8 - k,
    {
        let low: u8 = (rest % 256) as u8;
        proof {
            assert(out@.push(low) + le_bytes((rest / 256) as nat, (8 - k - 1) as nat) =~= out@
                + le_bytes(rest as nat, (8 - k) as nat));
        }
        out.push(low);
        rest = rest / 256;
        k += 1;
    }
    proof {
        assert(out@ + le_bytes(rest as nat, 0) =~= out@);
    }
    out
}

/// Feeds `data` to the hasher, followed by its length, so that no two
/// different sequences are written alike.
pub fn hash_with_length_suffix(data: &[u8], state: &mut DefaultHasher)
    ensures
        final(state)@ == old(state)@ + suffixed_writes(data@),
{
    state.write(data);
    let suffix: Vec<u8> = length_suffix(data.len());
    state.write(suffix.as_slice());
    proof {
        assert(state@ =~= old(state)@ + suffixed_writes(data@));
    }
}

/// An equivalence on byte sequences, with a hash that respects it.
///
/// A comparator is a value of its own rather than a wrapper around each text,
/// so that one holding state can be passed by reference.
pub trait CompareBytes {
    /// Whether `left` and `right` are equivalent.
    spec fn eq_spec(&self, left: Seq<u8>, right: Seq<u8>) -> bool;

    /// The writes by which `text` is hashed.
    spec fn hash_spec(&self, text: Seq<u8>) -> Seq<Seq<u8>>;

    /// `eq_spec` is reflexive, symmetric and transitive.
    proof fn eq_is_equivalence(&self, a: Seq<u8>, b: Seq<u8>, c: Seq<u8>)
        ensures
            self.eq_spec(a, a),
            self.eq_spec(a, b) ==> self.eq_spec(b, a),
            self.eq_spec(a, b) && self.eq_spec(b, c) ==> self.eq_spec(a, c),
    ;

    /// Equivalent texts are hashed by the same writes.
    proof fn hash_respects_eq(&self, a: Seq<u8>, b: Seq<u8>)
        requires
            self.eq_spec(a, b),
        ensures
            self.hash_spec(a) == self.hash_spec(b),
    ;

    /// Returns true if `left` and `right` are equivalent.
    fn eq(&self, left: &[u8], right: &[u8]) -> (r: bool)
        ensures
            r == self.eq_spec(left@, right@),
    ;

    /// Feeds `text` to the hasher.
    fn hash(&self, text: &[u8], state: &mut DefaultHasher)
        ensures
            final(state)@ == old(state)@ + self.hash_spec(text@),
    ;
}

/// A comparator that cannot be copied is passed by reference.
impl<C: CompareBytes + ?Sized> CompareBytes for &C {
    open spec fn eq_spec(&self, left: Seq<u8>, right: Seq<u8>) -> bool {
        (**self).eq_spec(left, right)
    }

    open spec fn hash_spec(&self, text: Seq<u8>) -> Seq<Seq<u8>> {
        (**self).hash_spec(text)
    }

    proof fn eq_is_equivalence(&self, a: Seq<u8>, b: Seq<u8>, c: Seq<u8>) {
        (**self).eq_is_equivalence(a, b, c);
    }

    proof fn hash_respects_eq(&self, a: Seq<u8>, b: Seq<u8>) {
        (**self).hash_respects_eq(a, b);
    }

    fn eq(&self, left: &[u8], right: &[u8]) -> (r: bool) {
        (**self).eq(left, right)
    }

    fn hash(&self, text: &[u8], state: &mut DefaultHasher) {
        (**self).hash(text, state);
    }
}

/// Compares byte sequences literally.
#[derive(Clone, Copy, Debug, Default)]
pub struct CompareBytesExactly;

impl CompareBytes for CompareBytesExactly {
    open spec fn eq_spec(&self, left: Seq<u8>, right: Seq<u8>) -> bool {
        left == right
    }

    open spec fn hash_spec(&self, text: Seq<u8>) -> Seq<Seq<u8>> {
        seq![text]
    }

    proof fn eq_is_equivalence(&self, a: Seq<u8>, b: Seq<u8>, c: Seq<u8>) {
    }

    proof fn hash_respects_eq(&self, a: Seq<u8>, b: Seq<u8>) {
    }

    fn eq(&self, left: &[u8], right: &[u8]) -> (r: bool) {
        bytes_equal(left, right)
    }

    fn hash(&self, text: &[u8], state: &mut DefaultHasher) {
        state.write(text);
        proof {
            assert(state@ =~= old(state)@ + seq![text@]);
        }
    }
}

/// Compares byte sequences ignoring any whitespace occurrences.
#[derive(Clone, Copy, Debug, Default)]
pub struct CompareBytesIgnoreAllWhitespace;

impl CompareBytes for CompareBytesIgnoreAllWhitespace {
    open spec fn eq_spec(&self, left: Seq<u8>, right: Seq<u8>) -> bool {
        without_whitespace(left) == without_whitespace(right)
    }

    open spec fn hash_spec(&self, text: Seq<u8>) -> Seq<Seq<u8>> {
        suffixed_writes(without_whitespace(text))
    }

    proof fn eq_is_equivalence(&self, a: Seq<u8>, b: Seq<u8>, c: Seq<u8>) {
    }

    proof fn hash_respects_eq(&self, a: Seq<u8>, b: Seq<u8>) {
    }

    fn eq(&self, left: &[u8], right: &[u8]) -> (r: bool) {
        let l: Vec<u8> = bytes_ignore_all_whitespace(left);
        let r: Vec<u8> = bytes_ignore_all_whitespace(right);
        bytes_equal(l.as_slice(), r.as_slice())
    }

    fn hash(&self, text: &[u8], state: &mut DefaultHasher) {
        let data: Vec<u8> = bytes_ignore_all_whitespace(text);
        hash_with_length_suffix(data.as_slice(), state);
    }
}

/// Compares byte sequences ignoring changes in whitespace amount.
#[derive(Clone, Copy, Debug, Default)]
pub struct CompareBytesIgnoreWhitespaceAmount;

impl CompareBytes for CompareBytesIgnoreWhitespaceAmount {
    open spec fn eq_spec(&self, left: Seq<u8>, right: Seq<u8>) -> bool {
        with_single_spaces(left) == with_single_spaces(right)
    }

    open spec fn hash_spec(&self, text: Seq<u8>) -> Seq<Seq<u8>> {
        suffixed_writes(with_single_spaces(text))
    }

    proof fn eq_is_equivalence(&self, a: Seq<u8>, b: Seq<u8>, c: Seq<u8>) {
    }

    proof fn hash_respects_eq(&self, a: Seq<u8>, b: Seq<u8>) {
    }

    fn eq(&self, left: &[u8], right: &[u8]) -> (r: bool) {
        let l: Vec<u8> = bytes_ignore_whitespace_amount(left);
        let r: Vec<u8> = bytes_ignore_whitespace_amount(right);
        bytes_equal(l.as_slice(), r.as_slice())
    }

    fn hash(&self, text: &[u8], state: &mut DefaultHasher) {
        let data: Vec<u8> = bytes_ignore_whitespace_amount(text);
        hash_with_length_suffix(data.as_slice(), state);
    }
}

/// `std::hash::RandomState::new` makes a hasher factory with keys drawn at
/// random; nothing is claimed of the keys.
pub assume_specification[ RandomState::new ]() -> (state: RandomState)
;

/// `RandomState::build_hasher` makes a hasher from the factory's keys. The
/// keys stand behind whatever the new hasher's view is; nothing is claimed of
/// it.
pub assume_specification[ <RandomState as BuildHasher>::build_hasher ](
    builder: &RandomState,
) -> (state: DefaultHasher)
;

/// `DefaultHasher::clone` copies the state of the hasher: the copy stands
/// behind the same writes, so that it hashes what follows as the hasher
/// itself would.
pub assume_specification[ <DefaultHasher as Clone>::clone ](state: &DefaultHasher) -> (copy:
    DefaultHasher)
    ensures
        copy@ == state@,
;

/// The hash of `text` under the comparator, behind the writes that a seed
/// stands for.
pub open spec fn seeded_hash<C: CompareBytes>(compare: &C, seed: Seq<Seq<u8>>, text: Seq<u8>) -> u64 {
    DefaultHasher::spec_finish(seed + compare.hash_spec(text))
}

/// Under one seed, texts that the comparator finds equivalent have the
/// same hash.
pub proof fn lemma_seeded_hash_respects_eq<C: CompareBytes>(
    compare: &C,
    seed: Seq<Seq<u8>>,
    a: Seq<u8>,
    b: Seq<u8>,
)
    requires
        compare.eq_spec(a, b),
    ensures
        seeded_hash(compare, seed, a) == seeded_hash(compare, seed, b),
{
    compare.hash_respects_eq(a, b);
}

/// Compares words (or tokens) under a comparator, with hashes that are seeded
/// once for each value of this type.
pub struct WordComparator<C> {
    pub compare: C,
    /// A hasher with the seed of this value, and nothing written to it.
    pub seeded: DefaultHasher,
}

impl<C: CompareBytes> WordComparator<C> {
    /// What the seed of this value stands for.
    pub open spec fn seed(&self) -> Seq<Seq<u8>> {
        self.seeded@
    }

    /// The hash of `text` under this value's seed.
    pub open spec fn spec_hash(&self, text: Seq<u8>) -> u64 {
        seeded_hash(&self.compare, self.seed(), text)
    }

    /// A word comparator with freshly seeded hashes.
    pub fn new(compare: C) -> (comp: Self)
        ensures
            comp.compare == compare,
    {
        let hash_builder: RandomState = RandomState::new();
        WordComparator { compare, seeded: hash_builder.build_hasher() }
    }

    /// Whether the two words are equivalent under the comparator.
    pub fn eq(&self, left: &[u8], right: &[u8]) -> (r: bool)
        ensures
            r == self.compare.eq_spec(left@, right@),
    {
        self.compare.eq(left, right)
    }

    /// Whether two hashed words are equivalent: hashes are compared first.
    pub fn eq_hashed(
        &self,
        left_hash: u64,
        left: &[u8],
        right_hash: u64,
        right: &[u8],
    ) -> (r: bool)
        ensures
            r == (left_hash == right_hash && self.compare.eq_spec(left@, right@)),
    {
        left_hash == right_hash && self.compare.eq(left, right)
    }

    /// The hash of `text` under this value's seed: the digest of the
    /// comparator's writes for `text` behind the seed.
    pub fn hash_one(&self, text: &[u8]) -> (hash: u64)
        ensures
            hash == self.spec_hash(text@),
    {
        let mut state: DefaultHasher = self.seeded.clone();
        self.compare.hash(text, &mut state);
        state.finish()
    }
}

} // verus!
