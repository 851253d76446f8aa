//! Occurrence lists of the words of a window, found again through a hash
//! table.

use super::compare::CompareBytes;
use super::compare::WordComparator;
use super::source::same_word;
use super::source::word_eq;
use super::source::LocalDiffSource;
use super::source::Word;
use vstd::prelude::*;

verus! {

/// Words that occur more often than this are no anchors for a diff.
pub const MAX_OCCURRENCES: usize = 100;

/// The number of tokens before index `n` that are the same word as `w`.
pub open spec fn count_before<C: CompareBytes>(comp: &C, ws: Seq<Word>, w: Word, n: int) -> nat
    decreases n,
{
    if n <= 0 {
        0
    } else {
        count_before(comp, ws, w, n - 1) + if word_eq(comp, ws[n - 1], w) {
            1nat
        } else {
            0nat
        }
    }
}

/// How many times the word at `i` has occurred before `i`.
pub open spec fn occurrence<C: CompareBytes>(comp: &C, ws: Seq<Word>, i: int) -> nat {
    count_before(comp, ws, ws[i], i)
}

/// How many times `w` occurs among `ws`.
pub open spec fn total<C: CompareBytes>(comp: &C, ws: Seq<Word>, w: Word) -> nat {
    count_before(comp, ws, w, ws.len() as int)
}

/// A count as a histogram keeps it: one past the bound stands for every
/// greater count.
pub open spec fn capped(n: nat) -> nat {
    if n > MAX_OCCURRENCES {
        (MAX_OCCURRENCES + 1) as nat
    } else {
        n
    }
}

pub proof fn lemma_word_eq_equivalence<C: CompareBytes>(comp: &C, a: Word, b: Word, c: Word)
    ensures
        word_eq(comp, a, a),
        word_eq(comp, a, b) ==> word_eq(comp, b, a),
        word_eq(comp, a, b) && word_eq(comp, b, c) ==> word_eq(comp, a, c),
{
    comp.eq_is_equivalence(a.text, b.text, c.text);
}

/// The same words are counted alike.
pub proof fn lemma_count_congruent<C: CompareBytes>(
    comp: &C,
    ws: Seq<Word>,
    a: Word,
    b: Word,
    n: int,
)
    requires
        word_eq(comp, a, b),
    ensures
        count_before(comp, ws, a, n) == count_before(comp, ws, b, n),
    decreases n,
{
    if n > 0 {
        lemma_count_congruent(comp, ws, a, b, n - 1);
        lemma_word_eq_equivalence(comp, ws[n - 1], a, b);
        lemma_word_eq_equivalence(comp, a, b, a);
        lemma_word_eq_equivalence(comp, ws[n - 1], b, a);
    }
}

pub proof fn lemma_count_monotone<C: CompareBytes>(
    comp: &C,
    ws: Seq<Word>,
    w: Word,
    m: int,
    n: int,
)
    requires
        m <= n,
    ensures
        count_before(comp, ws, w, m) <= count_before(comp, ws, w, n),
        count_before(comp, ws, w, n) <= if n >= 0 { n } else { 0 },
    decreases n,
{
    if n > 0 {
        if m < n {
            lemma_count_monotone(comp, ws, w, m, n - 1);
        } else {
            lemma_count_monotone(comp, ws, w, n - 1, n - 1);
        }
    }
}

/// A count is zero exactly when the word does not occur.
pub proof fn lemma_count_zero<C: CompareBytes>(comp: &C, ws: Seq<Word>, w: Word, n: int)
    ensures
        count_before(comp, ws, w, n) == 0 <==> forall|j: int|
            0 <= j < n ==> !word_eq(comp, #[trigger] ws[j], w),
    decreases n,
{
    if n > 0 {
        lemma_count_zero(comp, ws, w, n - 1);
        if count_before(comp, ws, w, n) == 0 {
            assert forall|j: int| 0 <= j < n implies !word_eq(comp, #[trigger] ws[j], w) by {
                if j < n - 1 {
                }
            }
        } else {
            if forall|j: int| 0 <= j < n ==> !word_eq(comp, #[trigger] ws[j], w) {
                assert(!word_eq(comp, ws[n - 1], w));
                assert(forall|j: int| 0 <= j < n - 1 ==> !word_eq(comp, #[trigger] ws[j], w));
            }
        }
    }
}

/// Of two places that hold the same word, the later one has the greater
/// occurrence number.
pub proof fn lemma_occurrence_ascends<C: CompareBytes>(comp: &C, ws: Seq<Word>, i: int, j: int)
    requires
        0 <= i < j < ws.len(),
        word_eq(comp, ws[i], ws[j]),
    ensures
        occurrence(comp, ws, i) < occurrence(comp, ws, j),
{
    lemma_count_congruent(comp, ws, ws[i], ws[j], i);
    lemma_count_monotone(comp, ws, ws[j], i + 1, j);
}

/// An occurrence number is smaller than the total count of its word.
pub proof fn lemma_occurrence_below_total<C: CompareBytes>(comp: &C, ws: Seq<Word>, i: int)
    requires
        0 <= i < ws.len(),
    ensures
        occurrence(comp, ws, i) < total(comp, ws, ws[i]),
{
    lemma_word_eq_equivalence(comp, ws[i], ws[i], ws[i]);
    lemma_count_monotone(comp, ws, ws[i], i + 1, ws.len() as int);
}

/// The positions of one word in a window, ascending, in a small vector that
/// keeps up to two of them inline.
#[verifier::external_body]
pub struct WordPositions {
    items: smallvec::SmallVec<[usize; 2]>,
}

/// The positions that a `WordPositions` holds, in order.
pub uninterp spec fn positions_of(positions: WordPositions) -> Seq<usize>;

/// `SmallVec::new` makes an empty vector.
#[verifier::external_body]
pub(crate) fn positions_new() -> (positions: WordPositions)
    ensures
        positions_of(positions) == Seq::<usize>::empty(),
{
    WordPositions { items: smallvec::SmallVec::new() }
}

/// `SmallVec::push` appends an item, keeping the others in order. It fails
/// only where the length would pass what a `usize` holds.
#[verifier::external_body]
pub(crate) fn positions_push(positions: &mut WordPositions, position: usize)
    requires
        positions_of(*old(positions)).len() < usize::MAX,
    ensures
        positions_of(*final(positions)) == positions_of(*old(positions)).push(position),
{
    positions.items.push(position);
}

/// `SmallVec::len` is the number of items.
#[verifier::external_body]
pub(crate) fn positions_len(positions: &WordPositions) -> (len: usize)
    ensures
        len == positions_of(*positions).len(),
{
    positions.items.len()
}

/// Indexing a `SmallVec` below its length gives the item at that place.
#[verifier::external_body]
pub(crate) fn positions_get(positions: &WordPositions, index: usize) -> (position: usize)
    requires
        index < positions_of(*positions).len(),
    ensures
        position == positions_of(*positions)[index as int],
{
    positions.items[index]
}

/// One word of a window: the place of its first occurrence, and its first
/// occurrences up to one past `MAX_OCCURRENCES`.
pub struct HistogramEntry {
    pub first: usize,
    pub positions: WordPositions,
}

/// A hash table from words to the indices of their histogram entries. An item
/// is the index of an entry; it is stored under the hash of the entry's word.
#[verifier::external_body]
pub struct WordTable {
    table: hashbrown::HashTable<usize>,
}

/// The items of a table, each with the hash it was stored under.
pub uninterp spec fn table_items(table: WordTable) -> Set<(u64, usize)>;

/// The entries that a table may name, with hashes as the table stores them.
pub open spec fn entries_hashed(
    items: Set<(u64, usize)>,
    entries: Seq<HistogramEntry>,
    ws: Seq<Word>,
) -> bool {
    forall|h: u64, k: usize| #[trigger]
        items.contains((h, k)) ==> k < entries.len() && entries[k as int].first < ws.len()
            && ws[entries[k as int].first as int].hash == h
}

/// `HashTable::new` makes an empty table.
#[verifier::external_body]
pub(crate) fn table_new() -> (table: WordTable)
    ensures
        table_items(table) == Set::<(u64, usize)>::empty(),
{
    WordTable { table: hashbrown::HashTable::new() }
}

/// The hash of the word of entry `k`.
pub fn entry_hash(entries: &Vec<HistogramEntry>, source: &LocalDiffSource, k: usize) -> (hash:
    u64)
    requires
        source.wf(),
        k < entries.len(),
        entries[k as int].first < source.words().len(),
    ensures
        hash == source.words()[entries[k as int].first as int].hash,
{
    source.hash_at(entries[k].first)
}

/// Whether entry `k`, of a histogram of `source`, is of the word at `at` of
/// `query`.
pub fn entry_matches<C: CompareBytes>(
    entries: &Vec<HistogramEntry>,
    source: &LocalDiffSource,
    k: usize,
    query: &LocalDiffSource,
    at: usize,
    comp: &WordComparator<C>,
) -> (matches: bool)
    requires
        source.wf(),
        query.wf(),
        k < entries.len(),
        entries[k as int].first < source.words().len(),
        at < query.words().len(),
    ensures
        matches == word_eq(
            &comp.compare,
            source.words()[entries[k as int].first as int],
            query.words()[at as int],
        ),
{
    same_word(source, entries[k].first, query, at, comp)
}

/// `HashTable::find` looks for an item under `hash` that the equality
/// function accepts. It tries every item stored under that hash, and may try
/// items stored under another; it returns the first that is accepted, and
/// `None` if none is.
#[verifier::external_body]
pub(crate) fn table_find<C: CompareBytes>(
    table: &WordTable,
    hash: u64,
    entries: &Vec<HistogramEntry>,
    source: &LocalDiffSource,
    query: &LocalDiffSource,
    at: usize,
    comp: &WordComparator<C>,
) -> (found: Option<usize>)
    requires
        source.wf(),
        query.wf(),
        at < query.words().len(),
        entries_hashed(table_items(*table), entries@, source.words()),
    ensures
        match found {
            Some(k) => (exists|h: u64| table_items(*table).contains((h, k))) && word_eq(
                &comp.compare,
                source.words()[entries[k as int].first as int],
                query.words()[at as int],
            ),
            None => forall|k: usize| #[trigger]
                table_items(*table).contains((hash, k)) ==> !word_eq(
                    &comp.compare,
                    source.words()[entries[k as int].first as int],
                    query.words()[at as int],
                ),
        },
{
    table.table.find(hash, |k| entry_matches(entries, source, *k, query, at, comp)).copied()
}

/// `HashTable::insert_unique` stores an item under `hash` without looking for
/// an equal one. The hasher function is called where items move to a larger
/// table, and must give each item's hash again.
#[verifier::external_body]
pub(crate) fn table_insert(
    table: &mut WordTable,
    hash: u64,
    k: usize,
    entries: &Vec<HistogramEntry>,
    source: &LocalDiffSource,
)
    requires
        source.wf(),
        entries_hashed(table_items(*old(table)).insert((hash, k)), entries@, source.words()),
    ensures
        table_items(*final(table)) == table_items(*old(table)).insert((hash, k)),
{
    table.table.insert_unique(hash, k, |j| entry_hash(entries, source, *j));
}

/// The histogram of a window: one entry for each distinct word, in the order
/// of first occurrence.
pub struct Histogram {
    pub entries: Vec<HistogramEntry>,
    pub table: WordTable,
}

/// The word that entry `k` stands for.
pub open spec fn entry_word(ws: Seq<Word>, entries: Seq<HistogramEntry>, k: int) -> Word {
    ws[entries[k].first as int]
}

/// An entry lists the first occurrences of its word among the first `n`
/// tokens, in order, up to the cap.
pub open spec fn entry_wf<C: CompareBytes>(
    comp: &C,
    ws: Seq<Word>,
    n: int,
    entry: HistogramEntry,
) -> bool {
    let ps = positions_of(entry.positions);
    &&& entry.first < n
    &&& ps.len() >= 1
    &&& ps.len() == capped(count_before(comp, ws, ws[entry.first as int], n))
    &&& ps[0] == entry.first
    &&& forall|m: int|
        0 <= m < ps.len() ==> (#[trigger] ps[m]) < n && word_eq(
            comp,
            ws[ps[m] as int],
            ws[entry.first as int],
        ) && occurrence(comp, ws, ps[m] as int) == m
}

pub open spec fn entries_wf<C: CompareBytes>(
    comp: &C,
    ws: Seq<Word>,
    n: int,
    entries: Seq<HistogramEntry>,
) -> bool {
    forall|k: int| 0 <= k < entries.len() ==> entry_wf(comp, ws, n, #[trigger] entries[k])
}

/// No two entries stand for the same word.
pub open spec fn entries_distinct<C: CompareBytes>(
    comp: &C,
    ws: Seq<Word>,
    entries: Seq<HistogramEntry>,
) -> bool {
    forall|k1: int, k2: int|
        0 <= k1 < entries.len() && 0 <= k2 < entries.len() && k1 != k2 ==> !word_eq(
            comp,
            #[trigger] entry_word(ws, entries, k1),
            #[trigger] entry_word(ws, entries, k2),
        )
}

/// Some entry stands for the word `w`.
pub open spec fn has_entry<C: CompareBytes>(
    comp: &C,
    ws: Seq<Word>,
    entries: Seq<HistogramEntry>,
    w: Word,
) -> bool {
    exists|k: int|
        0 <= k < entries.len() && word_eq(comp, #[trigger] entry_word(ws, entries, k), w)
}

/// Each of the first `n` tokens has an entry.
pub open spec fn entries_cover<C: CompareBytes>(
    comp: &C,
    ws: Seq<Word>,
    n: int,
    entries: Seq<HistogramEntry>,
) -> bool {
    forall|i: int| 0 <= i < n ==> has_entry(comp, ws, entries, #[trigger] ws[i])
}

/// The table holds each entry's index under the hash of the entry's word,
/// and nothing else.
pub open spec fn table_matches(
    items: Set<(u64, usize)>,
    ws: Seq<Word>,
    entries: Seq<HistogramEntry>,
) -> bool {
    forall|h: u64, k: usize| #[trigger]
        items.contains((h, k)) <==> k < entries.len() && h == entry_word(ws, entries, k as int).hash
}

impl Histogram {
    /// The histogram holds the first `n` tokens of `ws`: an entry for each
    /// word among them and for no other, no word twice, and the table finds
    /// each entry under its word's hash.
    pub open spec fn wf_upto<C: CompareBytes>(&self, comp: &C, ws: Seq<Word>, n: int) -> bool {
        &&& n <= ws.len() <= usize::MAX
        &&& entries_wf(comp, ws, n, self.entries@)
        &&& entries_distinct(comp, ws, self.entries@)
        &&& entries_cover(comp, ws, n, self.entries@)
        &&& table_matches(table_items(self.table), ws, self.entries@)
    }

    /// The histogram holds all of `ws`.
    pub open spec fn wf<C: CompareBytes>(&self, comp: &C, ws: Seq<Word>) -> bool {
        self.wf_upto(comp, ws, ws.len() as int)
    }

    /// Counts the words of `source`.
    pub fn calculate<C: CompareBytes>(source: &LocalDiffSource, comp: &WordComparator<C>) -> (hist:
        Self)
        requires
            source.wf(),
        ensures
            hist.wf(&comp.compare, source.words()),
    {
        let ghost ws = source.words();
        let ghost c = &comp.compare;
        let mut hist = Histogram { entries: Vec::new(), table: table_new() };
        let n: usize = source.len();
        let mut i: usize = 0;
        while i < n
            invariant
                source.wf(),
                ws == source.words(),
                c == &comp.compare,
                n == ws.len(),
                i <= n,
                hist.wf_upto(c, ws, i as int),
            decreases n - i,
        {
            let hash: u64 = source.hash_at(i);
            let ghost before = hist.entries@;
            let ghost items = table_items(hist.table);
            proof {
                lemma_entries_hashed(c, ws, i as int, before, items);
            }
            let found: Option<usize> = table_find(
                &hist.table,
                hash,
                &hist.entries,
                source,
                source,
                i,
                comp,
            );
            match found {
                Some(k) => {
                    let len: usize = positions_len(&hist.entries[k].positions);
                    if len <= MAX_OCCURRENCES {
                        positions_push(&mut hist.entries[k].positions, i);
                    }
                    proof {
                        let after = hist.entries@;
                        assert(after[k as int].first == before[k as int].first);
                        assert(forall|j: int|
                            0 <= j < before.len() && j != k ==> after[j] == before[j]);
                        lemma_found_entries_wf(c, ws, i as int, before, after, k as int);
                        lemma_found_rest(c, ws, i as int, before, after, k as int, items);
                    }
                },
                None => {
                    let mut positions: WordPositions = positions_new();
                    positions_push(&mut positions, i);
                    hist.entries.push(HistogramEntry { first: i, positions });
                    let k: usize = hist.entries.len() - 1;
                    proof {
                        let after = hist.entries@;
                        assert forall|j: int| 0 <= j < before.len() implies !word_eq(
                            c,
                            #[trigger] entry_word(ws, before, j),
                            ws[i as int],
                        ) by {
                            assert(items.contains((entry_word(ws, before, j).hash, j as usize)));
                        }
                        lemma_new_entries_wf(c, ws, i as int, before, after);
                        lemma_new_rest(c, ws, i as int, before, after, items);
                        assert forall|h: u64, j: usize| #[trigger]
                            items.insert((hash, k)).contains((h, j)) implies j < after.len()
                            && after[j as int].first < ws.len() && ws[after[j as int].first as int].hash
                            == h by {
                            if j < before.len() {
                                assert(after[j as int] == before[j as int]);
                                assert(entry_wf(c, ws, i as int, before[j as int]));
                            }
                        }
                    }
                    table_insert(&mut hist.table, hash, k, &hist.entries, source);
                },
            }
            i += 1;
        }
        hist
    }
}

/// What a well-formed histogram's table holds can be handed to the table's
/// functions.
pub proof fn lemma_entries_hashed<C: CompareBytes>(
    comp: &C,
    ws: Seq<Word>,
    n: int,
    entries: Seq<HistogramEntry>,
    items: Set<(u64, usize)>,
)
    requires
        n <= ws.len(),
        entries_wf(comp, ws, n, entries),
        table_matches(items, ws, entries),
    ensures
        entries_hashed(items, entries, ws),
{
    assert forall|h: u64, k: usize| #[trigger] items.contains((h, k)) implies k < entries.len()
        && entries[k as int].first < ws.len() && ws[entries[k as int].first as int].hash == h by {
        assert(entry_wf(comp, ws, n, entries[k as int]));
    }
}

/// An entry of another word than the token at `i` is as good for the first
/// `i + 1` tokens as for the first `i`.
proof fn lemma_entry_wf_other<C: CompareBytes>(comp: &C, ws: Seq<Word>, i: int, e: HistogramEntry)
    requires
        0 <= i < ws.len(),
        entry_wf(comp, ws, i, e),
        !word_eq(comp, ws[i], ws[e.first as int]),
    ensures
        entry_wf(comp, ws, i + 1, e),
{
    let first = ws[e.first as int];
    assert(count_before(comp, ws, first, i + 1) == count_before(comp, ws, first, i));
    let ps = positions_of(e.positions);
    assert forall|m: int| 0 <= m < ps.len() implies (#[trigger] ps[m]) < i + 1 && word_eq(
        comp,
        ws[ps[m] as int],
        first,
    ) && occurrence(comp, ws, ps[m] as int) == m by {}
}

/// The entry made for the first occurrence of a word, at `i`.
proof fn lemma_entry_wf_first<C: CompareBytes>(comp: &C, ws: Seq<Word>, i: int, e: HistogramEntry)
    requires
        0 <= i < ws.len() <= usize::MAX,
        e.first == i,
        positions_of(e.positions) == Seq::<usize>::empty().push(i as usize),
        count_before(comp, ws, ws[i], i) == 0,
    ensures
        entry_wf(comp, ws, i + 1, e),
{
    let w = ws[i];
    lemma_word_eq_equivalence(comp, w, w, w);
    assert(count_before(comp, ws, w, i + 1) == 1);
    let ps = positions_of(e.positions);
    assert(ps.len() == 1);
    assert(ps[0] == i);
    assert forall|m: int| 0 <= m < ps.len() implies (#[trigger] ps[m]) < i + 1 && word_eq(
        comp,
        ws[ps[m] as int],
        w,
    ) && occurrence(comp, ws, ps[m] as int) == m by {}
}

/// The entry of the word of the token at `i`, with `i` added while the list
/// is not full.
proof fn lemma_entry_wf_same<C: CompareBytes>(
    comp: &C,
    ws: Seq<Word>,
    i: int,
    e0: HistogramEntry,
    e1: HistogramEntry,
)
    requires
        0 <= i < ws.len() <= usize::MAX,
        entry_wf(comp, ws, i, e0),
        word_eq(comp, ws[e0.first as int], ws[i]),
        e1.first == e0.first,
        positions_of(e1.positions) == if positions_of(e0.positions).len() <= MAX_OCCURRENCES {
            positions_of(e0.positions).push(i as usize)
        } else {
            positions_of(e0.positions)
        },
    ensures
        entry_wf(comp, ws, i + 1, e1),
{
    let w = ws[i];
    let first = ws[e0.first as int];
    lemma_count_congruent(comp, ws, first, w, i);
    lemma_word_eq_equivalence(comp, first, w, first);
    let ps0 = positions_of(e0.positions);
    let ps1 = positions_of(e1.positions);
    assert(count_before(comp, ws, first, i + 1) == count_before(comp, ws, first, i) + 1);
    assert forall|m: int| 0 <= m < ps1.len() implies (#[trigger] ps1[m]) < i + 1 && word_eq(
        comp,
        ws[ps1[m] as int],
        first,
    ) && occurrence(comp, ws, ps1[m] as int) == m by {
        if m < ps0.len() {
            assert(ps1[m] == ps0[m]);
        } else {
            assert(ps1[m] == i);
        }
    }
}

/// Counting one more token, of a word that has an entry: the entries stay
/// well formed.
proof fn lemma_found_entries_wf<C: CompareBytes>(
    comp: &C,
    ws: Seq<Word>,
    i: int,
    before: Seq<HistogramEntry>,
    after: Seq<HistogramEntry>,
    k: int,
)
    requires
        0 <= i < ws.len() <= usize::MAX,
        entries_wf(comp, ws, i, before),
        entries_distinct(comp, ws, before),
        0 <= k < before.len(),
        word_eq(comp, entry_word(ws, before, k), ws[i]),
        after.len() == before.len(),
        forall|j: int| 0 <= j < before.len() && j != k ==> after[j] == before[j],
        after[k].first == before[k].first,
        positions_of(after[k].positions) == if positions_of(before[k].positions).len()
            <= MAX_OCCURRENCES {
            positions_of(before[k].positions).push(i as usize)
        } else {
            positions_of(before[k].positions)
        },
    ensures
        entries_wf(comp, ws, i + 1, after),
{
    let w = ws[i];
    let kw = entry_word(ws, before, k);
    assert forall|j: int| 0 <= j < after.len() implies entry_wf(
        comp,
        ws,
        i + 1,
        #[trigger] after[j],
    ) by {
        let e0 = before[j];
        assert(entry_wf(comp, ws, i, e0));
        let first = ws[e0.first as int];
        if j == k {
            lemma_entry_wf_same(comp, ws, i, e0, after[j]);
        } else {
            assert(first == entry_word(ws, before, j));
            assert(!word_eq(comp, entry_word(ws, before, j), entry_word(ws, before, k)));
            lemma_word_eq_equivalence(comp, w, first, kw);
            lemma_word_eq_equivalence(comp, kw, w, first);
            lemma_word_eq_equivalence(comp, first, kw, first);
            lemma_entry_wf_other(comp, ws, i, e0);
        }
    }
}

/// Counting one more token, of a word that has an entry: words stay
/// distinct and covered, and the table still matches.
proof fn lemma_found_rest<C: CompareBytes>(
    comp: &C,
    ws: Seq<Word>,
    i: int,
    before: Seq<HistogramEntry>,
    after: Seq<HistogramEntry>,
    k: int,
    items: Set<(u64, usize)>,
)
    requires
        0 <= i < ws.len(),
        entries_distinct(comp, ws, before),
        entries_cover(comp, ws, i, before),
        table_matches(items, ws, before),
        0 <= k < before.len(),
        word_eq(comp, entry_word(ws, before, k), ws[i]),
        after.len() == before.len(),
        forall|j: int| 0 <= j < before.len() ==> (#[trigger] after[j]).first == before[j].first,
    ensures
        entries_distinct(comp, ws, after),
        entries_cover(comp, ws, i + 1, after),
        table_matches(items, ws, after),
{
    assert forall|j: int| 0 <= j < before.len() implies #[trigger] entry_word(ws, after, j)
        == entry_word(ws, before, j) by {
        assert(after[j].first == before[j].first);
    }
    assert forall|k1: int, k2: int|
        0 <= k1 < after.len() && 0 <= k2 < after.len() && k1 != k2 implies !word_eq(
        comp,
        #[trigger] entry_word(ws, after, k1),
        #[trigger] entry_word(ws, after, k2),
    ) by {
        assert(!word_eq(comp, entry_word(ws, before, k1), entry_word(ws, before, k2)));
    }
    assert forall|p: int| 0 <= p < i + 1 implies has_entry(comp, ws, after, #[trigger] ws[p]) by {
        if p < i {
            assert(has_entry(comp, ws, before, ws[p]));
            let j = choose|j: int|
                0 <= j < before.len() && word_eq(comp, #[trigger] entry_word(ws, before, j), ws[p]);
            assert(word_eq(comp, entry_word(ws, after, j), ws[p]));
        } else {
            assert(word_eq(comp, entry_word(ws, after, k), ws[p]));
        }
    }
    assert forall|h: u64, j: usize| #[trigger]
        items.contains((h, j)) <==> j < after.len() && h == entry_word(ws, after, j as int).hash by {
        if j < after.len() {
            assert(entry_word(ws, after, j as int) == entry_word(ws, before, j as int));
        }
    }
}

/// Counting one more token, of a word that has no entry yet: the entries are
/// well formed.
proof fn lemma_new_entries_wf<C: CompareBytes>(
    comp: &C,
    ws: Seq<Word>,
    i: int,
    before: Seq<HistogramEntry>,
    after: Seq<HistogramEntry>,
)
    requires
        0 <= i < ws.len() <= usize::MAX,
        entries_wf(comp, ws, i, before),
        entries_cover(comp, ws, i, before),
        forall|k: int|
            0 <= k < before.len() ==> !word_eq(comp, #[trigger] entry_word(ws, before, k), ws[i]),
        after.len() == before.len() + 1,
        forall|j: int| 0 <= j < before.len() ==> after[j] == before[j],
        after[before.len() as int].first == i,
        positions_of(after[before.len() as int].positions) == Seq::<usize>::empty().push(
            i as usize,
        ),
    ensures
        entries_wf(comp, ws, i + 1, after),
{
    let w = ws[i];
    let last = before.len() as int;
    assert forall|j: int| 0 <= j < i implies !word_eq(comp, #[trigger] ws[j], w) by {
        assert(has_entry(comp, ws, before, ws[j]));
        let k = choose|k: int|
            0 <= k < before.len() && word_eq(comp, #[trigger] entry_word(ws, before, k), ws[j]);
        lemma_word_eq_equivalence(comp, entry_word(ws, before, k), ws[j], w);
    }
    lemma_count_zero(comp, ws, w, i);
    assert forall|j: int| 0 <= j < after.len() implies entry_wf(
        comp,
        ws,
        i + 1,
        #[trigger] after[j],
    ) by {
        if j < last {
            let e0 = before[j];
            assert(after[j] == e0);
            assert(entry_wf(comp, ws, i, e0));
            assert(!word_eq(comp, entry_word(ws, before, j), w));
            lemma_word_eq_equivalence(comp, w, ws[e0.first as int], w);
            lemma_entry_wf_other(comp, ws, i, e0);
        } else {
            lemma_entry_wf_first(comp, ws, i, after[j]);
        }
    }
}

/// Counting one more token, of a word that has no entry yet: words stay
/// distinct and covered, and the table with the new item matches.
proof fn lemma_new_rest<C: CompareBytes>(
    comp: &C,
    ws: Seq<Word>,
    i: int,
    before: Seq<HistogramEntry>,
    after: Seq<HistogramEntry>,
    items: Set<(u64, usize)>,
)
    requires
        0 <= i < ws.len() <= usize::MAX,
        before.len() < usize::MAX,
        entries_distinct(comp, ws, before),
        entries_cover(comp, ws, i, before),
        table_matches(items, ws, before),
        forall|k: int|
            0 <= k < before.len() ==> !word_eq(comp, #[trigger] entry_word(ws, before, k), ws[i]),
        after.len() == before.len() + 1,
        forall|j: int| 0 <= j < before.len() ==> after[j] == before[j],
        after[before.len() as int].first == i,
    ensures
        entries_distinct(comp, ws, after),
        entries_cover(comp, ws, i + 1, after),
        table_matches(items.insert((ws[i].hash, before.len() as usize)), ws, after),
{
    let w = ws[i];
    let last = before.len() as int;
    lemma_word_eq_equivalence(comp, w, w, w);
    assert forall|j: int| 0 <= j < before.len() implies #[trigger] entry_word(ws, after, j)
        == entry_word(ws, before, j) by {
        assert(after[j] == before[j]);
    }
    assert(entry_word(ws, after, last) == w);
    assert forall|k1: int, k2: int|
        0 <= k1 < after.len() && 0 <= k2 < after.len() && k1 != k2 implies !word_eq(
        comp,
        #[trigger] entry_word(ws, after, k1),
        #[trigger] entry_word(ws, after, k2),
    ) by {
        if k1 < last && k2 < last {
            assert(!word_eq(comp, entry_word(ws, before, k1), entry_word(ws, before, k2)));
        } else if k1 == last {
            assert(!word_eq(comp, entry_word(ws, before, k2), w));
            lemma_word_eq_equivalence(comp, w, entry_word(ws, before, k2), w);
        } else {
            assert(!word_eq(comp, entry_word(ws, before, k1), w));
        }
    }
    assert forall|p: int| 0 <= p < i + 1 implies has_entry(comp, ws, after, #[trigger] ws[p]) by {
        if p < i {
            assert(has_entry(comp, ws, before, ws[p]));
            let j = choose|j: int|
                0 <= j < before.len() && word_eq(comp, #[trigger] entry_word(ws, before, j), ws[p]);
            assert(word_eq(comp, entry_word(ws, after, j), ws[p]));
        } else {
            assert(word_eq(comp, entry_word(ws, after, last), ws[p]));
        }
    }
    let items2 = items.insert((w.hash, last as usize));
    assert forall|h: u64, j: usize| #[trigger]
        items2.contains((h, j)) <==> j < after.len() && h == entry_word(ws, after, j as int).hash by {
        if j < last {
            assert(entry_word(ws, after, j as int) == entry_word(ws, before, j as int));
            assert(items.contains((h, j)) <==> h == entry_word(ws, before, j as int).hash);
        } else if j == last {
            assert(!items.contains((h, j)));
        } else {
            assert(!items.contains((h, j)));
        }
    }
}

/// A word's count as the histogram keeps it.
pub open spec fn word_count<C: CompareBytes>(comp: &C, ws: Seq<Word>, w: Word) -> nat {
    capped(total(comp, ws, w))
}

impl Histogram {
    /// The index of the entry for the word at `at` of `query`, if the word
    /// occurs in `source`, the window that this histogram counts.
    pub fn positions_by_word<C: CompareBytes>(
        &self,
        source: &LocalDiffSource,
        query: &LocalDiffSource,
        at: usize,
        comp: &WordComparator<C>,
    ) -> (found: Option<usize>)
        requires
            source.wf(),
            query.wf(),
            at < query.words().len(),
            self.wf(&comp.compare, source.words()),
        ensures
            match found {
                Some(k) => k < self.entries.len() && word_eq(
                    &comp.compare,
                    entry_word(source.words(), self.entries@, k as int),
                    query.words()[at as int],
                ),
                None => total(&comp.compare, source.words(), query.words()[at as int]) == 0,
            },
    {
        let ghost ws = source.words();
        let ghost c = &comp.compare;
        let ghost w = query.words()[at as int];
        let ghost items = table_items(self.table);
        proof {
            lemma_entries_hashed(c, ws, ws.len() as int, self.entries@, items);
        }
        let found: Option<usize> = table_find(
            &self.table,
            query.hash_at(at),
            &self.entries,
            source,
            query,
            at,
            comp,
        );
        proof {
            if found.is_none() {
                assert forall|j: int| 0 <= j < ws.len() implies !word_eq(c, #[trigger] ws[j], w) by {
                    assert(has_entry(c, ws, self.entries@, ws[j]));
                    let k = choose|k: int|
                        0 <= k < self.entries.len() && word_eq(
                            c,
                            #[trigger] entry_word(ws, self.entries@, k),
                            ws[j],
                        );
                    if word_eq(c, ws[j], w) {
                        lemma_word_eq_equivalence(c, entry_word(ws, self.entries@, k), ws[j], w);
                        assert(items.contains((w.hash, k as usize)));
                    }
                }
                lemma_count_zero(c, ws, w, ws.len() as int);
            }
        }
        found
    }

    /// How many occurrences entry `k` lists.
    pub fn count_at<C: CompareBytes>(
        &self,
        k: usize,
        source: &LocalDiffSource,
        comp: &WordComparator<C>,
    ) -> (count: usize)
        requires
            self.wf(&comp.compare, source.words()),
            k < self.entries.len(),
        ensures
            count == word_count(
                &comp.compare,
                source.words(),
                entry_word(source.words(), self.entries@, k as int),
            ),
            1 <= count <= MAX_OCCURRENCES + 1,
    {
        proof {
            let ws = source.words();
            assert(entry_wf(&comp.compare, ws, ws.len() as int, self.entries@[k as int]));
        }
        positions_len(&self.entries[k].positions)
    }
}

/// The same words have the same count.
pub proof fn lemma_word_count_congruent<C: CompareBytes>(comp: &C, ws: Seq<Word>, a: Word, b: Word)
    requires
        word_eq(comp, a, b),
    ensures
        word_count(comp, ws, a) == word_count(comp, ws, b),
{
    lemma_count_congruent(comp, ws, a, b, ws.len() as int);
}

/// Below a word's count before `n`, every occurrence number is taken by a
/// place before `n`.
pub proof fn lemma_nth_occurrence_exists<C: CompareBytes>(
    comp: &C,
    ws: Seq<Word>,
    w: Word,
    m: int,
    n: int,
)
    requires
        0 <= m < count_before(comp, ws, w, n),
        n <= ws.len(),
    ensures
        exists|p: int|
            0 <= p < n && word_eq(comp, #[trigger] ws[p], w) && count_before(comp, ws, w, p) == m,
    decreases n,
{
    if n > 0 {
        if m < count_before(comp, ws, w, n - 1) {
            lemma_nth_occurrence_exists(comp, ws, w, m, n - 1);
            let p = choose|p: int|
                0 <= p < n - 1 && word_eq(comp, #[trigger] ws[p], w) && count_before(
                    comp,
                    ws,
                    w,
                    p,
                ) == m;
            assert(0 <= p < n && word_eq(comp, ws[p], w) && count_before(comp, ws, w, p) == m);
        } else {
            assert(word_eq(comp, ws[n - 1], w) && count_before(comp, ws, w, n - 1) == m);
        }
    }
}

} // verus!
