//! Tokenizers: functions from a byte text to ascending, non-overlapping byte
//! ranges.

use itertools::Itertools;
use std::ops::Range;
use vstd::prelude::*;

verus! {

/// A list of ranges is a tokenization of a text of length `len` when the ranges
/// are non-empty, ascending, disjoint and inside the text.
pub open spec fn valid_token_ranges(ranges: Seq<Range<usize>>, len: int) -> bool {
    &&& forall|i: int|
        0 <= i < ranges.len() ==> (#[trigger] ranges[i]).start < ranges[i].end <= len
    &&& forall|i: int, j: int|
        0 <= i < j < ranges.len() ==> (#[trigger] ranges[i]).end <= (#[trigger] ranges[j]).start
}

/// The ranges cover `[0, len)` without gaps.
pub open spec fn covers_text(ranges: Seq<Range<usize>>, len: int) -> bool {
    &&& (ranges.len() == 0 <==> len == 0)
    &&& ranges.len() > 0 ==> ranges[0].start == 0 && ranges[ranges.len() - 1].end == len
    &&& forall|i: int|
        0 <= i < ranges.len() - 1 ==> (#[trigger] ranges[i]).end == ranges[i + 1].start
}

/// The ranges are exactly the lines of `text`: each line ends just behind its
/// line feed, the last one at the end of the text if no line feed closes it.
pub open spec fn is_line_split(text: Seq<u8>, ranges: Seq<Range<usize>>) -> bool {
    &&& covers_text(ranges, text.len() as int)
    &&& forall|i: int|
        0 <= i < ranges.len() ==> (#[trigger] ranges[i]).start < ranges[i].end <= text.len()
    &&& forall|i: int, k: int|
        0 <= i < ranges.len() && (#[trigger] ranges[i]).start <= k < ranges[i].end - 1
            ==> #[trigger] text[k] != 0x0a
    &&& forall|i: int|
        0 <= i < ranges.len() - 1 ==> text[(#[trigger] ranges[i]).end - 1] == 0x0a
}

/// Word bytes are ASCII letters, digits, the underscore and every byte from
/// `0x80` up, so that a multi-byte UTF-8 character is never split.
pub open spec fn spec_is_word_byte(b: u8) -> bool {
    ||| 0x41 <= b <= 0x5a
    ||| 0x61 <= b <= 0x7a
    ||| 0x30 <= b <= 0x39
    ||| b == 0x5f
    ||| b >= 0x80
}

/// The ranges are exactly the maximal runs of word bytes in `text`.
pub open spec fn is_word_split(text: Seq<u8>, ranges: Seq<Range<usize>>) -> bool {
    &&& valid_token_ranges(ranges, text.len() as int)
    &&& forall|i: int, k: int|
        0 <= i < ranges.len() && (#[trigger] ranges[i]).start <= k < ranges[i].end
            ==> spec_is_word_byte(#[trigger] text[k])
    &&& forall|i: int|
        0 <= i < ranges.len() && (#[trigger] ranges[i]).start > 0 ==> !spec_is_word_byte(
            text[ranges[i].start - 1],
        )
    &&& forall|i: int|
        0 <= i < ranges.len() && (#[trigger] ranges[i]).end < text.len() ==> !spec_is_word_byte(
            text[ranges[i].end as int],
        )
    &&& forall|k: int|
        0 <= k < text.len() && spec_is_word_byte(#[trigger] text[k]) ==> exists|i: int|
            0 <= i < ranges.len() && (#[trigger] ranges[i]).start <= k < ranges[i].end
}

/// The ranges are exactly the single non-word bytes of `text`, in order.
pub open spec fn is_nonword_split(text: Seq<u8>, ranges: Seq<Range<usize>>) -> bool {
    &&& valid_token_ranges(ranges, text.len() as int)
    &&& forall|i: int|
        0 <= i < ranges.len() ==> (#[trigger] ranges[i]).end == ranges[i].start + 1
            && !spec_is_word_byte(text[ranges[i].start as int])
    &&& forall|k: int|
        0 <= k < text.len() && !spec_is_word_byte(#[trigger] text[k]) ==> exists|i: int|
            0 <= i < ranges.len() && (#[trigger] ranges[i]).start == k
}

/// The starts of ranges that cover a text ascend.
pub proof fn lemma_covering_ranges_ascend(ranges: Seq<Range<usize>>, len: int, i: int, j: int)
    requires
        covers_text(ranges, len),
        forall|k: int| 0 <= k < ranges.len() ==> (#[trigger] ranges[k]).start < ranges[k].end,
        0 <= i < j < ranges.len(),
    ensures
        ranges[i].end <= ranges[j].start,
    decreases j - i,
{
    if i + 1 < j {
        lemma_covering_ranges_ascend(ranges, len, i + 1, j);
        assert(ranges[i].end == ranges[i + 1].start);
    } else {
        assert(ranges[i].end == ranges[i + 1].start);
    }
}

/// The lines of a text are a tokenization of it.
pub proof fn lemma_line_split_valid(text: Seq<u8>, ranges: Seq<Range<usize>>)
    requires
        is_line_split(text, ranges),
    ensures
        valid_token_ranges(ranges, text.len() as int),
{
    assert forall|i: int, j: int| 0 <= i < j < ranges.len() implies (#[trigger] ranges[i]).end <= (
    #[trigger] ranges[j]).start by {
        lemma_covering_ranges_ascend(ranges, text.len() as int, i, j);
    }
}

/// Two splits of a text into lines have the same line at each place that
/// both have.
proof fn lemma_line_split_prefix(
    text: Seq<u8>,
    first: Seq<Range<usize>>,
    second: Seq<Range<usize>>,
    i: int,
)
    requires
        is_line_split(text, first),
        is_line_split(text, second),
        0 <= i < first.len(),
        i < second.len(),
    ensures
        first[i] == second[i],
    decreases i,
{
    if i > 0 {
        lemma_line_split_prefix(text, first, second, i - 1);
        assert(first[i - 1].end == first[i].start);
        assert(second[i - 1].end == second[i].start);
    }
    assert(first[i].start == second[i].start);
    if first[i].end < second[i].end {
        if i < first.len() - 1 {
            assert(text[first[i].end - 1] == 0x0a);
            assert(second[i].start <= first[i].end - 1 < second[i].end - 1);
            assert(text[first[i].end - 1] != 0x0a);
        }
    } else if second[i].end < first[i].end {
        if i < second.len() - 1 {
            assert(text[second[i].end - 1] == 0x0a);
            assert(first[i].start <= second[i].end - 1 < first[i].end - 1);
            assert(text[second[i].end - 1] != 0x0a);
        }
    }
}

/// A text has one split into lines.
pub proof fn lemma_line_split_unique(
    text: Seq<u8>,
    first: Seq<Range<usize>>,
    second: Seq<Range<usize>>,
)
    requires
        is_line_split(text, first),
        is_line_split(text, second),
    ensures
        first == second,
{
    if first.len() > second.len() {
        let m = second.len() as int;
        if m > 0 {
            lemma_line_split_prefix(text, first, second, m - 1);
            assert(first[m - 1].end == first[m].start);
            assert(first[m].start < first[m].end <= text.len());
        }
    } else if second.len() > first.len() {
        let m = first.len() as int;
        if m > 0 {
            lemma_line_split_prefix(text, first, second, m - 1);
            assert(second[m - 1].end == second[m].start);
            assert(second[m].start < second[m].end <= text.len());
        }
    }
    assert forall|i: int| 0 <= i < first.len() implies first[i] == second[i] by {
        lemma_line_split_prefix(text, first, second, i);
    }
    assert(first =~= second);
}

/// The range is one of the list.
pub open spec fn is_among(range: Range<usize>, list: Seq<Range<usize>>) -> bool {
    exists|j: int| 0 <= j < list.len() && #[trigger] list[j] == range
}

/// Each range of `first` is a range of `second`.
pub open spec fn ranges_among(first: Seq<Range<usize>>, second: Seq<Range<usize>>) -> bool {
    forall|i: int| 0 <= i < first.len() ==> is_among(#[trigger] first[i], second)
}

/// In tokenizations that hold the same ranges, what is left of the one
/// without its last range is left of the other without its last range.
proof fn lemma_rest_among(first: Seq<Range<usize>>, second: Seq<Range<usize>>, len: int)
    requires
        valid_token_ranges(first, len),
        valid_token_ranges(second, len),
        ranges_among(first, second),
        first.len() > 0,
        second.len() > 0,
        first.last() == second.last(),
    ensures
        ranges_among(first.drop_last(), second.drop_last()),
{
    let first_rest = first.drop_last();
    let second_rest = second.drop_last();
    assert forall|x: int| 0 <= x < first_rest.len() implies is_among(
        #[trigger] first_rest[x],
        second_rest,
    ) by {
        assert(first_rest[x] == first[x]);
        assert(is_among(first[x], second));
        let y = choose|y: int| 0 <= y < second.len() && #[trigger] second[y] == first[x];
        assert(first[x].end <= first[first.len() - 1].start);
        assert(first[first.len() - 1].start < first[first.len() - 1].end);
        assert(y < second.len() - 1);
        assert(second_rest[y] == first_rest[x]);
    }
}

/// Two tokenizations that hold the same ranges are the same.
pub proof fn lemma_same_ranges(first: Seq<Range<usize>>, second: Seq<Range<usize>>, len: int)
    requires
        valid_token_ranges(first, len),
        valid_token_ranges(second, len),
        ranges_among(first, second),
        ranges_among(second, first),
    ensures
        first == second,
    decreases first.len(),
{
    if first.len() == 0 {
        if second.len() > 0 {
            assert(is_among(second[0], first));
        }
        assert(first =~= second);
    } else {
        let a = first[first.len() - 1];
        assert(is_among(a, second));
        let j = choose|j: int| 0 <= j < second.len() && #[trigger] second[j] == a;
        let b = second[second.len() - 1];
        assert(is_among(b, first));
        let i = choose|i: int| 0 <= i < first.len() && #[trigger] first[i] == b;
        if j < second.len() - 1 {
            assert(second[j].end <= second[second.len() - 1].start);
            assert(b.start < b.end);
            if i < first.len() - 1 {
                assert(first[i].end <= first[first.len() - 1].start);
            }
            assert(false);
        }
        assert(a == b);
        let first_rest = first.drop_last();
        let second_rest = second.drop_last();
        lemma_rest_among(first, second, len);
        lemma_rest_among(second, first, len);
        lemma_same_ranges(first_rest, second_rest, len);
        assert(first =~= first_rest.push(a));
        assert(second =~= second_rest.push(b));
    }
}

/// Each run of word bytes of one split of a text into words is a run of
/// another.
proof fn lemma_word_runs_among(text: Seq<u8>, first: Seq<Range<usize>>, second: Seq<Range<usize>>)
    requires
        is_word_split(text, first),
        is_word_split(text, second),
    ensures
        ranges_among(first, second),
{
    assert forall|i: int| 0 <= i < first.len() implies is_among(#[trigger] first[i], second) by {
        let s = first[i].start as int;
        let e = first[i].end as int;
        assert(spec_is_word_byte(text[s]));
        let j = choose|j: int| 0 <= j < second.len() && (#[trigger] second[j]).start <= s < second[j].end;
        if second[j].start < s {
            assert(spec_is_word_byte(text[s - 1]));
        }
        if second[j].end < e {
            assert(spec_is_word_byte(text[second[j].end as int]));
        }
        if e < second[j].end {
            assert(spec_is_word_byte(text[e]));
        }
        assert(second[j] == first[i]);
    }
}

/// A text has one split into words.
pub proof fn lemma_word_split_unique(
    text: Seq<u8>,
    first: Seq<Range<usize>>,
    second: Seq<Range<usize>>,
)
    requires
        is_word_split(text, first),
        is_word_split(text, second),
    ensures
        first == second,
{
    lemma_word_runs_among(text, first, second);
    lemma_word_runs_among(text, second, first);
    lemma_same_ranges(first, second, text.len() as int);
}

/// Each byte of one split of a text into bytes that belong to no word is a
/// byte of another.
proof fn lemma_nonword_bytes_among(
    text: Seq<u8>,
    first: Seq<Range<usize>>,
    second: Seq<Range<usize>>,
)
    requires
        is_nonword_split(text, first),
        is_nonword_split(text, second),
    ensures
        ranges_among(first, second),
{
    assert forall|i: int| 0 <= i < first.len() implies is_among(#[trigger] first[i], second) by {
        let s = first[i].start as int;
        assert(!spec_is_word_byte(text[s]));
        let j = choose|j: int| 0 <= j < second.len() && (#[trigger] second[j]).start == s;
        assert(second[j] == first[i]);
    }
}

/// A text has one split into the bytes that belong to no word.
pub proof fn lemma_nonword_split_unique(
    text: Seq<u8>,
    first: Seq<Range<usize>>,
    second: Seq<Range<usize>>,
)
    requires
        is_nonword_split(text, first),
        is_nonword_split(text, second),
    ensures
        first == second,
{
    lemma_nonword_bytes_among(text, first, second);
    lemma_nonword_bytes_among(text, second, first);
    lemma_same_ranges(first, second, text.len() as int);
}

/// Splits `text` into lines, each including its terminating line feed.
pub fn find_line_ranges(text: &[u8]) -> (ranges: Vec<Range<usize>>)
    ensures
        is_line_split(text@, ranges@),
{
    let mut ranges: Vec<Range<usize>> = Vec::new();
    let mut start: usize = 0;
    let mut i: usize = 0;
    while i < text.len()
        invariant
            start <= i <= text.len(),
            ranges.len() == 0 ==> start == 0,
            ranges.len() > 0 ==> ranges[0].start == 0 && ranges[ranges.len() - 1].end == start,
            ranges.len() > 0 ==> text[start - 1] == 0x0a,
            forall|j: int|
                0 <= j < ranges.len() ==> (#[trigger] ranges[j]).start < ranges[j].end <= start,
            forall|j: int|
                0 <= j < ranges.len() - 1 ==> (#[trigger] ranges[j]).end == ranges[j + 1].start,
            forall|j: int, k: int|
                0 <= j < ranges.len() && (#[trigger] ranges[j]).start <= k < ranges[j].end - 1
                    ==> #[trigger] text[k] != 0x0a,
            forall|j: int| 0 <= j < ranges.len() ==> text[(#[trigger] ranges[j]).end - 1] == 0x0a,
            forall|k: int| start <= k < i ==> text[k] != 0x0a,
        decreases text.len() - i,
    {
        let b: u8 = text[i];
        i += 1;
        if b == 0x0a {
            ranges.push(start..i);
            start = i;
        }
    }
    if start < text.len() {
        ranges.push(start..text.len());
    }
    ranges
}

/// Whether `b` belongs to a word.
pub fn is_word_byte(b: u8) -> (r: bool)
    ensures
        r == spec_is_word_byte(b),
{
    (0x41 <= b && b <= 0x5a) || (0x61 <= b && b <= 0x7a) || (0x30 <= b && b <= 0x39) || b == 0x5f
        || b >= 0x80
}

/// Finds the maximal runs of word bytes in `text`.
pub fn find_word_ranges(text: &[u8]) -> (ranges: Vec<Range<usize>>)
    ensures
        is_word_split(text@, ranges@),
{
    let mut ranges: Vec<Range<usize>> = Vec::new();
    let mut word_start: usize = 0;
    let mut in_word: bool = false;
    let mut i: usize = 0;
    while i < text.len()
        invariant
            word_start <= i <= text.len(),
            valid_token_ranges(ranges@, i as int),
            in_word ==> word_start < i,
            in_word ==> forall|k: int| word_start <= k < i ==> spec_is_word_byte(#[trigger] text[k]),
            in_word && word_start > 0 ==> !spec_is_word_byte(text[word_start - 1]),
            in_word ==> forall|j: int|
                0 <= j < ranges.len() ==> (#[trigger] ranges[j]).end <= word_start,
            !in_word && i > 0 ==> !spec_is_word_byte(text[i - 1]),
            forall|j: int, k: int|
                0 <= j < ranges.len() && (#[trigger] ranges[j]).start <= k < ranges[j].end
                    ==> spec_is_word_byte(#[trigger] text[k]),
            forall|j: int|
                0 <= j < ranges.len() && (#[trigger] ranges[j]).start > 0 ==> !spec_is_word_byte(
                    text[ranges[j].start - 1],
                ),
            forall|j: int|
                0 <= j < ranges.len() ==> (#[trigger] ranges[j]).end < text.len()
                    && !spec_is_word_byte(text[ranges[j].end as int]),
            forall|k: int|
                0 <= k < (if in_word { word_start } else { i }) && spec_is_word_byte(
                    #[trigger] text[k],
                ) ==> exists|j: int|
                    0 <= j < ranges.len() && (#[trigger] ranges[j]).start <= k < ranges[j].end,
        decreases text.len() - i,
    {
        let is_word: bool = is_word_byte(text[i]);
        if in_word && !is_word {
            in_word = false;
            let ghost before = ranges@;
            ranges.push(word_start..i);
            proof {
                assert forall|k: int|
                    0 <= k < i + 1 && spec_is_word_byte(#[trigger] text[k]) implies exists|j: int|
                    0 <= j < ranges.len() && (#[trigger] ranges[j]).start <= k
                        < ranges[j].end by {
                    if k < word_start {
                        let j = choose|j: int|
                            0 <= j < before.len() && (#[trigger] before[j]).start <= k
                                < before[j].end;
                        assert(ranges[j] == before[j]);
                    } else {
                        assert(ranges[ranges.len() - 1].start <= k < ranges[ranges.len() - 1].end);
                    }
                }
            }
            word_start = i;
        } else if !in_word && is_word {
            in_word = true;
            word_start = i;
        }
        i += 1;
    }
    if in_word && word_start < text.len() {
        let ghost before = ranges@;
        ranges.push(word_start..text.len());
        proof {
            assert forall|k: int|
                0 <= k < text.len() && spec_is_word_byte(#[trigger] text[k]) implies exists|j: int|
                0 <= j < ranges.len() && (#[trigger] ranges[j]).start <= k < ranges[j].end by {
                if k < word_start {
                    let j = choose|j: int|
                        0 <= j < before.len() && (#[trigger] before[j]).start <= k
                            < before[j].end;
                    assert(ranges[j] == before[j]);
                } else {
                    assert(ranges[ranges.len() - 1].start <= k < ranges[ranges.len() - 1].end);
                }
            }
        }
    }
    ranges
}

/// Whether `b` stands outside every word.
pub fn is_nonword_byte(b: &u8) -> (r: bool)
    ensures
        r == !spec_is_word_byte(*b),
{
    !is_word_byte(*b)
}

/// The indices of the non-word bytes of `text`, ascending.
///
/// Calls `Itertools::positions` on the bytes of `text`, which yields, counted
/// from the start, the index of each element that satisfies the predicate and
/// of no other, in the order of the elements.
#[verifier::external_body]
fn nonword_positions(text: &[u8]) -> (positions: Vec<usize>)
    ensures
        forall|i: int, j: int|
            0 <= i < j < positions.len() ==> (#[trigger] positions[i]) < (#[trigger] positions[j]),
        forall|i: int|
            0 <= i < positions.len() ==> (#[trigger] positions[i]) < text.len()
                && !spec_is_word_byte(text[positions[i] as int]),
        forall|k: int|
            0 <= k < text.len() && !spec_is_word_byte(#[trigger] text[k]) ==> exists|i: int|
                0 <= i < positions.len() && (#[trigger] positions[i]) == k,
{
    text.iter().positions(|b| is_nonword_byte(b)).collect()
}

/// Finds the non-word bytes of `text`, one range of length one for each.
pub fn find_nonword_ranges(text: &[u8]) -> (ranges: Vec<Range<usize>>)
    ensures
        is_nonword_split(text@, ranges@),
{
    let positions: Vec<usize> = nonword_positions(text);
    let mut ranges: Vec<Range<usize>> = Vec::new();
    let mut n: usize = 0;
    while n < positions.len()
        invariant
            n <= positions.len(),
            ranges.len() == n,
            forall|i: int|
                0 <= i < positions.len() ==> (#[trigger] positions[i]) < text.len(),
            forall|i: int|
                0 <= i < n ==> (#[trigger] ranges[i]).start == positions[i] && ranges[i].end
                    == positions[i] + 1,
        decreases positions.len() - n,
    {
        let at: usize = positions[n];
        ranges.push(at..at + 1);
        n += 1;
    }
    proof {
        assert forall|k: int|
            0 <= k < text.len() && !spec_is_word_byte(#[trigger] text[k]) implies exists|i: int|
            0 <= i < ranges.len() && (#[trigger] ranges[i]).start == k by {
            let i = choose|i: int| 0 <= i < positions.len() && (#[trigger] positions[i]) == k;
            assert(ranges[i].start == k);
        }
    }
    ranges
}

} // verus!
