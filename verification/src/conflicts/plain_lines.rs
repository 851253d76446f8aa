//! The lines of the hunks of a diff of whole lines are lines of the texts:
//! where the texts are without markers, the diff can be written.

use crate::conflicts::diff_style::hunk_in_place;
use crate::conflicts::diff_style::hunk_plain;
use crate::conflicts::diff_style::hunks_plain;
use crate::conflicts::diff_style::is_whole_line_diff;
use crate::conflicts::diff_style::held;
use crate::conflicts::diff_style::lemma_line_shape;
use crate::conflicts::diff_style::pair_of;
use crate::conflicts::diff_style::prefixed;
use crate::conflicts::lines::line_end;
use crate::conflicts::lines::lines_from;
use crate::conflicts::lines::lines_of;
use crate::conflicts::markers::lemma_run_len_bound;
use crate::conflicts::markers::run_len;
use crate::conflicts::markers::spec_marker;
use crate::conflicts::markers::with_newline;
use crate::conflicts::round_trip::is_plain;
use crate::conflicts::round_trip::lemma_line_in_middle;
use crate::conflicts::round_trip::no_marker_lines;
use crate::diff::aligned::is_cut;
use crate::diff::engine::DiffHunkKind;
use vstd::prelude::*;

verus! {

/// The run of a byte in a text behind one more byte is the run in the
/// text.
proof fn lemma_run_shift(prefix: u8, text: Seq<u8>, byte: u8, from: int)
    requires
        0 <= from <= text.len(),
    ensures
        run_len(seq![prefix] + text, byte, from + 1) == run_len(text, byte, from),
    decreases text.len() - from,
{
    let all = seq![prefix] + text;
    if from < text.len() {
        assert(all[from + 1] == text[from]);
        if text[from] == byte {
            lemma_run_shift(prefix, text, byte, from + 1);
        }
    }
}

/// A line that begins with no marker of the length before the given one
/// begins with none of the given length behind `-` or `+`.
pub proof fn lemma_prefixed_no_marker(prefix: u8, line: Seq<u8>, marker_len: int)
    requires
        prefix == 0x2d || prefix == 0x2b,
        marker_len >= 2,
        spec_marker(line, marker_len - 1).is_none(),
    ensures
        spec_marker(seq![prefix] + line, marker_len).is_none(),
{
    let all = seq![prefix] + line;
    assert(all[0] == prefix);
    lemma_run_shift(prefix, line, prefix, 0);
    lemma_run_len_bound(line, prefix, 0);
    let run = run_len(line, prefix, 0);
    assert(run_len(all, prefix, 0) == 1 + run);
    if line.len() > 0 {
        if line[0] == prefix {
            lemma_run_len_bound(line, prefix, 1);
            assert(run >= 1);
            if run < line.len() {
                assert(all[1 + run] == line[run]);
            }
        } else {
            assert(run == 0);
        }
    }
}

/// A line begins at `p`.
pub open spec fn is_line_start(text: Seq<u8>, p: int) -> bool {
    0 <= p < text.len() && (p == 0 || text[p - 1] == 0x0a)
}

/// The line that begins at `p`.
pub open spec fn line_at(text: Seq<u8>, p: int) -> Seq<u8> {
    text.subrange(p, line_end(text, p))
}

/// Each of the lines from a line start on begins at a line start.
pub proof fn lemma_lines_begin(text: Seq<u8>, from: int, i: int)
    requires
        is_line_start(text, from) || from == text.len(),
        0 <= i < lines_from(text, from).len(),
    ensures
        exists|p: int| is_line_start(text, p) && lines_from(text, from)[i] == #[trigger] line_at(text, p),
    decreases text.len() - from,
{
    if from < text.len() {
        lemma_line_shape(text, from);
        let end = line_end(text, from);
        let lines = lines_from(text, from);
        if i == 0 {
            assert(lines[0] == line_at(text, from));
        } else {
            assert(lines[i] == lines_from(text, end)[i - 1]);
            lemma_lines_begin(text, end, i - 1);
        }
    }
}

/// A line feed at `j` ends the line that begins before it or at it.
proof fn lemma_line_ends_by(text: Seq<u8>, from: int, j: int)
    requires
        0 <= from <= j < text.len(),
        text[j] == 0x0a,
    ensures
        line_end(text, from) <= j + 1,
    decreases j - from,
{
    if text[from] != 0x0a {
        lemma_line_ends_by(text, from + 1, j);
    }
}

/// The line that begins at a line start is one of the lines from an
/// earlier line start on.
pub proof fn lemma_line_is_among(text: Seq<u8>, from: int, p: int)
    requires
        is_line_start(text, from),
        is_line_start(text, p),
        from <= p,
    ensures
        exists|i: int|
            0 <= i < lines_from(text, from).len() && #[trigger] lines_from(text, from)[i] == line_at(
                text,
                p,
            ),
    decreases p - from,
{
    lemma_line_shape(text, from);
    let lines = lines_from(text, from);
    let end = line_end(text, from);
    if p == from {
        assert(lines[0] == line_at(text, p));
    } else {
        lemma_line_ends_by(text, from, p - 1);
        assert(text[end - 1] == 0x0a);
        lemma_line_is_among(text, end, p);
        let i = choose|i: int|
            0 <= i < lines_from(text, end).len() && #[trigger] lines_from(text, end)[i] == line_at(
                text,
                p,
            );
        assert(lines[i + 1] == lines_from(text, end)[i]);
    }
}

/// In a text with a line feed at its end, the line that begins at a line
/// start of the text is that line with a line feed at its end.
pub proof fn lemma_line_of_closed(text: Seq<u8>, p: int)
    requires
        is_line_start(text, p),
    ensures
        is_line_start(with_newline(text), p),
        line_at(with_newline(text), p) == with_newline(line_at(text, p)),
{
    lemma_line_shape(text, p);
    let end = line_end(text, p);
    let line = line_at(text, p);
    let closed = with_newline(text);
    if text.last() == 0x0a {
        assert(line.last() == text[end - 1]);
    } else {
        assert(closed == text.push(0x0au8));
        lemma_line_of_pushed(text, p);
    }
}

/// Behind a text without a line feed at its end, a line feed ends the
/// last line, and no other.
proof fn lemma_line_of_pushed(text: Seq<u8>, p: int)
    requires
        0 <= p < text.len(),
        text.last() != 0x0a,
    ensures
        line_at(text.push(0x0au8), p) == with_newline(line_at(text, p)),
    decreases text.len() - p,
{
    let more = text.push(0x0au8);
    lemma_line_shape(text, p);
    assert(more[p] == text[p]);
    let end = line_end(text, p);
    if text[p] == 0x0a {
        assert(line_at(more, p) =~= line_at(text, p));
    } else if p + 1 < text.len() {
        lemma_line_of_pushed(text, p + 1);
        lemma_line_shape(text, p + 1);
        lemma_line_shape(more, p);
        lemma_line_shape(more, p + 1);
        assert(line_end(more, p) == line_end(more, p + 1));
        assert(line_end(text, p) == line_end(text, p + 1));
        let rest = line_at(text, p + 1);
        assert(line_at(text, p) =~= seq![text[p]] + rest);
        assert(line_at(more, p) =~= seq![text[p]] + line_at(more, p + 1));
        assert(rest.len() > 0);
        assert((seq![text[p]] + rest).last() == rest.last());
        assert(with_newline(seq![text[p]] + rest) =~= seq![text[p]] + with_newline(rest));
    } else {
        reveal_with_fuel(line_end, 3);
        assert(line_at(text, p) =~= seq![text[p]]);
        assert(line_at(more, p) =~= seq![text[p], 0x0au8]);
        assert(with_newline(seq![text[p]]) =~= seq![text[p], 0x0au8]);
    }
}

/// The lines of a part of a text between two cuts do not begin with a
/// marker, each with a line feed at its end, where the lines of the text
/// do not.
pub proof fn lemma_part_lines_plain(text: Seq<u8>, from: int, to: int, marker_len: int, i: int)
    requires
        is_plain(text, marker_len),
        is_cut(text, from),
        is_cut(text, to),
        from <= to,
        0 <= i < lines_of(text.subrange(from, to)).len(),
    ensures
        spec_marker(with_newline(lines_of(text.subrange(from, to))[i]), marker_len).is_none(),
{
    let part = text.subrange(from, to);
    assert(part.len() > 0) by {
        if part.len() == 0 {
            assert(lines_of(part).len() == 0);
        }
    }
    lemma_lines_begin(part, 0, i);
    let q = choose|q: int| is_line_start(part, q) && lines_of(part)[i] == #[trigger] line_at(part, q);
    let a = text.subrange(0, from);
    let b = text.subrange(to, text.len() as int);
    assert(text =~= a + part + b);
    if to < text.len() {
        assert(part.last() == text[to - 1]);
    } else {
        assert(b.len() == 0);
    }
    lemma_line_in_middle(a, part, b, q);
    let p = from + q;
    assert(line_at(text, p) == line_at(part, q));
    assert(is_line_start(text, p)) by {
        if q > 0 {
            assert(part[q - 1] == text[p - 1]);
        }
    }
    let closed = with_newline(text);
    lemma_line_of_closed(text, p);
    lemma_line_is_among(closed, 0, p);
    let at = choose|at: int|
        0 <= at < lines_from(closed, 0).len() && #[trigger] lines_from(closed, 0)[at] == line_at(
            closed,
            p,
        );
    assert(spec_marker(lines_of(closed)[at], marker_len).is_none());
}

/// The hunks of a diff of whole lines of texts whose lines begin with no
/// marker of the length before the given one can be written: no line of
/// them begins with a marker of the given length behind its prefix.
pub proof fn lemma_whole_lines_plain(
    base: Seq<u8>,
    side: Seq<u8>,
    hunks: Seq<(DiffHunkKind, Seq<Seq<u8>>)>,
    marker_len: int,
)
    requires
        is_whole_line_diff(base, side, hunks),
        marker_len >= 2,
        is_plain(base, marker_len - 1),
        is_plain(side, marker_len - 1),
    ensures
        hunks_plain(hunks, marker_len),
{
    let texts = pair_of(base, side);
    assert(texts[0] == base && texts[1] == side);
    assert forall|i: int| 0 <= i < hunks.len() implies hunk_plain(
        (#[trigger] hunks[i]).1,
        marker_len,
    ) by {
        assert(hunk_in_place(texts, hunks, i));
        assert(held(hunks, 0, i) <= held(hunks, 0, i + 1));
        assert(held(hunks, 1, i) <= held(hunks, 1, i + 1));
        lemma_content_plain(base, held(hunks, 0, i), held(hunks, 0, i + 1), 0x2d, marker_len);
        lemma_content_plain(side, held(hunks, 1, i), held(hunks, 1, i + 1), 0x2b, marker_len);
        assert(hunks[i].1[0] == texts[0].subrange(held(hunks, 0, i), held(hunks, 0, i + 1)));
        assert(hunks[i].1[1] == texts[1].subrange(held(hunks, 1, i), held(hunks, 1, i + 1)));
    }
}

/// The lines of a part of a text between two cuts begin with no marker
/// behind a prefix.
proof fn lemma_content_plain(text: Seq<u8>, from: int, to: int, prefix: u8, marker_len: int)
    requires
        prefix == 0x2d || prefix == 0x2b,
        marker_len >= 2,
        is_plain(text, marker_len - 1),
        is_cut(text, from),
        is_cut(text, to),
        from <= to,
    ensures
        no_marker_lines(prefixed(prefix, lines_of(text.subrange(from, to))), marker_len),
{
    let lines = lines_of(text.subrange(from, to));
    assert forall|i: int| 0 <= i < prefixed(prefix, lines).len() implies spec_marker(
        #[trigger] prefixed(prefix, lines)[i],
        marker_len,
    ).is_none() by {
        lemma_part_lines_plain(text, from, to, marker_len - 1, i);
        lemma_prefixed_no_marker(prefix, with_newline(lines[i]), marker_len);
    }
}

} // verus!
