//! What is read back from a conflict that was written: its terms, each
//! with a line feed at its end.

use crate::conflicts::diff_style::hunks_plain;
use crate::conflicts::diff_style::lemma_pair_diff_whole_lines;
use crate::conflicts::plain_lines::lemma_whole_lines_plain;
use crate::conflicts::diff_style::lemma_planned_round_trip;
use crate::conflicts::diff_style::plan_plain;
use crate::conflicts::hunks::append_last;
use crate::conflicts::hunks::git_scan;
use crate::conflicts::materialize::adds_used;
use crate::conflicts::materialize::conflicts_upto;
use crate::conflicts::materialize::hunk_text;
use crate::conflicts::materialize::hunks_text;
use crate::conflicts::materialize::is_materialized;
use crate::conflicts::materialize::plans_valid;
use crate::conflicts::materialize::is_plan;
use crate::conflicts::materialize::is_planned;
use crate::conflicts::materialize::planned_text;
use crate::conflicts::materialize::sides_text;
use crate::conflicts::materialize::step_valid;
use crate::conflicts::materialize::steps_text;
use crate::conflicts::materialize::ConflictMarkerStyle;
use crate::conflicts::materialize::StepView;
use crate::conflicts::parse::scan_from;
use crate::conflicts::parse::scan_step;
use crate::conflicts::parse::spec_parse_conflict;
use crate::conflicts::parse::ScanView;
use crate::conflicts::sections::base_name;
use crate::conflicts::sections::conflict_info;
use crate::conflicts::sections::git_text;
use crate::conflicts::sections::no_eol_comment;
use crate::conflicts::hunks::sections_scan;
use crate::conflicts::hunks::sections_step;
use crate::conflicts::hunks::SectionKind;
use crate::conflicts::hunks::SectionsView;
use crate::conflicts::hunks::spec_conflict_hunk;
use crate::conflicts::hunks::spec_git_style_hunk;
use crate::conflicts::hunks::git_step;
use crate::conflicts::hunks::GitPart;
use crate::conflicts::hunks::GitPartsView;
use crate::conflicts::lines::lemma_line_end;
use crate::conflicts::lines::line_end;
use crate::conflicts::lines::lines_from;
use crate::conflicts::lines::lines_of;
use crate::conflicts::markers::marker_line;
use crate::conflicts::markers::run_len;
use crate::conflicts::markers::spec_decimal;
use crate::conflicts::markers::spec_marker;
use crate::conflicts::markers::with_newline;
use crate::conflicts::markers::ConflictMarker;
use vstd::string::StringSliceAdditionalSpecFns;
use vstd::prelude::*;
use vstd::string::is_ascii;
use vstd::string::is_ascii_spec_bytes;

verus! {

/// The text is empty or ends with a line feed.
pub open spec fn ends_lines(text: Seq<u8>) -> bool {
    text.len() == 0 || text.last() == 0x0a
}

/// A line of a text that ends its lines ends where it ends in the text
/// with more text behind it.
pub proof fn lemma_line_end_in_prefix(a: Seq<u8>, b: Seq<u8>, pos: int)
    requires
        ends_lines(a),
        0 <= pos < a.len(),
    ensures
        line_end(a + b, pos) == line_end(a, pos),
        pos < line_end(a, pos) <= a.len(),
    decreases a.len() - pos,
{
    lemma_line_end(a, pos);
    assert((a + b)[pos] == a[pos]);
    if a[pos] != 0x0a {
        if pos + 1 < a.len() {
            lemma_line_end_in_prefix(a, b, pos + 1);
        } else {
            assert(a.last() == a[pos]);
        }
    }
}

/// Behind a text, a line ends where it ends in what follows the text.
pub proof fn lemma_line_end_shift(a: Seq<u8>, b: Seq<u8>, pos: int)
    requires
        0 <= pos < b.len(),
    ensures
        line_end(a + b, a.len() + pos) == a.len() + line_end(b, pos),
    decreases b.len() - pos,
{
    assert((a + b)[a.len() + pos] == b[pos]);
    if b[pos] != 0x0a {
        if pos + 1 < b.len() {
            lemma_line_end_shift(a, b, pos + 1);
        } else {
            reveal_with_fuel(line_end, 2);
        }
    }
}

/// Behind a text, the lines are those of what follows the text.
pub proof fn lemma_lines_shift(a: Seq<u8>, b: Seq<u8>, pos: int)
    requires
        0 <= pos <= b.len(),
    ensures
        lines_from(a + b, a.len() + pos) == lines_from(b, pos),
    decreases b.len() - pos,
{
    if pos < b.len() {
        lemma_line_end_shift(a, b, pos);
        lemma_line_end(b, pos);
        let end = line_end(b, pos);
        lemma_lines_shift(a, b, end);
        assert((a + b).subrange(a.len() + pos, a.len() + end) =~= b.subrange(pos, end));
    }
}

/// The lines of a text that ends its lines, with more text behind it, are
/// the lines of the text and then those of what is behind it.
pub proof fn lemma_lines_concat(a: Seq<u8>, b: Seq<u8>, pos: int)
    requires
        ends_lines(a),
        0 <= pos <= a.len(),
    ensures
        lines_from(a + b, pos) == lines_from(a, pos) + lines_of(b),
    decreases a.len() - pos,
{
    if pos < a.len() {
        lemma_line_end_in_prefix(a, b, pos);
        let end = line_end(a, pos);
        lemma_lines_concat(a, b, end);
        assert((a + b).subrange(pos, end) =~= a.subrange(pos, end));
        assert(lines_from(a + b, pos) =~= lines_from(a, pos) + lines_of(b));
    } else {
        lemma_lines_shift(a, b, 0);
        assert(lines_from(a, pos) =~= Seq::<Seq<u8>>::empty());
        assert(lines_from(a + b, pos) =~= lines_from(a, pos) + lines_of(b));
    }
}

/// The lines of a text put together are the text from where they begin.
pub open spec fn joined_lines(lines: Seq<Seq<u8>>) -> Seq<u8>
    decreases lines.len(),
{
    if lines.len() == 0 {
        Seq::empty()
    } else {
        lines[0] + joined_lines(lines.drop_first())
    }
}

/// The lines of a text put together are the text.
pub proof fn lemma_lines_join(text: Seq<u8>, pos: int)
    requires
        0 <= pos <= text.len(),
    ensures
        joined_lines(lines_from(text, pos)) == text.subrange(pos, text.len() as int),
    decreases text.len() - pos,
{
    if pos < text.len() {
        lemma_line_end(text, pos);
        let end = line_end(text, pos);
        lemma_lines_join(text, end);
        let lines = lines_from(text, pos);
        assert(lines[0] == text.subrange(pos, end));
        assert(lines.drop_first() =~= lines_from(text, end));
        assert(text.subrange(pos, end) + text.subrange(end, text.len() as int) =~= text.subrange(
            pos,
            text.len() as int,
        ));
    } else {
        assert(text.subrange(pos, text.len() as int) =~= Seq::<u8>::empty());
    }
}

/// What a reader holds after the lines, which it reads one by one.
pub open spec fn read_lines<S>(lines: Seq<Seq<u8>>, state: S, step: spec_fn(S, Seq<u8>) -> S) -> S
    decreases lines.len(),
{
    if lines.len() == 0 {
        state
    } else {
        read_lines(lines.drop_first(), step(state, lines[0]), step)
    }
}

/// To read lines and then more lines is to read them all.
pub proof fn lemma_read_concat<S>(
    first: Seq<Seq<u8>>,
    second: Seq<Seq<u8>>,
    state: S,
    step: spec_fn(S, Seq<u8>) -> S,
)
    ensures
        read_lines(first + second, state, step) == read_lines(
            second,
            read_lines(first, state, step),
            step,
        ),
    decreases first.len(),
{
    if first.len() == 0 {
        assert(first + second =~= second);
    } else {
        assert((first + second).drop_first() =~= first.drop_first() + second);
        lemma_read_concat(first.drop_first(), second, step(state, first[0]), step);
    }
}

} // verus!

verus! {

/// No line begins with a marker of the given length or a longer one.
pub open spec fn no_marker_lines(lines: Seq<Seq<u8>>, marker_len: int) -> bool {
    forall|i: int| 0 <= i < lines.len() ==> spec_marker(#[trigger] lines[i], marker_len).is_none()
}

/// No line begins or ends a conflict: none begins with such a marker of
/// the given length or a longer one.
pub open spec fn no_conflict_bounds(lines: Seq<Seq<u8>>, marker_len: int) -> bool {
    forall|i: int|
        0 <= i < lines.len() ==> spec_marker(#[trigger] lines[i], marker_len) != Some(
            ConflictMarker::ConflictStart,
        ) && spec_marker(lines[i], marker_len) != Some(ConflictMarker::ConflictEnd)
}

/// Lines without markers neither begin nor end a conflict.
pub proof fn lemma_plain_has_no_bounds(lines: Seq<Seq<u8>>, marker_len: int)
    requires
        no_marker_lines(lines, marker_len),
    ensures
        no_conflict_bounds(lines, marker_len),
{
}

/// Lines that neither begin nor end a conflict, put together, hold no
/// such line.
pub proof fn lemma_no_bounds_concat(a: Seq<Seq<u8>>, b: Seq<Seq<u8>>, marker_len: int)
    requires
        no_conflict_bounds(a, marker_len),
        no_conflict_bounds(b, marker_len),
    ensures
        no_conflict_bounds(a + b, marker_len),
{
    assert forall|i: int| 0 <= i < (a + b).len() implies spec_marker(
        #[trigger] (a + b)[i],
        marker_len,
    ) != Some(ConflictMarker::ConflictStart) && spec_marker((a + b)[i], marker_len) != Some(
        ConflictMarker::ConflictEnd,
    ) by {
        if i < a.len() {
            assert((a + b)[i] == a[i]);
        } else {
            assert((a + b)[i] == b[i - a.len()]);
        }
    }
}

/// No byte of the text is a line feed.
pub open spec fn no_line_feed(text: Seq<u8>) -> bool {
    forall|i: int| 0 <= i < text.len() ==> #[trigger] text[i] != 0x0a
}

/// A text with one line feed, at its end, is one line.
pub proof fn lemma_one_line(text: Seq<u8>, pos: int)
    requires
        text.len() > 0,
        text.last() == 0x0a,
        no_line_feed(text.drop_last()),
        0 <= pos < text.len(),
    ensures
        line_end(text, pos) == text.len(),
    decreases text.len() - pos,
{
    if pos + 1 < text.len() {
        assert(text.drop_last()[pos] == text[pos]);
        lemma_one_line(text, pos + 1);
    }
}

/// The marker characters at the start of a marker line are counted in
/// full.
proof fn lemma_marker_run(kind: ConflictMarker, len: int, suffix: Seq<u8>, from: int)
    requires
        0 <= from <= len,
    ensures
        run_len(marker_line(kind, len, suffix), kind.spec_to_byte(), from) == len - from,
    decreases len - from,
{
    let line = marker_line(kind, len, suffix);
    if from < len {
        assert(line[from] == kind.spec_to_byte());
        lemma_marker_run(kind, len, suffix, from + 1);
    } else {
        assert(line[len] == 0x0a || line[len] == 0x20);
    }
}

/// A marker line is one line that ends with a line feed and begins with
/// its marker in its length.
pub proof fn lemma_marker_line(kind: ConflictMarker, len: int, suffix: Seq<u8>)
    requires
        len >= 1,
        no_line_feed(suffix),
    ensures
        ends_lines(marker_line(kind, len, suffix)),
        lines_of(marker_line(kind, len, suffix)) == seq![marker_line(kind, len, suffix)],
        spec_marker(marker_line(kind, len, suffix), len) == Some(kind),
{
    let line = marker_line(kind, len, suffix);
    assert(no_line_feed(line.drop_last())) by {
        assert forall|i: int| 0 <= i < line.drop_last().len() implies #[trigger] line.drop_last()[i]
            != 0x0a by {
            if i < len {
            } else if suffix.len() > 0 && i > len {
                assert(line[i] == suffix[i - len - 1]);
            }
        }
    }
    lemma_one_line(line, 0);
    assert(lines_from(line, line.len() as int) =~= Seq::<Seq<u8>>::empty());
    assert(line.subrange(0, line.len() as int) =~= line);
    assert(lines_of(line) =~= seq![line]);
    lemma_marker_run(kind, len, suffix, 0);
    assert(line[0] == kind.spec_to_byte());
    assert(ConflictMarker::spec_parse_byte(kind.spec_to_byte()) == Some(kind));
    assert(line[len] == 0x0a || line[len] == 0x20);
}

/// The reader of the lines of a conflict in the style of Git.
pub open spec fn git_reader(marker_len: int) -> spec_fn(GitPartsView, Seq<u8>) -> GitPartsView {
    |state: GitPartsView, line: Seq<u8>| git_step(state, line, marker_len)
}

/// A conflict in the style of Git is read line by line.
pub proof fn lemma_git_scan(body: Seq<u8>, marker_len: int, pos: int, state: GitPartsView)
    requires
        0 <= pos <= body.len(),
    ensures
        git_scan(body, marker_len, pos, state) == read_lines(
            lines_from(body, pos),
            state,
            git_reader(marker_len),
        ),
    decreases body.len() - pos,
{
    if pos < body.len() {
        lemma_line_end(body, pos);
        let end = line_end(body, pos);
        let lines = lines_from(body, pos);
        assert(lines[0] == body.subrange(pos, end));
        assert(lines.drop_first() =~= lines_from(body, end));
        lemma_git_scan(body, marker_len, end, git_step(state, body.subrange(pos, end), marker_len));
    }
}

/// The state with the text at the end of the part that is open.
pub open spec fn git_with(state: GitPartsView, text: Seq<u8>) -> GitPartsView {
    match state.part {
        GitPart::Left => GitPartsView { left: state.left + text, ..state },
        GitPart::Base => GitPartsView { base: state.base + text, ..state },
        GitPart::Right => GitPartsView { right: state.right + text, ..state },
    }
}

/// Lines without markers go to the part that is open.
pub proof fn lemma_git_content(lines: Seq<Seq<u8>>, marker_len: int, state: GitPartsView)
    requires
        no_marker_lines(lines, marker_len),
        !state.failed,
    ensures
        read_lines(lines, state, git_reader(marker_len)) == git_with(state, joined_lines(lines)),
    decreases lines.len(),
{
    if lines.len() == 0 {
        assert(state.left + Seq::<u8>::empty() =~= state.left);
        assert(state.base + Seq::<u8>::empty() =~= state.base);
        assert(state.right + Seq::<u8>::empty() =~= state.right);
    } else {
        let next = git_step(state, lines[0], marker_len);
        assert(spec_marker(lines[0], marker_len).is_none());
        assert(next == git_with(state, lines[0]));
        let rest = lines.drop_first();
        assert forall|i: int| 0 <= i < rest.len() implies spec_marker(
            #[trigger] rest[i],
            marker_len,
        ).is_none() by {
            assert(rest[i] == lines[i + 1]);
        }
        lemma_git_content(rest, marker_len, next);
        let more = joined_lines(rest);
        assert(state.left + lines[0] + more =~= state.left + (lines[0] + more));
        assert(state.base + lines[0] + more =~= state.base + (lines[0] + more));
        assert(state.right + lines[0] + more =~= state.right + (lines[0] + more));
    }
}

/// What stands between the line that begins a conflict in the style of
/// Git and the line that ends it.
pub open spec fn git_body(left: Seq<u8>, base: Seq<u8>, right: Seq<u8>, marker_len: int) -> Seq<u8> {
    with_newline(left) + marker_line(ConflictMarker::GitAncestor, marker_len, "Base".spec_bytes())
        + with_newline(base) + marker_line(
        ConflictMarker::GitSeparator,
        marker_len,
        Seq::empty(),
    ) + with_newline(right)
}

/// The word on the marker line of the base holds no line feed.
proof fn lemma_base_word()
    ensures
        no_line_feed("Base".spec_bytes()),
{
    reveal_strlit("Base");
    let word = "Base";
    assert(is_ascii(word)) by {
        assert(word@ == seq!['B', 'a', 's', 'e']);
        assert forall|i: int| 0 <= i < word@.len() implies #[trigger] (word@[i] as u32) < 128 by {}
    }
    is_ascii_spec_bytes(word);
}

} // verus!

verus! {

/// Texts that end their lines, put together, end their lines.
pub proof fn lemma_ends_lines_concat(a: Seq<u8>, b: Seq<u8>)
    requires
        ends_lines(a),
        ends_lines(b),
    ensures
        ends_lines(a + b),
{
    if b.len() > 0 {
        assert((a + b).last() == b.last());
    } else {
        assert(a + b =~= a);
    }
}

/// A text with a line feed at its end ends its lines, and is what its
/// lines are put together.
pub proof fn lemma_with_newline(text: Seq<u8>)
    ensures
        ends_lines(with_newline(text)),
        joined_lines(lines_of(with_newline(text))) == with_newline(text),
{
    let closed = with_newline(text);
    lemma_lines_join(closed, 0);
    assert(closed.subrange(0, closed.len() as int) =~= closed);
}

/// The lines of a text are without markers of the given length.
pub open spec fn is_plain(text: Seq<u8>, marker_len: int) -> bool {
    no_marker_lines(lines_of(with_newline(text)), marker_len)
}

/// The lines of a conflict in the style of Git: those of the first side,
/// the marker line of the base, those of the base, the separator line, and
/// those of the second side.
pub open spec fn git_lines(left: Seq<u8>, base: Seq<u8>, right: Seq<u8>, marker_len: int) -> Seq<
    Seq<u8>,
> {
    lines_of(with_newline(left)) + seq![
        marker_line(ConflictMarker::GitAncestor, marker_len, "Base".spec_bytes()),
    ] + lines_of(with_newline(base)) + seq![
        marker_line(ConflictMarker::GitSeparator, marker_len, Seq::empty()),
    ] + lines_of(with_newline(right))
}

/// What stands between the line that begins a conflict in the style of
/// Git and the line that ends it ends its lines, has the lines of its
/// parts and of the two marker lines, and no line of it begins or ends a
/// conflict.
proof fn lemma_git_body_lines(left: Seq<u8>, base: Seq<u8>, right: Seq<u8>, marker_len: int)
    requires
        marker_len >= 1,
        is_plain(left, marker_len),
        is_plain(base, marker_len),
        is_plain(right, marker_len),
    ensures
        lines_of(git_body(left, base, right, marker_len)) == git_lines(
            left,
            base,
            right,
            marker_len,
        ),
        ends_lines(git_body(left, base, right, marker_len)),
        no_conflict_bounds(lines_of(git_body(left, base, right, marker_len)), marker_len),
        spec_marker(
            marker_line(ConflictMarker::GitAncestor, marker_len, "Base".spec_bytes()),
            marker_len,
        ) == Some(ConflictMarker::GitAncestor),
        spec_marker(
            marker_line(ConflictMarker::GitSeparator, marker_len, Seq::empty()),
            marker_len,
        ) == Some(ConflictMarker::GitSeparator),
{
    let tl = with_newline(left);
    let tb = with_newline(base);
    let tr = with_newline(right);
    let mb = marker_line(ConflictMarker::GitAncestor, marker_len, "Base".spec_bytes());
    let ms = marker_line(ConflictMarker::GitSeparator, marker_len, Seq::empty());
    lemma_base_word();
    lemma_marker_line(ConflictMarker::GitAncestor, marker_len, "Base".spec_bytes());
    lemma_marker_line(ConflictMarker::GitSeparator, marker_len, Seq::empty());
    lemma_with_newline(left);
    lemma_with_newline(base);
    lemma_with_newline(right);
    let p2 = tl + mb;
    let p3 = p2 + tb;
    let p4 = p3 + ms;
    lemma_ends_lines_concat(tl, mb);
    lemma_ends_lines_concat(p2, tb);
    lemma_ends_lines_concat(p3, ms);
    lemma_ends_lines_concat(p4, tr);
    lemma_lines_concat(tl, mb, 0);
    lemma_lines_concat(p2, tb, 0);
    lemma_lines_concat(p3, ms, 0);
    lemma_lines_concat(p4, tr, 0);
    let l1 = lines_of(tl);
    let l2 = l1 + seq![mb];
    let l3 = l2 + lines_of(tb);
    let l4 = l3 + seq![ms];
    lemma_plain_has_no_bounds(l1, marker_len);
    lemma_plain_has_no_bounds(lines_of(tb), marker_len);
    lemma_plain_has_no_bounds(lines_of(tr), marker_len);
    lemma_no_bounds_concat(l1, seq![mb], marker_len);
    lemma_no_bounds_concat(l2, lines_of(tb), marker_len);
    lemma_no_bounds_concat(l3, seq![ms], marker_len);
    lemma_no_bounds_concat(l4, lines_of(tr), marker_len);
}

/// The parts of a conflict in the style of Git that was written are read
/// back, each with a line feed at its end, where no line of a part begins
/// with a marker of the length that the conflict was written with.
pub proof fn lemma_git_style_round_trip(
    left: Seq<u8>,
    base: Seq<u8>,
    right: Seq<u8>,
    marker_len: int,
)
    requires
        marker_len >= 1,
        is_plain(left, marker_len),
        is_plain(base, marker_len),
        is_plain(right, marker_len),
    ensures
        spec_conflict_hunk(git_body(left, base, right, marker_len), marker_len) == seq![
            with_newline(left),
            with_newline(base),
            with_newline(right),
        ],
        ends_lines(git_body(left, base, right, marker_len)),
        no_conflict_bounds(lines_of(git_body(left, base, right, marker_len)), marker_len),
{
    let tl = with_newline(left);
    let tb = with_newline(base);
    let tr = with_newline(right);
    let mb = marker_line(ConflictMarker::GitAncestor, marker_len, "Base".spec_bytes());
    let ms = marker_line(ConflictMarker::GitSeparator, marker_len, Seq::empty());
    let body = git_body(left, base, right, marker_len);
    let reader = git_reader(marker_len);
    lemma_git_body_lines(left, base, right, marker_len);
    lemma_with_newline(left);
    lemma_with_newline(base);
    lemma_with_newline(right);
    let l1 = lines_of(tl);
    let l2 = l1 + seq![mb];
    let l3 = l2 + lines_of(tb);
    let l4 = l3 + seq![ms];
    assert(lines_of(body) == l4 + lines_of(tr));
    let s0 = GitPartsView {
        part: GitPart::Left,
        left: Seq::empty(),
        base: Seq::empty(),
        right: Seq::empty(),
        failed: false,
    };
    lemma_git_scan(body, marker_len, 0, s0);
    lemma_read_concat(l4, lines_of(tr), s0, reader);
    lemma_read_concat(l3, seq![ms], s0, reader);
    lemma_read_concat(l2, lines_of(tb), s0, reader);
    lemma_read_concat(l1, seq![mb], s0, reader);
    lemma_git_content(l1, marker_len, s0);
    let s1 = read_lines(l1, s0, reader);
    assert(s1.left =~= tl);
    let s2 = read_lines(seq![mb], s1, reader);
    assert(s2 == git_step(s1, mb, marker_len)) by {
        reveal_with_fuel(read_lines, 2);
        assert(seq![mb].drop_first() =~= Seq::<Seq<u8>>::empty());
    }
    lemma_git_content(lines_of(tb), marker_len, s2);
    let s3 = read_lines(lines_of(tb), s2, reader);
    assert(s3.base =~= tb);
    let s4 = read_lines(seq![ms], s3, reader);
    assert(s4 == git_step(s3, ms, marker_len)) by {
        reveal_with_fuel(read_lines, 2);
        assert(seq![ms].drop_first() =~= Seq::<Seq<u8>>::empty());
    }
    lemma_git_content(lines_of(tr), marker_len, s4);
    let s5 = read_lines(lines_of(tr), s4, reader);
    assert(s5.right =~= tr);
    assert(spec_git_style_hunk(body, marker_len) == seq![tl, tb, tr]);
    // The first line is a line of the first side or the marker line of
    // the base.
    assert(body.len() > 0) by {
        assert(mb.len() > 0);
    }
    lemma_line_end(body, 0);
    let first = body.subrange(0, line_end(body, 0));
    assert(lines_of(body)[0] == first);
    if l1.len() > 0 {
        assert(lines_of(body)[0] == l1[0]);
        assert(spec_marker(first, marker_len).is_none());
    } else {
        assert(lines_of(body)[0] == mb);
    }
}

} // verus!

verus! {

/// Texts without a line feed, put together, hold no line feed.
pub proof fn lemma_no_line_feed_concat(a: Seq<u8>, b: Seq<u8>)
    requires
        no_line_feed(a),
        no_line_feed(b),
    ensures
        no_line_feed(a + b),
{
    assert forall|i: int| 0 <= i < (a + b).len() implies #[trigger] (a + b)[i] != 0x0a by {
        if i < a.len() {
            assert((a + b)[i] == a[i]);
        } else {
            assert((a + b)[i] == b[i - a.len()]);
        }
    }
}

/// A number in decimal digits holds no line feed.
pub proof fn lemma_decimal_no_line_feed(n: nat)
    ensures
        no_line_feed(spec_decimal(n)),
    decreases n,
{
    if n >= 10 {
        lemma_decimal_no_line_feed(n / 10);
        let digits = spec_decimal(n / 10);
        let last = (0x30 + n % 10) as u8;
        assert forall|i: int| 0 <= i < digits.push(last).len() implies #[trigger] digits.push(
            last,
        )[i] != 0x0a by {
            if i < digits.len() {
                assert(digits.push(last)[i] == digits[i]);
            }
        }
    }
}

/// The bytes of an ASCII text without a line feed hold none.
pub proof fn lemma_ascii_no_line_feed(text: &str)
    requires
        is_ascii(text),
        forall|i: int| 0 <= i < text@.len() ==> #[trigger] text@[i] != '\n',
    ensures
        no_line_feed(text.spec_bytes()),
{
    is_ascii_spec_bytes(text);
    assert forall|i: int| 0 <= i < text.spec_bytes().len() implies #[trigger] text.spec_bytes()[i]
        != 0x0a by {
        assert(text.spec_bytes()[i] == text@[i] as u8);
        assert(text@[i] != '\n');
    }
}

/// The words on the marker lines of snapshots hold no line feed.
pub proof fn lemma_snapshot_words()
    ensures
        no_line_feed("Contents of side #".spec_bytes()),
        no_line_feed("Contents of ".spec_bytes()),
        no_line_feed(" (no terminating newline)".spec_bytes()),
        no_line_feed("base".spec_bytes()),
        no_line_feed("base #".spec_bytes()),
{
    reveal_strlit("Contents of side #");
    reveal_strlit("Contents of ");
    reveal_strlit(" (no terminating newline)");
    reveal_strlit("base");
    reveal_strlit("base #");
    lemma_ascii_no_line_feed("Contents of side #");
    lemma_ascii_no_line_feed("Contents of ");
    lemma_ascii_no_line_feed(" (no terminating newline)");
    lemma_ascii_no_line_feed("base");
    lemma_ascii_no_line_feed("base #");
}

} // verus!

verus! {

/// The reader of the lines of a conflict with a marker line for each
/// section.
pub open spec fn sections_reader(marker_len: int) -> spec_fn(SectionsView, Seq<u8>) -> SectionsView {
    |state: SectionsView, line: Seq<u8>| sections_step(state, line, marker_len)
}

/// A conflict with a marker line for each section is read line by line.
pub proof fn lemma_sections_scan(body: Seq<u8>, marker_len: int, pos: int, state: SectionsView)
    requires
        0 <= pos <= body.len(),
    ensures
        sections_scan(body, marker_len, pos, state) == read_lines(
            lines_from(body, pos),
            state,
            sections_reader(marker_len),
        ),
    decreases body.len() - pos,
{
    if pos < body.len() {
        lemma_line_end(body, pos);
        let end = line_end(body, pos);
        let lines = lines_from(body, pos);
        assert(lines[0] == body.subrange(pos, end));
        assert(lines.drop_first() =~= lines_from(body, end));
        lemma_sections_scan(
            body,
            marker_len,
            end,
            sections_step(state, body.subrange(pos, end), marker_len),
        );
    }
}

/// The state with the text at the end of the snapshot that is open.
pub open spec fn sections_with(state: SectionsView, text: Seq<u8>) -> SectionsView {
    match state.kind {
        SectionKind::Remove => SectionsView {
            removes: append_last(state.removes, text),
            ..state
        },
        _ => SectionsView { adds: append_last(state.adds, text), ..state },
    }
}

/// Lines without markers go to the snapshot that is open.
pub proof fn lemma_sections_content(lines: Seq<Seq<u8>>, marker_len: int, state: SectionsView)
    requires
        no_marker_lines(lines, marker_len),
        !state.failed,
        state.kind == SectionKind::Add && state.adds.len() > 0 || state.kind == SectionKind::Remove
            && state.removes.len() > 0,
    ensures
        read_lines(lines, state, sections_reader(marker_len)) == sections_with(
            state,
            joined_lines(lines),
        ),
    decreases lines.len(),
{
    if lines.len() == 0 {
        if state.kind == SectionKind::Remove {
            assert(state.removes.last() + Seq::<u8>::empty() =~= state.removes.last());
            assert(append_last(state.removes, Seq::<u8>::empty()) =~= state.removes);
        } else {
            assert(state.adds.last() + Seq::<u8>::empty() =~= state.adds.last());
            assert(append_last(state.adds, Seq::<u8>::empty()) =~= state.adds);
        }
    } else {
        let next = sections_step(state, lines[0], marker_len);
        assert(spec_marker(lines[0], marker_len).is_none());
        assert(next == sections_with(state, lines[0]));
        let rest = lines.drop_first();
        assert forall|i: int| 0 <= i < rest.len() implies spec_marker(
            #[trigger] rest[i],
            marker_len,
        ).is_none() by {
            assert(rest[i] == lines[i + 1]);
        }
        lemma_sections_content(rest, marker_len, next);
        let more = joined_lines(rest);
        if state.kind == SectionKind::Remove {
            assert(append_last(append_last(state.removes, lines[0]), more) =~= append_last(
                state.removes,
                lines[0] + more,
            )) by {
                assert(state.removes.last() + lines[0] + more =~= state.removes.last() + (lines[0]
                    + more));
            }
        } else {
            assert(append_last(append_last(state.adds, lines[0]), more) =~= append_last(
                state.adds,
                lines[0] + more,
            )) by {
                assert(state.adds.last() + lines[0] + more =~= state.adds.last() + (lines[0]
                    + more));
            }
        }
    }
}

/// A snapshot: a marker line of a side or a base, and a text that ends
/// its lines, without markers.
pub open spec fn snapshot_text(kind: ConflictMarker, marker_len: int, suffix: Seq<u8>, data: Seq<u8>) -> Seq<
    u8,
> {
    marker_line(kind, marker_len, suffix) + with_newline(data)
}

/// What is read after a snapshot: one more side, or one more base, with
/// the text of the snapshot.
pub proof fn lemma_read_snapshot(
    before: Seq<u8>,
    kind: ConflictMarker,
    marker_len: int,
    suffix: Seq<u8>,
    data: Seq<u8>,
    first: SectionsView,
)
    requires
        marker_len >= 1,
        kind == ConflictMarker::Add || kind == ConflictMarker::Remove,
        no_line_feed(suffix),
        is_plain(data, marker_len),
        ends_lines(before),
        !read_lines(lines_of(before), first, sections_reader(marker_len)).failed,
    ensures
        ends_lines(before + snapshot_text(kind, marker_len, suffix, data)),
        ({
            let state = read_lines(lines_of(before), first, sections_reader(marker_len));
            let after = read_lines(
                lines_of(before + snapshot_text(kind, marker_len, suffix, data)),
                first,
                sections_reader(marker_len),
            );
            &&& !after.failed
            &&& kind == ConflictMarker::Add ==> after.kind == SectionKind::Add && after.adds
                == state.adds.push(with_newline(data)) && after.removes == state.removes
            &&& kind == ConflictMarker::Remove ==> after.kind == SectionKind::Remove
                && after.removes == state.removes.push(with_newline(data)) && after.adds
                == state.adds
        }),
        no_conflict_bounds(lines_of(before), marker_len) ==> no_conflict_bounds(
            lines_of(before + snapshot_text(kind, marker_len, suffix, data)),
            marker_len,
        ),
        before.len() == 0 ==> lines_of(before + snapshot_text(kind, marker_len, suffix, data))[0]
            == marker_line(kind, marker_len, suffix),
        before.len() > 0 ==> lines_of(before + snapshot_text(kind, marker_len, suffix, data))[0]
            == lines_of(before)[0],
{
    let reader = sections_reader(marker_len);
    let line = marker_line(kind, marker_len, suffix);
    let text = with_newline(data);
    let snapshot = snapshot_text(kind, marker_len, suffix, data);
    lemma_marker_line(kind, marker_len, suffix);
    lemma_with_newline(data);
    lemma_ends_lines_concat(line, text);
    lemma_ends_lines_concat(before, snapshot);
    lemma_lines_concat(line, text, 0);
    lemma_lines_concat(before, snapshot, 0);
    let state = read_lines(lines_of(before), first, reader);
    lemma_read_concat(lines_of(before), lines_of(snapshot), first, reader);
    lemma_read_concat(seq![line], lines_of(text), state, reader);
    let opened = read_lines(seq![line], state, reader);
    assert(opened == sections_step(state, line, marker_len)) by {
        reveal_with_fuel(read_lines, 2);
        assert(seq![line].drop_first() =~= Seq::<Seq<u8>>::empty());
    }
    lemma_sections_content(lines_of(text), marker_len, opened);
    let after = read_lines(lines_of(text), opened, reader);
    if kind == ConflictMarker::Add {
        assert(after.adds =~= state.adds.push(text)) by {
            assert(state.adds.push(Seq::<u8>::empty()).drop_last() =~= state.adds);
            assert(Seq::<u8>::empty() + text =~= text);
        }
    } else {
        assert(after.removes =~= state.removes.push(text)) by {
            assert(state.removes.push(Seq::<u8>::empty()).drop_last() =~= state.removes);
            assert(Seq::<u8>::empty() + text =~= text);
        }
    }
    if before.len() > 0 {
        lemma_line_end(before, 0);
    }
    if no_conflict_bounds(lines_of(before), marker_len) {
        lemma_plain_has_no_bounds(lines_of(text), marker_len);
        lemma_no_bounds_concat(seq![line], lines_of(text), marker_len);
        lemma_no_bounds_concat(lines_of(before), lines_of(snapshot), marker_len);
    }
}

} // verus!

verus! {

/// The terms, each with a line feed at its end.
pub open spec fn newlined(terms: Seq<Seq<u8>>) -> Seq<Seq<u8>> {
    Seq::new(terms.len(), |k: int| with_newline(terms[k]))
}

/// No line of a term begins with a marker of the given length or a longer
/// one.
pub open spec fn all_plain(terms: Seq<Seq<u8>>, marker_len: int) -> bool {
    forall|k: int| 0 <= k < terms.len() ==> is_plain(#[trigger] terms[k], marker_len)
}

/// What stands between the line that begins a conflict that is written by
/// a plan and the line that ends it.
pub open spec fn planned_body(terms: Seq<Seq<u8>>, plan: Seq<StepView>, marker_len: int) -> Seq<u8> {
    steps_text(terms, plan, marker_len, plan.len() as int) + sides_text(
        terms,
        adds_used(plan, plan.len() as int),
        marker_len,
    )
}

/// In every style but the diff style, each step of a plan writes the next
/// side and its base as snapshots.
pub proof fn lemma_snapshot_plan(
    terms: Seq<Seq<u8>>,
    style: ConflictMarkerStyle,
    plan: Seq<StepView>,
    b: int,
)
    requires
        terms.len() % 2 == 1,
        style != ConflictMarkerStyle::Diff,
        is_plan(terms, style, plan),
        0 <= b <= plan.len(),
    ensures
        adds_used(plan, b) == b,
        b < plan.len() ==> plan[b] == StepView::SideAndBase,
    decreases b,
{
    reveal(step_valid);
    if b > 0 {
        lemma_snapshot_plan(terms, style, plan, b - 1);
    }
    if b < plan.len() {
        assert(step_valid(terms, style, b, adds_used(plan, b), plan[b]));
    }
}

/// The header of the snapshot of a side holds no line feed.
pub proof fn lemma_side_header(add_index: int, data: Seq<u8>)
    requires
        add_index >= 0,
    ensures
        no_line_feed(
            "Contents of side #".spec_bytes() + spec_decimal((add_index + 1) as nat)
                + no_eol_comment(data),
        ),
{
    lemma_snapshot_words();
    lemma_decimal_no_line_feed((add_index + 1) as nat);
    lemma_no_line_feed_concat(
        "Contents of side #".spec_bytes(),
        spec_decimal((add_index + 1) as nat),
    );
    lemma_no_line_feed_concat(
        "Contents of side #".spec_bytes() + spec_decimal((add_index + 1) as nat),
        no_eol_comment(data),
    );
}

/// The header of the snapshot of a base holds no line feed.
pub proof fn lemma_base_header(base_index: int, num_bases: int, data: Seq<u8>)
    requires
        base_index >= 0,
    ensures
        no_line_feed(
            "Contents of ".spec_bytes() + base_name(base_index, num_bases) + no_eol_comment(data),
        ),
{
    lemma_snapshot_words();
    lemma_decimal_no_line_feed((base_index + 1) as nat);
    lemma_no_line_feed_concat("base #".spec_bytes(), spec_decimal((base_index + 1) as nat));
    lemma_no_line_feed_concat("Contents of ".spec_bytes(), base_name(base_index, num_bases));
    lemma_no_line_feed_concat(
        "Contents of ".spec_bytes() + base_name(base_index, num_bases),
        no_eol_comment(data),
    );
}

} // verus!

verus! {

/// The place of a line in a text between two others.
pub proof fn lemma_line_in_middle(a: Seq<u8>, c: Seq<u8>, b: Seq<u8>, q: int)
    requires
        ends_lines(c) || b.len() == 0,
        0 <= q < c.len(),
    ensures
        line_end(a + c + b, a.len() + q) == a.len() + line_end(c, q),
        q < line_end(c, q) <= c.len(),
        (a + c + b).subrange(a.len() + q, a.len() + line_end(c, q)) == c.subrange(
            q,
            line_end(c, q),
        ),
{
    lemma_line_end(c, q);
    assert(a + c + b =~= a + (c + b));
    lemma_line_end_shift(a, c + b, q);
    if ends_lines(c) {
        lemma_line_end_in_prefix(c, b, q);
    } else {
        assert(c + b =~= c);
    }
    assert((a + c + b).subrange(a.len() + q, a.len() + line_end(c, q)) =~= c.subrange(
        q,
        line_end(c, q),
    ));
}

/// Lines that neither begin nor end a conflict are passed over.
pub proof fn lemma_scan_skip(
    a: Seq<u8>,
    c: Seq<u8>,
    b: Seq<u8>,
    num_sides: int,
    marker_len: int,
    q: int,
    state: ScanView,
)
    requires
        ends_lines(c) || b.len() == 0,
        0 <= q <= c.len(),
        no_conflict_bounds(lines_from(c, q), marker_len),
    ensures
        scan_from(a + c + b, num_sides, marker_len, a.len() + q, state) == scan_from(
            a + c + b,
            num_sides,
            marker_len,
            a.len() as int + c.len(),
            state,
        ),
    decreases c.len() - q,
{
    if q < c.len() {
        lemma_line_in_middle(a, c, b, q);
        let end = line_end(c, q);
        let lines = lines_from(c, q);
        assert(lines[0] == c.subrange(q, end));
        assert(lines.drop_first() =~= lines_from(c, end));
        assert forall|i: int| 0 <= i < lines_from(c, end).len() implies spec_marker(
            #[trigger] lines_from(c, end)[i],
            marker_len,
        ) != Some(ConflictMarker::ConflictStart) && spec_marker(lines_from(c, end)[i], marker_len)
            != Some(ConflictMarker::ConflictEnd) by {
            assert(lines_from(c, end)[i] == lines[i + 1]);
        }
        let whole = a + c + b;
        assert(scan_step(whole, num_sides, marker_len, state, a.len() + q, a.len() + end)
            == state);
        lemma_scan_skip(a, c, b, num_sides, marker_len, end, state);
    }
}

/// One line between two texts is read in one step.
pub proof fn lemma_scan_line(
    a: Seq<u8>,
    line: Seq<u8>,
    b: Seq<u8>,
    num_sides: int,
    marker_len: int,
    state: ScanView,
)
    requires
        ends_lines(line),
        lines_of(line) == seq![line],
    ensures
        scan_from(a + line + b, num_sides, marker_len, a.len() as int, state) == scan_from(
            a + line + b,
            num_sides,
            marker_len,
            a.len() as int + line.len(),
            scan_step(
                a + line + b,
                num_sides,
                marker_len,
                state,
                a.len() as int,
                a.len() as int + line.len(),
            ),
        ),
        (a + line + b).subrange(a.len() as int, a.len() as int + line.len()) == line,
{
    assert(line.len() > 0) by {
        if line.len() == 0 {
            assert(lines_of(line).len() == 0);
            assert(seq![line].len() == 1);
        }
    }
    lemma_line_in_middle(a, line, b, 0);
    lemma_line_end(line, 0);
    let end = line_end(line, 0);
    assert(end == line.len()) by {
        assert(lines_of(line)[0] == line.subrange(0, end));
        assert(line.subrange(0, end).len() == end);
    }
    assert((a + line + b).subrange(a.len() as int, a.len() as int + line.len()) =~= line);
}

} // verus!

verus! {

/// What is read after a conflict that stands between two texts: if the
/// lines between the line that begins it and the line that ends it hold
/// a conflict of `num_sides` sides, that conflict is a hunk, behind the
/// resolved text that is open, if there is any.
pub open spec fn after_conflict(
    whole: Seq<u8>,
    state: ScanView,
    at: int,
    end: int,
    hunk: Seq<Seq<u8>>,
) -> ScanView {
    ScanView {
        hunks: if state.resolved_start < at {
            state.hunks.push(seq![whole.subrange(state.resolved_start, at)]).push(hunk)
        } else {
            state.hunks.push(hunk)
        },
        resolved_start: end,
        conflict_start: None,
    }
}

/// A conflict between two texts is read as one hunk.
pub proof fn lemma_scan_conflict(
    a: Seq<u8>,
    start_suffix: Seq<u8>,
    body: Seq<u8>,
    end_suffix: Seq<u8>,
    b: Seq<u8>,
    num_sides: int,
    marker_len: int,
    state: ScanView,
)
    requires
        marker_len >= 1,
        no_line_feed(start_suffix),
        no_line_feed(end_suffix),
        ends_lines(body),
        no_conflict_bounds(lines_of(body), marker_len),
        spec_conflict_hunk(body, marker_len).len() == 2 * num_sides - 1,
    ensures
        ({
            let start = marker_line(ConflictMarker::ConflictStart, marker_len, start_suffix);
            let end = marker_line(ConflictMarker::ConflictEnd, marker_len, end_suffix);
            let whole = a + (start + body + end) + b;
            let behind = a.len() as int + (start + body + end).len();
            scan_from(whole, num_sides, marker_len, a.len() as int, state) == scan_from(
                whole,
                num_sides,
                marker_len,
                behind,
                after_conflict(
                    whole,
                    state,
                    a.len() as int,
                    behind,
                    spec_conflict_hunk(body, marker_len),
                ),
            )
        }),
{
    let start = marker_line(ConflictMarker::ConflictStart, marker_len, start_suffix);
    let end = marker_line(ConflictMarker::ConflictEnd, marker_len, end_suffix);
    let whole = a + (start + body + end) + b;
    lemma_marker_line(ConflictMarker::ConflictStart, marker_len, start_suffix);
    lemma_marker_line(ConflictMarker::ConflictEnd, marker_len, end_suffix);
    // The line that begins the conflict.
    let b1 = body + end + b;
    assert(whole =~= a + start + b1);
    lemma_scan_line(a, start, b1, num_sides, marker_len, state);
    let at = a.len() as int;
    let p1 = at + start.len();
    let s1 = scan_step(whole, num_sides, marker_len, state, at, p1);
    assert(s1 == ScanView { conflict_start: Some((at, start.len() as int)), ..state });
    // The lines between.
    let a2 = a + start;
    let b2 = end + b;
    assert(whole =~= a2 + body + b2);
    lemma_scan_skip(a2, body, b2, num_sides, marker_len, 0, s1);
    let p2 = p1 + body.len();
    // The line that ends the conflict.
    let a3 = a + start + body;
    assert(whole =~= a3 + end + b);
    lemma_scan_line(a3, end, b, num_sides, marker_len, s1);
    let p3 = p2 + end.len();
    assert(whole.subrange(at + start.len(), p2) =~= body);
    assert((start + body + end).len() == start.len() + body.len() + end.len());
}

/// The words on the lines that begin and end a conflict hold no line
/// feed.
proof fn lemma_bound_words()
    ensures
        no_line_feed("Conflict ".spec_bytes()),
        no_line_feed(" of ".spec_bytes()),
        no_line_feed(" ends".spec_bytes()),
        no_line_feed("Side #1 (".spec_bytes()),
        no_line_feed(")".spec_bytes()),
        no_line_feed("Side #2 (".spec_bytes()),
        no_line_feed(" ends)".spec_bytes()),
{
    reveal_strlit("Conflict ");
    reveal_strlit(" of ");
    reveal_strlit(" ends");
    reveal_strlit("Side #1 (");
    reveal_strlit(")");
    reveal_strlit("Side #2 (");
    reveal_strlit(" ends)");
    lemma_ascii_no_line_feed("Conflict ");
    lemma_ascii_no_line_feed(" of ");
    lemma_ascii_no_line_feed(" ends");
    lemma_ascii_no_line_feed("Side #1 (");
    lemma_ascii_no_line_feed(")");
    lemma_ascii_no_line_feed("Side #2 (");
    lemma_ascii_no_line_feed(" ends)");
}

/// What the lines that begin and end a conflict say holds no line feed.
proof fn lemma_bound_suffixes(index: nat, count: nat)
    ensures
        no_line_feed(conflict_info(index, count)),
        no_line_feed(conflict_info(index, count) + " ends".spec_bytes()),
        no_line_feed("Side #1 (".spec_bytes() + conflict_info(index, count) + ")".spec_bytes()),
        no_line_feed(
            "Side #2 (".spec_bytes() + conflict_info(index, count) + " ends)".spec_bytes(),
        ),
{
    lemma_bound_words();
    lemma_decimal_no_line_feed(index);
    lemma_decimal_no_line_feed(count);
    let info = conflict_info(index, count);
    lemma_no_line_feed_concat("Conflict ".spec_bytes(), spec_decimal(index));
    lemma_no_line_feed_concat("Conflict ".spec_bytes() + spec_decimal(index), " of ".spec_bytes());
    lemma_no_line_feed_concat(
        "Conflict ".spec_bytes() + spec_decimal(index) + " of ".spec_bytes(),
        spec_decimal(count),
    );
    lemma_no_line_feed_concat(info, " ends".spec_bytes());
    lemma_no_line_feed_concat("Side #1 (".spec_bytes(), info);
    lemma_no_line_feed_concat("Side #1 (".spec_bytes() + info, ")".spec_bytes());
    lemma_no_line_feed_concat("Side #2 (".spec_bytes(), info);
    lemma_no_line_feed_concat("Side #2 (".spec_bytes() + info, " ends)".spec_bytes());
}

/// A conflict as it is written: the line that begins it, the lines
/// between, and the line that ends it.
pub open spec fn written_conflict(marker_len: int, parts: (Seq<u8>, Seq<u8>, Seq<u8>)) -> Seq<u8> {
    marker_line(ConflictMarker::ConflictStart, marker_len, parts.0) + parts.1 + marker_line(
        ConflictMarker::ConflictEnd,
        marker_len,
        parts.2,
    )
}

/// A conflict in the style of Git is the line that begins it, the lines
/// between, and the line that ends it.
proof fn lemma_git_text_parts(
    left: Seq<u8>,
    base: Seq<u8>,
    right: Seq<u8>,
    info: Seq<u8>,
    marker_len: int,
)
    ensures
        git_text(left, base, right, info, marker_len) == marker_line(
            ConflictMarker::ConflictStart,
            marker_len,
            "Side #1 (".spec_bytes() + info + ")".spec_bytes(),
        ) + git_body(left, base, right, marker_len) + marker_line(
            ConflictMarker::ConflictEnd,
            marker_len,
            "Side #2 (".spec_bytes() + info + " ends)".spec_bytes(),
        ),
{
    let start = marker_line(
        ConflictMarker::ConflictStart,
        marker_len,
        "Side #1 (".spec_bytes() + info + ")".spec_bytes(),
    );
    let end = marker_line(
        ConflictMarker::ConflictEnd,
        marker_len,
        "Side #2 (".spec_bytes() + info + " ends)".spec_bytes(),
    );
    let tl = with_newline(left);
    let mb = marker_line(ConflictMarker::GitAncestor, marker_len, "Base".spec_bytes());
    let tb = with_newline(base);
    let ms = marker_line(ConflictMarker::GitSeparator, marker_len, Seq::empty());
    let tr = with_newline(right);
    assert((start + tl + mb + tb) + (ms + tr + end) =~= start + (tl + mb + tb + ms + tr) + end);
}

/// A conflict that is written by a plan is the line that begins it, the
/// lines between, and the line that ends it.
proof fn lemma_planned_text_parts(
    terms: Seq<Seq<u8>>,
    info: Seq<u8>,
    plan: Seq<StepView>,
    marker_len: int,
)
    ensures
        planned_text(terms, info, plan, marker_len) == marker_line(
            ConflictMarker::ConflictStart,
            marker_len,
            info,
        ) + planned_body(terms, plan, marker_len) + marker_line(
            ConflictMarker::ConflictEnd,
            marker_len,
            info + " ends".spec_bytes(),
        ),
{
    let start = marker_line(ConflictMarker::ConflictStart, marker_len, info);
    let end = marker_line(ConflictMarker::ConflictEnd, marker_len, info + " ends".spec_bytes());
    let steps = steps_text(terms, plan, marker_len, plan.len() as int);
    let sides = sides_text(terms, adds_used(plan, plan.len() as int), marker_len);
    assert(start + steps + sides + end =~= start + (steps + sides) + end);
}

/// A conflict of two sides as it is written in the style of Git is the
/// line that begins it, the lines between, and the line that ends it; and
/// the lines between are read back as the terms of the conflict, each
/// with a line feed at its end.
proof fn lemma_written_git_conflict(
    terms: Seq<Seq<u8>>,
    marker_len: int,
    index: nat,
    count: nat,
) -> (parts: (Seq<u8>, Seq<u8>, Seq<u8>))
    requires
        terms.len() == 3,
        marker_len >= 1,
        all_plain(terms, marker_len),
    ensures
        git_text(terms[0], terms[1], terms[2], conflict_info(index, count), marker_len)
            == written_conflict(marker_len, parts),
        no_line_feed(parts.0),
        no_line_feed(parts.2),
        ends_lines(parts.1),
        no_conflict_bounds(lines_of(parts.1), marker_len),
        spec_conflict_hunk(parts.1, marker_len) == newlined(terms),
{
    let info = conflict_info(index, count);
    lemma_bound_suffixes(index, count);
    let body = git_body(terms[0], terms[1], terms[2], marker_len);
    let start_suffix = "Side #1 (".spec_bytes() + info + ")".spec_bytes();
    let end_suffix = "Side #2 (".spec_bytes() + info + " ends)".spec_bytes();
    assert(is_plain(terms[0], marker_len));
    assert(is_plain(terms[1], marker_len));
    assert(is_plain(terms[2], marker_len));
    lemma_git_style_round_trip(terms[0], terms[1], terms[2], marker_len);
    assert(newlined(terms) =~= seq![
        with_newline(terms[0]),
        with_newline(terms[1]),
        with_newline(terms[2]),
    ]);
    lemma_git_text_parts(terms[0], terms[1], terms[2], info, marker_len);
    (start_suffix, body, end_suffix)
}

/// A conflict as it is written by a plan is the line that begins it, the
/// lines between, and the line that ends it; and the lines between are
/// read back as the terms of the conflict, each with a line feed at its
/// end.
proof fn lemma_written_planned_conflict(
    terms: Seq<Seq<u8>>,
    style: ConflictMarkerStyle,
    marker_len: int,
    index: nat,
    count: nat,
    plan: Seq<StepView>,
) -> (parts: (Seq<u8>, Seq<u8>, Seq<u8>))
    requires
        terms.len() % 2 == 1,
        terms.len() >= 3,
        is_plan(terms, style, plan),
        marker_len >= 1,
        all_plain(terms, marker_len),
        style == ConflictMarkerStyle::Diff ==> plan_plain(plan, marker_len),
    ensures
        planned_text(terms, conflict_info(index, count), plan, marker_len) == written_conflict(
            marker_len,
            parts,
        ),
        no_line_feed(parts.0),
        no_line_feed(parts.2),
        ends_lines(parts.1),
        no_conflict_bounds(lines_of(parts.1), marker_len),
        spec_conflict_hunk(parts.1, marker_len) == newlined(terms),
{
    let info = conflict_info(index, count);
    lemma_bound_suffixes(index, count);
    let body = planned_body(terms, plan, marker_len);
    let end_suffix = info + " ends".spec_bytes();
    if style != ConflictMarkerStyle::Diff {
        assert forall|b: int| 0 <= b < plan.len() implies match #[trigger] plan[b] {
            StepView::Diff(hunks) => hunks_plain(hunks, marker_len),
            StepView::SideAndDiff(hunks) => hunks_plain(hunks, marker_len),
            _ => true,
        } by {
            lemma_snapshot_plan(terms, style, plan, b);
        }
    }
    lemma_planned_round_trip(terms, style, plan, marker_len);
    lemma_planned_text_parts(terms, info, plan, marker_len);
    (info, body, end_suffix)
}

/// A conflict as it is written is the line that begins it, the lines
/// between, and the line that ends it; and the lines between are read
/// back as the terms of the conflict, each with a line feed at its end.
pub proof fn lemma_written_conflict(
    terms: Seq<Seq<u8>>,
    style: ConflictMarkerStyle,
    marker_len: int,
    index: nat,
    count: nat,
    plan: Seq<StepView>,
) -> (parts: (Seq<u8>, Seq<u8>, Seq<u8>))
    requires
        terms.len() % 2 == 1,
        terms.len() >= 3,
        is_planned(terms, style) ==> is_plan(terms, style, plan),
        marker_len >= 1,
        all_plain(terms, marker_len),
        style == ConflictMarkerStyle::Diff ==> plan_plain(plan, marker_len),
    ensures
        hunk_text(terms, style, marker_len, conflict_info(index, count), plan) == written_conflict(
            marker_len,
            parts,
        ),
        no_line_feed(parts.0),
        no_line_feed(parts.2),
        ends_lines(parts.1),
        no_conflict_bounds(lines_of(parts.1), marker_len),
        spec_conflict_hunk(parts.1, marker_len) == newlined(terms),
{
    if style == ConflictMarkerStyle::Git && terms.len() == 3 {
        lemma_written_git_conflict(terms, marker_len, index, count)
    } else {
        lemma_written_planned_conflict(terms, style, marker_len, index, count, plan)
    }
}

} // verus!

verus! {

/// No line of a diff of the plan of a conflict begins with a marker when
/// it stands behind its prefix.
pub open spec fn plans_plain(
    hunks: Seq<Seq<Seq<u8>>>,
    plans: Seq<Seq<StepView>>,
    marker_len: int,
) -> bool {
    forall|i: int|
        0 <= i < hunks.len() && (#[trigger] hunks[i]).len() != 1 ==> plan_plain(
            plans[i],
            marker_len,
        )
}

/// The hunks can be written and read back: each conflict has `num_sides`
/// sides and terms without markers of the given length; each resolved
/// hunk has content, without a line that begins or ends a conflict; and a
/// resolved hunk before another hunk ends its lines and stands before a
/// conflict.
pub open spec fn is_readable(hunks: Seq<Seq<Seq<u8>>>, num_sides: int, marker_len: int) -> bool {
    &&& forall|i: int|
        0 <= i < hunks.len() ==> (#[trigger] hunks[i]).len() == 1 || (hunks[i].len() == 2
            * num_sides - 1 && hunks[i].len() >= 3 && all_plain(hunks[i], marker_len))
    &&& forall|i: int|
        0 <= i < hunks.len() && (#[trigger] hunks[i]).len() == 1 ==> hunks[i][0].len() > 0
            && no_conflict_bounds(lines_of(hunks[i][0]), marker_len) && (i + 1 < hunks.len()
            ==> ends_lines(hunks[i][0]) && hunks[i + 1].len() != 1)
}

/// The hunks as they are read back: the terms of each conflict have a
/// line feed at their ends.
pub open spec fn read_back(hunks: Seq<Seq<Seq<u8>>>) -> Seq<Seq<Seq<u8>>> {
    Seq::new(
        hunks.len(),
        |i: int|
            if hunks[i].len() == 1 {
                hunks[i]
            } else {
                newlined(hunks[i])
            },
    )
}

/// What is read after the first `i` hunks of a file: the hunks up to the
/// last conflict; a resolved hunk behind it is still open.
pub open spec fn scanned(
    hunks: Seq<Seq<Seq<u8>>>,
    style: ConflictMarkerStyle,
    marker_len: int,
    plans: Seq<Seq<StepView>>,
    i: int,
) -> ScanView {
    if i > 0 && hunks[i - 1].len() == 1 {
        ScanView {
            hunks: read_back(hunks).take(i - 1),
            resolved_start: hunks_text(hunks, style, marker_len, plans, i - 1).len() as int,
            conflict_start: None,
        }
    } else {
        ScanView {
            hunks: read_back(hunks).take(i),
            resolved_start: hunks_text(hunks, style, marker_len, plans, i).len() as int,
            conflict_start: None,
        }
    }
}

/// The empty state of a reader of a file.
pub open spec fn nothing_read() -> ScanView {
    ScanView { hunks: Seq::empty(), resolved_start: 0, conflict_start: None }
}

/// The first `i` hunks of a file are read back, whatever follows them.
pub open spec fn reads_hunks(
    hunks: Seq<Seq<Seq<u8>>>,
    style: ConflictMarkerStyle,
    marker_len: int,
    plans: Seq<Seq<StepView>>,
    num_sides: int,
    i: int,
    rest: Seq<u8>,
) -> bool {
    let text = hunks_text(hunks, style, marker_len, plans, i);
    scan_from(text + rest, num_sides, marker_len, 0, nothing_read()) == scan_from(
        text + rest,
        num_sides,
        marker_len,
        text.len() as int,
        scanned(hunks, style, marker_len, plans, i),
    )
}

/// One more hunk that is resolved is read.
proof fn lemma_scan_resolved_hunk(
    hunks: Seq<Seq<Seq<u8>>>,
    style: ConflictMarkerStyle,
    marker_len: int,
    plans: Seq<Seq<StepView>>,
    num_sides: int,
    i: int,
    rest: Seq<u8>,
)
    requires
        is_readable(hunks, num_sides, marker_len),
        1 <= i <= hunks.len(),
        i < hunks.len() || rest.len() == 0,
        hunks[i - 1].len() == 1,
        reads_hunks(hunks, style, marker_len, plans, num_sides, i - 1, hunks[i - 1][0] + rest),
        ends_lines(hunks_text(hunks, style, marker_len, plans, i - 1)),
    ensures
        reads_hunks(hunks, style, marker_len, plans, num_sides, i, rest),
        i < hunks.len() ==> ends_lines(hunks_text(hunks, style, marker_len, plans, i)),
{
    let text = hunks_text(hunks, style, marker_len, plans, i);
    let prev = hunks_text(hunks, style, marker_len, plans, i - 1);
    let open = hunks[i - 1][0];
    assert(text == prev + open);
    let whole = text + rest;
    assert(whole =~= prev + (open + rest));
    let before = scanned(hunks, style, marker_len, plans, i - 1);
    // A conflict stands before a resolved hunk, or nothing.
    if i - 1 > 0 {
        assert(hunks[i - 2].len() != 1);
    }
    lemma_scan_skip(prev, open, rest, num_sides, marker_len, 0, before);
    if i < hunks.len() {
        lemma_ends_lines_concat(prev, open);
    }
}

/// One more hunk that is a conflict is read.
proof fn lemma_scan_conflict_hunk(
    hunks: Seq<Seq<Seq<u8>>>,
    style: ConflictMarkerStyle,
    marker_len: int,
    plans: Seq<Seq<StepView>>,
    num_sides: int,
    i: int,
    rest: Seq<u8>,
    parts: (Seq<u8>, Seq<u8>, Seq<u8>),
)
    requires
        marker_len >= 1,
        1 <= i <= hunks.len(),
        hunks[i - 1].len() == 2 * num_sides - 1,
        hunks[i - 1].len() != 1,
        i - 1 > 0 && hunks[i - 2].len() == 1 ==> hunks[i - 2][0].len() > 0,
        hunks_text(hunks, style, marker_len, plans, i) == hunks_text(
            hunks,
            style,
            marker_len,
            plans,
            i - 1,
        ) + written_conflict(marker_len, parts),
        no_line_feed(parts.0),
        no_line_feed(parts.2),
        ends_lines(parts.1),
        no_conflict_bounds(lines_of(parts.1), marker_len),
        spec_conflict_hunk(parts.1, marker_len) == newlined(hunks[i - 1]),
        reads_hunks(
            hunks,
            style,
            marker_len,
            plans,
            num_sides,
            i - 1,
            written_conflict(marker_len, parts) + rest,
        ),
        ends_lines(hunks_text(hunks, style, marker_len, plans, i - 1)),
    ensures
        reads_hunks(hunks, style, marker_len, plans, num_sides, i, rest),
        ends_lines(hunks_text(hunks, style, marker_len, plans, i)),
{
    let text = hunks_text(hunks, style, marker_len, plans, i);
    let prev = hunks_text(hunks, style, marker_len, plans, i - 1);
    let written = written_conflict(marker_len, parts);
    let whole = text + rest;
    assert(whole =~= prev + (written + rest));
    let before = scanned(hunks, style, marker_len, plans, i - 1);
    let start = marker_line(ConflictMarker::ConflictStart, marker_len, parts.0);
    let end = marker_line(ConflictMarker::ConflictEnd, marker_len, parts.2);
    assert(whole =~= prev + (start + parts.1 + end) + rest);
    lemma_scan_conflict(prev, parts.0, parts.1, parts.2, rest, num_sides, marker_len, before);
    assert(whole.subrange(0, text.len() as int) =~= text);
    lemma_conflict_read(hunks, style, marker_len, plans, i, whole, written);
    lemma_marker_line(ConflictMarker::ConflictEnd, marker_len, parts.2);
    lemma_marker_line(ConflictMarker::ConflictStart, marker_len, parts.0);
    lemma_ends_lines_concat(start, parts.1);
    lemma_ends_lines_concat(start + parts.1, end);
    lemma_ends_lines_concat(prev, written);
}

/// After a conflict is read, the hunks up to it are read.
proof fn lemma_conflict_read(
    hunks: Seq<Seq<Seq<u8>>>,
    style: ConflictMarkerStyle,
    marker_len: int,
    plans: Seq<Seq<StepView>>,
    i: int,
    whole: Seq<u8>,
    written: Seq<u8>,
)
    requires
        1 <= i <= hunks.len(),
        hunks[i - 1].len() != 1,
        i - 1 > 0 && hunks[i - 2].len() == 1 ==> hunks[i - 2][0].len() > 0,
        hunks_text(hunks, style, marker_len, plans, i) == hunks_text(
            hunks,
            style,
            marker_len,
            plans,
            i - 1,
        ) + written,
        whole.len() >= hunks_text(hunks, style, marker_len, plans, i).len(),
        whole.subrange(0, hunks_text(hunks, style, marker_len, plans, i).len() as int)
            == hunks_text(hunks, style, marker_len, plans, i),
    ensures
        after_conflict(
            whole,
            scanned(hunks, style, marker_len, plans, i - 1),
            hunks_text(hunks, style, marker_len, plans, i - 1).len() as int,
            hunks_text(hunks, style, marker_len, plans, i - 1).len() as int + written.len(),
            newlined(hunks[i - 1]),
        ) == scanned(hunks, style, marker_len, plans, i),
{
    let prev = hunks_text(hunks, style, marker_len, plans, i - 1);
    let text = hunks_text(hunks, style, marker_len, plans, i);
    let before = scanned(hunks, style, marker_len, plans, i - 1);
    let after = after_conflict(
        whole,
        before,
        prev.len() as int,
        prev.len() as int + written.len(),
        newlined(hunks[i - 1]),
    );
    if i - 1 > 0 && hunks[i - 2].len() == 1 {
        let open = hunks[i - 2][0];
        let earlier = hunks_text(hunks, style, marker_len, plans, i - 2);
        assert(prev == earlier + open);
        assert(whole.subrange(earlier.len() as int, prev.len() as int) =~= text.subrange(
            earlier.len() as int,
            prev.len() as int,
        ));
        assert(text.subrange(earlier.len() as int, prev.len() as int) =~= open);
        assert(hunks[i - 2] =~= seq![open]);
        assert(after.hunks =~= read_back(hunks).take(i));
    } else {
        assert(after.hunks =~= read_back(hunks).take(i));
    }
}

/// The first `i` hunks of a file that was written are read back.
pub proof fn lemma_scan_hunks(
    hunks: Seq<Seq<Seq<u8>>>,
    style: ConflictMarkerStyle,
    marker_len: int,
    plans: Seq<Seq<StepView>>,
    num_sides: int,
    i: int,
    rest: Seq<u8>,
)
    requires
        marker_len >= 1,
        plans_valid(hunks, style, plans),
        style == ConflictMarkerStyle::Diff ==> plans_plain(hunks, plans, marker_len),
        is_readable(hunks, num_sides, marker_len),
        0 <= i <= hunks.len(),
        i < hunks.len() || rest.len() == 0,
    ensures
        reads_hunks(hunks, style, marker_len, plans, num_sides, i, rest),
        i < hunks.len() ==> ends_lines(hunks_text(hunks, style, marker_len, plans, i)),
    decreases i,
{
    if i == 0 {
        assert(read_back(hunks).take(0) =~= Seq::<Seq<Seq<u8>>>::empty());
    } else {
        let written = hunk_text(
            hunks[i - 1],
            style,
            marker_len,
            conflict_info(conflicts_upto(hunks, i), conflicts_upto(hunks, hunks.len() as int)),
            plans[i - 1],
        );
        lemma_scan_hunks(hunks, style, marker_len, plans, num_sides, i - 1, written + rest);
        if hunks[i - 1].len() == 1 {
            lemma_scan_resolved_hunk(hunks, style, marker_len, plans, num_sides, i, rest);
        } else {
            let parts = lemma_written_conflict(
                hunks[i - 1],
                style,
                marker_len,
                conflicts_upto(hunks, i),
                conflicts_upto(hunks, hunks.len() as int),
                plans[i - 1],
            );
            assert(written == written_conflict(marker_len, parts));
            lemma_scan_conflict_hunk(hunks, style, marker_len, plans, num_sides, i, rest, parts);
        }
    }
}

/// A merged file that was written in any of the three styles is read
/// back as its hunks, each term of a conflict with a line feed at its
/// end: this holds where the file has a conflict, the conflicts have the
/// number of sides that is read for, no line of a term begins with a
/// marker of the length that the file was written with, nor a line of a
/// diff behind its prefix, and the resolved hunks are as a merge by lines
/// leaves them.
pub proof fn lemma_round_trip(
    hunks: Seq<Seq<Seq<u8>>>,
    style: ConflictMarkerStyle,
    marker_len: int,
    plans: Seq<Seq<StepView>>,
    num_sides: int,
    text: Seq<u8>,
)
    requires
        marker_len >= 1,
        is_materialized(hunks, style, marker_len, plans, text),
        style == ConflictMarkerStyle::Diff ==> plans_plain(hunks, plans, marker_len),
        is_readable(hunks, num_sides, marker_len),
        conflicts_upto(hunks, hunks.len() as int) > 0,
    ensures
        spec_parse_conflict(text, num_sides, marker_len) == Some(read_back(hunks)),
{
    let n = hunks.len() as int;
    lemma_scan_hunks(hunks, style, marker_len, plans, num_sides, n, Seq::empty());
    assert(text + Seq::<u8>::empty() =~= text);
    assert(nothing_read() == (ScanView {
        hunks: Seq::empty(),
        resolved_start: 0,
        conflict_start: None,
    }));
    let read = scanned(hunks, style, marker_len, plans, n);
    assert(n > 0);
    if hunks[n - 1].len() == 1 {
        let open = hunks[n - 1][0];
        let earlier = hunks_text(hunks, style, marker_len, plans, n - 1);
        assert(text == earlier + open);
        assert(n - 1 > 0) by {
            if n == 1 {
                reveal_with_fuel(conflicts_upto, 2);
            }
        }
        assert(text.subrange(earlier.len() as int, text.len() as int) =~= open);
        assert(hunks[n - 1] =~= seq![open]);
        assert(read.hunks.push(seq![open]) =~= read_back(hunks));
    } else {
        assert(read.hunks =~= read_back(hunks));
    }
}

/// The diffs of a plan in the diff style can be written where no line of
/// a term begins with a marker of the length before the given one.
pub proof fn lemma_plan_plain(terms: Seq<Seq<u8>>, plan: Seq<StepView>, marker_len: int)
    requires
        terms.len() % 2 == 1,
        is_plan(terms, ConflictMarkerStyle::Diff, plan),
        marker_len >= 2,
        all_plain(terms, marker_len - 1),
    ensures
        plan_plain(plan, marker_len),
{
    assert forall|b: int| 0 <= b < plan.len() implies match #[trigger] plan[b] {
        StepView::Diff(hunks) => hunks_plain(hunks, marker_len),
        StepView::SideAndDiff(hunks) => hunks_plain(hunks, marker_len),
        _ => true,
    } by {
        let a = adds_used(plan, b);
        lemma_adds_used_bounds(plan, b);
        assert(step_valid(terms, ConflictMarkerStyle::Diff, b, a, plan[b]));
        reveal(step_valid);
        assert(is_plain(terms[2 * b + 1], marker_len - 1));
        match plan[b] {
            StepView::Diff(hunks) => {
                assert(is_plain(terms[2 * a], marker_len - 1));
                lemma_pair_diff_whole_lines(terms[2 * b + 1], terms[2 * a], hunks);
                lemma_whole_lines_plain(terms[2 * b + 1], terms[2 * a], hunks, marker_len);
            },
            StepView::SideAndDiff(hunks) => {
                assert(is_plain(terms[2 * a + 2], marker_len - 1));
                lemma_pair_diff_whole_lines(terms[2 * b + 1], terms[2 * a + 2], hunks);
                lemma_whole_lines_plain(terms[2 * b + 1], terms[2 * a + 2], hunks, marker_len);
            },
            _ => {},
        }
    }
}

/// Steps take no less than no side.
pub proof fn lemma_adds_used_bounds(plan: Seq<StepView>, upto: int)
    ensures
        adds_used(plan, upto) >= 0,
    decreases upto,
{
    if upto > 0 {
        lemma_adds_used_bounds(plan, upto - 1);
    }
}

/// A merged file that was written in any of the three styles, with
/// markers of two characters at least, is read back as its hunks, each
/// term of a conflict with a line feed at its end: this holds where the
/// file has a conflict, the conflicts have the number of sides that is
/// read for, no line of a term begins with a marker of the length before
/// that which the file was written with, and the resolved hunks are as a
/// merge by lines leaves them.
pub proof fn lemma_round_trip_of_plain_terms(
    hunks: Seq<Seq<Seq<u8>>>,
    style: ConflictMarkerStyle,
    marker_len: int,
    plans: Seq<Seq<StepView>>,
    num_sides: int,
    text: Seq<u8>,
)
    requires
        marker_len >= 2,
        is_materialized(hunks, style, marker_len, plans, text),
        is_readable(hunks, num_sides, marker_len),
        forall|i: int|
            0 <= i < hunks.len() && (#[trigger] hunks[i]).len() != 1 ==> all_plain(
                hunks[i],
                marker_len - 1,
            ),
        conflicts_upto(hunks, hunks.len() as int) > 0,
    ensures
        spec_parse_conflict(text, num_sides, marker_len) == Some(read_back(hunks)),
{
    if style == ConflictMarkerStyle::Diff {
        assert forall|i: int| 0 <= i < hunks.len() && (#[trigger] hunks[i]).len()
            != 1 implies plan_plain(plans[i], marker_len) by {
            assert(is_planned(hunks[i], style));
            lemma_plan_plain(hunks[i], plans[i], marker_len);
        }
    }
    lemma_round_trip(hunks, style, marker_len, plans, num_sides, text);
}

} // verus!
