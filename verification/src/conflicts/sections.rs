//! The sections of a conflict in a file: snapshots of sides and bases, and
//! diffs from a base to a side, each under its marker line.

use crate::conflicts::lines::line_end;
use crate::conflicts::lines::next_line_end;
use crate::conflicts::markers::has_no_eol;
use crate::conflicts::markers::marker_line;
use crate::conflicts::markers::spec_decimal;
use crate::conflicts::markers::spec_has_no_eol;
use crate::conflicts::markers::with_newline;
use crate::conflicts::markers::write_and_ensure_newline;
use crate::conflicts::markers::write_conflict_marker;
use crate::conflicts::markers::write_decimal;
use crate::conflicts::markers::ConflictMarker;
use crate::diff::engine::hunk_contents_view;
use crate::diff::DiffHunk;
use crate::diff::DiffHunkKind;
use crate::files::diff_hunks_view;
use vstd::string::StringSliceAdditionalSpecFns;
use vstd::prelude::*;
use vstd::slice::slice_subrange;

verus! {

/// What a marker line says of a text that lacks its last line feed.
pub open spec fn no_eol_comment(data: Seq<u8>) -> Seq<u8> {
    if spec_has_no_eol(data) {
        " (no terminating newline)".spec_bytes()
    } else {
        Seq::empty()
    }
}

/// Which of how many conflicts of the file a conflict is.
pub open spec fn conflict_info(index: nat, count: nat) -> Seq<u8> {
    "Conflict ".spec_bytes() + spec_decimal(index) + " of ".spec_bytes() + spec_decimal(count)
}

/// Writes which of how many conflicts of the file a conflict is.
pub fn write_conflict_info(index: usize, count: usize) -> (info: Vec<u8>)
    ensures
        info@ == conflict_info(index as nat, count as nat),
{
    let mut info: Vec<u8> = Vec::new();
    info.extend_from_slice("Conflict ".as_bytes());
    write_decimal(&mut info, index);
    info.extend_from_slice(" of ".as_bytes());
    write_decimal(&mut info, count);
    proof {
        assert(info@ =~= conflict_info(index as nat, count as nat));
    }
    info
}

/// The snapshot of a side: its marker line, and the text with a line feed
/// at its end.
pub open spec fn side_text(add_index: int, data: Seq<u8>, marker_len: int) -> Seq<u8> {
    marker_line(
        ConflictMarker::Add,
        marker_len,
        "Contents of side #".spec_bytes() + spec_decimal((add_index + 1) as nat) + no_eol_comment(
            data,
        ),
    ) + with_newline(data)
}

/// Write a positive snapshot (side) of a conflict.
pub fn write_side(output: &mut Vec<u8>, add_index: usize, data: &[u8], marker_len: usize)
    requires
        add_index < usize::MAX,
    ensures
        final(output)@ == old(output)@ + side_text(add_index as int, data@, marker_len as int),
{
    let ghost start = output@;
    let mut header: Vec<u8> = Vec::new();
    header.extend_from_slice("Contents of side #".as_bytes());
    write_decimal(&mut header, add_index + 1);
    if has_no_eol(data) {
        header.extend_from_slice(" (no terminating newline)".as_bytes());
    }
    proof {
        assert(header@ =~= "Contents of side #".spec_bytes() + spec_decimal((add_index + 1) as nat)
            + no_eol_comment(data@));
    }
    write_conflict_marker(output, ConflictMarker::Add, marker_len, header.as_slice());
    write_and_ensure_newline(output, data);
    proof {
        assert(output@ =~= start + side_text(add_index as int, data@, marker_len as int));
    }
}

/// How a base is called: `base` where it is the only one, else with its
/// number.
pub open spec fn base_name(base_index: int, num_bases: int) -> Seq<u8> {
    if num_bases == 1 {
        "base".spec_bytes()
    } else {
        "base #".spec_bytes() + spec_decimal((base_index + 1) as nat)
    }
}

/// Writes how a base is called.
pub fn write_base_name(base_index: usize, num_bases: usize) -> (name: Vec<u8>)
    requires
        base_index < usize::MAX,
    ensures
        name@ == base_name(base_index as int, num_bases as int),
{
    let mut name: Vec<u8> = Vec::new();
    if num_bases == 1 {
        name.extend_from_slice("base".as_bytes());
        proof {
            assert(name@ =~= "base".spec_bytes());
        }
    } else {
        name.extend_from_slice("base #".as_bytes());
        write_decimal(&mut name, base_index + 1);
        proof {
            assert(name@ =~= "base #".spec_bytes() + spec_decimal((base_index + 1) as nat));
        }
    }
    name
}

/// The snapshot of a base: its marker line, and the text with a line feed
/// at its end.
pub open spec fn base_text(name: Seq<u8>, data: Seq<u8>, marker_len: int) -> Seq<u8> {
    marker_line(
        ConflictMarker::Remove,
        marker_len,
        "Contents of ".spec_bytes() + name + no_eol_comment(data),
    ) + with_newline(data)
}

/// Write a negative snapshot (base) of a conflict.
pub fn write_base(output: &mut Vec<u8>, name: &[u8], data: &[u8], marker_len: usize)
    ensures
        final(output)@ == old(output)@ + base_text(name@, data@, marker_len as int),
{
    let ghost start = output@;
    let mut header: Vec<u8> = Vec::new();
    header.extend_from_slice("Contents of ".as_bytes());
    header.extend_from_slice(name);
    if has_no_eol(data) {
        header.extend_from_slice(" (no terminating newline)".as_bytes());
    }
    proof {
        assert(header@ =~= "Contents of ".spec_bytes() + name@ + no_eol_comment(data@));
    }
    write_conflict_marker(output, ConflictMarker::Remove, marker_len, header.as_slice());
    write_and_ensure_newline(output, data);
    proof {
        assert(output@ =~= start + base_text(name@, data@, marker_len as int));
    }
}

/// The first side and the base of a conflict in the style of Git, each
/// under its marker line.
pub open spec fn git_head_text(left: Seq<u8>, base: Seq<u8>, info: Seq<u8>, marker_len: int) -> Seq<
    u8,
> {
    marker_line(
        ConflictMarker::ConflictStart,
        marker_len,
        "Side #1 (".spec_bytes() + info + ")".spec_bytes(),
    ) + with_newline(left) + marker_line(
        ConflictMarker::GitAncestor,
        marker_len,
        "Base".spec_bytes(),
    ) + with_newline(base)
}

/// The second side of a conflict in the style of Git under the separator
/// line, and the line that ends the conflict.
pub open spec fn git_tail_text(right: Seq<u8>, info: Seq<u8>, marker_len: int) -> Seq<u8> {
    marker_line(ConflictMarker::GitSeparator, marker_len, Seq::empty()) + with_newline(right)
        + marker_line(
        ConflictMarker::ConflictEnd,
        marker_len,
        "Side #2 (".spec_bytes() + info + " ends)".spec_bytes(),
    )
}

/// A conflict of two sides in the style of Git: the first side, the base
/// and the second side, each under its marker line, and the line that ends
/// the conflict.
pub open spec fn git_text(
    left: Seq<u8>,
    base: Seq<u8>,
    right: Seq<u8>,
    info: Seq<u8>,
    marker_len: int,
) -> Seq<u8> {
    git_head_text(left, base, info, marker_len) + git_tail_text(right, info, marker_len)
}

/// Writes the first side and the base of a conflict in the style of Git.
fn write_git_head(
    left: &[u8],
    base: &[u8],
    conflict_info: &[u8],
    marker_len: usize,
    output: &mut Vec<u8>,
)
    ensures
        final(output)@ == old(output)@ + git_head_text(
            left@,
            base@,
            conflict_info@,
            marker_len as int,
        ),
{
    let ghost start = output@;
    let mut header: Vec<u8> = Vec::new();
    header.extend_from_slice("Side #1 (".as_bytes());
    header.extend_from_slice(conflict_info);
    header.extend_from_slice(")".as_bytes());
    proof {
        assert(header@ =~= "Side #1 (".spec_bytes() + conflict_info@ + ")".spec_bytes());
    }
    write_conflict_marker(output, ConflictMarker::ConflictStart, marker_len, header.as_slice());
    write_and_ensure_newline(output, left);
    write_conflict_marker(output, ConflictMarker::GitAncestor, marker_len, "Base".as_bytes());
    write_and_ensure_newline(output, base);
    proof {
        assert(output@ =~= start + git_head_text(
            left@,
            base@,
            conflict_info@,
            marker_len as int,
        ));
    }
}

/// Writes the second side of a conflict in the style of Git and the line
/// that ends the conflict.
fn write_git_tail(right: &[u8], conflict_info: &[u8], marker_len: usize, output: &mut Vec<u8>)
    ensures
        final(output)@ == old(output)@ + git_tail_text(right@, conflict_info@, marker_len as int),
{
    let ghost start = output@;
    // VS Code doesn't seem to support any trailing text on the separator
    // line
    let empty: Vec<u8> = Vec::new();
    write_conflict_marker(output, ConflictMarker::GitSeparator, marker_len, empty.as_slice());
    write_and_ensure_newline(output, right);
    let mut footer: Vec<u8> = Vec::new();
    footer.extend_from_slice("Side #2 (".as_bytes());
    footer.extend_from_slice(conflict_info);
    footer.extend_from_slice(" ends)".as_bytes());
    proof {
        assert(footer@ =~= "Side #2 (".spec_bytes() + conflict_info@ + " ends)".spec_bytes());
        assert(empty@ =~= Seq::<u8>::empty());
    }
    write_conflict_marker(output, ConflictMarker::ConflictEnd, marker_len, footer.as_slice());
    proof {
        assert(output@ =~= start + git_tail_text(right@, conflict_info@, marker_len as int));
    }
}

/// Writes a conflict of two sides in the style of Git.
pub fn materialize_git_style_conflict(
    left: &[u8],
    base: &[u8],
    right: &[u8],
    conflict_info: &[u8],
    marker_len: usize,
    output: &mut Vec<u8>,
)
    ensures
        final(output)@ == old(output)@ + git_text(
            left@,
            base@,
            right@,
            conflict_info@,
            marker_len as int,
        ),
{
    let ghost start = output@;
    write_git_head(left, base, conflict_info, marker_len, output);
    write_git_tail(right, conflict_info, marker_len, output);
    proof {
        let head = git_head_text(left@, base@, conflict_info@, marker_len as int);
        let tail = git_tail_text(right@, conflict_info@, marker_len as int);
        assert(start + head + tail =~= start + (head + tail));
    }
}

/// The lines of `text` from `from` on, each behind `prefix` and with a line
/// feed at its end.
pub open spec fn prefixed_lines(prefix: u8, text: Seq<u8>, from: int) -> Seq<u8>
    decreases text.len() - from,
{
    if from < 0 || from >= text.len() {
        Seq::empty()
    } else {
        let end = line_end(text, from);
        if from < end <= text.len() {
            seq![prefix] + with_newline(text.subrange(from, end)) + prefixed_lines(
                prefix,
                text,
                end,
            )
        } else {
            Seq::empty()
        }
    }
}

/// Writes the lines of `text`, each behind `prefix`.
pub fn write_prefixed_lines(output: &mut Vec<u8>, prefix: u8, text: &[u8])
    ensures
        final(output)@ == old(output)@ + prefixed_lines(prefix, text@, 0),
{
    let ghost start = output@;
    let mut pos: usize = 0;
    while pos < text.len()
        invariant
            pos <= text.len(),
            output@ + prefixed_lines(prefix, text@, pos as int) == start + prefixed_lines(
                prefix,
                text@,
                0,
            ),
        decreases text.len() - pos,
    {
        let ghost before = output@;
        let end: usize = next_line_end(text, pos);
        let line = slice_subrange(text, pos, end);
        output.push(prefix);
        write_and_ensure_newline(output, line);
        proof {
            let rest = prefixed_lines(prefix, text@, end as int);
            assert(output@ + rest =~= before + (seq![prefix] + with_newline(line@) + rest));
        }
        pos = end;
    }
    proof {
        assert(prefixed_lines(prefix, text@, pos as int) =~= Seq::<u8>::empty());
        assert(output@ =~= output@ + Seq::<u8>::empty());
    }
}

/// A hunk of a diff of a base and a side as lines: those of a matching
/// hunk behind a space, then the lines of the base behind `-` and those of
/// the side behind `+`.
pub open spec fn diff_hunk_text(kind: DiffHunkKind, contents: Seq<Seq<u8>>) -> Seq<u8> {
    if kind == DiffHunkKind::Matching {
        prefixed_lines(0x20, contents[0], 0)
    } else {
        prefixed_lines(0x2d, contents[0], 0) + prefixed_lines(0x2b, contents[1], 0)
    }
}

/// The first `upto` hunks of a diff as lines.
pub open spec fn diff_hunks_text(hunks: Seq<(DiffHunkKind, Seq<Seq<u8>>)>, upto: int) -> Seq<u8>
    decreases upto,
{
    if upto <= 0 {
        Seq::empty()
    } else {
        diff_hunks_text(hunks, upto - 1) + diff_hunk_text(hunks[upto - 1].0, hunks[upto - 1].1)
    }
}

/// Writes the hunks of a diff of a base and a side as lines.
pub fn write_diff_hunks(hunks: &[DiffHunk], output: &mut Vec<u8>)
    requires
        forall|i: int| 0 <= i < hunks.len() ==> (#[trigger] hunks[i]).contents.len() == 2,
    ensures
        final(output)@ == old(output)@ + diff_hunks_text(
            diff_hunks_view(hunks@),
            hunks.len() as int,
        ),
{
    let ghost start = output@;
    let ghost view = diff_hunks_view(hunks@);
    let mut i: usize = 0;
    while i < hunks.len()
        invariant
            i <= hunks.len(),
            view == diff_hunks_view(hunks@),
            forall|i: int| 0 <= i < hunks.len() ==> (#[trigger] hunks[i]).contents.len() == 2,
            output@ == start + diff_hunks_text(view, i as int),
        decreases hunks.len() - i,
    {
        let hunk = &hunks[i];
        let ghost before = output@;
        proof {
            assert(view[i as int] == (hunk.kind, hunk_contents_view(hunk.contents@)));
            assert(hunk_contents_view(hunk.contents@)[0] == hunk.contents[0]@);
            assert(hunk_contents_view(hunk.contents@)[1] == hunk.contents[1]@);
        }
        if hunk.kind == DiffHunkKind::Matching {
            write_prefixed_lines(output, 0x20, hunk.contents[0]);
        } else {
            write_prefixed_lines(output, 0x2d, hunk.contents[0]);
            write_prefixed_lines(output, 0x2b, hunk.contents[1]);
        }
        proof {
            assert(output@ =~= before + diff_hunk_text(view[i as int].0, view[i as int].1));
            assert(output@ =~= start + diff_hunks_text(view, i + 1));
        }
        i += 1;
    }
}

/// What the marker line of a diff says of the last line feeds: whether the
/// base and the side both lack theirs, or whether the side adds or removes
/// it.
pub open spec fn diff_eol_comment(hunks: Seq<(DiffHunkKind, Seq<Seq<u8>>)>) -> Seq<u8> {
    if hunks.len() == 0 {
        Seq::empty()
    } else {
        let last = hunks.last().1;
        if spec_has_no_eol(last[0]) && spec_has_no_eol(last[1]) {
            " (no terminating newline)".spec_bytes()
        } else if spec_has_no_eol(last[0]) {
            " (adds terminating newline)".spec_bytes()
        } else if spec_has_no_eol(last[1]) {
            " (removes terminating newline)".spec_bytes()
        } else {
            Seq::empty()
        }
    }
}

/// The diff from a base to a side: its marker line and the hunks as lines.
pub open spec fn diff_text(
    name: Seq<u8>,
    add_index: int,
    hunks: Seq<(DiffHunkKind, Seq<Seq<u8>>)>,
    marker_len: int,
) -> Seq<u8> {
    marker_line(
        ConflictMarker::Diff,
        marker_len,
        "Changes from ".spec_bytes() + name + " to side #".spec_bytes() + spec_decimal(
            (add_index + 1) as nat,
        ) + diff_eol_comment(hunks),
    ) + diff_hunks_text(hunks, hunks.len() as int)
}

/// Write a diff from a negative term to a positive term.
pub fn write_diff(
    output: &mut Vec<u8>,
    name: &[u8],
    add_index: usize,
    hunks: &[DiffHunk],
    marker_len: usize,
)
    requires
        add_index < usize::MAX,
        forall|i: int| 0 <= i < hunks.len() ==> (#[trigger] hunks[i]).contents.len() == 2,
    ensures
        final(output)@ == old(output)@ + diff_text(
            name@,
            add_index as int,
            diff_hunks_view(hunks@),
            marker_len as int,
        ),
{
    let ghost start = output@;
    let ghost view = diff_hunks_view(hunks@);
    let mut header: Vec<u8> = Vec::new();
    header.extend_from_slice("Changes from ".as_bytes());
    header.extend_from_slice(name);
    header.extend_from_slice(" to side #".as_bytes());
    write_decimal(&mut header, add_index + 1);
    if hunks.len() > 0 {
        let last = &hunks[hunks.len() - 1];
        proof {
            assert(view.last() == (last.kind, hunk_contents_view(last.contents@)));
            assert(hunk_contents_view(last.contents@)[0] == last.contents[0]@);
            assert(hunk_contents_view(last.contents@)[1] == last.contents[1]@);
        }
        let no_eol_remove: bool = has_no_eol(last.contents[0]);
        let no_eol_add: bool = has_no_eol(last.contents[1]);
        if no_eol_remove && no_eol_add {
            header.extend_from_slice(" (no terminating newline)".as_bytes());
        } else if no_eol_remove {
            header.extend_from_slice(" (adds terminating newline)".as_bytes());
        } else if no_eol_add {
            header.extend_from_slice(" (removes terminating newline)".as_bytes());
        }
    }
    proof {
        assert(header@ =~= "Changes from ".spec_bytes() + name@ + " to side #".spec_bytes()
            + spec_decimal((add_index + 1) as nat) + diff_eol_comment(view));
    }
    write_conflict_marker(output, ConflictMarker::Diff, marker_len, header.as_slice());
    write_diff_hunks(hunks, output);
    proof {
        assert(output@ =~= start + diff_text(name@, add_index as int, view, marker_len as int));
    }
}

/// The size of a diff: the bytes of its hunks that differ, on both sides;
/// never more than the greatest `usize`.
pub open spec fn spec_diff_size(hunks: Seq<(DiffHunkKind, Seq<Seq<u8>>)>, upto: int) -> int
    decreases upto,
{
    if upto <= 0 {
        0
    } else {
        let before = spec_diff_size(hunks, upto - 1);
        let here = if hunks[upto - 1].0 == DiffHunkKind::Matching {
            0
        } else {
            hunks[upto - 1].1[0].len() + hunks[upto - 1].1[1].len()
        };
        if before + here > usize::MAX {
            usize::MAX as int
        } else {
            before + here
        }
    }
}

/// Computes the size of a diff of a base and a side.
pub fn diff_size(hunks: &[DiffHunk]) -> (size: usize)
    requires
        forall|i: int| 0 <= i < hunks.len() ==> (#[trigger] hunks[i]).contents.len() == 2,
    ensures
        size == spec_diff_size(diff_hunks_view(hunks@), hunks.len() as int),
{
    let ghost view = diff_hunks_view(hunks@);
    let mut size: usize = 0;
    let mut i: usize = 0;
    while i < hunks.len()
        invariant
            i <= hunks.len(),
            view == diff_hunks_view(hunks@),
            forall|i: int| 0 <= i < hunks.len() ==> (#[trigger] hunks[i]).contents.len() == 2,
            size == spec_diff_size(view, i as int),
        decreases hunks.len() - i,
    {
        let hunk = &hunks[i];
        proof {
            assert(view[i as int] == (hunk.kind, hunk_contents_view(hunk.contents@)));
            assert(hunk_contents_view(hunk.contents@)[0] == hunk.contents[0]@);
            assert(hunk_contents_view(hunk.contents@)[1] == hunk.contents[1]@);
        }
        if hunk.kind != DiffHunkKind::Matching {
            size = size.saturating_add(hunk.contents[0].len());
            size = size.saturating_add(hunk.contents[1].len());
        }
        i += 1;
    }
    size
}

} // verus!
