//! Reading the body of one conflict: the lines between the line that
//! begins it and the line that ends it.

use crate::conflicts::lines::line_end;
use crate::conflicts::lines::next_line_end;
use crate::conflicts::markers::parse_conflict_marker;
use crate::conflicts::markers::spec_marker;
use crate::conflicts::markers::ConflictMarker;
use crate::files::terms_view;
use crate::merge::Merge;
use vstd::prelude::*;
use vstd::slice::slice_subrange;

verus! {

/// The texts of a list.
pub open spec fn texts_view(texts: Seq<Vec<u8>>) -> Seq<Seq<u8>> {
    Seq::new(texts.len(), |k: int| texts[k]@)
}

/// The texts with `rest` at the end of the last one; `rest` alone if there
/// is none.
pub open spec fn append_last(texts: Seq<Seq<u8>>, rest: Seq<u8>) -> Seq<Seq<u8>> {
    if texts.len() == 0 {
        seq![rest]
    } else {
        texts.drop_last().push(texts.last() + rest)
    }
}

/// Puts `rest` at the end of the last text.
fn extend_last(texts: &mut Vec<Vec<u8>>, rest: &[u8])
    ensures
        texts_view(final(texts)@) == append_last(texts_view(old(texts)@), rest@),
{
    let ghost before = texts_view(texts@);
    let mut last: Vec<u8> = match texts.pop() {
        Some(last) => last,
        None => Vec::new(),
    };
    let ghost kept = texts_view(texts@);
    let ghost last_before = last@;
    last.extend_from_slice(rest);
    let ghost extended = last@;
    texts.push(last);
    proof {
        assert(extended =~= last_before + rest@);
        if before.len() == 0 {
            assert(extended =~= rest@);
            assert(texts_view(texts@) =~= seq![rest@]);
        } else {
            assert(kept =~= before.drop_last());
            assert(last_before == before.last());
            assert(texts_view(texts@) =~= before.drop_last().push(before.last() + rest@));
        }
    }
}

/// The terms of a conflict from its removes and its adds, put in turn.
pub open spec fn interleaved(removes: Seq<Seq<u8>>, adds: Seq<Seq<u8>>) -> Seq<Seq<u8>> {
    Seq::new(
        (2 * removes.len() + 1) as nat,
        |j: int|
            if j % 2 == 0 {
                adds[j / 2]
            } else {
                removes[j / 2]
            },
    )
}

/// What stands for a body that is no conflict: a resolved hunk without
/// content.
pub open spec fn no_conflict() -> Seq<Seq<u8>> {
    seq![Seq::<u8>::empty()]
}

/// Makes the hunk that stands for a body that is no conflict.
fn invalid_hunk() -> (hunk: Merge<Vec<u8>>)
    ensures
        hunk.wf(),
        terms_view(hunk) == no_conflict(),
{
    let hunk = Merge::resolved(Vec::new());
    proof {
        assert(terms_view(hunk) =~= no_conflict());
    }
    hunk
}

/// What the lines read so far belong to.
#[derive(Clone, Copy, Debug, PartialEq, Eq, Structural)]
pub enum SectionKind {
    /// No marker line was read yet.
    Unknown,
    /// A diff from a base to a side.
    Diff,
    /// A snapshot of a base.
    Remove,
    /// A snapshot of a side.
    Add,
}

/// What is read of a conflict with a marker line for each section.
pub struct SectionsView {
    pub kind: SectionKind,
    pub removes: Seq<Seq<u8>>,
    pub adds: Seq<Seq<u8>>,
    pub failed: bool,
}

/// The sections of a conflict as they are read.
pub struct Sections {
    pub kind: SectionKind,
    pub removes: Vec<Vec<u8>>,
    pub adds: Vec<Vec<u8>>,
    pub failed: bool,
}

impl Sections {
    pub open spec fn view(self) -> SectionsView {
        SectionsView {
            kind: self.kind,
            removes: texts_view(self.removes@),
            adds: texts_view(self.adds@),
            failed: self.failed,
        }
    }
}

/// The line is a line feed alone, with a carriage return before it or
/// without.
pub open spec fn is_blank_line(line: Seq<u8>) -> bool {
    line == seq![0x0au8] || line == seq![0x0du8, 0x0au8]
}

/// What is read after one more line. A marker line of a diff, a base or a
/// side begins a section. Every other line belongs to the section that is
/// open: in a diff a line behind `-` to the base, one behind `+` to the
/// side, one behind a space to both, as a blank line does; any other line
/// there, and a line before the first section, make the body no conflict.
pub open spec fn sections_step(state: SectionsView, line: Seq<u8>, marker_len: int) -> SectionsView {
    if state.failed {
        state
    } else {
        match spec_marker(line, marker_len) {
            Some(ConflictMarker::Diff) => SectionsView {
                kind: SectionKind::Diff,
                removes: state.removes.push(Seq::empty()),
                adds: state.adds.push(Seq::empty()),
                failed: false,
            },
            Some(ConflictMarker::Remove) => SectionsView {
                kind: SectionKind::Remove,
                removes: state.removes.push(Seq::empty()),
                adds: state.adds,
                failed: false,
            },
            Some(ConflictMarker::Add) => SectionsView {
                kind: SectionKind::Add,
                removes: state.removes,
                adds: state.adds.push(Seq::empty()),
                failed: false,
            },
            _ => match state.kind {
                SectionKind::Diff => {
                    if line.len() > 0 && line[0] == 0x2d {
                        SectionsView {
                            removes: append_last(state.removes, line.subrange(1, line.len() as int)),
                            ..state
                        }
                    } else if line.len() > 0 && line[0] == 0x2b {
                        SectionsView {
                            adds: append_last(state.adds, line.subrange(1, line.len() as int)),
                            ..state
                        }
                    } else if line.len() > 0 && line[0] == 0x20 {
                        SectionsView {
                            removes: append_last(state.removes, line.subrange(1, line.len() as int)),
                            adds: append_last(state.adds, line.subrange(1, line.len() as int)),
                            ..state
                        }
                    } else if is_blank_line(line) {
                        SectionsView {
                            removes: append_last(state.removes, line),
                            adds: append_last(state.adds, line),
                            ..state
                        }
                    } else {
                        SectionsView { failed: true, ..state }
                    }
                },
                SectionKind::Remove => SectionsView {
                    removes: append_last(state.removes, line),
                    ..state
                },
                SectionKind::Add => SectionsView { adds: append_last(state.adds, line), ..state },
                SectionKind::Unknown => SectionsView { failed: true, ..state },
            },
        }
    }
}

/// Whether a line is a line feed alone, with a carriage return before it
/// or without.
fn blank_line(line: &[u8]) -> (r: bool)
    ensures
        r == is_blank_line(line@),
{
    if line.len() == 1 {
        let r = line[0] == 0x0a;
        proof {
            if r {
                assert(line@ =~= seq![0x0au8]);
            }
        }
        r
    } else if line.len() == 2 {
        let r = line[0] == 0x0d && line[1] == 0x0a;
        proof {
            if r {
                assert(line@ =~= seq![0x0du8, 0x0au8]);
            }
        }
        r
    } else {
        false
    }
}

/// Reads one more line of a conflict with a marker line for each section.
fn read_section_line(state: &mut Sections, line: &[u8], expected_marker_len: usize)
    ensures
        final(state)@ == sections_step(old(state)@, line@, expected_marker_len as int),
{
    if state.failed {
        return ;
    }
    let ghost before = state@;
    match parse_conflict_marker(line, expected_marker_len) {
        Some(ConflictMarker::Diff) => {
            state.kind = SectionKind::Diff;
            state.removes.push(Vec::new());
            state.adds.push(Vec::new());
            proof {
                assert(state@.removes =~= before.removes.push(Seq::empty()));
                assert(state@.adds =~= before.adds.push(Seq::empty()));
            }
            return ;
        },
        Some(ConflictMarker::Remove) => {
            state.kind = SectionKind::Remove;
            state.removes.push(Vec::new());
            proof {
                assert(state@.removes =~= before.removes.push(Seq::empty()));
            }
            return ;
        },
        Some(ConflictMarker::Add) => {
            state.kind = SectionKind::Add;
            state.adds.push(Vec::new());
            proof {
                assert(state@.adds =~= before.adds.push(Seq::empty()));
            }
            return ;
        },
        _ => {},
    }
    match state.kind {
        SectionKind::Diff => {
            if line.len() > 0 && line[0] == 0x2d {
                let rest = slice_subrange(line, 1, line.len());
                extend_last(&mut state.removes, rest);
            } else if line.len() > 0 && line[0] == 0x2b {
                let rest = slice_subrange(line, 1, line.len());
                extend_last(&mut state.adds, rest);
            } else if line.len() > 0 && line[0] == 0x20 {
                let rest = slice_subrange(line, 1, line.len());
                extend_last(&mut state.removes, rest);
                extend_last(&mut state.adds, rest);
            } else if blank_line(line) {
                // Some editors strip trailing whitespace, so " \n" might
                // become "\n". It would be unfortunate if this prevented the
                // conflict from being parsed, so we add the empty line to
                // the "remove" and "add" as if there was a space in front
                extend_last(&mut state.removes, line);
                extend_last(&mut state.adds, line);
            } else {
                // Doesn't look like a valid conflict
                state.failed = true;
            }
        },
        SectionKind::Remove => {
            extend_last(&mut state.removes, line);
        },
        SectionKind::Add => {
            extend_last(&mut state.adds, line);
        },
        SectionKind::Unknown => {
            // Doesn't look like a valid conflict
            state.failed = true;
        },
    }
}

/// What is read of the body once the lines from `pos` on are read too.
pub open spec fn sections_scan(
    body: Seq<u8>,
    marker_len: int,
    pos: int,
    state: SectionsView,
) -> SectionsView
    decreases body.len() - pos,
{
    if pos < 0 || pos >= body.len() {
        state
    } else {
        let end = line_end(body, pos);
        if pos < end <= body.len() {
            sections_scan(
                body,
                marker_len,
                end,
                sections_step(state, body.subrange(pos, end), marker_len),
            )
        } else {
            state
        }
    }
}

/// The conflict that a body with a marker line for each section holds:
/// its sections in turn, if it has one side more than it has bases and
/// every line is in its place; else no conflict.
pub open spec fn spec_jj_style_hunk(body: Seq<u8>, marker_len: int) -> Seq<Seq<u8>> {
    let read = sections_scan(
        body,
        marker_len,
        0,
        SectionsView {
            kind: SectionKind::Unknown,
            removes: Seq::empty(),
            adds: Seq::empty(),
            failed: false,
        },
    );
    if !read.failed && read.adds.len() == read.removes.len() + 1 {
        interleaved(read.removes, read.adds)
    } else {
        no_conflict()
    }
}

/// Reads the body of a conflict that has a marker line for each section.
pub fn parse_jj_style_conflict_hunk(input: &[u8], expected_marker_len: usize) -> (hunk: Merge<
    Vec<u8>,
>)
    ensures
        hunk.wf(),
        terms_view(hunk) == spec_jj_style_hunk(input@, expected_marker_len as int),
{
    let mut state = Sections {
        kind: SectionKind::Unknown,
        removes: Vec::new(),
        adds: Vec::new(),
        failed: false,
    };
    let ghost first = state@;
    proof {
        assert(first.removes =~= Seq::empty());
        assert(first.adds =~= Seq::empty());
    }
    let mut pos: usize = 0;
    while pos < input.len()
        invariant
            pos <= input.len(),
            sections_scan(input@, expected_marker_len as int, 0, first) == sections_scan(
                input@,
                expected_marker_len as int,
                pos as int,
                state@,
            ),
        decreases input.len() - pos,
    {
        let end: usize = next_line_end(input, pos);
        let line = slice_subrange(input, pos, end);
        read_section_line(&mut state, line, expected_marker_len);
        pos = end;
    }
    if !state.failed && state.adds.len() > 0 && state.adds.len() - 1 == state.removes.len() {
        let ghost removes = texts_view(state.removes@);
        let ghost adds = texts_view(state.adds@);
        let hunk = Merge::from_removes_adds(state.removes, state.adds);
        proof {
            assert(terms_view(hunk) =~= interleaved(removes, adds));
        }
        hunk
    } else {
        // Doesn't look like a valid conflict
        invalid_hunk()
    }
}

} // verus!

verus! {

/// Which part of a conflict in the style of Git the lines read so far
/// belong to.
#[derive(Clone, Copy, Debug, PartialEq, Eq, Structural)]
pub enum GitPart {
    /// The first side.
    Left,
    /// The base.
    Base,
    /// The second side.
    Right,
}

/// What is read of a conflict in the style of Git.
pub struct GitPartsView {
    pub part: GitPart,
    pub left: Seq<u8>,
    pub base: Seq<u8>,
    pub right: Seq<u8>,
    pub failed: bool,
}

/// The parts of a conflict in the style of Git as they are read.
pub struct GitParts {
    pub part: GitPart,
    pub left: Vec<u8>,
    pub base: Vec<u8>,
    pub right: Vec<u8>,
    pub failed: bool,
}

impl GitParts {
    pub open spec fn view(self) -> GitPartsView {
        GitPartsView {
            part: self.part,
            left: self.left@,
            base: self.base@,
            right: self.right@,
            failed: self.failed,
        }
    }
}

/// What is read after one more line. The marker line of the base ends the
/// first side, and the separator line ends the base; either of them in
/// another place makes the body no conflict. Every other line belongs to
/// the part that is open.
pub open spec fn git_step(state: GitPartsView, line: Seq<u8>, marker_len: int) -> GitPartsView {
    if state.failed {
        state
    } else {
        match spec_marker(line, marker_len) {
            Some(ConflictMarker::GitAncestor) => if state.part == GitPart::Left {
                GitPartsView { part: GitPart::Base, ..state }
            } else {
                GitPartsView { failed: true, ..state }
            },
            Some(ConflictMarker::GitSeparator) => if state.part == GitPart::Base {
                GitPartsView { part: GitPart::Right, ..state }
            } else {
                GitPartsView { failed: true, ..state }
            },
            _ => match state.part {
                GitPart::Left => GitPartsView { left: state.left + line, ..state },
                GitPart::Base => GitPartsView { base: state.base + line, ..state },
                GitPart::Right => GitPartsView { right: state.right + line, ..state },
            },
        }
    }
}

/// Reads one more line of a conflict in the style of Git.
fn read_git_line(state: &mut GitParts, line: &[u8], expected_marker_len: usize)
    ensures
        final(state)@ == git_step(old(state)@, line@, expected_marker_len as int),
{
    if state.failed {
        return ;
    }
    let ghost before = state@;
    match parse_conflict_marker(line, expected_marker_len) {
        Some(ConflictMarker::GitAncestor) => {
            if state.part == GitPart::Left {
                state.part = GitPart::Base;
            } else {
                // Base must come after left
                state.failed = true;
            }
            return ;
        },
        Some(ConflictMarker::GitSeparator) => {
            if state.part == GitPart::Base {
                state.part = GitPart::Right;
            } else {
                // Right must come after base
                state.failed = true;
            }
            return ;
        },
        _ => {},
    }
    match state.part {
        GitPart::Left => {
            state.left.extend_from_slice(line);
            proof {
                assert(state.left@ =~= before.left + line@);
            }
        },
        GitPart::Base => {
            state.base.extend_from_slice(line);
            proof {
                assert(state.base@ =~= before.base + line@);
            }
        },
        GitPart::Right => {
            state.right.extend_from_slice(line);
            proof {
                assert(state.right@ =~= before.right + line@);
            }
        },
    }
}

/// What is read of the body once the lines from `pos` on are read too.
pub open spec fn git_scan(body: Seq<u8>, marker_len: int, pos: int, state: GitPartsView) -> GitPartsView
    decreases body.len() - pos,
{
    if pos < 0 || pos >= body.len() {
        state
    } else {
        let end = line_end(body, pos);
        if pos < end <= body.len() {
            git_scan(body, marker_len, end, git_step(state, body.subrange(pos, end), marker_len))
        } else {
            state
        }
    }
}

/// The conflict that a body in the style of Git holds: the first side, the
/// base and the second side, if the marker line of the base and the
/// separator line stand there once each, in this order; else no conflict.
pub open spec fn spec_git_style_hunk(body: Seq<u8>, marker_len: int) -> Seq<Seq<u8>> {
    let read = git_scan(
        body,
        marker_len,
        0,
        GitPartsView {
            part: GitPart::Left,
            left: Seq::empty(),
            base: Seq::empty(),
            right: Seq::empty(),
            failed: false,
        },
    );
    if !read.failed && read.part == GitPart::Right {
        seq![read.left, read.base, read.right]
    } else {
        no_conflict()
    }
}

/// Reads the body of a conflict in the style of Git.
pub fn parse_git_style_conflict_hunk(input: &[u8], expected_marker_len: usize) -> (hunk: Merge<
    Vec<u8>,
>)
    ensures
        hunk.wf(),
        terms_view(hunk) == spec_git_style_hunk(input@, expected_marker_len as int),
{
    let mut state = GitParts {
        part: GitPart::Left,
        left: Vec::new(),
        base: Vec::new(),
        right: Vec::new(),
        failed: false,
    };
    let ghost first = state@;
    let mut pos: usize = 0;
    while pos < input.len()
        invariant
            pos <= input.len(),
            git_scan(input@, expected_marker_len as int, 0, first) == git_scan(
                input@,
                expected_marker_len as int,
                pos as int,
                state@,
            ),
        decreases input.len() - pos,
    {
        let end: usize = next_line_end(input, pos);
        let line = slice_subrange(input, pos, end);
        read_git_line(&mut state, line, expected_marker_len);
        pos = end;
    }
    if !state.failed && state.part == GitPart::Right {
        let mut values: Vec<Vec<u8>> = Vec::new();
        values.push(state.left);
        values.push(state.base);
        values.push(state.right);
        let hunk = Merge::from_vec(values);
        proof {
            assert(terms_view(hunk) =~= spec_git_style_hunk(input@, expected_marker_len as int));
        }
        hunk
    } else {
        // Doesn't look like a valid conflict
        invalid_hunk()
    }
}

/// The marker that the first line of a body begins with.
pub open spec fn first_marker(body: Seq<u8>, marker_len: int) -> Option<ConflictMarker> {
    if body.len() == 0 {
        None
    } else {
        spec_marker(body.subrange(0, line_end(body, 0)), marker_len)
    }
}

/// The conflict that a body holds. A body that begins with the marker line
/// of a diff, a base or a side has a marker line for each section; one
/// that begins with no marker line, or with the marker line of the base of
/// Git, is in the style of Git; any other is no conflict.
pub open spec fn spec_conflict_hunk(body: Seq<u8>, marker_len: int) -> Seq<Seq<u8>> {
    match first_marker(body, marker_len) {
        Some(ConflictMarker::Diff) | Some(ConflictMarker::Remove) | Some(ConflictMarker::Add) => {
            spec_jj_style_hunk(body, marker_len)
        },
        None | Some(ConflictMarker::GitAncestor) => spec_git_style_hunk(body, marker_len),
        Some(_) => no_conflict(),
    }
}

/// Reads the body of a conflict: the lines between the line that begins
/// it and the line that ends it.
pub fn parse_conflict_hunk(input: &[u8], expected_marker_len: usize) -> (hunk: Merge<Vec<u8>>)
    ensures
        hunk.wf(),
        terms_view(hunk) == spec_conflict_hunk(input@, expected_marker_len as int),
{
    // If the hunk starts with a conflict marker, find its first character
    let initial_conflict_marker: Option<ConflictMarker> = if input.len() == 0 {
        None
    } else {
        let end: usize = next_line_end(input, 0);
        parse_conflict_marker(slice_subrange(input, 0, end), expected_marker_len)
    };
    match initial_conflict_marker {
        // JJ-style conflicts must start with one of these 3 conflict marker
        // lines
        Some(ConflictMarker::Diff) | Some(ConflictMarker::Remove) | Some(ConflictMarker::Add) => {
            parse_jj_style_conflict_hunk(input, expected_marker_len)
        },
        // Git-style conflicts either must not start with a conflict marker
        // line, or must start with the "|||||||" conflict marker line (if
        // the first side was empty)
        None | Some(ConflictMarker::GitAncestor) => {
            parse_git_style_conflict_hunk(input, expected_marker_len)
        },
        // No other conflict markers are allowed at the start of a hunk
        Some(_) => invalid_hunk(),
    }
}

} // verus!
