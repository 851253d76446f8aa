//! Reading a file with conflict markers: the resolved text and the
//! conflicts between it.

use crate::conflicts::hunks::parse_conflict_hunk;
use crate::conflicts::hunks::spec_conflict_hunk;
use crate::conflicts::lines::line_end;
use crate::conflicts::lines::next_line_end;
use crate::conflicts::markers::parse_conflict_marker;
use crate::conflicts::markers::spec_marker;
use crate::conflicts::markers::ConflictMarker;
use crate::files::hunks_view;
use crate::files::terms_view;
use crate::merge::Merge;
use vstd::prelude::*;
use vstd::slice::slice_subrange;
use vstd::slice::slice_to_vec;

verus! {

/// What is read of a file: the hunks so far, where the resolved text
/// behind them begins, and the line that began a conflict which is still
/// open, by its place and its length.
pub struct ScanView {
    pub hunks: Seq<Seq<Seq<u8>>>,
    pub resolved_start: int,
    pub conflict_start: Option<(int, int)>,
}

/// What is read after the line from `pos` to `end`. A line that begins a
/// conflict opens one, in place of one that was open. A line that ends a
/// conflict closes the open one: if the lines between hold a conflict of
/// `num_sides` sides, the resolved text before it, if there is any, and
/// the conflict are hunks, and resolved text begins again behind the line;
/// if they do not, the lines stay text. Every other line is passed over.
pub open spec fn scan_step(
    input: Seq<u8>,
    num_sides: int,
    marker_len: int,
    state: ScanView,
    pos: int,
    end: int,
) -> ScanView {
    match spec_marker(input.subrange(pos, end), marker_len) {
        Some(ConflictMarker::ConflictStart) => ScanView {
            conflict_start: Some((pos, end - pos)),
            ..state
        },
        Some(ConflictMarker::ConflictEnd) => match state.conflict_start {
            Some((start, start_len)) => {
                let hunk = spec_conflict_hunk(input.subrange(start + start_len, pos), marker_len);
                if hunk.len() == 2 * num_sides - 1 {
                    ScanView {
                        hunks: if state.resolved_start < start {
                            state.hunks.push(seq![input.subrange(state.resolved_start, start)]).push(
                                hunk,
                            )
                        } else {
                            state.hunks.push(hunk)
                        },
                        resolved_start: end,
                        conflict_start: None,
                    }
                } else {
                    ScanView { conflict_start: None, ..state }
                }
            },
            None => state,
        },
        _ => state,
    }
}

/// What is read of the file once the lines from `pos` on are read too.
pub open spec fn scan_from(
    input: Seq<u8>,
    num_sides: int,
    marker_len: int,
    pos: int,
    state: ScanView,
) -> ScanView
    decreases input.len() - pos,
{
    if pos < 0 || pos >= input.len() {
        state
    } else {
        let end = line_end(input, pos);
        if pos < end <= input.len() {
            scan_from(
                input,
                num_sides,
                marker_len,
                end,
                scan_step(input, num_sides, marker_len, state, pos, end),
            )
        } else {
            state
        }
    }
}

/// The hunks of a file with conflict markers: the conflicts of `num_sides`
/// sides, and the resolved text before, between and behind them; nothing
/// if the file holds no such conflict.
pub open spec fn spec_parse_conflict(input: Seq<u8>, num_sides: int, marker_len: int) -> Option<
    Seq<Seq<Seq<u8>>>,
> {
    let read = scan_from(
        input,
        num_sides,
        marker_len,
        0,
        ScanView { hunks: Seq::empty(), resolved_start: 0, conflict_start: None },
    );
    if read.hunks.len() == 0 {
        None
    } else if read.resolved_start < input.len() {
        Some(read.hunks.push(seq![input.subrange(read.resolved_start, input.len() as int)]))
    } else {
        Some(read.hunks)
    }
}

/// A resolved hunk with a part of the input as its content.
fn resolved_part(input: &[u8], from: usize, to: usize) -> (hunk: Merge<Vec<u8>>)
    requires
        from <= to <= input.len(),
    ensures
        hunk.wf(),
        terms_view(hunk) == seq![input@.subrange(from as int, to as int)],
{
    let hunk = Merge::resolved(slice_to_vec(slice_subrange(input, from, to)));
    proof {
        assert(terms_view(hunk) =~= seq![input@.subrange(from as int, to as int)]);
    }
    hunk
}

/// Parses conflict markers from a slice.
///
/// Returns `None` if there were no valid conflict markers. The caller
/// has to provide the expected number of merge sides (adds). Conflict
/// markers that are otherwise valid will be considered invalid if they
/// don't have the expected arity.
///
/// All conflict markers in the file must be at least as long as the
/// expected length. Any shorter conflict markers will be ignored.
pub fn parse_conflict(input: &[u8], num_sides: usize, expected_marker_len: usize) -> (parsed:
    Option<Vec<Merge<Vec<u8>>>>)
    ensures
        match parsed {
            Some(hunks) => spec_parse_conflict(
                input@,
                num_sides as int,
                expected_marker_len as int,
            ) == Some(hunks_view(hunks@)) && forall|i: int|
                0 <= i < hunks.len() ==> (#[trigger] hunks[i]).wf(),
            None => spec_parse_conflict(input@, num_sides as int, expected_marker_len as int)
                .is_none(),
        },
{
    let ghost first = ScanView { hunks: Seq::empty(), resolved_start: 0, conflict_start: None };
    let mut hunks: Vec<Merge<Vec<u8>>> = Vec::new();
    let mut pos: usize = 0;
    let mut resolved_start: usize = 0;
    let mut conflict_start: Option<(usize, usize)> = None;
    proof {
        assert(hunks_view(hunks@) =~= first.hunks);
    }
    while pos < input.len()
        invariant
            pos <= input.len(),
            resolved_start <= pos,
            match conflict_start {
                Some((start, start_len)) => resolved_start <= start && start + start_len <= pos,
                None => true,
            },
            forall|i: int| 0 <= i < hunks.len() ==> (#[trigger] hunks[i]).wf(),
            scan_from(input@, num_sides as int, expected_marker_len as int, 0, first) == scan_from(
                input@,
                num_sides as int,
                expected_marker_len as int,
                pos as int,
                ScanView {
                    hunks: hunks_view(hunks@),
                    resolved_start: resolved_start as int,
                    conflict_start: match conflict_start {
                        Some((start, start_len)) => Some((start as int, start_len as int)),
                        None => None,
                    },
                },
            ),
        decreases input.len() - pos,
    {
        let end: usize = next_line_end(input, pos);
        let line = slice_subrange(input, pos, end);
        let ghost before = hunks_view(hunks@);
        match parse_conflict_marker(line, expected_marker_len) {
            Some(ConflictMarker::ConflictStart) => {
                conflict_start = Some((pos, end - pos));
            },
            Some(ConflictMarker::ConflictEnd) => {
                match conflict_start {
                    Some((start, start_len)) => {
                        let conflict_body = slice_subrange(input, start + start_len, pos);
                        let hunk = parse_conflict_hunk(conflict_body, expected_marker_len);
                        if hunk.num_sides() == num_sides {
                            if resolved_start < start {
                                hunks.push(resolved_part(input, resolved_start, start));
                            }
                            hunks.push(hunk);
                            proof {
                                let part = seq![
                                    input@.subrange(resolved_start as int, start as int),
                                ];
                                if resolved_start < start {
                                    assert(hunks_view(hunks@) =~= before.push(part).push(
                                        terms_view(hunk),
                                    ));
                                } else {
                                    assert(hunks_view(hunks@) =~= before.push(terms_view(hunk)));
                                }
                            }
                            resolved_start = end;
                        }
                        conflict_start = None;
                    },
                    None => {},
                }
            },
            _ => {},
        }
        pos = end;
    }
    if hunks.len() == 0 {
        None
    } else {
        if resolved_start < input.len() {
            let ghost before = hunks_view(hunks@);
            hunks.push(resolved_part(input, resolved_start, input.len()));
            proof {
                assert(hunks_view(hunks@) =~= before.push(
                    seq![input@.subrange(resolved_start as int, input.len() as int)],
                ));
            }
        }
        Some(hunks)
    }
}

} // verus!
