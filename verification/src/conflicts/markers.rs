//! Conflict marker lines: a run of one marker character at the start of a
//! line, with text behind it or without.

use crate::diff::compare::is_space;
use crate::diff::compare::spec_is_space;
use vstd::prelude::*;

verus! {

/// Minimum length of conflict markers.
pub const MIN_CONFLICT_MARKER_LEN: usize = 7;

/// If a file already contains lines which look like conflict markers of
/// length N, then the conflict markers we add will be of length (N +
/// increment). This number is chosen to make the conflict markers
/// noticeably longer than the existing markers.
pub const CONFLICT_MARKER_LEN_INCREMENT: usize = 4;

/// The kinds of conflict marker lines.
#[derive(Clone, Copy, Debug, PartialEq, Eq, Structural)]
pub enum ConflictMarker {
    /// `<`: a conflict begins.
    ConflictStart,
    /// `>`: a conflict ends.
    ConflictEnd,
    /// `+`: the contents of a side follow.
    Add,
    /// `-`: the contents of a base follow.
    Remove,
    /// `%`: the changes from a base to a side follow.
    Diff,
    /// `|`: the base of a conflict in the style of Git follows.
    GitAncestor,
    /// `=`: the second side of a conflict in the style of Git follows.
    GitSeparator,
}

impl ConflictMarker {
    /// The character that lines of the kind begin with.
    pub open spec fn spec_to_byte(self) -> u8 {
        match self {
            ConflictMarker::ConflictStart => 0x3c,
            ConflictMarker::ConflictEnd => 0x3e,
            ConflictMarker::Add => 0x2b,
            ConflictMarker::Remove => 0x2d,
            ConflictMarker::Diff => 0x25,
            ConflictMarker::GitAncestor => 0x7c,
            ConflictMarker::GitSeparator => 0x3d,
        }
    }

    /// The kind of marker that the character begins, if it begins one.
    pub open spec fn spec_parse_byte(byte: u8) -> Option<ConflictMarker> {
        if byte == 0x3c {
            Some(ConflictMarker::ConflictStart)
        } else if byte == 0x3e {
            Some(ConflictMarker::ConflictEnd)
        } else if byte == 0x2b {
            Some(ConflictMarker::Add)
        } else if byte == 0x2d {
            Some(ConflictMarker::Remove)
        } else if byte == 0x25 {
            Some(ConflictMarker::Diff)
        } else if byte == 0x7c {
            Some(ConflictMarker::GitAncestor)
        } else if byte == 0x3d {
            Some(ConflictMarker::GitSeparator)
        } else {
            None
        }
    }

    /// Get the ASCII byte used for this conflict marker.
    pub fn to_byte(self) -> (byte: u8)
        ensures
            byte == self.spec_to_byte(),
            Self::spec_parse_byte(byte) == Some(self),
    {
        match self {
            ConflictMarker::ConflictStart => 0x3c,
            ConflictMarker::ConflictEnd => 0x3e,
            ConflictMarker::Add => 0x2b,
            ConflictMarker::Remove => 0x2d,
            ConflictMarker::Diff => 0x25,
            ConflictMarker::GitAncestor => 0x7c,
            ConflictMarker::GitSeparator => 0x3d,
        }
    }

    /// Parse a byte to see if it corresponds with any kind of conflict
    /// marker.
    pub fn parse_byte(byte: u8) -> (kind: Option<ConflictMarker>)
        ensures
            kind == Self::spec_parse_byte(byte),
    {
        if byte == 0x3c {
            Some(ConflictMarker::ConflictStart)
        } else if byte == 0x3e {
            Some(ConflictMarker::ConflictEnd)
        } else if byte == 0x2b {
            Some(ConflictMarker::Add)
        } else if byte == 0x2d {
            Some(ConflictMarker::Remove)
        } else if byte == 0x25 {
            Some(ConflictMarker::Diff)
        } else if byte == 0x7c {
            Some(ConflictMarker::GitAncestor)
        } else if byte == 0x3d {
            Some(ConflictMarker::GitSeparator)
        } else {
            None
        }
    }
}

/// The number of bytes from `from` on that are equal to `byte`, up to the
/// first that is not.
pub open spec fn run_len(line: Seq<u8>, byte: u8, from: int) -> int
    decreases line.len() - from,
{
    if 0 <= from < line.len() && line[from] == byte {
        1 + run_len(line, byte, from + 1)
    } else {
        0
    }
}

/// The marker that a line begins with and its length: the line begins with
/// a marker character, and behind the run of that character the line ends
/// or whitespace follows.
pub open spec fn spec_marker_any_len(line: Seq<u8>) -> Option<(ConflictMarker, int)> {
    if line.len() == 0 {
        None
    } else {
        match ConflictMarker::spec_parse_byte(line[0]) {
            None => None,
            Some(kind) => {
                let len = run_len(line, line[0], 0);
                if len < line.len() && !spec_is_space(line[len]) {
                    None
                } else {
                    Some((kind, len))
                }
            },
        }
    }
}

/// The marker of at least the expected length that a line begins with.
pub open spec fn spec_marker(line: Seq<u8>, expected_len: int) -> Option<ConflictMarker> {
    match spec_marker_any_len(line) {
        Some((kind, len)) => if len >= expected_len {
            Some(kind)
        } else {
            None
        },
        None => None,
    }
}

pub proof fn lemma_run_len_bound(line: Seq<u8>, byte: u8, from: int)
    requires
        0 <= from <= line.len(),
    ensures
        0 <= run_len(line, byte, from) <= line.len() - from,
    decreases line.len() - from,
{
    if from < line.len() && line[from] == byte {
        lemma_run_len_bound(line, byte, from + 1);
    }
}

/// Parse a conflict marker from a line of a file. The conflict marker may
/// have any length (even less than `MIN_CONFLICT_MARKER_LEN`).
pub fn parse_conflict_marker_any_len(line: &[u8]) -> (marker: Option<(ConflictMarker, usize)>)
    ensures
        match marker {
            Some((kind, len)) => spec_marker_any_len(line@) == Some((kind, len as int)) && 1 <= len
                <= line.len(),
            None => spec_marker_any_len(line@).is_none(),
        },
{
    if line.len() == 0 {
        return None;
    }
    let first_byte: u8 = line[0];
    let kind: ConflictMarker = match ConflictMarker::parse_byte(first_byte) {
        Some(kind) => kind,
        None => {
            return None;
        },
    };
    let mut len: usize = 0;
    while len < line.len() && line[len] == first_byte
        invariant
            len <= line.len(),
            first_byte == line[0],
            run_len(line@, first_byte, 0) == len + run_len(line@, first_byte, len as int),
        decreases line.len() - len,
    {
        len += 1;
    }
    if len < line.len() {
        // If there is a character after the marker, it must be ASCII
        // whitespace
        if !is_space(line[len]) {
            return None;
        }
    }
    Some((kind, len))
}

/// Parse a conflict marker, expecting it to be at least a certain length.
/// Any shorter conflict markers are ignored.
pub fn parse_conflict_marker(line: &[u8], expected_len: usize) -> (marker: Option<ConflictMarker>)
    ensures
        marker == spec_marker(line@, expected_len as int),
{
    match parse_conflict_marker_any_len(line) {
        Some((kind, len)) => if len >= expected_len {
            Some(kind)
        } else {
            None
        },
        None => None,
    }
}

/// Whether a text lacks its terminating line feed: whether it is not empty
/// and its last byte is none.
pub open spec fn spec_has_no_eol(text: Seq<u8>) -> bool {
    text.len() > 0 && text.last() != 0x0a
}

/// Check whether a slice is missing its terminating newline character.
pub fn has_no_eol(slice: &[u8]) -> (r: bool)
    ensures
        r == spec_has_no_eol(slice@),
{
    slice.len() > 0 && slice[slice.len() - 1] != 0x0a
}

/// A text with a line feed behind it if it lacks one.
pub open spec fn with_newline(text: Seq<u8>) -> Seq<u8> {
    if spec_has_no_eol(text) {
        text.push(0x0au8)
    } else {
        text
    }
}

/// Write a chunk of data, ensuring that it doesn't end a line with `\n`
/// missing.
pub fn write_and_ensure_newline(output: &mut Vec<u8>, data: &[u8])
    ensures
        final(output)@ == old(output)@ + with_newline(data@),
{
    output.extend_from_slice(data);
    if has_no_eol(data) {
        output.push(0x0a);
        proof {
            assert(output@ =~= old(output)@ + with_newline(data@));
        }
    }
}

/// A number in decimal digits.
pub open spec fn spec_decimal(n: nat) -> Seq<u8>
    decreases n,
{
    if n < 10 {
        seq![(0x30 + n) as u8]
    } else {
        spec_decimal(n / 10).push((0x30 + n % 10) as u8)
    }
}

/// Writes a number in decimal digits.
pub fn write_decimal(output: &mut Vec<u8>, n: usize)
    ensures
        final(output)@ == old(output)@ + spec_decimal(n as nat),
    decreases n,
{
    if n < 10 {
        output.push(0x30 + (n as u8));
        proof {
            assert(output@ =~= old(output)@ + spec_decimal(n as nat));
        }
    } else {
        write_decimal(output, n / 10);
        output.push(0x30 + ((n % 10) as u8));
        proof {
            assert(output@ =~= old(output)@ + spec_decimal(n as nat));
        }
    }
}

/// A marker line: `len` marker characters, then a space and the text if
/// there is text, then a line feed.
pub open spec fn marker_line(kind: ConflictMarker, len: int, suffix: Seq<u8>) -> Seq<u8> {
    let run = Seq::new(len as nat, |i: int| kind.spec_to_byte());
    if suffix.len() == 0 {
        run.push(0x0au8)
    } else {
        (run.push(0x20u8) + suffix).push(0x0au8)
    }
}

/// Write a conflict marker to an output file.
pub fn write_conflict_marker(output: &mut Vec<u8>, kind: ConflictMarker, len: usize, suffix_text: &[u8])
    ensures
        final(output)@ == old(output)@ + marker_line(kind, len as int, suffix_text@),
{
    let ghost start = output@;
    let byte: u8 = kind.to_byte();
    let mut i: usize = 0;
    while i < len
        invariant
            i <= len,
            byte == kind.spec_to_byte(),
            output@ == start + Seq::new(i as nat, |k: int| kind.spec_to_byte()),
        decreases len - i,
    {
        output.push(byte);
        proof {
            assert(output@ =~= start + Seq::new((i + 1) as nat, |k: int| kind.spec_to_byte()));
        }
        i += 1;
    }
    if suffix_text.len() > 0 {
        output.push(0x20);
        output.extend_from_slice(suffix_text);
    }
    output.push(0x0a);
    proof {
        assert(output@ =~= start + marker_line(kind, len as int, suffix_text@));
    }
}

} // verus!
