//! The lines of a text, each with the line feed that ends it.

use vstd::prelude::*;

verus! {

/// Where the line that begins at `from` ends: just behind the next line
/// feed, or at the end of the text if none follows.
pub open spec fn line_end(text: Seq<u8>, from: int) -> int
    decreases text.len() - from,
{
    if from < 0 || from >= text.len() {
        text.len() as int
    } else if text[from] == 0x0a {
        from + 1
    } else {
        line_end(text, from + 1)
    }
}

/// A line ends behind its beginning and inside the text.
pub proof fn lemma_line_end(text: Seq<u8>, from: int)
    requires
        0 <= from < text.len(),
    ensures
        from < line_end(text, from) <= text.len(),
    decreases text.len() - from,
{
    reveal_with_fuel(line_end, 2);
    if text[from] != 0x0a && from + 1 < text.len() {
        lemma_line_end(text, from + 1);
    }
}

/// The lines of `text` from `from` on.
pub open spec fn lines_from(text: Seq<u8>, from: int) -> Seq<Seq<u8>>
    decreases text.len() - from,
{
    if from < 0 || from >= text.len() {
        Seq::empty()
    } else {
        let end = line_end(text, from);
        if from < end <= text.len() {
            seq![text.subrange(from, end)] + lines_from(text, end)
        } else {
            Seq::empty()
        }
    }
}

/// The lines of `text`.
pub open spec fn lines_of(text: Seq<u8>) -> Seq<Seq<u8>> {
    lines_from(text, 0)
}

/// Finds the end of the line that begins at `from`.
pub fn next_line_end(text: &[u8], from: usize) -> (end: usize)
    requires
        from < text.len(),
    ensures
        end == line_end(text@, from as int),
        from < end <= text.len(),
{
    let mut i: usize = from;
    while i < text.len() && text[i] != 0x0a
        invariant
            from <= i <= text.len(),
            line_end(text@, from as int) == line_end(text@, i as int),
        decreases text.len() - i,
    {
        i += 1;
    }
    if i < text.len() {
        i + 1
    } else {
        i
    }
}

} // verus!
