//! What the commands on workspaces decide before they touch a repository.

use vstd::prelude::*;

verus! {

/// How to handle sparse patterns when creating a new workspace.
#[derive(Clone, Copy, Debug, PartialEq, Eq, Structural)]
pub enum SparseInheritance {
    /// Copy all sparse patterns from the current workspace.
    Copy,
    /// Include all files in the new workspace.
    Full,
    /// Clear all files from the workspace (it will be empty).
    Empty,
}

/// The sparse patterns to set in a new workspace: those of the current
/// workspace, none at all, or nothing to set, so that every file is
/// included.
pub fn sparse_patterns_for(inheritance: SparseInheritance, current: Vec<String>) -> (patterns:
    Option<Vec<String>>)
    ensures
        match inheritance {
            SparseInheritance::Full => patterns.is_none(),
            SparseInheritance::Empty => patterns.is_some() && patterns.unwrap()@.len() == 0,
            SparseInheritance::Copy => patterns == Some(current),
        },
{
    match inheritance {
        SparseInheritance::Full => None,
        SparseInheritance::Empty => Some(Vec::new()),
        SparseInheritance::Copy => Some(current),
    }
}

/// The workspaces to forget: those that are named, or the current one if
/// none is named.
pub fn workspaces_to_forget(named: Vec<String>, current: String) -> (names: Vec<String>)
    ensures
        names@ == if named@.len() == 0 {
            seq![current]
        } else {
            named@
        },
{
    if named.len() == 0 {
        let mut names: Vec<String> = Vec::new();
        names.push(current);
        names
    } else {
        named
    }
}

/// The first workspace that the repository does not know, if there is one:
/// `known` says of each workspace whether the repository knows it.
pub fn first_unknown(known: &[bool]) -> (place: Option<usize>)
    ensures
        match place {
            Some(i) => i < known.len() && !known[i as int] && forall|k: int|
                0 <= k < i ==> known[k],
            None => forall|k: int| 0 <= k < known.len() ==> known[k],
        },
{
    let mut i: usize = 0;
    while i < known.len()
        invariant
            i <= known.len(),
            forall|k: int| 0 <= k < i ==> known[k],
        decreases known.len() - i,
    {
        if !known[i] {
            return Some(i);
        }
        i += 1;
    }
    None
}

} // verus!
