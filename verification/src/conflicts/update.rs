//! Reading back a file that was written with conflict markers and edited:
//! what the terms of the conflict are now.

use crate::conflicts::hunks::texts_view;
use crate::conflicts::markers::has_no_eol;
use crate::conflicts::markers::spec_has_no_eol;
use crate::conflicts::materialize::is_merged_text;
use crate::conflicts::materialize::materialize_merge_result_with_marker_len;
use crate::conflicts::materialize::ConflictMarkerStyle;
use crate::conflicts::materialize::StepView;
use crate::conflicts::parse::parse_conflict;
use crate::conflicts::parse::spec_parse_conflict;
use crate::diff::compare::bytes_equal;
use crate::diff::DiffHunkKind;
use crate::files::hunks_view;
use crate::files::terms_view;
use crate::merge::refilled;
use crate::merge::spec_simplify;
use crate::merge::spec_simplified_mapping;
use crate::merge::terms_at;
use crate::merge::Merge;
use vstd::prelude::*;
use vstd::slice::slice_to_vec;

verus! {

/// The terms of a conflict of files as texts; a file that is absent has
/// none.
pub open spec fn option_views(values: Seq<Option<Vec<u8>>>) -> Seq<Option<Seq<u8>>> {
    Seq::new(
        values.len(),
        |k: int|
            match values[k] {
                Some(content) => Some(content@),
                None => None,
            },
    )
}

/// The contents of the terms, an absent file as an empty one.
pub open spec fn contents_or_empty(terms: Seq<Option<Seq<u8>>>) -> Seq<Seq<u8>> {
    Seq::new(
        terms.len(),
        |k: int|
            match terms[k] {
                Some(content) => content,
                None => Seq::empty(),
            },
    )
}

/// The contents of the terms of a conflict of files as one hunk, an absent
/// file as an empty one.
pub fn extract_as_single_hunk(merge: &Merge<Option<Vec<u8>>>) -> (single_hunk: Merge<Vec<u8>>)
    requires
        merge.wf(),
    ensures
        single_hunk.wf(),
        terms_view(single_hunk) == contents_or_empty(option_views(merge.values())),
{
    let values = merge.as_slice();
    let mut contents: Vec<Vec<u8>> = Vec::new();
    let mut k: usize = 0;
    while k < values.len()
        invariant
            k <= values.len(),
            contents.len() == k,
            forall|i: int|
                0 <= i < k ==> (#[trigger] contents[i])@ == contents_or_empty(
                    option_views(values@),
                )[i],
        decreases values.len() - k,
    {
        match &values[k] {
            Some(content) => {
                contents.push(slice_to_vec(content.as_slice()));
            },
            None => {
                contents.push(Vec::new());
            },
        }
        k += 1;
    }
    let single_hunk = Merge::from_vec(contents);
    proof {
        assert(terms_view(single_hunk) =~= contents_or_empty(option_views(merge.values())));
    }
    single_hunk
}

/// A term of the last conflict of a file without the line feed at its
/// end, if the term that was written lacked one: the line feed was added
/// when the conflict was written.
pub open spec fn without_added_newline(term: Seq<u8>, original: Seq<u8>) -> Seq<u8> {
    if term.len() > 0 && term.last() == 0x0a && spec_has_no_eol(original) {
        term.drop_last()
    } else {
        term
    }
}

/// The hunks with the line feeds taken from the terms of the last hunk
/// that were added when the conflict was written; the hunks as they are if
/// the last hunk is resolved.
pub open spec fn without_added_newlines(hunks: Seq<Seq<Seq<u8>>>, originals: Seq<Seq<u8>>) -> Seq<
    Seq<Seq<u8>>,
> {
    if hunks.len() > 0 && hunks.last().len() != 1 && hunks.last().len() == originals.len() {
        hunks.drop_last().push(
            Seq::new(
                originals.len(),
                |k: int| without_added_newline(hunks.last()[k], originals[k]),
            ),
        )
    } else {
        hunks
    }
}

/// Takes from the terms of the last hunk the line feeds that were added
/// when the conflict was written.
fn remove_added_newlines(hunks: &mut Vec<Merge<Vec<u8>>>, originals: &Merge<Vec<u8>>)
    requires
        forall|i: int| 0 <= i < old(hunks).len() ==> (#[trigger] old(hunks)[i]).wf(),
    ensures
        forall|i: int| 0 <= i < final(hunks).len() ==> (#[trigger] final(hunks)[i]).wf(),
        hunks_view(final(hunks)@) == without_added_newlines(
            hunks_view(old(hunks)@),
            terms_view(*originals),
        ),
{
    let ghost before = hunks_view(hunks@);
    let ghost wanted = without_added_newlines(before, terms_view(*originals));
    let original_terms = originals.as_slice();
    let last: Merge<Vec<u8>> = match hunks.pop() {
        Some(last) => last,
        None => {
            proof {
                assert(hunks_view(hunks@) =~= wanted);
            }
            return ;
        },
    };
    let ghost kept = hunks_view(hunks@);
    let ghost last_terms = terms_view(last);
    proof {
        assert(kept =~= before.drop_last());
        assert(last_terms == before.last());
    }
    if last.is_resolved() || last.as_slice().len() != original_terms.len() {
        hunks.push(last);
        proof {
            assert(hunks_view(hunks@) =~= wanted);
        }
        return ;
    }
    let mut rest: Vec<Vec<u8>> = last.into_vec();
    let mut reversed: Vec<Vec<u8>> = Vec::new();
    let n: usize = rest.len();
    while rest.len() > 0
        invariant
            n == original_terms.len(),
            n == last_terms.len(),
            original_terms@ == originals.values(),
            rest.len() + reversed.len() == n,
            forall|k: int| 0 <= k < rest.len() ==> (#[trigger] rest[k])@ == last_terms[k],
            forall|k: int|
                0 <= k < reversed.len() ==> (#[trigger] reversed[k])@ == without_added_newline(
                    last_terms[n - 1 - k],
                    terms_view(*originals)[n - 1 - k],
                ),
        decreases rest.len(),
    {
        let k: usize = rest.len() - 1;
        match rest.pop() {
            Some(term) => {
                let mut term = term;
                let ghost text = term@;
                proof {
                    assert(terms_view(*originals)[k as int] == original_terms[k as int]@);
                }
                if term.len() > 0 && term[term.len() - 1] == 0x0a && has_no_eol(
                    original_terms[k].as_slice(),
                ) {
                    term.pop();
                    proof {
                        assert(term@ =~= text.drop_last());
                    }
                }
                reversed.push(term);
            },
            None => {},
        }
    }
    let mut terms: Vec<Vec<u8>> = Vec::new();
    while reversed.len() > 0
        invariant
            n == last_terms.len(),
            terms.len() + reversed.len() == n,
            forall|k: int|
                0 <= k < reversed.len() ==> (#[trigger] reversed[k])@ == without_added_newline(
                    last_terms[n - 1 - k],
                    terms_view(*originals)[n - 1 - k],
                ),
            forall|k: int|
                0 <= k < terms.len() ==> (#[trigger] terms[k])@ == without_added_newline(
                    last_terms[k],
                    terms_view(*originals)[k],
                ),
        decreases reversed.len(),
    {
        match reversed.pop() {
            Some(term) => {
                terms.push(term);
            },
            None => {},
        }
    }
    let trimmed = Merge::from_vec(terms);
    hunks.push(trimmed);
    proof {
        assert(terms_view(trimmed) =~= wanted.last());
        assert(hunks_view(hunks@) =~= wanted);
    }
}

/// The terms of a file after the first `upto` hunks: a resolved hunk
/// belongs to every term, and of a conflict each term has its own.
pub open spec fn joined(hunks: Seq<Seq<Seq<u8>>>, num_terms: int, upto: int) -> Seq<Seq<u8>>
    decreases upto,
{
    if upto <= 0 {
        Seq::new(num_terms as nat, |k: int| Seq::empty())
    } else {
        let before = joined(hunks, num_terms, upto - 1);
        let hunk = hunks[upto - 1];
        Seq::new(
            num_terms as nat,
            |k: int|
                if hunk.len() == 1 {
                    before[k] + hunk[0]
                } else if k < hunk.len() {
                    before[k] + hunk[k]
                } else {
                    before[k]
                },
        )
    }
}

/// Joins the hunks of a file into its terms.
fn join_hunks(hunks: &[Merge<Vec<u8>>], num_terms: usize) -> (contents: Vec<Vec<u8>>)
    ensures
        texts_view(contents@) == joined(hunks_view(hunks@), num_terms as int, hunks.len() as int),
        contents.len() == num_terms,
{
    let ghost view = hunks_view(hunks@);
    let mut contents: Vec<Vec<u8>> = Vec::new();
    let mut i: usize = 0;
    while i < hunks.len()
        invariant
            i <= hunks.len(),
            view == hunks_view(hunks@),
            i == 0 ==> contents.len() == 0,
            i > 0 ==> contents.len() == num_terms,
            i > 0 ==> texts_view(contents@) == joined(view, num_terms as int, i as int),
        decreases hunks.len() - i,
    {
        let hunk = hunks[i].as_slice();
        let ghost before = joined(view, num_terms as int, i as int);
        proof {
            assert(view[i as int] == terms_view(hunks[i as int]));
            assert(forall|k: int| 0 <= k < hunk.len() ==> view[i as int][k] == (#[trigger] hunk[k])@);
        }
        let mut next: Vec<Vec<u8>> = Vec::new();
        let mut k: usize = 0;
        while k < num_terms
            invariant
                k <= num_terms,
                next.len() == k,
                i < hunks.len(),
                i > 0 ==> contents.len() == num_terms,
                i > 0 ==> texts_view(contents@) == before,
                before == joined(view, num_terms as int, i as int),
                hunk@ == hunks[i as int].values(),
                view[i as int].len() == hunk.len(),
                forall|k: int| 0 <= k < hunk.len() ==> view[i as int][k] == (#[trigger] hunk[k])@,
                forall|j: int|
                    0 <= j < k ==> (#[trigger] next[j])@ == joined(view, num_terms as int, i + 1)[j],
            decreases num_terms - k,
        {
            let mut term: Vec<u8> = if i > 0 {
                proof {
                    assert(texts_view(contents@)[k as int] == contents[k as int]@);
                }
                slice_to_vec(contents[k].as_slice())
            } else {
                Vec::new()
            };
            let ghost start = term@;
            proof {
                assert(start =~= before[k as int]);
            }
            if hunk.len() == 1 {
                term.extend_from_slice(hunk[0].as_slice());
                proof {
                    assert(term@ =~= start + hunk[0]@);
                }
            } else if k < hunk.len() {
                term.extend_from_slice(hunk[k].as_slice());
                proof {
                    assert(term@ =~= start + hunk[k as int]@);
                }
            }
            next.push(term);
            k += 1;
        }
        contents = next;
        proof {
            assert(texts_view(contents@) =~= joined(view, num_terms as int, i + 1));
        }
        i += 1;
    }
    if hunks.len() == 0 {
        let mut k: usize = 0;
        while k < num_terms
            invariant
                k <= num_terms,
                contents.len() == k,
                forall|j: int| 0 <= j < k ==> (#[trigger] contents[j])@ == Seq::<u8>::empty(),
            decreases num_terms - k,
        {
            contents.push(Vec::new());
            k += 1;
        }
        proof {
            assert(texts_view(contents@) =~= joined(view, num_terms as int, 0));
        }
    }
    contents
}

} // verus!

verus! {

/// A term that stands for an absent file has content now.
pub open spec fn absent_edited(contents: Seq<Seq<u8>>, terms: Seq<Option<Seq<u8>>>) -> bool {
    exists|k: int|
        0 <= k < contents.len() && k < terms.len() && (#[trigger] terms[k]).is_none()
            && contents[k].len() > 0
}

/// The terms with their new contents; a term that stands for an absent
/// file stays absent.
pub open spec fn new_terms(contents: Seq<Seq<u8>>, terms: Seq<Option<Seq<u8>>>) -> Seq<
    Option<Seq<u8>>,
> {
    Seq::new(
        terms.len(),
        |k: int|
            if terms[k].is_some() {
                Some(contents[k])
            } else {
                None
            },
    )
}

/// What the terms of a conflict are after the file that was written for
/// it, `written`, was edited to `content`. `places` are the places that
/// the terms of the simplified conflict have in the conflict. A file that
/// was not edited leaves the conflict as it is. A file that holds no
/// conflict of as many sides any more, or in which the place of an absent
/// file has content, is the one term of a resolved conflict. In any other
/// file each term is made of the resolved text and of its own terms of the
/// conflicts, without the line feeds that were added at the end when the
/// conflict was written; these terms take the places of the simplified
/// ones.
pub open spec fn spec_update(
    original: Seq<Option<Seq<u8>>>,
    places: Seq<usize>,
    written: Seq<u8>,
    content: Seq<u8>,
    marker_len: int,
) -> Seq<Option<Seq<u8>>> {
    let simplified = terms_at(original, places);
    let single = contents_or_empty(simplified);
    if content == written {
        original
    } else {
        match spec_parse_conflict(content, (places.len() as int + 1) / 2, marker_len) {
            None => seq![Some(content)],
            Some(hunks) => {
                let contents = joined(
                    without_added_newlines(hunks, single),
                    places.len() as int,
                    hunks.len() as int,
                );
                if absent_edited(contents, simplified) {
                    seq![Some(content)]
                } else if places.len() != original.len() {
                    refilled(original, places, new_terms(contents, simplified), 0)
                } else {
                    new_terms(contents, simplified)
                }
            },
        }
    }
}

/// Copies the terms at the given places.
fn copy_terms_at(values: &[Option<Vec<u8>>], places: &[usize]) -> (terms: Vec<Option<Vec<u8>>>)
    requires
        forall|k: int| 0 <= k < places.len() ==> (#[trigger] places[k]) < values.len(),
    ensures
        option_views(terms@) == terms_at(option_views(values@), places@),
        terms.len() == places.len(),
{
    let mut terms: Vec<Option<Vec<u8>>> = Vec::new();
    let mut k: usize = 0;
    while k < places.len()
        invariant
            k <= places.len(),
            terms.len() == k,
            forall|k: int| 0 <= k < places.len() ==> (#[trigger] places[k]) < values.len(),
            forall|j: int|
                0 <= j < k ==> option_views(terms@)[j] == #[trigger] terms_at(
                    option_views(values@),
                    places@,
                )[j],
        decreases places.len() - k,
    {
        let ghost before = terms@;
        match &values[places[k]] {
            Some(content) => {
                terms.push(Some(slice_to_vec(content.as_slice())));
            },
            None => {
                terms.push(None);
            },
        }
        proof {
            assert(forall|j: int| 0 <= j < k ==> terms[j] == before[j]);
            assert(forall|j: int|
                0 <= j < k ==> option_views(terms@)[j] == option_views(before)[j]);
        }
        k += 1;
    }
    proof {
        assert(option_views(terms@) =~= terms_at(option_views(values@), places@));
    }
    terms
}

/// Whether a term that stands for an absent file has content now.
fn has_edited_absent(contents: &[Vec<u8>], terms: &[Option<Vec<u8>>]) -> (r: bool)
    requires
        contents.len() == terms.len(),
    ensures
        r == absent_edited(texts_view(contents@), option_views(terms@)),
{
    let mut k: usize = 0;
    while k < contents.len()
        invariant
            k <= contents.len(),
            contents.len() == terms.len(),
            forall|j: int|
                0 <= j < k ==> !((#[trigger] option_views(terms@)[j]).is_none() && texts_view(
                    contents@,
                )[j].len() > 0),
        decreases contents.len() - k,
    {
        if terms[k].is_none() && contents[k].len() > 0 {
            proof {
                assert(option_views(terms@)[k as int].is_none());
                assert(texts_view(contents@)[k as int].len() > 0);
            }
            return true;
        }
        k += 1;
    }
    false
}

/// Gives each term its new content; a term that stands for an absent file
/// stays absent.
fn with_new_contents(contents: Vec<Vec<u8>>, terms: &[Option<Vec<u8>>]) -> (new: Vec<
    Option<Vec<u8>>,
>)
    requires
        contents.len() == terms.len(),
    ensures
        option_views(new@) == new_terms(texts_view(contents@), option_views(terms@)),
{
    let ghost wanted = new_terms(texts_view(contents@), option_views(terms@));
    let mut rest: Vec<Vec<u8>> = contents;
    let mut reversed: Vec<Option<Vec<u8>>> = Vec::new();
    let n: usize = terms.len();
    while rest.len() > 0
        invariant
            n == terms.len(),
            n == wanted.len(),
            n == contents.len(),
            rest.len() + reversed.len() == n,
            wanted == new_terms(texts_view(contents@), option_views(terms@)),
            forall|k: int| 0 <= k < rest.len() ==> (#[trigger] rest[k])@ == contents[k]@,
            forall|k: int|
                0 <= k < reversed.len() ==> option_views(reversed@)[k] == #[trigger] wanted[n - 1
                    - k],
        decreases rest.len(),
    {
        let k: usize = rest.len() - 1;
        let ghost before = reversed@;
        match rest.pop() {
            Some(content) => {
                proof {
                    assert(texts_view(contents@)[k as int] == contents[k as int]@);
                }
                if terms[k].is_some() {
                    reversed.push(Some(content));
                } else {
                    // The missing side of a conflict is still represented
                    // by the empty string we materialized it as
                    reversed.push(None);
                }
            },
            None => {},
        }
        proof {
            assert(forall|j: int| 0 <= j < before.len() ==> reversed[j] == before[j]);
            assert(forall|j: int|
                0 <= j < before.len() ==> option_views(reversed@)[j] == option_views(before)[j]);
            assert(option_views(terms@)[k as int].is_some() == terms[k as int].is_some());
        }
    }
    let mut new: Vec<Option<Vec<u8>>> = Vec::new();
    while reversed.len() > 0
        invariant
            n == wanted.len(),
            new.len() + reversed.len() == n,
            forall|k: int|
                0 <= k < reversed.len() ==> option_views(reversed@)[k] == #[trigger] wanted[n - 1
                    - k],
            forall|k: int| 0 <= k < new.len() ==> option_views(new@)[k] == #[trigger] wanted[k],
        decreases reversed.len(),
    {
        let ghost before_new = new@;
        let ghost before_rev = reversed@;
        let k: usize = reversed.len() - 1;
        match reversed.pop() {
            Some(term) => {
                proof {
                    assert(option_views(before_rev)[k as int] == wanted[n - 1 - k]);
                }
                new.push(term);
            },
            None => {},
        }
        proof {
            assert(forall|j: int| 0 <= j < before_new.len() ==> new[j] == before_new[j]);
            assert(forall|j: int|
                0 <= j < before_new.len() ==> option_views(new@)[j] == option_views(
                    before_new,
                )[j]);
            assert(forall|j: int| 0 <= j < reversed.len() ==> reversed[j] == before_rev[j]);
            assert(forall|j: int|
                0 <= j < reversed.len() ==> option_views(reversed@)[j] == option_views(
                    before_rev,
                )[j]);
        }
    }
    proof {
        assert(option_views(new@) =~= wanted);
    }
    new
}

} // verus!

verus! {

/// Copies the terms.
fn copy_terms(values: &[Option<Vec<u8>>]) -> (terms: Vec<Option<Vec<u8>>>)
    ensures
        option_views(terms@) == option_views(values@),
        terms.len() == values.len(),
{
    let mut terms: Vec<Option<Vec<u8>>> = Vec::new();
    let mut k: usize = 0;
    while k < values.len()
        invariant
            k <= values.len(),
            terms.len() == k,
            forall|j: int|
                0 <= j < k ==> option_views(terms@)[j] == #[trigger] option_views(values@)[j],
        decreases values.len() - k,
    {
        let ghost before = terms@;
        match &values[k] {
            Some(content) => {
                terms.push(Some(slice_to_vec(content.as_slice())));
            },
            None => {
                terms.push(None);
            },
        }
        proof {
            assert(forall|j: int| 0 <= j < k ==> terms[j] == before[j]);
            assert(forall|j: int|
                0 <= j < k ==> option_views(terms@)[j] == option_views(before)[j]);
        }
        k += 1;
    }
    proof {
        assert(option_views(terms@) =~= option_views(values@));
    }
    terms
}

/// Puts new terms at the given places of a copy of the terms.
fn refill(values: &[Option<Vec<u8>>], places: &[usize], new: Vec<Option<Vec<u8>>>) -> (terms: Vec<
    Option<Vec<u8>>,
>)
    requires
        new.len() == places.len(),
        forall|k: int| 0 <= k < places.len() ==> (#[trigger] places[k]) < values.len(),
    ensures
        option_views(terms@) == refilled(option_views(values@), places@, option_views(new@), 0),
        terms.len() == values.len(),
{
    let ghost original = option_views(values@);
    let ghost wanted = option_views(new@);
    let mut terms: Vec<Option<Vec<u8>>> = copy_terms(values);
    let mut rest: Vec<Option<Vec<u8>>> = new;
    while rest.len() > 0
        invariant
            rest.len() <= places.len(),
            wanted.len() == places.len(),
            terms.len() == values.len(),
            original == option_views(values@),
            forall|k: int| 0 <= k < places.len() ==> (#[trigger] places[k]) < values.len(),
            forall|k: int| 0 <= k < rest.len() ==> option_views(rest@)[k] == #[trigger] wanted[k],
            option_views(terms@) == refilled(original, places@, wanted, rest.len() as int),
        decreases rest.len(),
    {
        let k: usize = rest.len() - 1;
        let ghost before_rest = rest@;
        let ghost before_terms = terms@;
        match rest.pop() {
            Some(term) => {
                proof {
                    assert(option_views(before_rest)[k as int] == wanted[k as int]);
                }
                terms.set(places[k], term);
            },
            None => {},
        }
        proof {
            assert(forall|j: int| 0 <= j < rest.len() ==> rest[j] == before_rest[j]);
            assert(forall|j: int|
                0 <= j < rest.len() ==> option_views(rest@)[j] == option_views(before_rest)[j]);
            assert(option_views(terms@) =~= option_views(before_terms).update(
                places[k as int] as int,
                wanted[k as int],
            ));
        }
    }
    terms
}

/// The result is what the terms of a conflict are after the file that was
/// written for it was edited to `content`: `places` are the places of the
/// terms of the simplified conflict, and `written` is a merged file of
/// those terms in the style, with markers of the given length.
pub open spec fn is_update(
    original: Seq<Option<Vec<u8>>>,
    style: ConflictMarkerStyle,
    marker_len: int,
    content: Seq<u8>,
    places: Seq<usize>,
    written: Seq<u8>,
    result: Seq<Option<Seq<u8>>>,
) -> bool {
    &&& places == spec_simplified_mapping(original)
    &&& terms_at(original, places) == spec_simplify(original)
    &&& exists|hunks: Seq<(DiffHunkKind, Seq<Seq<u8>>)>, plans: Seq<Seq<StepView>>| #[trigger]
        is_merged_text(
            contents_or_empty(terms_at(option_views(original), places)),
            style,
            marker_len,
            hunks,
            plans,
            written,
        )
    &&& result == spec_update(option_views(original), places, written, content, marker_len)
}

/// Parses conflict markers in `content` and returns an updated version of
/// `file_contents` with the new contents of the terms. A side that is
/// absent stays absent. If the file holds the conflict as it would be
/// written, the terms are returned as they are. If no conflict with the
/// expected number of sides is found in the file, or if the place of an
/// absent side was edited, the whole file is the one term of the result.
pub fn update_from_content(
    file_contents: &Merge<Option<Vec<u8>>>,
    content: &[u8],
    conflict_marker_style: ConflictMarkerStyle,
    conflict_marker_len: usize,
) -> (updated: Merge<Option<Vec<u8>>>)
    requires
        file_contents.wf(),
        file_contents.values().len() < usize::MAX,
    ensures
        updated.wf(),
        exists|places: Seq<usize>, written: Seq<u8>| #[trigger]
            is_update(
                file_contents.values(),
                conflict_marker_style,
                conflict_marker_len as int,
                content@,
                places,
                written,
                option_views(updated.values()),
            ),
{
    let values = file_contents.as_slice();
    let ghost original = option_views(values@);
    let places = file_contents.get_simplified_mapping();
    let simplified = Merge::from_vec(copy_terms_at(values, places.as_slice()));
    let ghost simplified_terms = terms_at(original, places@);

    // First check if the new content is unchanged compared to the old
    // content. If it is, we don't need parse the content. This is also a
    // way of making sure that unchanged conflicts are not converted to
    // regular files.
    let merge_hunk = extract_as_single_hunk(&simplified);
    let mut old_content: Vec<u8> = Vec::new();
    materialize_merge_result_with_marker_len(
        &merge_hunk,
        conflict_marker_style,
        conflict_marker_len,
        &mut old_content,
    );
    let ghost written = old_content@;
    proof {
        let (hunks, plans, text) = choose|
            hunks: Seq<(DiffHunkKind, Seq<Seq<u8>>)>,
            plans: Seq<Seq<StepView>>,
            text: Seq<u8>,
        | #[trigger]
            is_merged_text(
                terms_view(merge_hunk),
                conflict_marker_style,
                conflict_marker_len as int,
                hunks,
                plans,
                text,
            ) && old_content@ == Seq::<u8>::empty() + text;
        assert(written =~= text);
        assert(is_merged_text(
            contents_or_empty(simplified_terms),
            conflict_marker_style,
            conflict_marker_len as int,
            hunks,
            plans,
            written,
        ));
    }
    let ghost num_sides = (places.len() as int + 1) / 2;
    if bytes_equal(content, old_content.as_slice()) {
        let updated = Merge::from_vec(copy_terms(values));
        proof {
            assert(is_update(
                file_contents.values(),
                conflict_marker_style,
                conflict_marker_len as int,
                content@,
                places@,
                written,
                option_views(updated.values()),
            ));
        }
        return updated;
    }
    // Parse conflicts from the new content using the arity of the
    // simplified conflicts.
    let mut hunks: Vec<Merge<Vec<u8>>> = match parse_conflict(
        content,
        simplified.num_sides(),
        conflict_marker_len,
    ) {
        Some(hunks) => hunks,
        None => {
            // Either there are no markers or they don't have the expected
            // arity
            let updated = Merge::resolved(Some(slice_to_vec(content)));
            proof {
                assert(option_views(updated.values()) =~= seq![Some(content@)]);
                assert(is_update(
                    file_contents.values(),
                    conflict_marker_style,
                    conflict_marker_len as int,
                    content@,
                    places@,
                    written,
                    option_views(updated.values()),
                ));
            }
            return updated;
        },
    };
    let ghost parsed = hunks_view(hunks@);
    // If there is a conflict at the end of the file and a term ends with a
    // newline, check whether the original term ended with a newline. If it
    // didn't, then remove the newline since it was added automatically when
    // materializing.
    remove_added_newlines(&mut hunks, &merge_hunk);
    let contents = join_hunks(hunks.as_slice(), places.len());
    proof {
        assert(hunks_view(hunks@).len() == hunks.len());
        assert(without_added_newlines(parsed, terms_view(merge_hunk)).len() == parsed.len());
    }
    // If the user edited the empty placeholder for an absent side, we
    // consider the conflict resolved.
    if has_edited_absent(contents.as_slice(), simplified.as_slice()) {
        let updated = Merge::resolved(Some(slice_to_vec(content)));
        proof {
            assert(option_views(updated.values()) =~= seq![Some(content@)]);
            assert(is_update(
                file_contents.values(),
                conflict_marker_style,
                conflict_marker_len as int,
                content@,
                places@,
                written,
                option_views(updated.values()),
            ));
        }
        return updated;
    }
    let ghost joined_contents = texts_view(contents@);
    let new = with_new_contents(contents, simplified.as_slice());
    proof {
        assert(option_views(new@).len() == places.len());
    }
    // If the conflict was simplified, expand the conflict to the original
    // number of sides.
    let updated = if new.len() != values.len() {
        Merge::from_vec(refill(values, places.as_slice(), new))
    } else {
        Merge::from_vec(new)
    };
    proof {
        assert(is_update(
            file_contents.values(),
            conflict_marker_style,
            conflict_marker_len as int,
            content@,
            places@,
            written,
            option_views(updated.values()),
        ));
    }
    updated
}

} // verus!
