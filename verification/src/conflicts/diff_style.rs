//! What is read back from the diffs of a conflict that was written in the
//! diff style: the base and the side of each diff, each with a line feed
//! at its end.

use crate::conflicts::hunks::append_last;
use crate::conflicts::hunks::sections_step;
use crate::conflicts::hunks::SectionKind;
use crate::conflicts::hunks::SectionsView;
use crate::conflicts::lines::lemma_line_end;
use crate::conflicts::lines::line_end;
use crate::conflicts::lines::lines_from;
use crate::conflicts::lines::lines_of;
use crate::conflicts::markers::spec_marker;
use crate::conflicts::markers::with_newline;
use crate::conflicts::markers::ConflictMarker;
use crate::conflicts::hunks::interleaved;
use crate::conflicts::hunks::spec_conflict_hunk;
use crate::conflicts::hunks::spec_jj_style_hunk;
use crate::conflicts::materialize::adds_used;
use crate::conflicts::materialize::is_pair_diff;
use crate::conflicts::materialize::sides_text;
use crate::conflicts::materialize::step_adds;
use crate::conflicts::materialize::step_text;
use crate::conflicts::materialize::step_valid;
use crate::conflicts::materialize::steps_text;
use crate::conflicts::materialize::steps_valid;
use crate::conflicts::materialize::ConflictMarkerStyle;
use crate::conflicts::materialize::StepView;
use crate::conflicts::round_trip::all_plain;
use crate::conflicts::round_trip::lemma_base_header;
use crate::conflicts::round_trip::lemma_sections_scan;
use crate::conflicts::round_trip::lemma_side_header;
use crate::conflicts::round_trip::newlined;
use crate::conflicts::round_trip::planned_body;
use crate::conflicts::sections::base_text;
use crate::conflicts::sections::no_eol_comment;
use crate::conflicts::sections::side_text;
use crate::conflicts::markers::marker_line;
use crate::conflicts::markers::spec_decimal;
use crate::conflicts::round_trip::ends_lines;
use crate::conflicts::round_trip::is_plain;
use crate::conflicts::round_trip::lemma_ascii_no_line_feed;
use crate::conflicts::round_trip::lemma_decimal_no_line_feed;
use crate::conflicts::round_trip::lemma_marker_line;
use crate::conflicts::round_trip::lemma_no_line_feed_concat;
use crate::conflicts::round_trip::lemma_read_snapshot;
use crate::conflicts::round_trip::lemma_snapshot_words;
use crate::conflicts::round_trip::snapshot_text;
use crate::conflicts::sections::base_name;
use crate::conflicts::sections::diff_eol_comment;
use crate::conflicts::sections::diff_text;
use crate::conflicts::round_trip::lemma_ends_lines_concat;
use crate::conflicts::round_trip::lemma_lines_concat;
use crate::conflicts::round_trip::lemma_no_bounds_concat;
use crate::conflicts::round_trip::lemma_one_line;
use crate::conflicts::round_trip::lemma_plain_has_no_bounds;
use crate::conflicts::round_trip::lemma_read_concat;
use crate::conflicts::round_trip::no_conflict_bounds;
use crate::conflicts::round_trip::no_line_feed;
use crate::conflicts::round_trip::no_marker_lines;
use crate::conflicts::round_trip::read_lines;
use crate::conflicts::round_trip::sections_reader;
use crate::conflicts::sections::diff_hunk_text;
use crate::conflicts::sections::diff_hunks_text;
use crate::conflicts::sections::prefixed_lines;
use crate::diff::aligned::is_cut;
use crate::diff::aligned::lemma_hunks_cut;
use crate::diff::aligned::lemma_hunks_reach_end;
use crate::diff::aligned::lemma_line_regions_cut;
use crate::diff::aligned::lemma_matching_hunks_agree;
use crate::diff::aligned::region_cut;
use crate::diff::compare::CompareBytesExactly;
use crate::diff::engine::contents_of;
use crate::diff::engine::hunks_in_bounds;
use crate::diff::engine::hunks_tile;
use crate::diff::engine::inputs_view;
use crate::diff::engine::is_diff_under;
use crate::diff::engine::joins_next;
use crate::diff::engine::lemma_remaining_hunks;
use crate::diff::engine::lemma_remaining_hunks_tile;
use crate::diff::engine::spec_hunks;
use crate::diff::engine::DiffHunkKind;
use crate::diff::regions::all_empty;
use crate::diff::regions::contents_agree;
use crate::diff::regions::input_lens;
use crate::diff::regions::region_in_bounds;
use crate::diff::regions::Sides;
use crate::diff::tokens::find_line_ranges;
use crate::files::hunks_of;
use crate::files::is_diff_of;
use vstd::string::StringSliceAdditionalSpecFns;
use vstd::prelude::*;

verus! {

/// The number of bytes of the text `k` that the first `upto` hunks hold.
pub open spec fn held(hunks: Seq<(DiffHunkKind, Seq<Seq<u8>>)>, k: int, upto: int) -> int
    decreases upto,
{
    if upto <= 0 {
        0
    } else {
        held(hunks, k, upto - 1) + hunks[upto - 1].1[k].len()
    }
}

/// The hunk at `i` holds, of each text, the whole lines behind what the
/// hunks before it hold; where the texts match in it, it holds the same
/// of both.
pub open spec fn hunk_in_place(
    texts: Seq<Seq<u8>>,
    hunks: Seq<(DiffHunkKind, Seq<Seq<u8>>)>,
    i: int,
) -> bool {
    &&& hunks[i].1.len() == 2
    &&& forall|k: int|
        #![trigger texts[k]]
        0 <= k < 2 ==> is_cut(texts[k], held(hunks, k, i)) && is_cut(texts[k], held(hunks, k, i + 1))
            && hunks[i].1[k] == texts[k].subrange(held(hunks, k, i), held(hunks, k, i + 1))
    &&& hunks[i].0 == DiffHunkKind::Matching ==> hunks[i].1[0] == hunks[i].1[1]
}

/// The two texts, the base first.
pub open spec fn pair_of(base: Seq<u8>, side: Seq<u8>) -> Seq<Seq<u8>> {
    Seq::empty().push(base).push(side)
}

/// The hunks are those of a diff of whole lines of the base and the side:
/// one behind the other they hold all of both texts, each hunk whole
/// lines, and the same lines of both where the texts match.
pub open spec fn is_whole_line_diff(
    base: Seq<u8>,
    side: Seq<u8>,
    hunks: Seq<(DiffHunkKind, Seq<Seq<u8>>)>,
) -> bool {
    &&& forall|i: int| 0 <= i < hunks.len() ==> #[trigger] hunk_in_place(pair_of(base, side), hunks, i)
    &&& held(hunks, 0, hunks.len() as int) == base.len()
    &&& held(hunks, 1, hunks.len() as int) == side.len()
}

/// Hunks of ranges with the texts in their ranges.
pub open spec fn with_texts(texts: Seq<Seq<u8>>, places: Seq<(DiffHunkKind, Sides)>) -> Seq<
    (DiffHunkKind, Seq<Seq<u8>>),
> {
    Seq::new(places.len(), |i: int| (places[i].0, contents_of(texts, places[i].1)))
}

/// The hunks with their texts hold of each text what lies before the
/// place where the next hunk begins.
proof fn lemma_held(
    texts: Seq<Seq<u8>>,
    places: Seq<(DiffHunkKind, Sides)>,
    k: int,
    i: int,
)
    requires
        texts.len() == 2,
        0 <= k < 2,
        hunks_tile(places),
        hunks_in_bounds(places, input_lens(texts)),
        places.len() > 0 ==> places[0].1[k].start == 0,
        0 <= i <= places.len(),
    ensures
        held(with_texts(texts, places), k, i) == (if i < places.len() {
            places[i].1[k].start as int
        } else if places.len() > 0 {
            places[places.len() - 1].1[k].end as int
        } else {
            0
        }),
    decreases i,
{
    let hunks = with_texts(texts, places);
    if i > 0 {
        lemma_held(texts, places, k, i - 1);
        assert(region_in_bounds(places[i - 1].1, input_lens(texts)));
        assert(hunks[i - 1].1 == contents_of(texts, places[i - 1].1));
        assert(hunks[i - 1].1[k].len() == places[i - 1].1[k].end - places[i - 1].1[k].start);
        if i < places.len() {
            assert(joins_next(places, i - 1));
        }
    }
}

/// Hunks of ranges that tile two texts, begin and end at cuts and agree
/// where the texts match are, with their texts, a diff of whole lines.
proof fn lemma_places_whole_lines(
    base: Seq<u8>,
    side: Seq<u8>,
    places: Seq<(DiffHunkKind, Sides)>,
)
    requires
        hunks_tile(places),
        hunks_in_bounds(places, input_lens(pair_of(base, side))),
        forall|k: int| 0 <= k < 2 && places.len() > 0 ==> (#[trigger] places[0].1[k]).start == 0,
        forall|k: int|
            0 <= k < 2 && places.len() > 0 ==> (#[trigger] places[places.len() - 1].1[k]).end
                == pair_of(base, side)[k].len(),
        places.len() == 0 ==> base.len() == 0 && side.len() == 0,
        forall|i: int| 0 <= i < places.len() ==> region_cut(pair_of(base, side), (#[trigger] places[i]).1),
        forall|i: int|
            0 <= i < places.len() && (#[trigger] places[i]).0 == DiffHunkKind::Matching
                ==> contents_agree(pair_of(base, side), places[i].1),
    ensures
        is_whole_line_diff(base, side, with_texts(pair_of(base, side), places)),
{
    let texts = pair_of(base, side);
    let hunks = with_texts(texts, places);
    let n = places.len() as int;
    assert(texts[0] == base && texts[1] == side);
    lemma_held(texts, places, 0, n);
    lemma_held(texts, places, 1, n);
    assert forall|i: int| 0 <= i < hunks.len() implies #[trigger] hunk_in_place(texts, hunks, i) by {
        let sides = places[i].1;
        assert(region_in_bounds(sides, input_lens(texts)));
        assert(region_cut(texts, sides));
        assert(hunks[i].1 == contents_of(texts, sides));
        assert forall|k: int| #![trigger texts[k]] 0 <= k < 2 implies is_cut(
            texts[k],
            held(hunks, k, i),
        ) && is_cut(texts[k], held(hunks, k, i + 1)) && hunks[i].1[k] == texts[k].subrange(
            held(hunks, k, i),
            held(hunks, k, i + 1),
        ) by {
            lemma_held(texts, places, k, i);
            lemma_held(texts, places, k, i + 1);
            if i + 1 < n {
                assert(joins_next(places, i));
            }
            assert(held(hunks, k, i) == sides[k].start);
            assert(held(hunks, k, i + 1) == sides[k].end);
        }
        if hunks[i].0 == DiffHunkKind::Matching {
            assert(contents_agree(texts, sides));
            assert(hunks[i].1[1] == texts[1].subrange(sides[1].start as int, sides[1].end as int));
            assert(hunks[i].1[0] == texts[0].subrange(sides[0].start as int, sides[0].end as int));
        }
    }
}

/// The hunks of a diff by lines of a base and a side are a diff of whole
/// lines.
pub proof fn lemma_pair_diff_whole_lines(
    base: Seq<u8>,
    side: Seq<u8>,
    hunks: Seq<(DiffHunkKind, Seq<Seq<u8>>)>,
)
    requires
        is_pair_diff(base, side, hunks),
    ensures
        is_whole_line_diff(base, side, hunks),
{
    let texts = pair_of(base, side);
    let lens = input_lens(texts);
    let regions = choose|regions: Seq<Sides>| #[trigger]
        is_diff_of(texts, regions) && hunks == hunks_of(texts, regions);
    let places = spec_hunks(regions);
    assert(hunks =~= with_texts(texts, places));
    let slices = choose|slices: Seq<&[u8]>|
        inputs_view(slices) == texts && #[trigger] is_diff_under(
            &find_line_ranges,
            &&CompareBytesExactly,
            slices,
            regions,
        );
    assert(slices.len() == 2) by {
        assert(inputs_view(slices).len() == texts.len());
    }
    lemma_line_regions_cut(slices, regions);
    lemma_hunks_cut(texts, regions, 0, all_empty(regions[0]));
    lemma_matching_hunks_agree(texts, regions, 0, all_empty(regions[0]));
    lemma_remaining_hunks(regions, lens, 0, all_empty(regions[0]));
    lemma_remaining_hunks_tile(regions, lens, 0, all_empty(regions[0]));
    lemma_hunks_reach_end(regions, lens, 0, all_empty(regions[0]));
    assert(region_in_bounds(regions[0], lens));
    assert(region_in_bounds(regions[regions.len() - 1], lens));
    assert(lens[0] == base.len() && lens[1] == side.len());
    let last = regions[regions.len() - 1];
    if places.len() > 0 {
        assert forall|k: int| 0 <= k < 2 implies (#[trigger] places[places.len() - 1].1[k]).end
            == texts[k].len() by {
            assert(places[places.len() - 1] == places.last());
            assert(places.last().1[k].end == last[k].end);
            assert(last[k].end == lens[k]);
        }
        assert forall|k: int| 0 <= k < 2 implies (#[trigger] places[0].1[k]).start == 0 by {
            assert(regions[0][k].start == 0);
            assert(regions[0][k].start <= regions[0][k].end);
        }
    } else {
        assert(regions[0][0].start == 0 && regions[0][1].start == 0);
        assert(last[0].end == lens[0] && last[1].end == lens[1]);
    }
    lemma_places_whole_lines(base, side, places);
}

/// A line holds no line feed before its end, and ends with one unless
/// the text ends with it.
pub proof fn lemma_line_shape(text: Seq<u8>, from: int)
    requires
        0 <= from < text.len(),
    ensures
        from < line_end(text, from) <= text.len(),
        forall|i: int| from <= i < line_end(text, from) - 1 ==> #[trigger] text[i] != 0x0a,
        line_end(text, from) < text.len() ==> text[line_end(text, from) - 1] == 0x0a,
    decreases text.len() - from,
{
    lemma_line_end(text, from);
    reveal_with_fuel(line_end, 2);
    if text[from] != 0x0a && from + 1 < text.len() {
        lemma_line_shape(text, from + 1);
    }
}

/// Lines, each behind `prefix` and with a line feed at its end.
pub open spec fn prefixed(prefix: u8, lines: Seq<Seq<u8>>) -> Seq<Seq<u8>> {
    Seq::new(lines.len(), |i: int| seq![prefix] + with_newline(lines[i]))
}

/// Lines put together, each with a line feed at its end.
pub open spec fn joined_newlined(lines: Seq<Seq<u8>>) -> Seq<u8>
    decreases lines.len(),
{
    if lines.len() == 0 {
        Seq::empty()
    } else {
        with_newline(lines[0]) + joined_newlined(lines.drop_first())
    }
}

/// One line behind a prefix, with a line feed at its end, is one line.
proof fn lemma_prefixed_line(prefix: u8, text: Seq<u8>, from: int)
    requires
        prefix != 0x0a,
        0 <= from < text.len(),
    ensures
        ({
            let line = text.subrange(from, line_end(text, from));
            let chunk = seq![prefix] + with_newline(line);
            &&& ends_lines(chunk)
            &&& chunk.len() > 0
            &&& lines_of(chunk) == seq![chunk]
        }),
{
    lemma_line_shape(text, from);
    let end = line_end(text, from);
    let line = text.subrange(from, end);
    let closed = with_newline(line);
    let chunk = seq![prefix] + closed;
    assert(closed.len() > 0 && closed.last() == 0x0a);
    assert(chunk.last() == closed.last());
    assert forall|i: int| 0 <= i < chunk.drop_last().len() implies #[trigger] chunk.drop_last()[i]
        != 0x0a by {
        if i > 0 {
            assert(chunk[i] == closed[i - 1]);
            if i - 1 < line.len() {
                assert(closed[i - 1] == line[i - 1]);
                assert(line[i - 1] == text[from + i - 1]);
            }
        }
    }
    lemma_one_line(chunk, 0);
    assert(lines_from(chunk, chunk.len() as int) =~= Seq::<Seq<u8>>::empty());
    assert(chunk.subrange(0, chunk.len() as int) =~= chunk);
    assert(lines_of(chunk) =~= seq![chunk]);
}

/// The lines of a text, each behind a prefix, are lines one by one.
pub proof fn lemma_prefixed_lines(prefix: u8, text: Seq<u8>, from: int)
    requires
        prefix != 0x0a,
        0 <= from <= text.len(),
    ensures
        ends_lines(prefixed_lines(prefix, text, from)),
        lines_of(prefixed_lines(prefix, text, from)) == prefixed(prefix, lines_from(text, from)),
    decreases text.len() - from,
{
    let all = prefixed_lines(prefix, text, from);
    if from < text.len() {
        lemma_line_end(text, from);
        let end = line_end(text, from);
        let line = text.subrange(from, end);
        let chunk = seq![prefix] + with_newline(line);
        let rest = prefixed_lines(prefix, text, end);
        lemma_prefixed_line(prefix, text, from);
        lemma_prefixed_lines(prefix, text, end);
        assert(all =~= chunk + rest);
        lemma_ends_lines_concat(chunk, rest);
        lemma_lines_concat(chunk, rest, 0);
        let lines = lines_from(text, from);
        assert(lines[0] == line);
        assert(lines.drop_first() =~= lines_from(text, end));
        assert(lines_of(all) =~= prefixed(prefix, lines));
    } else {
        assert(lines_of(all) =~= prefixed(prefix, lines_from(text, from)));
    }
}

/// The lines of a text put together, each with a line feed at its end,
/// are the text with a line feed at its end.
pub proof fn lemma_joined_newlined(text: Seq<u8>, from: int)
    requires
        0 <= from <= text.len(),
    ensures
        joined_newlined(lines_from(text, from)) == with_newline(
            text.subrange(from, text.len() as int),
        ),
    decreases text.len() - from,
{
    let tail = text.subrange(from, text.len() as int);
    if from < text.len() {
        lemma_line_shape(text, from);
        let end = line_end(text, from);
        let line = text.subrange(from, end);
        let lines = lines_from(text, from);
        assert(lines[0] == line);
        assert(lines.drop_first() =~= lines_from(text, end));
        lemma_joined_newlined(text, end);
        let rest = text.subrange(end, text.len() as int);
        assert(tail =~= line + rest);
        if end < text.len() {
            assert(line.last() == text[end - 1]);
            assert(with_newline(line) == line);
            assert(rest.len() > 0);
            assert(tail.last() == rest.last());
            assert(with_newline(tail) =~= line + with_newline(rest));
        } else {
            assert(rest =~= Seq::<u8>::empty());
            assert(tail =~= line);
            assert(with_newline(line) + Seq::<u8>::empty() =~= with_newline(line));
        }
    } else {
        assert(tail =~= Seq::<u8>::empty());
    }
}

/// The state of a reader in a diff with `text` at the end of what the
/// prefix says: of the base behind `-`, of the side behind `+`, of both
/// behind a space.
pub open spec fn diff_with(state: SectionsView, prefix: u8, text: Seq<u8>) -> SectionsView {
    if prefix == 0x2d {
        SectionsView { removes: append_last(state.removes, text), ..state }
    } else if prefix == 0x2b {
        SectionsView { adds: append_last(state.adds, text), ..state }
    } else {
        SectionsView {
            removes: append_last(state.removes, text),
            adds: append_last(state.adds, text),
            ..state
        }
    }
}

/// The reader stands in a diff and has not failed.
pub open spec fn in_diff(state: SectionsView) -> bool {
    state.kind == SectionKind::Diff && !state.failed && state.removes.len() > 0
        && state.adds.len() > 0
}

/// To put two texts at the end of the last one is to put them there
/// together.
proof fn lemma_append_twice(texts: Seq<Seq<u8>>, a: Seq<u8>, b: Seq<u8>)
    requires
        texts.len() > 0,
    ensures
        append_last(append_last(texts, a), b) == append_last(texts, a + b),
        append_last(texts, Seq::<u8>::empty()) == texts,
{
    assert(texts.last() + a + b =~= texts.last() + (a + b));
    assert(append_last(append_last(texts, a), b) =~= append_last(texts, a + b));
    assert(texts.last() + Seq::<u8>::empty() =~= texts.last());
    assert(append_last(texts, Seq::<u8>::empty()) =~= texts);
}

/// Lines behind a prefix of a diff that begin with no marker go to the
/// base, to the side, or to both, as the prefix says.
pub proof fn lemma_read_prefixed(
    prefix: u8,
    lines: Seq<Seq<u8>>,
    marker_len: int,
    state: SectionsView,
)
    requires
        prefix == 0x2d || prefix == 0x2b || prefix == 0x20,
        in_diff(state),
        no_marker_lines(prefixed(prefix, lines), marker_len),
    ensures
        read_lines(prefixed(prefix, lines), state, sections_reader(marker_len)) == diff_with(
            state,
            prefix,
            joined_newlined(lines),
        ),
    decreases lines.len(),
{
    lemma_append_twice(state.removes, Seq::empty(), Seq::empty());
    lemma_append_twice(state.adds, Seq::empty(), Seq::empty());
    if lines.len() > 0 {
        let all = prefixed(prefix, lines);
        let first = all[0];
        let text = with_newline(lines[0]);
        assert(first == seq![prefix] + text);
        assert(first[0] == prefix);
        assert(first.subrange(1, first.len() as int) =~= text);
        assert(spec_marker(first, marker_len).is_none());
        let next = sections_step(state, first, marker_len);
        assert(next == diff_with(state, prefix, text));
        let rest = lines.drop_first();
        assert(all.drop_first() =~= prefixed(prefix, rest));
        assert forall|i: int| 0 <= i < prefixed(prefix, rest).len() implies spec_marker(
            #[trigger] prefixed(prefix, rest)[i],
            marker_len,
        ).is_none() by {
            assert(prefixed(prefix, rest)[i] == all[i + 1]);
        }
        lemma_read_prefixed(prefix, rest, marker_len, next);
        lemma_append_twice(state.removes, text, joined_newlined(rest));
        lemma_append_twice(state.adds, text, joined_newlined(rest));
    }
}

/// No line of the hunk begins with a marker when it stands behind its
/// prefix in a diff.
pub open spec fn hunk_plain(contents: Seq<Seq<u8>>, marker_len: int) -> bool {
    &&& no_marker_lines(prefixed(0x2d, lines_of(contents[0])), marker_len)
    &&& no_marker_lines(prefixed(0x2b, lines_of(contents[1])), marker_len)
}

/// No line of a hunk begins with a marker when it stands behind its
/// prefix in a diff.
pub open spec fn hunks_plain(hunks: Seq<(DiffHunkKind, Seq<Seq<u8>>)>, marker_len: int) -> bool {
    forall|i: int| 0 <= i < hunks.len() ==> hunk_plain((#[trigger] hunks[i]).1, marker_len)
}

/// The texts that the first `upto` hunks hold of the text `k`, each with
/// a line feed at its end, put together.
pub open spec fn newlined_held(hunks: Seq<(DiffHunkKind, Seq<Seq<u8>>)>, k: int, upto: int) -> Seq<
    u8,
>
    decreases upto,
{
    if upto <= 0 {
        Seq::empty()
    } else {
        newlined_held(hunks, k, upto - 1) + with_newline(hunks[upto - 1].1[k])
    }
}

/// The state of a reader in a diff with more of the base and of the side.
pub open spec fn diff_both(state: SectionsView, base: Seq<u8>, side: Seq<u8>) -> SectionsView {
    SectionsView {
        removes: append_last(state.removes, base),
        adds: append_last(state.adds, side),
        ..state
    }
}

/// A line behind a space begins with no marker.
proof fn lemma_space_lines(lines: Seq<Seq<u8>>, marker_len: int)
    ensures
        no_marker_lines(prefixed(0x20, lines), marker_len),
{
    assert forall|i: int| 0 <= i < prefixed(0x20, lines).len() implies spec_marker(
        #[trigger] prefixed(0x20, lines)[i],
        marker_len,
    ).is_none() by {
        let line = prefixed(0x20, lines)[i];
        assert(line == seq![0x20u8] + with_newline(lines[i]));
        assert(line[0] == 0x20);
    }
}

/// One hunk of a diff is read: what it holds of the base and of the side
/// goes to them, each with a line feed at its end.
pub proof fn lemma_read_hunk(
    kind: DiffHunkKind,
    contents: Seq<Seq<u8>>,
    marker_len: int,
    state: SectionsView,
)
    requires
        in_diff(state),
        contents.len() == 2,
        hunk_plain(contents, marker_len),
        kind == DiffHunkKind::Matching ==> contents[0] == contents[1],
    ensures
        ends_lines(diff_hunk_text(kind, contents)),
        no_conflict_bounds(lines_of(diff_hunk_text(kind, contents)), marker_len),
        read_lines(lines_of(diff_hunk_text(kind, contents)), state, sections_reader(marker_len))
            == diff_both(state, with_newline(contents[0]), with_newline(contents[1])),
{
    let reader = sections_reader(marker_len);
    let base = contents[0];
    let side = contents[1];
    lemma_joined_newlined(base, 0);
    lemma_joined_newlined(side, 0);
    assert(base.subrange(0, base.len() as int) =~= base);
    assert(side.subrange(0, side.len() as int) =~= side);
    if kind == DiffHunkKind::Matching {
        lemma_prefixed_lines(0x20, base, 0);
        lemma_space_lines(lines_of(base), marker_len);
        lemma_read_prefixed(0x20, lines_of(base), marker_len, state);
        lemma_plain_has_no_bounds(prefixed(0x20, lines_of(base)), marker_len);
    } else {
        let first = prefixed_lines(0x2d, base, 0);
        let second = prefixed_lines(0x2b, side, 0);
        lemma_prefixed_lines(0x2d, base, 0);
        lemma_prefixed_lines(0x2b, side, 0);
        lemma_ends_lines_concat(first, second);
        lemma_lines_concat(first, second, 0);
        lemma_read_prefixed(0x2d, lines_of(base), marker_len, state);
        let middle = diff_with(state, 0x2d, with_newline(base));
        lemma_read_prefixed(0x2b, lines_of(side), marker_len, middle);
        lemma_read_concat(lines_of(first), lines_of(second), state, reader);
        lemma_plain_has_no_bounds(lines_of(first), marker_len);
        lemma_plain_has_no_bounds(lines_of(second), marker_len);
        lemma_no_bounds_concat(lines_of(first), lines_of(second), marker_len);
    }
}

/// The first hunks of a diff are read: what they hold of the base and of
/// the side goes to them, each text with a line feed at its end.
pub proof fn lemma_read_hunks(
    hunks: Seq<(DiffHunkKind, Seq<Seq<u8>>)>,
    marker_len: int,
    state: SectionsView,
    upto: int,
)
    requires
        in_diff(state),
        0 <= upto <= hunks.len(),
        hunks_plain(hunks, marker_len),
        forall|i: int|
            0 <= i < hunks.len() ==> (#[trigger] hunks[i]).1.len() == 2 && (hunks[i].0
                == DiffHunkKind::Matching ==> hunks[i].1[0] == hunks[i].1[1]),
    ensures
        ends_lines(diff_hunks_text(hunks, upto)),
        no_conflict_bounds(lines_of(diff_hunks_text(hunks, upto)), marker_len),
        read_lines(lines_of(diff_hunks_text(hunks, upto)), state, sections_reader(marker_len))
            == diff_both(state, newlined_held(hunks, 0, upto), newlined_held(hunks, 1, upto)),
    decreases upto,
{
    let reader = sections_reader(marker_len);
    lemma_append_twice(state.removes, Seq::empty(), Seq::empty());
    lemma_append_twice(state.adds, Seq::empty(), Seq::empty());
    if upto == 0 {
        assert(lines_of(diff_hunks_text(hunks, 0)) =~= Seq::<Seq<u8>>::empty());
    } else {
        lemma_read_hunks(hunks, marker_len, state, upto - 1);
        let before = diff_hunks_text(hunks, upto - 1);
        let hunk = hunks[upto - 1];
        let text = diff_hunk_text(hunk.0, hunk.1);
        let middle = diff_both(
            state,
            newlined_held(hunks, 0, upto - 1),
            newlined_held(hunks, 1, upto - 1),
        );
        assert(hunk_plain(hunk.1, marker_len));
        lemma_read_hunk(hunk.0, hunk.1, marker_len, middle);
        lemma_ends_lines_concat(before, text);
        lemma_lines_concat(before, text, 0);
        lemma_read_concat(lines_of(before), lines_of(text), state, reader);
        lemma_no_bounds_concat(lines_of(before), lines_of(text), marker_len);
        lemma_append_twice(
            state.removes,
            newlined_held(hunks, 0, upto - 1),
            with_newline(hunk.1[0]),
        );
        lemma_append_twice(state.adds, newlined_held(hunks, 1, upto - 1), with_newline(hunk.1[1]));
    }
}

/// What the first hunks of a diff of whole lines hold of a text, each with
/// a line feed at its end, is the text up to there with a line feed at
/// its end.
pub proof fn lemma_newlined_held(
    base: Seq<u8>,
    side: Seq<u8>,
    hunks: Seq<(DiffHunkKind, Seq<Seq<u8>>)>,
    k: int,
    upto: int,
)
    requires
        is_whole_line_diff(base, side, hunks),
        0 <= k < 2,
        0 <= upto <= hunks.len(),
    ensures
        0 <= held(hunks, k, upto) <= pair_of(base, side)[k].len(),
        newlined_held(hunks, k, upto) == with_newline(
            pair_of(base, side)[k].subrange(0, held(hunks, k, upto)),
        ),
    decreases upto,
{
    let texts = pair_of(base, side);
    let text = texts[k];
    if upto == 0 {
        assert(text.subrange(0, 0) =~= Seq::<u8>::empty());
    } else {
        lemma_newlined_held(base, side, hunks, k, upto - 1);
        assert(hunk_in_place(texts, hunks, upto - 1));
        let from = held(hunks, k, upto - 1);
        let to = held(hunks, k, upto);
        let part = hunks[upto - 1].1[k];
        assert(is_cut(texts[k], from) && is_cut(texts[k], to));
        assert(part == text.subrange(from, to));
        let before = text.subrange(0, from);
        let all = text.subrange(0, to);
        assert(all =~= before + part);
        if part.len() == 0 {
            assert(all =~= before);
        } else {
            assert(from < text.len());
            if from > 0 {
                assert(before.last() == text[from - 1]);
            }
            assert(with_newline(before) == before);
            assert(all.last() == part.last());
            assert(with_newline(all) =~= before + with_newline(part));
        }
    }
}

/// The marker that the first line of a text begins with is that of a
/// section: of a side, of a base, or of a diff.
pub open spec fn begins_section(text: Seq<u8>, marker_len: int) -> bool {
    text.len() > 0 && ({
        let marker = spec_marker(lines_of(text)[0], marker_len);
        marker == Some(ConflictMarker::Add) || marker == Some(ConflictMarker::Remove) || marker
            == Some(ConflictMarker::Diff)
    })
}

/// What is read of a text.
pub open spec fn read_of(text: Seq<u8>, first: SectionsView, marker_len: int) -> SectionsView {
    read_lines(lines_of(text), first, sections_reader(marker_len))
}

/// By the text `more` behind `before`, the reader gains the bases
/// `removes` and the sides `adds`: the whole ends its lines, is read
/// without failure, keeps its first line, or begins with a section where
/// nothing stood before, and gains no line that begins or ends a conflict.
pub open spec fn reads_as(
    before: Seq<u8>,
    more: Seq<u8>,
    first: SectionsView,
    marker_len: int,
    removes: Seq<Seq<u8>>,
    adds: Seq<Seq<u8>>,
) -> bool {
    let after = before + more;
    &&& ends_lines(after)
    &&& !read_of(after, first, marker_len).failed
    &&& read_of(after, first, marker_len).removes == read_of(before, first, marker_len).removes
        + removes
    &&& read_of(after, first, marker_len).adds == read_of(before, first, marker_len).adds + adds
    &&& no_conflict_bounds(lines_of(before), marker_len) ==> no_conflict_bounds(
        lines_of(after),
        marker_len,
    )
    &&& before.len() == 0 ==> begins_section(after, marker_len)
    &&& before.len() > 0 ==> after.len() > 0 && lines_of(after)[0] == lines_of(before)[0]
}

/// The reader can go on behind the text: the text ends its lines and is
/// read without failure.
pub open spec fn can_go_on(before: Seq<u8>, first: SectionsView, marker_len: int) -> bool {
    ends_lines(before) && !read_of(before, first, marker_len).failed
}

/// What two texts give one behind the other, they give together.
pub proof fn lemma_reads_as_both(
    before: Seq<u8>,
    one: Seq<u8>,
    two: Seq<u8>,
    first: SectionsView,
    marker_len: int,
    removes1: Seq<Seq<u8>>,
    adds1: Seq<Seq<u8>>,
    removes2: Seq<Seq<u8>>,
    adds2: Seq<Seq<u8>>,
)
    requires
        reads_as(before, one, first, marker_len, removes1, adds1),
        reads_as(before + one, two, first, marker_len, removes2, adds2),
    ensures
        reads_as(before, one + two, first, marker_len, removes1 + removes2, adds1 + adds2),
{
    assert(before + (one + two) =~= before + one + two);
    let start = read_of(before, first, marker_len);
    assert(start.removes + removes1 + removes2 =~= start.removes + (removes1 + removes2));
    assert(start.adds + adds1 + adds2 =~= start.adds + (adds1 + adds2));
    if before.len() == 0 {
        assert(before + one =~= one);
        assert((before + one).len() > 0);
    }
}

/// A snapshot gives the reader its text, with a line feed at its end, as
/// one more side or one more base.
pub proof fn lemma_snapshot_reads(
    before: Seq<u8>,
    kind: ConflictMarker,
    marker_len: int,
    suffix: Seq<u8>,
    data: Seq<u8>,
    first: SectionsView,
)
    requires
        marker_len >= 1,
        kind == ConflictMarker::Add || kind == ConflictMarker::Remove,
        no_line_feed(suffix),
        is_plain(data, marker_len),
        can_go_on(before, first, marker_len),
    ensures
        kind == ConflictMarker::Add ==> reads_as(
            before,
            snapshot_text(kind, marker_len, suffix, data),
            first,
            marker_len,
            Seq::empty(),
            seq![with_newline(data)],
        ),
        kind == ConflictMarker::Remove ==> reads_as(
            before,
            snapshot_text(kind, marker_len, suffix, data),
            first,
            marker_len,
            seq![with_newline(data)],
            Seq::empty(),
        ),
{
    lemma_read_snapshot(before, kind, marker_len, suffix, data, first);
    lemma_marker_line(kind, marker_len, suffix);
    let start = read_of(before, first, marker_len);
    let text = with_newline(data);
    assert(start.adds.push(text) =~= start.adds + seq![text]);
    assert(start.removes.push(text) =~= start.removes + seq![text]);
    assert(start.adds + Seq::<Seq<u8>>::empty() =~= start.adds);
    assert(start.removes + Seq::<Seq<u8>>::empty() =~= start.removes);
    let after = before + snapshot_text(kind, marker_len, suffix, data);
    assert(after.len() > 0) by {
        assert(marker_line(kind, marker_len, suffix).len() > 0);
    }
}

/// A diff of whole lines under its marker line gives the reader the base
/// and the side of the diff, each with a line feed at its end.
pub proof fn lemma_diff_reads(
    before: Seq<u8>,
    marker_len: int,
    suffix: Seq<u8>,
    base: Seq<u8>,
    side: Seq<u8>,
    hunks: Seq<(DiffHunkKind, Seq<Seq<u8>>)>,
    first: SectionsView,
)
    requires
        marker_len >= 1,
        no_line_feed(suffix),
        is_whole_line_diff(base, side, hunks),
        hunks_plain(hunks, marker_len),
        can_go_on(before, first, marker_len),
    ensures
        reads_as(
            before,
            marker_line(ConflictMarker::Diff, marker_len, suffix) + diff_hunks_text(
                hunks,
                hunks.len() as int,
            ),
            first,
            marker_len,
            seq![with_newline(base)],
            seq![with_newline(side)],
        ),
{
    let reader = sections_reader(marker_len);
    let line = marker_line(ConflictMarker::Diff, marker_len, suffix);
    let n = hunks.len() as int;
    let lines_text = diff_hunks_text(hunks, n);
    let section = line + lines_text;
    let start = read_of(before, first, marker_len);
    lemma_marker_line(ConflictMarker::Diff, marker_len, suffix);
    let opened = read_lines(seq![line], start, reader);
    assert(opened == sections_step(start, line, marker_len)) by {
        reveal_with_fuel(read_lines, 2);
        assert(seq![line].drop_first() =~= Seq::<Seq<u8>>::empty());
    }
    assert(in_diff(opened));
    assert forall|i: int| 0 <= i < hunks.len() implies (#[trigger] hunks[i]).1.len() == 2 && (
    hunks[i].0 == DiffHunkKind::Matching ==> hunks[i].1[0] == hunks[i].1[1]) by {
        assert(hunk_in_place(pair_of(base, side), hunks, i));
    }
    lemma_read_hunks(hunks, marker_len, opened, n);
    lemma_newlined_held(base, side, hunks, 0, n);
    lemma_newlined_held(base, side, hunks, 1, n);
    assert(pair_of(base, side)[0] == base && pair_of(base, side)[1] == side);
    assert(base.subrange(0, base.len() as int) =~= base);
    assert(side.subrange(0, side.len() as int) =~= side);
    lemma_ends_lines_concat(line, lines_text);
    lemma_ends_lines_concat(before, section);
    lemma_lines_concat(line, lines_text, 0);
    lemma_lines_concat(before, section, 0);
    lemma_read_concat(lines_of(before), lines_of(section), first, reader);
    lemma_read_concat(seq![line], lines_of(lines_text), start, reader);
    let after = read_of(before + section, first, marker_len);
    let closed_base = with_newline(base);
    let closed_side = with_newline(side);
    assert(after.removes =~= start.removes + seq![closed_base]) by {
        assert(start.removes.push(Seq::<u8>::empty()).drop_last() =~= start.removes);
        assert(Seq::<u8>::empty() + closed_base =~= closed_base);
    }
    assert(after.adds =~= start.adds + seq![closed_side]) by {
        assert(start.adds.push(Seq::<u8>::empty()).drop_last() =~= start.adds);
        assert(Seq::<u8>::empty() + closed_side =~= closed_side);
    }
    if no_conflict_bounds(lines_of(before), marker_len) {
        lemma_no_bounds_concat(seq![line], lines_of(lines_text), marker_len);
        lemma_no_bounds_concat(lines_of(before), lines_of(section), marker_len);
    }
    if before.len() > 0 {
        lemma_line_end(before, 0);
    }
    assert(section.len() > 0) by {
        assert(line.len() > 0);
    }
}

/// No line of a diff of the plan begins with a marker when it stands
/// behind its prefix.
pub open spec fn plan_plain(plan: Seq<StepView>, marker_len: int) -> bool {
    forall|b: int|
        0 <= b < plan.len() ==> match #[trigger] plan[b] {
            StepView::Diff(hunks) => hunks_plain(hunks, marker_len),
            StepView::SideAndDiff(hunks) => hunks_plain(hunks, marker_len),
            _ => true,
        }
}

/// The first `count` bases, each with a line feed at its end.
pub open spec fn closed_bases(terms: Seq<Seq<u8>>, count: int) -> Seq<Seq<u8>> {
    Seq::new(count as nat, |k: int| with_newline(terms[2 * k + 1]))
}

/// The sides from `from` on, `count` of them, each with a line feed at
/// its end.
pub open spec fn closed_sides(terms: Seq<Seq<u8>>, from: int, count: int) -> Seq<Seq<u8>> {
    Seq::new(count as nat, |k: int| with_newline(terms[2 * (from + k)]))
}

/// The words on the marker line of a diff hold no line feed.
proof fn lemma_diff_header(
    base_index: int,
    num_bases: int,
    add_index: int,
    hunks: Seq<(DiffHunkKind, Seq<Seq<u8>>)>,
)
    requires
        base_index >= 0,
        add_index >= 0,
    ensures
        no_line_feed(
            "Changes from ".spec_bytes() + base_name(base_index, num_bases)
                + " to side #".spec_bytes() + spec_decimal((add_index + 1) as nat)
                + diff_eol_comment(hunks),
        ),
{
    reveal_strlit("Changes from ");
    reveal_strlit(" to side #");
    reveal_strlit(" (adds terminating newline)");
    reveal_strlit(" (removes terminating newline)");
    lemma_ascii_no_line_feed("Changes from ");
    lemma_ascii_no_line_feed(" to side #");
    lemma_ascii_no_line_feed(" (adds terminating newline)");
    lemma_ascii_no_line_feed(" (removes terminating newline)");
    lemma_snapshot_words();
    lemma_decimal_no_line_feed((base_index + 1) as nat);
    lemma_decimal_no_line_feed((add_index + 1) as nat);
    lemma_no_line_feed_concat("base #".spec_bytes(), spec_decimal((base_index + 1) as nat));
    let name = base_name(base_index, num_bases);
    let one = "Changes from ".spec_bytes() + name;
    lemma_no_line_feed_concat("Changes from ".spec_bytes(), name);
    let two = one + " to side #".spec_bytes();
    lemma_no_line_feed_concat(one, " to side #".spec_bytes());
    let three = two + spec_decimal((add_index + 1) as nat);
    lemma_no_line_feed_concat(two, spec_decimal((add_index + 1) as nat));
    lemma_no_line_feed_concat(three, diff_eol_comment(hunks));
}

/// The snapshot of a side gives the reader the side.
proof fn lemma_side_reads(
    terms: Seq<Seq<u8>>,
    marker_len: int,
    a: int,
    before: Seq<u8>,
    first: SectionsView,
)
    requires
        marker_len >= 1,
        all_plain(terms, marker_len),
        0 <= a,
        2 * a < terms.len(),
        can_go_on(before, first, marker_len),
    ensures
        reads_as(
            before,
            side_text(a, terms[2 * a], marker_len),
            first,
            marker_len,
            Seq::empty(),
            closed_sides(terms, a, 1),
        ),
{
    let side = terms[2 * a];
    let header = "Contents of side #".spec_bytes() + spec_decimal((a + 1) as nat) + no_eol_comment(
        side,
    );
    lemma_side_header(a, side);
    assert(is_plain(side, marker_len));
    lemma_snapshot_reads(before, ConflictMarker::Add, marker_len, header, side, first);
    assert(side_text(a, side, marker_len) == snapshot_text(
        ConflictMarker::Add,
        marker_len,
        header,
        side,
    ));
    assert(closed_sides(terms, a, 1) =~= seq![with_newline(side)]);
}

/// The snapshot of a base gives the reader the base.
proof fn lemma_base_reads(
    terms: Seq<Seq<u8>>,
    marker_len: int,
    b: int,
    before: Seq<u8>,
    first: SectionsView,
)
    requires
        marker_len >= 1,
        all_plain(terms, marker_len),
        0 <= b,
        2 * b + 1 < terms.len(),
        can_go_on(before, first, marker_len),
    ensures
        reads_as(
            before,
            base_text(base_name(b, terms.len() as int / 2), terms[2 * b + 1], marker_len),
            first,
            marker_len,
            seq![with_newline(terms[2 * b + 1])],
            Seq::empty(),
        ),
{
    let base = terms[2 * b + 1];
    let header = "Contents of ".spec_bytes() + base_name(b, terms.len() as int / 2)
        + no_eol_comment(base);
    lemma_base_header(b, terms.len() as int / 2, base);
    assert(is_plain(base, marker_len));
    lemma_snapshot_reads(before, ConflictMarker::Remove, marker_len, header, base, first);
}

/// The diff from a base to a side gives the reader the base and the side.
proof fn lemma_pair_reads(
    terms: Seq<Seq<u8>>,
    marker_len: int,
    b: int,
    a: int,
    hunks: Seq<(DiffHunkKind, Seq<Seq<u8>>)>,
    before: Seq<u8>,
    first: SectionsView,
)
    requires
        marker_len >= 1,
        0 <= b,
        0 <= a,
        2 * b + 1 < terms.len(),
        2 * a < terms.len(),
        is_pair_diff(terms[2 * b + 1], terms[2 * a], hunks),
        hunks_plain(hunks, marker_len),
        can_go_on(before, first, marker_len),
    ensures
        reads_as(
            before,
            diff_text(base_name(b, terms.len() as int / 2), a, hunks, marker_len),
            first,
            marker_len,
            seq![with_newline(terms[2 * b + 1])],
            closed_sides(terms, a, 1),
        ),
{
    let base = terms[2 * b + 1];
    let side = terms[2 * a];
    let header = "Changes from ".spec_bytes() + base_name(b, terms.len() as int / 2)
        + " to side #".spec_bytes() + spec_decimal((a + 1) as nat) + diff_eol_comment(hunks);
    lemma_diff_header(b, terms.len() as int / 2, a, hunks);
    lemma_pair_diff_whole_lines(base, side, hunks);
    lemma_diff_reads(before, marker_len, header, base, side, hunks, first);
    assert(closed_sides(terms, a, 1) =~= seq![with_newline(side)]);
}

/// A step of a plan gives the reader its base and the sides that it
/// takes.
pub proof fn lemma_step_reads(
    terms: Seq<Seq<u8>>,
    style: ConflictMarkerStyle,
    marker_len: int,
    b: int,
    a: int,
    step: StepView,
    before: Seq<u8>,
    first: SectionsView,
)
    requires
        terms.len() % 2 == 1,
        marker_len >= 1,
        all_plain(terms, marker_len),
        0 <= b,
        0 <= a,
        2 * a <= terms.len() + 1,
        2 * b + 1 < terms.len(),
        step_valid(terms, style, b, a, step),
        match step {
            StepView::Diff(hunks) => hunks_plain(hunks, marker_len),
            StepView::SideAndDiff(hunks) => hunks_plain(hunks, marker_len),
            _ => true,
        },
        can_go_on(before, first, marker_len),
    ensures
        2 * (a + step_adds(step)) <= terms.len() + 1,
        reads_as(
            before,
            step_text(terms, b, a, step, marker_len),
            first,
            marker_len,
            seq![with_newline(terms[2 * b + 1])],
            closed_sides(terms, a, step_adds(step)),
        ),
{
    reveal(step_valid);
    reveal(step_text);
    let name = base_name(b, terms.len() as int / 2);
    let none = Seq::<Seq<u8>>::empty();
    match step {
        StepView::BaseOnly => {
            lemma_base_reads(terms, marker_len, b, before, first);
            assert(closed_sides(terms, a, 0) =~= none);
        },
        StepView::SideAndBase => {
            lemma_side_reads(terms, marker_len, a, before, first);
            let side = side_text(a, terms[2 * a], marker_len);
            lemma_base_reads(terms, marker_len, b, before + side, first);
            lemma_reads_as_both(
                before,
                side,
                base_text(name, terms[2 * b + 1], marker_len),
                first,
                marker_len,
                none,
                closed_sides(terms, a, 1),
                seq![with_newline(terms[2 * b + 1])],
                none,
            );
            assert(none + seq![with_newline(terms[2 * b + 1])] =~= seq![
                with_newline(terms[2 * b + 1]),
            ]);
            assert(closed_sides(terms, a, 1) + none =~= closed_sides(terms, a, 1));
        },
        StepView::Diff(hunks) => {
            lemma_pair_reads(terms, marker_len, b, a, hunks, before, first);
        },
        StepView::SideAndDiff(hunks) => {
            lemma_side_reads(terms, marker_len, a, before, first);
            let side = side_text(a, terms[2 * a], marker_len);
            lemma_pair_reads(terms, marker_len, b, a + 1, hunks, before + side, first);
            lemma_reads_as_both(
                before,
                side,
                diff_text(name, a + 1, hunks, marker_len),
                first,
                marker_len,
                none,
                closed_sides(terms, a, 1),
                seq![with_newline(terms[2 * b + 1])],
                closed_sides(terms, a + 1, 1),
            );
            assert(none + seq![with_newline(terms[2 * b + 1])] =~= seq![
                with_newline(terms[2 * b + 1]),
            ]);
            assert(closed_sides(terms, a, 1) + closed_sides(terms, a + 1, 1) =~= closed_sides(
                terms,
                a,
                2,
            ));
        },
    }
}

/// The first state of a reader.
pub open spec fn nothing_yet() -> SectionsView {
    SectionsView {
        kind: SectionKind::Unknown,
        removes: Seq::empty(),
        adds: Seq::empty(),
        failed: false,
    }
}

/// What is read of the first `b` steps of a plan: the bases and the
/// sides that the steps take, each with a line feed at its end.
pub open spec fn steps_read(
    terms: Seq<Seq<u8>>,
    plan: Seq<StepView>,
    marker_len: int,
    b: int,
) -> bool {
    let text = steps_text(terms, plan, marker_len, b);
    let state = read_of(text, nothing_yet(), marker_len);
    &&& can_go_on(text, nothing_yet(), marker_len)
    &&& state.removes == closed_bases(terms, b)
    &&& state.adds == closed_sides(terms, 0, adds_used(plan, b))
    &&& 0 <= adds_used(plan, b)
    &&& 2 * adds_used(plan, b) <= terms.len() + 1
    &&& no_conflict_bounds(lines_of(text), marker_len)
    &&& b > 0 ==> begins_section(text, marker_len)
    &&& b == 0 ==> text.len() == 0
}

/// The steps of a plan are read back.
pub proof fn lemma_steps_read(
    terms: Seq<Seq<u8>>,
    style: ConflictMarkerStyle,
    plan: Seq<StepView>,
    marker_len: int,
    b: int,
)
    requires
        terms.len() % 2 == 1,
        plan.len() == terms.len() / 2,
        steps_valid(terms, style, plan),
        marker_len >= 1,
        all_plain(terms, marker_len),
        plan_plain(plan, marker_len),
        0 <= b <= plan.len(),
    ensures
        steps_read(terms, plan, marker_len, b),
    decreases b,
{
    let first = nothing_yet();
    if b == 0 {
        let text = steps_text(terms, plan, marker_len, 0);
        assert(lines_of(text) =~= Seq::<Seq<u8>>::empty());
        assert(read_of(text, first, marker_len).removes =~= closed_bases(terms, 0));
        assert(read_of(text, first, marker_len).adds =~= closed_sides(terms, 0, 0));
    } else {
        lemma_steps_read(terms, style, plan, marker_len, b - 1);
        let before = steps_text(terms, plan, marker_len, b - 1);
        let a = adds_used(plan, b - 1);
        let step = plan[b - 1];
        assert(step_valid(terms, style, b - 1, a, step));
        lemma_step_reads(terms, style, marker_len, b - 1, a, step, before, first);
        let more = step_text(terms, b - 1, a, step, marker_len);
        let text = steps_text(terms, plan, marker_len, b);
        assert(text == before + more);
        let state = read_of(text, first, marker_len);
        assert(state.removes =~= closed_bases(terms, b));
        assert(state.adds =~= closed_sides(terms, 0, adds_used(plan, b)));
        if b - 1 > 0 {
            assert(before.len() > 0);
        }
    }
}

/// The snapshots of the sides that are left are read back.
pub proof fn lemma_sides_read(
    terms: Seq<Seq<u8>>,
    marker_len: int,
    before: Seq<u8>,
    from: int,
)
    requires
        terms.len() % 2 == 1,
        marker_len >= 1,
        all_plain(terms, marker_len),
        0 <= from,
        2 * from <= terms.len() + 1,
        can_go_on(before, nothing_yet(), marker_len),
        before.len() > 0,
    ensures
        ({
            let after = before + sides_text(terms, from, marker_len);
            let count = (terms.len() + 1) / 2 - from;
            &&& can_go_on(after, nothing_yet(), marker_len)
            &&& read_of(after, nothing_yet(), marker_len).removes == read_of(
                before,
                nothing_yet(),
                marker_len,
            ).removes
            &&& read_of(after, nothing_yet(), marker_len).adds == read_of(
                before,
                nothing_yet(),
                marker_len,
            ).adds + closed_sides(terms, from, count)
            &&& no_conflict_bounds(lines_of(before), marker_len) ==> no_conflict_bounds(
                lines_of(after),
                marker_len,
            )
            &&& after.len() > 0
            &&& lines_of(after)[0] == lines_of(before)[0]
        }),
    decreases terms.len() - from,
{
    let first = nothing_yet();
    let start = read_of(before, first, marker_len);
    let count = (terms.len() + 1) / 2 - from;
    if 2 * from >= terms.len() {
        assert(before + sides_text(terms, from, marker_len) =~= before);
        assert(start.adds + closed_sides(terms, from, count) =~= start.adds);
    } else {
        let side = side_text(from, terms[2 * from], marker_len);
        lemma_side_reads(terms, marker_len, from, before, first);
        lemma_sides_read(terms, marker_len, before + side, from + 1);
        let rest = sides_text(terms, from + 1, marker_len);
        assert(before + sides_text(terms, from, marker_len) =~= before + side + rest);
        assert(start.adds + closed_sides(terms, from, 1) + closed_sides(terms, from + 1, count - 1)
            =~= start.adds + closed_sides(terms, from, count));
        assert(start.removes + Seq::<Seq<u8>>::empty() =~= start.removes);
    }
}

/// A conflict that was written by a plan is read back as its terms, each
/// with a line feed at its end, where no line of a term begins with a
/// marker of the length that the conflict was written with, nor a line of
/// a diff of the plan behind its prefix.
pub proof fn lemma_planned_round_trip(
    terms: Seq<Seq<u8>>,
    style: ConflictMarkerStyle,
    plan: Seq<StepView>,
    marker_len: int,
)
    requires
        terms.len() % 2 == 1,
        terms.len() >= 3,
        plan.len() == terms.len() / 2,
        steps_valid(terms, style, plan),
        marker_len >= 1,
        all_plain(terms, marker_len),
        plan_plain(plan, marker_len),
    ensures
        spec_conflict_hunk(planned_body(terms, plan, marker_len), marker_len) == newlined(terms),
        ends_lines(planned_body(terms, plan, marker_len)),
        no_conflict_bounds(lines_of(planned_body(terms, plan, marker_len)), marker_len),
{
    let n = plan.len() as int;
    let first = nothing_yet();
    lemma_steps_read(terms, style, plan, marker_len, n);
    let before = steps_text(terms, plan, marker_len, n);
    let a = adds_used(plan, n);
    lemma_sides_read(terms, marker_len, before, a);
    let body = planned_body(terms, plan, marker_len);
    assert(body == before + sides_text(terms, a, marker_len));
    let state = read_of(body, first, marker_len);
    lemma_sections_scan(body, marker_len, 0, first);
    let count = (terms.len() + 1) / 2 - a;
    assert(state.adds =~= closed_sides(terms, 0, a + count));
    assert(state.removes =~= closed_bases(terms, n));
    assert(interleaved(state.removes, state.adds) =~= newlined(terms));
    assert(spec_jj_style_hunk(body, marker_len) == newlined(terms));
    lemma_line_end(body, 0);
    assert(lines_of(body)[0] == body.subrange(0, line_end(body, 0)));
}

} // verus!
