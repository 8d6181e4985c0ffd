//! What a file holds, line by line.

use vstd::prelude::*;

use crate::entry::PathEntryView;

verus! {

/// A line of the text holds the entry.
pub open spec fn in_text(text: Option<Seq<char>>, e: PathEntryView) -> bool {
    exists|l: int|
        0 <= l < crate::file_utils::file_lines(text).len() && PathEntryView::of_line(
            #[trigger] crate::file_utils::file_lines(text)[l],
        ) == Some(e)
}

/// Every line of the text for the path and key of the entry holds an older one.
pub open spec fn is_new_to(text: Option<Seq<char>>, e: PathEntryView) -> bool {
    forall|x: PathEntryView| #[trigger]
        in_text(text, x) && x.path == e.path && x.entry.key.same(e.entry.key)
            ==> crate::order::text_before(x.entry.datetime, e.entry.datetime)
}

/// No line of the text for the path and key of the entry holds a newer one.
pub open spec fn is_newest_in(text: Option<Seq<char>>, e: PathEntryView) -> bool {
    forall|x: PathEntryView| #[trigger]
        in_text(text, x) && x.path == e.path && x.entry.key.same(e.entry.key)
            ==> !crate::order::text_before(e.entry.datetime, x.entry.datetime)
}

/// The line `l` counts: it holds the entry, no line holds a newer one for the same path and key,
/// and no line behind it one of the same time.
pub open spec fn line_counts(lines: Seq<Seq<char>>, l: int, e: PathEntryView) -> bool {
    &&& 0 <= l < lines.len()
    &&& PathEntryView::of_line(lines[l]) == Some(e)
    &&& forall|m: int|
        0 <= m < lines.len() ==> match PathEntryView::of_line(#[trigger] lines[m]) {
            Some(x) => x.path == e.path && x.entry.key.same(e.entry.key) ==> if m <= l {
                !crate::order::text_before(e.entry.datetime, x.entry.datetime)
            } else {
                crate::order::text_before(x.entry.datetime, e.entry.datetime)
            },
            None => true,
        }
}

/// What lines hold stands in one of them, in their order.
proof fn parsed_lines_are_lines(lines: Seq<Seq<char>>) -> (at: Seq<int>)
    ensures
        at.len() == crate::store::parsed(lines).len(),
        forall|k: int|
            0 <= k < at.len() ==> 0 <= #[trigger] at[k] < lines.len() && PathEntryView::of_line(
                lines[at[k]],
            ) == Some(crate::store::parsed(lines)[k]),
        forall|k: int, l: int| 0 <= k < l < at.len() ==> #[trigger] at[k] < #[trigger] at[l],
        forall|m: int|
            0 <= m < lines.len() && PathEntryView::of_line(#[trigger] lines[m]) is Some ==> exists|
                k: int,
            |
                0 <= k < at.len() && #[trigger] at[k] == m,
    decreases lines.len(),
{
    if lines.len() == 0 {
        seq![]
    } else {
        let rest = lines.drop_last();
        let n = lines.len() - 1;
        let before = parsed_lines_are_lines(rest);
        let some = crate::store::parsed(rest);
        assert(lines.last() == lines[n]);
        assert forall|k: int| 0 <= k < before.len() implies lines[#[trigger] before[k]]
            == rest[before[k]] by {}
        match PathEntryView::of_line(lines[n]) {
            Some(e) => {
                let at = before.push(n);
                assert(crate::store::parsed(lines) =~= some.push(e));
                assert forall|m: int|
                    0 <= m < lines.len() && PathEntryView::of_line(
                        #[trigger] lines[m],
                    ) is Some implies exists|k: int| 0 <= k < at.len() && #[trigger] at[k] == m by {
                    if m < n {
                        assert(rest[m] == lines[m]);
                        let k = choose|k: int| 0 <= k < before.len() && #[trigger] before[k] == m;
                        assert(at[k] == m);
                    } else {
                        assert(at[before.len() as int] == m);
                    }
                }
                at
            },
            None => {
                assert(crate::store::parsed(lines) =~= some);
                assert forall|m: int|
                    0 <= m < lines.len() && PathEntryView::of_line(
                        #[trigger] lines[m],
                    ) is Some implies exists|k: int|
                    0 <= k < before.len() && #[trigger] before[k] == m by {
                    assert(rest[m] == lines[m]);
                }
                before
            },
        }
    }
}

/// What lines hold are the entries of the lines.
pub proof fn parsed_are_the_lines(text: Option<Seq<char>>, e: PathEntryView)
    ensures
        crate::store::parsed(crate::file_utils::file_lines(text)).contains(e) <==> in_text(text, e),
{
    let lines = crate::file_utils::file_lines(text);
    let all = crate::store::parsed(lines);
    let at = parsed_lines_are_lines(lines);
    if all.contains(e) {
        let k = choose|k: int| 0 <= k < all.len() && all[k] == e;
        assert(PathEntryView::of_line(lines[at[k]]) == Some(e));
    }
    if in_text(text, e) {
        let l = choose|l: int|
            0 <= l < lines.len() && PathEntryView::of_line(#[trigger] lines[l]) == Some(e);
        let k = choose|k: int| 0 <= k < at.len() && #[trigger] at[k] == l;
        assert(all[k] == e);
    }
}

/// A file holds exactly the entries of the lines that count.
pub proof fn a_file_holds_the_lines_that_count(text: Option<Seq<char>>, e: PathEntryView)
    ensures
        crate::store::stored_entries(text).contains(e) <==> exists|l: int| #[trigger]
            line_counts(crate::file_utils::file_lines(text), l, e),
{
    let lines = crate::file_utils::file_lines(text);
    let all = crate::store::parsed(lines);
    let at = parsed_lines_are_lines(lines);
    if crate::store::stored_entries(text).contains(e) {
        let i = crate::laws::latest_stand_unreplaced(all, e);
        let l = at[i];
        assert forall|m: int| 0 <= m < lines.len() implies match PathEntryView::of_line(
            #[trigger] lines[m],
        ) {
            Some(x) => x.path == e.path && x.entry.key.same(e.entry.key) ==> if m <= l {
                !crate::order::text_before(e.entry.datetime, x.entry.datetime)
            } else {
                crate::order::text_before(x.entry.datetime, e.entry.datetime)
            },
            None => true,
        } by {
            match PathEntryView::of_line(lines[m]) {
                Some(x) => {
                    if x.path == e.path && x.entry.key.same(e.entry.key) {
                        let k = choose|k: int| 0 <= k < at.len() && #[trigger] at[k] == m;
                        assert(all[k] == x);
                        assert(x.same_slot(e));
                        assert(!crate::store::replaces(all, k, i));
                        crate::order::text_before_total(x.entry.datetime, e.entry.datetime);
                        if k < i {
                            assert(at[k] < at[i]);
                        } else if i < k {
                            assert(at[i] < at[k]);
                        }
                    }
                },
                None => {},
            }
        }
        assert(line_counts(lines, l, e));
    }
    if exists|l: int| #[trigger] line_counts(lines, l, e) {
        let l = choose|l: int| #[trigger] line_counts(lines, l, e);
        let i = choose|i: int| 0 <= i < at.len() && #[trigger] at[i] == l;
        if crate::store::is_replaced(all, i) {
            let k = choose|k: int|
                0 <= k < all.len() && #[trigger] crate::store::replaces(all, k, i);
            assert(PathEntryView::of_line(lines[at[k]]) == Some(all[k]));
            crate::order::text_before_irreflexive(e.entry.datetime);
            if k < i {
                assert(at[k] < at[i]);
            } else if i < k {
                assert(at[i] < at[k]);
                if crate::order::text_before(e.entry.datetime, all[k].entry.datetime) {
                    crate::order::text_before_transitive(
                        e.entry.datetime,
                        all[k].entry.datetime,
                        e.entry.datetime,
                    );
                }
            }
        }
        crate::laws::unreplaced_stand_in_latest(all, i);
    }
}

/// What a file holds stands in one of its lines, and none for the same path and key is newer.
pub proof fn stored_are_newest_lines(text: Option<Seq<char>>, e: PathEntryView)
    requires
        crate::store::stored_entries(text).contains(e),
    ensures
        in_text(text, e),
        is_newest_in(text, e),
{
    let lines = crate::file_utils::file_lines(text);
    a_file_holds_the_lines_that_count(text, e);
    let l = choose|l: int| #[trigger] line_counts(lines, l, e);
    assert(PathEntryView::of_line(lines[l]) == Some(e));
    assert forall|x: PathEntryView| #[trigger]
        in_text(text, x) && x.path == e.path && x.entry.key.same(
            e.entry.key,
        ) implies !crate::order::text_before(e.entry.datetime, x.entry.datetime) by {
        let m = choose|m: int|
            0 <= m < lines.len() && PathEntryView::of_line(#[trigger] lines[m]) == Some(x);
        if m > l && crate::order::text_before(e.entry.datetime, x.entry.datetime) {
            crate::order::text_before_transitive(
                e.entry.datetime,
                x.entry.datetime,
                e.entry.datetime,
            );
            crate::order::text_before_irreflexive(e.entry.datetime);
        }
    }
}

/// What is held for a path and key stands in one of the lines, and none for the same path and key
/// is newer; where none is held, no line is for the path and key.
pub proof fn the_newest_line_is_held(text: Option<Seq<char>>, slot: PathEntryView)
    ensures
        match crate::store::held(crate::store::stored_entries(text), slot) {
            Some(entry) => exists|x: PathEntryView| #[trigger]
                in_text(text, x) && is_newest_in(text, x) && x.path == slot.path
                    && x.entry.key.same(slot.entry.key) && x.entry == entry,
            None => forall|x: PathEntryView| #[trigger]
                in_text(text, x) ==> !(x.path == slot.path && x.entry.key.same(slot.entry.key)),
        },
{
    let stored = crate::store::stored_entries(text);
    let all = crate::store::parsed(crate::file_utils::file_lines(text));
    crate::laws::held_is_occupied(stored, slot);
    crate::laws::the_newest_line_counts(all, slot);
    crate::laws::held_is_occupied(all, slot);
    match crate::store::held(stored, slot) {
        Some(entry) => {
            let i = choose|i: int|
                0 <= i < stored.len() && (#[trigger] stored[i]).same_slot(slot) && stored[i].entry
                    == entry;
            assert(stored.contains(stored[i]));
            stored_are_newest_lines(text, stored[i]);
        },
        None => {
            assert forall|x: PathEntryView| #[trigger] in_text(text, x) implies !(x.path
                == slot.path && x.entry.key.same(slot.entry.key)) by {
                parsed_are_the_lines(text, x);
                let i = choose|i: int| 0 <= i < all.len() && all[i] == x;
                assert(!all[i].same_slot(slot));
            }
        },
    }
}

/// An entry is new to a file, or newer, exactly where all its lines for the path and key are
/// older.
pub proof fn fresh_entries_are_new(text: Option<Seq<char>>, e: PathEntryView)
    ensures
        crate::store::is_fresh(crate::store::stored_entries(text), false)(e) <==> is_new_to(text, e),
{
    the_newest_line_is_held(text, e);
    match crate::store::held(crate::store::stored_entries(text), e) {
        Some(entry) => {
            let y = choose|y: PathEntryView| #[trigger]
                in_text(text, y) && is_newest_in(text, y) && y.path == e.path && y.entry.key.same(
                    e.entry.key,
                ) && y.entry == entry;
            if crate::order::text_before(entry.datetime, e.entry.datetime) {
                assert forall|x: PathEntryView| #[trigger]
                    in_text(text, x) && x.path == e.path && x.entry.key.same(
                        e.entry.key,
                    ) implies crate::order::text_before(x.entry.datetime, e.entry.datetime) by {
                    crate::laws::slots_are_classes(y, e, x);
                    crate::laws::slots_are_classes(x, e, y);
                    assert(x.entry.key.same(y.entry.key));
                    crate::order::text_before_total(x.entry.datetime, entry.datetime);
                    if crate::order::text_before(x.entry.datetime, entry.datetime) {
                        crate::order::text_before_transitive(
                            x.entry.datetime,
                            entry.datetime,
                            e.entry.datetime,
                        );
                    }
                }
            }
        },
        None => {},
    }
}

} // verus!
