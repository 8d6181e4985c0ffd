//! What holds of the synchronization as a whole.

use vstd::prelude::*;

use crate::entry::{EntryView, PathEntryView};
use crate::listener::ListenerView;

verus! {

/// No two entries are for the same path and key.
pub open spec fn distinct_slots(entries: Seq<PathEntryView>) -> bool {
    forall|i: int, j: int|
        0 <= i < j < entries.len() ==> !(#[trigger] entries[i]).same_slot(#[trigger] entries[j])
}

/// Having the same path and key is an equivalence.
pub proof fn slots_are_classes(a: PathEntryView, b: PathEntryView, c: PathEntryView)
    ensures
        a.same_slot(a),
        a.same_slot(b) ==> b.same_slot(a),
        a.same_slot(b) && b.same_slot(c) ==> a.same_slot(c),
{
}

/// Where there is no entry for a path and key, none is held.
proof fn unoccupied_holds_nothing(entries: Seq<PathEntryView>, slot: PathEntryView)
    requires
        !crate::store::occupied(entries, slot),
    ensures
        crate::store::held(entries, slot) is None,
    decreases entries.len(),
{
    if entries.len() > 0 {
        let rest = entries.drop_last();
        assert(!entries[entries.len() - 1].same_slot(slot));
        assert forall|i: int| 0 <= i < rest.len() implies !(#[trigger] rest[i]).same_slot(slot) by {
            assert(!entries[i].same_slot(slot));
        }
        unoccupied_holds_nothing(rest, slot);
    }
}

/// The entry at position `i` is older than the one at position `k`, or of the same time and
/// before it.
spec fn yields(entries: Seq<PathEntryView>, i: int, k: int) -> bool {
    crate::order::text_before(entries[i].entry.datetime, entries[k].entry.datetime) || (
    entries[i].entry.datetime == entries[k].entry.datetime && i < k)
}

/// Where the entry stands that is held for a path and key.
proof fn held_position(entries: Seq<PathEntryView>, slot: PathEntryView) -> (k: int)
    requires
        crate::store::occupied(entries, slot),
    ensures
        0 <= k < entries.len(),
        entries[k].same_slot(slot),
        crate::store::held(entries, slot) == Some(entries[k].entry),
        forall|i: int|
            0 <= i < entries.len() && i != k && (#[trigger] entries[i]).same_slot(slot) ==> yields(
                entries,
                i,
                k,
            ),
    decreases entries.len(),
{
    let rest = entries.drop_last();
    let n = entries.len() - 1;
    assert(entries.last() == entries[n]);
    if crate::store::occupied(rest, slot) {
        let k = held_position(rest, slot);
        assert(rest[k] == entries[k]);
        let x = entries[k].entry.datetime;
        let y = entries[n].entry.datetime;
        let at = if entries[n].same_slot(slot) && !crate::order::text_before(y, x) {
            n
        } else {
            k
        };
        crate::order::text_before_total(x, y);
        assert forall|i: int|
            0 <= i < entries.len() && i != at && (
            #[trigger] entries[i]).same_slot(slot) implies yields(entries, i, at) by {
            if i < n && i != k {
                assert(rest[i].same_slot(slot));
                assert(yields(rest, i, k));
                let z = entries[i].entry.datetime;
                if at == n && crate::order::text_before(z, x) && x != y {
                    crate::order::text_before_transitive(z, x, y);
                }
            }
        }
        at
    } else {
        unoccupied_holds_nothing(rest, slot);
        let i = choose|i: int| 0 <= i < entries.len() && (#[trigger] entries[i]).same_slot(slot);
        if i < n {
            assert(rest[i].same_slot(slot));
        }
        assert forall|i: int|
            0 <= i < entries.len() && i != n && (
            #[trigger] entries[i]).same_slot(slot) implies yields(entries, i, n) by {
            assert(rest[i].same_slot(slot));
        }
        n
    }
}

/// Where the entry stands that is held for a path and key among the entries that pass a test.
pub(crate) proof fn held_among_passed(
    entries: Seq<PathEntryView>,
    pred: spec_fn(PathEntryView) -> bool,
    slot: PathEntryView,
) -> (k: int)
    requires
        crate::store::occupied(entries.filter(pred), slot),
    ensures
        0 <= k < entries.len(),
        pred(entries[k]),
        entries[k].same_slot(slot),
        crate::store::held(entries.filter(pred), slot) == Some(entries[k].entry),
        forall|i: int|
            0 <= i < entries.len() && i != k && pred(#[trigger] entries[i])
                && entries[i].same_slot(slot) ==> (crate::order::text_before(
                entries[i].entry.datetime,
                entries[k].entry.datetime,
            ) || (entries[i].entry.datetime == entries[k].entry.datetime && i < k)),
    decreases entries.len(),
{
    reveal(Seq::filter);
    if entries.len() == 0 {
        assert(false);
        0
    } else {
        let rest = entries.drop_last();
        let n = entries.len() - 1;
        let last = entries.last();
        let some = rest.filter(pred);
        assert(entries[n] == last);
        if pred(last) {
            assert(entries.filter(pred) =~= some.push(last));
            assert(entries.filter(pred).drop_last() =~= some);
        }
        if crate::store::occupied(some, slot) {
            let k = held_among_passed(rest, pred, slot);
            assert(rest[k] == entries[k]);
            let x = entries[k].entry.datetime;
            let y = last.entry.datetime;
            crate::order::text_before_total(x, y);
            let at = if pred(last) && last.same_slot(slot) && !crate::order::text_before(y, x) {
                n
            } else {
                k
            };
            assert forall|i: int|
                0 <= i < entries.len() && i != at && pred(#[trigger] entries[i])
                    && entries[i].same_slot(slot) implies (crate::order::text_before(
                entries[i].entry.datetime,
                entries[at].entry.datetime,
            ) || (entries[i].entry.datetime == entries[at].entry.datetime && i < at)) by {
                if i < n && i != k {
                    assert(rest[i] == entries[i]);
                    let z = entries[i].entry.datetime;
                    if at == n && crate::order::text_before(z, x) && x != y {
                        crate::order::text_before_transitive(z, x, y);
                    }
                }
            }
            at
        } else {
            unoccupied_holds_nothing(some, slot);
            let all = entries.filter(pred);
            let i = choose|i: int| 0 <= i < all.len() && (#[trigger] all[i]).same_slot(slot);
            if i < some.len() {
                assert(some[i] == all[i]);
                assert(some[i].same_slot(slot));
            }
            assert(pred(last) && last.same_slot(slot));
            assert forall|i: int|
                0 <= i < entries.len() && i != n && pred(#[trigger] entries[i])
                    && entries[i].same_slot(slot) implies (crate::order::text_before(
                entries[i].entry.datetime,
                entries[n].entry.datetime,
            ) || (entries[i].entry.datetime == entries[n].entry.datetime && i < n)) by {
                assert(rest[i] == entries[i]);
                rest.lemma_filter_contains(pred, i);
                let m = choose|m: int| 0 <= m < some.len() && some[m] == rest[i];
                assert(some[m].same_slot(slot));
            }
            n
        }
    }
}

/// There is an entry for a path and key exactly where one is held. The held one is among the
/// entries, and none of them for this path and key is newer.
pub proof fn held_is_occupied(entries: Seq<PathEntryView>, slot: PathEntryView)
    ensures
        crate::store::held(entries, slot) is Some <==> crate::store::occupied(entries, slot),
        crate::store::held(entries, slot) matches Some(entry) ==> exists|i: int|
            0 <= i < entries.len() && (#[trigger] entries[i]).same_slot(slot) && entries[i].entry
                == entry,
        crate::store::held(entries, slot) matches Some(entry) ==> forall|i: int|
            0 <= i < entries.len() && (#[trigger] entries[i]).same_slot(slot)
                ==> !crate::order::text_before(entry.datetime, entries[i].entry.datetime),
{
    if crate::store::occupied(entries, slot) {
        let k = held_position(entries, slot);
        let x = entries[k].entry.datetime;
        assert forall|i: int| 0 <= i < entries.len() && (
        #[trigger] entries[i]).same_slot(slot) implies !crate::order::text_before(
            x,
            entries[i].entry.datetime,
        ) by {
            let y = entries[i].entry.datetime;
            crate::order::text_before_irreflexive(x);
            if i != k {
                assert(yields(entries, i, k));
                if crate::order::text_before(x, y) {
                    if crate::order::text_before(y, x) {
                        crate::order::text_before_transitive(x, y, x);
                    }
                }
            }
        }
    } else {
        unoccupied_holds_nothing(entries, slot);
    }
}

/// Where no two entries are for the same path and key, each entry is held.
proof fn held_where_distinct(entries: Seq<PathEntryView>, i: int, slot: PathEntryView)
    requires
        distinct_slots(entries),
        0 <= i < entries.len(),
        entries[i].same_slot(slot),
    ensures
        crate::store::held(entries, slot) == Some(entries[i].entry),
{
    held_is_occupied(entries, slot);
    assert(crate::store::occupied(entries, slot));
    let entry = crate::store::held(entries, slot).unwrap();
    let k = choose|k: int|
        0 <= k < entries.len() && (#[trigger] entries[k]).same_slot(slot) && entries[k].entry
            == entry;
    slots_are_classes(entries[k], slot, entries[i]);
    slots_are_classes(entries[i], slot, entries[k]);
}

/// The same path and key hold the same.
pub proof fn same_slot_same_held(
    entries: Seq<PathEntryView>,
    a: PathEntryView,
    b: PathEntryView,
)
    requires
        b.path == a.path,
        b.entry.key.same(a.entry.key),
    ensures
        crate::store::held(entries, a) == crate::store::held(entries, b),
{
    slots_are_classes(b, a, b);
    held_by_slot(entries, a, b);
}

/// What is held goes by path and key.
proof fn held_by_slot(entries: Seq<PathEntryView>, a: PathEntryView, b: PathEntryView)
    requires
        a.same_slot(b),
    ensures
        crate::store::held(entries, a) == crate::store::held(entries, b),
    decreases entries.len(),
{
    if entries.len() > 0 {
        slots_are_classes(entries.last(), a, b);
        slots_are_classes(entries.last(), b, a);
        held_by_slot(entries.drop_last(), a, b);
    }
}

/// Where there is nothing for a path and key in front, only what is behind counts.
proof fn held_behind(a: Seq<PathEntryView>, b: Seq<PathEntryView>, slot: PathEntryView)
    requires
        crate::store::held(a, slot) is None,
    ensures
        crate::store::held(a + b, slot) == crate::store::held(b, slot),
    decreases b.len(),
{
    if b.len() == 0 {
        assert(a + b =~= a);
    } else {
        assert((a + b).drop_last() =~= a + b.drop_last());
        assert((a + b).last() == b.last());
        held_behind(a, b.drop_last(), slot);
    }
}

/// Where there is nothing for a path and key behind, only what is in front counts.
proof fn held_in_front(a: Seq<PathEntryView>, b: Seq<PathEntryView>, slot: PathEntryView)
    requires
        !crate::store::occupied(b, slot),
    ensures
        crate::store::held(a + b, slot) == crate::store::held(a, slot),
    decreases b.len(),
{
    if b.len() == 0 {
        assert(a + b =~= a);
    } else {
        let rest = b.drop_last();
        assert((a + b).drop_last() =~= a + rest);
        assert((a + b).last() == b.last());
        assert(!b[b.len() - 1].same_slot(slot));
        assert forall|i: int| 0 <= i < rest.len() implies !(#[trigger] rest[i]).same_slot(slot) by {
            assert(!b[i].same_slot(slot));
        }
        held_in_front(a, rest, slot);
    }
}

/// Of a path and key that is touched, nothing stays.
proof fn touched_are_gone(
    stored: Seq<PathEntryView>,
    new: Seq<PathEntryView>,
    slot: PathEntryView,
)
    requires
        crate::store::occupied(new, slot),
    ensures
        crate::store::held(stored.filter(crate::store::is_untouched(new)), slot) is None,
{
    let pred = crate::store::is_untouched(new);
    let rest = stored.filter(pred);
    assert forall|i: int| 0 <= i < rest.len() implies !(#[trigger] rest[i]).same_slot(slot) by {
        stored.lemma_filter_pred(pred, i);
        if rest[i].same_slot(slot) {
            let j = choose|j: int| 0 <= j < new.len() && (#[trigger] new[j]).same_slot(slot);
            slots_are_classes(rest[i], slot, slot);
            slots_are_classes(new[j], slot, rest[i]);
            assert(new[j].same_slot(rest[i]));
        }
    }
    unoccupied_holds_nothing(rest, slot);
}

/// Entries that are untouched stay what is held.
proof fn held_among_untouched(
    stored: Seq<PathEntryView>,
    new: Seq<PathEntryView>,
    slot: PathEntryView,
)
    requires
        !crate::store::occupied(new, slot),
    ensures
        crate::store::held(stored.filter(crate::store::is_untouched(new)), slot)
            == crate::store::held(stored, slot),
    decreases stored.len(),
{
    reveal(Seq::filter);
    let pred = crate::store::is_untouched(new);
    if stored.len() > 0 {
        let rest = stored.drop_last();
        held_among_untouched(rest, new, slot);
        if pred(stored.last()) {
            assert(stored.filter(pred).drop_last() =~= rest.filter(pred));
        } else if stored.last().same_slot(slot) {
            let i = choose|i: int|
                0 <= i < new.len() && (#[trigger] new[i]).same_slot(stored.last());
            slots_are_classes(new[i], stored.last(), slot);
        }
    }
}

/// What is left of the first entries are those that no entry replaces.
proof fn latest_are_entries(entries: Seq<PathEntryView>, n: int, k: int) -> (i: int)
    requires
        0 <= n <= entries.len(),
        0 <= k < crate::store::latest_of_first(entries, n).len(),
    ensures
        0 <= i < n,
        crate::store::latest_of_first(entries, n)[k] == entries[i],
        !crate::store::is_replaced(entries, i),
    decreases n,
{
    if n == 0 {
        0
    } else {
        let rest = crate::store::latest_of_first(entries, n - 1);
        if k < rest.len() {
            latest_are_entries(entries, n - 1, k)
        } else {
            n - 1
        }
    }
}

/// What no entry replaces is left.
proof fn unreplaced_are_latest(entries: Seq<PathEntryView>, n: int, i: int)
    requires
        0 <= i < n <= entries.len(),
        !crate::store::is_replaced(entries, i),
    ensures
        crate::store::latest_of_first(entries, n).contains(entries[i]),
    decreases n,
{
    let all = crate::store::latest_of_first(entries, n);
    let rest = crate::store::latest_of_first(entries, n - 1);
    if i == n - 1 {
        assert(all[all.len() - 1] == entries[i]);
    } else {
        unreplaced_are_latest(entries, n - 1, i);
        let k = choose|k: int| 0 <= k < rest.len() && rest[k] == entries[i];
        assert(all[k] == entries[i]);
    }
}

/// What is left of entries is one that no entry replaces.
pub(crate) proof fn latest_stand_unreplaced(entries: Seq<PathEntryView>, e: PathEntryView) -> (i: int)
    requires
        crate::store::latest(entries).contains(e),
    ensures
        0 <= i < entries.len(),
        entries[i] == e,
        forall|k: int|
            0 <= k < entries.len() ==> !#[trigger] crate::store::replaces(entries, k, i),
{
    reveal(crate::store::latest);
    let left = crate::store::latest(entries);
    let k = choose|k: int| 0 <= k < left.len() && left[k] == e;
    latest_are_entries(entries, entries.len() as int, k)
}

/// An entry that no entry replaces is left.
pub(crate) proof fn unreplaced_stand_in_latest(entries: Seq<PathEntryView>, i: int)
    requires
        0 <= i < entries.len(),
        !crate::store::is_replaced(entries, i),
    ensures
        crate::store::latest(entries).contains(entries[i]),
{
    reveal(crate::store::latest);
    unreplaced_are_latest(entries, entries.len() as int, i);
}

/// Of two entries for the same path and key one replaces the other.
proof fn one_replaces_the_other(entries: Seq<PathEntryView>, i: int, j: int)
    requires
        0 <= i < entries.len(),
        0 <= j < entries.len(),
        i != j,
        entries[i].same_slot(entries[j]),
    ensures
        crate::store::is_replaced(entries, i) || crate::store::is_replaced(entries, j),
{
    slots_are_classes(entries[i], entries[j], entries[i]);
    crate::order::text_before_total(entries[i].entry.datetime, entries[j].entry.datetime);
    assert(crate::store::replaces(entries, j, i) || crate::store::replaces(entries, i, j));
}

proof fn first_latest_are_distinct(entries: Seq<PathEntryView>, n: int)
    requires
        0 <= n <= entries.len(),
    ensures
        distinct_slots(crate::store::latest_of_first(entries, n)),
    decreases n,
{
    if n > 0 {
        first_latest_are_distinct(entries, n - 1);
        let rest = crate::store::latest_of_first(entries, n - 1);
        let all = crate::store::latest_of_first(entries, n);
        assert forall|i: int, j: int| 0 <= i < j < all.len() implies !(
        #[trigger] all[i]).same_slot(#[trigger] all[j]) by {
            if j < rest.len() {
                assert(rest[i] == all[i] && rest[j] == all[j]);
            } else {
                let k = latest_are_entries(entries, n - 1, i);
                assert(all[i] == entries[k] && all[j] == entries[n - 1]);
                if entries[k].same_slot(entries[n - 1]) {
                    one_replaces_the_other(entries, k, n - 1);
                }
            }
        }
    }
}

/// What a file holds has one entry for each path and key.
pub proof fn a_file_holds_one_entry_per_slot(entries: Seq<PathEntryView>)
    ensures
        distinct_slots(crate::store::latest(entries)),
{
    reveal(crate::store::latest);
    first_latest_are_distinct(entries, entries.len() as int);
}

/// Of several lines for the same path and key the newest one counts, and the last of the newest.
pub proof fn the_newest_line_counts(entries: Seq<PathEntryView>, slot: PathEntryView)
    ensures
        crate::store::held(crate::store::latest(entries), slot) == crate::store::held(entries, slot),
{
    reveal(crate::store::latest);
    let n = entries.len() as int;
    let left = crate::store::latest(entries);
    a_file_holds_one_entry_per_slot(entries);
    if crate::store::occupied(entries, slot) {
        let k = held_position(entries, slot);
        if crate::store::is_replaced(entries, k) {
            let j = choose|j: int|
                0 <= j < entries.len() && #[trigger] crate::store::replaces(entries, j, k);
            slots_are_classes(entries[j], entries[k], slot);
            let x = entries[k].entry.datetime;
            let y = entries[j].entry.datetime;
            crate::order::text_before_irreflexive(x);
            assert(entries[j].same_slot(slot));
            if j != k {
                assert(yields(entries, j, k));
                if crate::order::text_before(x, y) && crate::order::text_before(y, x) {
                    crate::order::text_before_transitive(x, y, x);
                }
            }
        }
        unreplaced_are_latest(entries, n, k);
        let i = choose|i: int| 0 <= i < left.len() && left[i] == entries[k];
        held_where_distinct(left, i, slot);
    } else {
        assert forall|i: int| 0 <= i < left.len() implies !(#[trigger] left[i]).same_slot(slot) by {
            let k = latest_are_entries(entries, n, i);
            assert(!entries[k].same_slot(slot));
        }
        unoccupied_holds_nothing(left, slot);
        unoccupied_holds_nothing(entries, slot);
    }
}

/// After an update a file holds the new entries, and for every other path and key what it held.
pub proof fn an_update_changes_only_its_slots(
    stored: Seq<PathEntryView>,
    new: Seq<PathEntryView>,
    slot: PathEntryView,
)
    ensures
        crate::store::held(crate::store::renewed(stored, new), slot) == if crate::store::occupied(
            new,
            slot,
        ) {
            crate::store::held(new, slot)
        } else {
            crate::store::held(stored, slot)
        },
{
    let rest = stored.filter(crate::store::is_untouched(new));
    if new.len() > 0 {
        the_newest_line_counts(crate::store::merged(stored, new), slot);
        if crate::store::occupied(new, slot) {
            touched_are_gone(stored, new, slot);
            held_behind(rest, new, slot);
        } else {
            held_among_untouched(stored, new, slot);
            held_in_front(rest, new, slot);
        }
    }
}

/// No update replaces an entry by an older one, whatever the listeners keep of the news.
pub proof fn an_update_never_goes_back(
    stored: Seq<PathEntryView>,
    new: Seq<PathEntryView>,
    require_new_value: bool,
    slot: PathEntryView,
)
    requires
        forall|i: int|
            0 <= i < new.len() ==> crate::store::is_fresh(stored, require_new_value)(
                #[trigger] new[i],
            ),
    ensures
        crate::store::held(stored, slot) matches Some(old) ==> crate::store::held(
            crate::store::renewed(stored, new),
            slot,
        ) matches Some(now) && (now == old || crate::order::text_before(old.datetime, now.datetime)),
{
    an_update_changes_only_its_slots(stored, new, slot);
    if crate::store::occupied(new, slot) {
        held_is_occupied(new, slot);
        let now = crate::store::held(new, slot).unwrap();
        let i = choose|i: int|
            0 <= i < new.len() && (#[trigger] new[i]).same_slot(slot) && new[i].entry == now;
        assert(crate::store::is_fresh(stored, require_new_value)(new[i]));
        held_by_slot(stored, new[i], slot);
    }
}

/// The newer of two entries for the same path and key; if they are of the same time, the first.
pub open spec fn newest(a: Option<EntryView>, b: Option<EntryView>) -> Option<EntryView> {
    match (a, b) {
        (None, _) => b,
        (_, None) => a,
        (Some(x), Some(y)) => if crate::order::text_before(x.datetime, y.datetime) {
            b
        } else {
            a
        },
    }
}

/// Entries that pass a test, of entries for distinct paths and keys.
proof fn held_in_filtered(
    entries: Seq<PathEntryView>,
    pred: spec_fn(PathEntryView) -> bool,
    slot: PathEntryView,
)
    requires
        distinct_slots(entries),
    ensures
        crate::store::held(entries.filter(pred), slot) == match crate::store::held(entries, slot) {
            None => None,
            Some(entry) => if exists|i: int|
                0 <= i < entries.len() && (#[trigger] entries[i]).same_slot(slot) && pred(
                    entries[i],
                ) {
                Some(entry)
            } else {
                None
            },
        },
{
    let some = entries.filter(pred);
    held_is_occupied(entries, slot);
    held_is_occupied(some, slot);
    if crate::store::occupied(some, slot) {
        let entry = crate::store::held(some, slot).unwrap();
        let k = choose|k: int|
            0 <= k < some.len() && (#[trigger] some[k]).same_slot(slot) && some[k].entry == entry;
        assert(some.contains(some[k]));
        entries.lemma_filter_contains_rev(pred, some[k]);
        entries.lemma_filter_pred(pred, k);
        let i = choose|i: int| 0 <= i < entries.len() && entries[i] == some[k];
        assert(entries[i].same_slot(slot) && pred(entries[i]));
        held_where_distinct(entries, i, slot);
    }
    if exists|i: int|
        0 <= i < entries.len() && (#[trigger] entries[i]).same_slot(slot) && pred(entries[i]) {
        let i = choose|i: int|
            0 <= i < entries.len() && (#[trigger] entries[i]).same_slot(slot) && pred(entries[i]);
        entries.lemma_filter_contains(pred, i);
        let k = choose|k: int| 0 <= k < some.len() && some[k] == entries[i];
        assert(some[k].same_slot(slot));
        assert(crate::store::occupied(some, slot));
        held_where_distinct(entries, i, slot);
    }
}

/// Of the entries that are new to a file, the newest for a path and key is the newest that came,
/// if that is new.
proof fn held_among_fresh(
    stored: Seq<PathEntryView>,
    entries: Seq<PathEntryView>,
    slot: PathEntryView,
)
    ensures
        crate::store::held(entries.filter(crate::store::is_fresh(stored, false)), slot) == match (
            crate::store::held(stored, slot),
            crate::store::held(entries, slot),
        ) {
            (Some(old), Some(new)) => if crate::order::text_before(old.datetime, new.datetime) {
                Some(new)
            } else {
                None
            },
            (_, new) => new,
        },
    decreases entries.len(),
{
    reveal(Seq::filter);
    let pred = crate::store::is_fresh(stored, false);
    if entries.len() > 0 {
        let rest = entries.drop_last();
        let last = entries.last();
        held_among_fresh(stored, rest, slot);
        if pred(last) {
            assert(entries.filter(pred).drop_last() =~= rest.filter(pred));
        }
        if last.same_slot(slot) {
            held_by_slot(stored, last, slot);
            match (crate::store::held(stored, slot), crate::store::held(rest, slot)) {
                (Some(old), Some(x)) => {
                    let (a, b, c) = (old.datetime, x.datetime, last.entry.datetime);
                    crate::order::text_before_total(b, c);
                    if crate::order::text_before(a, b) && crate::order::text_before(b, c) {
                        crate::order::text_before_transitive(a, b, c);
                    }
                    if crate::order::text_before(a, c) && crate::order::text_before(c, b) {
                        crate::order::text_before_transitive(a, c, b);
                    }
                },
                _ => {},
            }
        }
    }
}

/// For each path and key, the newest timestamp wins.
pub proof fn the_newest_wins(
    stored: Seq<PathEntryView>,
    entries: Seq<PathEntryView>,
    slot: PathEntryView,
)
    ensures
        crate::store::held(
            crate::store::renewed(
                stored,
                entries.filter(crate::store::is_fresh(stored, false)),
            ),
            slot,
        ) == newest(crate::store::held(stored, slot), crate::store::held(entries, slot)),
{
    let new = entries.filter(crate::store::is_fresh(stored, false));
    an_update_changes_only_its_slots(stored, new, slot);
    held_among_fresh(stored, entries, slot);
    held_is_occupied(new, slot);
}

/// The entry at position `i` is for the path and key of `slot`, newer than what is stored for it,
/// and of another value.
pub open spec fn brings_news(
    stored: Seq<PathEntryView>,
    entries: Seq<PathEntryView>,
    i: int,
    slot: PathEntryView,
) -> bool {
    &&& 0 <= i < entries.len()
    &&& entries[i].same_slot(slot)
    &&& crate::store::held(stored, slot) matches Some(old) ==> crate::order::text_before(
        old.datetime,
        entries[i].entry.datetime,
    ) && !entries[i].entry.value.same(old.value)
}

/// Setting entries changes what is stored for a path and key exactly if one of them is newer and
/// brings another value; then the newest of these is stored.
pub proof fn the_newest_other_value_wins(
    stored: Seq<PathEntryView>,
    entries: Seq<PathEntryView>,
    slot: PathEntryView,
)
    ensures
        ({
            let news = entries.filter(crate::store::is_fresh(stored, true));
            let after = crate::store::held(crate::store::renewed(stored, news), slot);
            if exists|i: int| #[trigger] brings_news(stored, entries, i, slot) {
                &&& exists|i: int| #[trigger]
                    brings_news(stored, entries, i, slot) && after == Some(entries[i].entry)
                &&& forall|i: int| #[trigger]
                    brings_news(stored, entries, i, slot) ==> !crate::order::text_before(
                        after.unwrap().datetime,
                        entries[i].entry.datetime,
                    )
            } else {
                after == crate::store::held(stored, slot)
            }
        }),
{
    let pred = crate::store::is_fresh(stored, true);
    let news = entries.filter(pred);
    an_update_changes_only_its_slots(stored, news, slot);
    held_is_occupied(news, slot);
    assert forall|i: int| 0 <= i < entries.len() && (
    #[trigger] entries[i]).same_slot(slot) implies pred(entries[i]) == brings_news(
        stored,
        entries,
        i,
        slot,
    ) by {
        held_by_slot(stored, entries[i], slot);
    }
    assert forall|i: int| #[trigger] brings_news(stored, entries, i, slot) implies exists|k: int|
        0 <= k < news.len() && #[trigger] news[k] == entries[i] by {
        assert(entries[i].same_slot(slot));
        entries.lemma_filter_contains(pred, i);
    }
    if crate::store::occupied(news, slot) {
        let x = crate::store::held(news, slot).unwrap();
        let k = choose|k: int|
            0 <= k < news.len() && (#[trigger] news[k]).same_slot(slot) && news[k].entry == x;
        assert(news.contains(news[k]));
        entries.lemma_filter_contains_rev(pred, news[k]);
        entries.lemma_filter_pred(pred, k);
        let i = choose|i: int| 0 <= i < entries.len() && entries[i] == news[k];
        assert(brings_news(stored, entries, i, slot));
    } else if exists|i: int| #[trigger] brings_news(stored, entries, i, slot) {
        let i = choose|i: int| #[trigger] brings_news(stored, entries, i, slot);
        let k = choose|k: int| 0 <= k < news.len() && #[trigger] news[k] == entries[i];
        assert(news[k].same_slot(slot));
    }
}

/// Bringing the same entries a second time changes nothing. Where only other values count, this
/// is so for entries of distinct paths and keys.
pub proof fn an_update_is_idempotent(
    stored: Seq<PathEntryView>,
    entries: Seq<PathEntryView>,
    require_new_value: bool,
)
    requires
        require_new_value ==> distinct_slots(entries),
    ensures
        ({
            let new = entries.filter(crate::store::is_fresh(stored, require_new_value));
            let after = crate::store::renewed(stored, new);
            entries.filter(crate::store::is_fresh(after, require_new_value)).len() == 0
        }),
{
    let new = entries.filter(crate::store::is_fresh(stored, require_new_value));
    let after = crate::store::renewed(stored, new);
    let pred = crate::store::is_fresh(after, require_new_value);
    let again = entries.filter(pred);
    if again.len() > 0 {
        let e = again[0];
        assert(again.contains(e));
        entries.lemma_filter_contains_rev(pred, e);
        entries.lemma_filter_pred(pred, 0);
        let i = choose|i: int| 0 <= i < entries.len() && entries[i] == e;
        slots_are_classes(e, e, e);
        assert(entries[i].same_slot(e));
        crate::order::text_before_irreflexive(e.entry.datetime);
        held_is_occupied(entries, e);
        if require_new_value {
            the_newest_other_value_wins(stored, entries, e);
            if exists|k: int| #[trigger] brings_news(stored, entries, k, e) {
                let k = choose|k: int| #[trigger]
                    brings_news(stored, entries, k, e) && crate::store::held(after, e) == Some(
                        entries[k].entry,
                    );
                slots_are_classes(entries[k], e, entries[i]);
                slots_are_classes(entries[i], e, entries[k]);
                assert(k == i);
            } else {
                assert(!brings_news(stored, entries, i, e));
            }
        } else {
            the_newest_wins(stored, entries, e);
            let x = crate::store::held(entries, e).unwrap().datetime;
            match crate::store::held(stored, e) {
                Some(old) => {
                    let (a, c) = (old.datetime, e.entry.datetime);
                    crate::order::text_before_total(x, c);
                    if crate::order::text_before(a, c) && crate::order::text_before(c, x) {
                        crate::order::text_before_transitive(a, c, x);
                    }
                },
                None => {},
            }
        }
    }
}

/// Two apps that take over each other's entries hold the same afterwards, at once or one after
/// the other, unless they hold different entries of the same time for the same path and key.
pub proof fn apps_converge(a: Seq<PathEntryView>, b: Seq<PathEntryView>, slot: PathEntryView)
    requires
        crate::store::held(a, slot) matches Some(x) ==> crate::store::held(b, slot) matches Some(y)
            ==> x.datetime == y.datetime ==> x == y,
    ensures
        ({
            let a2 = crate::store::renewed(a, b.filter(crate::store::is_fresh(a, false)));
            let b2 = crate::store::renewed(b, a.filter(crate::store::is_fresh(b, false)));
            crate::store::held(a2, slot) == crate::store::held(b2, slot)
        }),
        ({
            let a2 = crate::store::renewed(a, b.filter(crate::store::is_fresh(a, false)));
            let b2 = crate::store::renewed(b, a2.filter(crate::store::is_fresh(b, false)));
            crate::store::held(a2, slot) == crate::store::held(b2, slot)
        }),
{
    let a2 = crate::store::renewed(a, b.filter(crate::store::is_fresh(a, false)));
    the_newest_wins(a, b, slot);
    the_newest_wins(b, a, slot);
    the_newest_wins(b, a2, slot);
    match (crate::store::held(a, slot), crate::store::held(b, slot)) {
        (Some(x), Some(y)) => {
            crate::order::text_before_total(x.datetime, y.datetime);
            crate::order::text_before_irreflexive(x.datetime);
            crate::order::text_before_irreflexive(y.datetime);
            if crate::order::text_before(x.datetime, y.datetime) && crate::order::text_before(
                y.datetime,
                x.datetime,
            ) {
                crate::order::text_before_transitive(x.datetime, y.datetime, x.datetime);
            }
        },
        _ => {},
    }
}

/// Maintenance entries go by path and key.
proof fn maintenance_by_slot(a: PathEntryView, b: PathEntryView)
    requires
        a.same_slot(b),
    ensures
        crate::listener::is_maintenance(a.path, a.entry.key) == crate::listener::is_maintenance(
            b.path,
            b.entry.key,
        ),
{
}

/// Where no listener is told, and where the listeners could apply everything, a file then holds
/// the newest entry for each path and key; of maintenance entries, only where no listener is told.
pub proof fn what_succeeds_holds_the_newest<T>(
    listeners: Seq<ListenerView<T>>,
    stored: Seq<PathEntryView>,
    entries: Seq<PathEntryView>,
    extra: Option<&T>,
    kept: Seq<PathEntryView>,
    success: bool,
    slot: PathEntryView,
)
    requires
        crate::store::taken(listeners, stored, entries, false, extra, kept, success),
        distinct_slots(entries),
        extra is None || (success && !crate::listener::is_maintenance(slot.path, slot.entry.key)),
    ensures
        crate::store::held(crate::store::renewed(stored, kept), slot) == newest(
            crate::store::held(stored, slot),
            crate::store::held(entries, slot),
        ),
{
    the_newest_wins(stored, entries, slot);
    if extra is Some {
        let fresh = crate::store::is_fresh(stored, false);
        let new = entries.filter(fresh);
        an_update_changes_only_its_slots(stored, new, slot);
        an_update_changes_only_its_slots(stored, kept, slot);
        held_is_occupied(new, slot);
        held_is_occupied(kept, slot);
        if crate::store::occupied(kept, slot) {
            let entry = crate::store::held(kept, slot).unwrap();
            let k = choose|k: int|
                0 <= k < kept.len() && (#[trigger] kept[k]).same_slot(slot) && kept[k].entry
                    == entry;
            assert(kept.contains(kept[k]));
            crate::store::taken_are_fresh(
                listeners,
                stored,
                entries,
                false,
                extra,
                kept,
                success,
                kept[k],
            );
            let i = choose|i: int| 0 <= i < entries.len() && entries[i] == kept[k];
            held_where_distinct(entries, i, slot);
            held_in_filtered(entries, fresh, slot);
            assert(entries[i].same_slot(slot) && fresh(entries[i]));
        }
        if crate::store::occupied(new, slot) {
            let i = choose|i: int| 0 <= i < new.len() && (#[trigger] new[i]).same_slot(slot);
            assert(new.contains(new[i]));
            maintenance_by_slot(new[i], slot);
            crate::listener::success_keeps_everything(
                listeners,
                new,
                extra.unwrap(),
                kept,
                new[i],
            );
            let k = choose|k: int| 0 <= k < kept.len() && kept[k] == new[i];
            assert(kept[k].same_slot(slot));
        }
    }
}

} // verus!
