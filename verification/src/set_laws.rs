//! What holds of setting entries.

use vstd::prelude::*;

use crate::entry::{EntryView, PathEntryView};
use crate::file_utils::FileWriteView;

verus! {

/// The entry at position `i` is for the path and key of `slot`, and newer than what is held for
/// them, with another value; where nothing is held, it need only be for them.
pub open spec fn brings(
    old: Option<EntryView>,
    entries: Seq<PathEntryView>,
    i: int,
    slot: PathEntryView,
) -> bool {
    &&& 0 <= i < entries.len()
    &&& entries[i].path == slot.path
    &&& entries[i].entry.key.same(slot.entry.key)
    &&& match old {
        Some(old) => crate::order::text_before(old.datetime, entries[i].entry.datetime)
            && !entries[i].entry.value.same(old.value),
        None => true,
    }
}

/// What the own file of its path holds for a path and key.
pub open spec fn held_in_own(
    files: Map<Seq<Seq<char>>, Seq<char>>,
    own: Seq<Seq<char>>,
    slot: PathEntryView,
) -> Option<EntryView> {
    crate::store::held(
        crate::publish::file_entries(files, own, crate::hash::path_hash(slot.path)),
        slot,
    )
}

/// Among the entries of a file the same ones bring something.
proof fn brings_among_its_file(
    files: Map<Seq<Seq<char>>, Seq<char>>,
    own: Seq<Seq<char>>,
    entries: Seq<PathEntryView>,
    slot: PathEntryView,
)
    ensures
        ({
            let hash = crate::hash::path_hash(slot.path);
            let stored = crate::publish::file_entries(files, own, hash);
            let old = held_in_own(files, own, slot);
            let here = entries.filter(crate::groups::lives_in(hash));
            &&& forall|i: int| #[trigger]
                brings(old, entries, i, slot) ==> exists|k: int| #[trigger]
                    crate::laws::brings_news(stored, here, k, slot) && here[k] == entries[i]
            &&& forall|k: int| #[trigger]
                crate::laws::brings_news(stored, here, k, slot) ==> exists|i: int| #[trigger]
                    brings(old, entries, i, slot) && here[k] == entries[i]
        }),
{
    let hash = crate::hash::path_hash(slot.path);
    let stored = crate::publish::file_entries(files, own, hash);
    let old = held_in_own(files, own, slot);
    let pred = crate::groups::lives_in(hash);
    let here = entries.filter(pred);
    assert forall|i: int| #[trigger] brings(old, entries, i, slot) implies exists|k: int| #[trigger]
        crate::laws::brings_news(stored, here, k, slot) && here[k] == entries[i] by {
        entries.lemma_filter_contains(pred, i);
        let k = choose|k: int| 0 <= k < here.len() && here[k] == entries[i];
        assert(crate::laws::brings_news(stored, here, k, slot));
    }
    assert forall|k: int| #[trigger]
        crate::laws::brings_news(stored, here, k, slot) implies exists|i: int| #[trigger]
        brings(old, entries, i, slot) && here[k] == entries[i] by {
        assert(here.contains(here[k]));
        entries.lemma_filter_contains_rev(pred, here[k]);
        let i = choose|i: int| 0 <= i < entries.len() && entries[i] == here[k];
        assert(brings(old, entries, i, slot));
    }
}

/// Setting entries changes what the app holds for a path and key exactly if one of the entries is
/// for them, newer, and of another value. Then it holds one of these, and none of them is newer.
pub proof fn setting_takes_the_newest_other_value(
    files: Map<Seq<Seq<char>>, Seq<char>>,
    own: Seq<Seq<char>>,
    entries: Seq<PathEntryView>,
    writes: Seq<FileWriteView>,
    slot: PathEntryView,
)
    requires
        crate::publish::sets(files, own, entries, writes),
        crate::store::all_readable(entries),
    ensures
        ({
            let old = held_in_own(files, own, slot);
            let now = held_in_own(crate::file_utils::written(files, writes), own, slot);
            if exists|i: int| #[trigger] brings(old, entries, i, slot) {
                &&& exists|i: int| #[trigger]
                    brings(old, entries, i, slot) && now == Some(entries[i].entry)
                &&& forall|i: int| #[trigger]
                    brings(old, entries, i, slot) ==> !crate::order::text_before(
                        now.unwrap().datetime,
                        entries[i].entry.datetime,
                    )
            } else {
                now == old
            }
        }),
{
    let hash = crate::hash::path_hash(slot.path);
    let stored = crate::publish::file_entries(files, own, hash);
    let old = held_in_own(files, own, slot);
    let here = entries.filter(crate::groups::lives_in(hash));
    brings_among_its_file(files, own, entries, slot);
    crate::laws::the_newest_other_value_wins(stored, here, slot);
    if exists|i: int| #[trigger] brings(old, entries, i, slot) {
        let i = choose|i: int| #[trigger] brings(old, entries, i, slot);
        let k = choose|k: int| #[trigger]
            crate::laws::brings_news(stored, here, k, slot) && here[k] == entries[i];
        assert(crate::laws::brings_news(stored, here, k, slot));
    } else if exists|k: int| #[trigger] crate::laws::brings_news(stored, here, k, slot) {
        let k = choose|k: int| #[trigger] crate::laws::brings_news(stored, here, k, slot);
        let i = choose|i: int| #[trigger]
            brings(old, entries, i, slot) && here[k] == entries[i];
        assert(brings(old, entries, i, slot));
    }
}

/// Two tests one after the other are one test for both.
proof fn filtered_twice(
    entries: Seq<PathEntryView>,
    a: spec_fn(PathEntryView) -> bool,
    b: spec_fn(PathEntryView) -> bool,
)
    ensures
        entries.filter(a).filter(b) == entries.filter(|e: PathEntryView| a(e) && b(e)),
    decreases entries.len(),
{
    reveal(Seq::filter);
    let both = |e: PathEntryView| a(e) && b(e);
    if entries.len() > 0 {
        let rest = entries.drop_last();
        filtered_twice(rest, a, b);
        if a(entries.last()) {
            assert(entries.filter(a).drop_last() =~= rest.filter(a));
        }
    } else {
        assert(entries.filter(a).filter(b) =~= entries.filter(both));
    }
}

/// Of several entries for the same path and key that are set at once the newest counts, and of
/// those of the same time the last.
pub proof fn of_one_batch_the_newest_counts(
    files: Map<Seq<Seq<char>>, Seq<char>>,
    own: Seq<Seq<char>>,
    entries: Seq<PathEntryView>,
    writes: Seq<FileWriteView>,
    slot: PathEntryView,
)
    requires
        crate::publish::sets(files, own, entries, writes),
        crate::store::all_readable(entries),
        exists|i: int| #[trigger] brings(held_in_own(files, own, slot), entries, i, slot),
    ensures
        exists|k: int| #[trigger]
            counts_of_batch(held_in_own(files, own, slot), entries, k, slot) && held_in_own(
                crate::file_utils::written(files, writes),
                own,
                slot,
            ) == Some(entries[k].entry),
{
    let hash = crate::hash::path_hash(slot.path);
    let stored = crate::publish::file_entries(files, own, hash);
    let old = held_in_own(files, own, slot);
    let here = crate::groups::lives_in(hash);
    let fresh = crate::store::is_fresh(stored, true);
    let both = |e: PathEntryView| here(e) && fresh(e);
    let news = crate::publish::set_news(files, own, entries, hash);
    filtered_twice(entries, here, fresh);
    assert(news == entries.filter(both));
    assert forall|i: int| 0 <= i < entries.len() && (#[trigger] entries[i]).same_slot(
        slot,
    ) implies both(entries[i]) == brings(old, entries, i, slot) by {
        crate::laws::slots_are_classes(entries[i], slot, entries[i]);
        crate::laws::same_slot_same_held(stored, slot, entries[i]);
    }
    let i = choose|i: int| #[trigger] brings(old, entries, i, slot);
    assert(entries[i].same_slot(slot));
    entries.lemma_filter_contains(both, i);
    let m = choose|m: int| 0 <= m < news.len() && news[m] == entries[i];
    assert(news[m].same_slot(slot));
    assert(crate::store::occupied(news, slot));
    let k = crate::laws::held_among_passed(entries, both, slot);
    crate::laws::an_update_changes_only_its_slots(stored, news, slot);
    assert(brings(old, entries, k, slot));
    assert forall|j: int| #[trigger] brings(old, entries, j, slot) && j != k implies (
    crate::order::text_before(entries[j].entry.datetime, entries[k].entry.datetime) || (
    entries[j].entry.datetime == entries[k].entry.datetime && j < k)) by {
        assert(entries[j].same_slot(slot));
    }
    assert(counts_of_batch(old, entries, k, slot));
}

/// The entry at position `k` brings something, and every other one that does is older, or of the
/// same time and before it.
pub open spec fn counts_of_batch(
    old: Option<EntryView>,
    entries: Seq<PathEntryView>,
    k: int,
    slot: PathEntryView,
) -> bool {
    &&& brings(old, entries, k, slot)
    &&& forall|j: int| #[trigger]
        brings(old, entries, j, slot) && j != k ==> crate::order::text_before(
            entries[j].entry.datetime,
            entries[k].entry.datetime,
        ) || (entries[j].entry.datetime == entries[k].entry.datetime && j < k)
}

/// There are news for a file exactly if some entry of it brings something.
proof fn news_are_brought(
    files: Map<Seq<Seq<char>>, Seq<char>>,
    own: Seq<Seq<char>>,
    entries: Seq<PathEntryView>,
    hash: Seq<char>,
)
    ensures
        crate::publish::set_news(files, own, entries, hash).len() > 0 <==> exists|i: int|
            #[trigger] is_brought(files, own, entries, hash, i),
{
    let pred = crate::groups::lives_in(hash);
    let here = entries.filter(pred);
    let fresh = crate::store::is_fresh(crate::publish::file_entries(files, own, hash), true);
    let news = here.filter(fresh);
    if news.len() > 0 {
        let e = news[0];
        assert(news.contains(e));
        here.lemma_filter_contains_rev(fresh, e);
        here.lemma_filter_pred(fresh, 0);
        let k = choose|k: int| 0 <= k < here.len() && here[k] == e;
        entries.lemma_filter_contains_rev(pred, e);
        entries.lemma_filter_pred(pred, k);
        let i = choose|i: int| 0 <= i < entries.len() && entries[i] == e;
        crate::laws::slots_are_classes(e, e, e);
        assert(is_brought(files, own, entries, hash, i));
    }
    if exists|i: int| #[trigger] is_brought(files, own, entries, hash, i) {
        let i = choose|i: int| #[trigger] is_brought(files, own, entries, hash, i);
        entries.lemma_filter_contains(pred, i);
        let k = choose|k: int| 0 <= k < here.len() && here[k] == entries[i];
        here.lemma_filter_contains(fresh, k);
    }
}

/// The entry at position `i` lives in the file `hash` and brings something.
pub open spec fn is_brought(
    files: Map<Seq<Seq<char>>, Seq<char>>,
    own: Seq<Seq<char>>,
    entries: Seq<PathEntryView>,
    hash: Seq<char>,
    i: int,
) -> bool {
    &&& 0 <= i < entries.len()
    &&& crate::hash::path_hash(entries[i].path) == hash
    &&& brings(held_in_own(files, own, entries[i]), entries, i, entries[i])
}

/// The sequence number of a file, or nought where it has none.
pub open spec fn count_of(sequences: Map<Seq<char>, i64>, hash: Seq<char>) -> int {
    if sequences.contains_key(hash) {
        sequences[hash] as int
    } else {
        0
    }
}

/// Setting entries counts a file once more, up to where the numbers wrap around, exactly if one
/// of its entries brings something; every other sequence number stays.
pub proof fn setting_counts_the_files_it_changes(
    files: Map<Seq<Seq<char>>, Seq<char>>,
    own: Seq<Seq<char>>,
    entries: Seq<PathEntryView>,
    writes: Seq<FileWriteView>,
    hash: Seq<char>,
)
    requires
        crate::publish::sets(files, own, entries, writes),
    ensures
        ({
            let before = crate::publish::file_sequences(files, own);
            let after = crate::publish::file_sequences(
                crate::file_utils::written(files, writes),
                own,
            );
            if exists|i: int| #[trigger] is_brought(files, own, entries, hash, i) {
                &&& after.contains_key(hash)
                &&& count_of(after, hash) == if count_of(before, hash) == i64::MAX {
                    i64::MIN as int
                } else {
                    count_of(before, hash) + 1
                }
            } else {
                &&& after.contains_key(hash) == before.contains_key(hash)
                &&& count_of(after, hash) == count_of(before, hash)
            }
        }),
{
    news_are_brought(files, own, entries, hash);
    if entries.len() > 0 {
        crate::publish::each_changed_file_is_counted_once(files, own, entries, hash);
    } else {
        assert(writes.len() == 0);
    }
}

/// Setting entries leaves every file as it is that none of them brings something to, but for the
/// file with the sequence numbers.
pub proof fn setting_leaves_the_other_files(
    files: Map<Seq<Seq<char>>, Seq<char>>,
    own: Seq<Seq<char>>,
    entries: Seq<PathEntryView>,
    writes: Seq<FileWriteView>,
    path: Seq<Seq<char>>,
)
    requires
        crate::publish::sets(files, own, entries, writes),
        path.len() > 0,
        path.drop_last() == own ==> path.last() != "sequences"@ && !exists|i: int| #[trigger]
            is_brought(files, own, entries, path.last(), i),
    ensures
        crate::file_utils::text_of(crate::file_utils::written(files, writes), path)
            == crate::file_utils::text_of(files, path),
{
    if path.drop_last() != own {
        crate::publish::setting_stays_in_the_own_directory(files, own, entries, path);
    } else {
        news_are_brought(files, own, entries, path.last());
        crate::publish::files_without_news_stay(files, own, entries, path.last());
        assert(path =~= own.push(path.last()));
    }
}

/// What is set is what the app then holds: after an entry has been set, and what was held before
/// is older, the app holds the value of the entry, as of the time of the entry or, where it held
/// the value already, as before.
pub proof fn a_set_value_is_held(
    files: Map<Seq<Seq<char>>, Seq<char>>,
    own: Seq<Seq<char>>,
    entry: PathEntryView,
    writes: Seq<FileWriteView>,
)
    requires
        crate::publish::sets(files, own, seq![entry], writes),
        entry.entry.readable(),
        held_in_own(files, own, entry) matches Some(old) ==> crate::order::text_before(
            old.datetime,
            entry.entry.datetime,
        ),
    ensures
        ({
            let old = held_in_own(files, own, entry);
            let now = held_in_own(crate::file_utils::written(files, writes), own, entry);
            match old {
                Some(x) => if entry.entry.value.same(x.value) {
                    now == old
                } else {
                    now == Some(entry.entry)
                },
                None => now == Some(entry.entry),
            }
        }),
{
    let one = seq![entry];
    let old = held_in_own(files, own, entry);
    assert(crate::store::all_readable(one));
    setting_takes_the_newest_other_value(files, own, one, writes, entry);
    crate::laws::slots_are_classes(entry, entry, entry);
    match old {
        Some(x) => {
            if !entry.entry.value.same(x.value) {
                assert(brings(old, one, 0, entry));
            }
        },
        None => {
            assert(brings(old, one, 0, entry));
        },
    }
}

/// Of two settings of a path and key the one at the later time counts: after the second, the app
/// holds its value, and the file of the path has been counted once more if the value is another
/// one. Within the same second the first one stays.
pub proof fn the_later_setting_counts(
    files: Map<Seq<Seq<char>>, Seq<char>>,
    own: Seq<Seq<char>>,
    first: PathEntryView,
    first_writes: Seq<FileWriteView>,
    second: PathEntryView,
    second_writes: Seq<FileWriteView>,
)
    requires
        crate::publish::sets(files, own, seq![first], first_writes),
        crate::publish::sets(
            crate::file_utils::written(files, first_writes),
            own,
            seq![second],
            second_writes,
        ),
        second.path == first.path,
        second.entry.key.same(first.entry.key),
        first.entry.readable(),
        second.entry.readable(),
        crate::time::is_datetime(first.entry.datetime),
        crate::time::is_datetime(second.entry.datetime),
        held_in_own(files, own, first) matches Some(old) ==> crate::order::text_before(
            old.datetime,
            first.entry.datetime,
        ),
    ensures
        ({
            let between = crate::file_utils::written(files, first_writes);
            let after = crate::file_utils::written(between, second_writes);
            let hash = crate::hash::path_hash(first.path);
            let a = crate::time::instant(first.entry.datetime);
            let b = crate::time::instant(second.entry.datetime);
            let x = held_in_own(between, own, first);
            let y = held_in_own(after, own, first);
            &&& x matches Some(x) && (x == first.entry || first.entry.value.same(x.value))
            &&& a < b && !second.entry.value.same(first.entry.value) && !second.entry.value.same(
                x.unwrap().value,
            ) ==> y == Some(second.entry) && count_of(
                crate::publish::file_sequences(after, own),
                hash,
            ) != count_of(crate::publish::file_sequences(between, own), hash)
            &&& a < b ==> y is Some && (y == Some(second.entry) || second.entry.value.same(
                y.unwrap().value,
            ))
            &&& a == b && x == Some(first.entry) ==> y == x
        }),
{
    let between = crate::file_utils::written(files, first_writes);
    let after = crate::file_utils::written(between, second_writes);
    let hash = crate::hash::path_hash(first.path);
    let x = held_in_own(between, own, first);
    let one = seq![second];
    a_set_value_is_held(files, own, first, first_writes);
    crate::laws::same_slot_same_held(
        crate::publish::file_entries(between, own, hash),
        first,
        second,
    );
    crate::laws::same_slot_same_held(
        crate::publish::file_entries(after, own, hash),
        first,
        second,
    );
    assert(x is Some);
    crate::time::datetimes_are_in_chronological_order(
        first.entry.datetime,
        second.entry.datetime,
    );
    setting_counts_the_files_it_changes(between, own, one, second_writes, hash);
    if crate::time::instant(first.entry.datetime) < crate::time::instant(second.entry.datetime) {
        match held_in_own(files, own, first) {
            Some(old) => {
                crate::order::text_before_transitive(
                    old.datetime,
                    first.entry.datetime,
                    second.entry.datetime,
                );
            },
            None => {},
        }
        a_set_value_is_held(between, own, second, second_writes);
        if !second.entry.value.same(x.unwrap().value) {
            crate::laws::slots_are_classes(second, second, second);
            assert(is_brought(between, own, one, hash, 0));
        }
    } else if crate::time::instant(first.entry.datetime) == crate::time::instant(
        second.entry.datetime,
    ) && x == Some(first.entry) {
        assert(crate::store::all_readable(one));
        setting_takes_the_newest_other_value(between, own, one, second_writes, second);
        crate::order::text_before_irreflexive(first.entry.datetime);
        assert forall|i: int| !#[trigger] brings(x, one, i, second) by {}
    }
}

/// Without entries nothing is written. With entries, the sequence numbers are written last, after
/// all files that the numbers tell about, and to their file only once.
pub proof fn sequence_numbers_are_written_last(
    files: Map<Seq<Seq<char>>, Seq<char>>,
    own: Seq<Seq<char>>,
    entries: Seq<PathEntryView>,
    writes: Seq<FileWriteView>,
    i: int,
)
    requires
        crate::publish::sets(files, own, entries, writes),
    ensures
        entries.len() == 0 ==> writes.len() == 0,
        entries.len() > 0 ==> writes.len() > 0 && writes[writes.len() - 1].path == own.push(
            "sequences"@,
        ),
        0 <= i < writes.len() - 1 ==> exists|j: int|
            0 <= j < entries.len() && writes[i].path == own.push(
                crate::hash::path_hash((#[trigger] entries[j]).path),
            ),
{
    if entries.len() > 0 {
        let groups = crate::groups::hash_groups(entries);
        let before = crate::publish::group_writes(files, own, groups);
        assert(writes.drop_last() =~= before);
        if 0 <= i < writes.len() - 1 {
            assert(writes[i] == before[i]);
            let k = crate::publish::writes_are_of_groups(files, own, groups, i);
            let names = crate::groups::files_of(entries);
            crate::order::arrangement_arranges::<String>(names);
            let arranged = crate::order::arrangement::<String>(names);
            assert(arranged.contains(arranged[k]));
            assert(names.contains(arranged[k]));
            let j = choose|j: int| 0 <= j < names.len() && names[j] == arranged[k];
            assert(crate::hash::path_hash(entries[j].path) == groups[k].hash);
        }
    }
}

} // verus!
