//! Telling the listeners about entries that are already stored.

use vstd::prelude::*;

use crate::directory::child;
use crate::entry::{EntryWithPath, PathEntryView, StoredEntry, StoredEntryView};
use crate::file_utils::Files;
use crate::hash::{all_hashes, path_to_hash};
use crate::json::{Value, ValueView};
use crate::listener::{execute_entries, ListenerView, Listeners, Told};
use crate::order::{copy_path, distinct_keys, path_starts_with, same_path};
use crate::store::read_entries;

verus! {

/// The keys, if any are given.
pub open spec fn keys_view(keys: Option<&[Value]>) -> Option<Seq<ValueView>> {
    match keys {
        Some(keys) => Some(keys.deep_view()),
        None => None,
    }
}

/// The key is one of the given ones.
pub open spec fn among(keys: Seq<ValueView>, key: ValueView) -> bool {
    exists|i: int| 0 <= i < keys.len() && (#[trigger] keys[i]).same(key)
}

/// The key is one of the given ones; if none are given, every key is.
pub open spec fn wanted(keys: Option<Seq<ValueView>>, key: ValueView) -> bool {
    match keys {
        Some(keys) => among(keys, key),
        None => true,
    }
}

/// The entry is at `path`, and its key is wanted.
pub open spec fn is_at(path: Seq<Seq<char>>, keys: Option<Seq<ValueView>>) -> spec_fn(
    PathEntryView,
) -> bool {
    |e: PathEntryView| e.path == path && wanted(keys, e.entry.key)
}

/// The entry is below `prefix`, and its key is wanted.
pub open spec fn is_below(prefix: Seq<Seq<char>>, keys: Option<Seq<ValueView>>) -> spec_fn(
    PathEntryView,
) -> bool {
    |e: PathEntryView| prefix.is_prefix_of(e.path) && wanted(keys, e.entry.key)
}

/// The stored entries at `path` whose keys are wanted.
pub open spec fn stored_at(
    files: Map<Seq<Seq<char>>, Seq<char>>,
    own: Seq<Seq<char>>,
    path: Seq<Seq<char>>,
    keys: Option<Seq<ValueView>>,
) -> Seq<PathEntryView> {
    crate::publish::file_entries(files, own, crate::hash::path_hash(path)).filter(is_at(path, keys))
}

/// The stored entries in the file `hash` that are below `prefix` and whose keys are wanted.
pub open spec fn stored_below(
    files: Map<Seq<Seq<char>>, Seq<char>>,
    own: Seq<Seq<char>>,
    hash: Seq<char>,
    prefix: Seq<Seq<char>>,
    keys: Option<Seq<ValueView>>,
) -> Seq<PathEntryView> {
    crate::publish::file_entries(files, own, hash).filter(is_below(prefix, keys))
}

/// Telling the listeners about the entries may give `success`.
pub open spec fn replays<T>(
    listeners: Seq<ListenerView<T>>,
    entries: Seq<PathEntryView>,
    extra: &T,
    success: bool,
) -> bool {
    exists|kept: Seq<PathEntryView>| #[trigger]
        crate::listener::dispatched(listeners, entries, extra, kept, success)
}

/// Telling the listeners about one batch of entries after the other may give `success`.
pub open spec fn replays_all<T>(
    listeners: Seq<ListenerView<T>>,
    batches: Seq<Seq<PathEntryView>>,
    extra: &T,
    success: bool,
) -> bool {
    exists|answers: Seq<bool>|
        {
            &&& answers.len() == batches.len()
            &&& forall|i: int|
                0 <= i < batches.len() ==> replays(
                    listeners,
                    #[trigger] batches[i],
                    extra,
                    answers[i],
                )
            &&& success == #[trigger] crate::listener::all_approved(answers)
        }
}

/// What the listeners have been told after the batches of entries, one after the other.
pub open spec fn told_after_batches<T>(
    listeners: Seq<ListenerView<T>>,
    told: Seq<Seq<Told>>,
    batches: Seq<Seq<PathEntryView>>,
) -> Seq<Seq<Told>>
    decreases batches.len(),
{
    if batches.len() == 0 {
        told
    } else {
        crate::listener::told_after(
            listeners,
            told_after_batches(listeners, told, batches.drop_last()),
            batches.last(),
        )
    }
}

/// The stored entries below `prefix` whose keys are wanted, file by file.
pub open spec fn batches_below(
    files: Map<Seq<Seq<char>>, Seq<char>>,
    own: Seq<Seq<char>>,
    prefix: Seq<Seq<char>>,
    keys: Option<Seq<ValueView>>,
) -> Seq<Seq<PathEntryView>> {
    crate::hash::hash_names().map_values(
        |hash: Seq<char>| stored_below(files, own, hash, prefix, keys),
    )
}

/// The stored entries that are asked for, path by path.
pub open spec fn batches_asked(
    files: Map<Seq<Seq<char>>, Seq<char>>,
    own: Seq<Seq<char>>,
    stored: Seq<StoredEntryView>,
) -> Seq<Seq<PathEntryView>> {
    paths_asked(stored).map_values(
        |path: Seq<Seq<char>>| stored_at(files, own, path, Some(keys_asked(stored, path))),
    )
}

/// The stored entry has the given path.
pub open spec fn asks_for(path: Seq<Seq<char>>) -> spec_fn(StoredEntryView) -> bool {
    |e: StoredEntryView| e.path == path
}

/// The keys that are asked for at `path`.
pub open spec fn keys_asked(stored: Seq<StoredEntryView>, path: Seq<Seq<char>>) -> Seq<ValueView> {
    stored.filter(asks_for(path)).map_values(|e: StoredEntryView| e.key)
}

/// The paths at which something is asked for, in ascending order.
pub open spec fn paths_asked(stored: Seq<StoredEntryView>) -> Seq<Seq<Seq<char>>> {
    crate::order::arrangement::<Vec<String>>(stored.map_values(|e: StoredEntryView| e.path))
}

/// Whether a key is wanted.
fn is_wanted(keys: Option<&[Value]>, key: &Value) -> (r: bool)
    ensures
        r == wanted(keys_view(keys), key.deep_view()),
{
    let Some(some) = keys else {
        return true;
    };
    let ghost views = some.deep_view();
    let mut i: usize = 0;
    while i < some.len()
        invariant
            i <= some@.len(),
            views == some.deep_view(),
            keys_view(keys) == Some(views),
            forall|j: int| 0 <= j < i ==> !(#[trigger] views[j]).same(key.deep_view()),
        decreases some@.len() - i,
    {
        assert(views[i as int] == some@[i as int].deep_view());
        if some[i] == *key {
            assert(among(views, key.deep_view()));
            return true;
        }
        i = i + 1;
    }
    false
}

/// The entries at `path` whose keys are wanted.
fn entries_at(entries: &Vec<EntryWithPath>, path: &Vec<String>, keys: Option<&[Value]>) -> (r: Vec<
    EntryWithPath,
>)
    ensures
        r.deep_view() == entries.deep_view().filter(is_at(path.deep_view(), keys_view(keys))),
{
    let ghost all = entries.deep_view();
    let ghost asked = is_at(path.deep_view(), keys_view(keys));
    let mut r: Vec<EntryWithPath> = Vec::new();
    let mut i: usize = 0;
    proof {
        reveal(Seq::filter);
        assert(r.deep_view() =~= all.take(0).filter(asked));
    }
    while i < entries.len()
        invariant
            i <= entries@.len(),
            all == entries.deep_view(),
            asked == is_at(path.deep_view(), keys_view(keys)),
            r.deep_view() == all.take(i as int).filter(asked),
        decreases entries@.len() - i,
    {
        proof {
            reveal(Seq::filter);
            assert(all.take(i + 1).drop_last() == all.take(i as int));
        }
        let ghost done = r.deep_view();
        if same_path(&entries[i].path, path) && is_wanted(keys, &entries[i].entry.key) {
            r.push(entries[i].clone());
            assert(r.deep_view() =~= done.push(all[i as int]));
        }
        i = i + 1;
    }
    assert(all.take(all.len() as int) == all);
    r
}

/// The entries below `prefix` whose keys are wanted.
fn entries_below(
    entries: &Vec<EntryWithPath>,
    prefix: &Vec<String>,
    keys: Option<&[Value]>,
) -> (r: Vec<EntryWithPath>)
    ensures
        r.deep_view() == entries.deep_view().filter(is_below(prefix.deep_view(), keys_view(keys))),
{
    let ghost all = entries.deep_view();
    let ghost asked = is_below(prefix.deep_view(), keys_view(keys));
    let mut r: Vec<EntryWithPath> = Vec::new();
    let mut i: usize = 0;
    proof {
        reveal(Seq::filter);
        assert(r.deep_view() =~= all.take(0).filter(asked));
    }
    while i < entries.len()
        invariant
            i <= entries@.len(),
            all == entries.deep_view(),
            asked == is_below(prefix.deep_view(), keys_view(keys)),
            r.deep_view() == all.take(i as int).filter(asked),
        decreases entries@.len() - i,
    {
        proof {
            reveal(Seq::filter);
            assert(all.take(i + 1).drop_last() == all.take(i as int));
        }
        let ghost done = r.deep_view();
        if path_starts_with(&entries[i].path, prefix) && is_wanted(keys, &entries[i].entry.key) {
            r.push(entries[i].clone());
            assert(r.deep_view() =~= done.push(all[i as int]));
        }
        i = i + 1;
    }
    assert(all.take(all.len() as int) == all);
    r
}

/// Tells the listeners about the stored entries at `path` whose keys are wanted.
pub fn replay_path<T>(
    listeners: &mut Listeners<T>,
    own: &Vec<String>,
    path: &Vec<String>,
    extra: &T,
    keys: Option<&[Value]>,
    files: &Files,
) -> (success: bool)
    requires
        crate::listener::all_ready(old(listeners)@),
    ensures
        crate::listener::all_ready(final(listeners)@),
        crate::listener::in_step(old(listeners)@) ==> crate::listener::in_step(final(listeners)@),
        crate::listener::views(final(listeners)@) == crate::listener::views(old(listeners)@),
        crate::listener::told(final(listeners)@) == crate::listener::told_after(
            crate::listener::views(old(listeners)@),
            crate::listener::told(old(listeners)@),
            stored_at(files@, own.deep_view(), path.deep_view(), keys_view(keys)),
        ),
        replays(
            crate::listener::views(old(listeners)@),
            stored_at(files@, own.deep_view(), path.deep_view(), keys_view(keys)),
            extra,
            success,
        ),
{
    let hash = path_to_hash(copy_path(path));
    let file = child(own, hash.as_str());
    let stored = read_entries(files.read(&file));
    let mut entries = entries_at(&stored, path, keys);
    execute_entries(listeners, &mut entries, extra)
}

/// Tells the listeners about the stored entries below `prefix` whose keys are wanted, file by
/// file.
pub fn replay_prefix<T>(
    listeners: &mut Listeners<T>,
    own: &Vec<String>,
    prefix: &Vec<String>,
    extra: &T,
    keys: Option<&[Value]>,
    files: &Files,
) -> (success: bool)
    requires
        crate::listener::all_ready(old(listeners)@),
    ensures
        crate::listener::all_ready(final(listeners)@),
        crate::listener::in_step(old(listeners)@) ==> crate::listener::in_step(final(listeners)@),
        crate::listener::views(final(listeners)@) == crate::listener::views(old(listeners)@),
        crate::listener::told(final(listeners)@) == told_after_batches(
            crate::listener::views(old(listeners)@),
            crate::listener::told(old(listeners)@),
            batches_below(files@, own.deep_view(), prefix.deep_view(), keys_view(keys)),
        ),
        replays_all(
            crate::listener::views(old(listeners)@),
            batches_below(files@, own.deep_view(), prefix.deep_view(), keys_view(keys)),
            extra,
            success,
        ),
{
    let hashes = all_hashes();
    let ghost heard = crate::listener::views(listeners@);
    let ghost first = crate::listener::told(listeners@);
    let ghost batches = batches_below(
        files@,
        own.deep_view(),
        prefix.deep_view(),
        keys_view(keys),
    );
    let ghost mut answers: Seq<bool> = seq![];
    let mut all_success: bool = true;
    let mut i: usize = 0;
    while i < hashes.len()
        invariant
            i <= hashes@.len(),
            hashes.deep_view() == crate::hash::hash_names(),
            batches == batches_below(files@, own.deep_view(), prefix.deep_view(), keys_view(keys)),
            heard == crate::listener::views(listeners@),
            crate::listener::told(listeners@) == told_after_batches(
                heard,
                first,
                batches.take(i as int),
            ),
            crate::listener::all_ready(listeners@),
            crate::listener::in_step(old(listeners)@) ==> crate::listener::in_step(listeners@),
            answers.len() == i,
            forall|j: int|
                0 <= j < i ==> replays(heard, #[trigger] batches[j], extra, answers[j]),
            all_success == crate::listener::all_approved(answers),
        decreases hashes@.len() - i,
    {
        let ghost before = answers;
        let ghost told_before = crate::listener::told(listeners@);
        assert(batches.take(i + 1).drop_last() == batches.take(i as int));
        assert(batches.take(i + 1).last() == batches[i as int]);
        assert(hashes.deep_view()[i as int] == hashes@[i as int]@);
        let file = child(own, hashes[i].as_str());
        let stored = read_entries(files.read(&file));
        let mut entries = entries_below(&stored, prefix, keys);
        assert(entries.deep_view() == batches[i as int]);
        let mut success: bool = true;
        if !entries.is_empty() {
            success = execute_entries(listeners, &mut entries, extra);
        } else {
            proof {
                nothing_to_tell(heard, told_before, batches[i as int], extra);
            }
        }
        proof {
            answers = answers.push(success);
            assert(answers[i as int] == success);
            assert forall|j: int| 0 <= j < i implies answers[j] == before[j] by {}
        }
        all_success = all_success && success;
        i = i + 1;
    }
    assert(batches.take(batches.len() as int) == batches);
    all_success
}

/// Where there are no entries, nobody is told and nothing fails.
proof fn nothing_to_tell<T>(
    listeners: Seq<ListenerView<T>>,
    told: Seq<Seq<Told>>,
    entries: Seq<PathEntryView>,
    extra: &T,
)
    requires
        entries.len() == 0,
    ensures
        replays(listeners, entries, extra, true),
        crate::listener::told_after(listeners, told, entries) == told,
{
    let paths = crate::groups::paths_of(entries);
    let groups = crate::groups::path_groups(entries);
    crate::order::arrangement_arranges::<Vec<String>>(paths);
    let arranged = crate::order::arrangement::<Vec<String>>(paths);
    if arranged.len() > 0 {
        assert(arranged.contains(arranged[0]));
        assert(paths.contains(arranged[0]));
    }
    let answers: Seq<crate::listener::Reply> = seq![];
    assert(groups.len() == 0);
    let kept = crate::listener::gathered(groups, answers);
    assert(crate::listener::all_succeeded(answers));
    assert(crate::listener::dispatched(listeners, entries, extra, kept, true));
}

/// The keys that are asked for at `path`.
fn keys_at(stored: &Vec<StoredEntry>, path: &Vec<String>) -> (r: Vec<Value>)
    ensures
        r.deep_view() == keys_asked(stored.deep_view(), path.deep_view()),
{
    let ghost all = stored.deep_view();
    let ghost p = path.deep_view();
    let mut r: Vec<Value> = Vec::new();
    let mut i: usize = 0;
    proof {
        reveal(Seq::filter);
        assert(r.deep_view() =~= keys_asked(all.take(0), p));
    }
    while i < stored.len()
        invariant
            i <= stored@.len(),
            all == stored.deep_view(),
            p == path.deep_view(),
            r.deep_view() == keys_asked(all.take(i as int), p),
        decreases stored@.len() - i,
    {
        proof {
            reveal(Seq::filter);
            assert(all.take(i + 1).drop_last() == all.take(i as int));
        }
        let ghost done = r.deep_view();
        if same_path(&stored[i].path, path) {
            r.push(stored[i].key.clone());
            assert(r.deep_view() =~= done.push(all[i as int].key));
            assert(r.deep_view() =~= keys_asked(all.take(i + 1), p));
        }
        i = i + 1;
    }
    assert(all.take(all.len() as int) == all);
    r
}

/// Tells the listeners about the stored entries that are asked for, path by path.
pub fn replay_stored<T>(
    listeners: &mut Listeners<T>,
    own: &Vec<String>,
    stored_entries: &Vec<StoredEntry>,
    extra: &T,
    files: &Files,
) -> (success: bool)
    requires
        crate::listener::all_ready(old(listeners)@),
    ensures
        crate::listener::all_ready(final(listeners)@),
        crate::listener::in_step(old(listeners)@) ==> crate::listener::in_step(final(listeners)@),
        crate::listener::views(final(listeners)@) == crate::listener::views(old(listeners)@),
        crate::listener::told(final(listeners)@) == told_after_batches(
            crate::listener::views(old(listeners)@),
            crate::listener::told(old(listeners)@),
            batches_asked(files@, own.deep_view(), stored_entries.deep_view()),
        ),
        replays_all(
            crate::listener::views(old(listeners)@),
            batches_asked(files@, own.deep_view(), stored_entries.deep_view()),
            extra,
            success,
        ),
{
    let ghost all = stored_entries.deep_view();
    let ghost heard = crate::listener::views(listeners@);
    let ghost first = crate::listener::told(listeners@);
    let ghost batches = batches_asked(files@, own.deep_view(), all);
    let mut paths: Vec<Vec<String>> = Vec::new();
    let mut k: usize = 0;
    while k < stored_entries.len()
        invariant
            k <= stored_entries@.len(),
            all == stored_entries.deep_view(),
            paths.deep_view() == all.take(k as int).map_values(|e: StoredEntryView| e.path),
        decreases stored_entries@.len() - k,
    {
        let ghost done = paths.deep_view();
        paths.push(copy_path(&stored_entries[k].path));
        assert(paths.deep_view() =~= done.push(all[k as int].path));
        k = k + 1;
        assert(paths.deep_view() =~= all.take(k as int).map_values(|e: StoredEntryView| e.path));
    }
    assert(all.take(all.len() as int) == all);
    let paths = distinct_keys(&paths);
    let ghost mut answers: Seq<bool> = seq![];
    let mut all_success: bool = true;
    let mut i: usize = 0;
    while i < paths.len()
        invariant
            i <= paths@.len(),
            all == stored_entries.deep_view(),
            paths.deep_view() == paths_asked(all),
            batches == batches_asked(files@, own.deep_view(), all),
            heard == crate::listener::views(listeners@),
            crate::listener::told(listeners@) == told_after_batches(
                heard,
                first,
                batches.take(i as int),
            ),
            crate::listener::all_ready(listeners@),
            crate::listener::in_step(old(listeners)@) ==> crate::listener::in_step(listeners@),
            answers.len() == i,
            forall|j: int|
                0 <= j < i ==> replays(heard, #[trigger] batches[j], extra, answers[j]),
            all_success == crate::listener::all_approved(answers),
        decreases paths@.len() - i,
    {
        let ghost before = answers;
        assert(batches.take(i + 1).drop_last() == batches.take(i as int));
        assert(batches.take(i + 1).last() == batches[i as int]);
        assert(paths.deep_view()[i as int] == paths@[i as int].deep_view());
        let keys = keys_at(stored_entries, &paths[i]);
        let slice = keys.as_slice();
        assert(slice.deep_view() =~= keys.deep_view());
        let success = replay_path(listeners, own, &paths[i], extra, Some(slice), files);
        proof {
            answers = answers.push(success);
            assert(answers[i as int] == success);
            assert forall|j: int| 0 <= j < i implies answers[j] == before[j] by {}
        }
        all_success = all_success && success;
        i = i + 1;
    }
    assert(batches.take(batches.len() as int) == batches);
    all_success
}

/// Where one entry passes a test, it is all that is left.
proof fn filter_to_one(
    entries: Seq<PathEntryView>,
    pred: spec_fn(PathEntryView) -> bool,
    i: int,
)
    requires
        0 <= i < entries.len(),
        forall|j: int| 0 <= j < entries.len() ==> pred(#[trigger] entries[j]) == (j == i),
    ensures
        entries.filter(pred) == seq![entries[i]],
    decreases entries.len(),
{
    reveal(Seq::filter);
    let rest = entries.drop_last();
    let last = entries.len() - 1;
    assert(pred(entries[last]) == (last == i));
    if i == last {
        assert forall|j: int| 0 <= j < rest.len() implies !pred(rest[j]) by {
            assert(pred(entries[j]) == (j == i));
        }
        rest.lemma_all_neg_filter_empty(pred);
        assert(entries.filter(pred) =~= seq![entries[i]]);
    } else {
        assert forall|j: int| 0 <= j < rest.len() implies pred(#[trigger] rest[j]) == (j == i) by {
            assert(pred(entries[j]) == (j == i));
        }
        filter_to_one(rest, pred, i);
    }
}

/// Replaying one stored entry tells the listeners exactly what is held for its path and key, and
/// nothing if nothing is.
pub proof fn the_stored_entry_is_replayed(
    files: Map<Seq<Seq<char>>, Seq<char>>,
    own: Seq<Seq<char>>,
    slot: PathEntryView,
)
    ensures
        ({
            let stored = crate::publish::file_entries(
                files,
                own,
                crate::hash::path_hash(slot.path),
            );
            let told = stored_at(files, own, slot.path, Some(seq![slot.entry.key]));
            match crate::store::held(stored, slot) {
                Some(entry) => told == seq![PathEntryView { path: slot.path, entry }],
                None => told.len() == 0,
            }
        }),
{
    let hash = crate::hash::path_hash(slot.path);
    let stored = crate::publish::file_entries(files, own, hash);
    let keys = seq![slot.entry.key];
    let pred = is_at(slot.path, Some(keys));
    crate::laws::a_file_holds_one_entry_per_slot(
        crate::store::parsed(
            crate::file_utils::file_lines(crate::file_utils::text_of(files, own.push(hash))),
        ),
    );
    assert forall|e: PathEntryView| #[trigger] pred(e) == e.same_slot(slot) by {
        if e.path == slot.path && e.entry.key.same(slot.entry.key) {
            assert(keys[0].same(e.entry.key));
        }
    }
    crate::laws::held_is_occupied(stored, slot);
    match crate::store::held(stored, slot) {
        Some(entry) => {
            let i = choose|i: int|
                0 <= i < stored.len() && (#[trigger] stored[i]).same_slot(slot) && stored[i].entry
                    == entry;
            assert forall|j: int| 0 <= j < stored.len() implies pred(#[trigger] stored[j]) == (j
                == i) by {
                if stored[j].same_slot(slot) && j != i {
                    crate::laws::slots_are_classes(stored[j], slot, stored[i]);
                    crate::laws::slots_are_classes(stored[i], slot, stored[j]);
                }
            }
            filter_to_one(stored, pred, i);
        },
        None => {
            assert forall|j: int| 0 <= j < stored.len() implies !pred(stored[j]) by {
                if stored[j].same_slot(slot) {
                    assert(crate::store::occupied(stored, slot));
                }
            }
            stored.lemma_all_neg_filter_empty(pred);
        },
    }
}

/// Replaying what is below a prefix misses no entry that stands in the file of its path.
pub proof fn a_prefix_replay_misses_nothing(
    files: Map<Seq<Seq<char>>, Seq<char>>,
    own: Seq<Seq<char>>,
    prefix: Seq<Seq<char>>,
    keys: Option<Seq<ValueView>>,
    e: PathEntryView,
)
    requires
        crate::publish::file_entries(files, own, crate::hash::path_hash(e.path)).contains(e),
        prefix.is_prefix_of(e.path),
        wanted(keys, e.entry.key),
    ensures
        exists|i: int|
            0 <= i < crate::hash::hash_names().len() && stored_below(
                files,
                own,
                #[trigger] crate::hash::hash_names()[i],
                prefix,
                keys,
            ).contains(e),
{
    let hash = crate::hash::path_hash(e.path);
    let stored = crate::publish::file_entries(files, own, hash);
    crate::hash::path_hash_is_listed(e.path);
    let names = crate::hash::hash_names();
    let i = choose|i: int| 0 <= i < names.len() && names[i] == hash;
    let k = choose|k: int| 0 <= k < stored.len() && stored[k] == e;
    stored.lemma_filter_contains(is_below(prefix, keys), k);
    assert(stored_below(files, own, names[i], prefix, keys).contains(e));
}

} // verus!
