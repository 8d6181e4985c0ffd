//! What holds of telling the listeners about stored entries.

use vstd::prelude::*;

use crate::entry::{PathEntryView, StoredEntryView};
use crate::json::ValueView;
use crate::listener::{ListenerView, Told};

verus! {

/// What a listener has been told comes from one of the batches.
spec fn comes_from_batch<T>(
    listeners: Seq<ListenerView<T>>,
    i: int,
    batches: Seq<Seq<PathEntryView>>,
    one: Told,
) -> bool {
    exists|b: int|
        0 <= b < batches.len() && crate::telling::hears(
            listeners,
            i,
            listeners[i].subpath + one.path,
            crate::telling::news_at(#[trigger] batches[b], listeners[i].subpath + one.path),
            one,
        )
}

/// No path occurs in two batches.
pub open spec fn paths_apart(batches: Seq<Seq<PathEntryView>>) -> bool {
    forall|a: int, b: int, x: PathEntryView, y: PathEntryView|
        0 <= a < b < batches.len() && #[trigger] batches[a].contains(x)
            && #[trigger] batches[b].contains(y) ==> x.path != y.path
}

/// What has been told stays told when more is told.
pub(crate) proof fn still_told(
    first: nat,
    before: Seq<Told>,
    after: Seq<Told>,
    subpath: Seq<Seq<char>>,
    e: PathEntryView,
)
    requires
        before.is_prefix_of(after),
        crate::telling::was_told(first, before, subpath, e),
    ensures
        crate::telling::was_told(first, after, subpath, e),
{
    let k = choose|k: int|
        first <= k < before.len() && subpath + (#[trigger] before[k]).path == e.path
            && before[k].entries.contains(e.entry);
    assert(after[k] == before[k]);
}

/// What has been told since some time has been told since any time before.
pub(crate) proof fn told_since_is_told_before(
    first: nat,
    later: nat,
    told: Seq<Told>,
    subpath: Seq<Seq<char>>,
    e: PathEntryView,
)
    requires
        first <= later,
        crate::telling::was_told(later, told, subpath, e),
    ensures
        crate::telling::was_told(first, told, subpath, e),
{
    let k = choose|k: int|
        later <= k < told.len() && subpath + (#[trigger] told[k]).path == e.path
            && told[k].entries.contains(e.entry);
}

/// What the listener at position `i` has been told after batches of entries.
proof fn told_by_batches<T>(
    listeners: Seq<ListenerView<T>>,
    told: Seq<Seq<Told>>,
    batches: Seq<Seq<PathEntryView>>,
    i: int,
)
    requires
        0 <= i < told.len(),
    ensures
        crate::replay::told_after_batches(listeners, told, batches).len() == told.len(),
        told[i].is_prefix_of(crate::replay::told_after_batches(listeners, told, batches)[i]),
        forall|k: int|
            told[i].len() <= k < crate::replay::told_after_batches(
                listeners,
                told,
                batches,
            )[i].len() ==> comes_from_batch(
                listeners,
                i,
                batches,
                #[trigger] crate::replay::told_after_batches(listeners, told, batches)[i][k],
            ),
        paths_apart(batches) ==> crate::telling::distinct_paths(
            told[i].len(),
            crate::replay::told_after_batches(listeners, told, batches)[i],
        ),
    decreases batches.len(),
{
    if batches.len() > 0 {
        let rest = batches.drop_last();
        let batch = batches.last();
        let last = batches.len() - 1;
        let first = told[i].len();
        let between = crate::replay::told_after_batches(listeners, told, rest);
        let before = between[i];
        let after = crate::replay::told_after_batches(listeners, told, batches)[i];
        told_by_batches(listeners, told, rest, i);
        crate::telling::tellings_are_added(listeners, between, batch, i);
        assert(batches[last] == batch);
        assert forall|k: int| first <= k < after.len() implies comes_from_batch(
            listeners,
            i,
            batches,
            #[trigger] after[k],
        ) by {
            if k < before.len() {
                assert(comes_from_batch(listeners, i, rest, before[k]));
                let path = listeners[i].subpath + before[k].path;
                let b = choose|b: int|
                    0 <= b < rest.len() && crate::telling::hears(
                        listeners,
                        i,
                        path,
                        crate::telling::news_at(#[trigger] rest[b], path),
                        before[k],
                    );
                assert(batches[b] == rest[b]);
            } else {
                crate::telling::only_what_came_is_told(listeners, between, batch, i, k);
            }
        }
        if paths_apart(batches) {
            assert forall|a: int, b: int, x: PathEntryView, y: PathEntryView|
                0 <= a < b < rest.len() && #[trigger] rest[a].contains(x)
                    && #[trigger] rest[b].contains(y) implies x.path != y.path by {
                assert(batches[a].contains(x) && batches[b].contains(y));
            }
            crate::telling::tellings_are_distinct(listeners, between, batch, i);
            assert forall|k: int, l: int| first <= k < l < after.len() implies (
            #[trigger] after[k]).path != (#[trigger] after[l]).path by {
                if l < before.len() {
                    assert(after[k] == before[k] && after[l] == before[l]);
                } else if k < before.len() {
                    assert(after[k] == before[k]);
                    assert(comes_from_batch(listeners, i, rest, before[k]));
                    let path = listeners[i].subpath + before[k].path;
                    let b = choose|b: int|
                        0 <= b < rest.len() && crate::telling::hears(
                            listeners,
                            i,
                            path,
                            crate::telling::news_at(#[trigger] rest[b], path),
                            before[k],
                        );
                    crate::telling::only_what_came_is_told(listeners, between, batch, i, l);
                    if after[k].path == after[l].path {
                        let x = crate::telling::news_at(rest[b], path)[0];
                        let y = crate::telling::news_at(batch, path)[0];
                        assert(crate::telling::news_at(rest[b], path).contains(x));
                        assert(crate::telling::news_at(batch, path).contains(y));
                        crate::telling::news_are_the_entries_at_the_path(rest[b], path, x);
                        crate::telling::news_are_the_entries_at_the_path(batch, path, y);
                        assert(batches[b].contains(PathEntryView { path, entry: x }));
                        assert(batches[last].contains(PathEntryView { path, entry: y }));
                    }
                }
            }
        }
    }
}

/// Every entry of a batch is told.
proof fn batches_are_told<T>(
    listeners: Seq<ListenerView<T>>,
    told: Seq<Seq<Told>>,
    batches: Seq<Seq<PathEntryView>>,
    i: int,
    b: int,
    e: PathEntryView,
)
    requires
        0 <= i < told.len(),
        0 <= b < batches.len(),
        batches[b].contains(e),
        !crate::listener::is_maintenance(e.path, e.entry.key),
        crate::listener::listens_first(listeners, i, e.path),
    ensures
        crate::telling::was_told(
            told[i].len(),
            crate::replay::told_after_batches(listeners, told, batches)[i],
            listeners[i].subpath,
            e,
        ),
    decreases batches.len(),
{
    let rest = batches.drop_last();
    let between = crate::replay::told_after_batches(listeners, told, rest);
    let after = crate::replay::told_after_batches(listeners, told, batches)[i];
    told_by_batches(listeners, told, rest, i);
    crate::telling::tellings_are_added(listeners, between, batches.last(), i);
    if b < rest.len() {
        assert(rest[b] == batches[b]);
        batches_are_told(listeners, told, rest, i, b, e);
        still_told(told[i].len(), between[i], after, listeners[i].subpath, e);
    } else {
        crate::telling::every_entry_that_came_is_told(listeners, between, batches.last(), i, e);
        let k = choose|k: int|
            between[i].len() <= k < after.len() && listeners[i].subpath + (
            #[trigger] after[k]).path == e.path && after[k].entries.contains(e.entry);
        assert(told[i].len() <= k);
    }
}

/// The entry that a listener has been told at a position.
pub open spec fn entry_told<T>(
    listeners: Seq<ListenerView<T>>,
    i: int,
    one: Told,
    j: int,
) -> PathEntryView {
    PathEntryView { path: listeners[i].subpath + one.path, entry: one.entries[j] }
}

/// An entry that has been told since stands in one of the batches.
proof fn told_stand_in_batches<T>(
    listeners: Seq<ListenerView<T>>,
    told: Seq<Seq<Told>>,
    batches: Seq<Seq<PathEntryView>>,
    i: int,
    k: int,
    j: int,
) -> (b: int)
    requires
        0 <= i < told.len(),
        told[i].len() <= k < crate::replay::told_after_batches(listeners, told, batches)[i].len(),
        0 <= j < crate::replay::told_after_batches(listeners, told, batches)[i][k].entries.len(),
    ensures
        ({
            let one = crate::replay::told_after_batches(listeners, told, batches)[i][k];
            let e = entry_told(listeners, i, one, j);
            &&& 0 <= b < batches.len()
            &&& batches[b].contains(e)
            &&& !crate::listener::is_maintenance(e.path, e.entry.key)
            &&& crate::listener::listens_first(listeners, i, e.path)
        }),
{
    told_by_batches(listeners, told, batches, i);
    let one = crate::replay::told_after_batches(listeners, told, batches)[i][k];
    let path = listeners[i].subpath + one.path;
    assert(comes_from_batch(listeners, i, batches, one));
    let b = choose|b: int|
        0 <= b < batches.len() && crate::telling::hears(
            listeners,
            i,
            path,
            crate::telling::news_at(#[trigger] batches[b], path),
            one,
        );
    assert(one.entries.contains(one.entries[j]));
    crate::telling::news_are_the_entries_at_the_path(batches[b], path, one.entries[j]);
    b
}

/// The key is the same JSON value as one of the keys.
pub open spec fn is_one_of(keys: Seq<ValueView>, key: ValueView) -> bool {
    exists|m: int| 0 <= m < keys.len() && (#[trigger] keys[m]).same(key)
}

/// The key is among those that are asked for; where none are named, every key is.
pub open spec fn is_asked(keys: Option<Seq<ValueView>>, key: ValueView) -> bool {
    match keys {
        Some(keys) => is_one_of(keys, key),
        None => true,
    }
}

/// The entry stands in the file of its path.
pub open spec fn is_stored(
    files: Map<Seq<Seq<char>>, Seq<char>>,
    own: Seq<Seq<char>>,
    e: PathEntryView,
) -> bool {
    crate::publish::file_entries(files, own, crate::hash::path_hash(e.path)).contains(e)
}

/// An exact replay finds exactly the stored entries at the path with a key that is asked for.
pub proof fn an_exact_replay_is_of_the_path(
    files: Map<Seq<Seq<char>>, Seq<char>>,
    own: Seq<Seq<char>>,
    path: Seq<Seq<char>>,
    keys: Option<Seq<ValueView>>,
    e: PathEntryView,
)
    ensures
        crate::replay::stored_at(files, own, path, keys).contains(e) <==> is_stored(files, own, e)
            && e.path == path && is_asked(keys, e.entry.key),
{
    let stored = crate::publish::file_entries(files, own, crate::hash::path_hash(path));
    let pred = crate::replay::is_at(path, keys);
    let some = stored.filter(pred);
    if some.contains(e) {
        let k = choose|k: int| 0 <= k < some.len() && some[k] == e;
        stored.lemma_filter_contains_rev(pred, e);
        stored.lemma_filter_pred(pred, k);
    }
    if is_stored(files, own, e) && e.path == path && is_asked(keys, e.entry.key) {
        let i = choose|i: int| 0 <= i < stored.len() && stored[i] == e;
        assert(pred(e));
        stored.lemma_filter_contains(pred, i);
    }
}

/// An exact replay tells nothing but stored entries at the path with a key that is asked for, all
/// of them at once.
pub proof fn an_exact_replay_tells_nothing_else<T>(
    listeners: Seq<ListenerView<T>>,
    told: Seq<Seq<Told>>,
    files: Map<Seq<Seq<char>>, Seq<char>>,
    own: Seq<Seq<char>>,
    path: Seq<Seq<char>>,
    keys: Option<Seq<ValueView>>,
    i: int,
    k: int,
    j: int,
)
    requires
        0 <= i < told.len(),
        ({
            let after = crate::listener::told_after(
                listeners,
                told,
                crate::replay::stored_at(files, own, path, keys),
            )[i];
            told[i].len() <= k < after.len() && 0 <= j < after[k].entries.len()
        }),
    ensures
        ({
            let after = crate::listener::told_after(
                listeners,
                told,
                crate::replay::stored_at(files, own, path, keys),
            )[i];
            let e = entry_told(listeners, i, after[k], j);
            &&& after.len() == told[i].len() + 1
            &&& e.path == path
            &&& is_asked(keys, e.entry.key)
            &&& is_stored(files, own, e)
            &&& !crate::listener::is_maintenance(e.path, e.entry.key)
            &&& crate::listener::listens_first(listeners, i, path)
        }),
{
    let batch = crate::replay::stored_at(files, own, path, keys);
    let after = crate::listener::told_after(listeners, told, batch)[i];
    crate::telling::every_entry_told_came(listeners, told, batch, i, k, j);
    let e = entry_told(listeners, i, after[k], j);
    an_exact_replay_is_of_the_path(files, own, path, keys, e);
    crate::telling::tellings_are_distinct(listeners, told, batch, i);
    if after.len() > told[i].len() + 1 {
        let a = told[i].len() as int;
        let b = a + 1;
        crate::telling::only_what_came_is_told(listeners, told, batch, i, a);
        crate::telling::only_what_came_is_told(listeners, told, batch, i, b);
        crate::telling::every_entry_told_came(listeners, told, batch, i, a, 0);
        crate::telling::every_entry_told_came(listeners, told, batch, i, b, 0);
        let x = entry_told(listeners, i, after[a], 0);
        let y = entry_told(listeners, i, after[b], 0);
        an_exact_replay_is_of_the_path(files, own, path, keys, x);
        an_exact_replay_is_of_the_path(files, own, path, keys, y);
        let n = listeners[i].subpath.len() as int;
        assert(after[a].path =~= path.skip(n));
        assert(after[b].path =~= path.skip(n));
    }
}

/// An exact replay tells the first listener of the path every stored entry at it with a key that
/// is asked for, but the maintenance entries.
pub proof fn an_exact_replay_tells_everything<T>(
    listeners: Seq<ListenerView<T>>,
    told: Seq<Seq<Told>>,
    files: Map<Seq<Seq<char>>, Seq<char>>,
    own: Seq<Seq<char>>,
    path: Seq<Seq<char>>,
    keys: Option<Seq<ValueView>>,
    i: int,
    e: PathEntryView,
)
    requires
        0 <= i < told.len(),
        crate::listener::listens_first(listeners, i, path),
        is_stored(files, own, e),
        e.path == path,
        is_asked(keys, e.entry.key),
        !crate::listener::is_maintenance(e.path, e.entry.key),
    ensures
        crate::telling::was_told(
            told[i].len(),
            crate::listener::told_after(
                listeners,
                told,
                crate::replay::stored_at(files, own, path, keys),
            )[i],
            listeners[i].subpath,
            e,
        ),
{
    an_exact_replay_is_of_the_path(files, own, path, keys, e);
    crate::telling::every_entry_that_came_is_told(
        listeners,
        told,
        crate::replay::stored_at(files, own, path, keys),
        i,
        e,
    );
}

/// The batches of a prefix replay hold exactly the entries of the own files whose paths begin
/// with all components of the prefix and whose keys are asked for.
pub proof fn a_prefix_replay_is_of_the_prefix(
    files: Map<Seq<Seq<char>>, Seq<char>>,
    own: Seq<Seq<char>>,
    prefix: Seq<Seq<char>>,
    keys: Option<Seq<ValueView>>,
    b: int,
    e: PathEntryView,
)
    requires
        0 <= b < crate::hash::hash_names().len(),
    ensures
        crate::replay::batches_below(files, own, prefix, keys).len()
            == crate::hash::hash_names().len(),
        crate::replay::batches_below(files, own, prefix, keys)[b].contains(e)
            <==> crate::publish::file_entries(files, own, crate::hash::hash_names()[b]).contains(e)
            && prefix.len() <= e.path.len() && (forall|m: int|
            0 <= m < prefix.len() ==> #[trigger] e.path[m] == prefix[m]) && is_asked(
            keys,
            e.entry.key,
        ),
{
    let hash = crate::hash::hash_names()[b];
    let stored = crate::publish::file_entries(files, own, hash);
    let pred = crate::replay::is_below(prefix, keys);
    let some = stored.filter(pred);
    let begins = prefix.len() <= e.path.len() && (forall|m: int|
        0 <= m < prefix.len() ==> #[trigger] e.path[m] == prefix[m]);
    assert(prefix.is_prefix_of(e.path) == begins) by {
        if begins {
            assert(prefix =~= e.path.subrange(0, prefix.len() as int));
        } else if prefix.is_prefix_of(e.path) {
            assert forall|m: int| 0 <= m < prefix.len() implies #[trigger] e.path[m] == prefix[m] by {
                assert(e.path.subrange(0, prefix.len() as int)[m] == e.path[m]);
            }
        }
    }
    assert(pred(e) == (begins && is_asked(keys, e.entry.key)));
    if some.contains(e) {
        let k = choose|k: int| 0 <= k < some.len() && some[k] == e;
        stored.lemma_filter_contains_rev(pred, e);
        stored.lemma_filter_pred(pred, k);
    }
    if stored.contains(e) && pred(e) {
        let i = choose|i: int| 0 <= i < stored.len() && stored[i] == e;
        stored.lemma_filter_contains(pred, i);
    }
    assert(crate::replay::batches_below(files, own, prefix, keys)[b] == some);
}

/// A prefix replay tells nothing else: every entry that a listener is told has a path that begins
/// with all components of the prefix and a key that is asked for, stands in one of the own files,
/// and is no maintenance entry.
pub proof fn a_prefix_replay_tells_nothing_else<T>(
    listeners: Seq<ListenerView<T>>,
    told: Seq<Seq<Told>>,
    files: Map<Seq<Seq<char>>, Seq<char>>,
    own: Seq<Seq<char>>,
    prefix: Seq<Seq<char>>,
    keys: Option<Seq<ValueView>>,
    i: int,
    k: int,
    j: int,
)
    requires
        0 <= i < told.len(),
        ({
            let after = crate::replay::told_after_batches(
                listeners,
                told,
                crate::replay::batches_below(files, own, prefix, keys),
            )[i];
            told[i].len() <= k < after.len() && 0 <= j < after[k].entries.len()
        }),
    ensures
        ({
            let after = crate::replay::told_after_batches(
                listeners,
                told,
                crate::replay::batches_below(files, own, prefix, keys),
            )[i];
            let e = entry_told(listeners, i, after[k], j);
            &&& prefix.len() <= e.path.len()
            &&& forall|m: int| 0 <= m < prefix.len() ==> #[trigger] e.path[m] == prefix[m]
            &&& is_asked(keys, e.entry.key)
            &&& exists|hash: Seq<char>| #[trigger]
                crate::hash::hash_names().contains(hash) && crate::publish::file_entries(
                    files,
                    own,
                    hash,
                ).contains(e)
            &&& !crate::listener::is_maintenance(e.path, e.entry.key)
            &&& crate::listener::listens_first(listeners, i, e.path)
        }),
{
    let batches = crate::replay::batches_below(files, own, prefix, keys);
    let one = crate::replay::told_after_batches(listeners, told, batches)[i][k];
    let e = entry_told(listeners, i, one, j);
    let b = told_stand_in_batches(listeners, told, batches, i, k, j);
    a_prefix_replay_is_of_the_prefix(files, own, prefix, keys, b, e);
    assert(crate::hash::hash_names().contains(crate::hash::hash_names()[b]));
}

/// A prefix replay tells everything: every entry that stands in the file of its path, with a path
/// that begins with all components of the prefix and a key that is asked for, is told to the
/// first listener of its path, unless it is a maintenance entry.
pub proof fn a_prefix_replay_tells_everything<T>(
    listeners: Seq<ListenerView<T>>,
    told: Seq<Seq<Told>>,
    files: Map<Seq<Seq<char>>, Seq<char>>,
    own: Seq<Seq<char>>,
    prefix: Seq<Seq<char>>,
    keys: Option<Seq<ValueView>>,
    i: int,
    e: PathEntryView,
)
    requires
        0 <= i < told.len(),
        is_stored(files, own, e),
        prefix.len() <= e.path.len(),
        forall|m: int| 0 <= m < prefix.len() ==> #[trigger] e.path[m] == prefix[m],
        is_asked(keys, e.entry.key),
        !crate::listener::is_maintenance(e.path, e.entry.key),
        crate::listener::listens_first(listeners, i, e.path),
    ensures
        crate::telling::was_told(
            told[i].len(),
            crate::replay::told_after_batches(
                listeners,
                told,
                crate::replay::batches_below(files, own, prefix, keys),
            )[i],
            listeners[i].subpath,
            e,
        ),
{
    let names = crate::hash::hash_names();
    crate::hash::path_hash_is_listed(e.path);
    let b = choose|b: int| 0 <= b < names.len() && names[b] == crate::hash::path_hash(e.path);
    a_prefix_replay_is_of_the_prefix(files, own, prefix, keys, b, e);
    batches_are_told(
        listeners,
        told,
        crate::replay::batches_below(files, own, prefix, keys),
        i,
        b,
        e,
    );
}

/// Where every own entry stands in the file of its path, a prefix replay tells each listener at
/// most once about each path.
pub proof fn a_prefix_replay_tells_each_path_once<T>(
    listeners: Seq<ListenerView<T>>,
    told: Seq<Seq<Told>>,
    files: Map<Seq<Seq<char>>, Seq<char>>,
    own: Seq<Seq<char>>,
    prefix: Seq<Seq<char>>,
    keys: Option<Seq<ValueView>>,
    i: int,
)
    requires
        0 <= i < told.len(),
        forall|hash: Seq<char>, e: PathEntryView| #[trigger]
            crate::publish::file_entries(files, own, hash).contains(e)
                ==> crate::hash::path_hash(e.path) == hash,
    ensures
        crate::telling::distinct_paths(
            told[i].len(),
            crate::replay::told_after_batches(
                listeners,
                told,
                crate::replay::batches_below(files, own, prefix, keys),
            )[i],
        ),
{
    let batches = crate::replay::batches_below(files, own, prefix, keys);
    let names = crate::hash::hash_names();
    crate::hash::hash_names_are_distinct();
    assert forall|a: int, b: int, x: PathEntryView, y: PathEntryView|
        0 <= a < b < batches.len() && #[trigger] batches[a].contains(x)
            && #[trigger] batches[b].contains(y) implies x.path != y.path by {
        a_prefix_replay_is_of_the_prefix(files, own, prefix, keys, a, x);
        a_prefix_replay_is_of_the_prefix(files, own, prefix, keys, b, y);
        assert(names[a] != names[b]);
    }
    told_by_batches(listeners, told, batches, i);
}

/// The stored entry is one that is asked for: by its own path, and by its own key.
pub open spec fn is_asked_for(asked: Seq<StoredEntryView>, e: PathEntryView) -> bool {
    exists|m: int|
        0 <= m < asked.len() && (#[trigger] asked[m]).path == e.path && asked[m].key.same(
            e.entry.key,
        )
}

/// What is asked for at a path are the keys of the stored entries with this path.
proof fn keys_are_asked_by_path(
    asked: Seq<StoredEntryView>,
    path: Seq<Seq<char>>,
    key: ValueView,
)
    ensures
        is_asked(Some(crate::replay::keys_asked(asked, path)), key) <==> exists|m: int|
            0 <= m < asked.len() && (#[trigger] asked[m]).path == path && asked[m].key.same(key),
{
    let pred = crate::replay::asks_for(path);
    let some = asked.filter(pred);
    let keys = crate::replay::keys_asked(asked, path);
    if is_asked(Some(keys), key) {
        let k = choose|k: int| 0 <= k < keys.len() && (#[trigger] keys[k]).same(key);
        assert(some.contains(some[k]));
        asked.lemma_filter_contains_rev(pred, some[k]);
        asked.lemma_filter_pred(pred, k);
        let m = choose|m: int| 0 <= m < asked.len() && asked[m] == some[k];
        assert(asked[m].path == path && asked[m].key.same(key));
    }
    if exists|m: int|
        0 <= m < asked.len() && (#[trigger] asked[m]).path == path && asked[m].key.same(key) {
        let m = choose|m: int|
            0 <= m < asked.len() && (#[trigger] asked[m]).path == path && asked[m].key.same(key);
        asked.lemma_filter_contains(pred, m);
        let k = choose|k: int| 0 <= k < some.len() && some[k] == asked[m];
        assert(keys[k] == some[k].key);
        assert(is_one_of(keys, key));
    }
}

/// An entry stands in a batch of a replay of stored entries exactly if it stands in the file of
/// its path and is asked for, by its own path and its own key.
pub proof fn a_replay_is_of_what_is_asked_for(
    files: Map<Seq<Seq<char>>, Seq<char>>,
    own: Seq<Seq<char>>,
    asked: Seq<StoredEntryView>,
    e: PathEntryView,
)
    ensures
        (exists|b: int|
            0 <= b < crate::replay::batches_asked(files, own, asked).len() && (
            #[trigger] crate::replay::batches_asked(files, own, asked)[b]).contains(e))
            <==> is_stored(files, own, e) && is_asked_for(asked, e),
        crate::replay::batches_asked(files, own, asked).len() == crate::replay::paths_asked(
            asked,
        ).len(),
        forall|b: int|
            0 <= b < crate::replay::batches_asked(files, own, asked).len() && (
            #[trigger] crate::replay::batches_asked(files, own, asked)[b]).contains(e)
                ==> crate::replay::paths_asked(asked)[b] == e.path,
{
    let batches = crate::replay::batches_asked(files, own, asked);
    let all = asked.map_values(|e: StoredEntryView| e.path);
    let paths = crate::replay::paths_asked(asked);
    crate::order::arrangement_arranges::<Vec<String>>(all);
    assert forall|b: int| 0 <= b < batches.len() && (#[trigger] batches[b]).contains(e) implies
        paths[b] == e.path && is_stored(files, own, e) && is_asked_for(asked, e) by {
        let keys = crate::replay::keys_asked(asked, paths[b]);
        an_exact_replay_is_of_the_path(files, own, paths[b], Some(keys), e);
        keys_are_asked_by_path(asked, paths[b], e.entry.key);
    }
    if is_stored(files, own, e) && is_asked_for(asked, e) {
        let m = choose|m: int|
            0 <= m < asked.len() && (#[trigger] asked[m]).path == e.path && asked[m].key.same(
                e.entry.key,
            );
        assert(all[m] == e.path);
        assert(all.contains(e.path));
        assert(paths.contains(e.path));
        let b = choose|b: int| 0 <= b < paths.len() && paths[b] == e.path;
        let keys = crate::replay::keys_asked(asked, e.path);
        keys_are_asked_by_path(asked, e.path, e.entry.key);
        an_exact_replay_is_of_the_path(files, own, e.path, Some(keys), e);
        assert(batches[b].contains(e));
    }
}

/// A replay of stored entries tells nothing else: every entry that a listener is told stands in
/// the file of its path and is asked for, by its own path and its own key.
pub proof fn a_replay_tells_only_what_is_asked_for<T>(
    listeners: Seq<ListenerView<T>>,
    told: Seq<Seq<Told>>,
    files: Map<Seq<Seq<char>>, Seq<char>>,
    own: Seq<Seq<char>>,
    asked: Seq<StoredEntryView>,
    i: int,
    k: int,
    j: int,
)
    requires
        0 <= i < told.len(),
        ({
            let after = crate::replay::told_after_batches(
                listeners,
                told,
                crate::replay::batches_asked(files, own, asked),
            )[i];
            told[i].len() <= k < after.len() && 0 <= j < after[k].entries.len()
        }),
    ensures
        ({
            let after = crate::replay::told_after_batches(
                listeners,
                told,
                crate::replay::batches_asked(files, own, asked),
            )[i];
            let e = entry_told(listeners, i, after[k], j);
            &&& is_stored(files, own, e)
            &&& is_asked_for(asked, e)
            &&& !crate::listener::is_maintenance(e.path, e.entry.key)
            &&& crate::listener::listens_first(listeners, i, e.path)
        }),
{
    let batches = crate::replay::batches_asked(files, own, asked);
    let one = crate::replay::told_after_batches(listeners, told, batches)[i][k];
    let e = entry_told(listeners, i, one, j);
    let b = told_stand_in_batches(listeners, told, batches, i, k, j);
    a_replay_is_of_what_is_asked_for(files, own, asked, e);
}

/// A replay of stored entries tells the first listener of its path every entry that stands in the
/// file of its path and is asked for, unless it is a maintenance entry, and tells no listener
/// twice about a path.
pub proof fn a_replay_tells_what_is_asked_for_once<T>(
    listeners: Seq<ListenerView<T>>,
    told: Seq<Seq<Told>>,
    files: Map<Seq<Seq<char>>, Seq<char>>,
    own: Seq<Seq<char>>,
    asked: Seq<StoredEntryView>,
    i: int,
    e: PathEntryView,
)
    requires
        0 <= i < told.len(),
    ensures
        ({
            let after = crate::replay::told_after_batches(
                listeners,
                told,
                crate::replay::batches_asked(files, own, asked),
            )[i];
            &&& is_stored(files, own, e) && is_asked_for(asked, e)
                && !crate::listener::is_maintenance(e.path, e.entry.key)
                && crate::listener::listens_first(listeners, i, e.path)
                ==> crate::telling::was_told(told[i].len(), after, listeners[i].subpath, e)
            &&& crate::telling::distinct_paths(told[i].len(), after)
        }),
{
    let batches = crate::replay::batches_asked(files, own, asked);
    let paths = crate::replay::paths_asked(asked);
    let all = asked.map_values(|e: StoredEntryView| e.path);
    crate::order::arrangement_arranges::<Vec<String>>(all);
    a_replay_is_of_what_is_asked_for(files, own, asked, e);
    if is_stored(files, own, e) && is_asked_for(asked, e) && !crate::listener::is_maintenance(
        e.path,
        e.entry.key,
    ) && crate::listener::listens_first(listeners, i, e.path) {
        let b = choose|b: int| 0 <= b < batches.len() && (#[trigger] batches[b]).contains(e);
        batches_are_told(listeners, told, batches, i, b, e);
    }
    assert forall|a: int, b: int, x: PathEntryView, y: PathEntryView|
        0 <= a < b < batches.len() && #[trigger] batches[a].contains(x)
            && #[trigger] batches[b].contains(y) implies x.path != y.path by {
        a_replay_is_of_what_is_asked_for(files, own, asked, x);
        a_replay_is_of_what_is_asked_for(files, own, asked, y);
        assert(<Vec<String> as crate::order::Key>::before(paths[a], paths[b]));
        <Vec<String> as crate::order::Key>::before_irreflexive(paths[a]);
    }
    told_by_batches(listeners, told, batches, i);
}

/// What has been told leads through the batches, each told once, in their order.
pub open spec fn leads_through_batches<T>(
    listeners: Seq<ListenerView<T>>,
    batches: Seq<Seq<PathEntryView>>,
    histories: Seq<Seq<Seq<Told>>>,
) -> bool {
    &&& histories.len() == batches.len() + 1
    &&& forall|b: int|
        0 <= b < batches.len() ==> histories[b + 1] == crate::listener::told_after(
            listeners,
            histories[b],
            #[trigger] batches[b],
        )
}

/// Each of the batches is told once, one after the other.
pub proof fn each_batch_is_told_once<T>(
    listeners: Seq<ListenerView<T>>,
    told: Seq<Seq<Told>>,
    batches: Seq<Seq<PathEntryView>>,
)
    ensures
        exists|histories: Seq<Seq<Seq<Told>>>| #[trigger]
            leads_through_batches(listeners, batches, histories) && histories[0] == told
                && histories[batches.len() as int] == crate::replay::told_after_batches(
                listeners,
                told,
                batches,
            ),
    decreases batches.len(),
{
    let after = crate::replay::told_after_batches(listeners, told, batches);
    if batches.len() == 0 {
        let histories = seq![told];
        assert(leads_through_batches(listeners, batches, histories));
    } else {
        let rest = batches.drop_last();
        each_batch_is_told_once(listeners, told, rest);
        let some = choose|some: Seq<Seq<Seq<Told>>>| #[trigger]
            leads_through_batches(listeners, rest, some) && some[0] == told
                && some[rest.len() as int] == crate::replay::told_after_batches(
                listeners,
                told,
                rest,
            );
        let histories = some.push(after);
        assert forall|b: int| 0 <= b < batches.len() implies histories[b + 1]
            == crate::listener::told_after(
            listeners,
            histories[b],
            #[trigger] batches[b],
        ) by {
            if b < rest.len() {
                assert(rest[b] == batches[b]);
            }
        }
        assert(leads_through_batches(listeners, batches, histories));
    }
}

} // verus!
