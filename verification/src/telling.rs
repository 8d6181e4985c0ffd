//! What holds of what the listeners are told.

use vstd::prelude::*;

use crate::entry::{EntryView, PathEntryView};
use crate::listener::{ListenerView, Told};

verus! {

/// Of the entries, those at `path` that are no maintenance entries.
pub open spec fn news_at(entries: Seq<PathEntryView>, path: Seq<Seq<char>>) -> Seq<EntryView> {
    entries.filter(
        |e: PathEntryView| e.path == path && !crate::listener::is_maintenance(path, e.entry.key),
    ).map_values(|e: PathEntryView| e.entry)
}

/// The entries at a path are told in the order in which they came.
proof fn news_in_order(entries: Seq<PathEntryView>, path: Seq<Seq<char>>)
    ensures
        crate::groups::bare(entries.filter(crate::groups::lies_at(path))).filter(
            crate::listener::is_news(path),
        ) == news_at(entries, path),
    decreases entries.len(),
{
    reveal(Seq::filter);
    let here = crate::groups::lies_at(path);
    let news = crate::listener::is_news(path);
    let both = |e: PathEntryView|
        e.path == path && !crate::listener::is_maintenance(path, e.entry.key);
    let told = |e: PathEntryView| e.entry;
    if entries.len() > 0 {
        let rest = entries.drop_last();
        let last = entries.last();
        news_in_order(rest, path);
        if here(last) {
            let all = crate::groups::bare(entries.filter(here));
            assert(all =~= crate::groups::bare(rest.filter(here)).push(last.entry));
            assert(all.drop_last() =~= crate::groups::bare(rest.filter(here)));
            assert(both(last) == news(last.entry));
            if both(last) {
                assert(entries.filter(both).map_values(told) =~= rest.filter(both).map_values(
                    told,
                ).push(last.entry));
            }
        }
    } else {
        assert(crate::groups::bare(entries.filter(here)).filter(news) =~= news_at(entries, path));
    }
}

/// An entry is among the news at a path exactly if it is at the path and no maintenance entry.
pub proof fn news_are_the_entries_at_the_path(
    entries: Seq<PathEntryView>,
    path: Seq<Seq<char>>,
    e: EntryView,
)
    ensures
        news_at(entries, path).contains(e) <==> entries.contains(PathEntryView { path, entry: e })
            && !crate::listener::is_maintenance(path, e.key),
{
    let both = |e: PathEntryView|
        e.path == path && !crate::listener::is_maintenance(path, e.entry.key);
    let some = entries.filter(both);
    let one = PathEntryView { path, entry: e };
    if news_at(entries, path).contains(e) {
        let k = choose|k: int| 0 <= k < some.len() && news_at(entries, path)[k] == e;
        assert(some.contains(some[k]));
        entries.lemma_filter_contains_rev(both, some[k]);
        entries.lemma_filter_pred(both, k);
        assert(some[k] == one);
    }
    if entries.contains(one) && both(one) {
        let i = choose|i: int| 0 <= i < entries.len() && entries[i] == one;
        entries.lemma_filter_contains(both, i);
        let k = choose|k: int| 0 <= k < some.len() && some[k] == one;
        assert(news_at(entries, path)[k] == e);
    }
}

/// The listener at position `i` is told `one` about the entries at a path.
pub open spec fn hears<T>(
    listeners: Seq<ListenerView<T>>,
    i: int,
    path: Seq<Seq<char>>,
    news: Seq<EntryView>,
    one: Told,
) -> bool {
    &&& news.len() > 0
    &&& crate::listener::listens_first(listeners, i, path)
    &&& one == Told { path: path.skip(listeners[i].subpath.len() as int), entries: news }
}

/// The path of what a listener is told is the path below its subpath.
proof fn subpath_and_rest<T>(
    listeners: Seq<ListenerView<T>>,
    i: int,
    path: Seq<Seq<char>>,
    news: Seq<EntryView>,
    one: Told,
)
    requires
        hears(listeners, i, path, news, one),
    ensures
        path == listeners[i].subpath + one.path,
{
    let subpath = listeners[i].subpath;
    assert(subpath.is_prefix_of(path));
    assert(path =~= subpath + path.skip(subpath.len() as int));
}

/// Since a listener had been told `first` times, it has been told the entry, with the path of the
/// entry below its subpath.
pub open spec fn was_told(
    first: nat,
    told: Seq<Told>,
    subpath: Seq<Seq<char>>,
    e: PathEntryView,
) -> bool {
    exists|k: int|
        first <= k < told.len() && subpath + (#[trigger] told[k]).path == e.path
            && told[k].entries.contains(e.entry)
}

/// The news of one group.
spec fn group_news(group: (Seq<Seq<char>>, Seq<EntryView>)) -> Seq<EntryView> {
    group.1.filter(crate::listener::is_news(group.0))
}

/// What is told comes from one of the groups.
spec fn comes_from<T>(
    listeners: Seq<ListenerView<T>>,
    i: int,
    groups: Seq<(Seq<Seq<char>>, Seq<EntryView>)>,
    one: Told,
) -> bool {
    exists|j: int|
        0 <= j < groups.len() && hears(
            listeners,
            i,
            (#[trigger] groups[j]).0,
            group_news(groups[j]),
            one,
        )
}

/// The listener at position `i` has been told about the news at `path` since it had been told
/// `first` times.
pub open spec fn has_heard<T>(
    listeners: Seq<ListenerView<T>>,
    i: int,
    path: Seq<Seq<char>>,
    news: Seq<EntryView>,
    first: nat,
    told: Seq<Told>,
) -> bool {
    exists|k: int|
        first <= k < told.len() && hears(listeners, i, path, news, #[trigger] told[k])
}

/// Of what has been told since it was `first` times, no two are about the same path.
pub open spec fn distinct_paths(first: nat, told: Seq<Told>) -> bool {
    forall|k: int, l: int|
        first <= k < l < told.len() ==> (#[trigger] told[k]).path != (#[trigger] told[l]).path
}

/// No two groups are of the same path.
spec fn distinct_groups(groups: Seq<(Seq<Seq<char>>, Seq<EntryView>)>) -> bool {
    forall|a: int, b: int|
        0 <= a < b < groups.len() ==> (#[trigger] groups[a]).0 != (#[trigger] groups[b]).0
}

/// What the listener at position `i` has been told after groups of distinct paths.
proof fn told_by_groups<T>(
    listeners: Seq<ListenerView<T>>,
    told: Seq<Seq<Told>>,
    groups: Seq<(Seq<Seq<char>>, Seq<EntryView>)>,
    i: int,
)
    requires
        0 <= i < told.len(),
        distinct_groups(groups),
    ensures
        crate::listener::told_after_groups(listeners, told, groups).len() == told.len(),
        told[i].is_prefix_of(crate::listener::told_after_groups(listeners, told, groups)[i]),
        forall|k: int|
            told[i].len() <= k < crate::listener::told_after_groups(
                listeners,
                told,
                groups,
            )[i].len() ==> comes_from(
                listeners,
                i,
                groups,
                #[trigger] crate::listener::told_after_groups(listeners, told, groups)[i][k],
            ),
        forall|j: int|
            0 <= j < groups.len() && group_news(#[trigger] groups[j]).len() > 0
                && crate::listener::listens_first(listeners, i, groups[j].0) ==> has_heard(
                listeners,
                i,
                groups[j].0,
                group_news(groups[j]),
                told[i].len(),
                crate::listener::told_after_groups(listeners, told, groups)[i],
            ),
        distinct_paths(
            told[i].len(),
            crate::listener::told_after_groups(listeners, told, groups)[i],
        ),
    decreases groups.len(),
{
    if groups.len() > 0 {
        let rest = groups.drop_last();
        let group = groups.last();
        let last = groups.len() - 1;
        let first = told[i].len();
        let before = crate::listener::told_after_groups(listeners, told, rest)[i];
        let after = crate::listener::told_after_groups(listeners, told, groups)[i];
        assert forall|a: int, b: int| 0 <= a < b < rest.len() implies (#[trigger] rest[a]).0 != (
        #[trigger] rest[b]).0 by {
            assert(groups[a].0 != groups[b].0);
        }
        told_by_groups(listeners, told, rest, i);
        let news = group_news(group);
        let n = before.len() as int;
        let one = Told { path: group.0.skip(listeners[i].subpath.len() as int), entries: news };
        let adds = news.len() > 0 && crate::listener::listens_first(listeners, i, group.0);
        assert(after == if adds {
            before.push(one)
        } else {
            before
        });
        assert(groups[last] == group);
        assert forall|k: int| first <= k < after.len() implies comes_from(
            listeners,
            i,
            groups,
            #[trigger] after[k],
        ) by {
            if k < n {
                assert(comes_from(listeners, i, rest, before[k]));
                let j = choose|j: int|
                    0 <= j < rest.len() && hears(
                        listeners,
                        i,
                        (#[trigger] rest[j]).0,
                        group_news(rest[j]),
                        before[k],
                    );
                assert(groups[j] == rest[j]);
            }
        }
        assert forall|j: int|
            0 <= j < groups.len() && group_news(#[trigger] groups[j]).len() > 0
                && crate::listener::listens_first(listeners, i, groups[j].0) implies has_heard(
            listeners,
            i,
            groups[j].0,
            group_news(groups[j]),
            first,
            after,
        ) by {
            if j < last {
                assert(rest[j] == groups[j]);
                let k = choose|k: int|
                    first <= k < before.len() && hears(
                        listeners,
                        i,
                        rest[j].0,
                        group_news(rest[j]),
                        #[trigger] before[k],
                    );
                assert(after[k] == before[k]);
            } else {
                assert(hears(listeners, i, groups[j].0, group_news(groups[j]), after[n]));
            }
        }
        assert forall|k: int, l: int| first <= k < l < after.len() implies (
        #[trigger] after[k]).path != (#[trigger] after[l]).path by {
            assert(after[k] == before[k]);
            if l == n {
                assert(comes_from(listeners, i, rest, before[k]));
                let j = choose|j: int|
                    0 <= j < rest.len() && hears(
                        listeners,
                        i,
                        (#[trigger] rest[j]).0,
                        group_news(rest[j]),
                        before[k],
                    );
                subpath_and_rest(listeners, i, rest[j].0, group_news(rest[j]), before[k]);
                subpath_and_rest(listeners, i, group.0, news, after[l]);
                assert(rest[j] == groups[j]);
                assert(groups[j].0 != groups[last].0);
            } else {
                assert(after[l] == before[l]);
            }
        }
    }
}

/// The groups of entries are of distinct paths, and every path with entries has one.
proof fn groups_by_path(entries: Seq<PathEntryView>)
    ensures
        distinct_groups(crate::groups::path_groups(entries)),
        forall|j: int|
            0 <= j < crate::groups::path_groups(entries).len() ==> group_news(
                #[trigger] crate::groups::path_groups(entries)[j],
            ) == news_at(entries, crate::groups::path_groups(entries)[j].0),
{
    let paths = crate::groups::paths_of(entries);
    let groups = crate::groups::path_groups(entries);
    let arranged = crate::order::arrangement::<Vec<String>>(paths);
    crate::order::arrangement_arranges::<Vec<String>>(paths);
    assert forall|a: int, b: int| 0 <= a < b < groups.len() implies (#[trigger] groups[a]).0 != (
    #[trigger] groups[b]).0 by {
        assert(<Vec<String> as crate::order::Key>::before(arranged[a], arranged[b]));
        <Vec<String> as crate::order::Key>::before_irreflexive(arranged[a]);
    }
    assert forall|j: int| 0 <= j < groups.len() implies group_news(#[trigger] groups[j]) == news_at(
        entries,
        groups[j].0,
    ) by {
        news_in_order(entries, groups[j].0);
    }
}

/// The groups of entries are of distinct paths, and those of each that are no maintenance entries
/// are the news at its path.
pub(crate) proof fn groups_are_news(entries: Seq<PathEntryView>)
    ensures
        forall|a: int, b: int|
            0 <= a < b < crate::groups::path_groups(entries).len() ==> (
            #[trigger] crate::groups::path_groups(entries)[a]).0 != (
            #[trigger] crate::groups::path_groups(entries)[b]).0,
        forall|j: int|
            0 <= j < crate::groups::path_groups(entries).len() ==> (
            #[trigger] crate::groups::path_groups(entries)[j]).1.filter(
                crate::listener::is_news(crate::groups::path_groups(entries)[j].0),
            ) == news_at(entries, crate::groups::path_groups(entries)[j].0),
{
    groups_by_path(entries);
    let groups = crate::groups::path_groups(entries);
    assert forall|j: int| 0 <= j < groups.len() implies (#[trigger] groups[j]).1.filter(
        crate::listener::is_news(groups[j].0),
    ) == news_at(entries, groups[j].0) by {
        assert(group_news(groups[j]) == news_at(entries, groups[j].0));
    }
}

/// Telling adds no listener.
pub proof fn nobody_is_added<T>(
    listeners: Seq<ListenerView<T>>,
    told: Seq<Seq<Told>>,
    entries: Seq<PathEntryView>,
)
    ensures
        crate::listener::told_after(listeners, told, entries).len() == told.len(),
{
    nobody_is_added_by_groups(listeners, told, crate::groups::path_groups(entries));
}

proof fn nobody_is_added_by_groups<T>(
    listeners: Seq<ListenerView<T>>,
    told: Seq<Seq<Told>>,
    groups: Seq<(Seq<Seq<char>>, Seq<EntryView>)>,
)
    ensures
        crate::listener::told_after_groups(listeners, told, groups).len() == told.len(),
    decreases groups.len(),
{
    if groups.len() > 0 {
        nobody_is_added_by_groups(listeners, told, groups.drop_last());
    }
}

/// What a listener was told before stays as it was.
pub proof fn tellings_are_added<T>(
    listeners: Seq<ListenerView<T>>,
    told: Seq<Seq<Told>>,
    entries: Seq<PathEntryView>,
    i: int,
)
    requires
        0 <= i < told.len(),
    ensures
        crate::listener::told_after(listeners, told, entries).len() == told.len(),
        told[i].is_prefix_of(crate::listener::told_after(listeners, told, entries)[i]),
{
    groups_by_path(entries);
    told_by_groups(listeners, told, crate::groups::path_groups(entries), i);
}

/// A listener is told at most once about each path.
pub proof fn tellings_are_distinct<T>(
    listeners: Seq<ListenerView<T>>,
    told: Seq<Seq<Told>>,
    entries: Seq<PathEntryView>,
    i: int,
)
    requires
        0 <= i < told.len(),
    ensures
        distinct_paths(
            told[i].len(),
            crate::listener::told_after(listeners, told, entries)[i],
        ),
{
    groups_by_path(entries);
    told_by_groups(listeners, told, crate::groups::path_groups(entries), i);
}

/// A listener is only told about entries that came: each telling is about a path that it is the
/// first to listen to, and about all entries at the path but the maintenance entries.
pub proof fn only_what_came_is_told<T>(
    listeners: Seq<ListenerView<T>>,
    told: Seq<Seq<Told>>,
    entries: Seq<PathEntryView>,
    i: int,
    k: int,
)
    requires
        0 <= i < told.len(),
        told[i].len() <= k < crate::listener::told_after(listeners, told, entries)[i].len(),
    ensures
        ({
            let one = crate::listener::told_after(listeners, told, entries)[i][k];
            let path = listeners[i].subpath + one.path;
            hears(listeners, i, path, news_at(entries, path), one)
        }),
{
    let groups = crate::groups::path_groups(entries);
    let after = crate::listener::told_after(listeners, told, entries);
    groups_by_path(entries);
    told_by_groups(listeners, told, groups, i);
    assert(comes_from(listeners, i, groups, after[i][k]));
    let j = choose|j: int|
        0 <= j < groups.len() && hears(
            listeners,
            i,
            (#[trigger] groups[j]).0,
            group_news(groups[j]),
            after[i][k],
        );
    subpath_and_rest(listeners, i, groups[j].0, group_news(groups[j]), after[i][k]);
}

/// The first listener of a path is told exactly once about the entries that came for it.
pub proof fn each_path_is_told_once<T>(
    listeners: Seq<ListenerView<T>>,
    told: Seq<Seq<Told>>,
    entries: Seq<PathEntryView>,
    i: int,
    path: Seq<Seq<char>>,
)
    requires
        0 <= i < told.len(),
        crate::listener::listens_first(listeners, i, path),
        news_at(entries, path).len() > 0,
    ensures
        has_heard(
            listeners,
            i,
            path,
            news_at(entries, path),
            told[i].len(),
            crate::listener::told_after(listeners, told, entries)[i],
        ),
        distinct_paths(
            told[i].len(),
            crate::listener::told_after(listeners, told, entries)[i],
        ),
{
    let groups = crate::groups::path_groups(entries);
    let news = news_at(entries, path);
    groups_by_path(entries);
    told_by_groups(listeners, told, groups, i);
    assert(news.contains(news[0]));
    news_are_the_entries_at_the_path(entries, path, news[0]);
    let e = PathEntryView { path, entry: news[0] };
    crate::groups::each_entry_stands_in_the_group_of_its_path(entries, e);
    let j = choose|j: int|
        0 <= j < groups.len() && (#[trigger] groups[j]).0 == path && groups[j].1.contains(e.entry);
    assert(group_news(groups[j]) == news_at(entries, path));
}

/// Every entry that a listener is told came, is no maintenance entry, and is at a path that no
/// earlier listener listens to.
pub proof fn every_entry_told_came<T>(
    listeners: Seq<ListenerView<T>>,
    told: Seq<Seq<Told>>,
    entries: Seq<PathEntryView>,
    i: int,
    k: int,
    j: int,
)
    requires
        0 <= i < told.len(),
        told[i].len() <= k < crate::listener::told_after(listeners, told, entries)[i].len(),
        0 <= j < crate::listener::told_after(listeners, told, entries)[i][k].entries.len(),
    ensures
        ({
            let one = crate::listener::told_after(listeners, told, entries)[i][k];
            let path = listeners[i].subpath + one.path;
            &&& entries.contains(PathEntryView { path, entry: one.entries[j] })
            &&& !crate::listener::is_maintenance(path, one.entries[j].key)
            &&& crate::listener::listens_first(listeners, i, path)
        }),
{
    only_what_came_is_told(listeners, told, entries, i, k);
    let one = crate::listener::told_after(listeners, told, entries)[i][k];
    let path = listeners[i].subpath + one.path;
    assert(one.entries.contains(one.entries[j]));
    news_are_the_entries_at_the_path(entries, path, one.entries[j]);
}

/// Every entry that comes, and is no maintenance entry, is told to the first listener of its path.
pub proof fn every_entry_that_came_is_told<T>(
    listeners: Seq<ListenerView<T>>,
    told: Seq<Seq<Told>>,
    entries: Seq<PathEntryView>,
    i: int,
    e: PathEntryView,
)
    requires
        0 <= i < told.len(),
        entries.contains(e),
        !crate::listener::is_maintenance(e.path, e.entry.key),
        crate::listener::listens_first(listeners, i, e.path),
    ensures
        was_told(
            told[i].len(),
            crate::listener::told_after(listeners, told, entries)[i],
            listeners[i].subpath,
            e,
        ),
{
    news_are_the_entries_at_the_path(entries, e.path, e.entry);
    each_path_is_told_once(listeners, told, entries, i, e.path);
    let after = crate::listener::told_after(listeners, told, entries)[i];
    let news = news_at(entries, e.path);
    let k = choose|k: int|
        told[i].len() <= k < after.len() && hears(listeners, i, e.path, news, #[trigger] after[k]);
    subpath_and_rest(listeners, i, e.path, news, after[k]);
}

/// Who is not the first to listen to the path of any entry hears nothing.
pub proof fn nobody_else_is_told<T>(
    listeners: Seq<ListenerView<T>>,
    told: Seq<Seq<Told>>,
    entries: Seq<PathEntryView>,
    i: int,
)
    requires
        0 <= i < told.len(),
        forall|e: PathEntryView| #[trigger]
            entries.contains(e) ==> !crate::listener::listens_first(listeners, i, e.path)
                || crate::listener::is_maintenance(e.path, e.entry.key),
    ensures
        crate::listener::told_after(listeners, told, entries)[i] == told[i],
{
    let after = crate::listener::told_after(listeners, told, entries);
    tellings_are_added(listeners, told, entries, i);
    if after[i].len() > told[i].len() {
        let k = told[i].len() as int;
        only_what_came_is_told(listeners, told, entries, i, k);
        let path = listeners[i].subpath + after[i][k].path;
        let news = news_at(entries, path);
        assert(news.contains(news[0]));
        news_are_the_entries_at_the_path(entries, path, news[0]);
    }
    assert(after[i] =~= told[i]);
}

/// A listener is told about the paths in ascending order.
proof fn told_in_order_by_groups<T>(
    listeners: Seq<ListenerView<T>>,
    told: Seq<Seq<Told>>,
    groups: Seq<(Seq<Seq<char>>, Seq<EntryView>)>,
    i: int,
)
    requires
        0 <= i < told.len(),
        distinct_groups(groups),
        forall|a: int, b: int|
            0 <= a < b < groups.len() ==> crate::order::path_before(
                (#[trigger] groups[a]).0,
                (#[trigger] groups[b]).0,
            ),
    ensures
        in_order(
            listeners[i].subpath,
            told[i].len(),
            crate::listener::told_after_groups(listeners, told, groups)[i],
        ),
    decreases groups.len(),
{
    if groups.len() > 0 {
        let rest = groups.drop_last();
        let group = groups.last();
        let last = groups.len() - 1;
        let first = told[i].len();
        let before = crate::listener::told_after_groups(listeners, told, rest)[i];
        let after = crate::listener::told_after_groups(listeners, told, groups)[i];
        assert forall|a: int, b: int| 0 <= a < b < rest.len() implies crate::order::path_before(
            (#[trigger] rest[a]).0,
            (#[trigger] rest[b]).0,
        ) && rest[a].0 != rest[b].0 by {
            assert(crate::order::path_before(groups[a].0, groups[b].0));
            assert(groups[a].0 != groups[b].0);
        }
        assert(distinct_groups(rest));
        told_by_groups(listeners, told, rest, i);
        told_in_order_by_groups(listeners, told, rest, i);
        let n = before.len() as int;
        let subpath = listeners[i].subpath;
        assert forall|k: int, l: int| first <= k < l < after.len() implies crate::order::path_before(
            subpath + (#[trigger] after[k]).path,
            subpath + (#[trigger] after[l]).path,
        ) by {
            assert(after[k] == before[k]);
            if l == n {
                assert(comes_from(listeners, i, rest, before[k]));
                let j = choose|j: int|
                    0 <= j < rest.len() && hears(
                        listeners,
                        i,
                        (#[trigger] rest[j]).0,
                        group_news(rest[j]),
                        before[k],
                    );
                subpath_and_rest(listeners, i, rest[j].0, group_news(rest[j]), before[k]);
                subpath_and_rest(listeners, i, group.0, group_news(group), after[l]);
                assert(rest[j] == groups[j] && group == groups[last]);
                assert(crate::order::path_before(groups[j].0, groups[last].0));
            } else {
                assert(after[l] == before[l]);
            }
        }
    }
}

/// Of what has been told since it was `first` times, each path comes before the next.
pub open spec fn in_order(subpath: Seq<Seq<char>>, first: nat, told: Seq<Told>) -> bool {
    forall|k: int, l: int|
        first <= k < l < told.len() ==> crate::order::path_before(
            subpath + (#[trigger] told[k]).path,
            subpath + (#[trigger] told[l]).path,
        )
}

/// A listener is told about the paths in ascending order.
pub proof fn paths_are_told_in_order<T>(
    listeners: Seq<ListenerView<T>>,
    told: Seq<Seq<Told>>,
    entries: Seq<PathEntryView>,
    i: int,
)
    requires
        0 <= i < told.len(),
    ensures
        in_order(
            listeners[i].subpath,
            told[i].len(),
            crate::listener::told_after(listeners, told, entries)[i],
        ),
{
    let groups = crate::groups::path_groups(entries);
    let paths = crate::groups::paths_of(entries);
    let arranged = crate::order::arrangement::<Vec<String>>(paths);
    crate::order::arrangement_arranges::<Vec<String>>(paths);
    groups_by_path(entries);
    assert forall|a: int, b: int| 0 <= a < b < groups.len() implies crate::order::path_before(
        (#[trigger] groups[a]).0,
        (#[trigger] groups[b]).0,
    ) by {
        assert(<Vec<String> as crate::order::Key>::before(arranged[a], arranged[b]));
    }
    told_in_order_by_groups(listeners, told, groups, i);
}

} // verus!
