//! Entries put together by file and by path.

use vstd::prelude::*;

use crate::entry::{Entry, EntryView, EntryWithPath, GroupedEntries, PathEntryView};
use crate::hash::path_to_hash;
use crate::order::{copy_path, distinct_keys, same_path};

verus! {

/// The entries of one file.
pub struct GroupView {
    pub hash: Seq<char>,
    pub entries: Seq<PathEntryView>,
}

impl DeepView for GroupedEntries {
    type V = GroupView;

    open spec fn deep_view(&self) -> GroupView {
        GroupView { hash: self.hash@, entries: self.entries.deep_view() }
    }
}

/// The entry lives in the given file.
pub open spec fn lives_in(hash: Seq<char>) -> spec_fn(PathEntryView) -> bool {
    |e: PathEntryView| crate::hash::path_hash(e.path) == hash
}

/// The entry has the given path.
pub open spec fn lies_at(path: Seq<Seq<char>>) -> spec_fn(PathEntryView) -> bool {
    |e: PathEntryView| e.path == path
}

/// The files of the entries.
pub open spec fn files_of(entries: Seq<PathEntryView>) -> Seq<Seq<char>> {
    entries.map_values(|e: PathEntryView| crate::hash::path_hash(e.path))
}

/// The paths of the entries.
pub open spec fn paths_of(entries: Seq<PathEntryView>) -> Seq<Seq<Seq<char>>> {
    entries.map_values(|e: PathEntryView| e.path)
}

/// The entries without their paths.
pub open spec fn bare(entries: Seq<PathEntryView>) -> Seq<EntryView> {
    entries.map_values(|e: PathEntryView| e.entry)
}

/// The entries, each with the given path.
pub open spec fn with_path(path: Seq<Seq<char>>, entries: Seq<EntryView>) -> Seq<PathEntryView> {
    entries.map_values(|entry: EntryView| PathEntryView { path, entry })
}

/// The entries by file, in ascending order of the file names; the entries of a file keep their
/// order.
pub open spec fn hash_groups(entries: Seq<PathEntryView>) -> Seq<GroupView> {
    crate::order::arrangement::<String>(files_of(entries)).map_values(
        |hash: Seq<char>| GroupView { hash, entries: entries.filter(lives_in(hash)) },
    )
}

/// The entries by path, in ascending order of the paths; the entries of a path keep their order.
pub open spec fn path_groups(entries: Seq<PathEntryView>) -> Seq<(Seq<Seq<char>>, Seq<EntryView>)> {
    crate::order::arrangement::<Vec<String>>(paths_of(entries)).map_values(
        |path: Seq<Seq<char>>| (path, bare(entries.filter(lies_at(path)))),
    )
}

/// The entries that live in the file `hash`.
fn entries_in(entries: &Vec<EntryWithPath>, hash: &String) -> (r: Vec<EntryWithPath>)
    ensures
        r.deep_view() == entries.deep_view().filter(lives_in(hash@)),
{
    let ghost all = entries.deep_view();
    let mut r: Vec<EntryWithPath> = Vec::new();
    let mut i: usize = 0;
    proof {
        reveal(Seq::filter);
        assert(r.deep_view() =~= all.take(0).filter(lives_in(hash@)));
    }
    while i < entries.len()
        invariant
            i <= entries@.len(),
            all == entries.deep_view(),
            r.deep_view() == all.take(i as int).filter(lives_in(hash@)),
        decreases entries@.len() - i,
    {
        proof {
            reveal(Seq::filter);
            assert(all.take(i + 1).drop_last() == all.take(i as int));
        }
        let ghost done = r.deep_view();
        if path_to_hash(copy_path(&entries[i].path)) == *hash {
            r.push(entries[i].clone());
            assert(r.deep_view() =~= done.push(all[i as int]));
        }
        i = i + 1;
    }
    assert(all.take(all.len() as int) == all);
    r
}

/// The entries at `path`.
fn entries_at(entries: &Vec<EntryWithPath>, path: &Vec<String>) -> (r: Vec<Entry>)
    ensures
        r.deep_view() == bare(entries.deep_view().filter(lies_at(path.deep_view()))),
{
    let ghost all = entries.deep_view();
    let ghost p = path.deep_view();
    let mut r: Vec<Entry> = Vec::new();
    let mut i: usize = 0;
    proof {
        reveal(Seq::filter);
        assert(r.deep_view() =~= bare(all.take(0).filter(lies_at(p))));
    }
    while i < entries.len()
        invariant
            i <= entries@.len(),
            all == entries.deep_view(),
            p == path.deep_view(),
            r.deep_view() == bare(all.take(i as int).filter(lies_at(p))),
        decreases entries@.len() - i,
    {
        proof {
            reveal(Seq::filter);
            assert(all.take(i + 1).drop_last() == all.take(i as int));
        }
        let ghost done = r.deep_view();
        if same_path(&entries[i].path, path) {
            r.push(entries[i].entry.clone());
            assert(r.deep_view() =~= done.push(all[i as int].entry));
            assert(r.deep_view() =~= bare(all.take(i + 1).filter(lies_at(p))));
        }
        i = i + 1;
    }
    assert(all.take(all.len() as int) == all);
    r
}

/// Puts the entries together by file.
pub fn group_by_hash(entries_with_path: Vec<EntryWithPath>) -> (r: Vec<GroupedEntries>)
    ensures
        r.deep_view() == hash_groups(entries_with_path.deep_view()),
{
    let ghost all = entries_with_path.deep_view();
    let mut hashes: Vec<String> = Vec::new();
    let mut i: usize = 0;
    while i < entries_with_path.len()
        invariant
            i <= entries_with_path@.len(),
            all == entries_with_path.deep_view(),
            hashes.deep_view() == files_of(all.take(i as int)),
        decreases entries_with_path@.len() - i,
    {
        let ghost done = hashes.deep_view();
        hashes.push(path_to_hash(copy_path(&entries_with_path[i].path)));
        assert(hashes.deep_view() =~= done.push(crate::hash::path_hash(all[i as int].path)));
        i = i + 1;
        assert(hashes.deep_view() =~= files_of(all.take(i as int)));
    }
    assert(all.take(all.len() as int) == all);
    let hashes = distinct_keys(&hashes);
    let mut r: Vec<GroupedEntries> = Vec::new();
    let mut k: usize = 0;
    while k < hashes.len()
        invariant
            k <= hashes@.len(),
            all == entries_with_path.deep_view(),
            hashes.deep_view() == crate::order::arrangement::<String>(files_of(all)),
            r.deep_view() == hash_groups(all).take(k as int),
        decreases hashes@.len() - k,
    {
        let entries = entries_in(&entries_with_path, &hashes[k]);
        let ghost done = r.deep_view();
        r.push(GroupedEntries { hash: hashes[k].clone(), entries });
        assert(hashes.deep_view()[k as int] == hashes@[k as int]@);
        assert(r.deep_view() =~= done.push(hash_groups(all)[k as int]));
        k = k + 1;
        assert(r.deep_view() =~= hash_groups(all).take(k as int));
    }
    assert(hash_groups(all).take(hash_groups(all).len() as int) == hash_groups(all));
    r
}

/// Puts the entries together by path.
pub fn group_by_path(entries_with_path: Vec<EntryWithPath>) -> (r: Vec<(Vec<String>, Vec<Entry>)>)
    ensures
        r.deep_view() == path_groups(entries_with_path.deep_view()),
{
    let ghost all = entries_with_path.deep_view();
    let mut paths: Vec<Vec<String>> = Vec::new();
    let mut i: usize = 0;
    while i < entries_with_path.len()
        invariant
            i <= entries_with_path@.len(),
            all == entries_with_path.deep_view(),
            paths.deep_view() == paths_of(all.take(i as int)),
        decreases entries_with_path@.len() - i,
    {
        let ghost done = paths.deep_view();
        paths.push(copy_path(&entries_with_path[i].path));
        assert(paths.deep_view() =~= done.push(all[i as int].path));
        i = i + 1;
        assert(paths.deep_view() =~= paths_of(all.take(i as int)));
    }
    assert(all.take(all.len() as int) == all);
    let paths = distinct_keys(&paths);
    let mut r: Vec<(Vec<String>, Vec<Entry>)> = Vec::new();
    let mut k: usize = 0;
    while k < paths.len()
        invariant
            k <= paths@.len(),
            all == entries_with_path.deep_view(),
            paths.deep_view() == crate::order::arrangement::<Vec<String>>(paths_of(all)),
            r.deep_view() == path_groups(all).take(k as int),
        decreases paths@.len() - k,
    {
        let entries = entries_at(&entries_with_path, &paths[k]);
        let ghost done = r.deep_view();
        r.push((copy_path(&paths[k]), entries));
        assert(paths.deep_view()[k as int] == paths@[k as int].deep_view());
        assert(r.deep_view() =~= done.push(path_groups(all)[k as int]));
        k = k + 1;
        assert(r.deep_view() =~= path_groups(all).take(k as int));
    }
    assert(path_groups(all).take(path_groups(all).len() as int) == path_groups(all));
    r
}

/// Every entry stands in the group of its file, and in no other.
pub proof fn each_entry_stands_in_the_group_of_its_file(
    entries: Seq<PathEntryView>,
    e: PathEntryView,
)
    requires
        entries.contains(e),
    ensures
        exists|j: int|
            0 <= j < hash_groups(entries).len() && (#[trigger] hash_groups(entries)[j]).hash
                == crate::hash::path_hash(e.path) && hash_groups(entries)[j].entries.contains(e),
        forall|j: int|
            0 <= j < hash_groups(entries).len() && (
            #[trigger] hash_groups(entries)[j]).entries.contains(e) ==> hash_groups(
                entries,
            )[j].hash == crate::hash::path_hash(e.path),
{
    let names = files_of(entries);
    let groups = hash_groups(entries);
    let arranged = crate::order::arrangement::<String>(names);
    let hash = crate::hash::path_hash(e.path);
    crate::order::arrangement_arranges::<String>(names);
    let i = choose|i: int| 0 <= i < entries.len() && entries[i] == e;
    assert(names[i] == hash);
    assert(names.contains(hash));
    assert(arranged.contains(hash));
    let j = choose|j: int| 0 <= j < arranged.len() && arranged[j] == hash;
    entries.lemma_filter_contains(lives_in(hash), i);
    assert(groups[j].hash == hash && groups[j].entries.contains(e));
    assert forall|j: int|
        0 <= j < groups.len() && (#[trigger] groups[j]).entries.contains(e) implies groups[j].hash
        == hash by {
        let pred = lives_in(groups[j].hash);
        let k = choose|k: int| 0 <= k < groups[j].entries.len() && groups[j].entries[k] == e;
        entries.lemma_filter_pred(pred, k);
    }
}

/// Every entry stands in the group of its path.
pub proof fn each_entry_stands_in_the_group_of_its_path(
    entries: Seq<PathEntryView>,
    e: PathEntryView,
)
    requires
        entries.contains(e),
    ensures
        exists|j: int|
            0 <= j < path_groups(entries).len() && (#[trigger] path_groups(entries)[j]).0 == e.path
                && path_groups(entries)[j].1.contains(e.entry),
{
    let paths = paths_of(entries);
    let groups = path_groups(entries);
    let arranged = crate::order::arrangement::<Vec<String>>(paths);
    crate::order::arrangement_arranges::<Vec<String>>(paths);
    let i = choose|i: int| 0 <= i < entries.len() && entries[i] == e;
    assert(paths[i] == e.path);
    assert(paths.contains(e.path));
    assert(arranged.contains(e.path));
    let j = choose|j: int| 0 <= j < arranged.len() && arranged[j] == e.path;
    entries.lemma_filter_contains(lies_at(e.path), i);
    let here = entries.filter(lies_at(e.path));
    let k = choose|k: int| 0 <= k < here.len() && here[k] == e;
    assert(groups[j].0 == e.path);
    assert(groups[j].1[k] == e.entry);
}

} // verus!
