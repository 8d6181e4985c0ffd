//! Writing entries of one's own.

use vstd::prelude::*;

use crate::directory::child;
use crate::entry::{EntryWithPath, PathEntryView};
use crate::file_utils::{FileWrite, FileWriteView, Files};
use crate::groups::{group_by_hash, GroupView};
use crate::listener::Listeners;
use crate::sequences::{read_sequences, write_sequences};
use crate::store::update_entries;

verus! {

/// The entries that the file `hash` in the directory `own` holds.
pub open spec fn file_entries(
    files: Map<Seq<Seq<char>>, Seq<char>>,
    own: Seq<Seq<char>>,
    hash: Seq<char>,
) -> Seq<PathEntryView> {
    crate::store::stored_entries(crate::file_utils::text_of(files, own.push(hash)))
}

/// The sequence numbers that the directory `own` holds.
pub open spec fn file_sequences(
    files: Map<Seq<Seq<char>>, Seq<char>>,
    own: Seq<Seq<char>>,
) -> Map<Seq<char>, i64> {
    crate::sequences::sequences_in(crate::file_utils::text_of(files, own.push("sequences"@)))
}

/// Of the entries of one file, those that are new to it and bring a new value.
pub open spec fn group_news(
    files: Map<Seq<Seq<char>>, Seq<char>>,
    own: Seq<Seq<char>>,
    group: GroupView,
) -> Seq<PathEntryView> {
    group.entries.filter(crate::store::is_fresh(file_entries(files, own, group.hash), true))
}

/// One write for each file that there are news for.
pub open spec fn group_writes(
    files: Map<Seq<Seq<char>>, Seq<char>>,
    own: Seq<Seq<char>>,
    groups: Seq<GroupView>,
) -> Seq<FileWriteView>
    decreases groups.len(),
{
    if groups.len() == 0 {
        seq![]
    } else {
        let group = groups.last();
        let news = group_news(files, own, group);
        let rest = group_writes(files, own, groups.drop_last());
        if news.len() == 0 {
            rest
        } else {
            rest.push(
                FileWriteView {
                    path: own.push(group.hash),
                    text: crate::store::entries_text(
                        crate::store::merged(file_entries(files, own, group.hash), news),
                    ),
                },
            )
        }
    }
}

/// The sequence numbers, with one more change for each file that there are news for.
pub open spec fn group_sequences(
    files: Map<Seq<Seq<char>>, Seq<char>>,
    own: Seq<Seq<char>>,
    groups: Seq<GroupView>,
) -> Map<Seq<char>, i64>
    decreases groups.len(),
{
    if groups.len() == 0 {
        file_sequences(files, own)
    } else {
        let rest = group_sequences(files, own, groups.drop_last());
        if group_news(files, own, groups.last()).len() == 0 {
            rest
        } else {
            crate::sequences::bumped(rest, groups.last().hash)
        }
    }
}

/// The writes that set entries: the files that there are news for, then the sequence numbers.
pub open spec fn set_writes(
    files: Map<Seq<Seq<char>>, Seq<char>>,
    own: Seq<Seq<char>>,
    entries: Seq<PathEntryView>,
) -> Seq<FileWriteView> {
    if entries.len() == 0 {
        seq![]
    } else {
        let groups = crate::groups::hash_groups(entries);
        group_writes(files, own, groups).push(
            FileWriteView {
                path: own.push("sequences"@),
                text: crate::sequences::sequences_file_text(group_sequences(files, own, groups)),
            },
        )
    }
}

/// Of the entries, those that are new to the file `hash` and bring a new value.
pub open spec fn set_news(
    files: Map<Seq<Seq<char>>, Seq<char>>,
    own: Seq<Seq<char>>,
    entries: Seq<PathEntryView>,
    hash: Seq<char>,
) -> Seq<PathEntryView> {
    entries.filter(crate::groups::lives_in(hash)).filter(
        crate::store::is_fresh(file_entries(files, own, hash), true),
    )
}

/// None of the news for the path and key of `slot` is newer than what the own file then holds.
pub open spec fn holds_the_newest(
    after: Map<Seq<Seq<char>>, Seq<char>>,
    own: Seq<Seq<char>>,
    news: Seq<PathEntryView>,
    slot: PathEntryView,
) -> bool {
    forall|i: int|
        0 <= i < news.len() && (#[trigger] news[i]).same_slot(slot) ==> (crate::store::held(
            file_entries(after, own, crate::hash::path_hash(slot.path)),
            slot,
        ) matches Some(e) && !crate::order::text_before(e.datetime, news[i].entry.datetime))
}

/// The writes set the entries in the directory `own`.
///
/// They are exactly those that have to be made. With them made, the file of every path holds what
/// it held and the news for it, for each path and key the newest, and the sequence numbers have
/// counted the files that changed.
pub open spec fn sets(
    files: Map<Seq<Seq<char>>, Seq<char>>,
    own: Seq<Seq<char>>,
    entries: Seq<PathEntryView>,
    writes: Seq<FileWriteView>,
) -> bool {
    let after = crate::file_utils::written(files, writes);
    &&& writes == set_writes(files, own, entries)
    &&& entries.len() > 0 ==> file_sequences(after, own).dom().finite() && file_sequences(after, own)
        == group_sequences(files, own, crate::groups::hash_groups(entries))
    &&& crate::store::all_readable(entries) ==> forall|path: Seq<Seq<char>>|
        file_entries(after, own, #[trigger] crate::hash::path_hash(path))
            == crate::store::renewed(
            file_entries(files, own, crate::hash::path_hash(path)),
            set_news(files, own, entries, crate::hash::path_hash(path)),
        )
    &&& crate::store::all_readable(entries) ==> forall|slot: PathEntryView| #[trigger]
        holds_the_newest(
            after,
            own,
            set_news(files, own, entries, crate::hash::path_hash(slot.path)),
            slot,
        )
}

/// What a file holds after news have been merged in is not older than any of them.
proof fn the_newest_is_held(
    after: Map<Seq<Seq<char>>, Seq<char>>,
    own: Seq<Seq<char>>,
    stored: Seq<PathEntryView>,
    news: Seq<PathEntryView>,
    slot: PathEntryView,
)
    requires
        file_entries(after, own, crate::hash::path_hash(slot.path)) == crate::store::renewed(
            stored,
            news,
        ),
    ensures
        holds_the_newest(after, own, news, slot),
{
    crate::laws::an_update_changes_only_its_slots(stored, news, slot);
    crate::laws::held_is_occupied(news, slot);
    assert forall|i: int| 0 <= i < news.len() && (
    #[trigger] news[i]).same_slot(slot) implies crate::store::occupied(news, slot) by {}
}

/// No two groups are of the same file.
spec fn distinct_files(groups: Seq<GroupView>) -> bool {
    forall|i: int, j: int|
        0 <= i < j < groups.len() ==> (#[trigger] groups[i]).hash != (#[trigger] groups[j]).hash
}

/// The groups are of distinct files, and every file with entries has one.
proof fn groups_by_file(entries: Seq<PathEntryView>, hash: Seq<char>)
    ensures
        distinct_files(crate::groups::hash_groups(entries)),
        forall|j: int|
            0 <= j < crate::groups::hash_groups(entries).len() ==> (
            #[trigger] crate::groups::hash_groups(entries)[j]).entries == entries.filter(
                crate::groups::lives_in(crate::groups::hash_groups(entries)[j].hash),
            ),
        (exists|j: int|
            0 <= j < crate::groups::hash_groups(entries).len() && (
            #[trigger] crate::groups::hash_groups(entries)[j]).hash == hash) || entries.filter(
            crate::groups::lives_in(hash),
        ).len() == 0,
{
    let names = crate::groups::files_of(entries);
    let groups = crate::groups::hash_groups(entries);
    let arranged = crate::order::arrangement::<String>(names);
    crate::order::arrangement_arranges::<String>(names);
    assert forall|i: int, j: int| 0 <= i < j < groups.len() implies (#[trigger] groups[i]).hash != (
    #[trigger] groups[j]).hash by {
        assert(<String as crate::order::Key>::before(arranged[i], arranged[j]));
        crate::order::text_before_irreflexive(arranged[i]);
    }
    let here = entries.filter(crate::groups::lives_in(hash));
    if here.len() > 0 {
        assert(here.contains(here[0]));
        entries.lemma_filter_contains_rev(crate::groups::lives_in(hash), here[0]);
        let i = choose|i: int| 0 <= i < entries.len() && entries[i] == here[0];
        assert(names[i] == hash);
        assert(names.contains(hash));
        assert(arranged.contains(hash));
        let j = choose|j: int| 0 <= j < arranged.len() && arranged[j] == hash;
        assert(groups[j].hash == hash);
    }
}

/// After the writes a file with news holds its new text.
proof fn written_group(
    files: Map<Seq<Seq<char>>, Seq<char>>,
    own: Seq<Seq<char>>,
    groups: Seq<GroupView>,
    j: int,
)
    requires
        distinct_files(groups),
        0 <= j < groups.len(),
    ensures
        ({
            let hash = groups[j].hash;
            let news = group_news(files, own, groups[j]);
            crate::file_utils::text_of(
                crate::file_utils::written(files, group_writes(files, own, groups)),
                own.push(hash),
            ) == if news.len() == 0 {
                crate::file_utils::text_of(files, own.push(hash))
            } else {
                Some(
                    crate::store::entries_text(
                        crate::store::merged(file_entries(files, own, hash), news),
                    ),
                )
            }
        }),
    decreases groups.len(),
{
    let last = groups.len() - 1;
    let rest = groups.drop_last();
    let hash = groups[j].hash;
    let writes = group_writes(files, own, groups);
    assert(own.push(hash).last() == hash);
    assert(own.push(groups[last].hash).last() == groups[last].hash);
    if group_news(files, own, groups[last]).len() > 0 {
        assert(writes.drop_last() == group_writes(files, own, rest));
    }
    fewer_are_distinct(groups);
    if j < last {
        assert(rest[j] == groups[j]);
        assert(groups[j].hash != groups[last].hash);
        written_group(files, own, rest, j);
    } else {
        unwritten_file(files, own, rest, hash);
    }
}

/// The sequence number of a file with news is the next one.
proof fn counted_group(
    files: Map<Seq<Seq<char>>, Seq<char>>,
    own: Seq<Seq<char>>,
    groups: Seq<GroupView>,
    j: int,
)
    requires
        distinct_files(groups),
        0 <= j < groups.len(),
    ensures
        ({
            let hash = groups[j].hash;
            let before = file_sequences(files, own);
            let after = group_sequences(files, own, groups);
            if group_news(files, own, groups[j]).len() == 0 {
                &&& after.contains_key(hash) == before.contains_key(hash)
                &&& after[hash] == before[hash]
            } else {
                &&& after.contains_key(hash)
                &&& after[hash] == crate::sequences::bumped(before, hash)[hash]
            }
        }),
    decreases groups.len(),
{
    let last = groups.len() - 1;
    let rest = groups.drop_last();
    fewer_are_distinct(groups);
    if j < last {
        assert(rest[j] == groups[j]);
        assert(groups[j].hash != groups[last].hash);
        counted_group(files, own, rest, j);
    } else {
        unwritten_file(files, own, rest, groups[j].hash);
    }
}

/// The groups but for the last are of distinct files, and none is of the last one's.
proof fn fewer_are_distinct(groups: Seq<GroupView>)
    requires
        distinct_files(groups),
        groups.len() > 0,
    ensures
        distinct_files(groups.drop_last()),
        forall|a: int|
            0 <= a < groups.drop_last().len() ==> (#[trigger] groups.drop_last()[a]).hash
                != groups.last().hash,
{
    let rest = groups.drop_last();
    assert forall|a: int, b: int| 0 <= a < b < rest.len() implies (#[trigger] rest[a]).hash != (
    #[trigger] rest[b]).hash by {
        assert(groups[a].hash != groups[b].hash);
    }
    assert forall|a: int| 0 <= a < rest.len() implies (#[trigger] rest[a]).hash
        != groups.last().hash by {
        assert(groups[a].hash != groups[groups.len() - 1].hash);
    }
}

/// A file that no group is of stays as it is.
proof fn unwritten_file(
    files: Map<Seq<Seq<char>>, Seq<char>>,
    own: Seq<Seq<char>>,
    groups: Seq<GroupView>,
    hash: Seq<char>,
)
    requires
        forall|j: int| 0 <= j < groups.len() ==> (#[trigger] groups[j]).hash != hash,
    ensures
        crate::file_utils::text_of(
            crate::file_utils::written(files, group_writes(files, own, groups)),
            own.push(hash),
        ) == crate::file_utils::text_of(files, own.push(hash)),
        group_sequences(files, own, groups).contains_key(hash) == file_sequences(
            files,
            own,
        ).contains_key(hash),
        group_sequences(files, own, groups)[hash] == file_sequences(files, own)[hash],
    decreases groups.len(),
{
    if groups.len() > 0 {
        let rest = groups.drop_last();
        let writes = group_writes(files, own, groups);
        assert(groups[groups.len() - 1].hash != hash);
        assert(own.push(hash).last() == hash);
        assert(own.push(groups.last().hash).last() == groups.last().hash);
        if group_news(files, own, groups.last()).len() > 0 {
            assert(writes.drop_last() == group_writes(files, own, rest));
        }
        assert forall|j: int| 0 <= j < rest.len() implies (#[trigger] rest[j]).hash != hash by {
            assert(groups[j].hash != hash);
        }
        unwritten_file(files, own, rest, hash);
    }
}

/// No path is kept in the file of the sequence numbers.
proof fn sequences_is_no_hash(path: Seq<Seq<char>>)
    ensures
        crate::hash::path_hash(path) != "sequences"@,
{
    reveal_strlit("sequences");
    reveal_strlit("info");
    assert("sequences"@.len() == 9);
    assert(crate::hash::path_hash(path).len() <= 4);
}

/// Setting entries counts one more change of each file that there are news for, and of no other.
pub proof fn each_changed_file_is_counted_once(
    files: Map<Seq<Seq<char>>, Seq<char>>,
    own: Seq<Seq<char>>,
    entries: Seq<PathEntryView>,
    hash: Seq<char>,
)
    ensures
        ({
            let before = file_sequences(files, own);
            let after = group_sequences(files, own, crate::groups::hash_groups(entries));
            if set_news(files, own, entries, hash).len() == 0 {
                &&& after.contains_key(hash) == before.contains_key(hash)
                &&& after[hash] == before[hash]
            } else {
                &&& after.contains_key(hash)
                &&& after[hash] == crate::sequences::bumped(before, hash)[hash]
                &&& after[hash] != (if before.contains_key(hash) {
                    before[hash]
                } else {
                    0
                })
            }
        }),
{
    groups_by_file(entries, hash);
    let groups = crate::groups::hash_groups(entries);
    if exists|j: int| 0 <= j < groups.len() && (#[trigger] groups[j]).hash == hash {
        let j = choose|j: int| 0 <= j < groups.len() && (#[trigger] groups[j]).hash == hash;
        counted_group(files, own, groups, j);
        assert(group_news(files, own, groups[j]) == set_news(files, own, entries, hash));
    } else {
        unwritten_file(files, own, groups, hash);
        no_news(files, own, entries, hash);
    }
}

/// Where there are no entries for a file, there are no news for it.
proof fn no_news(
    files: Map<Seq<Seq<char>>, Seq<char>>,
    own: Seq<Seq<char>>,
    entries: Seq<PathEntryView>,
    hash: Seq<char>,
)
    requires
        entries.filter(crate::groups::lives_in(hash)).len() == 0 || entries.len() == 0,
    ensures
        set_news(files, own, entries, hash).len() == 0,
{
    let here = entries.filter(crate::groups::lives_in(hash));
    entries.lemma_filter_len(crate::groups::lives_in(hash));
    here.lemma_filter_len(crate::store::is_fresh(file_entries(files, own, hash), true));
}

/// Reading the new text of a file gives what has been merged, if it is readable.
spec fn is_read_back(
    files: Map<Seq<Seq<char>>, Seq<char>>,
    own: Seq<Seq<char>>,
    group: GroupView,
) -> bool {
    let news = group_news(files, own, group);
    let all = crate::store::merged(file_entries(files, own, group.hash), news);
    news.len() > 0 && crate::store::all_readable(news) ==> crate::store::stored_entries(
        Some(crate::store::entries_text(all)),
    ) == crate::store::latest(all)
}

/// After all writes, the file of a path holds what it held and the news for it.
proof fn news_are_read_back(
    files: Map<Seq<Seq<char>>, Seq<char>>,
    own: Seq<Seq<char>>,
    entries: Seq<PathEntryView>,
    last: FileWriteView,
    path: Seq<Seq<char>>,
)
    requires
        crate::store::all_readable(entries),
        last.path == own.push("sequences"@),
        forall|j: int|
            0 <= j < crate::groups::hash_groups(entries).len() ==> is_read_back(
                files,
                own,
                #[trigger] crate::groups::hash_groups(entries)[j],
            ),
    ensures
        ({
            let hash = crate::hash::path_hash(path);
            let writes = group_writes(files, own, crate::groups::hash_groups(entries)).push(last);
            file_entries(crate::file_utils::written(files, writes), own, hash)
                == crate::store::renewed(
                file_entries(files, own, hash),
                set_news(files, own, entries, hash),
            )
        }),
{
    let hash = crate::hash::path_hash(path);
    let groups = crate::groups::hash_groups(entries);
    let writes = group_writes(files, own, groups);
    sequences_is_no_hash(path);
    assert(own.push(hash).last() == hash);
    assert(last.path.last() == "sequences"@);
    assert(writes.push(last).drop_last() == writes);
    groups_by_file(entries, hash);
    if exists|j: int| 0 <= j < groups.len() && (#[trigger] groups[j]).hash == hash {
        let j = choose|j: int| 0 <= j < groups.len() && (#[trigger] groups[j]).hash == hash;
        written_group(files, own, groups, j);
        assert(group_news(files, own, groups[j]) == set_news(files, own, entries, hash));
        crate::store::filtered_is_readable(entries, crate::groups::lives_in(hash));
        crate::store::filtered_is_readable(
            groups[j].entries,
            crate::store::is_fresh(file_entries(files, own, hash), true),
        );
        assert(is_read_back(files, own, groups[j]));
    } else {
        unwritten_file(files, own, groups, hash);
        no_news(files, own, entries, hash);
    }
}

/// A file that there are news for is there once they have been written.
pub proof fn news_are_written(
    files: Map<Seq<Seq<char>>, Seq<char>>,
    own: Seq<Seq<char>>,
    entries: Seq<PathEntryView>,
    path: Seq<Seq<char>>,
)
    requires
        set_news(files, own, entries, crate::hash::path_hash(path)).len() > 0,
    ensures
        entries.len() > 0,
        crate::file_utils::written(files, set_writes(files, own, entries)).contains_key(
            own.push(crate::hash::path_hash(path)),
        ),
{
    let hash = crate::hash::path_hash(path);
    let groups = crate::groups::hash_groups(entries);
    let writes = group_writes(files, own, groups);
    if entries.len() == 0 || entries.filter(crate::groups::lives_in(hash)).len() == 0 {
        no_news(files, own, entries, hash);
    }
    sequences_is_no_hash(path);
    assert(own.push(hash).last() == hash);
    assert(set_writes(files, own, entries).last().path.last() == "sequences"@);
    assert(set_writes(files, own, entries).drop_last() == writes);
    groups_by_file(entries, hash);
    let j = choose|j: int| 0 <= j < groups.len() && (#[trigger] groups[j]).hash == hash;
    written_group(files, own, groups, j);
    assert(group_news(files, own, groups[j]) == set_news(files, own, entries, hash));
}

/// A file that there are no news for stays as it is, but for the file with the sequence numbers.
pub proof fn files_without_news_stay(
    files: Map<Seq<Seq<char>>, Seq<char>>,
    own: Seq<Seq<char>>,
    entries: Seq<PathEntryView>,
    name: Seq<char>,
)
    requires
        name != "sequences"@,
        set_news(files, own, entries, name).len() == 0,
    ensures
        crate::file_utils::text_of(
            crate::file_utils::written(files, set_writes(files, own, entries)),
            own.push(name),
        ) == crate::file_utils::text_of(files, own.push(name)),
{
    if entries.len() > 0 {
        let groups = crate::groups::hash_groups(entries);
        let writes = set_writes(files, own, entries);
        assert(own.push(name).last() == name);
        assert(writes.last().path.last() == "sequences"@);
        assert(writes.drop_last() == group_writes(files, own, groups));
        groups_by_file(entries, name);
        if exists|j: int| 0 <= j < groups.len() && (#[trigger] groups[j]).hash == name {
            let j = choose|j: int| 0 <= j < groups.len() && (#[trigger] groups[j]).hash == name;
            written_group(files, own, groups, j);
            assert(group_news(files, own, groups[j]) == set_news(files, own, entries, name));
        } else {
            unwritten_file(files, own, groups, name);
        }
    }
}

/// Setting entries writes nothing outside the own directory.
pub proof fn setting_stays_in_the_own_directory(
    files: Map<Seq<Seq<char>>, Seq<char>>,
    own: Seq<Seq<char>>,
    entries: Seq<PathEntryView>,
    path: Seq<Seq<char>>,
)
    requires
        path.len() == 0 || path.drop_last() != own,
    ensures
        crate::file_utils::text_of(
            crate::file_utils::written(files, set_writes(files, own, entries)),
            path,
        ) == crate::file_utils::text_of(files, path),
{
    if entries.len() > 0 {
        let groups = crate::groups::hash_groups(entries);
        let writes = set_writes(files, own, entries);
        assert(writes.drop_last() == group_writes(files, own, groups));
        assert(writes.last().path.drop_last() == own);
        group_writes_stay(files, own, groups, path);
    }
}

proof fn group_writes_stay(
    files: Map<Seq<Seq<char>>, Seq<char>>,
    own: Seq<Seq<char>>,
    groups: Seq<GroupView>,
    path: Seq<Seq<char>>,
)
    requires
        path.len() == 0 || path.drop_last() != own,
    ensures
        crate::file_utils::text_of(
            crate::file_utils::written(files, group_writes(files, own, groups)),
            path,
        ) == crate::file_utils::text_of(files, path),
    decreases groups.len(),
{
    if groups.len() > 0 {
        group_writes_stay(files, own, groups.drop_last(), path);
        let writes = group_writes(files, own, groups);
        if group_news(files, own, groups.last()).len() > 0 {
            assert(writes.drop_last() == group_writes(files, own, groups.drop_last()));
            assert(writes.last().path.drop_last() == own);
        }
    }
}

/// The writes that set entries in the directory `own`, given its files.
pub fn set_entries(own: &Vec<String>, entries_with_path: Vec<EntryWithPath>, files: &Files) -> (r:
    Vec<FileWrite>)
    ensures
        sets(files@, own.deep_view(), entries_with_path.deep_view(), r.deep_view()),
{
    let ghost dir = own.deep_view();
    let ghost all = entries_with_path.deep_view();
    let mut writes: Vec<FileWrite> = Vec::new();
    if entries_with_path.is_empty() {
        assert(writes.deep_view() =~= seq![]);
        proof {
            assert forall|path: Seq<Seq<char>>| set_news(
                files@,
                dir,
                all,
                #[trigger] crate::hash::path_hash(path),
            ).len() == 0 by {
                no_news(files@, dir, all, crate::hash::path_hash(path));
            }
            assert forall|slot: PathEntryView| #[trigger] holds_the_newest(
                files@,
                dir,
                set_news(files@, dir, all, crate::hash::path_hash(slot.path)),
                slot,
            ) by {
                no_news(files@, dir, all, crate::hash::path_hash(slot.path));
            }
        }
        return writes;
    }
    let sequences_file = child(own, "sequences");
    let mut sequences = read_sequences(files.read(&sequences_file));
    let groups = group_by_hash(entries_with_path);
    let ghost views = groups.deep_view();
    let mut nobody: Listeners<()> = Vec::new();
    let mut i: usize = 0;
    assert(writes.deep_view() =~= group_writes(files@, dir, views.take(0)));
    while i < groups.len()
        invariant
            i <= groups@.len(),
            nobody@.len() == 0,
            dir == own.deep_view(),
            views == groups.deep_view(),
            sequences.sorted(),
            sequences.deep_view() == group_sequences(files@, dir, views.take(i as int)),
            writes.deep_view() == group_writes(files@, dir, views.take(i as int)),
            forall|j: int| 0 <= j < i ==> is_read_back(files@, dir, #[trigger] views[j]),
        decreases groups@.len() - i,
    {
        let ghost done = writes.deep_view();
        let ghost group = views[i as int];
        assert(group == groups@[i as int].deep_view());
        assert(views.take(i + 1).drop_last() == views.take(i as int));
        let file = child(own, groups[i].hash.as_str());
        let entries = copy_entries(&groups[i].entries);
        let ghost heard = crate::listener::views(nobody@);
        let outcome = update_entries::<()>(&mut nobody, files.read(&file), entries, true, None);
        assert(heard.len() == 0 && heard == crate::listener::views(nobody@));
        assert(outcome.entries.deep_view() == group_news(files@, dir, group));
        match outcome.text {
            Some(text) => {
                sequences.bump(&groups[i].hash);
                let write = FileWrite { path: file, text };
                let ghost view = write.deep_view();
                writes.push(write);
                assert(writes.deep_view() =~= done.push(view));
            },
            None => {},
        }
        i = i + 1;
    }
    assert(views.take(views.len() as int) == views);
    let ghost done = writes.deep_view();
    proof {
        sequences.keys_are_ordered();
    }
    let write = FileWrite { path: sequences_file, text: write_sequences(&sequences) };
    let ghost view = write.deep_view();
    writes.push(write);
    assert(writes.deep_view() =~= done.push(view));
    proof {
        assert(writes.deep_view().drop_last() == done);
        if crate::store::all_readable(all) {
            assert forall|path: Seq<Seq<char>>| file_entries(
                crate::file_utils::written(files@, writes.deep_view()),
                dir,
                #[trigger] crate::hash::path_hash(path),
            ) == crate::store::renewed(
                file_entries(files@, dir, crate::hash::path_hash(path)),
                set_news(files@, dir, all, crate::hash::path_hash(path)),
            ) by {
                news_are_read_back(files@, dir, all, view, path);
            }
            assert forall|slot: PathEntryView| #[trigger] holds_the_newest(
                crate::file_utils::written(files@, writes.deep_view()),
                dir,
                set_news(files@, dir, all, crate::hash::path_hash(slot.path)),
                slot,
            ) by {
                let hash = crate::hash::path_hash(slot.path);
                news_are_read_back(files@, dir, all, view, slot.path);
                the_newest_is_held(
                    crate::file_utils::written(files@, writes.deep_view()),
                    dir,
                    file_entries(files@, dir, hash),
                    set_news(files@, dir, all, hash),
                    slot,
                );
            }
        }
    }
    writes
}

/// A copy of entries.
pub(crate) fn copy_entries(entries: &Vec<EntryWithPath>) -> (r: Vec<EntryWithPath>)
    ensures
        r.deep_view() == entries.deep_view(),
{
    let r = entries.clone();
    assert(r.deep_view() =~= entries.deep_view());
    r
}

/// Every write is of the file of a group.
pub(crate) proof fn writes_are_of_groups(
    files: Map<Seq<Seq<char>>, Seq<char>>,
    own: Seq<Seq<char>>,
    groups: Seq<GroupView>,
    i: int,
) -> (k: int)
    requires
        0 <= i < group_writes(files, own, groups).len(),
    ensures
        0 <= k < groups.len(),
        group_writes(files, own, groups)[i].path == own.push(groups[k].hash),
    decreases groups.len(),
{
    let rest = groups.drop_last();
    if i < group_writes(files, own, rest).len() {
        writes_are_of_groups(files, own, rest, i)
    } else {
        groups.len() - 1
    }
}

/// What a directory holds is read from the files in it: entries from the file with the name, and
/// sequence numbers from the file `sequences`.
pub proof fn directories_hold_what_their_files_do(
    files: Map<Seq<Seq<char>>, Seq<char>>,
    own: Seq<Seq<char>>,
    hash: Seq<char>,
)
    ensures
        file_entries(files, own, hash) == crate::store::stored_entries(
            crate::file_utils::text_of(files, own + seq![hash]),
        ),
        file_sequences(files, own) == crate::sequences::sequences_in(
            crate::file_utils::text_of(files, own + seq!["sequences"@]),
        ),
{
    assert(own.push(hash) =~= own + seq![hash]);
    assert(own.push("sequences"@) =~= own + seq!["sequences"@]);
}

} // verus!
