//! What holds of pulls.

use vstd::prelude::*;

use crate::entry::{EntryView, PathEntryView};
use crate::listener::{ListenerView, Told};
use crate::pull::{PullState, UnreadView};

verus! {

/// Files of different apps, files of different names and read states are at different places.
pub(crate) proof fn places_differ(
    dir: Seq<Seq<char>>,
    a: Seq<char>,
    b: Seq<char>,
    name: Seq<char>,
    other: Seq<char>,
)
    ensures
        crate::directory::app_file(dir, a, name) == crate::directory::app_file(dir, b, other)
            <==> a == b && name == other,
        crate::directory::app_file(dir, a, name) != crate::directory::state_file(dir, b),
{
    reveal_strlit("v2");
    reveal_strlit("local");
    let n = dir.len() as int;
    let x = crate::directory::app_file(dir, a, name);
    let y = crate::directory::app_file(dir, b, other);
    let z = crate::directory::state_file(dir, b);
    assert(x[n] == "v2"@ && x[n + 1] == a && x[n + 2] == name);
    assert(y[n] == "v2"@ && y[n + 1] == b && y[n + 2] == other);
    assert(z[n] == "local"@);
    assert("v2"@.len() == 2 && "local"@.len() == 5);
}

/// The files of the other apps, and the own read state, are as they were.
pub open spec fn others_untouched(
    dir: Seq<Seq<char>>,
    own_app_id: Seq<char>,
    before: Map<Seq<Seq<char>>, Seq<char>>,
    after: Map<Seq<Seq<char>>, Seq<char>>,
) -> bool {
    &&& forall|app_id: Seq<char>, name: Seq<char>|
        app_id != own_app_id ==> crate::file_utils::text_of(
            after,
            #[trigger] crate::directory::app_file(dir, app_id, name),
        ) == crate::file_utils::text_of(before, crate::directory::app_file(dir, app_id, name))
    &&& crate::file_utils::text_of(after, crate::directory::state_file(dir, own_app_id))
        == crate::file_utils::text_of(before, crate::directory::state_file(dir, own_app_id))
}

/// What taking over one file does to the read state.
pub(crate) proof fn file_step<T>(
    listeners: Seq<ListenerView<T>>,
    dir: Seq<Seq<char>>,
    own_app_id: Seq<char>,
    app_id: Seq<char>,
    unread: UnreadView,
    extra: Option<&T>,
    before: PullState,
    after: PullState,
)
    requires
        crate::pull::pulls_file(
            listeners,
            dir,
            own_app_id,
            app_id,
            unread,
            extra,
            before,
            after,
        ),
    ensures
        others_untouched(dir, own_app_id, before.files, after.files),
        after.success ==> before.success,
        extra is None && before.success ==> after.success,
        !after.updated ==> !before.updated && after.local == before.local,
        forall|a: Seq<char>, h: Seq<char>|
            a != app_id || h != unread.hash ==> #[trigger] crate::sequences::read_up_to(
                after.local,
                a,
                h,
            ) == crate::sequences::read_up_to(before.local, a, h),
        ({
            let read = crate::sequences::read_up_to(after.local, app_id, unread.hash);
            read == unread.sequence || read == crate::sequences::read_up_to(
                before.local,
                app_id,
                unread.hash,
            )
        }),
        after.success && before.files.contains_key(
            crate::directory::app_file(dir, app_id, unread.hash),
        ) ==> crate::sequences::read_up_to(after.local, app_id, unread.hash) == unread.sequence,
{
    if before.files.contains_key(crate::directory::app_file(dir, app_id, unread.hash)) {
        let (kept, success) = choose|kept: Seq<PathEntryView>, success: bool| #[trigger]
            crate::pull::keeps(
                listeners,
                dir,
                own_app_id,
                app_id,
                unread,
                extra,
                before,
                kept,
                success,
            ) && after == crate::pull::after_file(
                listeners,
                dir,
                own_app_id,
                app_id,
                unread,
                extra,
                before,
                kept,
                success,
            );
        assert forall|a: Seq<char>, name: Seq<char>| a != own_app_id implies
            crate::file_utils::text_of(
            after.files,
            #[trigger] crate::directory::app_file(dir, a, name),
        ) == crate::file_utils::text_of(
            before.files,
            crate::directory::app_file(dir, a, name),
        ) by {
            places_differ(dir, own_app_id, a, unread.hash, name);
        }
        places_differ(dir, own_app_id, own_app_id, unread.hash, unread.hash);
    }
}

/// What taking over some files of an app does to the read state.
proof fn files_step<T>(
    listeners: Seq<ListenerView<T>>,
    dir: Seq<Seq<char>>,
    own_app_id: Seq<char>,
    app_id: Seq<char>,
    unread: Seq<UnreadView>,
    sequences: Map<Seq<char>, i64>,
    extra: Option<&T>,
    before: PullState,
    after: PullState,
)
    requires
        app_id != own_app_id,
        crate::pull::pulls_files(
            listeners,
            dir,
            own_app_id,
            app_id,
            unread,
            extra,
            before,
            after,
        ),
        forall|i: int|
            0 <= i < unread.len() ==> (#[trigger] unread[i]).sequence == sequences[unread[i].hash],
    ensures
        others_untouched(dir, own_app_id, before.files, after.files),
        after.success ==> before.success,
        extra is None && before.success ==> after.success,
        !after.updated ==> !before.updated && after.local == before.local,
        forall|a: Seq<char>, h: Seq<char>|
            a != app_id ==> #[trigger] crate::sequences::read_up_to(after.local, a, h)
                == crate::sequences::read_up_to(before.local, a, h),
        forall|h: Seq<char>|
            ({
                let read = #[trigger] crate::sequences::read_up_to(after.local, app_id, h);
                read == sequences[h] || read == crate::sequences::read_up_to(
                    before.local,
                    app_id,
                    h,
                )
            }),
        after.success ==> forall|i: int|
            0 <= i < unread.len() && before.files.contains_key(
                crate::directory::app_file(dir, app_id, (#[trigger] unread[i]).hash),
            ) ==> crate::sequences::read_up_to(after.local, app_id, unread[i].hash)
                == unread[i].sequence,
    decreases unread.len(),
{
    if unread.len() > 0 {
        let rest = unread.drop_last();
        let last = unread.last();
        let between = choose|between: PullState|
            crate::pull::pulls_files(
                listeners,
                dir,
                own_app_id,
                app_id,
                rest,
                extra,
                before,
                between,
            ) && #[trigger] crate::pull::pulls_file(
                listeners,
                dir,
                own_app_id,
                app_id,
                last,
                extra,
                between,
                after,
            );
        assert forall|i: int| 0 <= i < rest.len() implies (#[trigger] rest[i]).sequence
            == sequences[rest[i].hash] by {
            assert(unread[i].sequence == sequences[unread[i].hash]);
        }
        assert(unread[unread.len() - 1].sequence == sequences[last.hash]);
        files_step(
            listeners,
            dir,
            own_app_id,
            app_id,
            rest,
            sequences,
            extra,
            before,
            between,
        );
        file_step(listeners, dir, own_app_id, app_id, last, extra, between, after);
        assert forall|a: Seq<char>, name: Seq<char>| a != own_app_id implies
            crate::file_utils::text_of(
            after.files,
            #[trigger] crate::directory::app_file(dir, a, name),
        ) == crate::file_utils::text_of(
            before.files,
            crate::directory::app_file(dir, a, name),
        ) by {
            assert(crate::file_utils::text_of(
                between.files,
                crate::directory::app_file(dir, a, name),
            ) == crate::file_utils::text_of(
                before.files,
                crate::directory::app_file(dir, a, name),
            ));
        }
        if after.success {
            assert forall|i: int|
                0 <= i < unread.len() && before.files.contains_key(
                    crate::directory::app_file(dir, app_id, (#[trigger] unread[i]).hash),
                ) implies crate::sequences::read_up_to(after.local, app_id, unread[i].hash)
                == unread[i].sequence by {
                let place = crate::directory::app_file(dir, app_id, unread[i].hash);
                assert(crate::file_utils::text_of(between.files, place)
                    == crate::file_utils::text_of(before.files, place));
                if i < rest.len() {
                    assert(rest[i] == unread[i]);
                }
            }
        }
    }
}

/// Every file of an app that is there and has a sequence number has been read up to it.
pub open spec fn caught_up(dir: Seq<Seq<char>>, app_id: Seq<char>, state: PullState) -> bool {
    let sequences = crate::publish::file_sequences(
        state.files,
        crate::directory::app_dir(dir, app_id),
    );
    forall|i: int|
        0 <= i < crate::pull::unread_files(state.local, app_id, sequences).len()
            ==> !state.files.contains_key(
            crate::directory::app_file(
                dir,
                app_id,
                (#[trigger] crate::pull::unread_files(state.local, app_id, sequences)[i]).hash,
            ),
        )
}

/// The files that are unread are among the files with sequence numbers.
pub(crate) proof fn unread_are_listed(
    local: Map<Seq<char>, Map<Seq<char>, i64>>,
    app_id: Seq<char>,
    sequences: Map<Seq<char>, i64>,
    i: int,
)
    requires
        0 <= i < crate::pull::unread_files(local, app_id, sequences).len(),
    ensures
        ({
            let unread = crate::pull::unread_files(local, app_id, sequences)[i];
            &&& crate::sequences::ordered(sequences.dom()).contains(unread.hash)
            &&& unread.sequence == sequences[unread.hash]
            &&& crate::sequences::read_up_to(local, app_id, unread.hash) != unread.sequence
        }),
{
    let names = crate::sequences::ordered(sequences.dom());
    let pred = crate::pull::is_unread(local, app_id, sequences);
    let some = names.filter(pred);
    assert(some.contains(some[i]));
    names.lemma_filter_contains_rev(pred, some[i]);
    names.lemma_filter_pred(pred, i);
}

/// A listed file whose sequence number is not the one it was read up to is unread.
pub(crate) proof fn listed_are_unread(
    local: Map<Seq<char>, Map<Seq<char>, i64>>,
    app_id: Seq<char>,
    sequences: Map<Seq<char>, i64>,
    hash: Seq<char>,
) -> (i: int)
    requires
        crate::sequences::ordered(sequences.dom()).contains(hash),
        crate::sequences::read_up_to(local, app_id, hash) != sequences[hash],
    ensures
        0 <= i < crate::pull::unread_files(local, app_id, sequences).len(),
        crate::pull::unread_files(local, app_id, sequences)[i] == (UnreadView {
            hash,
            sequence: sequences[hash],
        }),
{
    let names = crate::sequences::ordered(sequences.dom());
    let pred = crate::pull::is_unread(local, app_id, sequences);
    let k = choose|k: int| 0 <= k < names.len() && names[k] == hash;
    names.lemma_filter_contains(pred, k);
    let some = names.filter(pred);
    choose|i: int| 0 <= i < some.len() && some[i] == hash
}

/// What taking over an app does to the read state.
pub(crate) proof fn app_step<T>(
    listeners: Seq<ListenerView<T>>,
    dir: Seq<Seq<char>>,
    own_app_id: Seq<char>,
    app_id: Seq<char>,
    extra: Option<&T>,
    before: PullState,
    after: PullState,
)
    requires
        crate::pull::pulls_app(listeners, dir, own_app_id, app_id, extra, before, after),
    ensures
        others_untouched(dir, own_app_id, before.files, after.files),
        after.success ==> before.success,
        extra is None && before.success ==> after.success,
        !after.updated ==> !before.updated && after.local == before.local,
        forall|a: Seq<char>, h: Seq<char>|
            a != app_id ==> #[trigger] crate::sequences::read_up_to(after.local, a, h)
                == crate::sequences::read_up_to(before.local, a, h),
        after.success && app_id != own_app_id ==> caught_up(dir, app_id, after),
{
    if app_id != own_app_id {
        let place = crate::directory::app_file(dir, app_id, "sequences"@);
        let sequences = crate::publish::file_sequences(
            before.files,
            crate::directory::app_dir(dir, app_id),
        );
        let unread = crate::pull::unread_files(before.local, app_id, sequences);
        assert forall|i: int| 0 <= i < unread.len() implies (#[trigger] unread[i]).sequence
            == sequences[unread[i].hash] by {
            unread_are_listed(before.local, app_id, sequences, i);
        }
        files_step(
            listeners,
            dir,
            own_app_id,
            app_id,
            unread,
            sequences,
            extra,
            before,
            after,
        );
        assert(crate::file_utils::text_of(after.files, place) == crate::file_utils::text_of(
            before.files,
            place,
        ));
        assert(sequences == crate::publish::file_sequences(
            after.files,
            crate::directory::app_dir(dir, app_id),
        ));
        if after.success {
            let left = crate::pull::unread_files(after.local, app_id, sequences);
            assert forall|i: int| 0 <= i < left.len() implies !after.files.contains_key(
                crate::directory::app_file(dir, app_id, (#[trigger] left[i]).hash),
            ) by {
                unread_are_listed(after.local, app_id, sequences, i);
                let hash = left[i].hash;
                let file = crate::directory::app_file(dir, app_id, hash);
                assert(crate::file_utils::text_of(after.files, file)
                    == crate::file_utils::text_of(before.files, file));
                if crate::sequences::read_up_to(before.local, app_id, hash) != sequences[hash] {
                    let k = listed_are_unread(before.local, app_id, sequences, hash);
                    assert(unread[k].hash == hash);
                }
            }
        }
    }
}

/// Being caught up with an app rests on its files and what has been read of them.
proof fn caught_up_stays(
    dir: Seq<Seq<char>>,
    own_app_id: Seq<char>,
    app_id: Seq<char>,
    before: PullState,
    after: PullState,
)
    requires
        app_id != own_app_id,
        caught_up(dir, app_id, before),
        others_untouched(dir, own_app_id, before.files, after.files),
        forall|h: Seq<char>| #[trigger]
            crate::sequences::read_up_to(after.local, app_id, h) == crate::sequences::read_up_to(
                before.local,
                app_id,
                h,
            ),
    ensures
        caught_up(dir, app_id, after),
{
    let place = crate::directory::app_file(dir, app_id, "sequences"@);
    assert(crate::file_utils::text_of(after.files, place) == crate::file_utils::text_of(
        before.files,
        place,
    ));
    let sequences = crate::publish::file_sequences(
        before.files,
        crate::directory::app_dir(dir, app_id),
    );
    let left = crate::pull::unread_files(after.local, app_id, sequences);
    assert forall|i: int| 0 <= i < left.len() implies !after.files.contains_key(
        crate::directory::app_file(dir, app_id, (#[trigger] left[i]).hash),
    ) by {
        unread_are_listed(after.local, app_id, sequences, i);
        let k = listed_are_unread(before.local, app_id, sequences, left[i].hash);
        let file = crate::directory::app_file(dir, app_id, left[i].hash);
        assert(crate::file_utils::text_of(after.files, file) == crate::file_utils::text_of(
            before.files,
            file,
        ));
        assert(crate::pull::unread_files(before.local, app_id, sequences)[k].hash == left[i].hash);
    }
}

/// What taking over some apps does to the read state.
proof fn apps_step<T>(
    listeners: Seq<ListenerView<T>>,
    dir: Seq<Seq<char>>,
    own_app_id: Seq<char>,
    app_ids: Seq<Seq<char>>,
    extra: Option<&T>,
    before: PullState,
    after: PullState,
)
    requires
        crate::pull::pulls_apps(listeners, dir, own_app_id, app_ids, extra, before, after),
    ensures
        others_untouched(dir, own_app_id, before.files, after.files),
        after.success ==> before.success,
        extra is None && before.success ==> after.success,
        !after.updated ==> !before.updated && after.local == before.local,
        after.success ==> forall|i: int|
            0 <= i < app_ids.len() && app_ids[i] != own_app_id ==> caught_up(
                dir,
                #[trigger] app_ids[i],
                after,
            ),
    decreases app_ids.len(),
{
    if app_ids.len() > 0 {
        let rest = app_ids.drop_last();
        let last = app_ids.last();
        let between = choose|between: PullState|
            crate::pull::pulls_apps(listeners, dir, own_app_id, rest, extra, before, between)
                && #[trigger] crate::pull::pulls_app(
                listeners,
                dir,
                own_app_id,
                last,
                extra,
                between,
                after,
            );
        apps_step(listeners, dir, own_app_id, rest, extra, before, between);
        app_step(listeners, dir, own_app_id, last, extra, between, after);
        assert forall|a: Seq<char>, name: Seq<char>| a != own_app_id implies
            crate::file_utils::text_of(
            after.files,
            #[trigger] crate::directory::app_file(dir, a, name),
        ) == crate::file_utils::text_of(
            before.files,
            crate::directory::app_file(dir, a, name),
        ) by {
            assert(crate::file_utils::text_of(
                between.files,
                crate::directory::app_file(dir, a, name),
            ) == crate::file_utils::text_of(
                before.files,
                crate::directory::app_file(dir, a, name),
            ));
        }
        if after.success {
            assert forall|i: int| 0 <= i < app_ids.len() && app_ids[i] != own_app_id implies
                caught_up(dir, #[trigger] app_ids[i], after) by {
                if app_ids[i] != last {
                    assert(rest[i] == app_ids[i]);
                    caught_up_stays(dir, own_app_id, app_ids[i], between, after);
                }
            }
        }
    }
}

/// Once a pull has applied everything, nothing is pending until new entries arrive. A pull that
/// tells no listeners always applies everything.
pub proof fn a_pull_catches_up<T>(
    listeners: Seq<ListenerView<T>>,
    told: Seq<Seq<Told>>,
    dir: Seq<Seq<char>>,
    own_app_id: Seq<char>,
    app_ids: Seq<Seq<char>>,
    extra: Option<&T>,
    before: Map<Seq<Seq<char>>, Seq<char>>,
    last: PullState,
    after: Map<Seq<Seq<char>>, Seq<char>>,
)
    requires
        crate::pull::pulls(listeners, told, dir, own_app_id, app_ids, extra, before, last, after),
        last.success || extra is None,
    ensures
        crate::notifier::pending(after, dir, own_app_id, app_ids).len() == 0,
{
    let ids = crate::order::arrangement::<String>(app_ids);
    let start = crate::pull::pull_start(before, dir, own_app_id, told);
    let state = crate::directory::state_file(dir, own_app_id);
    apps_step(listeners, dir, own_app_id, ids, extra, start, last);
    let pred = crate::notifier::is_pending(after, dir, own_app_id);
    let left = ids.filter(pred);
    if left.len() > 0 {
        let app_id = left[0];
        assert(left.contains(app_id));
        ids.lemma_filter_contains_rev(pred, app_id);
        ids.lemma_filter_pred(pred, 0);
        let k = choose|k: int| 0 <= k < ids.len() && ids[k] == app_id;
        assert(caught_up(dir, ids[k], last));
        assert(crate::sequences::local_in(crate::file_utils::text_of(after, state)) == last.local);
        places_differ(dir, app_id, own_app_id, "sequences"@, "sequences"@);
        let sequences = crate::publish::file_sequences(
            last.files,
            crate::directory::app_dir(dir, app_id),
        );
        assert(sequences == crate::publish::file_sequences(
            after,
            crate::directory::app_dir(dir, app_id),
        ));
        let unread = crate::pull::unread_files(last.local, app_id, sequences);
        let there = crate::notifier::is_there(after, dir, app_id);
        let news = crate::notifier::news_of(after, dir, own_app_id, app_id);
        assert(news == unread.filter(there));
        assert(news.contains(news[0]));
        unread.lemma_filter_contains_rev(there, news[0]);
        unread.lemma_filter_pred(there, 0);
        let i = choose|i: int| 0 <= i < unread.len() && unread[i] == news[0];
        places_differ(dir, app_id, own_app_id, unread[i].hash, unread[i].hash);
        assert(!last.files.contains_key(
            crate::directory::app_file(dir, app_id, unread[i].hash),
        ));
    }
}

/// What an app holds for a path and key.
pub open spec fn app_holds(
    files: Map<Seq<Seq<char>>, Seq<char>>,
    dir: Seq<Seq<char>>,
    app_id: Seq<char>,
    hash: Seq<char>,
    slot: PathEntryView,
) -> Option<EntryView> {
    crate::store::held(
        crate::publish::file_entries(files, crate::directory::app_dir(dir, app_id), hash),
        slot,
    )
}

/// What was there is still there, or something newer is.
pub open spec fn never_older(before: Option<EntryView>, after: Option<EntryView>) -> bool {
    before matches Some(old) ==> after matches Some(now) && (now == old
        || crate::order::text_before(old.datetime, now.datetime))
}

/// Something is there that is not older.
pub open spec fn at_least(entry: Option<EntryView>, after: Option<EntryView>) -> bool {
    entry matches Some(entry) ==> after matches Some(now) && !crate::order::text_before(
        now.datetime,
        entry.datetime,
    )
}

/// Nothing keeps the entry from being taken over: no listener is told, or the listeners could
/// apply everything and the entry is no maintenance entry.
pub open spec fn goes_through<T>(extra: Option<&T>, success: bool, slot: PathEntryView) -> bool {
    extra is None || (success && !crate::listener::is_maintenance(slot.path, slot.entry.key))
}

pub(crate) proof fn never_older_chains(
    a: Option<EntryView>,
    b: Option<EntryView>,
    c: Option<EntryView>,
)
    requires
        never_older(b, c),
    ensures
        never_older(a, b) ==> never_older(a, c),
        at_least(a, b) ==> at_least(a, c),
{
    if a is Some && b is Some && c is Some && b != c {
        let (x, y, z) = (a.unwrap().datetime, b.unwrap().datetime, c.unwrap().datetime);
        if crate::order::text_before(x, y) {
            crate::order::text_before_transitive(x, y, z);
        }
        if crate::order::text_before(z, x) {
            crate::order::text_before_transitive(y, z, x);
        }
    }
}

/// What taking over one file does to the own entries.
pub(crate) proof fn file_never_goes_back<T>(
    listeners: Seq<ListenerView<T>>,
    dir: Seq<Seq<char>>,
    own_app_id: Seq<char>,
    app_id: Seq<char>,
    unread: UnreadView,
    extra: Option<&T>,
    before: PullState,
    after: PullState,
    hash: Seq<char>,
    slot: PathEntryView,
)
    requires
        crate::pull::pulls_file(
            listeners,
            dir,
            own_app_id,
            app_id,
            unread,
            extra,
            before,
            after,
        ),
    ensures
        never_older(
            app_holds(before.files, dir, own_app_id, hash, slot),
            app_holds(after.files, dir, own_app_id, hash, slot),
        ),
        goes_through(extra, after.success, slot) && hash == unread.hash
            && before.files.contains_key(crate::directory::app_file(dir, app_id, hash)) ==> at_least(
            app_holds(before.files, dir, app_id, hash, slot),
            app_holds(after.files, dir, own_app_id, hash, slot),
        ),
{
    if before.files.contains_key(crate::directory::app_file(dir, app_id, unread.hash)) {
        let (kept, success) = choose|kept: Seq<PathEntryView>, success: bool| #[trigger]
            crate::pull::keeps(
                listeners,
                dir,
                own_app_id,
                app_id,
                unread,
                extra,
                before,
                kept,
                success,
            ) && after == crate::pull::after_file(
                listeners,
                dir,
                own_app_id,
                app_id,
                unread,
                extra,
                before,
                kept,
                success,
            );
        let own = crate::directory::app_dir(dir, own_app_id);
        let app = crate::directory::app_dir(dir, app_id);
        places_differ(dir, own_app_id, own_app_id, unread.hash, hash);
        if hash == unread.hash {
            let stored = crate::publish::file_entries(before.files, own, hash);
            let came = crate::publish::file_entries(before.files, app, hash);
            assert forall|i: int| 0 <= i < kept.len() implies crate::store::is_fresh(
                stored,
                false,
            )(#[trigger] kept[i]) by {
                assert(kept.contains(kept[i]));
                crate::store::taken_are_fresh(
                    listeners,
                    stored,
                    came,
                    false,
                    extra,
                    kept,
                    success,
                    kept[i],
                );
            }
            crate::laws::an_update_never_goes_back(stored, kept, false, slot);
            if goes_through(extra, after.success, slot) {
                let text = crate::file_utils::text_of(before.files, app.push(hash));
                crate::laws::a_file_holds_one_entry_per_slot(
                    crate::store::parsed(crate::file_utils::file_lines(text)),
                );
                crate::laws::what_succeeds_holds_the_newest(
                    listeners,
                    stored,
                    came,
                    extra,
                    kept,
                    success,
                    slot,
                );
                match crate::store::held(came, slot) {
                    Some(y) => {
                        crate::order::text_before_irreflexive(y.datetime);
                    },
                    None => {},
                }
            }
        }
    }
}

/// What taking over some files of an app does to the own entries.
proof fn files_never_go_back<T>(
    listeners: Seq<ListenerView<T>>,
    dir: Seq<Seq<char>>,
    own_app_id: Seq<char>,
    app_id: Seq<char>,
    unread: Seq<UnreadView>,
    extra: Option<&T>,
    before: PullState,
    after: PullState,
    hash: Seq<char>,
    slot: PathEntryView,
)
    requires
        app_id != own_app_id,
        crate::pull::pulls_files(
            listeners,
            dir,
            own_app_id,
            app_id,
            unread,
            extra,
            before,
            after,
        ),
    ensures
        others_untouched(dir, own_app_id, before.files, after.files),
        never_older(
            app_holds(before.files, dir, own_app_id, hash, slot),
            app_holds(after.files, dir, own_app_id, hash, slot),
        ),
        goes_through(extra, after.success, slot) && (exists|i: int|
            0 <= i < unread.len() && (#[trigger] unread[i]).hash == hash)
            && before.files.contains_key(crate::directory::app_file(dir, app_id, hash)) ==> at_least(
            app_holds(before.files, dir, app_id, hash, slot),
            app_holds(after.files, dir, own_app_id, hash, slot),
        ),
    decreases unread.len(),
{
    if unread.len() > 0 {
        let rest = unread.drop_last();
        let last = unread.last();
        let between = choose|between: PullState|
            crate::pull::pulls_files(
                listeners,
                dir,
                own_app_id,
                app_id,
                rest,
                extra,
                before,
                between,
            ) && #[trigger] crate::pull::pulls_file(
                listeners,
                dir,
                own_app_id,
                app_id,
                last,
                extra,
                between,
                after,
            );
        files_never_go_back(
            listeners,
            dir,
            own_app_id,
            app_id,
            rest,
            extra,
            before,
            between,
            hash,
            slot,
        );
        file_step(listeners, dir, own_app_id, app_id, last, extra, between, after);
        file_never_goes_back(
            listeners,
            dir,
            own_app_id,
            app_id,
            last,
            extra,
            between,
            after,
            hash,
            slot,
        );
        untouched_chains(dir, own_app_id, before.files, between.files, after.files);
        let own_before = app_holds(before.files, dir, own_app_id, hash, slot);
        let own_between = app_holds(between.files, dir, own_app_id, hash, slot);
        let own_after = app_holds(after.files, dir, own_app_id, hash, slot);
        never_older_chains(own_before, own_between, own_after);
        let place = crate::directory::app_file(dir, app_id, hash);
        assert(crate::file_utils::text_of(between.files, place) == crate::file_utils::text_of(
            before.files,
            place,
        ));
        never_older_chains(
            app_holds(before.files, dir, app_id, hash, slot),
            own_between,
            own_after,
        );
        if exists|i: int| 0 <= i < unread.len() && (#[trigger] unread[i]).hash == hash {
            let i = choose|i: int| 0 <= i < unread.len() && (#[trigger] unread[i]).hash == hash;
            if i < rest.len() {
                assert(rest[i].hash == hash);
            }
        }
    }
}

pub(crate) proof fn untouched_chains(
    dir: Seq<Seq<char>>,
    own_app_id: Seq<char>,
    a: Map<Seq<Seq<char>>, Seq<char>>,
    b: Map<Seq<Seq<char>>, Seq<char>>,
    c: Map<Seq<Seq<char>>, Seq<char>>,
)
    requires
        others_untouched(dir, own_app_id, a, b),
        others_untouched(dir, own_app_id, b, c),
    ensures
        others_untouched(dir, own_app_id, a, c),
{
    assert forall|app_id: Seq<char>, name: Seq<char>| app_id != own_app_id implies
        crate::file_utils::text_of(
        c,
        #[trigger] crate::directory::app_file(dir, app_id, name),
    ) == crate::file_utils::text_of(a, crate::directory::app_file(dir, app_id, name)) by {
        assert(crate::file_utils::text_of(b, crate::directory::app_file(dir, app_id, name))
            == crate::file_utils::text_of(a, crate::directory::app_file(dir, app_id, name)));
    }
}

/// What taking over some apps does to the own entries.
proof fn apps_never_go_back<T>(
    listeners: Seq<ListenerView<T>>,
    dir: Seq<Seq<char>>,
    own_app_id: Seq<char>,
    app_ids: Seq<Seq<char>>,
    extra: Option<&T>,
    before: PullState,
    after: PullState,
    app_id: Seq<char>,
    hash: Seq<char>,
    slot: PathEntryView,
)
    requires
        crate::pull::pulls_apps(listeners, dir, own_app_id, app_ids, extra, before, after),
    ensures
        others_untouched(dir, own_app_id, before.files, after.files),
        never_older(
            app_holds(before.files, dir, own_app_id, hash, slot),
            app_holds(after.files, dir, own_app_id, hash, slot),
        ),
        goes_through(extra, after.success, slot) && app_ids.no_duplicates() && app_ids.contains(
            app_id,
        ) && app_id != own_app_id && is_unread_by(before, dir, app_id, hash) ==> at_least(
            app_holds(before.files, dir, app_id, hash, slot),
            app_holds(after.files, dir, own_app_id, hash, slot),
        ),
        !app_ids.contains(app_id) ==> forall|h: Seq<char>| #[trigger]
            crate::sequences::read_up_to(after.local, app_id, h) == crate::sequences::read_up_to(
                before.local,
                app_id,
                h,
            ),
    decreases app_ids.len(),
{
    if app_ids.len() > 0 {
        let rest = app_ids.drop_last();
        let last = app_ids.last();
        let between = choose|between: PullState|
            crate::pull::pulls_apps(listeners, dir, own_app_id, rest, extra, before, between)
                && #[trigger] crate::pull::pulls_app(
                listeners,
                dir,
                own_app_id,
                last,
                extra,
                between,
                after,
            );
        apps_never_go_back(
            listeners,
            dir,
            own_app_id,
            rest,
            extra,
            before,
            between,
            app_id,
            hash,
            slot,
        );
        app_step(listeners, dir, own_app_id, last, extra, between, after);
        untouched_chains(dir, own_app_id, before.files, between.files, after.files);
        let own_between = app_holds(between.files, dir, own_app_id, hash, slot);
        let own_after = app_holds(after.files, dir, own_app_id, hash, slot);
        let sequences = crate::publish::file_sequences(
            between.files,
            crate::directory::app_dir(dir, last),
        );
        let unread = crate::pull::unread_files(between.local, last, sequences);
        if last != own_app_id {
            files_never_go_back(
                listeners,
                dir,
                own_app_id,
                last,
                unread,
                extra,
                between,
                after,
                hash,
                slot,
            );
        }
        never_older_chains(
            app_holds(before.files, dir, own_app_id, hash, slot),
            own_between,
            own_after,
        );
        never_older_chains(
            app_holds(before.files, dir, app_id, hash, slot),
            own_between,
            own_after,
        );
        assert(app_ids[app_ids.len() - 1] == last);
        if rest.contains(app_id) {
            let i = choose|i: int| 0 <= i < rest.len() && rest[i] == app_id;
            assert(app_ids[i] == app_id);
        }
        if app_ids.contains(app_id) && !rest.contains(app_id) {
            let i = choose|i: int| 0 <= i < app_ids.len() && app_ids[i] == app_id;
            if i < rest.len() {
                assert(rest[i] == app_id);
            }
            assert(app_id == last);
            if app_id != own_app_id && is_unread_by(before, dir, app_id, hash) {
                let place = crate::directory::app_file(dir, app_id, hash);
                let table = crate::directory::app_file(dir, app_id, "sequences"@);
                assert(crate::file_utils::text_of(between.files, place)
                    == crate::file_utils::text_of(before.files, place));
                assert(crate::file_utils::text_of(between.files, table)
                    == crate::file_utils::text_of(before.files, table));
                let k = listed_are_unread(between.local, app_id, sequences, hash);
                assert(unread[k].hash == hash);
            }
        }
        if app_ids.no_duplicates() {
            assert forall|i: int, j: int|
                0 <= i < rest.len() && 0 <= j < rest.len() && i != j implies rest[i]
                != rest[j] by {
                assert(app_ids[i] != app_ids[j]);
            }
        }
    }
}

/// The file of an app is there, has a sequence number, and has not been read up to it.
pub open spec fn is_unread_by(
    state: PullState,
    dir: Seq<Seq<char>>,
    app_id: Seq<char>,
    hash: Seq<char>,
) -> bool {
    let sequences = crate::publish::file_sequences(
        state.files,
        crate::directory::app_dir(dir, app_id),
    );
    &&& state.files.contains_key(crate::directory::app_file(dir, app_id, hash))
    &&& crate::sequences::ordered(sequences.dom()).contains(hash)
    &&& crate::sequences::read_up_to(state.local, app_id, hash) != sequences[hash]
}

/// No pull replaces an own entry by an older one, whatever the listeners answer.
pub proof fn a_pull_never_goes_back<T>(
    listeners: Seq<ListenerView<T>>,
    told: Seq<Seq<Told>>,
    dir: Seq<Seq<char>>,
    own_app_id: Seq<char>,
    app_ids: Seq<Seq<char>>,
    extra: Option<&T>,
    before: Map<Seq<Seq<char>>, Seq<char>>,
    last: PullState,
    after: Map<Seq<Seq<char>>, Seq<char>>,
    hash: Seq<char>,
    slot: PathEntryView,
)
    requires
        crate::pull::pulls(listeners, told, dir, own_app_id, app_ids, extra, before, last, after),
    ensures
        never_older(
            app_holds(before, dir, own_app_id, hash, slot),
            app_holds(after, dir, own_app_id, hash, slot),
        ),
{
    apps_never_go_back(
        listeners,
        dir,
        own_app_id,
        crate::order::arrangement::<String>(app_ids),
        extra,
        crate::pull::pull_start(before, dir, own_app_id, told),
        last,
        own_app_id,
        hash,
        slot,
    );
    places_differ(dir, own_app_id, own_app_id, hash, hash);
}

/// A pull takes over everything that is newer: of every entry in a file that has not been read,
/// the own file then holds it or one that is not older, unless listeners are told and could not
/// apply everything, or the entry is a maintenance entry.
pub proof fn a_pull_loses_nothing<T>(
    listeners: Seq<ListenerView<T>>,
    told: Seq<Seq<Told>>,
    dir: Seq<Seq<char>>,
    own_app_id: Seq<char>,
    app_ids: Seq<Seq<char>>,
    extra: Option<&T>,
    before: Map<Seq<Seq<char>>, Seq<char>>,
    last: PullState,
    after: Map<Seq<Seq<char>>, Seq<char>>,
    app_id: Seq<char>,
    hash: Seq<char>,
    slot: PathEntryView,
)
    requires
        crate::pull::pulls(listeners, told, dir, own_app_id, app_ids, extra, before, last, after),
        goes_through(extra, last.success, slot),
        app_ids.contains(app_id),
        app_id != own_app_id,
        is_unread_by(crate::pull::pull_start(before, dir, own_app_id, told), dir, app_id, hash),
    ensures
        at_least(
            app_holds(before, dir, app_id, hash, slot),
            app_holds(after, dir, own_app_id, hash, slot),
        ),
{
    let ids = crate::order::arrangement::<String>(app_ids);
    crate::order::arrangement_arranges::<String>(app_ids);
    assert(ids.contains(app_id));
    assert forall|i: int, j: int| 0 <= i < ids.len() && 0 <= j < ids.len() && i != j implies ids[i]
        != ids[j] by {
        if i < j {
            assert(<String as crate::order::Key>::before(ids[i], ids[j]));
        } else {
            assert(<String as crate::order::Key>::before(ids[j], ids[i]));
        }
        crate::order::text_before_irreflexive(ids[i]);
    }
    apps_never_go_back(
        listeners,
        dir,
        own_app_id,
        ids,
        extra,
        crate::pull::pull_start(before, dir, own_app_id, told),
        last,
        app_id,
        hash,
        slot,
    );
    places_differ(dir, own_app_id, own_app_id, hash, hash);
}

/// Taking over a file leaves, for each path and key, the newest entry, unless listeners are told
/// and could not apply everything, or it is a maintenance entry.
pub proof fn a_taken_over_file_holds_the_newest<T>(
    listeners: Seq<ListenerView<T>>,
    dir: Seq<Seq<char>>,
    own_app_id: Seq<char>,
    app_id: Seq<char>,
    unread: UnreadView,
    extra: Option<&T>,
    before: PullState,
    after: PullState,
    slot: PathEntryView,
)
    requires
        crate::pull::pulls_file(
            listeners,
            dir,
            own_app_id,
            app_id,
            unread,
            extra,
            before,
            after,
        ),
        goes_through(extra, after.success, slot),
        before.files.contains_key(crate::directory::app_file(dir, app_id, unread.hash)),
    ensures
        app_holds(after.files, dir, own_app_id, unread.hash, slot) == crate::laws::newest(
            app_holds(before.files, dir, own_app_id, unread.hash, slot),
            app_holds(before.files, dir, app_id, unread.hash, slot),
        ),
{
    let app = crate::directory::app_dir(dir, app_id);
    let text = crate::file_utils::text_of(before.files, app.push(unread.hash));
    crate::laws::a_file_holds_one_entry_per_slot(
        crate::store::parsed(crate::file_utils::file_lines(text)),
    );
    let (kept, success) = choose|kept: Seq<PathEntryView>, success: bool| #[trigger]
        crate::pull::keeps(
            listeners,
            dir,
            own_app_id,
            app_id,
            unread,
            extra,
            before,
            kept,
            success,
        ) && after == crate::pull::after_file(
            listeners,
            dir,
            own_app_id,
            app_id,
            unread,
            extra,
            before,
            kept,
            success,
        );
    crate::laws::what_succeeds_holds_the_newest(
        listeners,
        crate::publish::file_entries(
            before.files,
            crate::directory::app_dir(dir, own_app_id),
            unread.hash,
        ),
        crate::publish::file_entries(before.files, app, unread.hash),
        extra,
        kept,
        success,
        slot,
    );
}

/// A file whose entries the listeners could not all apply stays unread.
pub proof fn a_failed_file_stays_unread<T>(
    listeners: Seq<ListenerView<T>>,
    dir: Seq<Seq<char>>,
    own_app_id: Seq<char>,
    app_id: Seq<char>,
    unread: UnreadView,
    extra: Option<&T>,
    before: PullState,
    after: PullState,
)
    requires
        crate::pull::pulls_file(
            listeners,
            dir,
            own_app_id,
            app_id,
            unread,
            extra,
            before,
            after,
        ),
        before.success,
        !after.success,
    ensures
        after.local == before.local,
        after.updated == before.updated,
{
}

/// What an app sets is unread for every app that had read the file before.
proof fn what_is_set_is_unread(
    files: Map<Seq<Seq<char>>, Seq<char>>,
    dir: Seq<Seq<char>>,
    app_id: Seq<char>,
    other: Seq<char>,
    entries: Seq<PathEntryView>,
    writes: Seq<crate::file_utils::FileWriteView>,
    path: Seq<Seq<char>>,
    told: Seq<Seq<Told>>,
)
    requires
        app_id != other,
        crate::publish::sets(files, crate::directory::app_dir(dir, app_id), entries, writes),
        has_read(files, dir, app_id, other, crate::hash::path_hash(path)),
        crate::publish::set_news(
            files,
            crate::directory::app_dir(dir, app_id),
            entries,
            crate::hash::path_hash(path),
        ).len() > 0,
    ensures
        is_unread_by(
            crate::pull::pull_start(crate::file_utils::written(files, writes), dir, other, told),
            dir,
            app_id,
            crate::hash::path_hash(path),
        ),
{
    let own = crate::directory::app_dir(dir, app_id);
    let hash = crate::hash::path_hash(path);
    let after = crate::file_utils::written(files, writes);
    let state = crate::directory::state_file(dir, other);
    crate::publish::news_are_written(files, own, entries, path);
    crate::publish::each_changed_file_is_counted_once(files, own, entries, hash);
    crate::sequences::texts_can_be_ordered(
        crate::publish::file_sequences(after, own).dom(),
    );
    places_differ(dir, app_id, other, "sequences"@, "sequences"@);
    let n = dir.len() as int;
    reveal_strlit("v2");
    reveal_strlit("local");
    assert("v2"@.len() == 2 && "local"@.len() == 5);
    assert(state.drop_last()[n] == "local"@ && own[n] == "v2"@);
    crate::publish::setting_stays_in_the_own_directory(files, own, entries, state);
}

/// The app `other` has read the file of the app `app_id` up to its sequence number; a file that
/// has none counts as read.
pub open spec fn has_read(
    files: Map<Seq<Seq<char>>, Seq<char>>,
    dir: Seq<Seq<char>>,
    app_id: Seq<char>,
    other: Seq<char>,
    hash: Seq<char>,
) -> bool {
    let sequences = crate::publish::file_sequences(files, crate::directory::app_dir(dir, app_id));
    let local = crate::sequences::local_in(
        crate::file_utils::text_of(files, crate::directory::state_file(dir, other)),
    );
    crate::sequences::read_up_to(local, app_id, hash) == if sequences.contains_key(hash) {
        sequences[hash]
    } else {
        0
    }
}

/// When an app sets something new, it is pending for every app that had read the file before.
pub proof fn a_write_is_news(
    files: Map<Seq<Seq<char>>, Seq<char>>,
    dir: Seq<Seq<char>>,
    app_id: Seq<char>,
    other: Seq<char>,
    entries: Seq<PathEntryView>,
    writes: Seq<crate::file_utils::FileWriteView>,
    path: Seq<Seq<char>>,
)
    requires
        app_id != other,
        crate::publish::sets(files, crate::directory::app_dir(dir, app_id), entries, writes),
        has_read(files, dir, app_id, other, crate::hash::path_hash(path)),
        crate::publish::set_news(
            files,
            crate::directory::app_dir(dir, app_id),
            entries,
            crate::hash::path_hash(path),
        ).len() > 0,
    ensures
        crate::notifier::is_pending(crate::file_utils::written(files, writes), dir, other)(app_id),
{
    let after = crate::file_utils::written(files, writes);
    let hash = crate::hash::path_hash(path);
    what_is_set_is_unread(files, dir, app_id, other, entries, writes, path, seq![]);
    let start = crate::pull::pull_start(after, dir, other, seq![]);
    let sequences = crate::publish::file_sequences(after, crate::directory::app_dir(dir, app_id));
    let i = listed_are_unread(start.local, app_id, sequences, hash);
    let unread = crate::pull::unread_files(start.local, app_id, sequences);
    unread.lemma_filter_contains(crate::notifier::is_there(after, dir, app_id), i);
}

/// What an app sets reaches the others: after the next pull of an app that had read the file
/// before, that app holds what was set, or something that is not older, unless its listeners are
/// told and could not apply everything, or it is a maintenance entry.
pub proof fn what_is_set_reaches_the_others<T>(
    listeners: Seq<ListenerView<T>>,
    told: Seq<Seq<Told>>,
    files: Map<Seq<Seq<char>>, Seq<char>>,
    dir: Seq<Seq<char>>,
    app_id: Seq<char>,
    other: Seq<char>,
    entries: Seq<PathEntryView>,
    writes: Seq<crate::file_utils::FileWriteView>,
    app_ids: Seq<Seq<char>>,
    extra: Option<&T>,
    last: PullState,
    after: Map<Seq<Seq<char>>, Seq<char>>,
    slot: PathEntryView,
)
    requires
        app_id != other,
        crate::publish::sets(files, crate::directory::app_dir(dir, app_id), entries, writes),
        has_read(files, dir, app_id, other, crate::hash::path_hash(slot.path)),
        crate::publish::set_news(
            files,
            crate::directory::app_dir(dir, app_id),
            entries,
            crate::hash::path_hash(slot.path),
        ).len() > 0,
        app_ids.contains(app_id),
        crate::pull::pulls(
            listeners,
            told,
            dir,
            other,
            app_ids,
            extra,
            crate::file_utils::written(files, writes),
            last,
            after,
        ),
        goes_through(extra, last.success, slot),
    ensures
        at_least(
            app_holds(
                crate::file_utils::written(files, writes),
                dir,
                app_id,
                crate::hash::path_hash(slot.path),
                slot,
            ),
            app_holds(after, dir, other, crate::hash::path_hash(slot.path), slot),
        ),
{
    what_is_set_is_unread(files, dir, app_id, other, entries, writes, slot.path, told);
    a_pull_loses_nothing(
        listeners,
        told,
        dir,
        other,
        app_ids,
        extra,
        crate::file_utils::written(files, writes),
        last,
        after,
        app_id,
        crate::hash::path_hash(slot.path),
        slot,
    );
}

/// A set entry that is newer than the stored one, and has another value, is what the app then
/// holds for its path and key.
pub proof fn what_is_set_is_held(
    files: Map<Seq<Seq<char>>, Seq<char>>,
    dir: Seq<Seq<char>>,
    app_id: Seq<char>,
    entry: PathEntryView,
    writes: Seq<crate::file_utils::FileWriteView>,
)
    requires
        crate::publish::sets(
            files,
            crate::directory::app_dir(dir, app_id),
            seq![entry],
            writes,
        ),
        entry.entry.readable(),
        app_holds(files, dir, app_id, crate::hash::path_hash(entry.path), entry) matches Some(old)
            ==> crate::order::text_before(old.datetime, entry.entry.datetime)
            && !entry.entry.value.same(old.value),
    ensures
        app_holds(
            crate::file_utils::written(files, writes),
            dir,
            app_id,
            crate::hash::path_hash(entry.path),
            entry,
        ) == Some(entry.entry),
{
    let own = crate::directory::app_dir(dir, app_id);
    let hash = crate::hash::path_hash(entry.path);
    let one = seq![entry];
    let stored = crate::publish::file_entries(files, own, hash);
    let fresh = crate::store::is_fresh(stored, true);
    let here = crate::groups::lives_in(hash);
    assert(crate::store::all_readable(one));
    assert(fresh(entry));
    assert(one.filter(here) =~= one && one.filter(fresh) =~= one) by {
        reveal(Seq::filter);
        assert(one.drop_last() =~= Seq::<PathEntryView>::empty());
        assert(one.drop_last().filter(here) =~= Seq::<PathEntryView>::empty());
        assert(one.drop_last().filter(fresh) =~= Seq::<PathEntryView>::empty());
        assert(one.last() == entry);
    }
    crate::laws::an_update_changes_only_its_slots(stored, one, entry);
    crate::laws::slots_are_classes(entry, entry, entry);
    assert(one[0].same_slot(entry));
    assert(crate::store::occupied(one, entry));
    crate::laws::held_is_occupied(one, entry);
}

/// Taking over some files of an app tells nobody where there is no `extra`.
proof fn silent_files<T>(
    listeners: Seq<ListenerView<T>>,
    dir: Seq<Seq<char>>,
    own_app_id: Seq<char>,
    app_id: Seq<char>,
    unread: Seq<UnreadView>,
    extra: Option<&T>,
    before: PullState,
    after: PullState,
)
    requires
        crate::pull::pulls_files(
            listeners,
            dir,
            own_app_id,
            app_id,
            unread,
            extra,
            before,
            after,
        ),
        extra is None,
    ensures
        after.told == before.told,
    decreases unread.len(),
{
    if unread.len() > 0 {
        let rest = unread.drop_last();
        let last = unread.last();
        let between = choose|between: PullState|
            crate::pull::pulls_files(
                listeners,
                dir,
                own_app_id,
                app_id,
                rest,
                extra,
                before,
                between,
            ) && #[trigger] crate::pull::pulls_file(
                listeners,
                dir,
                own_app_id,
                app_id,
                last,
                extra,
                between,
                after,
            );
        silent_files(listeners, dir, own_app_id, app_id, rest, extra, before, between);
    }
}

/// Taking over some apps tells nobody where there is no `extra`.
proof fn silent_apps<T>(
    listeners: Seq<ListenerView<T>>,
    dir: Seq<Seq<char>>,
    own_app_id: Seq<char>,
    app_ids: Seq<Seq<char>>,
    extra: Option<&T>,
    before: PullState,
    after: PullState,
)
    requires
        crate::pull::pulls_apps(listeners, dir, own_app_id, app_ids, extra, before, after),
        extra is None,
    ensures
        after.told == before.told,
    decreases app_ids.len(),
{
    if app_ids.len() > 0 {
        let rest = app_ids.drop_last();
        let last = app_ids.last();
        let between = choose|between: PullState|
            crate::pull::pulls_apps(listeners, dir, own_app_id, rest, extra, before, between)
                && #[trigger] crate::pull::pulls_app(
                listeners,
                dir,
                own_app_id,
                last,
                extra,
                between,
                after,
            );
        silent_apps(listeners, dir, own_app_id, rest, extra, before, between);
        if last != own_app_id {
            let sequences = crate::publish::file_sequences(
                between.files,
                crate::directory::app_dir(dir, last),
            );
            silent_files(
                listeners,
                dir,
                own_app_id,
                last,
                crate::pull::unread_files(between.local, last, sequences),
                extra,
                between,
                after,
            );
        }
    }
}

/// A pull without an `extra` tells no listener anything.
pub proof fn a_silent_pull_tells_nobody<T>(
    listeners: Seq<ListenerView<T>>,
    told: Seq<Seq<Told>>,
    dir: Seq<Seq<char>>,
    own_app_id: Seq<char>,
    app_ids: Seq<Seq<char>>,
    extra: Option<&T>,
    before: Map<Seq<Seq<char>>, Seq<char>>,
    last: PullState,
    after: Map<Seq<Seq<char>>, Seq<char>>,
)
    requires
        crate::pull::pulls(listeners, told, dir, own_app_id, app_ids, extra, before, last, after),
        extra is None,
    ensures
        last.told == told,
{
    silent_apps(
        listeners,
        dir,
        own_app_id,
        crate::order::arrangement::<String>(app_ids),
        extra,
        crate::pull::pull_start(before, dir, own_app_id, told),
        last,
    );
}

/// Taking over files that are not there does nothing.
proof fn missing_files_are_passed_over<T>(
    listeners: Seq<ListenerView<T>>,
    dir: Seq<Seq<char>>,
    own_app_id: Seq<char>,
    app_id: Seq<char>,
    unread: Seq<UnreadView>,
    extra: Option<&T>,
    before: PullState,
    after: PullState,
)
    requires
        crate::pull::pulls_files(
            listeners,
            dir,
            own_app_id,
            app_id,
            unread,
            extra,
            before,
            after,
        ),
        forall|i: int|
            0 <= i < unread.len() ==> !before.files.contains_key(
                crate::directory::app_file(dir, app_id, (#[trigger] unread[i]).hash),
            ),
    ensures
        after == before,
    decreases unread.len(),
{
    if unread.len() > 0 {
        let rest = unread.drop_last();
        let last = unread.last();
        let between = choose|between: PullState|
            crate::pull::pulls_files(
                listeners,
                dir,
                own_app_id,
                app_id,
                rest,
                extra,
                before,
                between,
            ) && #[trigger] crate::pull::pulls_file(
                listeners,
                dir,
                own_app_id,
                app_id,
                last,
                extra,
                between,
                after,
            );
        assert forall|i: int| 0 <= i < rest.len() implies !before.files.contains_key(
            crate::directory::app_file(dir, app_id, (#[trigger] rest[i]).hash),
        ) by {
            assert(rest[i] == unread[i]);
        }
        missing_files_are_passed_over(
            listeners,
            dir,
            own_app_id,
            app_id,
            rest,
            extra,
            before,
            between,
        );
        assert(last == unread[unread.len() - 1]);
    }
}

/// Taking over apps that one is caught up with does nothing.
proof fn caught_up_apps_are_passed_over<T>(
    listeners: Seq<ListenerView<T>>,
    dir: Seq<Seq<char>>,
    own_app_id: Seq<char>,
    app_ids: Seq<Seq<char>>,
    extra: Option<&T>,
    before: PullState,
    after: PullState,
)
    requires
        crate::pull::pulls_apps(listeners, dir, own_app_id, app_ids, extra, before, after),
        forall|i: int|
            0 <= i < app_ids.len() && app_ids[i] != own_app_id ==> caught_up(
                dir,
                #[trigger] app_ids[i],
                before,
            ),
    ensures
        after == before,
    decreases app_ids.len(),
{
    if app_ids.len() > 0 {
        let rest = app_ids.drop_last();
        let last = app_ids.last();
        let between = choose|between: PullState|
            crate::pull::pulls_apps(listeners, dir, own_app_id, rest, extra, before, between)
                && #[trigger] crate::pull::pulls_app(
                listeners,
                dir,
                own_app_id,
                last,
                extra,
                between,
                after,
            );
        assert forall|i: int| 0 <= i < rest.len() && rest[i] != own_app_id implies caught_up(
            dir,
            #[trigger] rest[i],
            before,
        ) by {
            assert(rest[i] == app_ids[i]);
        }
        caught_up_apps_are_passed_over(
            listeners,
            dir,
            own_app_id,
            rest,
            extra,
            before,
            between,
        );
        if last != own_app_id {
            assert(caught_up(dir, app_ids[app_ids.len() - 1], before));
            let sequences = crate::publish::file_sequences(
                before.files,
                crate::directory::app_dir(dir, last),
            );
            missing_files_are_passed_over(
                listeners,
                dir,
                own_app_id,
                last,
                crate::pull::unread_files(before.local, last, sequences),
                extra,
                before,
                after,
            );
        }
    }
}

/// A pull when nothing is pending tells no listener anything and writes nothing.
pub proof fn a_pull_without_news_does_nothing<T>(
    listeners: Seq<ListenerView<T>>,
    told: Seq<Seq<Told>>,
    dir: Seq<Seq<char>>,
    own_app_id: Seq<char>,
    app_ids: Seq<Seq<char>>,
    extra: Option<&T>,
    before: Map<Seq<Seq<char>>, Seq<char>>,
    last: PullState,
    after: Map<Seq<Seq<char>>, Seq<char>>,
)
    requires
        crate::pull::pulls(listeners, told, dir, own_app_id, app_ids, extra, before, last, after),
        crate::notifier::pending(before, dir, own_app_id, app_ids).len() == 0,
    ensures
        last.told == told,
        last.success,
        after == before,
{
    let ids = crate::order::arrangement::<String>(app_ids);
    let start = crate::pull::pull_start(before, dir, own_app_id, told);
    let pred = crate::notifier::is_pending(before, dir, own_app_id);
    assert forall|k: int| 0 <= k < ids.len() && ids[k] != own_app_id implies caught_up(
        dir,
        #[trigger] ids[k],
        start,
    ) by {
        let app_id = ids[k];
        if pred(app_id) {
            ids.lemma_filter_contains(pred, k);
        }
        let sequences = crate::publish::file_sequences(
            before,
            crate::directory::app_dir(dir, app_id),
        );
        let unread = crate::pull::unread_files(start.local, app_id, sequences);
        let there = crate::notifier::is_there(before, dir, app_id);
        assert forall|i: int| 0 <= i < unread.len() implies !before.contains_key(
            crate::directory::app_file(dir, app_id, (#[trigger] unread[i]).hash),
        ) by {
            if there(unread[i]) {
                unread.lemma_filter_contains(there, i);
            }
        }
    }
    caught_up_apps_are_passed_over(listeners, dir, own_app_id, ids, extra, start, last);
}

/// The app `other` has read every file of the app `app_id` up to its sequence number.
pub open spec fn has_read_all(
    files: Map<Seq<Seq<char>>, Seq<char>>,
    dir: Seq<Seq<char>>,
    app_id: Seq<char>,
    other: Seq<char>,
) -> bool {
    let sequences = crate::publish::file_sequences(files, crate::directory::app_dir(dir, app_id));
    let local = crate::sequences::local_in(
        crate::file_utils::text_of(files, crate::directory::state_file(dir, other)),
    );
    forall|hash: Seq<char>| #[trigger]
        sequences.contains_key(hash) ==> crate::sequences::read_up_to(local, app_id, hash)
            == sequences[hash]
}

/// A pull of an app that has read every file of the others tells no listener anything and writes
/// nothing.
pub proof fn a_pull_of_what_has_been_read_does_nothing<T>(
    listeners: Seq<ListenerView<T>>,
    told: Seq<Seq<Told>>,
    dir: Seq<Seq<char>>,
    own_app_id: Seq<char>,
    app_ids: Seq<Seq<char>>,
    extra: Option<&T>,
    before: Map<Seq<Seq<char>>, Seq<char>>,
    last: PullState,
    after: Map<Seq<Seq<char>>, Seq<char>>,
)
    requires
        crate::pull::pulls(listeners, told, dir, own_app_id, app_ids, extra, before, last, after),
        forall|app_id: Seq<char>|
            app_ids.contains(app_id) && app_id != own_app_id ==> #[trigger] has_read_all(
                before,
                dir,
                app_id,
                own_app_id,
            ),
    ensures
        last.told == told,
        last.success,
        after == before,
{
    let ids = crate::order::arrangement::<String>(app_ids);
    let start = crate::pull::pull_start(before, dir, own_app_id, told);
    crate::order::arrangement_arranges::<String>(app_ids);
    assert forall|k: int| 0 <= k < ids.len() && ids[k] != own_app_id implies caught_up(
        dir,
        #[trigger] ids[k],
        start,
    ) by {
        let app_id = ids[k];
        assert(ids.contains(app_id));
        assert(has_read_all(before, dir, app_id, own_app_id));
        let sequences = crate::publish::file_sequences(
            before,
            crate::directory::app_dir(dir, app_id),
        );
        let unread = crate::pull::unread_files(start.local, app_id, sequences);
        if unread.len() > 0 {
            unread_are_listed(start.local, app_id, sequences, 0);
            crate::sequences::texts_can_be_ordered(sequences.dom());
            assert(sequences.contains_key(unread[0].hash));
        }
    }
    caught_up_apps_are_passed_over(listeners, dir, own_app_id, ids, extra, start, last);
}

/// Another app has a file of this name that has not been read.
pub open spec fn is_due_somewhere(
    start: PullState,
    dir: Seq<Seq<char>>,
    own_app_id: Seq<char>,
    name: Seq<char>,
) -> bool {
    exists|app_id: Seq<char>| app_id != own_app_id && #[trigger] is_unread_by(start, dir, app_id, name)
}

/// What a pull has done so far: of the files that were due, those that were taken over with
/// success count as read up to their sequence numbers, and of all others is read what was. Own
/// files change only where a file of the same name was due, and the own sequence numbers never.
pub open spec fn accounted(
    dir: Seq<Seq<char>>,
    own_app_id: Seq<char>,
    start: PullState,
    state: PullState,
) -> bool {
    &&& others_untouched(dir, own_app_id, start.files, state.files)
    &&& forall|app_id: Seq<char>, hash: Seq<char>| #[trigger]
        crate::sequences::read_up_to(state.local, app_id, hash) == if state.done.contains(
            (app_id, hash),
        ) {
            crate::publish::file_sequences(
                start.files,
                crate::directory::app_dir(dir, app_id),
            )[hash]
        } else {
            crate::sequences::read_up_to(start.local, app_id, hash)
        }
    &&& forall|app_id: Seq<char>, hash: Seq<char>| #[trigger]
        state.done.contains((app_id, hash)) ==> app_id != own_app_id && is_unread_by(
            start,
            dir,
            app_id,
            hash,
        )
    &&& state.updated <==> state.done != Set::<(Seq<char>, Seq<char>)>::empty()
    &&& forall|name: Seq<char>|
        crate::file_utils::text_of(
            state.files,
            #[trigger] crate::directory::app_file(dir, own_app_id, name),
        ) == crate::file_utils::text_of(
            start.files,
            crate::directory::app_file(dir, own_app_id, name),
        ) || (name != "sequences"@ && is_due_somewhere(start, dir, own_app_id, name))
}

/// Taking over one file keeps the account.
proof fn file_is_accounted<T>(
    listeners: Seq<ListenerView<T>>,
    dir: Seq<Seq<char>>,
    own_app_id: Seq<char>,
    app_id: Seq<char>,
    unread: UnreadView,
    extra: Option<&T>,
    start: PullState,
    before: PullState,
    after: PullState,
)
    requires
        app_id != own_app_id,
        accounted(dir, own_app_id, start, before),
        crate::pull::pulls_file(
            listeners,
            dir,
            own_app_id,
            app_id,
            unread,
            extra,
            before,
            after,
        ),
        ({
            let sequences = crate::publish::file_sequences(
                start.files,
                crate::directory::app_dir(dir, app_id),
            );
            &&& unread.sequence == sequences[unread.hash]
            &&& crate::sequences::ordered(sequences.dom()).contains(unread.hash)
            &&& crate::sequences::read_up_to(start.local, app_id, unread.hash) != unread.sequence
        }),
        unread.hash == "sequences"@ ==> crate::publish::file_entries(
            start.files,
            crate::directory::app_dir(dir, app_id),
            unread.hash,
        ).len() == 0,
    ensures
        accounted(dir, own_app_id, start, after),
{
    file_step(listeners, dir, own_app_id, app_id, unread, extra, before, after);
    untouched_chains(dir, own_app_id, start.files, before.files, after.files);
    let place = crate::directory::app_file(dir, app_id, unread.hash);
    if before.files.contains_key(place) {
        assert(crate::file_utils::text_of(before.files, place) == crate::file_utils::text_of(
            start.files,
            place,
        ));
        assert(is_unread_by(start, dir, app_id, unread.hash));
        let (kept, success) = choose|kept: Seq<PathEntryView>, success: bool| #[trigger]
            crate::pull::keeps(
                listeners,
                dir,
                own_app_id,
                app_id,
                unread,
                extra,
                before,
                kept,
                success,
            ) && after == crate::pull::after_file(
                listeners,
                dir,
                own_app_id,
                app_id,
                unread,
                extra,
                before,
                kept,
                success,
            );
        assert forall|name: Seq<char>|
            crate::file_utils::text_of(
                after.files,
                #[trigger] crate::directory::app_file(dir, own_app_id, name),
            ) == crate::file_utils::text_of(
                start.files,
                crate::directory::app_file(dir, own_app_id, name),
            ) || (name != "sequences"@ && is_due_somewhere(start, dir, own_app_id, name)) by {
            places_differ(dir, own_app_id, own_app_id, unread.hash, name);
            if name == "sequences"@ && unread.hash == name && kept.len() > 0 {
                let own = crate::directory::app_dir(dir, own_app_id);
                let app = crate::directory::app_dir(dir, app_id);
                assert(kept.contains(kept[0]));
                crate::store::taken_are_fresh(
                    listeners,
                    crate::publish::file_entries(before.files, own, name),
                    crate::publish::file_entries(before.files, app, name),
                    false,
                    extra,
                    kept,
                    success,
                    kept[0],
                );
            }
        }
        if success {
            assert(after.done.contains((app_id, unread.hash)));
        }
    }
}

/// Taking over some files of an app keeps the account.
proof fn files_are_accounted<T>(
    listeners: Seq<ListenerView<T>>,
    dir: Seq<Seq<char>>,
    own_app_id: Seq<char>,
    app_id: Seq<char>,
    unread: Seq<UnreadView>,
    extra: Option<&T>,
    start: PullState,
    before: PullState,
    after: PullState,
)
    requires
        app_id != own_app_id,
        accounted(dir, own_app_id, start, before),
        crate::pull::pulls_files(
            listeners,
            dir,
            own_app_id,
            app_id,
            unread,
            extra,
            before,
            after,
        ),
        ({
            let sequences = crate::publish::file_sequences(
                start.files,
                crate::directory::app_dir(dir, app_id),
            );
            forall|i: int|
                0 <= i < unread.len() ==> {
                    &&& (#[trigger] unread[i]).sequence == sequences[unread[i].hash]
                    &&& crate::sequences::ordered(sequences.dom()).contains(unread[i].hash)
                    &&& crate::sequences::read_up_to(start.local, app_id, unread[i].hash)
                        != unread[i].sequence
                }
        }),
        unread.len() > 0 ==> crate::publish::file_entries(
            start.files,
            crate::directory::app_dir(dir, app_id),
            "sequences"@,
        ).len() == 0,
    ensures
        accounted(dir, own_app_id, start, after),
    decreases unread.len(),
{
    if unread.len() > 0 {
        let rest = unread.drop_last();
        let between = choose|between: PullState|
            crate::pull::pulls_files(
                listeners,
                dir,
                own_app_id,
                app_id,
                rest,
                extra,
                before,
                between,
            ) && #[trigger] crate::pull::pulls_file(
                listeners,
                dir,
                own_app_id,
                app_id,
                unread.last(),
                extra,
                between,
                after,
            );
        assert forall|i: int| 0 <= i < rest.len() implies #[trigger] rest[i] == unread[i] by {}
        files_are_accounted(
            listeners,
            dir,
            own_app_id,
            app_id,
            rest,
            extra,
            start,
            before,
            between,
        );
        assert(unread.last() == unread[unread.len() - 1]);
        file_is_accounted(
            listeners,
            dir,
            own_app_id,
            app_id,
            unread.last(),
            extra,
            start,
            between,
            after,
        );
    }
}

/// Taking over some apps keeps the account.
pub(crate) proof fn apps_are_accounted<T>(
    listeners: Seq<ListenerView<T>>,
    dir: Seq<Seq<char>>,
    own_app_id: Seq<char>,
    app_ids: Seq<Seq<char>>,
    extra: Option<&T>,
    start: PullState,
    after: PullState,
)
    requires
        accounted(dir, own_app_id, start, start),
        crate::pull::pulls_apps(listeners, dir, own_app_id, app_ids, extra, start, after),
    ensures
        accounted(dir, own_app_id, start, after),
    decreases app_ids.len(),
{
    if app_ids.len() > 0 {
        let rest = app_ids.drop_last();
        let app_id = app_ids.last();
        let between = choose|between: PullState|
            crate::pull::pulls_apps(listeners, dir, own_app_id, rest, extra, start, between)
                && #[trigger] crate::pull::pulls_app(
                listeners,
                dir,
                own_app_id,
                app_id,
                extra,
                between,
                after,
            );
        apps_are_accounted(listeners, dir, own_app_id, rest, extra, start, between);
        if app_id != own_app_id {
            let place = crate::directory::app_file(dir, app_id, "sequences"@);
            assert(crate::file_utils::text_of(between.files, place)
                == crate::file_utils::text_of(start.files, place));
            let sequences = crate::publish::file_sequences(
                start.files,
                crate::directory::app_dir(dir, app_id),
            );
            let unread = crate::pull::unread_files(between.local, app_id, sequences);
            assert forall|i: int| 0 <= i < unread.len() implies {
                &&& (#[trigger] unread[i]).sequence == sequences[unread[i].hash]
                &&& crate::sequences::ordered(sequences.dom()).contains(unread[i].hash)
                &&& crate::sequences::read_up_to(start.local, app_id, unread[i].hash)
                    != unread[i].sequence
            } by {
                unread_are_listed(between.local, app_id, sequences, i);
            }
            files_are_accounted(
                listeners,
                dir,
                own_app_id,
                app_id,
                unread,
                extra,
                start,
                between,
                after,
            );
        }
    }
}

/// After a pull, the files that were due and were taken over with success count as read up to
/// their sequence numbers, and every other file as it did before. Nothing is recorded if no file
/// was taken over. A file that was due and does not count as read failed.
pub proof fn a_pull_reads_what_was_due<T>(
    listeners: Seq<ListenerView<T>>,
    told: Seq<Seq<Told>>,
    dir: Seq<Seq<char>>,
    own_app_id: Seq<char>,
    app_ids: Seq<Seq<char>>,
    extra: Option<&T>,
    before: Map<Seq<Seq<char>>, Seq<char>>,
    last: PullState,
    after: Map<Seq<Seq<char>>, Seq<char>>,
    app_id: Seq<char>,
    hash: Seq<char>,
)
    requires
        crate::pull::pulls(listeners, told, dir, own_app_id, app_ids, extra, before, last, after),
    ensures
        ({
            let start = crate::pull::pull_start(before, dir, own_app_id, told);
            let state = crate::directory::state_file(dir, own_app_id);
            let now = crate::sequences::local_in(crate::file_utils::text_of(after, state));
            let due = app_id != own_app_id && is_unread_by(start, dir, app_id, hash);
            &&& last.done.contains((app_id, hash)) ==> due
            &&& due && app_ids.contains(app_id) && !last.done.contains((app_id, hash))
                ==> !last.success && extra is Some
            &&& crate::sequences::read_up_to(now, app_id, hash) == if last.done.contains(
                (app_id, hash),
            ) {
                crate::publish::file_sequences(
                    before,
                    crate::directory::app_dir(dir, app_id),
                )[hash]
            } else {
                crate::sequences::read_up_to(start.local, app_id, hash)
            }
            &&& last.done == Set::<(Seq<char>, Seq<char>)>::empty() ==> after == last.files
                && crate::file_utils::text_of(after, state) == crate::file_utils::text_of(
                before,
                state,
            )
        }),
{
    let ids = crate::order::arrangement::<String>(app_ids);
    let start = crate::pull::pull_start(before, dir, own_app_id, told);
    apps_are_accounted(listeners, dir, own_app_id, ids, extra, start, last);
    apps_step(listeners, dir, own_app_id, ids, extra, start, last);
    let due = app_id != own_app_id && is_unread_by(start, dir, app_id, hash);
    if due && app_ids.contains(app_id) && !last.done.contains((app_id, hash)) && last.success {
        crate::order::arrangement_arranges::<String>(app_ids);
        assert(ids.contains(app_id));
        let k = choose|k: int| 0 <= k < ids.len() && ids[k] == app_id;
        assert(caught_up(dir, ids[k], last));
        let table = crate::directory::app_file(dir, app_id, "sequences"@);
        let place = crate::directory::app_file(dir, app_id, hash);
        assert(crate::file_utils::text_of(last.files, table) == crate::file_utils::text_of(
            before,
            table,
        ));
        assert(crate::file_utils::text_of(last.files, place) == crate::file_utils::text_of(
            before,
            place,
        ));
        let sequences = crate::publish::file_sequences(
            last.files,
            crate::directory::app_dir(dir, app_id),
        );
        let i = listed_are_unread(last.local, app_id, sequences, hash);
        assert(crate::pull::unread_files(last.local, app_id, sequences)[i].hash == hash);
    }
}

/// A pull changes an own file only where a file of the same name was due, and no file of another
/// app. The own sequence numbers stay as they are in any case.
pub proof fn a_pull_changes_only_due_files<T>(
    listeners: Seq<ListenerView<T>>,
    told: Seq<Seq<Told>>,
    dir: Seq<Seq<char>>,
    own_app_id: Seq<char>,
    app_ids: Seq<Seq<char>>,
    extra: Option<&T>,
    before: Map<Seq<Seq<char>>, Seq<char>>,
    last: PullState,
    after: Map<Seq<Seq<char>>, Seq<char>>,
    app_id: Seq<char>,
    name: Seq<char>,
)
    requires
        crate::pull::pulls(listeners, told, dir, own_app_id, app_ids, extra, before, last, after),
        app_id == own_app_id ==> name == "sequences"@ || !is_due_somewhere(
            crate::pull::pull_start(before, dir, own_app_id, told),
            dir,
            own_app_id,
            name,
        ),
    ensures
        crate::file_utils::text_of(after, crate::directory::app_file(dir, app_id, name))
            == crate::file_utils::text_of(before, crate::directory::app_file(dir, app_id, name)),
{
    let start = crate::pull::pull_start(before, dir, own_app_id, told);
    apps_are_accounted(
        listeners,
        dir,
        own_app_id,
        crate::order::arrangement::<String>(app_ids),
        extra,
        start,
        last,
    );
    places_differ(dir, app_id, own_app_id, name, name);
}

} // verus!
