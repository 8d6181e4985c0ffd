//! What a pull tells the listeners.

use vstd::prelude::*;

use crate::entry::PathEntryView;
use crate::listener::{ListenerView, Told};
use crate::pull::{PullState, UnreadView};

verus! {

/// Of a text of another app a listener is only told what is new: every entry that it is told
/// stands in a line of the text, is newer than every line of the own text for its path and key,
/// is the newest that the text of the other app has for them, and is no maintenance entry. No
/// listener is told twice about a path.
pub proof fn only_newer_entries_of_a_text_are_told<T>(
    listeners: Seq<ListenerView<T>>,
    told: Seq<Seq<Told>>,
    app_text: Option<Seq<char>>,
    own_text: Option<Seq<char>>,
    extra: Option<&T>,
    i: int,
)
    requires
        0 <= i < told.len(),
    ensures
        ({
            let after = crate::pull::told_after_text(listeners, told, app_text, own_text, extra);
            &&& after.len() == told.len()
            &&& told[i].is_prefix_of(after[i])
            &&& extra is None ==> after[i] == told[i]
            &&& crate::telling::distinct_paths(told[i].len(), after[i])
            &&& forall|k: int, j: int|
                told[i].len() <= k < after[i].len() && 0 <= j < after[i][k].entries.len()
                    ==> is_news_of_text(
                    listeners,
                    i,
                    app_text,
                    own_text,
                    #[trigger] crate::replay_laws::entry_told(listeners, i, after[i][k], j),
                )
        }),
{
    let after = crate::pull::told_after_text(listeners, told, app_text, own_text, extra);
    if app_text is Some && extra is Some {
        let stored = crate::store::stored_entries(own_text);
        let came = crate::store::stored_entries(app_text);
        let pred = crate::store::is_fresh(stored, false);
        let fresh = came.filter(pred);
        crate::telling::tellings_are_added(listeners, told, fresh, i);
        crate::telling::tellings_are_distinct(listeners, told, fresh, i);
        assert forall|k: int, j: int|
            told[i].len() <= k < after[i].len() && 0 <= j
                < after[i][k].entries.len() implies is_news_of_text(
            listeners,
            i,
            app_text,
            own_text,
            #[trigger] crate::replay_laws::entry_told(listeners, i, after[i][k], j),
        ) by {
            let e = crate::replay_laws::entry_told(listeners, i, after[i][k], j);
            crate::telling::every_entry_told_came(listeners, told, fresh, i, k, j);
            came.lemma_filter_contains_rev(pred, e);
            let m = choose|m: int| 0 <= m < fresh.len() && fresh[m] == e;
            came.lemma_filter_pred(pred, m);
            crate::reading::fresh_entries_are_new(own_text, e);
            crate::reading::stored_are_newest_lines(app_text, e);
        }
    }
}

/// The entry is news of a text: a line of it holds the entry and none a newer one for its path
/// and key, and every line of the own text for them is older. The listener is the first one of
/// its path, and it is no maintenance entry.
pub open spec fn is_news_of_text<T>(
    listeners: Seq<ListenerView<T>>,
    i: int,
    app_text: Option<Seq<char>>,
    own_text: Option<Seq<char>>,
    e: PathEntryView,
) -> bool {
    &&& crate::reading::in_text(app_text, e)
    &&& crate::reading::is_newest_in(app_text, e)
    &&& crate::reading::is_new_to(own_text, e)
    &&& !crate::listener::is_maintenance(e.path, e.entry.key)
    &&& crate::listener::listens_first(listeners, i, e.path)
}

/// Everything of a text that is new is told: an entry that the text of the other app holds, and
/// that is newer than every line of the own text for its path and key, is told to the first
/// listener of its path, unless it is a maintenance entry.
pub proof fn every_newer_entry_of_a_text_is_told<T>(
    listeners: Seq<ListenerView<T>>,
    told: Seq<Seq<Told>>,
    app_text: Option<Seq<char>>,
    own_text: Option<Seq<char>>,
    extra: Option<&T>,
    i: int,
    e: PathEntryView,
)
    requires
        0 <= i < told.len(),
        app_text is Some,
        extra is Some,
        crate::store::stored_entries(app_text).contains(e),
        crate::reading::is_new_to(own_text, e),
        !crate::listener::is_maintenance(e.path, e.entry.key),
        crate::listener::listens_first(listeners, i, e.path),
    ensures
        crate::telling::was_told(
            told[i].len(),
            crate::pull::told_after_text(listeners, told, app_text, own_text, extra)[i],
            listeners[i].subpath,
            e,
        ),
{
    let came = crate::store::stored_entries(app_text);
    let pred = crate::store::is_fresh(crate::store::stored_entries(own_text), false);
    crate::reading::fresh_entries_are_new(own_text, e);
    let m = choose|m: int| 0 <= m < came.len() && came[m] == e;
    came.lemma_filter_contains(pred, m);
    crate::telling::every_entry_that_came_is_told(listeners, told, came.filter(pred), i, e);
}

/// Taking over a file tells what taking over its text does.
proof fn file_tells<T>(
    listeners: Seq<ListenerView<T>>,
    dir: Seq<Seq<char>>,
    own_app_id: Seq<char>,
    app_id: Seq<char>,
    unread: UnreadView,
    extra: Option<&T>,
    before: PullState,
    after: PullState,
    i: int,
)
    requires
        crate::pull::pulls_file(
            listeners,
            dir,
            own_app_id,
            app_id,
            unread,
            extra,
            before,
            after,
        ),
        0 <= i < before.told.len(),
    ensures
        after.told == crate::pull::told_after_text(
            listeners,
            before.told,
            crate::file_utils::text_of(
                before.files,
                crate::directory::app_file(dir, app_id, unread.hash),
            ),
            crate::file_utils::text_of(
                before.files,
                crate::directory::app_file(dir, own_app_id, unread.hash),
            ),
            extra,
        ),
        after.told.len() == before.told.len(),
        before.told[i].is_prefix_of(after.told[i]),
        crate::telling::distinct_paths(before.told[i].len(), after.told[i]),
{
    only_newer_entries_of_a_text_are_told(
        listeners,
        before.told,
        crate::file_utils::text_of(
            before.files,
            crate::directory::app_file(dir, app_id, unread.hash),
        ),
        crate::file_utils::text_of(
            before.files,
            crate::directory::app_file(dir, own_app_id, unread.hash),
        ),
        extra,
        i,
    );
}

/// Taking over one file tells no listener twice about a path, and only what is new: every entry
/// that a listener is told is newer than every line that the own file of the same name had for
/// its path and key.
pub proof fn a_file_taken_over_tells_what_is_new<T>(
    listeners: Seq<ListenerView<T>>,
    dir: Seq<Seq<char>>,
    own_app_id: Seq<char>,
    app_id: Seq<char>,
    unread: UnreadView,
    extra: Option<&T>,
    before: PullState,
    after: PullState,
    i: int,
    k: int,
    j: int,
)
    requires
        crate::pull::pulls_file(
            listeners,
            dir,
            own_app_id,
            app_id,
            unread,
            extra,
            before,
            after,
        ),
        0 <= i < before.told.len(),
        before.told[i].len() <= k < after.told[i].len(),
        0 <= j < after.told[i][k].entries.len(),
    ensures
        extra is Some,
        is_news_of_text(
            listeners,
            i,
            crate::file_utils::text_of(
                before.files,
                crate::directory::app_file(dir, app_id, unread.hash),
            ),
            crate::file_utils::text_of(
                before.files,
                crate::directory::app_file(dir, own_app_id, unread.hash),
            ),
            crate::replay_laws::entry_told(listeners, i, after.told[i][k], j),
        ),
        crate::telling::distinct_paths(before.told[i].len(), after.told[i]),
{
    file_tells(listeners, dir, own_app_id, app_id, unread, extra, before, after, i);
    only_newer_entries_of_a_text_are_told(
        listeners,
        before.told,
        crate::file_utils::text_of(
            before.files,
            crate::directory::app_file(dir, app_id, unread.hash),
        ),
        crate::file_utils::text_of(
            before.files,
            crate::directory::app_file(dir, own_app_id, unread.hash),
        ),
        extra,
        i,
    );
    let e = crate::replay_laws::entry_told(listeners, i, after.told[i][k], j);
}

/// The entry was told as news of the file `hash` of the app `app_id`, with the files as `at` says:
/// the file was due when the pull started, it holds the entry, and the own file of the same name
/// held nothing for its path and key, or something older, when the pull started and when the file
/// was taken over. Since then the own file has not gone back.
pub open spec fn told_as_news(
    dir: Seq<Seq<char>>,
    own_app_id: Seq<char>,
    start: PullState,
    at: Map<Seq<Seq<char>>, Seq<char>>,
    now: Map<Seq<Seq<char>>, Seq<char>>,
    app_id: Seq<char>,
    hash: Seq<char>,
    e: PathEntryView,
) -> bool {
    &&& app_id != own_app_id
    &&& crate::pull_laws::is_unread_by(start, dir, app_id, hash)
    &&& crate::reading::in_text(
        crate::file_utils::text_of(start.files, crate::directory::app_file(dir, app_id, hash)),
        e,
    )
    &&& crate::reading::is_new_to(
        crate::file_utils::text_of(start.files, crate::directory::app_file(dir, own_app_id, hash)),
        e,
    )
    &&& crate::reading::is_new_to(
        crate::file_utils::text_of(at, crate::directory::app_file(dir, own_app_id, hash)),
        e,
    )
    &&& crate::pull_laws::never_older(
        crate::pull_laws::app_holds(start.files, dir, own_app_id, hash, e),
        crate::pull_laws::app_holds(at, dir, own_app_id, hash, e),
    )
    &&& crate::pull_laws::never_older(
        crate::pull_laws::app_holds(at, dir, own_app_id, hash, e),
        crate::pull_laws::app_holds(now, dir, own_app_id, hash, e),
    )
    &&& !crate::listener::is_maintenance(e.path, e.entry.key)
}

/// The entry was told as news of some file of another app.
pub open spec fn was_news(
    dir: Seq<Seq<char>>,
    own_app_id: Seq<char>,
    start: PullState,
    now: Map<Seq<Seq<char>>, Seq<char>>,
    e: PathEntryView,
) -> bool {
    exists|at: Map<Seq<Seq<char>>, Seq<char>>, app_id: Seq<char>, hash: Seq<char>| #[trigger]
        told_as_news(dir, own_app_id, start, at, now, app_id, hash, e)
}

/// What has been told since the start of a pull was news, and no own entry has gone back.
spec fn tells_news<T>(
    listeners: Seq<ListenerView<T>>,
    dir: Seq<Seq<char>>,
    own_app_id: Seq<char>,
    start: PullState,
    state: PullState,
) -> bool {
    &&& state.told.len() == start.told.len()
    &&& forall|i: int|
        0 <= i < start.told.len() ==> (#[trigger] start.told[i]).is_prefix_of(state.told[i])
    &&& crate::pull_laws::others_untouched(dir, own_app_id, start.files, state.files)
    &&& forall|hash: Seq<char>, slot: PathEntryView|
        crate::pull_laws::never_older(
            crate::pull_laws::app_holds(start.files, dir, own_app_id, hash, slot),
            #[trigger] crate::pull_laws::app_holds(state.files, dir, own_app_id, hash, slot),
        )
    &&& forall|i: int, k: int, j: int|
        0 <= i < start.told.len() && start.told[i].len() <= k < state.told[i].len() && 0 <= j
            < state.told[i][k].entries.len() ==> was_news(
            dir,
            own_app_id,
            start,
            state.files,
            #[trigger] crate::replay_laws::entry_told(listeners, i, state.told[i][k], j),
        )
}

/// An entry that is newer than every line of a file at some time was so before, as own files do
/// not go back.
proof fn new_before(
    before: Map<Seq<Seq<char>>, Seq<char>>,
    at: Map<Seq<Seq<char>>, Seq<char>>,
    dir: Seq<Seq<char>>,
    own_app_id: Seq<char>,
    hash: Seq<char>,
    e: PathEntryView,
)
    requires
        crate::pull_laws::never_older(
            crate::pull_laws::app_holds(before, dir, own_app_id, hash, e),
            crate::pull_laws::app_holds(at, dir, own_app_id, hash, e),
        ),
        crate::reading::is_new_to(
            crate::file_utils::text_of(at, crate::directory::app_file(dir, own_app_id, hash)),
            e,
        ),
    ensures
        crate::reading::is_new_to(
            crate::file_utils::text_of(before, crate::directory::app_file(dir, own_app_id, hash)),
            e,
        ),
{
    let place = crate::directory::app_file(dir, own_app_id, hash);
    crate::reading::fresh_entries_are_new(crate::file_utils::text_of(at, place), e);
    crate::reading::fresh_entries_are_new(crate::file_utils::text_of(before, place), e);
    let old = crate::pull_laws::app_holds(before, dir, own_app_id, hash, e);
    let now = crate::pull_laws::app_holds(at, dir, own_app_id, hash, e);
    if old is Some && old != now {
        crate::order::text_before_transitive(
            old.unwrap().datetime,
            now.unwrap().datetime,
            e.entry.datetime,
        );
    }
}

/// Taking over one file goes on telling news.
proof fn file_tells_news<T>(
    listeners: Seq<ListenerView<T>>,
    dir: Seq<Seq<char>>,
    own_app_id: Seq<char>,
    app_id: Seq<char>,
    unread: UnreadView,
    extra: Option<&T>,
    start: PullState,
    before: PullState,
    after: PullState,
)
    requires
        app_id != own_app_id,
        tells_news(listeners, dir, own_app_id, start, before),
        crate::pull::pulls_file(
            listeners,
            dir,
            own_app_id,
            app_id,
            unread,
            extra,
            before,
            after,
        ),
        ({
            let sequences = crate::publish::file_sequences(
                start.files,
                crate::directory::app_dir(dir, app_id),
            );
            &&& unread.sequence == sequences[unread.hash]
            &&& crate::sequences::ordered(sequences.dom()).contains(unread.hash)
            &&& crate::sequences::read_up_to(start.local, app_id, unread.hash) != unread.sequence
        }),
    ensures
        tells_news(listeners, dir, own_app_id, start, after),
{
    crate::pull_laws::file_step(
        listeners,
        dir,
        own_app_id,
        app_id,
        unread,
        extra,
        before,
        after,
    );
    crate::pull_laws::untouched_chains(
        dir,
        own_app_id,
        start.files,
        before.files,
        after.files,
    );
    assert forall|hash: Seq<char>, slot: PathEntryView| crate::pull_laws::never_older(
        crate::pull_laws::app_holds(before.files, dir, own_app_id, hash, slot),
        #[trigger] crate::pull_laws::app_holds(after.files, dir, own_app_id, hash, slot),
    ) && crate::pull_laws::never_older(
        crate::pull_laws::app_holds(start.files, dir, own_app_id, hash, slot),
        crate::pull_laws::app_holds(after.files, dir, own_app_id, hash, slot),
    ) by {
        crate::pull_laws::file_never_goes_back(
            listeners,
            dir,
            own_app_id,
            app_id,
            unread,
            extra,
            before,
            after,
            hash,
            slot,
        );
        crate::pull_laws::never_older_chains(
            crate::pull_laws::app_holds(start.files, dir, own_app_id, hash, slot),
            crate::pull_laws::app_holds(before.files, dir, own_app_id, hash, slot),
            crate::pull_laws::app_holds(after.files, dir, own_app_id, hash, slot),
        );
    }
    assert(after.told.len() == before.told.len()) by {
        if before.told.len() > 0 {
            file_tells(listeners, dir, own_app_id, app_id, unread, extra, before, after, 0);
        } else {
            told_by_nobody(listeners, dir, own_app_id, app_id, unread, extra, before, after);
        }
    }
    assert forall|i: int| 0 <= i < start.told.len() implies (
    #[trigger] start.told[i]).is_prefix_of(after.told[i]) by {
        file_tells(listeners, dir, own_app_id, app_id, unread, extra, before, after, i);
        assert(start.told[i].is_prefix_of(before.told[i]));
        prefixes_chain(start.told[i], before.told[i], after.told[i]);
    }
    assert forall|i: int, k: int, j: int|
        0 <= i < start.told.len() && start.told[i].len() <= k < after.told[i].len() && 0 <= j
            < after.told[i][k].entries.len() implies was_news(
        dir,
        own_app_id,
        start,
        after.files,
        #[trigger] crate::replay_laws::entry_told(listeners, i, after.told[i][k], j),
    ) by {
        let e = crate::replay_laws::entry_told(listeners, i, after.told[i][k], j);
        file_tells(listeners, dir, own_app_id, app_id, unread, extra, before, after, i);
        if k < before.told[i].len() {
            assert(after.told[i][k] == before.told[i][k]);
            assert(e == crate::replay_laws::entry_told(listeners, i, before.told[i][k], j));
            assert(was_news(dir, own_app_id, start, before.files, e));
            let (at, a, h) = choose|
                at: Map<Seq<Seq<char>>, Seq<char>>,
                a: Seq<char>,
                h: Seq<char>,
            | #[trigger] told_as_news(dir, own_app_id, start, at, before.files, a, h, e);
            let now = crate::pull_laws::app_holds(after.files, dir, own_app_id, h, e);
            crate::pull_laws::never_older_chains(
                crate::pull_laws::app_holds(at, dir, own_app_id, h, e),
                crate::pull_laws::app_holds(before.files, dir, own_app_id, h, e),
                now,
            );
            assert(told_as_news(dir, own_app_id, start, at, after.files, a, h, e));
        } else {
            a_file_taken_over_tells_what_is_new(
                listeners,
                dir,
                own_app_id,
                app_id,
                unread,
                extra,
                before,
                after,
                i,
                k,
                j,
            );
            let place = crate::directory::app_file(dir, app_id, unread.hash);
            assert(crate::file_utils::text_of(before.files, place) == crate::file_utils::text_of(
                start.files,
                place,
            ));
            let held = crate::pull_laws::app_holds(
                before.files,
                dir,
                own_app_id,
                unread.hash,
                e,
            );
            let now = crate::pull_laws::app_holds(after.files, dir, own_app_id, unread.hash, e);
            new_before(start.files, before.files, dir, own_app_id, unread.hash, e);
            assert(told_as_news(
                dir,
                own_app_id,
                start,
                before.files,
                after.files,
                app_id,
                unread.hash,
                e,
            ));
        }
    }
}

proof fn prefixes_chain(a: Seq<Told>, b: Seq<Told>, c: Seq<Told>)
    requires
        a.is_prefix_of(b),
        b.is_prefix_of(c),
    ensures
        a.is_prefix_of(c),
{
    assert(a =~= c.subrange(0, a.len() as int));
}

/// Where there are no listeners, there is nobody to tell.
proof fn told_by_nobody<T>(
    listeners: Seq<ListenerView<T>>,
    dir: Seq<Seq<char>>,
    own_app_id: Seq<char>,
    app_id: Seq<char>,
    unread: UnreadView,
    extra: Option<&T>,
    before: PullState,
    after: PullState,
)
    requires
        crate::pull::pulls_file(
            listeners,
            dir,
            own_app_id,
            app_id,
            unread,
            extra,
            before,
            after,
        ),
    ensures
        after.told.len() == before.told.len(),
{
    if extra is Some {
        let own = crate::directory::app_dir(dir, own_app_id);
        let app = crate::directory::app_dir(dir, app_id);
        let stored = crate::publish::file_entries(before.files, own, unread.hash);
        let came = crate::publish::file_entries(before.files, app, unread.hash);
        crate::telling::nobody_is_added(
            listeners,
            before.told,
            came.filter(crate::store::is_fresh(stored, false)),
        );
    }
}

/// Taking over some files of an app goes on telling news.
proof fn files_tell_news<T>(
    listeners: Seq<ListenerView<T>>,
    dir: Seq<Seq<char>>,
    own_app_id: Seq<char>,
    app_id: Seq<char>,
    unread: Seq<UnreadView>,
    extra: Option<&T>,
    start: PullState,
    before: PullState,
    after: PullState,
)
    requires
        app_id != own_app_id,
        tells_news(listeners, dir, own_app_id, start, before),
        crate::pull::pulls_files(
            listeners,
            dir,
            own_app_id,
            app_id,
            unread,
            extra,
            before,
            after,
        ),
        ({
            let sequences = crate::publish::file_sequences(
                start.files,
                crate::directory::app_dir(dir, app_id),
            );
            forall|i: int|
                0 <= i < unread.len() ==> {
                    &&& (#[trigger] unread[i]).sequence == sequences[unread[i].hash]
                    &&& crate::sequences::ordered(sequences.dom()).contains(unread[i].hash)
                    &&& crate::sequences::read_up_to(start.local, app_id, unread[i].hash)
                        != unread[i].sequence
                }
        }),
    ensures
        tells_news(listeners, dir, own_app_id, start, after),
    decreases unread.len(),
{
    if unread.len() > 0 {
        let rest = unread.drop_last();
        let between = choose|between: PullState|
            crate::pull::pulls_files(
                listeners,
                dir,
                own_app_id,
                app_id,
                rest,
                extra,
                before,
                between,
            ) && #[trigger] crate::pull::pulls_file(
                listeners,
                dir,
                own_app_id,
                app_id,
                unread.last(),
                extra,
                between,
                after,
            );
        assert forall|i: int| 0 <= i < rest.len() implies #[trigger] rest[i] == unread[i] by {}
        files_tell_news(
            listeners,
            dir,
            own_app_id,
            app_id,
            rest,
            extra,
            start,
            before,
            between,
        );
        assert(unread.last() == unread[unread.len() - 1]);
        file_tells_news(
            listeners,
            dir,
            own_app_id,
            app_id,
            unread.last(),
            extra,
            start,
            between,
            after,
        );
    }
}

/// Taking over some apps tells news.
proof fn apps_tell_news<T>(
    listeners: Seq<ListenerView<T>>,
    dir: Seq<Seq<char>>,
    own_app_id: Seq<char>,
    app_ids: Seq<Seq<char>>,
    extra: Option<&T>,
    start: PullState,
    after: PullState,
)
    requires
        crate::pull_laws::accounted(dir, own_app_id, start, start),
        tells_news(listeners, dir, own_app_id, start, start),
        crate::pull::pulls_apps(listeners, dir, own_app_id, app_ids, extra, start, after),
    ensures
        tells_news(listeners, dir, own_app_id, start, after),
    decreases app_ids.len(),
{
    if app_ids.len() > 0 {
        let rest = app_ids.drop_last();
        let app_id = app_ids.last();
        let between = choose|between: PullState|
            crate::pull::pulls_apps(listeners, dir, own_app_id, rest, extra, start, between)
                && #[trigger] crate::pull::pulls_app(
                listeners,
                dir,
                own_app_id,
                app_id,
                extra,
                between,
                after,
            );
        apps_tell_news(listeners, dir, own_app_id, rest, extra, start, between);
        crate::pull_laws::apps_are_accounted(
            listeners,
            dir,
            own_app_id,
            rest,
            extra,
            start,
            between,
        );
        if app_id != own_app_id {
            let place = crate::directory::app_file(dir, app_id, "sequences"@);
            assert(crate::file_utils::text_of(between.files, place)
                == crate::file_utils::text_of(start.files, place));
            let sequences = crate::publish::file_sequences(
                start.files,
                crate::directory::app_dir(dir, app_id),
            );
            let unread = crate::pull::unread_files(between.local, app_id, sequences);
            assert forall|i: int| 0 <= i < unread.len() implies {
                &&& (#[trigger] unread[i]).sequence == sequences[unread[i].hash]
                &&& crate::sequences::ordered(sequences.dom()).contains(unread[i].hash)
                &&& crate::sequences::read_up_to(start.local, app_id, unread[i].hash)
                    != unread[i].sequence
            } by {
                crate::pull_laws::unread_are_listed(between.local, app_id, sequences, i);
            }
            files_tell_news(
                listeners,
                dir,
                own_app_id,
                app_id,
                unread,
                extra,
                start,
                between,
                after,
            );
        }
    }
}

/// A pull only tells what is new: every entry that a listener has been told since the pull
/// started stands in a file of another app that was due, and the own file of the same name held
/// nothing for its path and key, or something strictly older, both when the pull started and when
/// the file was taken over. What a listener had been told before stays.
pub proof fn a_pull_tells_only_what_is_new<T>(
    listeners: Seq<ListenerView<T>>,
    told: Seq<Seq<Told>>,
    dir: Seq<Seq<char>>,
    own_app_id: Seq<char>,
    app_ids: Seq<Seq<char>>,
    extra: Option<&T>,
    before: Map<Seq<Seq<char>>, Seq<char>>,
    last: PullState,
    after: Map<Seq<Seq<char>>, Seq<char>>,
    i: int,
)
    requires
        crate::pull::pulls(listeners, told, dir, own_app_id, app_ids, extra, before, last, after),
        0 <= i < told.len(),
    ensures
        last.told.len() == told.len(),
        told[i].is_prefix_of(last.told[i]),
        forall|k: int, j: int|
            told[i].len() <= k < last.told[i].len() && 0 <= j < last.told[i][k].entries.len()
                ==> was_news(
                dir,
                own_app_id,
                crate::pull::pull_start(before, dir, own_app_id, told),
                last.files,
                #[trigger] crate::replay_laws::entry_told(listeners, i, last.told[i][k], j),
            ),
{
    let start = crate::pull::pull_start(before, dir, own_app_id, told);
    assert forall|i: int| 0 <= i < start.told.len() implies (
    #[trigger] start.told[i]).is_prefix_of(start.told[i]) by {
        assert(start.told[i] =~= start.told[i].subrange(0, start.told[i].len() as int));
    }
    apps_tell_news(
        listeners,
        dir,
        own_app_id,
        crate::order::arrangement::<String>(app_ids),
        extra,
        start,
        last,
    );
    assert(start.told[i].is_prefix_of(last.told[i]));
}

/// No listener is told an entry where, in every file that holds it, the own file of the same name
/// has an entry for its path and key that is not older.
pub proof fn a_pull_tells_nothing_stale<T>(
    listeners: Seq<ListenerView<T>>,
    told: Seq<Seq<Told>>,
    dir: Seq<Seq<char>>,
    own_app_id: Seq<char>,
    app_ids: Seq<Seq<char>>,
    extra: Option<&T>,
    before: Map<Seq<Seq<char>>, Seq<char>>,
    last: PullState,
    after: Map<Seq<Seq<char>>, Seq<char>>,
    i: int,
    e: PathEntryView,
)
    requires
        crate::pull::pulls(listeners, told, dir, own_app_id, app_ids, extra, before, last, after),
        0 <= i < told.len(),
        forall|app_id: Seq<char>, hash: Seq<char>|
            app_id != own_app_id && crate::reading::in_text(
                crate::file_utils::text_of(
                    before,
                    #[trigger] crate::directory::app_file(dir, app_id, hash),
                ),
                e,
            ) ==> exists|x: PathEntryView| #[trigger]
                crate::reading::in_text(
                    crate::file_utils::text_of(
                        before,
                        crate::directory::app_file(dir, own_app_id, hash),
                    ),
                    x,
                ) && x.path == e.path && x.entry.key.same(e.entry.key)
                    && !crate::order::text_before(x.entry.datetime, e.entry.datetime),
    ensures
        !crate::telling::was_told(told[i].len(), last.told[i], listeners[i].subpath, e),
{
    a_pull_tells_only_what_is_new(
        listeners,
        told,
        dir,
        own_app_id,
        app_ids,
        extra,
        before,
        last,
        after,
        i,
    );
    let start = crate::pull::pull_start(before, dir, own_app_id, told);
    if crate::telling::was_told(told[i].len(), last.told[i], listeners[i].subpath, e) {
        let k = choose|k: int|
            told[i].len() <= k < last.told[i].len() && listeners[i].subpath + (
            #[trigger] last.told[i][k]).path == e.path && last.told[i][k].entries.contains(e.entry);
        let entries = last.told[i][k].entries;
        let j = choose|j: int| 0 <= j < entries.len() && entries[j] == e.entry;
        assert(crate::replay_laws::entry_told(listeners, i, last.told[i][k], j) == e);
        assert(was_news(dir, own_app_id, start, last.files, e));
        let (at, app_id, hash) = choose|
            at: Map<Seq<Seq<char>>, Seq<char>>,
            app_id: Seq<char>,
            hash: Seq<char>,
        | #[trigger] told_as_news(dir, own_app_id, start, at, last.files, app_id, hash, e);
        assert(crate::reading::in_text(
            crate::file_utils::text_of(before, crate::directory::app_file(dir, app_id, hash)),
            e,
        ));
    }
}

/// Every entry that the own file `hash` holds for the path and key of the entry is older.
spec fn only_older(
    dir: Seq<Seq<char>>,
    own_app_id: Seq<char>,
    files: Map<Seq<Seq<char>>, Seq<char>>,
    hash: Seq<char>,
    e: PathEntryView,
) -> bool {
    all_older(
        crate::publish::file_entries(files, crate::directory::app_dir(dir, own_app_id), hash),
        e,
    )
}

/// Every one of the entries for the path and key of the entry is older.
spec fn all_older(entries: Seq<PathEntryView>, e: PathEntryView) -> bool {
    forall|x: PathEntryView| #[trigger]
        entries.contains(x) && x.same_slot(e) ==> crate::order::text_before(
            x.entry.datetime,
            e.entry.datetime,
        )
}

/// What the own file `hash` holds after another file has been taken over is what it held, and
/// what was kept.
pub(crate) proof fn renewed_are_stored_or_kept(
    stored: Seq<PathEntryView>,
    kept: Seq<PathEntryView>,
    x: PathEntryView,
)
    requires
        crate::store::renewed(stored, kept).contains(x),
    ensures
        stored.contains(x) || kept.contains(x),
{
    if kept.len() > 0 {
        let all = crate::store::merged(stored, kept);
        let pred = crate::store::is_untouched(kept);
        let rest = stored.filter(pred);
        let i = crate::laws::latest_stand_unreplaced(all, x);
        if i < rest.len() {
            assert(rest[i] == x);
            assert(rest.contains(x));
            stored.lemma_filter_contains_rev(pred, x);
        } else {
            assert(kept[i - rest.len()] == x);
        }
    }
}

/// A file that is taken over leaves only older entries, where it has only older ones itself or is
/// another file.
proof fn file_leaves_only_older<T>(
    listeners: Seq<ListenerView<T>>,
    dir: Seq<Seq<char>>,
    own_app_id: Seq<char>,
    app_id: Seq<char>,
    unread: UnreadView,
    extra: Option<&T>,
    before: PullState,
    after: PullState,
    hash: Seq<char>,
    e: PathEntryView,
)
    requires
        crate::pull::pulls_file(
            listeners,
            dir,
            own_app_id,
            app_id,
            unread,
            extra,
            before,
            after,
        ),
        only_older(dir, own_app_id, before.files, hash, e),
        unread.hash != hash || only_older(dir, app_id, before.files, hash, e),
    ensures
        only_older(dir, own_app_id, after.files, hash, e),
{
    if before.files.contains_key(crate::directory::app_file(dir, app_id, unread.hash)) {
        let (kept, success) = choose|kept: Seq<PathEntryView>, success: bool| #[trigger]
            crate::pull::keeps(
                listeners,
                dir,
                own_app_id,
                app_id,
                unread,
                extra,
                before,
                kept,
                success,
            ) && after == crate::pull::after_file(
                listeners,
                dir,
                own_app_id,
                app_id,
                unread,
                extra,
                before,
                kept,
                success,
            );
        let own = crate::directory::app_dir(dir, own_app_id);
        let app = crate::directory::app_dir(dir, app_id);
        crate::pull_laws::places_differ(dir, own_app_id, own_app_id, unread.hash, hash);
        if unread.hash != hash {
            let place = crate::directory::app_file(dir, own_app_id, hash);
            assert(crate::file_utils::text_of(after.files, place) == crate::file_utils::text_of(
                before.files,
                place,
            ));
        } else {
            let stored = crate::publish::file_entries(before.files, own, hash);
            let came = crate::publish::file_entries(before.files, app, hash);
            let now = crate::publish::file_entries(after.files, own, hash);
            assert forall|x: PathEntryView| #[trigger]
                now.contains(x) && x.same_slot(e) implies crate::order::text_before(
                x.entry.datetime,
                e.entry.datetime,
            ) by {
                renewed_are_stored_or_kept(stored, kept, x);
                if !stored.contains(x) {
                    crate::store::taken_are_fresh(
                        listeners,
                        stored,
                        came,
                        false,
                        extra,
                        kept,
                        success,
                        x,
                    );
                    assert(came.contains(x));
                }
            }
        }
    }
}

/// Taking over some files of an app tells the entry, if one of them is the file that holds it and
/// what the own file has for its path and key is older.
proof fn files_tell_the_newest<T>(
    listeners: Seq<ListenerView<T>>,
    dir: Seq<Seq<char>>,
    own_app_id: Seq<char>,
    app_id: Seq<char>,
    unread: Seq<UnreadView>,
    extra: Option<&T>,
    before: PullState,
    after: PullState,
    hash: Seq<char>,
    e: PathEntryView,
    i: int,
)
    requires
        app_id != own_app_id,
        crate::pull::pulls_files(
            listeners,
            dir,
            own_app_id,
            app_id,
            unread,
            extra,
            before,
            after,
        ),
        extra is Some,
        0 <= i < before.told.len(),
        before.files.contains_key(crate::directory::app_file(dir, app_id, hash)),
        crate::publish::file_entries(
            before.files,
            crate::directory::app_dir(dir, app_id),
            hash,
        ).contains(e),
        only_older(dir, own_app_id, before.files, hash, e),
        !crate::listener::is_maintenance(e.path, e.entry.key),
        crate::listener::listens_first(listeners, i, e.path),
    ensures
        crate::pull_laws::others_untouched(dir, own_app_id, before.files, after.files),
        after.told.len() == before.told.len(),
        before.told[i].is_prefix_of(after.told[i]),
        (exists|m: int| 0 <= m < unread.len() && (#[trigger] unread[m]).hash == hash)
            ==> crate::telling::was_told(
            before.told[i].len(),
            after.told[i],
            listeners[i].subpath,
            e,
        ),
        !(exists|m: int| 0 <= m < unread.len() && (#[trigger] unread[m]).hash == hash)
            ==> only_older(dir, own_app_id, after.files, hash, e),
    decreases unread.len(),
{
    if unread.len() > 0 {
        let rest = unread.drop_last();
        let last = unread.last();
        let between = choose|between: PullState|
            crate::pull::pulls_files(
                listeners,
                dir,
                own_app_id,
                app_id,
                rest,
                extra,
                before,
                between,
            ) && #[trigger] crate::pull::pulls_file(
                listeners,
                dir,
                own_app_id,
                app_id,
                last,
                extra,
                between,
                after,
            );
        files_tell_the_newest(
            listeners,
            dir,
            own_app_id,
            app_id,
            rest,
            extra,
            before,
            between,
            hash,
            e,
            i,
        );
        file_tells(listeners, dir, own_app_id, app_id, last, extra, between, after, i);
        crate::pull_laws::file_step(
            listeners,
            dir,
            own_app_id,
            app_id,
            last,
            extra,
            between,
            after,
        );
        crate::pull_laws::untouched_chains(
            dir,
            own_app_id,
            before.files,
            between.files,
            after.files,
        );
        prefixes_chain(before.told[i], between.told[i], after.told[i]);
        let earlier = exists|m: int| 0 <= m < rest.len() && (#[trigger] rest[m]).hash == hash;
        assert(unread[unread.len() - 1] == last);
        if earlier {
            let m = choose|m: int| 0 <= m < rest.len() && (#[trigger] rest[m]).hash == hash;
            assert(unread[m].hash == hash);
            crate::replay_laws::still_told(
                before.told[i].len(),
                between.told[i],
                after.told[i],
                listeners[i].subpath,
                e,
            );
        } else {
            assert forall|m: int| 0 <= m < rest.len() implies (#[trigger] unread[m]).hash
                != hash by {
                assert(rest[m] == unread[m]);
            }
            if last.hash == hash {
                let place = crate::directory::app_file(dir, app_id, hash);
                let own_place = crate::directory::app_file(dir, own_app_id, hash);
                let own_text = crate::file_utils::text_of(between.files, own_place);
                assert(crate::file_utils::text_of(between.files, place)
                    == crate::file_utils::text_of(before.files, place));
                older_entries_make_it_new(own_text, e);
                every_newer_entry_of_a_text_is_told(
                    listeners,
                    between.told,
                    crate::file_utils::text_of(between.files, place),
                    own_text,
                    extra,
                    i,
                    e,
                );
                crate::replay_laws::told_since_is_told_before(
                    before.told[i].len(),
                    between.told[i].len(),
                    after.told[i],
                    listeners[i].subpath,
                    e,
                );
            } else {
                file_leaves_only_older(
                    listeners,
                    dir,
                    own_app_id,
                    app_id,
                    last,
                    extra,
                    between,
                    after,
                    hash,
                    e,
                );
            }
        }
    }
}

/// Where all that a file holds for a path and key is older, all its lines for them are.
proof fn older_entries_make_it_new(text: Option<Seq<char>>, e: PathEntryView)
    requires
        forall|x: PathEntryView| #[trigger]
            crate::store::stored_entries(text).contains(x) && x.same_slot(e)
                ==> crate::order::text_before(x.entry.datetime, e.entry.datetime),
    ensures
        crate::reading::is_new_to(text, e),
{
    let stored = crate::store::stored_entries(text);
    crate::reading::fresh_entries_are_new(text, e);
    crate::laws::held_is_occupied(stored, e);
    match crate::store::held(stored, e) {
        Some(entry) => {
            let k = choose|k: int|
                0 <= k < stored.len() && (#[trigger] stored[k]).same_slot(e) && stored[k].entry
                    == entry;
            assert(stored.contains(stored[k]));
        },
        None => {},
    }
}

/// What taking over some files of another app leaves is older, where that app has only older
/// entries.
proof fn files_leave_only_older<T>(
    listeners: Seq<ListenerView<T>>,
    dir: Seq<Seq<char>>,
    own_app_id: Seq<char>,
    app_id: Seq<char>,
    unread: Seq<UnreadView>,
    extra: Option<&T>,
    before: PullState,
    after: PullState,
    hash: Seq<char>,
    e: PathEntryView,
    i: int,
)
    requires
        app_id != own_app_id,
        crate::pull::pulls_files(
            listeners,
            dir,
            own_app_id,
            app_id,
            unread,
            extra,
            before,
            after,
        ),
        0 <= i < before.told.len(),
    ensures
        crate::pull_laws::others_untouched(dir, own_app_id, before.files, after.files),
        after.told.len() == before.told.len(),
        before.told[i].is_prefix_of(after.told[i]),
        only_older(dir, own_app_id, before.files, hash, e) && only_older(
            dir,
            app_id,
            before.files,
            hash,
            e,
        ) ==> only_older(dir, own_app_id, after.files, hash, e),
    decreases unread.len(),
{
    if unread.len() > 0 {
        let rest = unread.drop_last();
        let last = unread.last();
        let between = choose|between: PullState|
            crate::pull::pulls_files(
                listeners,
                dir,
                own_app_id,
                app_id,
                rest,
                extra,
                before,
                between,
            ) && #[trigger] crate::pull::pulls_file(
                listeners,
                dir,
                own_app_id,
                app_id,
                last,
                extra,
                between,
                after,
            );
        files_leave_only_older(
            listeners,
            dir,
            own_app_id,
            app_id,
            rest,
            extra,
            before,
            between,
            hash,
            e,
            i,
        );
        file_tells(listeners, dir, own_app_id, app_id, last, extra, between, after, i);
        crate::pull_laws::file_step(
            listeners,
            dir,
            own_app_id,
            app_id,
            last,
            extra,
            between,
            after,
        );
        crate::pull_laws::untouched_chains(
            dir,
            own_app_id,
            before.files,
            between.files,
            after.files,
        );
        prefixes_chain(before.told[i], between.told[i], after.told[i]);
        if only_older(dir, own_app_id, before.files, hash, e) && only_older(
            dir,
            app_id,
            before.files,
            hash,
            e,
        ) {
            let place = crate::directory::app_file(dir, app_id, hash);
            assert(crate::file_utils::text_of(between.files, place) == crate::file_utils::text_of(
                before.files,
                place,
            ));
            file_leaves_only_older(
                listeners,
                dir,
                own_app_id,
                app_id,
                last,
                extra,
                between,
                after,
                hash,
                e,
            );
        }
    } else {
        assert(before.told[i] =~= before.told[i].subrange(0, before.told[i].len() as int));
    }
}

/// Of all files of the name `hash` but that of the app `app_id`, none has a line for the path and
/// key of the entry that is not older.
pub open spec fn has_no_rival(
    files: Map<Seq<Seq<char>>, Seq<char>>,
    dir: Seq<Seq<char>>,
    app_id: Seq<char>,
    hash: Seq<char>,
    e: PathEntryView,
) -> bool {
    forall|other: Seq<char>|
        other != app_id ==> crate::reading::is_new_to(
            crate::file_utils::text_of(
                files,
                #[trigger] crate::directory::app_file(dir, other, hash),
            ),
            e,
        )
}

/// What no line rivals is newer than what the file holds.
proof fn no_rival_is_stored(
    files: Map<Seq<Seq<char>>, Seq<char>>,
    dir: Seq<Seq<char>>,
    other: Seq<char>,
    hash: Seq<char>,
    e: PathEntryView,
)
    requires
        crate::reading::is_new_to(
            crate::file_utils::text_of(files, crate::directory::app_file(dir, other, hash)),
            e,
        ),
    ensures
        only_older(dir, other, files, hash, e),
{
    let text = crate::file_utils::text_of(files, crate::directory::app_file(dir, other, hash));
    let stored = crate::publish::file_entries(files, crate::directory::app_dir(dir, other), hash);
    assert forall|x: PathEntryView| #[trigger]
        stored.contains(x) && x.same_slot(e) implies crate::order::text_before(
        x.entry.datetime,
        e.entry.datetime,
    ) by {
        crate::reading::stored_are_newest_lines(text, x);
    }
}

/// Taking over some apps tells the entry, if the app that holds it is among them.
proof fn apps_tell_the_newest<T>(
    listeners: Seq<ListenerView<T>>,
    dir: Seq<Seq<char>>,
    own_app_id: Seq<char>,
    app_ids: Seq<Seq<char>>,
    extra: Option<&T>,
    start: PullState,
    after: PullState,
    app_id: Seq<char>,
    hash: Seq<char>,
    e: PathEntryView,
    i: int,
)
    requires
        app_id != own_app_id,
        crate::pull_laws::accounted(dir, own_app_id, start, start),
        crate::pull::pulls_apps(listeners, dir, own_app_id, app_ids, extra, start, after),
        extra is Some,
        0 <= i < start.told.len(),
        crate::pull_laws::is_unread_by(start, dir, app_id, hash),
        crate::publish::file_entries(
            start.files,
            crate::directory::app_dir(dir, app_id),
            hash,
        ).contains(e),
        has_no_rival(start.files, dir, app_id, hash, e),
        !crate::listener::is_maintenance(e.path, e.entry.key),
        crate::listener::listens_first(listeners, i, e.path),
    ensures
        crate::pull_laws::others_untouched(dir, own_app_id, start.files, after.files),
        after.told.len() == start.told.len(),
        start.told[i].is_prefix_of(after.told[i]),
        app_ids.contains(app_id) ==> crate::telling::was_told(
            start.told[i].len(),
            after.told[i],
            listeners[i].subpath,
            e,
        ),
        !app_ids.contains(app_id) ==> only_older(dir, own_app_id, after.files, hash, e),
    decreases app_ids.len(),
{
    if app_ids.len() > 0 {
        let rest = app_ids.drop_last();
        let last = app_ids.last();
        let between = choose|between: PullState|
            crate::pull::pulls_apps(listeners, dir, own_app_id, rest, extra, start, between)
                && #[trigger] crate::pull::pulls_app(
                listeners,
                dir,
                own_app_id,
                last,
                extra,
                between,
                after,
            );
        apps_tell_the_newest(
            listeners,
            dir,
            own_app_id,
            rest,
            extra,
            start,
            between,
            app_id,
            hash,
            e,
            i,
        );
        crate::pull_laws::apps_are_accounted(
            listeners,
            dir,
            own_app_id,
            rest,
            extra,
            start,
            between,
        );
        assert(app_ids[app_ids.len() - 1] == last);
        let sequences = crate::publish::file_sequences(
            between.files,
            crate::directory::app_dir(dir, last),
        );
        let unread = crate::pull::unread_files(between.local, last, sequences);
        if last != own_app_id {
            files_leave_only_older(
                listeners,
                dir,
                own_app_id,
                last,
                unread,
                extra,
                between,
                after,
                hash,
                e,
                i,
            );
            crate::pull_laws::untouched_chains(
                dir,
                own_app_id,
                start.files,
                between.files,
                after.files,
            );
            prefixes_chain(start.told[i], between.told[i], after.told[i]);
        }
        if rest.contains(app_id) {
            let m = choose|m: int| 0 <= m < rest.len() && rest[m] == app_id;
            assert(app_ids[m] == app_id);
            if last != own_app_id {
                crate::replay_laws::still_told(
                    start.told[i].len(),
                    between.told[i],
                    after.told[i],
                    listeners[i].subpath,
                    e,
                );
            }
        } else if last == app_id {
            let place = crate::directory::app_file(dir, app_id, hash);
            let table = crate::directory::app_file(dir, app_id, "sequences"@);
            assert(crate::file_utils::text_of(between.files, place)
                == crate::file_utils::text_of(start.files, place));
            assert(crate::file_utils::text_of(between.files, table)
                == crate::file_utils::text_of(start.files, table));
            not_yet_done(listeners, dir, own_app_id, rest, extra, start, between, app_id, hash);
            let m = crate::pull_laws::listed_are_unread(between.local, app_id, sequences, hash);
            assert(unread[m].hash == hash);
            files_tell_the_newest(
                listeners,
                dir,
                own_app_id,
                app_id,
                unread,
                extra,
                between,
                after,
                hash,
                e,
                i,
            );
            crate::replay_laws::told_since_is_told_before(
                start.told[i].len(),
                between.told[i].len(),
                after.told[i],
                listeners[i].subpath,
                e,
            );
        } else {
            if app_ids.contains(app_id) {
                let m = choose|m: int| 0 <= m < app_ids.len() && app_ids[m] == app_id;
                assert(rest[m] == app_id);
            }
            if last != own_app_id {
                let place = crate::directory::app_file(dir, last, hash);
                assert(crate::file_utils::text_of(between.files, place)
                    == crate::file_utils::text_of(start.files, place));
                no_rival_is_stored(start.files, dir, last, hash, e);
            }
        }
    } else {
        let place = crate::directory::app_file(dir, own_app_id, hash);
        no_rival_is_stored(start.files, dir, own_app_id, hash, e);
        assert(start.told[i] =~= start.told[i].subrange(0, start.told[i].len() as int));
    }
}

/// Of an app that has not been gone through, no file counts as read that did not before.
proof fn not_yet_done<T>(
    listeners: Seq<ListenerView<T>>,
    dir: Seq<Seq<char>>,
    own_app_id: Seq<char>,
    app_ids: Seq<Seq<char>>,
    extra: Option<&T>,
    start: PullState,
    after: PullState,
    app_id: Seq<char>,
    hash: Seq<char>,
)
    requires
        crate::pull::pulls_apps(listeners, dir, own_app_id, app_ids, extra, start, after),
        !app_ids.contains(app_id),
    ensures
        crate::sequences::read_up_to(after.local, app_id, hash) == crate::sequences::read_up_to(
            start.local,
            app_id,
            hash,
        ),
    decreases app_ids.len(),
{
    if app_ids.len() > 0 {
        let rest = app_ids.drop_last();
        let last = app_ids.last();
        let between = choose|between: PullState|
            crate::pull::pulls_apps(listeners, dir, own_app_id, rest, extra, start, between)
                && #[trigger] crate::pull::pulls_app(
                listeners,
                dir,
                own_app_id,
                last,
                extra,
                between,
                after,
            );
        assert(app_ids[app_ids.len() - 1] == last);
        if rest.contains(app_id) {
            let m = choose|m: int| 0 <= m < rest.len() && rest[m] == app_id;
            assert(app_ids[m] == app_id);
        }
        not_yet_done(listeners, dir, own_app_id, rest, extra, start, between, app_id, hash);
        crate::pull_laws::app_step(listeners, dir, own_app_id, last, extra, between, after);
    }
}

/// A pull tells what is new: an entry in a file of another app that is due, newer than everything
/// that the own file and the files of all other apps of the same name have for its path and key,
/// is told to the first listener of its path, unless it is a maintenance entry.
pub proof fn a_pull_tells_the_newest<T>(
    listeners: Seq<ListenerView<T>>,
    told: Seq<Seq<Told>>,
    dir: Seq<Seq<char>>,
    own_app_id: Seq<char>,
    app_ids: Seq<Seq<char>>,
    extra: Option<&T>,
    before: Map<Seq<Seq<char>>, Seq<char>>,
    last: PullState,
    after: Map<Seq<Seq<char>>, Seq<char>>,
    app_id: Seq<char>,
    hash: Seq<char>,
    e: PathEntryView,
    i: int,
)
    requires
        crate::pull::pulls(listeners, told, dir, own_app_id, app_ids, extra, before, last, after),
        extra is Some,
        0 <= i < told.len(),
        app_ids.contains(app_id),
        app_id != own_app_id,
        crate::pull_laws::is_unread_by(
            crate::pull::pull_start(before, dir, own_app_id, told),
            dir,
            app_id,
            hash,
        ),
        crate::publish::file_entries(
            before,
            crate::directory::app_dir(dir, app_id),
            hash,
        ).contains(e),
        has_no_rival(before, dir, app_id, hash, e),
        !crate::listener::is_maintenance(e.path, e.entry.key),
        crate::listener::listens_first(listeners, i, e.path),
    ensures
        crate::telling::was_told(told[i].len(), last.told[i], listeners[i].subpath, e),
{
    crate::order::arrangement_arranges::<String>(app_ids);
    let ids = crate::order::arrangement::<String>(app_ids);
    assert(ids.contains(app_id));
    apps_tell_the_newest(
        listeners,
        dir,
        own_app_id,
        ids,
        extra,
        crate::pull::pull_start(before, dir, own_app_id, told),
        last,
        app_id,
        hash,
        e,
        i,
    );
}

} // verus!
