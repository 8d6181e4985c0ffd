//! What becomes of entries that the listeners are told, and of those that a pull brings.

use vstd::prelude::*;

use crate::entry::{EntryView, PathEntryView};
use crate::listener::{ListenerView, Reply};
use crate::pull::{PullState, UnreadView};

verus! {

/// Of the entries those at `path`, in their order.
pub open spec fn at_path(entries: Seq<PathEntryView>, path: Seq<Seq<char>>) -> Seq<EntryView> {
    entries.filter(|e: PathEntryView| e.path == path).map_values(|e: PathEntryView| e.entry)
}

/// What is kept of the entries at `path`, and whether it could be applied, is up to the first
/// listener of the path: it was told all of them but the maintenance entries, with the path below
/// its subpath, and `yes` and what is kept are what it gave back. Where nobody listens, everything
/// is kept but the maintenance entries.
pub open spec fn is_decided<T>(
    listeners: Seq<ListenerView<T>>,
    entries: Seq<PathEntryView>,
    extra: &T,
    kept: Seq<PathEntryView>,
    path: Seq<Seq<char>>,
    yes: bool,
) -> bool {
    let news = crate::telling::news_at(entries, path);
    let here = at_path(kept, path);
    if news.len() == 0 {
        here.len() == 0
    } else if exists|i: int| #[trigger] crate::listener::listens_first(listeners, i, path) {
        exists|i: int| #[trigger]
            crate::listener::listens_first(listeners, i, path) && (listeners[i].responds)(
                path.skip(listeners[i].subpath.len() as int),
                news,
                *extra,
                here,
                yes,
            )
    } else {
        here == news && yes
    }
}

/// The answers decide what is kept of the entries at every path, and everything could be applied
/// if all answers say so.
pub open spec fn are_decided<T>(
    listeners: Seq<ListenerView<T>>,
    entries: Seq<PathEntryView>,
    extra: &T,
    kept: Seq<PathEntryView>,
    success: bool,
    answer: spec_fn(Seq<Seq<char>>) -> bool,
) -> bool {
    &&& forall|path: Seq<Seq<char>>| #[trigger]
        is_decided(listeners, entries, extra, kept, path, answer(path))
    &&& success <==> forall|path: Seq<Seq<char>>|
        crate::telling::news_at(entries, path).len() > 0 ==> #[trigger] answer(path)
}

/// Entries that all have one path are at this path and at no other.
proof fn entries_with_a_path(path: Seq<Seq<char>>, entries: Seq<EntryView>, at: Seq<Seq<char>>)
    ensures
        at_path(crate::groups::with_path(path, entries), at) == if at == path {
            entries
        } else {
            seq![]
        },
    decreases entries.len(),
{
    reveal(Seq::filter);
    let all = crate::groups::with_path(path, entries);
    let here = |e: PathEntryView| e.path == at;
    let bare = |e: PathEntryView| e.entry;
    if entries.len() > 0 {
        let rest = entries.drop_last();
        entries_with_a_path(path, rest, at);
        assert(all.drop_last() =~= crate::groups::with_path(path, rest));
        assert(all.last() == PathEntryView { path, entry: entries.last() });
        if at == path {
            assert(all.filter(here).map_values(bare) =~= all.drop_last().filter(here).map_values(
                bare,
            ).push(entries.last()));
            assert(rest.push(entries.last()) =~= entries);
        }
    } else {
        assert(at_path(all, at) =~= seq![]);
    }
}

/// What is at a path in two parts is what is there in each.
proof fn at_path_in_parts(a: Seq<PathEntryView>, b: Seq<PathEntryView>, path: Seq<Seq<char>>)
    ensures
        at_path(a + b, path) == at_path(a, path) + at_path(b, path),
    decreases b.len(),
{
    reveal(Seq::filter);
    let here = |e: PathEntryView| e.path == path;
    let bare = |e: PathEntryView| e.entry;
    if b.len() > 0 {
        let rest = b.drop_last();
        at_path_in_parts(a, rest, path);
        assert((a + b).drop_last() =~= a + rest);
        assert((a + b).last() == b.last());
        if here(b.last()) {
            assert((a + b).filter(here).map_values(bare) =~= (a + rest).filter(here).map_values(
                bare,
            ).push(b.last().entry));
            assert(b.filter(here).map_values(bare) =~= rest.filter(here).map_values(bare).push(
                b.last().entry,
            ));
        }
        assert(at_path(a + b, path) =~= at_path(a, path) + at_path(b, path));
    } else {
        assert(a + b =~= a);
        assert(at_path(a + b, path) =~= at_path(a, path) + at_path(b, path));
    }
}

/// What is gathered at a path is what was kept there.
proof fn gathered_at(
    groups: Seq<(Seq<Seq<char>>, Seq<EntryView>)>,
    answers: Seq<Reply>,
    path: Seq<Seq<char>>,
)
    requires
        groups.len() == answers.len(),
        forall|a: int, b: int|
            0 <= a < b < groups.len() ==> (#[trigger] groups[a]).0 != (#[trigger] groups[b]).0,
    ensures
        forall|j: int|
            0 <= j < groups.len() && (#[trigger] groups[j]).0 == path ==> at_path(
                crate::listener::gathered(groups, answers),
                path,
            ) == answers[j].kept,
        (forall|j: int| 0 <= j < groups.len() ==> (#[trigger] groups[j]).0 != path) ==> at_path(
            crate::listener::gathered(groups, answers),
            path,
        ).len() == 0,
    decreases groups.len(),
{
    if groups.len() > 0 {
        let rest = groups.drop_last();
        let some = answers.drop_last();
        let last = groups.len() - 1;
        let before = crate::listener::gathered(rest, some);
        let more = crate::groups::with_path(groups.last().0, answers.last().kept);
        assert forall|a: int, b: int| 0 <= a < b < rest.len() implies (#[trigger] rest[a]).0 != (
        #[trigger] rest[b]).0 by {
            assert(groups[a].0 != groups[b].0);
        }
        gathered_at(rest, some, path);
        at_path_in_parts(before, more, path);
        entries_with_a_path(groups.last().0, answers.last().kept, path);
        assert(groups[last] == groups.last() && answers[last] == answers.last());
        assert forall|j: int| 0 <= j < groups.len() && (#[trigger] groups[j]).0 == path implies
            at_path(crate::listener::gathered(groups, answers), path) == answers[j].kept by {
            if j < last {
                assert(rest[j] == groups[j] && some[j] == answers[j]);
                assert(groups[j].0 != groups[last].0);
                assert(at_path(before, path) + seq![] =~= answers[j].kept);
            } else {
                assert forall|a: int| 0 <= a < rest.len() implies (#[trigger] rest[a]).0
                    != path by {
                    assert(groups[a].0 != groups[last].0);
                }
                assert(at_path(before, path) + answers[j].kept =~= answers[j].kept);
            }
        }
        if forall|j: int| 0 <= j < groups.len() ==> (#[trigger] groups[j]).0 != path {
            assert forall|a: int| 0 <= a < rest.len() implies (#[trigger] rest[a]).0 != path by {
                assert(groups[a] == rest[a]);
            }
        }
    } else {
        assert(at_path(crate::listener::gathered(groups, answers), path) =~= seq![]) by {
            reveal(Seq::filter);
        }
    }
}

/// The listeners decide what is kept: of the entries at every path that is kept which the first
/// listener of the path gave back, and everything could be applied if every listener said so.
pub proof fn listeners_decide_what_is_kept<T>(
    listeners: Seq<ListenerView<T>>,
    entries: Seq<PathEntryView>,
    extra: &T,
    kept: Seq<PathEntryView>,
    success: bool,
)
    requires
        crate::listener::dispatched(listeners, entries, extra, kept, success),
    ensures
        exists|answer: spec_fn(Seq<Seq<char>>) -> bool| #[trigger]
            are_decided(listeners, entries, extra, kept, success, answer),
{
    let groups = crate::groups::path_groups(entries);
    let answers = choose|answers: Seq<Reply>|
        {
            &&& answers.len() == groups.len()
            &&& forall|i: int|
                0 <= i < groups.len() ==> crate::listener::replies(
                    listeners,
                    (#[trigger] groups[i]).0,
                    groups[i].1,
                    extra,
                    answers[i],
                )
            &&& kept == #[trigger] crate::listener::gathered(groups, answers)
            &&& success == crate::listener::all_succeeded(answers)
        };
    crate::telling::groups_are_news(entries);
    let answer = |path: Seq<Seq<char>>|
        forall|j: int|
            0 <= j < groups.len() && (#[trigger] groups[j]).0 == path ==> answers[j].success;
    assert forall|path: Seq<Seq<char>>| #[trigger]
        is_decided(listeners, entries, extra, kept, path, answer(path)) by {
        let news = crate::telling::news_at(entries, path);
        gathered_at(groups, answers, path);
        if exists|j: int| 0 <= j < groups.len() && (#[trigger] groups[j]).0 == path {
            let j = choose|j: int| 0 <= j < groups.len() && (#[trigger] groups[j]).0 == path;
            let reply = answers[j];
            assert(crate::listener::replies(listeners, groups[j].0, groups[j].1, extra, reply));
            assert(answer(path) == reply.success) by {
                assert forall|k: int| 0 <= k < groups.len() && (#[trigger] groups[k]).0
                    == path implies k == j by {
                    if k < j {
                        assert(groups[k].0 != groups[j].0);
                    } else if j < k {
                        assert(groups[j].0 != groups[k].0);
                    }
                }
            }
            assert(at_path(kept, path) == reply.kept);
            first_or_nobody(listeners, path);
        } else {
            if news.len() > 0 {
                assert(news.contains(news[0]));
                crate::telling::news_are_the_entries_at_the_path(entries, path, news[0]);
                crate::groups::each_entry_stands_in_the_group_of_its_path(
                    entries,
                    PathEntryView { path, entry: news[0] },
                );
            }
        }
    }
    if success {
        assert forall|path: Seq<Seq<char>>|
            crate::telling::news_at(entries, path).len() > 0 implies #[trigger] answer(path) by {
            assert forall|j: int| 0 <= j < groups.len() && (#[trigger] groups[j]).0
                == path implies answers[j].success by {}
        }
    } else {
        let j = choose|j: int| 0 <= j < answers.len() && !(#[trigger] answers[j]).success;
        let path = groups[j].0;
        assert(crate::listener::replies(
            listeners,
            groups[j].0,
            groups[j].1,
            extra,
            answers[j],
        ));
        assert(crate::telling::news_at(entries, path).len() > 0);
        assert(!answer(path));
    }
    assert(are_decided(listeners, entries, extra, kept, success, answer));
}

/// A path has a first listener, or nobody listens to it.
proof fn first_or_nobody<T>(listeners: Seq<ListenerView<T>>, path: Seq<Seq<char>>)
    ensures
        crate::listener::nobody_listens(listeners, path) <==> !(exists|i: int| #[trigger]
            crate::listener::listens_first(listeners, i, path)),
{
    if exists|i: int| #[trigger] crate::listener::listens_first(listeners, i, path) {
        let i = choose|i: int| #[trigger] crate::listener::listens_first(listeners, i, path);
        assert(crate::listener::listens(listeners, i, path));
    } else if !crate::listener::nobody_listens(listeners, path) {
        let i = choose|i: int|
            0 <= i < listeners.len() && #[trigger] crate::listener::listens(listeners, i, path);
        first_among(listeners, path, i);
    }
}

proof fn first_among<T>(listeners: Seq<ListenerView<T>>, path: Seq<Seq<char>>, i: int)
    requires
        0 <= i < listeners.len(),
        crate::listener::listens(listeners, i, path),
    ensures
        exists|k: int| #[trigger] crate::listener::listens_first(listeners, k, path),
    decreases i,
{
    if forall|j: int| 0 <= j < i ==> !#[trigger] crate::listener::listens(listeners, j, path) {
        assert(crate::listener::listens_first(listeners, i, path));
    } else {
        let j = choose|j: int|
            0 <= j < i && #[trigger] crate::listener::listens(listeners, j, path);
        first_among(listeners, path, j);
    }
}

/// Telling the listeners about stored entries succeeds if every listener says so: for every path
/// there is an answer of its first listener, and the result is whether all say yes.
pub proof fn a_replay_succeeds_if_the_listeners_say_so<T>(
    listeners: Seq<ListenerView<T>>,
    entries: Seq<PathEntryView>,
    extra: &T,
    success: bool,
)
    requires
        crate::replay::replays(listeners, entries, extra, success),
    ensures
        exists|kept: Seq<PathEntryView>, answer: spec_fn(Seq<Seq<char>>) -> bool| #[trigger]
            are_decided(listeners, entries, extra, kept, success, answer),
{
    let kept = choose|kept: Seq<PathEntryView>| #[trigger]
        crate::listener::dispatched(listeners, entries, extra, kept, success);
    listeners_decide_what_is_kept(listeners, entries, extra, kept, success);
}

/// Telling the listeners about several batches succeeds exactly if each of them does.
pub proof fn batches_succeed_one_by_one<T>(
    listeners: Seq<ListenerView<T>>,
    batches: Seq<Seq<PathEntryView>>,
    extra: &T,
    success: bool,
)
    requires
        crate::replay::replays_all(listeners, batches, extra, success),
    ensures
        exists|answers: Seq<bool>|
            {
                &&& #[trigger] answers.len() == batches.len()
                &&& forall|i: int|
                    0 <= i < batches.len() ==> crate::replay::replays(
                        listeners,
                        #[trigger] batches[i],
                        extra,
                        answers[i],
                    )
                &&& success <==> forall|i: int| 0 <= i < answers.len() ==> answers[i]
            },
{
    let answers = choose|answers: Seq<bool>|
        {
            &&& answers.len() == batches.len()
            &&& forall|i: int|
                0 <= i < batches.len() ==> crate::replay::replays(
                    listeners,
                    #[trigger] batches[i],
                    extra,
                    answers[i],
                )
            &&& success == #[trigger] crate::listener::all_approved(answers)
        };
    assert(answers.len() == batches.len());
}

/// The entries of a text that are new to another one: the entry for each path and key that counts
/// in the text, where every line of the other one for them is older.
pub open spec fn news_of_text(
    app_text: Option<Seq<char>>,
    own_text: Option<Seq<char>>,
) -> Seq<PathEntryView> {
    crate::store::stored_entries(app_text).filter(
        |e: PathEntryView| crate::reading::is_new_to(own_text, e),
    )
}

/// What taking over a file leads to, with `kept` of its news kept.
pub open spec fn is_settled<T>(
    listeners: Seq<ListenerView<T>>,
    dir: Seq<Seq<char>>,
    own_app_id: Seq<char>,
    app_id: Seq<char>,
    unread: UnreadView,
    extra: Option<&T>,
    before: PullState,
    after: PullState,
    kept: Seq<PathEntryView>,
    success: bool,
) -> bool {
    let app_text = crate::file_utils::text_of(
        before.files,
        crate::directory::app_file(dir, app_id, unread.hash),
    );
    let own_text = crate::file_utils::text_of(
        before.files,
        crate::directory::app_file(dir, own_app_id, unread.hash),
    );
    let news = news_of_text(app_text, own_text);
    &&& match extra {
        Some(extra) => exists|answer: spec_fn(Seq<Seq<char>>) -> bool| #[trigger]
            are_decided(listeners, news, extra, kept, success, answer),
        None => kept == news && success,
    }
    &&& forall|slot: PathEntryView| #[trigger]
        crate::pull_laws::app_holds(after.files, dir, own_app_id, unread.hash, slot) == if exists|
            i: int,
        |
            0 <= i < kept.len() && (#[trigger] kept[i]).path == slot.path
                && kept[i].entry.key.same(slot.entry.key) {
            crate::store::held(kept, slot)
        } else {
            crate::pull_laws::app_holds(before.files, dir, own_app_id, unread.hash, slot)
        }
    &&& crate::sequences::read_up_to(after.local, app_id, unread.hash) == if success {
        unread.sequence
    } else {
        crate::sequences::read_up_to(before.local, app_id, unread.hash)
    }
    &&& after.success == (before.success && success)
    &&& after.files == if kept.len() == 0 {
        before.files
    } else {
        before.files.insert(
            crate::directory::app_file(dir, own_app_id, unread.hash),
            crate::store::entries_text(
                crate::store::merged(crate::store::stored_entries(own_text), kept),
            ),
        )
    }
}

/// Taking over a file that is there brings its news to the listeners, if there is an `extra`, and
/// takes over what they keep: the own file then holds the kept entries, and for every other path
/// and key what it held. The file counts as read exactly if all listeners could apply their share.
pub proof fn a_file_is_taken_over_as_the_listeners_decide<T>(
    listeners: Seq<ListenerView<T>>,
    dir: Seq<Seq<char>>,
    own_app_id: Seq<char>,
    app_id: Seq<char>,
    unread: UnreadView,
    extra: Option<&T>,
    before: PullState,
    after: PullState,
)
    requires
        crate::pull::pulls_file(
            listeners,
            dir,
            own_app_id,
            app_id,
            unread,
            extra,
            before,
            after,
        ),
        before.files.contains_key(crate::directory::app_file(dir, app_id, unread.hash)),
    ensures
        exists|kept: Seq<PathEntryView>, success: bool| #[trigger]
            is_settled(
                listeners,
                dir,
                own_app_id,
                app_id,
                unread,
                extra,
                before,
                after,
                kept,
                success,
            ),
{
    let (kept, success) = choose|kept: Seq<PathEntryView>, success: bool| #[trigger]
        crate::pull::keeps(
            listeners,
            dir,
            own_app_id,
            app_id,
            unread,
            extra,
            before,
            kept,
            success,
        ) && after == crate::pull::after_file(
            listeners,
            dir,
            own_app_id,
            app_id,
            unread,
            extra,
            before,
            kept,
            success,
        );
    let app_text = crate::file_utils::text_of(
        before.files,
        crate::directory::app_file(dir, app_id, unread.hash),
    );
    let own_text = crate::file_utils::text_of(
        before.files,
        crate::directory::app_file(dir, own_app_id, unread.hash),
    );
    let stored = crate::store::stored_entries(own_text);
    let fresh = crate::store::is_fresh(stored, false);
    let new = |e: PathEntryView| crate::reading::is_new_to(own_text, e);
    assert forall|e: PathEntryView| #[trigger] fresh(e) == new(e) by {
        crate::reading::fresh_entries_are_new(own_text, e);
    }
    assert(fresh =~= new);
    let news = news_of_text(app_text, own_text);
    match extra {
        Some(x) => {
            listeners_decide_what_is_kept(listeners, news, x, kept, success);
        },
        None => {},
    }
    assert forall|slot: PathEntryView| #[trigger]
        crate::pull_laws::app_holds(after.files, dir, own_app_id, unread.hash, slot) == if exists|
            i: int,
        |
            0 <= i < kept.len() && (#[trigger] kept[i]).path == slot.path
                && kept[i].entry.key.same(slot.entry.key) {
            crate::store::held(kept, slot)
        } else {
            crate::pull_laws::app_holds(before.files, dir, own_app_id, unread.hash, slot)
        } by {
        crate::laws::an_update_changes_only_its_slots(stored, kept, slot);
        if crate::store::occupied(kept, slot) {
            let i = choose|i: int| 0 <= i < kept.len() && (#[trigger] kept[i]).same_slot(slot);
            assert(kept[i].path == slot.path);
        }
    }
    assert(is_settled(
        listeners,
        dir,
        own_app_id,
        app_id,
        unread,
        extra,
        before,
        after,
        kept,
        success,
    ));
}

/// The entry was in the own file, or is in a file of another app of the same name.
pub open spec fn has_an_origin(
    files: Map<Seq<Seq<char>>, Seq<char>>,
    dir: Seq<Seq<char>>,
    own_app_id: Seq<char>,
    hash: Seq<char>,
    x: PathEntryView,
) -> bool {
    ||| crate::publish::file_entries(
        files,
        crate::directory::app_dir(dir, own_app_id),
        hash,
    ).contains(x)
    ||| exists|app_id: Seq<char>|
        app_id != own_app_id && #[trigger] crate::publish::file_entries(
            files,
            crate::directory::app_dir(dir, app_id),
            hash,
        ).contains(x)
}

/// Everything in the own file `hash` has an origin.
spec fn all_have_origins(
    start: Map<Seq<Seq<char>>, Seq<char>>,
    dir: Seq<Seq<char>>,
    own_app_id: Seq<char>,
    hash: Seq<char>,
    now: Map<Seq<Seq<char>>, Seq<char>>,
) -> bool {
    &&& crate::pull_laws::others_untouched(dir, own_app_id, start, now)
    &&& forall|x: PathEntryView| #[trigger]
        crate::publish::file_entries(
            now,
            crate::directory::app_dir(dir, own_app_id),
            hash,
        ).contains(x) ==> has_an_origin(start, dir, own_app_id, hash, x)
}

/// Taking over one file brings nothing without an origin.
proof fn file_keeps_origins<T>(
    listeners: Seq<ListenerView<T>>,
    dir: Seq<Seq<char>>,
    own_app_id: Seq<char>,
    app_id: Seq<char>,
    unread: UnreadView,
    extra: Option<&T>,
    start: Map<Seq<Seq<char>>, Seq<char>>,
    before: PullState,
    after: PullState,
    hash: Seq<char>,
)
    requires
        app_id != own_app_id,
        all_have_origins(start, dir, own_app_id, hash, before.files),
        crate::pull::pulls_file(
            listeners,
            dir,
            own_app_id,
            app_id,
            unread,
            extra,
            before,
            after,
        ),
    ensures
        all_have_origins(start, dir, own_app_id, hash, after.files),
{
    crate::pull_laws::file_step(
        listeners,
        dir,
        own_app_id,
        app_id,
        unread,
        extra,
        before,
        after,
    );
    crate::pull_laws::untouched_chains(dir, own_app_id, start, before.files, after.files);
    if before.files.contains_key(crate::directory::app_file(dir, app_id, unread.hash)) {
        let (kept, success) = choose|kept: Seq<PathEntryView>, success: bool| #[trigger]
            crate::pull::keeps(
                listeners,
                dir,
                own_app_id,
                app_id,
                unread,
                extra,
                before,
                kept,
                success,
            ) && after == crate::pull::after_file(
                listeners,
                dir,
                own_app_id,
                app_id,
                unread,
                extra,
                before,
                kept,
                success,
            );
        let own = crate::directory::app_dir(dir, own_app_id);
        let app = crate::directory::app_dir(dir, app_id);
        crate::pull_laws::places_differ(dir, own_app_id, own_app_id, unread.hash, hash);
        if unread.hash != hash {
            let place = crate::directory::app_file(dir, own_app_id, hash);
            assert(crate::file_utils::text_of(after.files, place) == crate::file_utils::text_of(
                before.files,
                place,
            ));
            assert(crate::publish::file_entries(after.files, own, hash)
                == crate::publish::file_entries(before.files, own, hash));
        } else {
            let stored = crate::publish::file_entries(before.files, own, hash);
            let came = crate::publish::file_entries(before.files, app, hash);
            let place = crate::directory::app_file(dir, app_id, hash);
            assert(crate::file_utils::text_of(before.files, place) == crate::file_utils::text_of(
                start,
                place,
            ));
            assert(came == crate::publish::file_entries(start, app, hash));
            assert forall|x: PathEntryView| #[trigger]
                crate::publish::file_entries(after.files, own, hash).contains(
                    x,
                ) implies has_an_origin(start, dir, own_app_id, hash, x) by {
                crate::pull_telling::renewed_are_stored_or_kept(stored, kept, x);
                if !stored.contains(x) {
                    crate::store::taken_are_fresh(
                        listeners,
                        stored,
                        came,
                        false,
                        extra,
                        kept,
                        success,
                        x,
                    );
                    assert(crate::publish::file_entries(start, app, hash).contains(x));
                }
            }
        }
    }
}

/// Taking over some files brings nothing without an origin.
proof fn files_keep_origins<T>(
    listeners: Seq<ListenerView<T>>,
    dir: Seq<Seq<char>>,
    own_app_id: Seq<char>,
    app_id: Seq<char>,
    unread: Seq<UnreadView>,
    extra: Option<&T>,
    start: Map<Seq<Seq<char>>, Seq<char>>,
    before: PullState,
    after: PullState,
    hash: Seq<char>,
)
    requires
        app_id != own_app_id,
        all_have_origins(start, dir, own_app_id, hash, before.files),
        crate::pull::pulls_files(
            listeners,
            dir,
            own_app_id,
            app_id,
            unread,
            extra,
            before,
            after,
        ),
    ensures
        all_have_origins(start, dir, own_app_id, hash, after.files),
    decreases unread.len(),
{
    if unread.len() > 0 {
        let rest = unread.drop_last();
        let between = choose|between: PullState|
            crate::pull::pulls_files(
                listeners,
                dir,
                own_app_id,
                app_id,
                rest,
                extra,
                before,
                between,
            ) && #[trigger] crate::pull::pulls_file(
                listeners,
                dir,
                own_app_id,
                app_id,
                unread.last(),
                extra,
                between,
                after,
            );
        files_keep_origins(
            listeners,
            dir,
            own_app_id,
            app_id,
            rest,
            extra,
            start,
            before,
            between,
            hash,
        );
        file_keeps_origins(
            listeners,
            dir,
            own_app_id,
            app_id,
            unread.last(),
            extra,
            start,
            between,
            after,
            hash,
        );
    }
}

/// Taking over some apps brings nothing without an origin.
proof fn apps_keep_origins<T>(
    listeners: Seq<ListenerView<T>>,
    dir: Seq<Seq<char>>,
    own_app_id: Seq<char>,
    app_ids: Seq<Seq<char>>,
    extra: Option<&T>,
    start: PullState,
    after: PullState,
    hash: Seq<char>,
)
    requires
        crate::pull::pulls_apps(listeners, dir, own_app_id, app_ids, extra, start, after),
    ensures
        all_have_origins(start.files, dir, own_app_id, hash, after.files),
    decreases app_ids.len(),
{
    if app_ids.len() > 0 {
        let rest = app_ids.drop_last();
        let last = app_ids.last();
        let between = choose|between: PullState|
            crate::pull::pulls_apps(listeners, dir, own_app_id, rest, extra, start, between)
                && #[trigger] crate::pull::pulls_app(
                listeners,
                dir,
                own_app_id,
                last,
                extra,
                between,
                after,
            );
        apps_keep_origins(listeners, dir, own_app_id, rest, extra, start, between, hash);
        if last != own_app_id {
            let sequences = crate::publish::file_sequences(
                between.files,
                crate::directory::app_dir(dir, last),
            );
            files_keep_origins(
                listeners,
                dir,
                own_app_id,
                last,
                crate::pull::unread_files(between.local, last, sequences),
                extra,
                start.files,
                between,
                after,
                hash,
            );
        }
    }
}

/// After a pull the own files hold only what they held before, and entries that stand in a file
/// of another app of the same name.
pub proof fn a_pull_takes_over_only_what_others_wrote<T>(
    listeners: Seq<ListenerView<T>>,
    told: Seq<Seq<crate::listener::Told>>,
    dir: Seq<Seq<char>>,
    own_app_id: Seq<char>,
    app_ids: Seq<Seq<char>>,
    extra: Option<&T>,
    before: Map<Seq<Seq<char>>, Seq<char>>,
    last: PullState,
    after: Map<Seq<Seq<char>>, Seq<char>>,
    hash: Seq<char>,
    x: PathEntryView,
)
    requires
        crate::pull::pulls(listeners, told, dir, own_app_id, app_ids, extra, before, last, after),
        crate::publish::file_entries(
            after,
            crate::directory::app_dir(dir, own_app_id),
            hash,
        ).contains(x),
    ensures
        has_an_origin(before, dir, own_app_id, hash, x),
{
    apps_keep_origins(
        listeners,
        dir,
        own_app_id,
        crate::order::arrangement::<String>(app_ids),
        extra,
        crate::pull::pull_start(before, dir, own_app_id, told),
        last,
        hash,
    );
    crate::pull_laws::places_differ(dir, own_app_id, own_app_id, hash, hash);
    let place = crate::directory::app_file(dir, own_app_id, hash);
    assert(crate::file_utils::text_of(after, place) == crate::file_utils::text_of(
        last.files,
        place,
    ));
    assert(crate::publish::file_entries(
        last.files,
        crate::directory::app_dir(dir, own_app_id),
        hash,
    ).contains(x));
}

/// The states lead through the files, each taken over once, in their order.
pub open spec fn leads_through_files<T>(
    listeners: Seq<ListenerView<T>>,
    dir: Seq<Seq<char>>,
    own_app_id: Seq<char>,
    app_id: Seq<char>,
    unread: Seq<UnreadView>,
    extra: Option<&T>,
    states: Seq<PullState>,
) -> bool {
    &&& states.len() == unread.len() + 1
    &&& forall|i: int|
        0 <= i < unread.len() ==> crate::pull::pulls_file(
            listeners,
            dir,
            own_app_id,
            app_id,
            #[trigger] unread[i],
            extra,
            states[i],
            states[i + 1],
        )
}

/// Each of the files is taken over once, one after the other.
pub proof fn each_file_is_taken_over_once<T>(
    listeners: Seq<ListenerView<T>>,
    dir: Seq<Seq<char>>,
    own_app_id: Seq<char>,
    app_id: Seq<char>,
    unread: Seq<UnreadView>,
    extra: Option<&T>,
    before: PullState,
    after: PullState,
)
    requires
        crate::pull::pulls_files(
            listeners,
            dir,
            own_app_id,
            app_id,
            unread,
            extra,
            before,
            after,
        ),
    ensures
        exists|states: Seq<PullState>| #[trigger]
            leads_through_files(listeners, dir, own_app_id, app_id, unread, extra, states)
                && states[0] == before && states[unread.len() as int] == after,
    decreases unread.len(),
{
    if unread.len() == 0 {
        let states = seq![before];
        assert(leads_through_files(listeners, dir, own_app_id, app_id, unread, extra, states));
    } else {
        let rest = unread.drop_last();
        let between = choose|between: PullState|
            crate::pull::pulls_files(
                listeners,
                dir,
                own_app_id,
                app_id,
                rest,
                extra,
                before,
                between,
            ) && #[trigger] crate::pull::pulls_file(
                listeners,
                dir,
                own_app_id,
                app_id,
                unread.last(),
                extra,
                between,
                after,
            );
        each_file_is_taken_over_once(
            listeners,
            dir,
            own_app_id,
            app_id,
            rest,
            extra,
            before,
            between,
        );
        let some = choose|some: Seq<PullState>| #[trigger]
            leads_through_files(listeners, dir, own_app_id, app_id, rest, extra, some) && some[0]
                == before && some[rest.len() as int] == between;
        let states = some.push(after);
        assert forall|i: int| 0 <= i < unread.len() implies crate::pull::pulls_file(
            listeners,
            dir,
            own_app_id,
            app_id,
            #[trigger] unread[i],
            extra,
            states[i],
            states[i + 1],
        ) by {
            if i < rest.len() {
                assert(rest[i] == unread[i]);
            }
        }
        assert(leads_through_files(listeners, dir, own_app_id, app_id, unread, extra, states));
    }
}

/// Going through an app leads from one state to another: through the own files not at all, and
/// through the files of another app that have not been read.
pub open spec fn goes_through_app<T>(
    listeners: Seq<ListenerView<T>>,
    dir: Seq<Seq<char>>,
    own_app_id: Seq<char>,
    app_id: Seq<char>,
    extra: Option<&T>,
    before: PullState,
    after: PullState,
) -> bool {
    if app_id == own_app_id {
        after == before
    } else {
        crate::pull::pulls_files(
            listeners,
            dir,
            own_app_id,
            app_id,
            crate::pull::unread_files(
                before.local,
                app_id,
                crate::publish::file_sequences(
                    before.files,
                    crate::directory::app_dir(dir, app_id),
                ),
            ),
            extra,
            before,
            after,
        )
    }
}

/// The states lead through the apps, each gone through once, in their order.
pub open spec fn leads_through_apps<T>(
    listeners: Seq<ListenerView<T>>,
    dir: Seq<Seq<char>>,
    own_app_id: Seq<char>,
    app_ids: Seq<Seq<char>>,
    extra: Option<&T>,
    states: Seq<PullState>,
) -> bool {
    &&& states.len() == app_ids.len() + 1
    &&& forall|i: int|
        0 <= i < app_ids.len() ==> goes_through_app(
            listeners,
            dir,
            own_app_id,
            #[trigger] app_ids[i],
            extra,
            states[i],
            states[i + 1],
        )
}

/// Each of the apps is gone through once, one after the other.
proof fn each_app_is_gone_through_once<T>(
    listeners: Seq<ListenerView<T>>,
    dir: Seq<Seq<char>>,
    own_app_id: Seq<char>,
    app_ids: Seq<Seq<char>>,
    extra: Option<&T>,
    before: PullState,
    after: PullState,
)
    requires
        crate::pull::pulls_apps(listeners, dir, own_app_id, app_ids, extra, before, after),
    ensures
        exists|states: Seq<PullState>| #[trigger]
            leads_through_apps(listeners, dir, own_app_id, app_ids, extra, states) && states[0]
                == before && states[app_ids.len() as int] == after,
    decreases app_ids.len(),
{
    if app_ids.len() == 0 {
        let states = seq![before];
        assert(leads_through_apps(listeners, dir, own_app_id, app_ids, extra, states));
    } else {
        let rest = app_ids.drop_last();
        let between = choose|between: PullState|
            crate::pull::pulls_apps(listeners, dir, own_app_id, rest, extra, before, between)
                && #[trigger] crate::pull::pulls_app(
                listeners,
                dir,
                own_app_id,
                app_ids.last(),
                extra,
                between,
                after,
            );
        each_app_is_gone_through_once(
            listeners,
            dir,
            own_app_id,
            rest,
            extra,
            before,
            between,
        );
        let some = choose|some: Seq<PullState>| #[trigger]
            leads_through_apps(listeners, dir, own_app_id, rest, extra, some) && some[0] == before
                && some[rest.len() as int] == between;
        let states = some.push(after);
        assert forall|i: int| 0 <= i < app_ids.len() implies goes_through_app(
            listeners,
            dir,
            own_app_id,
            #[trigger] app_ids[i],
            extra,
            states[i],
            states[i + 1],
        ) by {
            if i < rest.len() {
                assert(rest[i] == app_ids[i]);
            }
        }
        assert(leads_through_apps(listeners, dir, own_app_id, app_ids, extra, states));
    }
}

/// A pull goes once through each of the apps that it is asked about, by their ids in ascending
/// order, with what the own read state says at the start, and then records what has been read, if
/// that changed, and nothing else.
pub proof fn a_pull_goes_once_through_each_app<T>(
    listeners: Seq<ListenerView<T>>,
    told: Seq<Seq<crate::listener::Told>>,
    dir: Seq<Seq<char>>,
    own_app_id: Seq<char>,
    app_ids: Seq<Seq<char>>,
    extra: Option<&T>,
    before: Map<Seq<Seq<char>>, Seq<char>>,
    last: PullState,
    after: Map<Seq<Seq<char>>, Seq<char>>,
)
    requires
        crate::pull::pulls(listeners, told, dir, own_app_id, app_ids, extra, before, last, after),
    ensures
        exists|ids: Seq<Seq<char>>, states: Seq<PullState>|
            {
                &&& #[trigger] leads_through_apps(
                    listeners,
                    dir,
                    own_app_id,
                    ids,
                    extra,
                    states,
                )
                &&& forall|id: Seq<char>| #[trigger] ids.contains(id) <==> app_ids.contains(id)
                &&& forall|i: int, j: int|
                    0 <= i < j < ids.len() ==> crate::order::text_before(
                        #[trigger] ids[i],
                        #[trigger] ids[j],
                    )
                &&& states[0].files == before
                &&& states[0].told == told
                &&& states[0].success
                &&& states[0].local == crate::sequences::local_in(
                    crate::file_utils::text_of(
                        before,
                        dir + seq!["local"@, own_app_id, "sequences"@],
                    ),
                )
                &&& states[ids.len() as int] == last
            },
        forall|path: Seq<Seq<char>>|
            path != dir + seq!["local"@, own_app_id, "sequences"@]
                ==> #[trigger] crate::file_utils::text_of(after, path)
                == crate::file_utils::text_of(last.files, path),
{
    let ids = crate::order::arrangement::<String>(app_ids);
    let start = crate::pull::pull_start(before, dir, own_app_id, told);
    each_app_is_gone_through_once(listeners, dir, own_app_id, ids, extra, start, last);
    let states = choose|states: Seq<PullState>| #[trigger]
        leads_through_apps(listeners, dir, own_app_id, ids, extra, states) && states[0] == start
            && states[ids.len() as int] == last;
    crate::order::arrangement_arranges::<String>(app_ids);
    assert forall|i: int, j: int| 0 <= i < j < ids.len() implies crate::order::text_before(
        #[trigger] ids[i],
        #[trigger] ids[j],
    ) by {
        assert(<String as crate::order::Key>::before(ids[i], ids[j]));
    }
    crate::directory::where_the_files_are(
        seq![],
        seq![],
        None,
        dir,
        own_app_id,
        seq![],
    );
    assert(leads_through_apps(listeners, dir, own_app_id, ids, extra, states));
}

} // verus!
