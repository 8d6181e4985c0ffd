//! Finding out that other apps have written something, without an instance.

use vstd::prelude::*;

use crate::directory::{child, get_decsync_subdir};
use crate::error::DecSyncError;
use crate::file_utils::Files;
use crate::order::distinct_keys;
use crate::pull::{Pull, UnreadView};

verus! {

/// The file is there.
pub open spec fn is_there(
    files: Map<Seq<Seq<char>>, Seq<char>>,
    dir: Seq<Seq<char>>,
    app_id: Seq<char>,
) -> spec_fn(UnreadView) -> bool {
    |unread: UnreadView|
        files.contains_key(crate::directory::app_file(dir, app_id, unread.hash))
}

/// The files of an app that a pull would take over.
pub open spec fn news_of(
    files: Map<Seq<Seq<char>>, Seq<char>>,
    dir: Seq<Seq<char>>,
    own_app_id: Seq<char>,
    app_id: Seq<char>,
) -> Seq<UnreadView> {
    let state = crate::directory::state_file(dir, own_app_id);
    crate::pull::unread_files(
        crate::sequences::local_in(crate::file_utils::text_of(files, state)),
        app_id,
        crate::publish::file_sequences(files, crate::directory::app_dir(dir, app_id)),
    ).filter(is_there(files, dir, app_id))
}

/// The app is another one, and it has entries that have not been pulled.
pub open spec fn is_pending(
    files: Map<Seq<Seq<char>>, Seq<char>>,
    dir: Seq<Seq<char>>,
    own_app_id: Seq<char>,
) -> spec_fn(Seq<char>) -> bool {
    |app_id: Seq<char>| app_id != own_app_id && news_of(files, dir, own_app_id, app_id).len() > 0
}

/// The apps that have entries that have not been pulled, in ascending order.
pub open spec fn pending(
    files: Map<Seq<Seq<char>>, Seq<char>>,
    dir: Seq<Seq<char>>,
    own_app_id: Seq<char>,
    app_ids: Seq<Seq<char>>,
) -> Seq<Seq<char>> {
    crate::order::arrangement::<String>(app_ids).filter(is_pending(files, dir, own_app_id))
}

/// Whether an app has files that a pull would take over.
fn has_news(
    pull: &Pull,
    dir: &Vec<String>,
    app_id: &String,
    files: &Files,
) -> (r: bool)
    requires
        pull.well_formed(),
    ensures
        r == (crate::pull::unread_files(
            pull@.local,
            app_id@,
            crate::publish::file_sequences(
                files@,
                crate::directory::app_dir(dir.deep_view(), app_id@),
            ),
        ).filter(is_there(files@, dir.deep_view(), app_id@)).len() > 0),
{
    let app = child(&child(dir, "v2"), app_id.as_str());
    let unread = pull.unread(app_id, files.read(&child(&app, "sequences")));
    let ghost views = unread.deep_view();
    let ghost d = dir.deep_view();
    let ghost there = is_there(files@, d, app_id@);
    let mut i: usize = 0;
    while i < unread.len()
        invariant
            i <= unread@.len(),
            views == unread.deep_view(),
            app.deep_view() == crate::directory::app_dir(d, app_id@),
            there == is_there(files@, d, app_id@),
            forall|j: int| 0 <= j < i ==> !there(#[trigger] views[j]),
        ensures
            i <= unread@.len(),
            forall|j: int| 0 <= j < i ==> !there(#[trigger] views[j]),
            i < unread@.len() ==> there(views[i as int]),
        decreases unread@.len() - i,
    {
        assert(views[i as int] == unread@[i as int].deep_view());
        if files.read(&child(&app, unread[i].hash.as_str())).is_some() {
            break;
        }
        i = i + 1;
    }
    proof {
        if i < unread@.len() {
            views.lemma_filter_contains(there, i as int);
        } else {
            let some = views.filter(there);
            if some.len() > 0 {
                assert(some.contains(some[0]));
                views.lemma_filter_contains_rev(there, some[0]);
                views.lemma_filter_pred(there, 0);
            }
        }
    }
    i < unread.len()
}

/// The apps among `app_ids` that have entries that the app `own_app_id` has not pulled.
pub fn compute_pending_app_ids(
    dir: &Vec<String>,
    own_app_id: &String,
    app_ids: &Vec<String>,
    files: &Files,
) -> (r: Vec<String>)
    ensures
        r.deep_view() == pending(files@, dir.deep_view(), own_app_id@, app_ids.deep_view()),
{
    let ghost d = dir.deep_view();
    let ghost news = is_pending(files@, d, own_app_id@);
    let state_file = child(&child(&child(dir, "local"), own_app_id.as_str()), "sequences");
    let pull = Pull::start(files.read(&state_file));
    let app_ids = distinct_keys(app_ids);
    let ghost ids = app_ids.deep_view();
    let mut r: Vec<String> = Vec::new();
    let mut i: usize = 0;
    proof {
        reveal(Seq::filter);
        assert(r.deep_view() =~= ids.take(0).filter(news));
    }
    while i < app_ids.len()
        invariant
            i <= app_ids@.len(),
            d == dir.deep_view(),
            news == is_pending(files@, d, own_app_id@),
            pull.well_formed(),
            pull@.local == crate::sequences::local_in(
                crate::file_utils::text_of(
                    files@,
                    crate::directory::state_file(d, own_app_id@),
                ),
            ),
            ids == app_ids.deep_view(),
            r.deep_view() == ids.take(i as int).filter(news),
        decreases app_ids@.len() - i,
    {
        proof {
            reveal(Seq::filter);
            assert(ids.take(i + 1).drop_last() == ids.take(i as int));
            assert(ids.take(i + 1).last() == app_ids@[i as int]@);
        }
        let ghost done = r.deep_view();
        if app_ids[i] != *own_app_id && has_news(&pull, dir, &app_ids[i], files) {
            r.push(app_ids[i].clone());
            assert(r.deep_view() =~= done.push(ids[i as int]));
        }
        i = i + 1;
    }
    assert(ids.take(ids.len() as int) == ids);
    r
}

/// Polls a synchronized directory for entries that have not been pulled, without an instance.
///
/// It reports *that* something arrived; taking it over is up to the instance.
pub struct Notifier {
    decsync_dir_path: Vec<String>,
    own_app_id: String,
}

/// What a [`Notifier`] is.
pub struct NotifierView {
    /// The directory of the collection.
    pub dir: Seq<Seq<char>>,
    pub own_app_id: Seq<char>,
}

impl View for Notifier {
    type V = NotifierView;

    closed spec fn view(&self) -> NotifierView {
        NotifierView { dir: self.decsync_dir_path.deep_view(), own_app_id: self.own_app_id@ }
    }
}

impl Notifier {
    /// Points the poller at `sync_type`/`collection` in `decsync_dir`, tracking the read state of
    /// `own_app_id`. Nothing touches the disk yet.
    pub fn new(
        decsync_dir: &str,
        sync_type: &str,
        collection: Option<&str>,
        own_app_id: &str,
    ) -> (r: Notifier)
        ensures
            r@ == (NotifierView {
                dir: crate::directory::subdir(
                    decsync_dir@,
                    sync_type@,
                    match collection {
                        Some(collection) => Some(collection@),
                        None => None,
                    },
                ),
                own_app_id: own_app_id@,
            }),
    {
        Notifier {
            decsync_dir_path: get_decsync_subdir(decsync_dir, sync_type, collection),
            own_app_id: own_app_id.to_owned(),
        }
    }

    /// The directory with the directories of all apps.
    pub fn v2_dir(&self) -> (r: Vec<String>)
        ensures
            r.deep_view() == self@.dir.push("v2"@),
    {
        child(&self.decsync_dir_path, "v2")
    }

    /// The file with the read state of the app.
    pub fn state_file(&self) -> (r: Vec<String>)
        ensures
            r.deep_view() == crate::directory::state_file(self@.dir, self@.own_app_id),
    {
        child(
            &child(&child(&self.decsync_dir_path, "local"), self.own_app_id.as_str()),
            "sequences",
        )
    }

    /// The apps among `app_ids` that currently have entries that have not been pulled.
    pub fn pending_app_ids(&self, app_ids: &Vec<String>, files: &Files) -> (r: Vec<String>)
        ensures
            r.deep_view() == pending(files@, self@.dir, self@.own_app_id, app_ids.deep_view()),
    {
        compute_pending_app_ids(&self.decsync_dir_path, &self.own_app_id, app_ids, files)
    }
}

/// What a poll has to tell: only apps with news, and nothing if there are none or the directory
/// could not be read.
pub fn notification(pending: Result<Vec<String>, DecSyncError>) -> (r: Option<Vec<String>>)
    ensures
        match pending {
            Ok(app_ids) => r == if app_ids@.len() > 0 {
                Some(app_ids)
            } else {
                None
            },
            Err(_) => r is None,
        },
{
    match pending {
        Ok(app_ids) => {
            if app_ids.is_empty() {
                None
            } else {
                Some(app_ids)
            }
        },
        Err(_) => None,
    }
}

/// An app is pending exactly if it is one of those asked about, another one than the own, and has a
/// file that is there, has a sequence number, and has not been read up to it.
pub proof fn apps_are_pending_by_their_files(
    files: Map<Seq<Seq<char>>, Seq<char>>,
    dir: Seq<Seq<char>>,
    own_app_id: Seq<char>,
    app_ids: Seq<Seq<char>>,
    app_id: Seq<char>,
)
    requires
        crate::publish::file_sequences(
            files,
            crate::directory::app_dir(dir, app_id),
        ).dom().finite(),
    ensures
        pending(files, dir, own_app_id, app_ids).contains(app_id) <==> app_ids.contains(app_id)
            && app_id != own_app_id && exists|hash: Seq<char>| #[trigger]
            is_waiting(files, dir, own_app_id, app_id, hash),
{
    let ids = crate::order::arrangement::<String>(app_ids);
    let pred = is_pending(files, dir, own_app_id);
    let some = ids.filter(pred);
    let sequences = crate::publish::file_sequences(files, crate::directory::app_dir(dir, app_id));
    let local = crate::sequences::local_in(
        crate::file_utils::text_of(files, crate::directory::state_file(dir, own_app_id)),
    );
    let unread = crate::pull::unread_files(local, app_id, sequences);
    let there = is_there(files, dir, app_id);
    let news = news_of(files, dir, own_app_id, app_id);
    crate::order::arrangement_arranges::<String>(app_ids);
    assert(news == unread.filter(there));
    if news.len() > 0 {
        assert(news.contains(news[0]));
        unread.lemma_filter_contains_rev(there, news[0]);
        unread.lemma_filter_pred(there, 0);
        crate::pull::files_are_unread_by_their_numbers(local, app_id, sequences, news[0], 0, 0);
        assert(is_waiting(files, dir, own_app_id, app_id, news[0].hash));
    }
    if exists|hash: Seq<char>| #[trigger] is_waiting(files, dir, own_app_id, app_id, hash) {
        let hash = choose|hash: Seq<char>| #[trigger]
            is_waiting(files, dir, own_app_id, app_id, hash);
        let one = UnreadView { hash, sequence: sequences[hash] };
        crate::pull::files_are_unread_by_their_numbers(local, app_id, sequences, one, 0, 0);
        let k = choose|k: int| 0 <= k < unread.len() && unread[k] == one;
        unread.lemma_filter_contains(there, k);
    }
    if some.contains(app_id) {
        let k = choose|k: int| 0 <= k < some.len() && some[k] == app_id;
        ids.lemma_filter_contains_rev(pred, app_id);
        ids.lemma_filter_pred(pred, k);
        assert(ids.contains(app_id));
    }
    if app_ids.contains(app_id) && pred(app_id) {
        assert(ids.contains(app_id));
        let k = choose|k: int| 0 <= k < ids.len() && ids[k] == app_id;
        ids.lemma_filter_contains(pred, k);
    }
}

/// The file of the app is there, has a sequence number, and the own app has not read up to it.
pub open spec fn is_waiting(
    files: Map<Seq<Seq<char>>, Seq<char>>,
    dir: Seq<Seq<char>>,
    own_app_id: Seq<char>,
    app_id: Seq<char>,
    hash: Seq<char>,
) -> bool {
    let sequences = crate::publish::file_sequences(files, crate::directory::app_dir(dir, app_id));
    let local = crate::sequences::local_in(
        crate::file_utils::text_of(files, crate::directory::state_file(dir, own_app_id)),
    );
    &&& files.contains_key(crate::directory::app_file(dir, app_id, hash))
    &&& sequences.contains_key(hash)
    &&& crate::sequences::read_up_to(local, app_id, hash) != sequences[hash]
}

/// Pending apps are listed once each, by their ids in ascending order.
pub proof fn pending_apps_ascend(
    files: Map<Seq<Seq<char>>, Seq<char>>,
    dir: Seq<Seq<char>>,
    own_app_id: Seq<char>,
    app_ids: Seq<Seq<char>>,
    i: int,
    j: int,
)
    requires
        0 <= i < j < pending(files, dir, own_app_id, app_ids).len(),
    ensures
        crate::order::text_before(
            pending(files, dir, own_app_id, app_ids)[i],
            pending(files, dir, own_app_id, app_ids)[j],
        ),
{
    crate::order::arrangement_arranges::<String>(app_ids);
    crate::pull::filtered_ascend(
        crate::order::arrangement::<String>(app_ids),
        is_pending(files, dir, own_app_id),
        i,
        j,
    );
}

} // verus!
