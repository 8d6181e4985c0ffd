//! One app's end of a synchronized directory.

use vstd::prelude::*;

use crate::calls::Recorded;
use crate::directory::{child, get_decsync_subdir};
use crate::entry::{Entry, EntryView, EntryWithPath, PathEntryView, StoredEntry};
use crate::error::DecSyncError;
use crate::file_utils::{FileWrite, Files};
use crate::info::check_info;
use crate::json::Value;
use crate::listener::{
    AllEntries, AllEntriesWithSuccess, EachEntry, EachEntryWithSuccess, EntryCallback, Listener,
    ListenerView, Listeners, Told,
};
use crate::notifier::compute_pending_app_ids;
use crate::publish::set_entries;
use crate::pull::{pull_all, pull_file, Pull, PullState, Unread};
use crate::replay::{replay_path, replay_prefix, replay_stored};
use crate::time::current_date_time;

verus! {

/// One app's end of a synchronized directory, with the listeners of the app.
///
/// `T` is what the app hands through to its listeners.
#[verifier::reject_recursive_types(T)]
pub struct DecSyncInstance<T> {
    /// The shared directory.
    pub decsync_dir: String,
    /// What is synchronized.
    pub sync_type: String,
    /// The collection, where a sync type has several.
    pub collection: Option<String>,
    /// The id of this app; unique per device, stable across restarts.
    pub own_app_id: String,
    decsync_dir_path: Vec<String>,
    listeners: Listeners<T>,
}

/// What a [`DecSyncInstance`] is, but for its listeners.
pub struct InstanceView {
    pub decsync_dir: Seq<char>,
    pub sync_type: Seq<char>,
    pub collection: Option<Seq<char>>,
    pub own_app_id: Seq<char>,
    /// The directory of the collection.
    pub dir: Seq<Seq<char>>,
}

/// What the instance of an app is.
pub open spec fn instance_view(
    decsync_dir: String,
    sync_type: String,
    collection: Option<String>,
    own_app_id: String,
) -> InstanceView {
    let collection = match collection {
        Some(collection) => Some(collection@),
        None => None,
    };
    InstanceView {
        decsync_dir: decsync_dir@,
        sync_type: sync_type@,
        collection,
        own_app_id: own_app_id@,
        dir: crate::directory::subdir(decsync_dir@, sync_type@, collection),
    }
}

impl<T> View for DecSyncInstance<T> {
    type V = InstanceView;

    closed spec fn view(&self) -> InstanceView {
        InstanceView {
            decsync_dir: self.decsync_dir@,
            sync_type: self.sync_type@,
            collection: match self.collection {
                Some(collection) => Some(collection@),
                None => None,
            },
            own_app_id: self.own_app_id@,
            dir: self.decsync_dir_path.deep_view(),
        }
    }
}

impl<T> DecSyncInstance<T> {
    /// The listeners, in the order of their registration.
    pub closed spec fn listeners(&self) -> Seq<ListenerView<T>> {
        crate::listener::views(self.listeners@)
    }

    /// What each of the listeners has been told so far.
    pub closed spec fn told(&self) -> Seq<Seq<Told>> {
        crate::listener::told(self.listeners@)
    }

    /// What the function of each of the listeners has been called with so far.
    pub closed spec fn calls(&self) -> Seq<Seq<Told>> {
        crate::listener::calls(self.listeners@)
    }

    /// The listeners accept every call, and their functions have been called with what they have
    /// been told.
    pub closed spec fn ready(&self) -> bool {
        crate::listener::all_ready(self.listeners@) && crate::listener::in_step(self.listeners@)
    }

    /// What a listener has been told is what its function has been called with, and nothing else:
    /// a function that is handed the entries one by one has been called once for each entry, in
    /// their order, with the path that the listener has been told, and a function that is handed
    /// all entries of a path has been called once for each path.
    pub proof fn functions_are_called_with_what_is_told(&self, i: int)
        requires
            self.ready(),
            0 <= i < self.listeners().len(),
        ensures
            self.told().len() == self.listeners().len(),
            self.calls().len() == self.listeners().len(),
            self.listeners()[i].one_by_one ==> self.calls()[i] == self.told()[i].map_values(
                |one: Told|
                    one.entries.map_values(|e: EntryView| Told { path: one.path, entries: seq![e] }),
            ).flatten(),
            !self.listeners()[i].one_by_one ==> self.calls()[i] == self.told()[i],
    {
        assert(self.calls()[i] == self.listeners@[i].callback.calls());
    }

    /// The listeners are seen as they stand in their callbacks.
    proof fn listeners_are_seen_as_they_are(&self, i: int)
        requires
            0 <= i < self.listeners@.len(),
        ensures
            self.listeners().len() == self.listeners@.len(),
            self.listeners()[i].subpath == self.listeners@[i].subpath.deep_view(),
            self.listeners()[i].one_by_one == self.listeners@[i].callback.one_by_one(),
            self.told()[i] == self.listeners@[i].callback.told(),
            self.calls()[i] == self.listeners@[i].callback.calls(),
            self.ready() ==> self.listeners@[i].callback.ready(),
    {
    }

    /// The instance of an app, without listeners.
    pub fn new(
        decsync_dir: String,
        sync_type: String,
        collection: Option<String>,
        own_app_id: String,
    ) -> (r: DecSyncInstance<T>)
        ensures
            r@ == instance_view(decsync_dir, sync_type, collection, own_app_id),
            r.listeners().len() == 0,
            r.told().len() == 0,
            r.calls().len() == 0,
            r.ready(),
    {
        let decsync_dir_path = get_decsync_subdir(
            decsync_dir.as_str(),
            sync_type.as_str(),
            match &collection {
                Some(collection) => Some(collection.as_str()),
                None => None,
            },
        );
        DecSyncInstance {
            decsync_dir,
            sync_type,
            collection,
            own_app_id,
            decsync_dir_path,
            listeners: Vec::new(),
        }
    }

    /// The instance of an app, without listeners, on a directory whose format is told by the text
    /// of its information file. A directory of another format is rejected, and not upgraded.
    pub fn open(
        info: Option<&String>,
        decsync_dir: String,
        sync_type: String,
        collection: Option<String>,
        own_app_id: String,
    ) -> (r: Result<DecSyncInstance<T>, DecSyncError>)
        ensures
            match r {
                Ok(instance) => {
                    &&& crate::info::is_supported(crate::text::text_view(info))
                    &&& instance@ == instance_view(decsync_dir, sync_type, collection, own_app_id)
                    &&& instance.listeners().len() == 0
                    &&& instance.told().len() == 0
                    &&& instance.calls().len() == 0
                    &&& instance.ready()
                },
                Err(error) => crate::info::is_rejected(crate::text::text_view(info), error),
            },
    {
        match check_info(info) {
            Ok(()) => Ok(DecSyncInstance::new(decsync_dir, sync_type, collection, own_app_id)),
            Err(error) => Err(error),
        }
    }

    /// The directory that this app writes its entries to.
    pub fn own_v2_dir(&self) -> (r: Vec<String>)
        ensures
            r.deep_view() == crate::directory::app_dir(self@.dir, self@.own_app_id),
    {
        child(&child(&self.decsync_dir_path, "v2"), self.own_app_id.as_str())
    }

    /// The file with the sequence numbers of this app.
    pub fn sequences_file(&self) -> (r: Vec<String>)
        ensures
            r.deep_view() == crate::directory::app_file(self@.dir, self@.own_app_id, "sequences"@),
    {
        child(&self.own_v2_dir(), "sequences")
    }

    /// The directory that this app keeps its read state in.
    pub fn local_dir(&self) -> (r: Vec<String>)
        ensures
            r.deep_view() == crate::directory::state_dir(self@.dir, self@.own_app_id),
    {
        child(&child(&self.decsync_dir_path, "local"), self.own_app_id.as_str())
    }

    /// The directory with the directories of all apps.
    pub fn v2_dir(&self) -> (r: Vec<String>)
        ensures
            r.deep_view() == self@.dir.push("v2"@),
    {
        child(&self.decsync_dir_path, "v2")
    }

    /// The file with the read state of this app.
    pub fn state_file(&self) -> (r: Vec<String>)
        ensures
            r.deep_view() == crate::directory::state_file(self@.dir, self@.own_app_id),
    {
        child(&self.local_dir(), "sequences")
    }

    /// Adds a listener.
    fn register(&mut self, listener: Listener<Box<dyn EntryCallback<T>>>)
        requires
            old(self).ready(),
            listener.callback.ready(),
            listener.callback.calls() == crate::listener::handed(
                listener.callback.one_by_one(),
                listener.callback.told(),
            ),
        ensures
            final(self)@ == old(self)@,
            final(self).ready(),
            final(self).listeners() == old(self).listeners().push(
                crate::listener::listener_view(listener),
            ),
            final(self).told() == old(self).told().push(listener.callback.told()),
            final(self).calls() == old(self).calls().push(listener.callback.calls()),
    {
        self.listeners.push(listener);
        assert(self.listeners() =~= old(self).listeners().push(
            crate::listener::listener_view(listener),
        ));
        assert(self.told() =~= old(self).told().push(listener.callback.told()));
        assert(self.calls() =~= old(self).calls().push(listener.callback.calls()));
    }

    /// Has `on_entry_update` told about each entry below `subpath`, with the path of the entry
    /// below `subpath`.
    ///
    /// For each path that the listener is told about, the function is called once for each entry,
    /// in their order.
    pub fn add_listener<F: FnMut(Vec<String>, Entry, &T) + 'static>(
        &mut self,
        subpath: Vec<String>,
        on_entry_update: F,
    )
        requires
            old(self).ready(),
            forall|p: Vec<String>, e: Entry, x: &T| #[trigger]
                call_requires(on_entry_update, (p, e, x)),
        ensures
            final(self)@ == old(self)@,
            final(self).ready(),
            final(self).listeners() == old(self).listeners().push(
                ListenerView {
                    subpath: subpath.deep_view(),
                    responds: crate::listener::telling_each(on_entry_update),
                    one_by_one: true,
                },
            ),
            final(self).told() == old(self).told().push(seq![]),
            final(self).calls() == old(self).calls().push(seq![]),
    {
        let silent = EachEntry { f: Recorded::new(on_entry_update), told: Ghost(Seq::empty()) };
        assert(<EachEntry<F> as EntryCallback<T>>::ready(&silent));
        let callback: Box<dyn EntryCallback<T>> = Box::new(silent);
        let listener = Listener::new(subpath, callback);
        assert(callback.ready());
        assert(crate::listener::listener_view(listener).responds =~= crate::listener::telling_each(
            on_entry_update,
        ));
        assert(callback.told() =~= Seq::empty());
        assert(callback.calls() =~= Seq::empty());
        assert(crate::listener::handed(true, callback.told()) =~= Seq::empty());
        self.register(listener);
    }

    /// Has `on_entry_update` told about each entry below `subpath`. It answers whether the entry
    /// could be applied; entries that could not are not kept.
    ///
    /// For each path that the listener is told about, the function is called once for each entry,
    /// in their order.
    pub fn add_listener_with_success<F: FnMut(Vec<String>, Entry, &T) -> bool + 'static>(
        &mut self,
        subpath: Vec<String>,
        on_entry_update: F,
    )
        requires
            old(self).ready(),
            forall|p: Vec<String>, e: Entry, x: &T| #[trigger]
                call_requires(on_entry_update, (p, e, x)),
        ensures
            final(self)@ == old(self)@,
            final(self).ready(),
            final(self).listeners() == old(self).listeners().push(
                ListenerView {
                    subpath: subpath.deep_view(),
                    responds: crate::listener::asking_each(on_entry_update),
                    one_by_one: true,
                },
            ),
            final(self).told() == old(self).told().push(seq![]),
            final(self).calls() == old(self).calls().push(seq![]),
    {
        let silent = EachEntryWithSuccess { f: Recorded::new(on_entry_update), told: Ghost(Seq::empty()) };
        assert(<EachEntryWithSuccess<F> as EntryCallback<T>>::ready(&silent));
        let callback: Box<dyn EntryCallback<T>> = Box::new(silent);
        let listener = Listener::new(subpath, callback);
        assert(callback.ready());
        assert(crate::listener::listener_view(listener).responds =~= crate::listener::asking_each(
            on_entry_update,
        ));
        assert(callback.told() =~= Seq::empty());
        assert(callback.calls() =~= Seq::empty());
        assert(crate::listener::handed(true, callback.told()) =~= Seq::empty());
        self.register(listener);
    }

    /// Has `on_entries_update` told about all entries of each path below `subpath` at once.
    ///
    /// For each path that the listener is told about, the function is called once.
    pub fn add_multi_listener<F: FnMut(Vec<String>, &[Entry], &T) + 'static>(
        &mut self,
        subpath: Vec<String>,
        on_entries_update: F,
    )
        requires
            old(self).ready(),
            forall|p: Vec<String>, e: &[Entry], x: &T| #[trigger]
                call_requires(on_entries_update, (p, e, x)),
        ensures
            final(self)@ == old(self)@,
            final(self).ready(),
            final(self).listeners() == old(self).listeners().push(
                ListenerView {
                    subpath: subpath.deep_view(),
                    responds: crate::listener::telling_all(on_entries_update),
                    one_by_one: false,
                },
            ),
            final(self).told() == old(self).told().push(seq![]),
            final(self).calls() == old(self).calls().push(seq![]),
    {
        let silent = AllEntries { f: Recorded::new(on_entries_update), told: Ghost(Seq::empty()) };
        assert(<AllEntries<F> as EntryCallback<T>>::ready(&silent));
        let callback: Box<dyn EntryCallback<T>> = Box::new(silent);
        let listener = Listener::new(subpath, callback);
        assert(callback.ready());
        assert(crate::listener::listener_view(listener).responds =~= crate::listener::telling_all(
            on_entries_update,
        ));
        assert(callback.told() =~= Seq::empty());
        assert(callback.calls() =~= Seq::empty());
        assert(crate::listener::handed(false, callback.told()) =~= Seq::empty());
        self.register(listener);
    }

    /// Has `on_entries_update` told about all entries of each path below `subpath` at once. It
    /// answers whether they could be applied; if not, none of them is kept.
    ///
    /// For each path that the listener is told about, the function is called once.
    pub fn add_multi_listener_with_success<F: FnMut(Vec<String>, &[Entry], &T) -> bool + 'static>(
        &mut self,
        subpath: Vec<String>,
        on_entries_update: F,
    )
        requires
            old(self).ready(),
            forall|p: Vec<String>, e: &[Entry], x: &T| #[trigger]
                call_requires(on_entries_update, (p, e, x)),
        ensures
            final(self)@ == old(self)@,
            final(self).ready(),
            final(self).listeners() == old(self).listeners().push(
                ListenerView {
                    subpath: subpath.deep_view(),
                    responds: crate::listener::asking_all(on_entries_update),
                    one_by_one: false,
                },
            ),
            final(self).told() == old(self).told().push(seq![]),
            final(self).calls() == old(self).calls().push(seq![]),
    {
        let silent = AllEntriesWithSuccess { f: Recorded::new(on_entries_update), told: Ghost(Seq::empty()) };
        assert(<AllEntriesWithSuccess<F> as EntryCallback<T>>::ready(&silent));
        let callback: Box<dyn EntryCallback<T>> = Box::new(silent);
        let listener = Listener::new(subpath, callback);
        assert(callback.ready());
        assert(crate::listener::listener_view(listener).responds =~= crate::listener::asking_all(
            on_entries_update,
        ));
        assert(callback.told() =~= Seq::empty());
        assert(callback.calls() =~= Seq::empty());
        assert(crate::listener::handed(false, callback.told()) =~= Seq::empty());
        self.register(listener);
    }

    /// The writes that set one entry as of now, given the files of this app.
    ///
    /// The time is what the clock tells in this call.
    pub fn set_entry(&self, path: Vec<String>, key: Value, value: Value, files: &Files) -> (r: Vec<
        FileWrite,
    >)
        ensures
            exists|datetime: String|
                {
                    let entry = EntryView {
                        datetime: datetime@,
                        key: key.deep_view(),
                        value: value.deep_view(),
                    };
                    let one = seq![PathEntryView { path: path.deep_view(), entry }];
                    let own = crate::directory::app_dir(self@.dir, self@.own_app_id);
                    &&& #[trigger] call_ensures(current_date_time, (), datetime)
                    &&& crate::time::is_reading(datetime@)
                    &&& crate::time::is_timestamp(datetime@)
                    &&& crate::publish::sets(files@, own, one, r.deep_view())
                },
    {
        let datetime = current_date_time();
        let entry = EntryWithPath::new(path, datetime, key, value);
        let mut entries: Vec<EntryWithPath> = Vec::new();
        entries.push(entry);
        assert(entries.deep_view() =~= seq![entry.deep_view()]);
        self.set_entries(entries, files)
    }

    /// The writes that set entries, given the files of this app. Without entries there are none.
    pub fn set_entries(&self, entries_with_path: Vec<EntryWithPath>, files: &Files) -> (r: Vec<
        FileWrite,
    >)
        ensures
            crate::publish::sets(
                files@,
                crate::directory::app_dir(self@.dir, self@.own_app_id),
                entries_with_path.deep_view(),
                r.deep_view(),
            ),
    {
        set_entries(&self.own_v2_dir(), entries_with_path, files)
    }

    /// Takes over everything that other apps wrote since the last pull, and tells the listeners.
    pub fn execute_all_new_entries(&mut self, app_ids: &Vec<String>, files: &mut Files, extra: &T)
        requires
            old(self).ready(),
        ensures
            final(self)@ == old(self)@,
            final(self).ready(),
            final(self).listeners() == old(self).listeners(),
            exists|last: PullState| #[trigger]
                crate::pull::pulls(
                    old(self).listeners(),
                    old(self).told(),
                    old(self)@.dir,
                    old(self)@.own_app_id,
                    app_ids.deep_view(),
                    Some(extra),
                    old(files)@,
                    last,
                    final(files)@,
                ) && final(self).told() == last.told,
    {
        self.execute_all_new_entries_internal(app_ids, files, Some(extra));
    }

    /// Takes over everything that other apps wrote since the last pull. No listener is told.
    pub fn init_stored_entries(&mut self, app_ids: &Vec<String>, files: &mut Files)
        requires
            old(self).ready(),
        ensures
            final(self)@ == old(self)@,
            final(self).ready(),
            final(self).listeners() == old(self).listeners(),
            final(self).told() == old(self).told(),
            exists|last: PullState| #[trigger]
                crate::pull::pulls(
                    old(self).listeners(),
                    old(self).told(),
                    old(self)@.dir,
                    old(self)@.own_app_id,
                    app_ids.deep_view(),
                    None::<&T>,
                    old(files)@,
                    last,
                    final(files)@,
                ),
    {
        self.execute_all_new_entries_internal(app_ids, files, None);
        proof {
            let last = choose|last: PullState| #[trigger]
                crate::pull::pulls(
                    old(self).listeners(),
                    old(self).told(),
                    old(self)@.dir,
                    old(self)@.own_app_id,
                    app_ids.deep_view(),
                    None::<&T>,
                    old(files)@,
                    last,
                    files@,
                ) && self.told() == last.told;
            crate::pull_laws::a_silent_pull_tells_nobody(
                old(self).listeners(),
                old(self).told(),
                old(self)@.dir,
                old(self)@.own_app_id,
                app_ids.deep_view(),
                None::<&T>,
                old(files)@,
                last,
                files@,
            );
        }
    }

    fn execute_all_new_entries_internal(
        &mut self,
        app_ids: &Vec<String>,
        files: &mut Files,
        extra: Option<&T>,
    )
        requires
            old(self).ready(),
        ensures
            final(self)@ == old(self)@,
            final(self).ready(),
            final(self).listeners() == old(self).listeners(),
            exists|last: PullState| #[trigger]
                crate::pull::pulls(
                    old(self).listeners(),
                    old(self).told(),
                    old(self)@.dir,
                    old(self)@.own_app_id,
                    app_ids.deep_view(),
                    extra,
                    old(files)@,
                    last,
                    final(files)@,
                ) && final(self).told() == last.told,
    {
        pull_all(
            &mut self.listeners,
            &self.decsync_dir_path,
            &self.own_app_id,
            app_ids,
            files,
            extra,
        );
        proof {
            let last = choose|last: PullState| #[trigger]
                crate::pull::pulls(
                    crate::listener::views(old(self).listeners@),
                    crate::listener::told(old(self).listeners@),
                    self.decsync_dir_path.deep_view(),
                    self.own_app_id@,
                    app_ids.deep_view(),
                    extra,
                    old(files)@,
                    last,
                    files@,
                ) && crate::listener::told(self.listeners@) == last.told;
            assert(crate::pull::pulls(
                old(self).listeners(),
                old(self).told(),
                old(self)@.dir,
                old(self)@.own_app_id,
                app_ids.deep_view(),
                extra,
                old(files)@,
                last,
                files@,
            ));
        }
    }

    /// The files of an app that this app has to take over, given the text of the file with that
    /// app's sequence numbers. Of its own files there are none.
    pub fn unread_files(&self, pull: &Pull, app_id: &String, sequences: Option<&String>) -> (r: Vec<
        Unread,
    >)
        requires
            pull.well_formed(),
        ensures
            r.deep_view() == if app_id@ == self@.own_app_id {
                seq![]
            } else {
                crate::pull::unread_files(
                    pull@.local,
                    app_id@,
                    crate::sequences::sequences_in(crate::text::text_view(sequences)),
                )
            },
    {
        pull.unread_by(&self.own_app_id, app_id, sequences)
    }

    /// Takes over one file of another app, given its text and the text of the own file of the
    /// same name, and says what to write. A file that is not there is passed over.
    ///
    /// A pull of a directory on disk goes file by file with it, so that what has been taken over
    /// is on disk before the listeners hear of the next file.
    pub fn execute_new_file(
        &mut self,
        pull: &mut Pull,
        app_id: &String,
        unread: &Unread,
        app_text: Option<&String>,
        own_text: Option<&String>,
        extra: Option<&T>,
    ) -> (r: Option<FileWrite>)
        requires
            old(self).ready(),
            old(pull).well_formed(),
        ensures
            final(self)@ == old(self)@,
            final(self).ready(),
            final(self).listeners() == old(self).listeners(),
            final(self).told() == crate::pull::told_after_text(
                old(self).listeners(),
                old(self).told(),
                crate::text::text_view(app_text),
                crate::text::text_view(own_text),
                extra,
            ),
            final(pull).well_formed(),
            exists|kept: Seq<PathEntryView>, success: bool| #[trigger]
                crate::pull::takes_over(
                    old(self).listeners(),
                    crate::directory::app_dir(old(self)@.dir, old(self)@.own_app_id),
                    app_id@,
                    unread.deep_view(),
                    crate::text::text_view(app_text),
                    crate::text::text_view(own_text),
                    extra,
                    old(pull)@,
                    kept,
                    success,
                    r,
                    final(pull)@,
                ),
    {
        let own = self.own_v2_dir();
        pull_file(&mut self.listeners, &own, pull, app_id, unread, app_text, own_text, extra)
    }

    /// The apps among `app_ids` that have entries that this app has not pulled.
    pub fn pending_app_ids(&self, app_ids: &Vec<String>, files: &Files) -> (r: Vec<String>)
        ensures
            r.deep_view() == crate::notifier::pending(
                files@,
                self@.dir,
                self@.own_app_id,
                app_ids.deep_view(),
            ),
    {
        compute_pending_app_ids(&self.decsync_dir_path, &self.own_app_id, app_ids, files)
    }

    /// Tells the listeners about one stored entry, given the files of this app, and says whether
    /// it could be applied.
    pub fn execute_stored_entry(
        &mut self,
        path: Vec<String>,
        key: Value,
        extra: &T,
        files: &Files,
    ) -> (r: Result<bool, DecSyncError>)
        requires
            old(self).ready(),
        ensures
            final(self)@ == old(self)@,
            final(self).ready(),
            final(self).listeners() == old(self).listeners(),
            final(self).told() == crate::listener::told_after(
                old(self).listeners(),
                old(self).told(),
                crate::replay::stored_at(
                    files@,
                    crate::directory::app_dir(old(self)@.dir, old(self)@.own_app_id),
                    path.deep_view(),
                    Some(seq![key.deep_view()]),
                ),
            ),
            r matches Ok(success) && crate::replay::replays(
                old(self).listeners(),
                crate::replay::stored_at(
                    files@,
                    crate::directory::app_dir(old(self)@.dir, old(self)@.own_app_id),
                    path.deep_view(),
                    Some(seq![key.deep_view()]),
                ),
                extra,
                success,
            ),
    {
        let mut keys: Vec<Value> = Vec::new();
        keys.push(key);
        let slice = keys.as_slice();
        assert(slice.deep_view() =~= seq![key.deep_view()]);
        self.execute_stored_entries_for_path_exact(path, extra, Some(slice), files)
    }

    /// Tells the listeners about stored entries, path by path, given the files of this app, and
    /// says whether all could be applied.
    pub fn execute_stored_entries(
        &mut self,
        stored_entries: Vec<StoredEntry>,
        extra: &T,
        files: &Files,
    ) -> (r: Result<bool, DecSyncError>)
        requires
            old(self).ready(),
        ensures
            final(self)@ == old(self)@,
            final(self).ready(),
            final(self).listeners() == old(self).listeners(),
            final(self).told() == crate::replay::told_after_batches(
                old(self).listeners(),
                old(self).told(),
                crate::replay::batches_asked(
                    files@,
                    crate::directory::app_dir(old(self)@.dir, old(self)@.own_app_id),
                    stored_entries.deep_view(),
                ),
            ),
            r matches Ok(success) && crate::replay::replays_all(
                old(self).listeners(),
                crate::replay::batches_asked(
                    files@,
                    crate::directory::app_dir(old(self)@.dir, old(self)@.own_app_id),
                    stored_entries.deep_view(),
                ),
                extra,
                success,
            ),
    {
        let own = self.own_v2_dir();
        Ok(replay_stored(&mut self.listeners, &own, &stored_entries, extra, files))
    }

    /// Tells the listeners about the stored entries at `path`, given the files of this app, and
    /// says whether all could be applied. With `keys`, only about those keys.
    pub fn execute_stored_entries_for_path_exact(
        &mut self,
        path: Vec<String>,
        extra: &T,
        keys: Option<&[Value]>,
        files: &Files,
    ) -> (r: Result<bool, DecSyncError>)
        requires
            old(self).ready(),
        ensures
            final(self)@ == old(self)@,
            final(self).ready(),
            final(self).listeners() == old(self).listeners(),
            final(self).told() == crate::listener::told_after(
                old(self).listeners(),
                old(self).told(),
                crate::replay::stored_at(
                    files@,
                    crate::directory::app_dir(old(self)@.dir, old(self)@.own_app_id),
                    path.deep_view(),
                    crate::replay::keys_view(keys),
                ),
            ),
            r matches Ok(success) && crate::replay::replays(
                old(self).listeners(),
                crate::replay::stored_at(
                    files@,
                    crate::directory::app_dir(old(self)@.dir, old(self)@.own_app_id),
                    path.deep_view(),
                    crate::replay::keys_view(keys),
                ),
                extra,
                success,
            ),
    {
        let own = self.own_v2_dir();
        Ok(replay_path(&mut self.listeners, &own, &path, extra, keys, files))
    }

    /// Tells the listeners about the stored entries below `prefix`, given the files of this app,
    /// and says whether all could be applied. With `keys`, only about those keys.
    pub fn execute_stored_entries_for_path_prefix(
        &mut self,
        prefix: Vec<String>,
        extra: &T,
        keys: Option<&[Value]>,
        files: &Files,
    ) -> (r: Result<bool, DecSyncError>)
        requires
            old(self).ready(),
        ensures
            final(self)@ == old(self)@,
            final(self).ready(),
            final(self).listeners() == old(self).listeners(),
            final(self).told() == crate::replay::told_after_batches(
                old(self).listeners(),
                old(self).told(),
                crate::replay::batches_below(
                    files@,
                    crate::directory::app_dir(old(self)@.dir, old(self)@.own_app_id),
                    prefix.deep_view(),
                    crate::replay::keys_view(keys),
                ),
            ),
            r matches Ok(success) && crate::replay::replays_all(
                old(self).listeners(),
                crate::replay::batches_below(
                    files@,
                    crate::directory::app_dir(old(self)@.dir, old(self)@.own_app_id),
                    prefix.deep_view(),
                    crate::replay::keys_view(keys),
                ),
                extra,
                success,
            ),
    {
        let own = self.own_v2_dir();
        Ok(replay_prefix(&mut self.listeners, &own, &prefix, extra, keys, files))
    }
}

/// What a call of [`DecSyncInstance::set_entry`] sets is one entry, with the time that the clock
/// told in the call. The app then holds its value, if what it held before is older.
pub proof fn an_entry_is_set_as_of_now<T>(
    instance: DecSyncInstance<T>,
    path: Vec<String>,
    key: Value,
    value: Value,
    files: Files,
    writes: Vec<FileWrite>,
)
    requires
        call_ensures(
            DecSyncInstance::<T>::set_entry,
            (&instance, path, key, value, &files),
            writes,
        ),
        key.deep_view().readable(),
        value.deep_view().readable(),
    ensures
        exists|datetime: String|
            {
                let entry = EntryView {
                    datetime: datetime@,
                    key: key.deep_view(),
                    value: value.deep_view(),
                };
                let one = PathEntryView { path: path.deep_view(), entry };
                let own = crate::directory::app_dir(instance@.dir, instance@.own_app_id);
                let after = crate::file_utils::written(files@, writes.deep_view());
                &&& #[trigger] call_ensures(current_date_time, (), datetime)
                &&& crate::time::is_reading(datetime@)
                &&& crate::publish::sets(files@, own, seq![one], writes.deep_view())
                &&& match crate::set_laws::held_in_own(files@, own, one) {
                    Some(old) => crate::order::text_before(old.datetime, datetime@)
                        && !entry.value.same(old.value) ==> crate::set_laws::held_in_own(
                        after,
                        own,
                        one,
                    ) == Some(entry),
                    None => crate::set_laws::held_in_own(after, own, one) == Some(entry),
                }
            },
{
    let own = crate::directory::app_dir(instance@.dir, instance@.own_app_id);
    let datetime = choose|datetime: String|
        {
            let entry = EntryView {
                datetime: datetime@,
                key: key.deep_view(),
                value: value.deep_view(),
            };
            let one = seq![PathEntryView { path: path.deep_view(), entry }];
            &&& #[trigger] call_ensures(current_date_time, (), datetime)
            &&& crate::time::is_reading(datetime@)
            &&& crate::time::is_timestamp(datetime@)
            &&& crate::publish::sets(files@, own, one, writes.deep_view())
        };
    let entry = EntryView {
        datetime: datetime@,
        key: key.deep_view(),
        value: value.deep_view(),
    };
    let one = PathEntryView { path: path.deep_view(), entry };
    match crate::set_laws::held_in_own(files@, own, one) {
        Some(old) => {
            if crate::order::text_before(old.datetime, datetime@) {
                crate::set_laws::a_set_value_is_held(files@, own, one, writes.deep_view());
            }
        },
        None => {
            crate::set_laws::a_set_value_is_held(files@, own, one, writes.deep_view());
        },
    }
}

} // verus!
