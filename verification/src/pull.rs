//! Taking over what the other apps have written.

use vstd::prelude::*;

use crate::directory::child;
use crate::entry::PathEntryView;
use crate::file_utils::{FileWrite, Files};
use crate::listener::{ListenerView, Listeners, Told};
use crate::order::distinct_keys;
use crate::sequences::{
    read_local_sequences, read_sequences, write_local_sequences, LocalSequences,
};
use crate::store::{read_entries, update_entries};

verus! {

/// A file of another app that has changed since it was read.
pub struct Unread {
    /// The name of the file.
    pub hash: String,
    /// Its sequence number.
    pub sequence: i64,
}

/// What an [`Unread`] is.
pub struct UnreadView {
    pub hash: Seq<char>,
    pub sequence: i64,
}

impl DeepView for Unread {
    type V = UnreadView;

    open spec fn deep_view(&self) -> UnreadView {
        UnreadView { hash: self.hash@, sequence: self.sequence }
    }
}

/// The file has another sequence number than the one up to which it has been read.
pub open spec fn is_unread(
    local: Map<Seq<char>, Map<Seq<char>, i64>>,
    app_id: Seq<char>,
    sequences: Map<Seq<char>, i64>,
) -> spec_fn(Seq<char>) -> bool {
    |hash: Seq<char>| crate::sequences::read_up_to(local, app_id, hash) != sequences[hash]
}

/// The file with its sequence number.
pub open spec fn with_sequence(sequences: Map<Seq<char>, i64>) -> spec_fn(Seq<char>) -> UnreadView {
    |hash: Seq<char>| UnreadView { hash, sequence: sequences[hash] }
}

/// The files of an app that have changed since they were read, in ascending order.
pub open spec fn unread_files(
    local: Map<Seq<char>, Map<Seq<char>, i64>>,
    app_id: Seq<char>,
    sequences: Map<Seq<char>, i64>,
) -> Seq<UnreadView> {
    crate::sequences::ordered(sequences.dom()).filter(
        is_unread(local, app_id, sequences),
    ).map_values(with_sequence(sequences))
}

/// A pull in progress: the read state, and whether it has changed.
pub struct Pull {
    local: LocalSequences,
    updated: bool,
}

/// What a [`Pull`] is.
pub struct PullView {
    /// The sequence numbers up to which the files of the other apps have been read.
    pub local: Map<Seq<char>, Map<Seq<char>, i64>>,
    /// Whether they have changed.
    pub updated: bool,
}

impl View for Pull {
    type V = PullView;

    closed spec fn view(&self) -> PullView {
        PullView { local: self.local.deep_view(), updated: self.updated }
    }
}

impl Pull {
    /// The tables are in order.
    pub closed spec fn well_formed(&self) -> bool {
        crate::sequences::all_sorted(&self.local)
    }

    /// Starts a pull, given the text of the file with the read state.
    pub fn start(local: Option<&String>) -> (r: Pull)
        ensures
            r.well_formed(),
            r@ == (PullView {
                local: crate::sequences::local_in(crate::text::text_view(local)),
                updated: false,
            }),
    {
        Pull { local: read_local_sequences(local), updated: false }
    }

    /// The files of an app that have changed since they were read, given the text of the file
    /// with the app's sequence numbers.
    pub fn unread(&self, app_id: &String, sequences: Option<&String>) -> (r: Vec<Unread>)
        requires
            self.well_formed(),
        ensures
            r.deep_view() == unread_files(
                self@.local,
                app_id@,
                crate::sequences::sequences_in(crate::text::text_view(sequences)),
            ),
            r@.len() > 0 ==> crate::store::stored_entries(
                crate::text::text_view(sequences),
            ).len() == 0,
    {
        let sequences = read_sequences(sequences);
        let ghost map = sequences.deep_view();
        let ghost names = sequences.keys();
        let ghost unread = is_unread(self@.local, app_id@, map);
        proof {
            sequences.keys_are_ordered();
        }
        let mut r: Vec<Unread> = Vec::new();
        let mut i: usize = 0;
        proof {
            reveal(Seq::filter);
            assert(r.deep_view() =~= names.take(0).filter(unread).map_values(with_sequence(map)));
        }
        while i < sequences.len()
            invariant
                i <= names.len(),
                self.well_formed(),
                sequences.sorted(),
                names == sequences.keys(),
                map == sequences.deep_view(),
                unread == is_unread(self@.local, app_id@, map),
                r.deep_view() == names.take(i as int).filter(unread).map_values(with_sequence(map)),
            decreases names.len() - i,
        {
            proof {
                reveal(Seq::filter);
                assert(names.take(i + 1).drop_last() == names.take(i as int));
            }
            let ghost done = r.deep_view();
            let (hash, sequence) = sequences.at(i);
            if self.local.already_read(app_id, hash) != *sequence {
                r.push(Unread { hash: hash.clone(), sequence: *sequence });
                assert(r.deep_view() =~= done.push(with_sequence(map)(names[i as int])));
                assert(r.deep_view() =~= names.take(i + 1).filter(unread).map_values(
                    with_sequence(map),
                ));
            }
            i = i + 1;
        }
        assert(names.take(names.len() as int) == names);
        r
    }

    /// The files of an app that the app `own_app_id` has to take over: those that have changed
    /// since they were read, and of its own files none.
    pub fn unread_by(
        &self,
        own_app_id: &String,
        app_id: &String,
        sequences: Option<&String>,
    ) -> (r: Vec<Unread>)
        requires
            self.well_formed(),
        ensures
            r.deep_view() == if app_id@ == own_app_id@ {
                seq![]
            } else {
                unread_files(
                    self@.local,
                    app_id@,
                    crate::sequences::sequences_in(crate::text::text_view(sequences)),
                )
            },
            r@.len() > 0 ==> crate::store::stored_entries(
                crate::text::text_view(sequences),
            ).len() == 0,
    {
        if *app_id == *own_app_id {
            let r: Vec<Unread> = Vec::new();
            assert(r.deep_view() =~= seq![]);
            return r;
        }
        self.unread(app_id, sequences)
    }

    /// The write that records what has been read, if that changed.
    pub fn finish(&self, state_file: Vec<String>) -> (r: Option<FileWrite>)
        requires
            self.well_formed(),
        ensures
            match r {
                Some(write) => {
                    &&& self@.updated
                    &&& write.path == state_file
                    &&& write.text@ == crate::sequences::local_file_text(self@.local)
                    &&& crate::sequences::local_in(Some(write.text@)) == self@.local
                },
                None => !self@.updated,
            },
    {
        if self.updated {
            Some(FileWrite { path: state_file, text: write_local_sequences(&self.local) })
        } else {
            None
        }
    }
}

/// Where a pull stands.
#[verifier::ext_equal]
pub struct PullState {
    /// The files.
    pub files: Map<Seq<Seq<char>>, Seq<char>>,
    /// The sequence numbers up to which the files of the other apps have been read.
    pub local: Map<Seq<char>, Map<Seq<char>, i64>>,
    /// Whether they have changed.
    pub updated: bool,
    /// Whether everything so far could be applied.
    pub success: bool,
    /// The files that have been taken over with success, by app id and name.
    pub done: Set<(Seq<char>, Seq<char>)>,
    /// What each of the listeners has been told so far.
    pub told: Seq<Seq<Told>>,
}

/// The state of a pull after the file of an app has been taken over and `kept` of its entries
/// were kept.
pub open spec fn after_file<T>(
    listeners: Seq<ListenerView<T>>,
    dir: Seq<Seq<char>>,
    own_app_id: Seq<char>,
    app_id: Seq<char>,
    unread: UnreadView,
    extra: Option<&T>,
    before: PullState,
    kept: Seq<PathEntryView>,
    success: bool,
) -> PullState {
    let own = crate::directory::app_dir(dir, own_app_id);
    let app = crate::directory::app_dir(dir, app_id);
    let stored = crate::publish::file_entries(before.files, own, unread.hash);
    PullState {
        files: if kept.len() == 0 {
            before.files
        } else {
            before.files.insert(
                own.push(unread.hash),
                crate::store::entries_text(crate::store::merged(stored, kept)),
            )
        },
        local: if success {
            crate::sequences::acknowledged(before.local, app_id, unread.hash, unread.sequence)
        } else {
            before.local
        },
        updated: before.updated || success,
        success: before.success && success,
        done: if success {
            before.done.insert((app_id, unread.hash))
        } else {
            before.done
        },
        told: crate::store::told_after_update(
            listeners,
            before.told,
            stored,
            crate::publish::file_entries(before.files, app, unread.hash),
            false,
            extra,
        ),
    }
}

/// Taking over a file of an app may keep `kept` of its entries.
///
/// What is kept is merged into the own file of the same name, which then holds it.
pub open spec fn keeps<T>(
    listeners: Seq<ListenerView<T>>,
    dir: Seq<Seq<char>>,
    own_app_id: Seq<char>,
    app_id: Seq<char>,
    unread: UnreadView,
    extra: Option<&T>,
    before: PullState,
    kept: Seq<PathEntryView>,
    success: bool,
) -> bool {
    let own = crate::directory::app_dir(dir, own_app_id);
    let app = crate::directory::app_dir(dir, app_id);
    let stored = crate::publish::file_entries(before.files, own, unread.hash);
    let after = after_file(
        listeners,
        dir,
        own_app_id,
        app_id,
        unread,
        extra,
        before,
        kept,
        success,
    );
    &&& crate::store::taken(
        listeners,
        stored,
        crate::publish::file_entries(before.files, app, unread.hash),
        false,
        extra,
        kept,
        success,
    )
    &&& crate::publish::file_entries(after.files, own, unread.hash) == crate::store::renewed(
        stored,
        kept,
    )
}

/// Taking over a file of an app may lead from one state to another. A file that is not there is
/// passed over.
pub open spec fn pulls_file<T>(
    listeners: Seq<ListenerView<T>>,
    dir: Seq<Seq<char>>,
    own_app_id: Seq<char>,
    app_id: Seq<char>,
    unread: UnreadView,
    extra: Option<&T>,
    before: PullState,
    after: PullState,
) -> bool {
    if before.files.contains_key(crate::directory::app_file(dir, app_id, unread.hash)) {
        exists|kept: Seq<PathEntryView>, success: bool| #[trigger]
            keeps(
                listeners,
                dir,
                own_app_id,
                app_id,
                unread,
                extra,
                before,
                kept,
                success,
            ) && after == after_file(
        listeners,
        dir,
        own_app_id,
        app_id,
        unread,
        extra,
        before,
        kept,
        success,
    )
    } else {
        after == before
    }
}

/// Taking over some files of an app, in turn, may lead from one state to another.
pub open spec fn pulls_files<T>(
    listeners: Seq<ListenerView<T>>,
    dir: Seq<Seq<char>>,
    own_app_id: Seq<char>,
    app_id: Seq<char>,
    unread: Seq<UnreadView>,
    extra: Option<&T>,
    before: PullState,
    after: PullState,
) -> bool
    decreases unread.len(),
{
    if unread.len() == 0 {
        after == before
    } else {
        exists|between: PullState|
            pulls_files(
                listeners,
                dir,
                own_app_id,
                app_id,
                unread.drop_last(),
                extra,
                before,
                between,
            ) && #[trigger] pulls_file(
                listeners,
                dir,
                own_app_id,
                app_id,
                unread.last(),
                extra,
                between,
                after,
            )
    }
}

/// Taking over what some apps have written, in turn, may lead from one state to another. The own
/// files are passed over.
pub open spec fn pulls_apps<T>(
    listeners: Seq<ListenerView<T>>,
    dir: Seq<Seq<char>>,
    own_app_id: Seq<char>,
    app_ids: Seq<Seq<char>>,
    extra: Option<&T>,
    before: PullState,
    after: PullState,
) -> bool
    decreases app_ids.len(),
{
    if app_ids.len() == 0 {
        after == before
    } else {
        exists|between: PullState|
            pulls_apps(
                listeners,
                dir,
                own_app_id,
                app_ids.drop_last(),
                extra,
                before,
                between,
            ) && #[trigger] pulls_app(listeners, dir, own_app_id, app_ids.last(), extra, between, after)
    }
}

/// Taking over what an app has written may lead from one state to another. Where the app has
/// sequence numbers to be read, their file holds no entries.
pub open spec fn pulls_app<T>(
    listeners: Seq<ListenerView<T>>,
    dir: Seq<Seq<char>>,
    own_app_id: Seq<char>,
    app_id: Seq<char>,
    extra: Option<&T>,
    before: PullState,
    after: PullState,
) -> bool {
    if app_id == own_app_id {
        after == before
    } else {
        let app = crate::directory::app_dir(dir, app_id);
        let unread = unread_files(
            before.local,
            app_id,
            crate::publish::file_sequences(before.files, app),
        );
        &&& unread.len() > 0 ==> crate::publish::file_entries(
            before.files,
            app,
            "sequences"@,
        ).len() == 0
        &&& pulls_files(listeners, dir, own_app_id, app_id, unread, extra, before, after)
    }
}

/// The state in which a pull starts.
pub open spec fn pull_start(
    files: Map<Seq<Seq<char>>, Seq<char>>,
    dir: Seq<Seq<char>>,
    own_app_id: Seq<char>,
    told: Seq<Seq<Told>>,
) -> PullState {
    let state = crate::directory::state_file(dir, own_app_id);
    PullState {
        files,
        local: crate::sequences::local_in(crate::file_utils::text_of(files, state)),
        updated: false,
        success: true,
        done: Set::empty(),
        told,
    }
}

/// The files after a pull: what has been read is recorded, if that changed.
pub open spec fn pull_end(
    dir: Seq<Seq<char>>,
    own_app_id: Seq<char>,
    last: PullState,
) -> Map<Seq<Seq<char>>, Seq<char>> {
    if last.updated {
        last.files.insert(
            crate::directory::state_file(dir, own_app_id),
            crate::sequences::local_file_text(last.local),
        )
    } else {
        last.files
    }
}

/// A pull may lead through `last` from the files `before` to the files `after`, with listeners
/// that have been told `told` before. The apps come in ascending order of their ids, and what has
/// been recorded as read is read back.
pub open spec fn pulls<T>(
    listeners: Seq<ListenerView<T>>,
    told: Seq<Seq<Told>>,
    dir: Seq<Seq<char>>,
    own_app_id: Seq<char>,
    app_ids: Seq<Seq<char>>,
    extra: Option<&T>,
    before: Map<Seq<Seq<char>>, Seq<char>>,
    last: PullState,
    after: Map<Seq<Seq<char>>, Seq<char>>,
) -> bool {
    let state = crate::directory::state_file(dir, own_app_id);
    &&& pulls_apps(
        listeners,
        dir,
        own_app_id,
        crate::order::arrangement::<String>(app_ids),
        extra,
        pull_start(before, dir, own_app_id, told),
        last,
    )
    &&& after == pull_end(dir, own_app_id, last)
    &&& last.updated ==> crate::sequences::local_in(crate::file_utils::text_of(after, state))
        == last.local
}

/// Taking over a text of another app may keep `kept` of its entries, ask for `write`, and lead
/// the pull from one state to another. Where there is no text, nothing is done.
pub open spec fn takes_over<T>(
    listeners: Seq<ListenerView<T>>,
    own: Seq<Seq<char>>,
    app_id: Seq<char>,
    unread: UnreadView,
    app_text: Option<Seq<char>>,
    own_text: Option<Seq<char>>,
    extra: Option<&T>,
    before: PullView,
    kept: Seq<PathEntryView>,
    success: bool,
    write: Option<FileWrite>,
    after: PullView,
) -> bool {
    let stored = crate::store::stored_entries(own_text);
    let all = crate::store::merged(stored, kept);
    match app_text {
        Some(text) => {
            &&& crate::store::taken(
                listeners,
                stored,
                crate::store::stored_entries(Some(text)),
                false,
                extra,
                kept,
                success,
            )
            &&& match write {
                Some(write) => {
                    &&& kept.len() > 0
                    &&& write.path.deep_view() == own.push(unread.hash)
                    &&& write.text@ == crate::store::entries_text(all)
                    &&& crate::store::stored_entries(Some(write.text@)) == crate::store::latest(all)
                },
                None => kept.len() == 0,
            }
            &&& after == if success {
                PullView {
                    local: crate::sequences::acknowledged(
                        before.local,
                        app_id,
                        unread.hash,
                        unread.sequence,
                    ),
                    updated: true,
                }
            } else {
                before
            }
        },
        None => kept.len() == 0 && write is None && after == before,
    }
}

/// What the listeners have been told after a text of another app has been taken over.
pub open spec fn told_after_text<T>(
    listeners: Seq<ListenerView<T>>,
    told: Seq<Seq<Told>>,
    app_text: Option<Seq<char>>,
    own_text: Option<Seq<char>>,
    extra: Option<&T>,
) -> Seq<Seq<Told>> {
    match app_text {
        Some(text) => crate::store::told_after_update(
            listeners,
            told,
            crate::store::stored_entries(own_text),
            crate::store::stored_entries(Some(text)),
            false,
            extra,
        ),
        None => told,
    }
}

/// Taking over the texts of a file, and making the write that is asked for, is taking over the
/// file.
pub proof fn texts_taken_over_are_a_file_taken_over<T>(
    listeners: Seq<ListenerView<T>>,
    dir: Seq<Seq<char>>,
    own_app_id: Seq<char>,
    app_id: Seq<char>,
    unread: UnreadView,
    extra: Option<&T>,
    before: PullState,
    kept: Seq<PathEntryView>,
    success: bool,
    write: Option<FileWrite>,
    pull: PullView,
) -> (after: PullState)
    requires
        takes_over(
            listeners,
            crate::directory::app_dir(dir, own_app_id),
            app_id,
            unread,
            crate::file_utils::text_of(
                before.files,
                crate::directory::app_file(dir, app_id, unread.hash),
            ),
            crate::file_utils::text_of(
                before.files,
                crate::directory::app_file(dir, own_app_id, unread.hash),
            ),
            extra,
            (PullView { local: before.local, updated: before.updated }),
            kept,
            success,
            write,
            pull,
        ),
    ensures
        pulls_file(listeners, dir, own_app_id, app_id, unread, extra, before, after),
        after.files == match write {
            Some(write) => before.files.insert(write.path.deep_view(), write.text@),
            None => before.files,
        },
        pull == (PullView { local: after.local, updated: after.updated }),
        after.told == told_after_text(
            listeners,
            before.told,
            crate::file_utils::text_of(
                before.files,
                crate::directory::app_file(dir, app_id, unread.hash),
            ),
            crate::file_utils::text_of(
                before.files,
                crate::directory::app_file(dir, own_app_id, unread.hash),
            ),
            extra,
        ),
{
    if before.files.contains_key(crate::directory::app_file(dir, app_id, unread.hash)) {
        let after = after_file(
            listeners,
            dir,
            own_app_id,
            app_id,
            unread,
            extra,
            before,
            kept,
            success,
        );
        assert(keeps(
            listeners,
            dir,
            own_app_id,
            app_id,
            unread,
            extra,
            before,
            kept,
            success,
        ));
        after
    } else {
        before
    }
}

/// Takes over a file of another app, given its text and the text of the own file of the same
/// name in the directory `own`, and says what to write.
///
/// The file counts as read if the listeners could apply everything. A file that is not there is
/// passed over.
pub fn pull_file<T>(
    listeners: &mut Listeners<T>,
    own: &Vec<String>,
    pull: &mut Pull,
    app_id: &String,
    unread: &Unread,
    app_text: Option<&String>,
    own_text: Option<&String>,
    extra: Option<&T>,
) -> (r: Option<FileWrite>)
    requires
        crate::listener::all_ready(old(listeners)@),
        old(pull).well_formed(),
    ensures
        crate::listener::all_ready(final(listeners)@),
        crate::listener::in_step(old(listeners)@) ==> crate::listener::in_step(final(listeners)@),
        crate::listener::views(final(listeners)@) == crate::listener::views(old(listeners)@),
        crate::listener::told(final(listeners)@) == told_after_text(
            crate::listener::views(old(listeners)@),
            crate::listener::told(old(listeners)@),
            crate::text::text_view(app_text),
            crate::text::text_view(own_text),
            extra,
        ),
        final(pull).well_formed(),
        exists|kept: Seq<PathEntryView>, success: bool| #[trigger]
            takes_over(
                crate::listener::views(old(listeners)@),
                own.deep_view(),
                app_id@,
                unread.deep_view(),
                crate::text::text_view(app_text),
                crate::text::text_view(own_text),
                extra,
                old(pull)@,
                kept,
                success,
                r,
                final(pull)@,
            ),
{
    let ghost heard = crate::listener::views(listeners@);
    let ghost stored = crate::store::stored_entries(crate::text::text_view(own_text));
    if app_text.is_none() {
        assert(takes_over(
            heard,
            own.deep_view(),
            app_id@,
            unread.deep_view(),
            None,
            crate::text::text_view(own_text),
            extra,
            old(pull)@,
            seq![],
            true,
            None,
            pull@,
        ));
        return None;
    }
    let entries = read_entries(app_text);
    let ghost came = entries.deep_view();
    let outcome = update_entries(listeners, own_text, entries, false, extra);
    let ghost kept = outcome.entries.deep_view();
    let success = outcome.success;
    proof {
        assert forall|i: int| 0 <= i < kept.len() implies (
        #[trigger] kept[i]).entry.readable() by {
            assert(kept.contains(kept[i]));
            crate::store::taken_are_fresh(
                heard,
                stored,
                came,
                false,
                extra,
                kept,
                success,
                kept[i],
            );
            let j = choose|j: int| 0 <= j < came.len() && came[j] == kept[i];
            assert(came[j].entry.readable());
        }
    }
    if success {
        pull.local.acknowledge(app_id, &unread.hash, unread.sequence);
        pull.updated = true;
    }
    let r = match outcome.text {
        Some(text) => Some(FileWrite { path: child(own, unread.hash.as_str()), text }),
        None => None,
    };
    assert(takes_over(
        heard,
        own.deep_view(),
        app_id@,
        unread.deep_view(),
        crate::text::text_view(app_text),
        crate::text::text_view(own_text),
        extra,
        old(pull)@,
        kept,
        success,
        r,
        pull@,
    ));
    r
}

/// Takes over what the other apps among `all_ids` have written since the last pull.
pub fn pull_all<T>(
    listeners: &mut Listeners<T>,
    dir: &Vec<String>,
    own_app_id: &String,
    all_ids: &Vec<String>,
    files: &mut Files,
    extra: Option<&T>,
)
    requires
        crate::listener::all_ready(old(listeners)@),
    ensures
        crate::listener::all_ready(final(listeners)@),
        crate::listener::in_step(old(listeners)@) ==> crate::listener::in_step(final(listeners)@),
        crate::listener::views(final(listeners)@) == crate::listener::views(old(listeners)@),
        exists|last: PullState| #[trigger]
            pulls(
                crate::listener::views(old(listeners)@),
                crate::listener::told(old(listeners)@),
                dir.deep_view(),
                own_app_id@,
                all_ids.deep_view(),
                extra,
                old(files)@,
                last,
                final(files)@,
            ) && crate::listener::told(final(listeners)@) == last.told,
{
    let ghost heard = crate::listener::views(listeners@);
    let ghost told = crate::listener::told(listeners@);
    let ghost d = dir.deep_view();
    let ghost me = own_app_id@;
    let v2_dir = child(dir, "v2");
    let own = child(&v2_dir, own_app_id.as_str());
    let state_file = child(&child(&child(dir, "local"), own_app_id.as_str()), "sequences");
    let ghost first = pull_start(files@, d, me, told);
    let mut pull = Pull::start(files.read(&state_file));
    let app_ids = distinct_keys(all_ids);
    let ghost ids = app_ids.deep_view();
    let ghost mut now = first;
    let mut i: usize = 0;
    while i < app_ids.len()
        invariant
            i <= app_ids@.len(),
            heard == crate::listener::views(listeners@),
            now.told == crate::listener::told(listeners@),
            crate::listener::all_ready(listeners@),
            crate::listener::in_step(old(listeners)@) ==> crate::listener::in_step(listeners@),
            d == dir.deep_view(),
            me == own_app_id@,
            v2_dir.deep_view() == d.push("v2"@),
            own.deep_view() == crate::directory::app_dir(d, me),
            ids == app_ids.deep_view(),
            pull.well_formed(),
            now.files == files@,
            pull@ == (PullView { local: now.local, updated: now.updated }),
            pulls_apps(heard, d, me, ids.take(i as int), extra, first, now),
        decreases app_ids@.len() - i,
    {
        let ghost between = now;
        let app_id = &app_ids[i];
        proof {
            assert(ids.take(i + 1).drop_last() == ids.take(i as int));
            assert(ids.take(i + 1).last() == app_id@);
        }
        let app = child(&v2_dir, app_id.as_str());
        let unread = pull.unread_by(
            own_app_id,
            app_id,
            files.read(&child(&app, "sequences")),
        );
        let ghost views = unread.deep_view();
        let mut k: usize = 0;
        while k < unread.len()
            invariant
                k <= unread@.len(),
                heard == crate::listener::views(listeners@),
            now.told == crate::listener::told(listeners@),
                crate::listener::all_ready(listeners@),
                crate::listener::in_step(old(listeners)@) ==> crate::listener::in_step(listeners@),
                d == dir.deep_view(),
                me == own_app_id@,
                own.deep_view() == crate::directory::app_dir(d, me),
                app.deep_view() == crate::directory::app_dir(d, app_id@),
                views == unread.deep_view(),
                pull.well_formed(),
                now.files == files@,
                pull@ == (PullView { local: now.local, updated: now.updated }),
                pulls_files(
                    heard,
                    d,
                    me,
                    app_id@,
                    views.take(k as int),
                    extra,
                    between,
                    now,
                ),
            decreases unread@.len() - k,
        {
            let ghost before = now;
            let ghost one = views[k as int];
            proof {
                assert(one == unread@[k as int].deep_view());
                assert(views.take(k + 1).drop_last() == views.take(k as int));
            }
            let app_text = files.read(&child(&app, unread[k].hash.as_str()));
            let own_text = files.read(&child(&own, unread[k].hash.as_str()));
            let write = pull_file(
                listeners,
                &own,
                &mut pull,
                app_id,
                &unread[k],
                app_text,
                own_text,
                extra,
            );
            let ghost (kept, success) = choose|kept: Seq<PathEntryView>, success: bool| #[trigger]
                takes_over(
                    heard,
                    own.deep_view(),
                    app_id@,
                    one,
                    crate::text::text_view(app_text),
                    crate::text::text_view(own_text),
                    extra,
                    PullView { local: before.local, updated: before.updated },
                    kept,
                    success,
                    write,
                    pull@,
                );
            proof {
                now = texts_taken_over_are_a_file_taken_over(
                    heard,
                    d,
                    me,
                    app_id@,
                    one,
                    extra,
                    before,
                    kept,
                    success,
                    write,
                    pull@,
                );
                assert(views.take(k + 1).last() == one);
            }
            match write {
                Some(write) => {
                    files.write(write);
                },
                None => {},
            }
            k = k + 1;
        }
        assert(views.take(views.len() as int) == views);
        proof {
            assert(pulls_app(heard, d, me, app_id@, extra, between, now));
        }
        i = i + 1;
    }
    assert(ids.take(ids.len() as int) == ids);
    match pull.finish(state_file) {
        Some(write) => {
            files.write(write);
        },
        None => {},
    }
    assert(pulls(
        heard,
        told,
        d,
        me,
        all_ids.deep_view(),
        extra,
        old(files)@,
        now,
        files@,
    ));
}

/// The files of an app that are to be read are those with a sequence number that is not the one
/// that they have been read up to, each once, by name in ascending order.
pub proof fn files_are_unread_by_their_numbers(
    local: Map<Seq<char>, Map<Seq<char>, i64>>,
    app_id: Seq<char>,
    sequences: Map<Seq<char>, i64>,
    one: UnreadView,
    i: int,
    j: int,
)
    requires
        sequences.dom().finite(),
    ensures
        unread_files(local, app_id, sequences).contains(one) <==> sequences.contains_key(one.hash)
            && one.sequence == sequences[one.hash] && crate::sequences::read_up_to(
            local,
            app_id,
            one.hash,
        ) != one.sequence,
        0 <= i < j < unread_files(local, app_id, sequences).len() ==> crate::order::text_before(
            unread_files(local, app_id, sequences)[i].hash,
            unread_files(local, app_id, sequences)[j].hash,
        ),
{
    let names = crate::sequences::ordered(sequences.dom());
    let pred = is_unread(local, app_id, sequences);
    let some = names.filter(pred);
    let all = unread_files(local, app_id, sequences);
    crate::sequences::texts_can_be_ordered(sequences.dom());
    if all.contains(one) {
        let k = choose|k: int| 0 <= k < all.len() && all[k] == one;
        assert(some.contains(some[k]));
        names.lemma_filter_contains_rev(pred, some[k]);
        names.lemma_filter_pred(pred, k);
        assert(names.contains(one.hash));
    }
    if sequences.contains_key(one.hash) && one.sequence == sequences[one.hash]
        && crate::sequences::read_up_to(local, app_id, one.hash) != one.sequence {
        assert(names.contains(one.hash));
        let m = choose|m: int| 0 <= m < names.len() && names[m] == one.hash;
        names.lemma_filter_contains(pred, m);
        let k = choose|k: int| 0 <= k < some.len() && some[k] == one.hash;
        assert(all[k] == one);
    }
    if 0 <= i < j < all.len() {
        filtered_ascend(names, pred, i, j);
    }
}

/// Some of ascending texts ascend.
pub(crate) proof fn filtered_ascend(
    names: Seq<Seq<char>>,
    pred: spec_fn(Seq<char>) -> bool,
    i: int,
    j: int,
)
    requires
        crate::order::ascending::<String>(names),
        0 <= i < j < names.filter(pred).len(),
    ensures
        crate::order::text_before(names.filter(pred)[i], names.filter(pred)[j]),
    decreases names.len(),
{
    reveal(Seq::filter);
    let rest = names.drop_last();
    assert forall|a: int, b: int| 0 <= a < b < rest.len() implies #[trigger] <String as
        crate::order::Key>::before(rest[a], #[trigger] rest[b]) by {
        assert(<String as crate::order::Key>::before(names[a], names[b]));
    }
    let some = rest.filter(pred);
    if j < some.len() {
        filtered_ascend(rest, pred, i, j);
    } else {
        assert(some.contains(some[i]));
        rest.lemma_filter_contains_rev(pred, some[i]);
        let a = choose|a: int| 0 <= a < rest.len() && rest[a] == some[i];
        assert(<String as crate::order::Key>::before(names[a], names[names.len() - 1]));
    }
}

} // verus!
