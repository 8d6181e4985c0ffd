//! Listeners: who is told about entries, and what becomes of the entries.

use vstd::prelude::*;

use crate::calls::Recorded;
use crate::entry::{Entry, EntryView, EntryWithPath, PathEntryView};
use crate::groups::group_by_path;
use crate::hash::is_info_path;
use crate::json::{Value, ValueView};
use crate::order::{copy_path, path_starts_with};
use crate::text::starts_with;

verus! {

/// What a callback has been told: entries, at a path.
pub struct Told {
    pub path: Seq<Seq<char>>,
    pub entries: Seq<EntryView>,
}

/// What a listener does with the entries of one path.
pub trait EntryCallback<T> {
    /// The callback accepts every call.
    spec fn ready(&self) -> bool;

    /// Given these entries at this path, the callback may keep `kept` of them and report
    /// `success`.
    spec fn responds(
        &self,
        path: Seq<Seq<char>>,
        entries: Seq<EntryView>,
        extra: &T,
        kept: Seq<EntryView>,
        success: bool,
    ) -> bool;

    /// What the callback has been told so far.
    spec fn told(&self) -> Seq<Told>;

    /// The function behind the callback is handed the entries one by one, and not all at once.
    spec fn one_by_one(&self) -> bool;

    /// What the function behind the callback has been called with so far.
    spec fn calls(&self) -> Seq<Told>;

    /// Hands the entries to the callback, and leaves in `entries` those that it keeps.
    fn call(&mut self, path: Vec<String>, entries: &mut Vec<Entry>, extra: &T) -> (success: bool)
        requires
            old(self).ready(),
        ensures
            final(self).ready(),
            final(self).told() == old(self).told().push(
                Told { path: path.deep_view(), entries: old(entries).deep_view() },
            ),
            forall|
                p: Seq<Seq<char>>,
                e: Seq<EntryView>,
                x: &T,
                k: Seq<EntryView>,
                s: bool,
            |
                final(self).responds(p, e, x, k, s) == #[trigger] old(self).responds(p, e, x, k, s),
            final(self).one_by_one() == old(self).one_by_one(),
            old(self).one_by_one() ==> final(self).calls() == old(self).calls() + old(
                entries,
            ).deep_view().map_values(
                |e: EntryView| Told { path: path.deep_view(), entries: seq![e] },
            ),
            !old(self).one_by_one() ==> final(self).calls() == old(self).calls().push(
                Told { path: path.deep_view(), entries: old(entries).deep_view() },
            ),
            old(self).responds(
                path.deep_view(),
                old(entries).deep_view(),
                extra,
                final(entries).deep_view(),
                success,
            ),
            is_selection(old(entries).deep_view(), final(entries).deep_view()),
            success ==> final(entries).deep_view() == old(entries).deep_view(),
    ;
}

/// The function, told about one entry, may answer `answer`.
pub open spec fn answers_entry<T, R, F: FnMut(Vec<String>, Entry, &T) -> R>(
    f: F,
    path: Seq<Seq<char>>,
    entry: EntryView,
    extra: &T,
    answer: R,
) -> bool {
    exists|p: Vec<String>, e: Entry|
        p.deep_view() == path && e.deep_view() == entry && #[trigger] call_ensures(
            f,
            (p, e, extra),
            answer,
        )
}

/// The function, told about all entries at once, may answer `answer`.
pub open spec fn answers_entries<T, R, F: FnMut(Vec<String>, &[Entry], &T) -> R>(
    f: F,
    path: Seq<Seq<char>>,
    entries: Seq<EntryView>,
    extra: &T,
    answer: R,
) -> bool {
    exists|p: Vec<String>, e: &[Entry]|
        p.deep_view() == path && e.deep_view() == entries && #[trigger] call_ensures(
            f,
            (p, e, extra),
            answer,
        )
}

/// The entries for which the answer was yes.
pub open spec fn approved(entries: Seq<EntryView>, answers: Seq<bool>) -> Seq<EntryView>
    decreases entries.len(),
{
    if entries.len() == 0 {
        entries
    } else {
        let rest = approved(entries.drop_last(), answers.drop_last());
        if answers.last() {
            rest.push(entries.last())
        } else {
            rest
        }
    }
}

/// The kept entries are some of the entries, in their order.
pub open spec fn is_selection(entries: Seq<EntryView>, kept: Seq<EntryView>) -> bool {
    exists|answers: Seq<bool>|
        answers.len() == entries.len() && kept == #[trigger] approved(entries, answers)
}

/// All entries, and none of them, are selections.
proof fn all_or_none(entries: Seq<EntryView>)
    ensures
        is_selection(entries, entries),
        is_selection(entries, seq![]),
{
    let yes = Seq::new(entries.len(), |i: int| true);
    let no = Seq::new(entries.len(), |i: int| false);
    approved_is_all(entries, yes);
    approved_none(entries);
    assert(approved(entries, yes) == entries);
    assert(approved(entries, no) == Seq::<EntryView>::empty());
}

proof fn approved_none(entries: Seq<EntryView>)
    ensures
        approved(entries, Seq::new(entries.len(), |i: int| false)) == Seq::<EntryView>::empty(),
    decreases entries.len(),
{
    let no = Seq::new(entries.len(), |i: int| false);
    if entries.len() > 0 {
        approved_none(entries.drop_last());
        assert(no.drop_last() =~= Seq::new(entries.drop_last().len(), |i: int| false));
    } else {
        assert(approved(entries, no) =~= Seq::<EntryView>::empty());
    }
}

/// Every answer was yes.
pub open spec fn all_approved(answers: Seq<bool>) -> bool {
    forall|i: int| 0 <= i < answers.len() ==> answers[i]
}

/// Each entry is told to `f`, and all are kept.
pub open spec fn tells_each<T, F: FnMut(Vec<String>, Entry, &T)>(
    f: F,
    path: Seq<Seq<char>>,
    entries: Seq<EntryView>,
    extra: &T,
    kept: Seq<EntryView>,
    success: bool,
) -> bool {
    &&& kept == entries
    &&& success
    &&& forall|i: int|
        0 <= i < entries.len() ==> answers_entry(f, path, #[trigger] entries[i], extra, ())
}

/// Each entry is told to `f`, and those are kept for which it answers yes.
pub open spec fn asks_each<T, F: FnMut(Vec<String>, Entry, &T) -> bool>(
    f: F,
    path: Seq<Seq<char>>,
    entries: Seq<EntryView>,
    extra: &T,
    kept: Seq<EntryView>,
    success: bool,
) -> bool {
    exists|answers: Seq<bool>|
        {
            &&& answers.len() == entries.len()
            &&& forall|i: int|
                0 <= i < entries.len() ==> answers_entry(
                    f,
                    path,
                    #[trigger] entries[i],
                    extra,
                    answers[i],
                )
            &&& kept == #[trigger] approved(entries, answers)
            &&& success == all_approved(answers)
        }
}

/// The entries are told to `f` at once, and all are kept.
pub open spec fn tells_all<T, F: FnMut(Vec<String>, &[Entry], &T)>(
    f: F,
    path: Seq<Seq<char>>,
    entries: Seq<EntryView>,
    extra: &T,
    kept: Seq<EntryView>,
    success: bool,
) -> bool {
    kept == entries && success && answers_entries(f, path, entries, extra, ())
}

/// The entries are told to `f` at once, and they are kept if it answers yes.
pub open spec fn asks_all<T, F: FnMut(Vec<String>, &[Entry], &T) -> bool>(
    f: F,
    path: Seq<Seq<char>>,
    entries: Seq<EntryView>,
    extra: &T,
    kept: Seq<EntryView>,
    success: bool,
) -> bool {
    &&& answers_entries(f, path, entries, extra, success)
    &&& kept == if success {
        entries
    } else {
        seq![]
    }
}

/// A function that is told about each entry.
pub struct EachEntry<F> {
    /// The function, with a record of its calls.
    pub f: Recorded<F, Seq<Seq<char>>, EntryView>,
    /// What it has been told so far.
    pub told: Ghost<Seq<Told>>,
}

/// A function that is told about each entry and says whether it could apply it.
pub struct EachEntryWithSuccess<F> {
    /// The function, with a record of its calls.
    pub f: Recorded<F, Seq<Seq<char>>, EntryView>,
    /// What it has been told so far.
    pub told: Ghost<Seq<Told>>,
}

/// A function that is told about all entries of a path at once.
pub struct AllEntries<F> {
    /// The function, with a record of its calls.
    pub f: Recorded<F, Seq<Seq<char>>, Seq<EntryView>>,
    /// What it has been told so far.
    pub told: Ghost<Seq<Told>>,
}

/// A function that is told about all entries of a path at once and says whether it could apply
/// them.
pub struct AllEntriesWithSuccess<F> {
    /// The function, with a record of its calls.
    pub f: Recorded<F, Seq<Seq<char>>, Seq<EntryView>>,
    /// What it has been told so far.
    pub told: Ghost<Seq<Told>>,
}

impl<T, F: FnMut(Vec<String>, Entry, &T)> EntryCallback<T> for EachEntry<F> {
    open spec fn ready(&self) -> bool {
        forall|p: Vec<String>, e: Entry, x: &T| #[trigger] call_requires(self.f.function(), (p, e, x))
    }

    open spec fn responds(
        &self,
        path: Seq<Seq<char>>,
        entries: Seq<EntryView>,
        extra: &T,
        kept: Seq<EntryView>,
        success: bool,
    ) -> bool {
        tells_each(self.f.function(), path, entries, extra, kept, success)
    }

    open spec fn told(&self) -> Seq<Told> {
        self.told@
    }

    open spec fn one_by_one(&self) -> bool {
        true
    }

    open spec fn calls(&self) -> Seq<Told> {
        self.f.calls().map_values(
            |call: (Seq<Seq<char>>, EntryView)| Told { path: call.0, entries: seq![call.1] },
        )
    }

    fn call(&mut self, path: Vec<String>, entries: &mut Vec<Entry>, extra: &T) -> (success: bool) {
        self.told = Ghost(
            self.told@.push(Told { path: path.deep_view(), entries: entries.deep_view() }),
        );
        let ghost told = self.told@;
        let ghost all = entries.deep_view();
        let mut i: usize = 0;
        while i < entries.len()
            invariant
                i <= entries@.len(),
                self.f.function() == old(self).f.function(),
                self.told@ == told,
                EntryCallback::<T>::calls(self) == EntryCallback::<T>::calls(old(self)) + all.take(
                    i as int,
                ).map_values(|e: EntryView| Told { path: path.deep_view(), entries: seq![e] }),
                self.ready(),
                all == entries.deep_view(),
                forall|j: int|
                    0 <= j < i ==> answers_entry(
                        self.f.function(),
                        path.deep_view(),
                        #[trigger] all[j],
                        extra,
                        (),
                    ),
            decreases entries@.len() - i,
        {
            let p = copy_path(&path);
            let e = entries[i].clone();
            let ghost so_far = EntryCallback::<T>::calls(self);
            self.f.call::<Vec<String>, Entry, &T, ()>(p, e, extra);
            assert(answers_entry(self.f.function(), path.deep_view(), all[i as int], extra, ()));
            assert(EntryCallback::<T>::calls(self) =~= so_far.push(
                Told { path: path.deep_view(), entries: seq![all[i as int]] },
            ));
            assert(all.take(i + 1) == all.take(i as int).push(all[i as int]));
            assert(EntryCallback::<T>::calls(self) =~= EntryCallback::<T>::calls(old(self))
                + all.take(i + 1).map_values(
                |e: EntryView| Told { path: path.deep_view(), entries: seq![e] },
            ));
            i = i + 1;
        }
        assert(all.take(all.len() as int) == all);
        proof {
            all_or_none(all);
        }
        true
    }
}

impl<T, F: FnMut(Vec<String>, Entry, &T) -> bool> EntryCallback<T> for EachEntryWithSuccess<F> {
    open spec fn ready(&self) -> bool {
        forall|p: Vec<String>, e: Entry, x: &T| #[trigger] call_requires(self.f.function(), (p, e, x))
    }

    open spec fn responds(
        &self,
        path: Seq<Seq<char>>,
        entries: Seq<EntryView>,
        extra: &T,
        kept: Seq<EntryView>,
        success: bool,
    ) -> bool {
        asks_each(self.f.function(), path, entries, extra, kept, success)
    }

    open spec fn told(&self) -> Seq<Told> {
        self.told@
    }

    open spec fn one_by_one(&self) -> bool {
        true
    }

    open spec fn calls(&self) -> Seq<Told> {
        self.f.calls().map_values(
            |call: (Seq<Seq<char>>, EntryView)| Told { path: call.0, entries: seq![call.1] },
        )
    }

    fn call(&mut self, path: Vec<String>, entries: &mut Vec<Entry>, extra: &T) -> (success: bool) {
        self.told = Ghost(
            self.told@.push(Told { path: path.deep_view(), entries: entries.deep_view() }),
        );
        let ghost told = self.told@;
        let ghost all = entries.deep_view();
        let ghost mut answers: Seq<bool> = seq![];
        let mut all_success: bool = true;
        let mut survivors: Vec<Entry> = Vec::new();
        let mut i: usize = 0;
        assert(survivors.deep_view() =~= approved(all.take(0), answers));
        while i < entries.len()
            invariant
                i <= entries@.len(),
                self.f.function() == old(self).f.function(),
                self.told@ == told,
                EntryCallback::<T>::calls(self) == EntryCallback::<T>::calls(old(self)) + all.take(
                    i as int,
                ).map_values(|e: EntryView| Told { path: path.deep_view(), entries: seq![e] }),
                self.ready(),
                all == entries.deep_view(),
                answers.len() == i,
                forall|j: int|
                    0 <= j < i ==> answers_entry(
                        self.f.function(),
                        path.deep_view(),
                        #[trigger] all[j],
                        extra,
                        answers[j],
                    ),
                survivors.deep_view() == approved(all.take(i as int), answers),
                all_success == all_approved(answers),
            decreases entries@.len() - i,
        {
            let ghost kept = survivors.deep_view();
            let p = copy_path(&path);
            let e = entries[i].clone();
            let ghost so_far = EntryCallback::<T>::calls(self);
            let success = self.f.call::<Vec<String>, Entry, &T, bool>(p, e, extra);
            assert(answers_entry(
                self.f.function(),
                path.deep_view(),
                all[i as int],
                extra,
                success,
            ));
            assert(EntryCallback::<T>::calls(self) =~= so_far.push(
                Told { path: path.deep_view(), entries: seq![all[i as int]] },
            ));
            assert(all.take(i + 1) == all.take(i as int).push(all[i as int]));
            assert(EntryCallback::<T>::calls(self) =~= EntryCallback::<T>::calls(old(self))
                + all.take(i + 1).map_values(
                |e: EntryView| Told { path: path.deep_view(), entries: seq![e] },
            ));
            let ghost before = answers;
            proof {
                answers = answers.push(success);
                assert(answers.drop_last() == before);
                assert(all.take(i + 1).drop_last() == all.take(i as int));
                assert(answers[i as int] == success);
                assert forall|j: int| 0 <= j < i implies answers[j] == before[j] by {}
            }
            all_success = all_success && success;
            if success {
                survivors.push(entries[i].clone());
                assert(survivors.deep_view() =~= kept.push(all[i as int]));
            }
            i = i + 1;
        }
        assert(all.take(all.len() as int) == all);
        proof {
            approved_is_all(all, answers);
        }
        *entries = survivors;
        all_success
    }
}

impl<T, F: FnMut(Vec<String>, &[Entry], &T)> EntryCallback<T> for AllEntries<F> {
    open spec fn ready(&self) -> bool {
        forall|p: Vec<String>, e: &[Entry], x: &T| #[trigger] call_requires(self.f.function(), (p, e, x))
    }

    open spec fn responds(
        &self,
        path: Seq<Seq<char>>,
        entries: Seq<EntryView>,
        extra: &T,
        kept: Seq<EntryView>,
        success: bool,
    ) -> bool {
        tells_all(self.f.function(), path, entries, extra, kept, success)
    }

    open spec fn told(&self) -> Seq<Told> {
        self.told@
    }

    open spec fn one_by_one(&self) -> bool {
        false
    }

    open spec fn calls(&self) -> Seq<Told> {
        self.f.calls().map_values(
            |call: (Seq<Seq<char>>, Seq<EntryView>)| Told { path: call.0, entries: call.1 },
        )
    }

    fn call(&mut self, path: Vec<String>, entries: &mut Vec<Entry>, extra: &T) -> (success: bool) {
        self.told = Ghost(
            self.told@.push(Told { path: path.deep_view(), entries: entries.deep_view() }),
        );
        let e = entries.as_slice();
        assert(e.deep_view() =~= entries.deep_view());
        self.f.call::<Vec<String>, &[Entry], &T, ()>(path, e, extra);
        assert(EntryCallback::<T>::calls(self) =~= EntryCallback::<T>::calls(old(self)).push(
            Told { path: path.deep_view(), entries: entries.deep_view() },
        ));
        proof {
            all_or_none(entries.deep_view());
        }
        true
    }
}

impl<T, F: FnMut(Vec<String>, &[Entry], &T) -> bool> EntryCallback<T> for AllEntriesWithSuccess<F> {
    open spec fn ready(&self) -> bool {
        forall|p: Vec<String>, e: &[Entry], x: &T| #[trigger] call_requires(self.f.function(), (p, e, x))
    }

    open spec fn responds(
        &self,
        path: Seq<Seq<char>>,
        entries: Seq<EntryView>,
        extra: &T,
        kept: Seq<EntryView>,
        success: bool,
    ) -> bool {
        asks_all(self.f.function(), path, entries, extra, kept, success)
    }

    open spec fn told(&self) -> Seq<Told> {
        self.told@
    }

    open spec fn one_by_one(&self) -> bool {
        false
    }

    open spec fn calls(&self) -> Seq<Told> {
        self.f.calls().map_values(
            |call: (Seq<Seq<char>>, Seq<EntryView>)| Told { path: call.0, entries: call.1 },
        )
    }

    fn call(&mut self, path: Vec<String>, entries: &mut Vec<Entry>, extra: &T) -> (success: bool) {
        self.told = Ghost(
            self.told@.push(Told { path: path.deep_view(), entries: entries.deep_view() }),
        );
        let e = entries.as_slice();
        assert(e.deep_view() =~= entries.deep_view());
        let success = self.f.call::<Vec<String>, &[Entry], &T, bool>(path, e, extra);
        assert(EntryCallback::<T>::calls(self) =~= EntryCallback::<T>::calls(old(self)).push(
            Told { path: path.deep_view(), entries: entries.deep_view() },
        ));
        proof {
            all_or_none(entries.deep_view());
        }
        if !success {
            entries.clear();
            assert(entries.deep_view() =~= seq![]);
        }
        success
    }
}

/// The calls of [`EachEntry`] are those that are on record for its function.
pub proof fn calls_of_each_entry_are_on_record<T, F: FnMut(Vec<String>, Entry, &T)>(callback: EachEntry<F>)
    ensures
        EntryCallback::<T>::one_by_one(&callback) == true,
        EntryCallback::<T>::calls(&callback).len() == callback.f.calls().len(),
        forall|k: int|
            0 <= k < callback.f.calls().len() ==> (#[trigger] EntryCallback::<T>::calls(
                &callback,
            )[k]).path == callback.f.calls()[k].0 && EntryCallback::<T>::calls(&callback)[k].entries
                == seq![callback.f.calls()[k].1],
{
}

/// The calls of [`EachEntryWithSuccess`] are those that are on record for its function.
pub proof fn calls_of_each_entry_with_success_are_on_record<T, F: FnMut(Vec<String>, Entry, &T) -> bool>(callback: EachEntryWithSuccess<F>)
    ensures
        EntryCallback::<T>::one_by_one(&callback) == true,
        EntryCallback::<T>::calls(&callback).len() == callback.f.calls().len(),
        forall|k: int|
            0 <= k < callback.f.calls().len() ==> (#[trigger] EntryCallback::<T>::calls(
                &callback,
            )[k]).path == callback.f.calls()[k].0 && EntryCallback::<T>::calls(&callback)[k].entries
                == seq![callback.f.calls()[k].1],
{
}

/// The calls of [`AllEntries`] are those that are on record for its function.
pub proof fn calls_of_all_entries_are_on_record<T, F: FnMut(Vec<String>, &[Entry], &T)>(callback: AllEntries<F>)
    ensures
        EntryCallback::<T>::one_by_one(&callback) == false,
        EntryCallback::<T>::calls(&callback).len() == callback.f.calls().len(),
        forall|k: int|
            0 <= k < callback.f.calls().len() ==> (#[trigger] EntryCallback::<T>::calls(
                &callback,
            )[k]).path == callback.f.calls()[k].0 && EntryCallback::<T>::calls(&callback)[k].entries
                == callback.f.calls()[k].1,
{
}

/// The calls of [`AllEntriesWithSuccess`] are those that are on record for its function.
pub proof fn calls_of_all_entries_with_success_are_on_record<T, F: FnMut(Vec<String>, &[Entry], &T) -> bool>(callback: AllEntriesWithSuccess<F>)
    ensures
        EntryCallback::<T>::one_by_one(&callback) == false,
        EntryCallback::<T>::calls(&callback).len() == callback.f.calls().len(),
        forall|k: int|
            0 <= k < callback.f.calls().len() ==> (#[trigger] EntryCallback::<T>::calls(
                &callback,
            )[k]).path == callback.f.calls()[k].0 && EntryCallback::<T>::calls(&callback)[k].entries
                == callback.f.calls()[k].1,
{
}

/// A callback and the path below which it is told about entries.
pub struct Listener<C> {
    /// The path.
    pub subpath: Vec<String>,
    /// The callback.
    pub callback: C,
}

impl<C> Listener<C> {
    /// Puts the two together.
    pub fn new(subpath: Vec<String>, callback: C) -> (r: Listener<C>)
        ensures
            r.subpath == subpath,
            r.callback == callback,
    {
        Listener { subpath, callback }
    }
}

/// The listeners of an instance, in the order of their registration.
pub type Listeners<T> = Vec<Listener<Box<dyn EntryCallback<T>>>>;

/// What a listener is, but for what it has been told.
#[verifier::ext_equal]
#[verifier::reject_recursive_types(T)]
pub struct ListenerView<T> {
    /// The path below which it is told about entries.
    pub subpath: Seq<Seq<char>>,
    /// Given a path, entries and an extra, it may keep some entries and report success or not.
    pub responds: spec_fn(Seq<Seq<char>>, Seq<EntryView>, T, Seq<EntryView>, bool) -> bool,
    /// Its function is handed the entries one by one, and not all at once.
    pub one_by_one: bool,
}

/// What a listener is, but for what it has been told.
pub open spec fn listener_view<T>(listener: Listener<Box<dyn EntryCallback<T>>>) -> ListenerView<
    T,
> {
    ListenerView {
        subpath: listener.subpath.deep_view(),
        responds: |
            path: Seq<Seq<char>>,
            entries: Seq<EntryView>,
            extra: T,
            kept: Seq<EntryView>,
            success: bool,
        | listener.callback.responds(path, entries, &extra, kept, success),
        one_by_one: listener.callback.one_by_one(),
    }
}

/// How a listener responds that hands each entry to `f`.
pub open spec fn telling_each<T, F: FnMut(Vec<String>, Entry, &T)>(f: F) -> spec_fn(
    Seq<Seq<char>>,
    Seq<EntryView>,
    T,
    Seq<EntryView>,
    bool,
) -> bool {
    |path: Seq<Seq<char>>, entries: Seq<EntryView>, extra: T, kept: Seq<EntryView>, success: bool|
        tells_each(f, path, entries, &extra, kept, success)
}

/// How a listener responds that hands each entry to `f` and keeps those that it approves of.
pub open spec fn asking_each<T, F: FnMut(Vec<String>, Entry, &T) -> bool>(f: F) -> spec_fn(
    Seq<Seq<char>>,
    Seq<EntryView>,
    T,
    Seq<EntryView>,
    bool,
) -> bool {
    |path: Seq<Seq<char>>, entries: Seq<EntryView>, extra: T, kept: Seq<EntryView>, success: bool|
        asks_each(f, path, entries, &extra, kept, success)
}

/// How a listener responds that hands all entries to `f`.
pub open spec fn telling_all<T, F: FnMut(Vec<String>, &[Entry], &T)>(f: F) -> spec_fn(
    Seq<Seq<char>>,
    Seq<EntryView>,
    T,
    Seq<EntryView>,
    bool,
) -> bool {
    |path: Seq<Seq<char>>, entries: Seq<EntryView>, extra: T, kept: Seq<EntryView>, success: bool|
        tells_all(f, path, entries, &extra, kept, success)
}

/// How a listener responds that hands all entries to `f` and keeps them if it approves.
pub open spec fn asking_all<T, F: FnMut(Vec<String>, &[Entry], &T) -> bool>(f: F) -> spec_fn(
    Seq<Seq<char>>,
    Seq<EntryView>,
    T,
    Seq<EntryView>,
    bool,
) -> bool {
    |path: Seq<Seq<char>>, entries: Seq<EntryView>, extra: T, kept: Seq<EntryView>, success: bool|
        asks_all(f, path, entries, &extra, kept, success)
}

/// What the listeners are, but for what they have been told.
pub open spec fn views<T>(listeners: Seq<Listener<Box<dyn EntryCallback<T>>>>) -> Seq<
    ListenerView<T>,
> {
    listeners.map_values(
        |listener: Listener<Box<dyn EntryCallback<T>>>| listener_view(listener),
    )
}

/// What each of the listeners has been told so far.
pub open spec fn told<T>(listeners: Seq<Listener<Box<dyn EntryCallback<T>>>>) -> Seq<Seq<Told>> {
    listeners.map_values(|listener: Listener<Box<dyn EntryCallback<T>>>| listener.callback.told())
}

/// What the function of each of the listeners has been called with so far.
pub open spec fn calls<T>(listeners: Seq<Listener<Box<dyn EntryCallback<T>>>>) -> Seq<Seq<Told>> {
    listeners.map_values(|listener: Listener<Box<dyn EntryCallback<T>>>| listener.callback.calls())
}

/// What a function is called with where a listener is told `told`: one entry after the other, or
/// all entries of each path at once.
pub open spec fn handed(one_by_one: bool, told: Seq<Told>) -> Seq<Told> {
    if one_by_one {
        told.map_values(
            |one: Told|
                one.entries.map_values(|e: EntryView| Told { path: one.path, entries: seq![e] }),
        ).flatten()
    } else {
        told
    }
}

/// What the functions of the listeners have been called with is what the listeners have been told.
pub open spec fn in_step<T>(listeners: Seq<Listener<Box<dyn EntryCallback<T>>>>) -> bool {
    forall|i: int|
        0 <= i < listeners.len() ==> (#[trigger] listeners[i]).callback.calls() == handed(
            listeners[i].callback.one_by_one(),
            listeners[i].callback.told(),
        )
}

/// One telling more is one batch of calls more.
proof fn handed_once_more(told: Seq<Told>, one: Told)
    ensures
        handed(true, told.push(one)) == handed(true, told) + one.entries.map_values(
            |e: EntryView| Told { path: one.path, entries: seq![e] },
        ),
{
    let each = |one: Told|
        one.entries.map_values(|e: EntryView| Told { path: one.path, entries: seq![e] });
    assert(told.push(one).map_values(each) =~= told.map_values(each).push(each(one)));
    told.map_values(each).lemma_flatten_push(each(one));
}

/// Every callback accepts every call.
pub open spec fn all_ready<T>(listeners: Seq<Listener<Box<dyn EntryCallback<T>>>>) -> bool {
    forall|i: int| 0 <= i < listeners.len() ==> (#[trigger] listeners[i]).callback.ready()
}

/// The listener is told about entries at `path`.
pub open spec fn listens<T>(
    listeners: Seq<ListenerView<T>>,
    i: int,
    path: Seq<Seq<char>>,
) -> bool {
    listeners[i].subpath.is_prefix_of(path)
}

/// The first listener that is told about entries at `path` is the one at position `i`.
pub open spec fn listens_first<T>(
    listeners: Seq<ListenerView<T>>,
    i: int,
    path: Seq<Seq<char>>,
) -> bool {
    &&& 0 <= i < listeners.len()
    &&& listens(listeners, i, path)
    &&& forall|j: int| 0 <= j < i ==> !#[trigger] listens(listeners, j, path)
}

/// No listener is told about entries at `path`.
pub open spec fn nobody_listens<T>(
    listeners: Seq<ListenerView<T>>,
    path: Seq<Seq<char>>,
) -> bool {
    forall|i: int| 0 <= i < listeners.len() ==> !#[trigger] listens(listeners, i, path)
}

/// Entries by which the apps keep track of each other; no listener is told about them.
pub open spec fn is_maintenance(path: Seq<Seq<char>>, key: ValueView) -> bool {
    &&& path == crate::hash::info_path()
    &&& key matches ValueView::Text(text)
    &&& "last-active-"@.is_prefix_of(text) || "supported-version-"@.is_prefix_of(text)
}

/// The entries by which the apps keep track of each other are those at the path `["info"]` with a
/// text for a key that begins with `last-active-` or `supported-version-`, and no others.
pub proof fn maintenance_entries_are_told_by_their_keys(path: Seq<Seq<char>>, key: ValueView)
    ensures
        is_maintenance(path, key) <==> path.len() == 1 && path[0] == "info"@ && match key {
            ValueView::Text(text) => (text.len() >= 12 && text.take(12) == "last-active-"@) || (
            text.len() >= 18 && text.take(18) == "supported-version-"@),
            _ => false,
        },
{
    reveal_strlit("last-active-");
    reveal_strlit("supported-version-");
    assert("last-active-"@.len() == 12);
    assert("supported-version-"@.len() == 18);
    if path.len() == 1 && path[0] == "info"@ {
        assert(path =~= crate::hash::info_path());
    } else {
        assert(crate::hash::info_path().len() == 1 && crate::hash::info_path()[0] == "info"@);
    }
}

/// The listener that is told about a path is the first one whose subpath the path begins with.
pub proof fn the_first_fitting_listener_listens<T>(
    listeners: Seq<ListenerView<T>>,
    i: int,
    path: Seq<Seq<char>>,
)
    ensures
        listens_first(listeners, i, path) <==> {
            &&& 0 <= i < listeners.len()
            &&& listeners[i].subpath.len() <= path.len()
            &&& path.take(listeners[i].subpath.len() as int) == listeners[i].subpath
            &&& forall|j: int|
                0 <= j < i ==> (#[trigger] listeners[j]).subpath.len() > path.len() || path.take(
                    listeners[j].subpath.len() as int,
                ) != listeners[j].subpath
        },
{
    assert forall|j: int| 0 <= j < listeners.len() implies #[trigger] listens(listeners, j, path)
        == (listeners[j].subpath.len() <= path.len() && path.take(listeners[j].subpath.len() as int)
        == listeners[j].subpath) by {}
    if 0 <= i < listeners.len() && listens(listeners, i, path) {
        if listens_first(listeners, i, path) {
            assert forall|j: int| 0 <= j < i implies (#[trigger] listeners[j]).subpath.len()
                > path.len() || path.take(listeners[j].subpath.len() as int)
                != listeners[j].subpath by {
                assert(!listens(listeners, j, path));
            }
        } else {
            let j = choose|j: int| 0 <= j < i && #[trigger] listens(listeners, j, path);
            assert(listeners[j].subpath.len() <= path.len());
        }
    }
}

/// The entry at `path` is one that listeners are told about.
pub open spec fn is_news(path: Seq<Seq<char>>) -> spec_fn(EntryView) -> bool {
    |entry: EntryView| !is_maintenance(path, entry.key)
}

/// What became of the entries of one path.
pub struct Reply {
    /// The entries that were kept.
    pub kept: Seq<EntryView>,
    /// Whether all could be applied.
    pub success: bool,
}

/// What may become of entries at `path`.
///
/// Maintenance entries are dropped. The first listener whose subpath the path begins with is
/// told about the others, if there are any, with the path below its subpath, and keeps some of
/// them, or all if it succeeds; where there is none they are kept.
pub open spec fn replies<T>(
    listeners: Seq<ListenerView<T>>,
    path: Seq<Seq<char>>,
    entries: Seq<EntryView>,
    extra: &T,
    reply: Reply,
) -> bool {
    let news = entries.filter(is_news(path));
    if news.len() == 0 || nobody_listens(listeners, path) {
        reply.kept == news && reply.success
    } else {
        &&& is_selection(news, reply.kept)
        &&& reply.success ==> reply.kept == news
        &&& exists|i: int| #[trigger]
            listens_first(listeners, i, path) && (listeners[i].responds)(
                path.skip(listeners[i].subpath.len() as int),
                news,
                *extra,
                reply.kept,
                reply.success,
            )
    }
}

/// What the listeners have been told after the entries at `path`: the first one whose subpath the
/// path begins with has been told about the entries that are no maintenance entries, if there are
/// any, with the path below its subpath, and nobody else about anything.
pub open spec fn told_after_path<T>(
    listeners: Seq<ListenerView<T>>,
    told: Seq<Seq<Told>>,
    path: Seq<Seq<char>>,
    entries: Seq<EntryView>,
) -> Seq<Seq<Told>> {
    let news = entries.filter(is_news(path));
    Seq::new(
        told.len(),
        |i: int|
            if news.len() > 0 && listens_first(listeners, i, path) {
                told[i].push(
                    Told { path: path.skip(listeners[i].subpath.len() as int), entries: news },
                )
            } else {
                told[i]
            },
    )
}

/// What the listeners have been told after the groups, one after the other.
pub open spec fn told_after_groups<T>(
    listeners: Seq<ListenerView<T>>,
    told: Seq<Seq<Told>>,
    groups: Seq<(Seq<Seq<char>>, Seq<EntryView>)>,
) -> Seq<Seq<Told>>
    decreases groups.len(),
{
    if groups.len() == 0 {
        told
    } else {
        told_after_path(
            listeners,
            told_after_groups(listeners, told, groups.drop_last()),
            groups.last().0,
            groups.last().1,
        )
    }
}

/// What the listeners have been told after the entries: about each path once, in ascending order.
pub open spec fn told_after<T>(
    listeners: Seq<ListenerView<T>>,
    told: Seq<Seq<Told>>,
    entries: Seq<PathEntryView>,
) -> Seq<Seq<Told>> {
    told_after_groups(listeners, told, crate::groups::path_groups(entries))
}

/// The kept entries of all paths, with their paths.
pub open spec fn gathered(
    groups: Seq<(Seq<Seq<char>>, Seq<EntryView>)>,
    answers: Seq<Reply>,
) -> Seq<PathEntryView>
    decreases groups.len(),
{
    if groups.len() == 0 {
        seq![]
    } else {
        gathered(groups.drop_last(), answers.drop_last()) + crate::groups::with_path(
            groups.last().0,
            answers.last().kept,
        )
    }
}

/// Everything could be applied.
pub open spec fn all_succeeded(answers: Seq<Reply>) -> bool {
    forall|i: int| 0 <= i < answers.len() ==> (#[trigger] answers[i]).success
}

/// What may become of entries when they are told to the listeners, path by path.
pub open spec fn dispatched<T>(
    listeners: Seq<ListenerView<T>>,
    entries: Seq<PathEntryView>,
    extra: &T,
    kept: Seq<PathEntryView>,
    success: bool,
) -> bool {
    let groups = crate::groups::path_groups(entries);
    exists|answers: Seq<Reply>|
        {
            &&& answers.len() == groups.len()
            &&& forall|i: int|
                0 <= i < groups.len() ==> replies(
                    listeners,
                    (#[trigger] groups[i]).0,
                    groups[i].1,
                    extra,
                    answers[i],
                )
            &&& kept == #[trigger] gathered(groups, answers)
            &&& success == all_succeeded(answers)
        }
}

/// Whether an entry is one by which the apps keep track of each other.
fn is_maintenance_entry(path: &Vec<String>, key: &Value) -> (r: bool)
    ensures
        r == is_maintenance(path.deep_view(), key.deep_view()),
{
    if !is_info_path(path) {
        return false;
    }
    match key.as_str() {
        Some(text) => starts_with(text, "last-active-") || starts_with(text, "supported-version-"),
        None => false,
    }
}

/// The entries at `path` that listeners are told about.
fn news(path: &Vec<String>, entries: &Vec<Entry>) -> (r: Vec<Entry>)
    ensures
        r.deep_view() == entries.deep_view().filter(is_news(path.deep_view())),
{
    let ghost all = entries.deep_view();
    let ghost p = path.deep_view();
    let mut r: Vec<Entry> = Vec::new();
    let mut i: usize = 0;
    proof {
        reveal(Seq::filter);
        assert(r.deep_view() =~= all.take(0).filter(is_news(p)));
    }
    while i < entries.len()
        invariant
            i <= entries@.len(),
            all == entries.deep_view(),
            p == path.deep_view(),
            r.deep_view() == all.take(i as int).filter(is_news(p)),
        decreases entries@.len() - i,
    {
        proof {
            reveal(Seq::filter);
            assert(all.take(i + 1).drop_last() == all.take(i as int));
        }
        let ghost done = r.deep_view();
        if !is_maintenance_entry(path, &entries[i].key) {
            r.push(entries[i].clone());
            assert(r.deep_view() =~= done.push(all[i as int]));
        }
        i = i + 1;
    }
    assert(all.take(all.len() as int) == all);
    r
}

/// The path without its first components.
fn below(path: &Vec<String>, depth: usize) -> (r: Vec<String>)
    requires
        depth <= path@.len(),
    ensures
        r.deep_view() == path.deep_view().skip(depth as int),
{
    let mut r: Vec<String> = Vec::new();
    let mut i: usize = depth;
    while i < path.len()
        invariant
            depth <= i <= path@.len(),
            r@.len() == i - depth,
            forall|j: int| 0 <= j < i - depth ==> (#[trigger] r@[j])@ == path@[j + depth]@,
        decreases path@.len() - i,
    {
        r.push(path[i].clone());
        i = i + 1;
    }
    assert(r.deep_view() =~= path.deep_view().skip(depth as int));
    r
}

/// Tells the listeners about the entries at `path`, leaves in `entries` those that are kept, and
/// says whether all could be applied.
pub fn call_listener<T>(
    listeners: &mut Listeners<T>,
    path: &Vec<String>,
    entries: &mut Vec<Entry>,
    extra: &T,
) -> (success: bool)
    requires
        all_ready(old(listeners)@),
    ensures
        all_ready(final(listeners)@),
        in_step(old(listeners)@) ==> in_step(final(listeners)@),
        views(final(listeners)@) == views(old(listeners)@),
        told(final(listeners)@) == told_after_path(
            views(old(listeners)@),
            told(old(listeners)@),
            path.deep_view(),
            old(entries).deep_view(),
        ),
        replies(
            views(old(listeners)@),
            path.deep_view(),
            old(entries).deep_view(),
            extra,
            (Reply { kept: final(entries).deep_view(), success }),
        ),
{
    let ghost before = listeners@;
    let ghost heard = views(before);
    let ghost p = path.deep_view();
    let ghost came = entries.deep_view();
    *entries = news(path, entries);
    if entries.is_empty() {
        assert(told(listeners@) =~= told_after_path(heard, told(before), p, came));
        return true;
    }
    let mut i: usize = 0;
    while i < listeners.len()
        invariant
            i <= listeners@.len(),
            listeners@ == before,
            listeners@ == old(listeners)@,
            heard == views(before),
            p == path.deep_view(),
            came == old(entries).deep_view(),
            all_ready(listeners@),
            entries@.len() > 0,
            entries.deep_view() == came.filter(is_news(p)),
            forall|j: int| 0 <= j < i ==> !#[trigger] listens(heard, j, p),
        decreases listeners@.len() - i,
    {
        assert(heard[i as int].subpath == listeners@[i as int].subpath.deep_view());
        if path_starts_with(path, &listeners[i].subpath) {
            assert(listens(heard, i as int, p));
            assert(listens_first(heard, i as int, p));
            let relative_path = below(path, listeners[i].subpath.len());
            let ghost news = entries.deep_view();
            let success = listeners[i].callback.call(relative_path, entries, extra);
            proof {
                assert forall|j: int| 0 <= j < before.len() implies (#[trigger] views(
                    listeners@,
                )[j]) =~= heard[j] by {
                    assert(views(listeners@)[j].responds =~= heard[j].responds);
                }
                assert(views(listeners@) =~= heard);
                assert forall|j: int| 0 <= j < before.len() && j != i implies !#[trigger] listens_first(
                    heard,
                    j,
                    p,
                ) by {
                    if j < i {
                        assert(!listens(heard, j, p));
                    }
                }
                assert(told(listeners@) =~= told_after_path(heard, told(before), p, came));
                handed_once_more(
                    before[i as int].callback.told(),
                    Told {
                        path: p.skip(heard[i as int].subpath.len() as int),
                        entries: news,
                    },
                );
                assert(in_step(before) ==> in_step(listeners@));
                assert((heard[i as int].responds)(
                    p.skip(heard[i as int].subpath.len() as int),
                    news,
                    *extra,
                    entries.deep_view(),
                    success,
                ));
            }
            return success;
        }
        i = i + 1;
    }
    proof {
        assert forall|j: int| 0 <= j < before.len() implies !#[trigger] listens_first(
            heard,
            j,
            p,
        ) by {
            assert(!listens(heard, j, p));
        }
        assert(told(listeners@) =~= told_after_path(heard, told(before), p, came));
    }
    true
}

/// Tells the listeners about the entries, path by path, leaves in `entries_with_path` those that
/// are kept, and says whether all could be applied.
pub fn execute_entries<T>(
    listeners: &mut Listeners<T>,
    entries_with_path: &mut Vec<EntryWithPath>,
    extra: &T,
) -> (success: bool)
    requires
        all_ready(old(listeners)@),
    ensures
        all_ready(final(listeners)@),
        in_step(old(listeners)@) ==> in_step(final(listeners)@),
        views(final(listeners)@) == views(old(listeners)@),
        told(final(listeners)@) == told_after(
            views(old(listeners)@),
            told(old(listeners)@),
            old(entries_with_path).deep_view(),
        ),
        dispatched(
            views(old(listeners)@),
            old(entries_with_path).deep_view(),
            extra,
            final(entries_with_path).deep_view(),
            success,
        ),
{
    let ghost heard = views(listeners@);
    let ghost first = told(listeners@);
    let ghost all = entries_with_path.deep_view();
    let mut taken: Vec<EntryWithPath> = Vec::new();
    std::mem::swap(&mut taken, entries_with_path);
    let groups = group_by_path(taken);
    let ghost groups_view = groups.deep_view();
    let ghost mut answers: Seq<Reply> = seq![];
    let mut all_success: bool = true;
    let mut kept: Vec<EntryWithPath> = Vec::new();
    let mut i: usize = 0;
    assert(kept.deep_view() =~= gathered(groups_view.take(0), answers));
    while i < groups.len()
        invariant
            i <= groups@.len(),
            all_ready(listeners@),
            in_step(old(listeners)@) ==> in_step(listeners@),
            heard == views(listeners@),
            told(listeners@) == told_after_groups(heard, first, groups_view.take(i as int)),
            groups_view == crate::groups::path_groups(all),
            groups_view == groups.deep_view(),
            answers.len() == i,
            forall|j: int|
                0 <= j < i ==> replies(
                    heard,
                    (#[trigger] groups_view[j]).0,
                    groups_view[j].1,
                    extra,
                    answers[j],
                ),
            kept.deep_view() == gathered(groups_view.take(i as int), answers),
            all_success == all_succeeded(answers),
        decreases groups@.len() - i,
    {
        let ghost before = answers;
        let ghost done = kept.deep_view();
        assert(groups.deep_view()[i as int] == groups_view[i as int]);
        let path = copy_path(&groups[i].0);
        let mut entries: Vec<Entry> = groups[i].1.clone();
        assert(entries.deep_view() =~= groups@[i as int].1.deep_view());
        let success = call_listener(listeners, &path, &mut entries, extra);
        let ghost reply = Reply { kept: entries.deep_view(), success };
        proof {
            answers = answers.push(reply);
            assert(answers.drop_last() == before);
            assert(groups_view.take(i + 1).drop_last() == groups_view.take(i as int));
            assert(answers[i as int] == reply);
            assert forall|j: int| 0 <= j < i implies answers[j] == before[j] by {}
        }
        all_success = all_success && success;
        append_with_path(&mut kept, &path, &entries);
        assert(kept.deep_view() == gathered(groups_view.take(i + 1), answers));
        i = i + 1;
    }
    assert(groups_view.take(groups_view.len() as int) == groups_view);
    *entries_with_path = kept;
    all_success
}

/// Adds the entries, each with the path.
fn append_with_path(target: &mut Vec<EntryWithPath>, path: &Vec<String>, entries: &Vec<Entry>)
    ensures
        final(target).deep_view() == old(target).deep_view() + crate::groups::with_path(
            path.deep_view(),
            entries.deep_view(),
        ),
{
    let ghost start = target.deep_view();
    let ghost added = crate::groups::with_path(path.deep_view(), entries.deep_view());
    let mut i: usize = 0;
    assert(target.deep_view() =~= start + added.take(0));
    while i < entries.len()
        invariant
            i <= entries@.len(),
            added == crate::groups::with_path(path.deep_view(), entries.deep_view()),
            target.deep_view() == start + added.take(i as int),
        decreases entries@.len() - i,
    {
        let ghost done = target.deep_view();
        target.push(EntryWithPath { path: copy_path(path), entry: entries[i].clone() });
        assert(target.deep_view() =~= done.push(added[i as int]));
        i = i + 1;
        assert(target.deep_view() =~= start + added.take(i as int));
    }
    assert(added.take(added.len() as int) == added);
}

/// Approved entries are among the entries.
proof fn approved_are_among(entries: Seq<EntryView>, answers: Seq<bool>, e: EntryView)
    requires
        approved(entries, answers).contains(e),
    ensures
        entries.contains(e),
    decreases entries.len(),
{
    if entries.len() > 0 {
        let rest = approved(entries.drop_last(), answers.drop_last());
        let all = approved(entries, answers);
        let i = choose|i: int| 0 <= i < all.len() && all[i] == e;
        if i < rest.len() {
            assert(rest[i] == e);
            approved_are_among(entries.drop_last(), answers.drop_last(), e);
            let j = choose|j: int|
                0 <= j < entries.drop_last().len() && entries.drop_last()[j] == e;
            assert(entries[j] == e);
        } else {
            assert(entries[entries.len() - 1] == e);
        }
    }
}

/// Kept entries are among those that came.
proof fn replied_are_among<T>(
    listeners: Seq<ListenerView<T>>,
    path: Seq<Seq<char>>,
    entries: Seq<EntryView>,
    extra: &T,
    reply: Reply,
    e: EntryView,
)
    requires
        replies(listeners, path, entries, extra, reply),
        reply.kept.contains(e),
    ensures
        entries.contains(e),
        !is_maintenance(path, e.key),
{
    let news = entries.filter(is_news(path));
    if news.len() == 0 || nobody_listens(listeners, path) {
    } else {
        let answers = choose|answers: Seq<bool>|
            answers.len() == news.len() && reply.kept == #[trigger] approved(news, answers);
        approved_are_among(news, answers, e);
    }
    assert(news.contains(e));
    entries.lemma_filter_contains_rev(is_news(path), e);
    let i = choose|i: int| 0 <= i < news.len() && news[i] == e;
    entries.lemma_filter_pred(is_news(path), i);
}

/// What is gathered stands in one of the replies.
proof fn gathered_are_among(
    groups: Seq<(Seq<Seq<char>>, Seq<EntryView>)>,
    answers: Seq<Reply>,
    e: PathEntryView,
) -> (j: int)
    requires
        groups.len() == answers.len(),
        gathered(groups, answers).contains(e),
    ensures
        0 <= j < groups.len(),
        e.path == groups[j].0,
        answers[j].kept.contains(e.entry),
    decreases groups.len(),
{
    let all = gathered(groups, answers);
    let i = choose|i: int| 0 <= i < all.len() && all[i] == e;
    let last = groups.len() - 1;
    let rest = gathered(groups.drop_last(), answers.drop_last());
    if i < rest.len() {
        assert(rest[i] == e);
        gathered_are_among(groups.drop_last(), answers.drop_last(), e)
    } else {
        assert(answers.last().kept[i - rest.len()] == e.entry);
        last
    }
}

/// What is kept of entries that were told to the listeners is among the entries, and none of it
/// is a maintenance entry.
pub proof fn kept_are_among_the_told<T>(
    listeners: Seq<ListenerView<T>>,
    entries: Seq<PathEntryView>,
    extra: &T,
    kept: Seq<PathEntryView>,
    success: bool,
    e: PathEntryView,
)
    requires
        dispatched(listeners, entries, extra, kept, success),
        kept.contains(e),
    ensures
        entries.contains(e),
        !is_maintenance(e.path, e.entry.key),
{
    let groups = crate::groups::path_groups(entries);
    let answers = choose|answers: Seq<Reply>|
        {
            &&& answers.len() == groups.len()
            &&& forall|i: int|
                0 <= i < groups.len() ==> replies(
                    listeners,
                    (#[trigger] groups[i]).0,
                    groups[i].1,
                    extra,
                    answers[i],
                )
            &&& kept == #[trigger] gathered(groups, answers)
            &&& success == all_succeeded(answers)
        };
    let j = gathered_are_among(groups, answers, e);
    assert(replies(listeners, groups[j].0, groups[j].1, extra, answers[j]));
    replied_are_among(listeners, groups[j].0, groups[j].1, extra, answers[j], e.entry);
    let here = entries.filter(crate::groups::lies_at(e.path));
    let i = choose|i: int| 0 <= i < groups[j].1.len() && groups[j].1[i] == e.entry;
    assert(here.contains(here[i]));
    entries.lemma_filter_contains_rev(crate::groups::lies_at(e.path), here[i]);
    assert(here[i].entry == e.entry);
    assert(crate::groups::lies_at(e.path)(here[i]));
    assert(here[i] == e);
}

proof fn approved_is_all(entries: Seq<EntryView>, answers: Seq<bool>)
    requires
        answers.len() == entries.len(),
    ensures
        approved(entries, answers).len() <= entries.len(),
        approved(entries, answers).len() == entries.len() <==> all_approved(answers),
        all_approved(answers) ==> approved(entries, answers) == entries,
    decreases entries.len(),
{
    if entries.len() > 0 {
        let some = answers.drop_last();
        approved_is_all(entries.drop_last(), some);
        assert(answers[answers.len() - 1] == answers.last());
        if all_approved(answers) {
            assert forall|i: int| 0 <= i < some.len() implies some[i] by {
                assert(answers[i]);
            }
            assert(approved(entries, answers) =~= entries);
        } else if answers.last() {
            let i = choose|i: int| 0 <= i < answers.len() && !answers[i];
            assert(!some[i]);
        }
    } else {
        assert(approved(entries, answers) =~= entries);
    }
}

/// A listener that answers for each entry succeeds exactly if everything is kept.
pub proof fn failing_entries_are_not_kept<T, F: FnMut(Vec<String>, Entry, &T) -> bool>(
    f: F,
    path: Seq<Seq<char>>,
    entries: Seq<EntryView>,
    extra: &T,
    kept: Seq<EntryView>,
    success: bool,
)
    requires
        asks_each(f, path, entries, extra, kept, success),
    ensures
        success <==> kept.len() == entries.len(),
        success ==> kept == entries,
{
    let answers = choose|answers: Seq<bool>|
        {
            &&& answers.len() == entries.len()
            &&& forall|i: int|
                0 <= i < entries.len() ==> answers_entry(
                    f,
                    path,
                    #[trigger] entries[i],
                    extra,
                    answers[i],
                )
            &&& kept == #[trigger] approved(entries, answers)
            &&& success == all_approved(answers)
        };
    approved_is_all(entries, answers);
}

/// What a reply keeps stands in what is gathered.
proof fn kept_is_gathered(
    groups: Seq<(Seq<Seq<char>>, Seq<EntryView>)>,
    answers: Seq<Reply>,
    j: int,
    e: PathEntryView,
)
    requires
        groups.len() == answers.len(),
        0 <= j < groups.len(),
        e.path == groups[j].0,
        answers[j].kept.contains(e.entry),
    ensures
        gathered(groups, answers).contains(e),
    decreases groups.len(),
{
    let last = groups.len() - 1;
    let all = gathered(groups, answers);
    let rest = gathered(groups.drop_last(), answers.drop_last());
    if j < last {
        kept_is_gathered(groups.drop_last(), answers.drop_last(), j, e);
        let i = choose|i: int| 0 <= i < rest.len() && rest[i] == e;
        assert(all[i] == e);
    } else {
        let kept = answers.last().kept;
        let i = choose|i: int| 0 <= i < kept.len() && kept[i] == e.entry;
        assert(all[rest.len() + i] == e);
    }
}

/// Where the listeners could apply everything, all entries are kept but the maintenance entries.
pub proof fn success_keeps_everything<T>(
    listeners: Seq<ListenerView<T>>,
    entries: Seq<PathEntryView>,
    extra: &T,
    kept: Seq<PathEntryView>,
    e: PathEntryView,
)
    requires
        dispatched(listeners, entries, extra, kept, true),
        entries.contains(e),
        !is_maintenance(e.path, e.entry.key),
    ensures
        kept.contains(e),
{
    let groups = crate::groups::path_groups(entries);
    let answers = choose|answers: Seq<Reply>|
        {
            &&& answers.len() == groups.len()
            &&& forall|i: int|
                0 <= i < groups.len() ==> replies(
                    listeners,
                    (#[trigger] groups[i]).0,
                    groups[i].1,
                    extra,
                    answers[i],
                )
            &&& kept == #[trigger] gathered(groups, answers)
            &&& all_succeeded(answers)
        };
    crate::groups::each_entry_stands_in_the_group_of_its_path(entries, e);
    let j = choose|j: int|
        0 <= j < groups.len() && (#[trigger] groups[j]).0 == e.path && groups[j].1.contains(
            e.entry,
        );
    assert(replies(listeners, groups[j].0, groups[j].1, extra, answers[j]));
    assert(answers[j].success);
    let k = choose|k: int| 0 <= k < groups[j].1.len() && groups[j].1[k] == e.entry;
    groups[j].1.lemma_filter_contains(is_news(e.path), k);
    kept_is_gathered(groups, answers, j, e);
}

/// What a function that answers for each entry keeps: it was called with every entry, the entries
/// are kept, in their order, for which it answered yes, and it succeeds if it always did.
pub proof fn approved_entries_are_kept<T, F: FnMut(Vec<String>, Entry, &T) -> bool>(
    f: F,
    path: Seq<Seq<char>>,
    entries: Seq<EntryView>,
    extra: &T,
    kept: Seq<EntryView>,
    success: bool,
)
    requires
        asks_each(f, path, entries, extra, kept, success),
    ensures
        exists|answers: Seq<bool>|
            {
                &&& answers.len() == entries.len()
                &&& forall|i: int|
                    0 <= i < entries.len() ==> was_called_with(
                        f,
                        path,
                        #[trigger] entries[i],
                        extra,
                        answers[i],
                    )
                &&& kept == #[trigger] chosen(entries, answers)
                &&& success <==> forall|i: int| 0 <= i < answers.len() ==> answers[i]
            },
{
    let answers = choose|answers: Seq<bool>|
        {
            &&& answers.len() == entries.len()
            &&& forall|i: int|
                0 <= i < entries.len() ==> answers_entry(
                    f,
                    path,
                    #[trigger] entries[i],
                    extra,
                    answers[i],
                )
            &&& kept == #[trigger] approved(entries, answers)
            &&& success == all_approved(answers)
        };
    approved_are_chosen(entries, answers);
    assert forall|i: int| 0 <= i < entries.len() implies was_called_with(
        f,
        path,
        #[trigger] entries[i],
        extra,
        answers[i],
    ) by {
        assert(answers_entry(f, path, entries[i], extra, answers[i]));
    }
    assert(kept == chosen(entries, answers));
}

/// The function answered so when it was called with the entry, at the path and with the extra.
pub open spec fn was_called_with<T, R, F: FnMut(Vec<String>, Entry, &T) -> R>(
    f: F,
    path: Seq<Seq<char>>,
    entry: EntryView,
    extra: &T,
    answer: R,
) -> bool {
    exists|p: Vec<String>, e: Entry|
        p.deep_view() == path && e.deep_view() == entry && #[trigger] call_ensures(
            f,
            (p, e, extra),
            answer,
        )
}

/// The entries at the positions with a yes, in their order.
pub open spec fn chosen(entries: Seq<EntryView>, answers: Seq<bool>) -> Seq<EntryView> {
    Seq::new(entries.len(), |i: int| i).filter(|i: int| answers[i]).map_values(
        |i: int| entries[i],
    )
}

proof fn approved_are_chosen(entries: Seq<EntryView>, answers: Seq<bool>)
    requires
        answers.len() == entries.len(),
    ensures
        approved(entries, answers) == chosen(entries, answers),
    decreases entries.len(),
{
    reveal(Seq::filter);
    let n = entries.len() as int;
    let all = Seq::new(entries.len(), |i: int| i);
    let yes = |i: int| answers[i];
    if n > 0 {
        let rest = entries.drop_last();
        let some = answers.drop_last();
        approved_are_chosen(rest, some);
        let before = Seq::new(rest.len(), |i: int| i);
        assert(all.drop_last() =~= before);
        assert(all.last() == n - 1);
        same_choice(before, answers, some, entries, rest);
        assert(approved(entries, answers) =~= chosen(entries, answers));
    } else {
        assert(approved(entries, answers) =~= chosen(entries, answers));
    }
}

/// What is chosen of the first positions does not rest on what comes behind.
proof fn same_choice(
    positions: Seq<int>,
    a: Seq<bool>,
    b: Seq<bool>,
    x: Seq<EntryView>,
    y: Seq<EntryView>,
)
    requires
        forall|i: int|
            0 <= i < positions.len() ==> a[#[trigger] positions[i]] == b[positions[i]]
                && x[positions[i]] == y[positions[i]],
    ensures
        positions.filter(|i: int| a[i]).map_values(|i: int| x[i]) == positions.filter(
            |i: int| b[i],
        ).map_values(|i: int| y[i]),
    decreases positions.len(),
{
    reveal(Seq::filter);
    if positions.len() > 0 {
        let rest = positions.drop_last();
        assert forall|i: int| 0 <= i < rest.len() implies a[#[trigger] rest[i]] == b[rest[i]]
            && x[rest[i]] == y[rest[i]] by {
            assert(rest[i] == positions[i]);
        }
        same_choice(rest, a, b, x, y);
        assert(positions.last() == positions[positions.len() - 1]);
        let (fa, fb) = (|i: int| a[i], |i: int| b[i]);
        let (gx, gy) = (|i: int| x[i], |i: int| y[i]);
        if a[positions.last()] {
            assert(positions.filter(fa).map_values(gx) =~= rest.filter(fa).map_values(gx).push(
                x[positions.last()],
            ));
            assert(positions.filter(fb).map_values(gy) =~= rest.filter(fb).map_values(gy).push(
                y[positions.last()],
            ));
        }
    } else {
        assert(positions.filter(|i: int| a[i]).map_values(|i: int| x[i]) =~= positions.filter(
            |i: int| b[i],
        ).map_values(|i: int| y[i]));
    }
}

/// A function that does not answer was called with every entry, and all are kept.
pub proof fn told_entries_are_kept<T, F: FnMut(Vec<String>, Entry, &T)>(
    f: F,
    path: Seq<Seq<char>>,
    entries: Seq<EntryView>,
    extra: &T,
    kept: Seq<EntryView>,
    success: bool,
    i: int,
)
    requires
        tells_each(f, path, entries, extra, kept, success),
    ensures
        kept == entries,
        success,
        0 <= i < entries.len() ==> was_called_with(f, path, entries[i], extra, ()),
{
    if 0 <= i < entries.len() {
        assert(answers_entry(f, path, entries[i], extra, ()));
    }
}

/// A function that is handed all entries was called with all of them, at the path and with the
/// extra. One that does not answer keeps them; one that answers keeps them all or, if it answers
/// no, none.
pub proof fn batches_are_kept_or_not<
    T,
    F: FnMut(Vec<String>, &[Entry], &T),
    G: FnMut(Vec<String>, &[Entry], &T) -> bool,
>(
    f: F,
    g: G,
    path: Seq<Seq<char>>,
    entries: Seq<EntryView>,
    extra: &T,
    kept: Seq<EntryView>,
    success: bool,
)
    ensures
        tells_all(f, path, entries, extra, kept, success) ==> kept == entries && success && exists|
            p: Vec<String>,
            e: &[Entry],
        |
            p.deep_view() == path && e.deep_view() == entries && #[trigger] call_ensures(
                f,
                (p, e, extra),
                (),
            ),
        asks_all(g, path, entries, extra, kept, success) ==> (if success {
            kept == entries
        } else {
            kept.len() == 0
        }) && exists|p: Vec<String>, e: &[Entry]|
            p.deep_view() == path && e.deep_view() == entries && #[trigger] call_ensures(
                g,
                (p, e, extra),
                success,
            ),
{
}

} // verus!
