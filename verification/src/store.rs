//! The entries of one file: reading them, and merging newer ones into them.

use vstd::prelude::*;

use crate::entry::{EntryView, EntryWithPath, PathEntryView};
use crate::file_utils::{read_lines, write_lines};
use crate::listener::{execute_entries, ListenerView, Listeners, Told};
use crate::order::text_precedes;

verus! {

/// The entry that a line holds, if it holds one.
pub open spec fn entry_of_line() -> spec_fn(Seq<char>) -> Option<PathEntryView> {
    |line: Seq<char>| PathEntryView::of_line(line)
}

/// The entries that the lines hold; malformed lines are passed over.
pub open spec fn parsed(lines: Seq<Seq<char>>) -> Seq<PathEntryView> {
    lines.filter_map(entry_of_line())
}

/// An entry for the same path and key as `slot` is among the entries.
pub open spec fn occupied(entries: Seq<PathEntryView>, slot: PathEntryView) -> bool {
    exists|i: int| 0 <= i < entries.len() && (#[trigger] entries[i]).same_slot(slot)
}

/// Of two entries for the same path and key, the newer one; if they are of the same time, the
/// second.
pub open spec fn newer(a: Option<EntryView>, b: EntryView) -> EntryView {
    match a {
        Some(a) => if crate::order::text_before(b.datetime, a.datetime) {
            a
        } else {
            b
        },
        None => b,
    }
}

/// The entry for the path and key of `slot`: the newest one, where there are several, and the
/// last of the newest.
pub open spec fn held(entries: Seq<PathEntryView>, slot: PathEntryView) -> Option<EntryView>
    decreases entries.len(),
{
    if entries.len() == 0 {
        None
    } else if entries.last().same_slot(slot) {
        Some(newer(held(entries.drop_last(), slot), entries.last().entry))
    } else {
        held(entries.drop_last(), slot)
    }
}

/// The entry at position `j` replaces the one at position `i`: it is for the same path and key,
/// and newer, or of the same time and behind it.
pub open spec fn replaces(entries: Seq<PathEntryView>, j: int, i: int) -> bool {
    &&& entries[j].same_slot(entries[i])
    &&& crate::order::text_before(entries[i].entry.datetime, entries[j].entry.datetime) || (
    entries[i].entry.datetime == entries[j].entry.datetime && i < j)
}

/// Some entry replaces the one at position `i`.
pub open spec fn is_replaced(entries: Seq<PathEntryView>, i: int) -> bool {
    exists|j: int| 0 <= j < entries.len() && #[trigger] replaces(entries, j, i)
}

/// Of the first `n` entries, those that no entry replaces.
pub open spec fn latest_of_first(entries: Seq<PathEntryView>, n: int) -> Seq<PathEntryView>
    decreases n,
{
    if n <= 0 {
        seq![]
    } else if is_replaced(entries, n - 1) {
        latest_of_first(entries, n - 1)
    } else {
        latest_of_first(entries, n - 1).push(entries[n - 1])
    }
}

/// The entries that no other one replaces: for each path and key the newest.
#[verifier::opaque]
pub open spec fn latest(entries: Seq<PathEntryView>) -> Seq<PathEntryView> {
    latest_of_first(entries, entries.len() as int)
}

/// The entries that a file holds.
pub open spec fn stored_entries(text: Option<Seq<char>>) -> Seq<PathEntryView> {
    latest(parsed(crate::file_utils::file_lines(text)))
}

/// The entry is new, or newer than the stored one; where `require_new_value` is set, it also has
/// to bring another value.
pub open spec fn is_fresh(stored: Seq<PathEntryView>, require_new_value: bool) -> spec_fn(
    PathEntryView,
) -> bool {
    |e: PathEntryView|
        match held(stored, e) {
            None => true,
            Some(old) => crate::order::text_before(old.datetime, e.entry.datetime) && !(
            require_new_value && e.entry.value.same(old.value)),
        }
}

/// The entry stays, because none of the new ones is for its path and key.
pub open spec fn is_untouched(new: Seq<PathEntryView>) -> spec_fn(PathEntryView) -> bool {
    |e: PathEntryView| !occupied(new, e)
}

/// The stored entries with the new ones merged in.
pub open spec fn merged(stored: Seq<PathEntryView>, new: Seq<PathEntryView>) -> Seq<PathEntryView> {
    stored.filter(is_untouched(new)) + new
}

/// What a file holds after the new entries have been merged in.
pub open spec fn renewed(stored: Seq<PathEntryView>, new: Seq<PathEntryView>) -> Seq<PathEntryView> {
    if new.len() == 0 {
        stored
    } else {
        latest(merged(stored, new))
    }
}

/// The text of a file with the given entries, one per line.
pub open spec fn entries_text(entries: Seq<PathEntryView>) -> Seq<char> {
    crate::file_utils::lines_text(entries.map_values(|e: PathEntryView| e.line()))
}

/// Every key and value can be read back.
pub open spec fn all_readable(entries: Seq<PathEntryView>) -> bool {
    forall|i: int| 0 <= i < entries.len() ==> (#[trigger] entries[i]).entry.readable()
}

/// Whether an entry for the same path and key as `slot` is among the entries.
fn is_occupied(entries: &Vec<EntryWithPath>, slot: &EntryWithPath) -> (r: bool)
    ensures
        r == occupied(entries.deep_view(), slot.deep_view()),
{
    let ghost all = entries.deep_view();
    let mut i: usize = 0;
    while i < entries.len()
        invariant
            i <= entries@.len(),
            all == entries.deep_view(),
            forall|j: int| 0 <= j < i ==> !(#[trigger] all[j]).same_slot(slot.deep_view()),
        decreases entries@.len() - i,
    {
        assert(all[i as int] == entries@[i as int].deep_view());
        if entries[i].same_slot(slot) {
            return true;
        }
        i = i + 1;
    }
    false
}

/// The entry for the path and key of `slot`.
fn find<'a>(entries: &'a Vec<EntryWithPath>, slot: &EntryWithPath) -> (r: Option<&'a EntryWithPath>)
    ensures
        match r {
            Some(e) => held(entries.deep_view(), slot.deep_view()) == Some(e.deep_view().entry),
            None => held(entries.deep_view(), slot.deep_view()) is None,
        },
{
    let ghost all = entries.deep_view();
    let mut found: Option<usize> = None;
    let mut i: usize = 0;
    while i < entries.len()
        invariant
            i <= entries@.len(),
            all == entries.deep_view(),
            match found {
                Some(k) => k < i && held(all.take(i as int), slot.deep_view()) == Some(
                    all[k as int].entry,
                ),
                None => held(all.take(i as int), slot.deep_view()) is None,
            },
        decreases entries@.len() - i,
    {
        assert(all.take(i + 1).drop_last() == all.take(i as int));
        assert(all.take(i + 1).last() == entries@[i as int].deep_view());
        if entries[i].same_slot(slot) {
            let is_older = match found {
                Some(k) => text_precedes(&entries[i].entry.datetime, &entries[k].entry.datetime),
                None => false,
            };
            if !is_older {
                found = Some(i);
            }
        }
        i = i + 1;
    }
    assert(all.take(all.len() as int) == all);
    match found {
        Some(k) => Some(&entries[k]),
        None => None,
    }
}

/// The entries that the lines hold.
fn parse_lines(lines: &Vec<String>) -> (r: Vec<EntryWithPath>)
    ensures
        r.deep_view() == parsed(lines.deep_view()),
        all_readable(r.deep_view()),
{
    let ghost all = lines.deep_view();
    let mut r: Vec<EntryWithPath> = Vec::new();
    let mut i: usize = 0;
    assert(r.deep_view() =~= parsed(all.take(0)));
    while i < lines.len()
        invariant
            i <= lines@.len(),
            all == lines.deep_view(),
            r.deep_view() == parsed(all.take(i as int)),
            all_readable(r.deep_view()),
        decreases lines@.len() - i,
    {
        let ghost done = r.deep_view();
        assert(all.take(i + 1).drop_last() == all.take(i as int));
        assert(all.take(i + 1).last() == lines@[i as int]@);
        match EntryWithPath::try_from(lines[i].clone()) {
            Ok(entry) => {
                r.push(entry);
                assert(r.deep_view() =~= done + seq![entry.deep_view()]);
            },
            Err(_) => {},
        }
        i = i + 1;
    }
    assert(all.take(all.len() as int) == all);
    r
}

/// Whether some entry replaces the one at position `i`.
fn has_replacement(entries: &Vec<EntryWithPath>, i: usize) -> (r: bool)
    requires
        i < entries@.len(),
    ensures
        r == is_replaced(entries.deep_view(), i as int),
{
    let ghost all = entries.deep_view();
    let mut j: usize = 0;
    while j < entries.len()
        invariant
            i < entries@.len(),
            j <= entries@.len(),
            all == entries.deep_view(),
            forall|k: int| 0 <= k < j ==> !#[trigger] replaces(all, k, i as int),
        decreases entries@.len() - j,
    {
        let a = &entries[i];
        let b = &entries[j];
        assert(all[i as int] == a.deep_view() && all[j as int] == b.deep_view());
        if b.same_slot(a) && (text_precedes(&a.entry.datetime, &b.entry.datetime) || (
        a.entry.datetime == b.entry.datetime && i < j)) {
            assert(replaces(all, j as int, i as int));
            return true;
        }
        j = j + 1;
    }
    false
}

/// The entries that no other one replaces.
fn keep_latest(entries: &Vec<EntryWithPath>) -> (r: Vec<EntryWithPath>)
    requires
        all_readable(entries.deep_view()),
    ensures
        r.deep_view() == latest(entries.deep_view()),
        all_readable(r.deep_view()),
{
    let ghost all = entries.deep_view();
    let mut r: Vec<EntryWithPath> = Vec::new();
    let mut i: usize = 0;
    assert(r.deep_view() =~= latest_of_first(all, 0));
    while i < entries.len()
        invariant
            i <= entries@.len(),
            all == entries.deep_view(),
            all_readable(all),
            r.deep_view() == latest_of_first(all, i as int),
            all_readable(r.deep_view()),
        decreases entries@.len() - i,
    {
        let ghost done = r.deep_view();
        if !has_replacement(entries, i) {
            r.push(entries[i].clone());
            assert(r.deep_view() =~= done.push(all[i as int]));
        }
        i = i + 1;
    }
    proof {
        reveal(latest);
    }
    r
}

/// The entries of a file, given its text. Malformed lines are passed over; of several lines for
/// the same path and key the newest one counts.
pub fn read_entries(text: Option<&String>) -> (r: Vec<EntryWithPath>)
    ensures
        r.deep_view() == stored_entries(crate::text::text_view(text)),
        all_readable(r.deep_view()),
{
    let lines = read_lines(text);
    keep_latest(&parse_lines(&lines))
}

/// The entries that are new to the stored ones.
fn fresh_entries(
    stored: &Vec<EntryWithPath>,
    entries: &Vec<EntryWithPath>,
    require_new_value: bool,
) -> (r: Vec<EntryWithPath>)
    ensures
        r.deep_view() == entries.deep_view().filter(
            is_fresh(stored.deep_view(), require_new_value),
        ),
{
    let ghost all = entries.deep_view();
    let ghost fresh = is_fresh(stored.deep_view(), require_new_value);
    let mut r: Vec<EntryWithPath> = Vec::new();
    let mut i: usize = 0;
    proof {
        reveal(Seq::filter);
        assert(r.deep_view() =~= all.take(0).filter(fresh));
    }
    while i < entries.len()
        invariant
            i <= entries@.len(),
            all == entries.deep_view(),
            fresh == is_fresh(stored.deep_view(), require_new_value),
            r.deep_view() == all.take(i as int).filter(fresh),
        decreases entries@.len() - i,
    {
        proof {
            reveal(Seq::filter);
            assert(all.take(i + 1).drop_last() == all.take(i as int));
        }
        let ghost done = r.deep_view();
        let is_new = match find(stored, &entries[i]) {
            None => true,
            Some(old) => text_precedes(&old.entry.datetime, &entries[i].entry.datetime) && !(
            require_new_value && entries[i].entry.value == old.entry.value),
        };
        if is_new {
            r.push(entries[i].clone());
            assert(r.deep_view() =~= done.push(all[i as int]));
        }
        i = i + 1;
    }
    assert(all.take(all.len() as int) == all);
    r
}

/// The stored entries with the new ones merged in.
fn merge(stored: &Vec<EntryWithPath>, new: &Vec<EntryWithPath>) -> (r: Vec<EntryWithPath>)
    ensures
        r.deep_view() == merged(stored.deep_view(), new.deep_view()),
{
    let ghost all = stored.deep_view();
    let ghost untouched = is_untouched(new.deep_view());
    let mut r: Vec<EntryWithPath> = Vec::new();
    let mut i: usize = 0;
    proof {
        reveal(Seq::filter);
        assert(r.deep_view() =~= all.take(0).filter(untouched));
    }
    while i < stored.len()
        invariant
            i <= stored@.len(),
            all == stored.deep_view(),
            untouched == is_untouched(new.deep_view()),
            r.deep_view() == all.take(i as int).filter(untouched),
        decreases stored@.len() - i,
    {
        proof {
            reveal(Seq::filter);
            assert(all.take(i + 1).drop_last() == all.take(i as int));
        }
        let ghost done = r.deep_view();
        if !is_occupied(new, &stored[i]) {
            r.push(stored[i].clone());
            assert(r.deep_view() =~= done.push(all[i as int]));
        }
        i = i + 1;
    }
    assert(all.take(all.len() as int) == all);
    let ghost start = r.deep_view();
    let mut k: usize = 0;
    assert(r.deep_view() =~= start + new.deep_view().take(0));
    while k < new.len()
        invariant
            k <= new@.len(),
            r.deep_view() == start + new.deep_view().take(k as int),
        decreases new@.len() - k,
    {
        let ghost done = r.deep_view();
        r.push(new[k].clone());
        assert(r.deep_view() =~= done.push(new@[k as int].deep_view()));
        k = k + 1;
        assert(r.deep_view() =~= start + new.deep_view().take(k as int));
    }
    assert(new.deep_view().take(new.deep_view().len() as int) == new.deep_view());
    r
}

/// Lines that each hold an entry hold these entries.
proof fn parsed_lines(lines: Seq<Seq<char>>, entries: Seq<PathEntryView>)
    requires
        lines.len() == entries.len(),
        forall|i: int|
            0 <= i < lines.len() ==> PathEntryView::of_line(#[trigger] lines[i]) == Some(entries[i]),
    ensures
        parsed(lines) == entries,
    decreases lines.len(),
{
    if lines.len() > 0 {
        let last = lines.len() - 1;
        assert(PathEntryView::of_line(lines[last]) == Some(entries[last]));
        parsed_lines(lines.drop_last(), entries.drop_last());
        assert(parsed(lines) =~= entries.drop_last() + seq![entries[last]]);
        assert(entries.drop_last() + seq![entries[last]] =~= entries);
    } else {
        assert(parsed(lines) =~= entries);
    }
}

/// Lines of which none holds an entry hold none.
pub(crate) proof fn nothing_is_stored(lines: Seq<Seq<char>>)
    requires
        forall|i: int|
            0 <= i < lines.len() ==> PathEntryView::of_line(#[trigger] lines[i]) is None,
    ensures
        latest(parsed(lines)).len() == 0,
    decreases lines.len(),
{
    reveal(latest);
    if lines.len() > 0 {
        let rest = lines.drop_last();
        assert forall|i: int| 0 <= i < rest.len() implies PathEntryView::of_line(
            #[trigger] rest[i],
        ) is None by {
            assert(rest[i] == lines[i]);
        }
        nothing_is_stored(rest);
        assert(PathEntryView::of_line(lines[lines.len() - 1]) is None);
        assert(parsed(lines) == parsed(rest));
    }
}

/// The text of a file with the given entries, one per line. Where every key and value is
/// readable, reading the text gives the entries back, of several for the same path and key the
/// newest one.
fn write_entries(entries: &Vec<EntryWithPath>) -> (r: String)
    ensures
        r@ == entries_text(entries.deep_view()),
        all_readable(entries.deep_view()) ==> stored_entries(Some(r@)) == latest(
            entries.deep_view(),
        ),
{
    let ghost all = entries.deep_view();
    let mut lines: Vec<String> = Vec::new();
    let mut i: usize = 0;
    while i < entries.len()
        invariant
            i <= entries@.len(),
            all == entries.deep_view(),
            lines@.len() == i,
            forall|j: int| 0 <= j < i ==> (#[trigger] lines@[j])@ == all[j].line(),
            forall|j: int| 0 <= j < i ==> crate::json::one_line((#[trigger] lines@[j])@),
            forall|j: int|
                0 <= j < i ==> (#[trigger] all[j]).entry.readable() ==> PathEntryView::of_line(
                    lines@[j]@,
                ) == Some(all[j]),
        decreases entries@.len() - i,
    {
        lines.push(entries[i].to_line());
        i = i + 1;
    }
    proof {
        let views = lines.deep_view();
        assert(views =~= all.map_values(|e: PathEntryView| e.line()));
        assert forall|j: int| 0 <= j < views.len() implies !(#[trigger] views[j]).contains('\n')
            && !(views[j].len() > 0 && views[j].last() == '\r') by {
            assert(crate::json::one_line(lines@[j]@));
            assert(views[j] == lines@[j]@);
        }
        crate::file_utils::lines_are_read_back(views);
        if all_readable(all) {
            assert forall|j: int| 0 <= j < views.len() implies PathEntryView::of_line(
                #[trigger] views[j],
            ) == Some(all[j]) by {
                assert(all[j].entry.readable());
                assert(views[j] == lines@[j]@);
            }
            parsed_lines(views, all);
        }
    }
    write_lines(None, &lines, false)
}

/// What an update did.
pub struct UpdateOutcome {
    /// The entries that were stored.
    pub entries: Vec<EntryWithPath>,
    /// Whether the listeners could apply everything that they were told about.
    pub success: bool,
    /// The new text of the file, if it changes.
    pub text: Option<String>,
}

/// What may come of bringing entries to a file that holds `stored`.
///
/// Those are taken that are new to the file. Where there is an `extra`, the listeners are told
/// about them and say which ones are kept.
pub open spec fn taken<T>(
    listeners: Seq<ListenerView<T>>,
    stored: Seq<PathEntryView>,
    entries: Seq<PathEntryView>,
    require_new_value: bool,
    extra: Option<&T>,
    kept: Seq<PathEntryView>,
    success: bool,
) -> bool {
    let fresh = entries.filter(is_fresh(stored, require_new_value));
    match extra {
        Some(extra) => crate::listener::dispatched(listeners, fresh, extra, kept, success),
        None => kept == fresh && success,
    }
}

/// What the listeners have been told after entries have been brought to a file that holds
/// `stored`: about those that are new to it, path by path, where there is an `extra`.
pub open spec fn told_after_update<T>(
    listeners: Seq<ListenerView<T>>,
    told: Seq<Seq<Told>>,
    stored: Seq<PathEntryView>,
    entries: Seq<PathEntryView>,
    require_new_value: bool,
    extra: Option<&T>,
) -> Seq<Seq<Told>> {
    match extra {
        Some(_) => crate::listener::told_after(
            listeners,
            told,
            entries.filter(is_fresh(stored, require_new_value)),
        ),
        None => told,
    }
}

/// What is taken is new to the file and among the entries that came.
pub proof fn taken_are_fresh<T>(
    listeners: Seq<ListenerView<T>>,
    stored: Seq<PathEntryView>,
    entries: Seq<PathEntryView>,
    require_new_value: bool,
    extra: Option<&T>,
    kept: Seq<PathEntryView>,
    success: bool,
    e: PathEntryView,
)
    requires
        taken(listeners, stored, entries, require_new_value, extra, kept, success),
        kept.contains(e),
    ensures
        entries.contains(e),
        is_fresh(stored, require_new_value)(e),
{
    let fresh = entries.filter(is_fresh(stored, require_new_value));
    match extra {
        Some(extra) => {
            crate::listener::kept_are_among_the_told(listeners, fresh, extra, kept, success, e);
        },
        None => {},
    }
    assert(fresh.contains(e));
    entries.lemma_filter_contains_rev(is_fresh(stored, require_new_value), e);
    let i = choose|i: int| 0 <= i < fresh.len() && fresh[i] == e;
    entries.lemma_filter_pred(is_fresh(stored, require_new_value), i);
}

/// Brings entries to a file, given its text.
///
/// Of the entries, those are taken that are new to the file: entries for which it holds none with
/// the same path and key, and entries that are newer than the one it holds (and, with
/// `require_new_value`, have another value). With an `extra` the listeners are told about them,
/// and the ones that are not kept are left out. The file then holds the rest of its entries and
/// the ones that were kept.
pub fn update_entries<T>(
    listeners: &mut Listeners<T>,
    text: Option<&String>,
    entries_with_path: Vec<EntryWithPath>,
    require_new_value: bool,
    extra: Option<&T>,
) -> (outcome: UpdateOutcome)
    requires
        crate::listener::all_ready(old(listeners)@),
    ensures
        crate::listener::all_ready(final(listeners)@),
        crate::listener::in_step(old(listeners)@) ==> crate::listener::in_step(final(listeners)@),
        crate::listener::views(final(listeners)@) == crate::listener::views(old(listeners)@),
        crate::listener::told(final(listeners)@) == told_after_update(
            crate::listener::views(old(listeners)@),
            crate::listener::told(old(listeners)@),
            stored_entries(crate::text::text_view(text)),
            entries_with_path.deep_view(),
            require_new_value,
            extra,
        ),
        taken(
            crate::listener::views(old(listeners)@),
            stored_entries(crate::text::text_view(text)),
            entries_with_path.deep_view(),
            require_new_value,
            extra,
            outcome.entries.deep_view(),
            outcome.success,
        ),
        match outcome.text {
            Some(new_text) => {
                let stored = stored_entries(crate::text::text_view(text));
                let kept = outcome.entries.deep_view();
                &&& kept.len() > 0
                &&& new_text@ == entries_text(merged(stored, kept))
                &&& all_readable(kept) ==> stored_entries(Some(new_text@)) == latest(
                    merged(stored, kept),
                )
            },
            None => outcome.entries@.len() == 0,
        },
{
    let stored = read_entries(text);
    let mut new_entries = fresh_entries(&stored, &entries_with_path, require_new_value);
    let success = match extra {
        Some(extra) => execute_entries(listeners, &mut new_entries, extra),
        None => true,
    };
    if new_entries.is_empty() {
        return UpdateOutcome { entries: new_entries, success, text: None };
    }
    let all = merge(&stored, &new_entries);
    let new_text = write_entries(&all);
    proof {
        if all_readable(new_entries.deep_view()) {
            merged_is_readable(stored.deep_view(), new_entries.deep_view());
        }
    }
    UpdateOutcome { entries: new_entries, success, text: Some(new_text) }
}

/// Some of readable entries are readable.
pub(crate) proof fn filtered_is_readable(
    entries: Seq<PathEntryView>,
    pred: spec_fn(PathEntryView) -> bool,
)
    requires
        all_readable(entries),
    ensures
        all_readable(entries.filter(pred)),
{
    let some = entries.filter(pred);
    assert forall|i: int| 0 <= i < some.len() implies (#[trigger] some[i]).entry.readable() by {
        assert(some.contains(some[i]));
        entries.lemma_filter_contains_rev(pred, some[i]);
        assert(entries.contains(some[i]));
    }
}

/// What is merged from readable entries is readable.
proof fn merged_is_readable(stored: Seq<PathEntryView>, new: Seq<PathEntryView>)
    requires
        all_readable(stored),
        all_readable(new),
    ensures
        all_readable(merged(stored, new)),
{
    filtered_is_readable(stored, is_untouched(new));
    let rest = stored.filter(is_untouched(new));
    assert forall|i: int| 0 <= i < merged(stored, new).len() implies (#[trigger] merged(
        stored,
        new,
    )[i]).entry.readable() by {
        if i < rest.len() {
            assert(merged(stored, new)[i] == rest[i]);
        } else {
            assert(merged(stored, new)[i] == new[i - rest.len()]);
        }
    }
}

/// A file is written with one line for each entry: the compact array of its path, datetime, key and
/// value.
pub proof fn each_entry_is_written_once(entries: Seq<PathEntryView>, e: PathEntryView)
    ensures
        entries_text(seq![]) == Seq::<char>::empty(),
        entries_text(entries.push(e)) == entries_text(entries) + crate::json::path_entry_text(
            e.path,
            e.entry.datetime,
            e.entry.key,
            e.entry.value,
        ).push('\n'),
{
    let line = |e: PathEntryView| e.line();
    let none: Seq<PathEntryView> = seq![];
    crate::file_utils::lines_are_written_with_line_feeds(entries.map_values(line), e.line());
    assert(none.map_values(line) =~= seq![]);
    assert(entries.push(e).map_values(line) =~= entries.map_values(line).push(e.line()));
}

/// Merging new entries into stored ones gives the new ones, and of the stored ones those that are
/// for another path and key than every new one.
pub proof fn merging_replaces_the_same_slots(
    stored: Seq<PathEntryView>,
    new: Seq<PathEntryView>,
    x: PathEntryView,
)
    ensures
        merged(stored, new).contains(x) <==> new.contains(x) || (stored.contains(x) && forall|
            i: int,
        |
            0 <= i < new.len() ==> !((#[trigger] new[i]).path == x.path && new[i].entry.key.same(
                x.entry.key,
            ))),
        merged(stored, new).len() <= stored.len() + new.len(),
{
    let pred = is_untouched(new);
    let rest = stored.filter(pred);
    let all = merged(stored, new);
    stored.lemma_filter_len(pred);
    if all.contains(x) {
        let i = choose|i: int| 0 <= i < all.len() && all[i] == x;
        if i < rest.len() {
            assert(rest[i] == x);
            assert(rest.contains(x));
            stored.lemma_filter_contains_rev(pred, x);
            stored.lemma_filter_pred(pred, i);
            assert(!occupied(new, x));
        } else {
            assert(new[i - rest.len()] == x);
        }
    }
    if new.contains(x) {
        let i = choose|i: int| 0 <= i < new.len() && new[i] == x;
        assert(all[rest.len() + i] == x);
    }
    if stored.contains(x) && forall|i: int|
        0 <= i < new.len() ==> !((#[trigger] new[i]).path == x.path && new[i].entry.key.same(
            x.entry.key,
        )) {
        let i = choose|i: int| 0 <= i < stored.len() && stored[i] == x;
        assert(pred(x)) by {
            if occupied(new, x) {
                let k = choose|k: int| 0 <= k < new.len() && (#[trigger] new[k]).same_slot(x);
                assert(new[k].path == x.path);
            }
        }
        stored.lemma_filter_contains(pred, i);
        let k = choose|k: int| 0 <= k < rest.len() && rest[k] == x;
        assert(all[k] == x);
    }
}

} // verus!
