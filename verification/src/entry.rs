//! Types that cross the public API and the on-disk format.

use vstd::prelude::*;

use crate::error::DecSyncError;
use crate::json::{parse_entry, parse_path_entry, write_entry, write_path_entry, Value, ValueView};
use crate::order::{copy_path, same_path};

verus! {

/// One entry: a timestamp, a key and a value.
///
/// Datetimes are fixed-width UTC strings (`YYYY-MM-DDTHH:MM:SS`), so the order of texts equals
/// chronological order and other DecSync implementations agree on what "newer" means.
#[derive(Debug)]
pub struct Entry {
    /// When the entry was written, `YYYY-MM-DDTHH:MM:SS` UTC.
    pub datetime: String,
    /// JSON value identifying the entry inside its path.
    pub key: Value,
    /// JSON value.
    pub value: Value,
}

/// What an [`Entry`] is.
pub struct EntryView {
    pub datetime: Seq<char>,
    pub key: ValueView,
    pub value: ValueView,
}

impl DeepView for Entry {
    type V = EntryView;

    open spec fn deep_view(&self) -> EntryView {
        EntryView {
            datetime: self.datetime@,
            key: self.key.deep_view(),
            value: self.value.deep_view(),
        }
    }
}

impl EntryView {
    /// The entry that a line in the form `[datetime, key, value]` holds, if it holds one.
    pub open spec fn of_line(line: Seq<char>) -> Option<EntryView> {
        match crate::json::entry_of_text(line) {
            Some(parts) => Some(
                EntryView { datetime: parts.0, key: parts.1, value: parts.2 },
            ),
            None => None,
        }
    }

    /// The entry as a line in the form `[datetime, key, value]`.
    pub open spec fn line(self) -> Seq<char> {
        crate::json::entry_text(self.datetime, self.key, self.value)
    }

    /// Key and value can be read back from a line.
    pub open spec fn readable(self) -> bool {
        self.key.readable() && self.value.readable()
    }
}

impl Entry {
    /// Builds an entry from parts.
    pub fn new(datetime: String, key: Value, value: Value) -> (r: Entry)
        ensures
            r == (Entry { datetime, key, value }),
    {
        Entry { datetime, key, value }
    }

    /// Serializes to the JSON array `[datetime, key, value]`.
    pub fn to_json(&self) -> (r: Value)
        ensures
            r.deep_view() == ValueView::Other(self.deep_view().line()),
    {
        Value::Other(write_entry(&self.datetime, &self.key, &self.value))
    }

    /// The line that the entry is stored as: the compact JSON array `[datetime, key, value]`.
    ///
    /// The text stays on one line, and where key and value are readable, reading it gives the
    /// entry back.
    pub fn to_line(&self) -> (r: String)
        ensures
            r@ == self.deep_view().line(),
            crate::json::one_line(r@),
            self.deep_view().readable() ==> EntryView::of_line(r@) == Some(self.deep_view()),
    {
        write_entry(&self.datetime, &self.key, &self.value).into_text()
    }
}

impl TryFrom<String> for Entry {
    type Error = DecSyncError;

    /// Parses the JSON array `[datetime, key, value]` from one line. A malformed line is
    /// [`DecSyncError::InvalidEntry`].
    fn try_from(line: String) -> (r: Result<Entry, DecSyncError>)
        ensures
            match EntryView::of_line(line@) {
                Some(entry) => r matches Ok(e) && e.deep_view() == entry && entry.readable(),
                None => r matches Err(DecSyncError::InvalidEntry(_)),
            },
    {
        match parse_entry(line.as_str()) {
            Ok((datetime, key, value)) => Ok(Entry::new(datetime, key, value)),
            Err(error) => Err(DecSyncError::InvalidEntry(error)),
        }
    }
}

impl vstd::std_specs::convert::TryFromSpecImpl<String> for Entry {
    /// Errors are not told apart by value; what `try_from` gives stands in its own contract.
    open spec fn obeys_try_from_spec() -> bool {
        false
    }

    open spec fn try_from_spec(line: String) -> Result<Entry, DecSyncError> {
        Err(DecSyncError::Unknown)
    }
}

impl Clone for Entry {
    fn clone(&self) -> (r: Entry)
        ensures
            r.deep_view() == self.deep_view(),
    {
        Entry {
            datetime: self.datetime.clone(),
            key: self.key.clone(),
            value: self.value.clone(),
        }
    }
}

/// An [`Entry`] plus the path it lives under; one unit of the v2 format, serialized as
/// `[path, datetime, key, value]`.
#[derive(Debug)]
pub struct EntryWithPath {
    /// The full path of the entry.
    pub path: Vec<String>,
    /// The entry itself.
    pub entry: Entry,
}

/// What an [`EntryWithPath`] is.
pub struct PathEntryView {
    pub path: Seq<Seq<char>>,
    pub entry: EntryView,
}

impl DeepView for EntryWithPath {
    type V = PathEntryView;

    open spec fn deep_view(&self) -> PathEntryView {
        PathEntryView { path: self.path.deep_view(), entry: self.entry.deep_view() }
    }
}

impl PathEntryView {
    /// The entry that a line in the form `[path, datetime, key, value]` holds, if it holds one.
    pub open spec fn of_line(line: Seq<char>) -> Option<PathEntryView> {
        match crate::json::path_entry_of_text(line) {
            Some(parts) => Some(
                PathEntryView {
                    path: parts.0,
                    entry: EntryView { datetime: parts.1, key: parts.2, value: parts.3 },
                },
            ),
            None => None,
        }
    }

    /// The entry as a line in the form `[path, datetime, key, value]`.
    pub open spec fn line(self) -> Seq<char> {
        crate::json::path_entry_text(self.path, self.entry.datetime, self.entry.key, self.entry.value)
    }

    /// Both entries have the same path and the same key: the newer one replaces the older one.
    pub open spec fn same_slot(self, other: PathEntryView) -> bool {
        self.path == other.path && self.entry.key.same(other.entry.key)
    }
}

impl EntryWithPath {
    /// Builds an entry with path from parts.
    pub fn new(path: Vec<String>, datetime: String, key: Value, value: Value) -> (r: EntryWithPath)
        ensures
            r == (EntryWithPath { path, entry: Entry { datetime, key, value } }),
    {
        EntryWithPath { path, entry: Entry { datetime, key, value } }
    }

    /// Serializes to the JSON array `[path, datetime, key, value]`.
    pub fn to_json(&self) -> (r: Value)
        ensures
            r.deep_view() == ValueView::Other(self.deep_view().line()),
    {
        let entry = &self.entry;
        Value::Other(write_path_entry(&self.path, &entry.datetime, &entry.key, &entry.value))
    }

    /// The line that the entry is stored as: the compact JSON array `[path, datetime, key, value]`.
    ///
    /// The text stays on one line, and where key and value are readable, reading it gives the
    /// entry back.
    pub fn to_line(&self) -> (r: String)
        ensures
            r@ == self.deep_view().line(),
            crate::json::one_line(r@),
            self.deep_view().entry.readable() ==> PathEntryView::of_line(r@) == Some(
                self.deep_view(),
            ),
    {
        let entry = &self.entry;
        write_path_entry(&self.path, &entry.datetime, &entry.key, &entry.value).into_text()
    }

    /// Whether both entries have the same path and the same key.
    pub fn same_slot(&self, other: &EntryWithPath) -> (r: bool)
        ensures
            r == self.deep_view().same_slot(other.deep_view()),
    {
        same_path(&self.path, &other.path) && self.entry.key == other.entry.key
    }
}

impl TryFrom<String> for EntryWithPath {
    type Error = DecSyncError;

    /// Parses the JSON array `[path, datetime, key, value]` from one line. A malformed line is
    /// [`DecSyncError::InvalidEntry`].
    fn try_from(line: String) -> (r: Result<EntryWithPath, DecSyncError>)
        ensures
            match PathEntryView::of_line(line@) {
                Some(entry) => r matches Ok(e) && e.deep_view() == entry && entry.entry.readable(),
                None => r matches Err(DecSyncError::InvalidEntry(_)),
            },
    {
        match parse_path_entry(line.as_str()) {
            Ok((path, datetime, key, value)) => Ok(EntryWithPath::new(path, datetime, key, value)),
            Err(error) => Err(DecSyncError::InvalidEntry(error)),
        }
    }
}

impl vstd::std_specs::convert::TryFromSpecImpl<String> for EntryWithPath {
    /// Errors are not told apart by value; what `try_from` gives stands in its own contract.
    open spec fn obeys_try_from_spec() -> bool {
        false
    }

    open spec fn try_from_spec(line: String) -> Result<EntryWithPath, DecSyncError> {
        Err(DecSyncError::Unknown)
    }
}

impl Clone for EntryWithPath {
    fn clone(&self) -> (r: EntryWithPath)
        ensures
            r.deep_view() == self.deep_view(),
    {
        EntryWithPath { path: copy_path(&self.path), entry: self.entry.clone() }
    }
}

/// Entries that live in the same file.
pub struct GroupedEntries {
    /// The name of the file.
    pub hash: String,
    /// Its entries.
    pub entries: Vec<EntryWithPath>,
}

/// A path and key whose value is still on disk.
///
/// Used to ask for retroactive execution of stored entries whose value the caller does not know.
pub struct StoredEntry {
    /// Where to look.
    pub path: Vec<String>,
    /// Which key to execute.
    pub key: Value,
}

/// What a [`StoredEntry`] is.
pub struct StoredEntryView {
    pub path: Seq<Seq<char>>,
    pub key: ValueView,
}

impl DeepView for StoredEntry {
    type V = StoredEntryView;

    open spec fn deep_view(&self) -> StoredEntryView {
        StoredEntryView { path: self.path.deep_view(), key: self.key.deep_view() }
    }
}

impl StoredEntry {
    /// Builds a stored entry from parts.
    pub fn new(path: Vec<String>, key: Value) -> (r: StoredEntry)
        ensures
            r == (StoredEntry { path, key }),
    {
        StoredEntry { path, key }
    }
}

/// A line holds an entry exactly if `serde_json` reads its path, datetime, key and value from it.
pub proof fn a_line_holds_what_is_read_from_it(line: Seq<char>, e: PathEntryView)
    ensures
        PathEntryView::of_line(line) == Some(e) <==> crate::json::path_entry_of_text(line) == Some(
            (e.path, e.entry.datetime, e.entry.key, e.entry.value),
        ),
        EntryView::of_line(line) == Some(e.entry) <==> crate::json::entry_of_text(line) == Some(
            (e.entry.datetime, e.entry.key, e.entry.value),
        ),
{
}

} // verus!
