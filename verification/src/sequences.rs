//! Sequence numbers: how often each file of an app has changed, and up to which change the files
//! of the other apps have been read.

use vstd::prelude::*;

use crate::file_utils::write_lines;
use crate::order::Key;

verus! {

/// A table by text, in ascending order.
#[derive(Debug)]
pub struct Table<V> {
    items: Vec<(String, V)>,
}

/// The sequence numbers of one app, by file name.
pub type Sequences = Table<i64>;

/// The sequence numbers that have been read, by app id and file name.
pub type LocalSequences = Table<Table<i64>>;

/// The position of a key.
spec fn position<V>(items: Seq<(String, V)>, key: Seq<char>) -> int {
    choose|i: int| 0 <= i < items.len() && (#[trigger] items[i]).0@ == key
}

impl<V: DeepView> DeepView for Table<V> {
    type V = Map<Seq<char>, V::V>;

    closed spec fn deep_view(&self) -> Map<Seq<char>, V::V> {
        Map::new(
            |key: Seq<char>| self.keys().contains(key),
            |key: Seq<char>| self.items@[position(self.items@, key)].1.deep_view(),
        )
    }
}

/// The elements of a finite set of texts, in ascending order; of an infinite set none.
pub open spec fn ordered(texts: Set<Seq<char>>) -> Seq<Seq<char>> {
    if texts.finite() {
        choose|keys: Seq<Seq<char>>| #[trigger]
            crate::order::ascending::<String>(keys) && forall|key: Seq<char>| #[trigger]
                keys.contains(key) <==> texts.contains(key)
    } else {
        seq![]
    }
}

/// The elements of a finite set of texts, and no others, are put in ascending order.
pub proof fn texts_can_be_ordered(texts: Set<Seq<char>>)
    ensures
        crate::order::ascending::<String>(ordered(texts)),
        forall|key: Seq<char>| #[trigger]
            ordered(texts).contains(key) <==> texts.finite() && texts.contains(key),
{
    if texts.finite() {
        finite_texts_can_be_ordered(texts);
    }
}

/// A finite set of texts can be put in ascending order.
proof fn finite_texts_can_be_ordered(texts: Set<Seq<char>>)
    requires
        texts.finite(),
    ensures
        crate::order::ascending::<String>(ordered(texts)),
        forall|key: Seq<char>| #[trigger] ordered(texts).contains(key) <==> texts.contains(key),
{
    let keys = texts.to_seq();
    let arranged = crate::order::arrangement::<String>(keys);
    crate::order::arrangement_arranges::<String>(keys);
    assert forall|key: Seq<char>| #[trigger] arranged.contains(key) <==> texts.contains(key) by {
        texts.lemma_to_seq_to_set_id();
        assert(keys.to_set().contains(key) <==> keys.contains(key));
    }
}

impl<V> Table<V> {
    /// The keys, in the order of the table.
    pub closed spec fn keys(&self) -> Seq<Seq<char>> {
        self.items@.map_values(|item: (String, V)| item.0@)
    }

    /// The values, in the order of the table.
    pub closed spec fn values(&self) -> Seq<V> {
        self.items@.map_values(|item: (String, V)| item.1)
    }

    /// The keys ascend.
    pub open spec fn sorted(&self) -> bool {
        crate::order::ascending::<String>(self.keys())
    }
}

impl<V: DeepView> Table<V> {
    /// The map holds exactly the items of the table.
    proof fn items_are_the_map(&self)
        requires
            self.sorted(),
        ensures
            forall|i: int|
                0 <= i < self.items@.len() ==> self.deep_view().contains_key(
                    (#[trigger] self.items@[i]).0@,
                ) && self.deep_view()[self.items@[i].0@] == self.items@[i].1.deep_view(),
            forall|key: Seq<char>| #[trigger]
                self.deep_view().contains_key(key) ==> exists|i: int|
                    0 <= i < self.items@.len() && (#[trigger] self.items@[i]).0@ == key,
            self.keys().len() == self.items@.len(),
    {
        let keys = self.keys();
        assert forall|i: int| 0 <= i < self.items@.len() implies self.deep_view().contains_key(
            (#[trigger] self.items@[i]).0@,
        ) && self.deep_view()[self.items@[i].0@] == self.items@[i].1.deep_view() by {
            let key = self.items@[i].0@;
            assert(keys[i] == key);
            assert(keys.contains(key));
            let p = position(self.items@, key);
            assert(0 <= p < self.items@.len() && self.items@[p].0@ == key);
            assert(keys[p] == key);
            String::before_irreflexive(key);
            if p < i {
                assert(String::before(keys[p], keys[i]));
            } else if i < p {
                assert(String::before(keys[i], keys[p]));
            }
        }
        assert forall|key: Seq<char>| #[trigger]
            self.deep_view().contains_key(key) implies exists|i: int|
            0 <= i < self.items@.len() && (#[trigger] self.items@[i]).0@ == key by {
            let i = choose|i: int| 0 <= i < keys.len() && keys[i] == key;
            assert(self.items@[i].0@ == key);
        }
    }

    /// The keys of the table are those of its map, which are finitely many, in ascending order.
    pub proof fn keys_are_ordered(&self)
        requires
            self.sorted(),
        ensures
            self.deep_view().dom().finite(),
            self.keys() == ordered(self.deep_view().dom()),
    {
        self.items_are_the_map();
        let keys = self.keys();
        let texts = self.deep_view().dom();
        assert(texts =~= keys.to_set());
        assert(crate::order::ascending::<String>(keys) && forall|key: Seq<char>| #[trigger]
            keys.contains(key) <==> texts.contains(key));
        crate::order::ascending_is_unique::<String>(keys, ordered(texts));
    }

    /// An empty table.
    pub fn new() -> (r: Table<V>)
        ensures
            r.sorted(),
            r.keys().len() == 0,
            r.values().len() == 0,
            r.deep_view() == Map::<Seq<char>, V::V>::empty(),
    {
        let r = Table { items: Vec::new() };
        assert(r.deep_view() =~= Map::empty());
        r
    }

    /// The number of keys.
    pub fn len(&self) -> (r: usize)
        ensures
            r == self.keys().len(),
    {
        self.items.len()
    }

    /// The key and the value at a position.
    pub fn at(&self, i: usize) -> (r: (&String, &V))
        requires
            self.sorted(),
            i < self.keys().len(),
        ensures
            r.0@ == self.keys()[i as int],
            self.deep_view().contains_key(r.0@),
            r.1.deep_view() == self.deep_view()[r.0@],
    {
        proof {
            self.items_are_the_map();
        }
        (&self.items[i].0, &self.items[i].1)
    }

    /// The position of a key, or the position where it belongs.
    fn find(&self, key: &String) -> (r: Result<usize, usize>)
        requires
            self.sorted(),
        ensures
            match r {
                Ok(i) => i < self.items@.len() && self.items@[i as int].0@ == key@,
                Err(i) => {
                    &&& i <= self.items@.len()
                    &&& forall|j: int|
                        0 <= j < i ==> #[trigger] String::before(self.keys()[j], key@)
                    &&& i < self.items@.len() ==> String::before(key@, self.keys()[i as int])
                    &&& !self.keys().contains(key@)
                },
            },
    {
        let ghost keys = self.keys();
        let mut i: usize = 0;
        while i < self.items.len() && self.items[i].0.precedes(key)
            invariant
                i <= self.items@.len(),
                keys == self.keys(),
                forall|j: int| 0 <= j < i ==> #[trigger] String::before(keys[j], key@),
            decreases self.items@.len() - i,
        {
            i = i + 1;
        }
        if i < self.items.len() && self.items[i].0 == *key {
            return Ok(i);
        }
        proof {
            if i < self.items.len() {
                String::before_total(keys[i as int], key@);
            }
            if keys.contains(key@) {
                let j = choose|j: int| 0 <= j < keys.len() && keys[j] == key@;
                String::before_irreflexive(key@);
                if j < i {
                    assert(String::before(keys[j], key@));
                } else if i < j {
                    assert(String::before(keys[i as int], keys[j]));
                    String::before_transitive(key@, keys[i as int], key@);
                }
            }
        }
        Err(i)
    }

    /// The value of a key.
    pub fn get(&self, key: &String) -> (r: Option<&V>)
        requires
            self.sorted(),
        ensures
            match r {
                Some(value) => self.deep_view().contains_key(key@) && self.deep_view()[key@]
                    == value.deep_view(),
                None => !self.deep_view().contains_key(key@),
            },
    {
        proof {
            self.items_are_the_map();
        }
        match self.find(key) {
            Ok(i) => Some(&self.items[i].1),
            Err(_) => None,
        }
    }

    /// Gives a key a value.
    pub fn insert(&mut self, key: String, value: V)
        requires
            old(self).sorted(),
        ensures
            final(self).sorted(),
            final(self).deep_view() == old(self).deep_view().insert(key@, value.deep_view()),
            forall|v: V| #[trigger]
                final(self).values().contains(v) ==> v == value || old(self).values().contains(v),
    {
        proof {
            self.items_are_the_map();
        }
        let ghost before = *self;
        let found = self.find(&key);
        match found {
            Ok(i) => {
                self.items.set(i, (key, value));
                assert(self.keys() =~= before.keys());
                proof {
                    self.items_are_the_map();
                }
                assert(self.items@[i as int].1 == value);
                assert forall|k: Seq<char>| self.deep_view().contains_key(k) && k != key@ implies
                    self.deep_view()[k] == before.deep_view()[k] by {
                    let j = choose|j: int|
                        0 <= j < self.items@.len() && (#[trigger] self.items@[j]).0@ == k;
                    assert(before.items@[j] == self.items@[j]);
                }
            },
            Err(i) => {
                self.items.insert(i, (key, value));
                proof {
                    crate::order::insert_keeps_ascending::<String>(
                        before.keys(),
                        i as int,
                        key@,
                    );
                    assert(self.keys() =~= before.keys().insert(i as int, key@));
                    self.items_are_the_map();
                    assert(self.items@[i as int].1 == value);
                    assert forall|k: Seq<char>| self.deep_view().contains_key(k) && k != key@ implies
                        self.deep_view()[k] == before.deep_view()[k] by {
                        let j = choose|j: int|
                            0 <= j < self.items@.len() && (#[trigger] self.items@[j]).0@ == k;
                        assert(before.items@[if j < i { j } else { j - 1 }] == self.items@[j]);
                    }
                }
            },
        }
        assert(self.deep_view() =~= before.deep_view().insert(key@, value.deep_view()));
        assert forall|v: V| #[trigger] self.values().contains(v) implies v == value
            || before.values().contains(v) by {
            let j = choose|j: int| 0 <= j < self.values().len() && self.values()[j] == v;
            if self.items@[j].1 != value {
                let p = if found is Err && found->Err_0 < j {
                    j - 1
                } else {
                    j
                };
                assert(before.items@[p] == self.items@[j]);
                assert(before.values()[p] == v);
            }
        }
    }
}

/// The sequence numbers that `serde_json` reads from an object of integers.
pub uninterp spec fn sequences_of_text(text: Seq<char>) -> Option<Map<Seq<char>, i64>>;

/// The compact text of an object of integers.
pub uninterp spec fn sequences_text(sequences: Map<Seq<char>, i64>) -> Seq<char>;

/// The sequence numbers that `serde_json` reads from an object of objects of integers.
pub uninterp spec fn local_of_text(text: Seq<char>) -> Option<Map<Seq<char>, Map<Seq<char>, i64>>>;

/// The compact text of an object of objects of integers.
pub uninterp spec fn local_text(local: Map<Seq<char>, Map<Seq<char>, i64>>) -> Seq<char>;

/// The sequence numbers that a file holds; a missing or malformed file holds none.
pub open spec fn sequences_in(text: Option<Seq<char>>) -> Map<Seq<char>, i64> {
    match text {
        Some(text) => match sequences_of_text(text) {
            Some(sequences) => sequences,
            None => Map::empty(),
        },
        None => Map::empty(),
    }
}

/// The sequence numbers of other apps that a file holds; a missing or malformed file holds none.
pub open spec fn local_in(text: Option<Seq<char>>) -> Map<Seq<char>, Map<Seq<char>, i64>> {
    match text {
        Some(text) => match local_of_text(text) {
            Some(local) => local,
            None => Map::empty(),
        },
        None => Map::empty(),
    }
}

/// The text of a file with sequence numbers.
pub open spec fn sequences_file_text(sequences: Map<Seq<char>, i64>) -> Seq<char> {
    crate::file_utils::lines_text(seq![sequences_text(sequences)])
}

/// The text of a file with the sequence numbers of other apps.
pub open spec fn local_file_text(local: Map<Seq<char>, Map<Seq<char>, i64>>) -> Seq<char> {
    crate::file_utils::lines_text(seq![local_text(local)])
}

/// The next sequence number. It wraps around: only a change of the number matters.
pub open spec fn next_sequence(sequence: i64) -> i64 {
    if sequence == i64::MAX {
        i64::MIN
    } else {
        (sequence + 1) as i64
    }
}

/// The sequence numbers after one more change of a file.
pub open spec fn bumped(sequences: Map<Seq<char>, i64>, hash: Seq<char>) -> Map<Seq<char>, i64> {
    sequences.insert(
        hash,
        next_sequence(
            if sequences.contains_key(hash) {
                sequences[hash]
            } else {
                0
            },
        ),
    )
}

/// The sequence number up to which a file of an app has been read.
pub open spec fn read_up_to(
    local: Map<Seq<char>, Map<Seq<char>, i64>>,
    app_id: Seq<char>,
    hash: Seq<char>,
) -> i64 {
    if local.contains_key(app_id) && local[app_id].contains_key(hash) {
        local[app_id][hash]
    } else {
        0
    }
}

/// The read state after a file of an app has been read up to a sequence number.
pub open spec fn acknowledged(
    local: Map<Seq<char>, Map<Seq<char>, i64>>,
    app_id: Seq<char>,
    hash: Seq<char>,
    sequence: i64,
) -> Map<Seq<char>, Map<Seq<char>, i64>> {
    local.insert(
        app_id,
        (if local.contains_key(app_id) {
            local[app_id]
        } else {
            Map::empty()
        }).insert(hash, sequence),
    )
}

/// No line of the text is an entry.
pub open spec fn holds_no_entries(text: Seq<char>) -> bool {
    forall|i: int|
        0 <= i < crate::file_utils::file_lines(Some(text)).len()
            ==> crate::json::path_entry_of_text(
            #[trigger] crate::file_utils::file_lines(Some(text))[i],
        ) is None
}

/// `serde_json::from_str` into a `BTreeMap<String, i64>`, whose pairs come out in ascending order
/// of their keys; `None` where the text does not hold one.
///
/// What a text holds is named, not stated. In an object of integers no bracket opens but inside a
/// string, and no string goes over a line break, so none of its lines is an array, as an entry is.
#[verifier::external_body]
fn parse_sequences(text: &str) -> (r: Option<Sequences>)
    ensures
        r is Some <==> sequences_of_text(text@) is Some,
        r matches Some(sequences) ==> sequences.sorted() && sequences_of_text(text@) == Some(
            sequences.deep_view(),
        ),
        r is Some ==> holds_no_entries(text@),
{
    let map: std::collections::BTreeMap<String, i64> = serde_json::from_str(text).ok()?;
    Some(Table { items: map.into_iter().collect() })
}

/// `serde_json::to_string` of a `BTreeMap<String, i64>`.
///
/// The text is named. It has no line breaks, and reading it with a line feed after it gives back
/// what was written.
#[verifier::external_body]
fn print_sequences(sequences: &Sequences) -> (r: String)
    requires
        sequences.sorted(),
    ensures
        r@ == sequences_text(sequences.deep_view()),
        crate::json::one_line(r@),
        sequences_of_text(r@.push('\n')) == Some(sequences.deep_view()),
{
    let map: std::collections::BTreeMap<String, i64> = sequences.items.iter().cloned().collect();
    serde_json::to_string(&map).unwrap()
}

/// `serde_json::from_str` into a `BTreeMap<String, BTreeMap<String, i64>>`, whose pairs come out
/// in ascending order of their keys; `None` where the text does not hold one.
///
/// What a text holds is named, not stated.
#[verifier::external_body]
fn parse_local_sequences(text: &str) -> (r: Option<LocalSequences>)
    ensures
        r is Some <==> local_of_text(text@) is Some,
        r matches Some(local) ==> all_sorted(&local) && local_of_text(text@) == Some(
            local.deep_view(),
        ),
{
    let map: std::collections::BTreeMap<String, std::collections::BTreeMap<String, i64>> =
        serde_json::from_str(text).ok()?;
    let table = |(id, inner): (String, std::collections::BTreeMap<String, i64>)| {
        (id, Table { items: inner.into_iter().collect() })
    };
    Some(Table { items: map.into_iter().map(table).collect() })
}

/// `serde_json::to_string` of a `BTreeMap<String, BTreeMap<String, i64>>`.
///
/// The text is named. It has no line breaks, and reading it with a line feed after it gives back
/// what was written.
#[verifier::external_body]
fn print_local_sequences(local: &LocalSequences) -> (r: String)
    requires
        all_sorted(local),
    ensures
        r@ == local_text(local.deep_view()),
        crate::json::one_line(r@),
        local_of_text(r@.push('\n')) == Some(local.deep_view()),
{
    let inner = |(id, table): &(String, Sequences)| {
        (id.clone(), table.items.iter().cloned().collect())
    };
    let map: std::collections::BTreeMap<String, std::collections::BTreeMap<String, i64>> =
        local.items.iter().map(inner).collect();
    serde_json::to_string(&map).unwrap()
}

/// The table and the tables in it are sorted.
pub open spec fn all_sorted(local: &LocalSequences) -> bool {
    local.sorted() && local.inner_sorted()
}

impl Table<Table<i64>> {
    /// The tables in the table are sorted.
    pub closed spec fn inner_sorted(&self) -> bool {
        forall|inner: Sequences| #[trigger] self.values().contains(inner) ==> inner.sorted()
    }

    /// The sequence number up to which a file of an app has been read.
    pub fn already_read(&self, app_id: &String, hash: &String) -> (r: i64)
        requires
            all_sorted(self),
        ensures
            r == read_up_to(self.deep_view(), app_id@, hash@),
    {
        proof {
            self.items_are_the_map();
        }
        match self.find(app_id) {
            Ok(i) => {
                assert(self.values()[i as int] == self.items@[i as int].1);
                assert(self.values().contains(self.items@[i as int].1));
                match self.items[i].1.get(hash) {
                    Some(sequence) => *sequence,
                    None => 0,
                }
            },
            Err(_) => 0,
        }
    }

    /// Records that a file of an app has been read up to a sequence number.
    pub fn acknowledge(&mut self, app_id: &String, hash: &String, sequence: i64)
        requires
            all_sorted(old(self)),
        ensures
            all_sorted(final(self)),
            final(self).deep_view() == acknowledged(
                old(self).deep_view(),
                app_id@,
                hash@,
                sequence,
            ),
    {
        proof {
            self.items_are_the_map();
        }
        let ghost before = *self;
        let mut inner: Sequences = match self.find(app_id) {
            Ok(i) => {
                assert(self.values()[i as int] == self.items@[i as int].1);
                assert(self.values().contains(self.items@[i as int].1));
                self.items[i].1.copy()
            },
            Err(_) => Table::new(),
        };
        inner.insert(hash.clone(), sequence);
        self.insert(app_id.clone(), inner);
        proof {
            self.items_are_the_map();
        }
    }
}

impl Table<i64> {
    /// A copy of the table.
    fn copy(&self) -> (r: Sequences)
        requires
            self.sorted(),
        ensures
            r.sorted(),
            r.deep_view() == self.deep_view(),
    {
        let mut items: Vec<(String, i64)> = Vec::new();
        let mut i: usize = 0;
        while i < self.items.len()
            invariant
                i <= self.items@.len(),
                items@.len() == i,
                forall|j: int| 0 <= j < i ==> #[trigger] items@[j] == self.items@[j],
            decreases self.items@.len() - i,
        {
            items.push((self.items[i].0.clone(), self.items[i].1));
            i = i + 1;
        }
        assert(items@ =~= self.items@);
        let r = Table { items };
        assert(r.keys() == self.keys());
        assert(r.deep_view() =~= self.deep_view());
        r
    }

    /// Counts one more change of a file.
    pub fn bump(&mut self, hash: &String)
        requires
            old(self).sorted(),
        ensures
            final(self).sorted(),
            final(self).deep_view() == bumped(old(self).deep_view(), hash@),
    {
        let sequence: i64 = match self.get(hash) {
            Some(sequence) => *sequence,
            None => 0,
        };
        self.insert(hash.clone(), sequence.wrapping_add(1));
    }
}

/// Reads the sequence numbers of an app, given the text of their file.
pub fn read_sequences(text: Option<&String>) -> (r: Sequences)
    ensures
        r.sorted(),
        r.deep_view() == sequences_in(crate::text::text_view(text)),
        r.keys().len() > 0 ==> crate::store::stored_entries(crate::text::text_view(text)).len() == 0,
{
    match text {
        Some(text) => match parse_sequences(text.as_str()) {
            Some(sequences) => {
                proof {
                    crate::store::nothing_is_stored(crate::file_utils::file_lines(Some(text@)));
                }
                sequences
            },
            None => Table::new(),
        },
        None => Table::new(),
    }
}

/// The text of the file with the sequence numbers of an app. Reading it gives them back.
pub fn write_sequences(sequences: &Sequences) -> (r: String)
    requires
        sequences.sorted(),
    ensures
        r@ == sequences_file_text(sequences.deep_view()),
        sequences_in(Some(r@)) == sequences.deep_view(),
{
    let mut lines: Vec<String> = Vec::new();
    lines.push(print_sequences(sequences));
    let r = write_lines(None, &lines, false);
    proof {
        single_line_text(lines@[0]@);
        assert(lines.deep_view() =~= seq![lines@[0]@]);
    }
    r
}

/// Reads the sequence numbers that have been read, given the text of their file.
pub fn read_local_sequences(text: Option<&String>) -> (r: LocalSequences)
    ensures
        all_sorted(&r),
        r.deep_view() == local_in(crate::text::text_view(text)),
{
    match text {
        Some(text) => match parse_local_sequences(text.as_str()) {
            Some(local) => local,
            None => Table::new(),
        },
        None => Table::new(),
    }
}

/// The text of the file with the sequence numbers that have been read. Reading it gives them
/// back.
pub fn write_local_sequences(local: &LocalSequences) -> (r: String)
    requires
        all_sorted(local),
    ensures
        r@ == local_file_text(local.deep_view()),
        local_in(Some(r@)) == local.deep_view(),
{
    let mut lines: Vec<String> = Vec::new();
    lines.push(print_local_sequences(local));
    let r = write_lines(None, &lines, false);
    proof {
        single_line_text(lines@[0]@);
        assert(lines.deep_view() =~= seq![lines@[0]@]);
    }
    r
}

/// A file with one line.
proof fn single_line_text(line: Seq<char>)
    ensures
        crate::file_utils::lines_text(seq![line]) == line.push('\n'),
{
    let lines = seq![line];
    assert(lines.skip(1).len() == 0);
    assert(crate::file_utils::lines_text(lines.skip(1)) == Seq::<char>::empty());
    assert(crate::file_utils::lines_text(lines) =~= line.push('\n'));
}

/// Counting a change adds one to the sequence number of the file, which starts at nought and wraps
/// around behind the largest number, and leaves every other number.
pub proof fn counting_adds_one(
    sequences: Map<Seq<char>, i64>,
    hash: Seq<char>,
    other: Seq<char>,
)
    ensures
        ({
            let before: int = if sequences.contains_key(hash) {
                sequences[hash] as int
            } else {
                0
            };
            let after = bumped(sequences, hash);
            &&& after.contains_key(hash)
            &&& after[hash] as int == if before == 0x7fff_ffff_ffff_ffff {
                -0x8000_0000_0000_0000
            } else {
                before + 1
            }
            &&& other != hash ==> after.contains_key(other) == sequences.contains_key(other)
                && after[other] == sequences[other]
        }),
{
}

/// What has been read of a file is the number that was recorded last, and nought before; recording
/// leaves what has been read of every other file.
pub proof fn reading_is_recorded(
    local: Map<Seq<char>, Map<Seq<char>, i64>>,
    app_id: Seq<char>,
    hash: Seq<char>,
    sequence: i64,
    other_id: Seq<char>,
    other: Seq<char>,
)
    ensures
        read_up_to(Map::empty(), app_id, hash) == 0,
        read_up_to(acknowledged(local, app_id, hash, sequence), app_id, hash) == sequence,
        other_id != app_id || other != hash ==> read_up_to(
            acknowledged(local, app_id, hash, sequence),
            other_id,
            other,
        ) == read_up_to(local, other_id, other),
{
}

/// A file that is missing or malformed holds no sequence numbers, and every other one those that
/// are read from it.
pub proof fn missing_sequences_are_none(text: Seq<char>)
    ensures
        sequences_in(None) == Map::<Seq<char>, i64>::empty(),
        sequences_of_text(text) is None ==> sequences_in(Some(text)) == Map::<
            Seq<char>,
            i64,
        >::empty(),
        sequences_of_text(text) is Some ==> sequences_of_text(text) == Some(
            sequences_in(Some(text)),
        ),
        local_in(None) == Map::<Seq<char>, Map<Seq<char>, i64>>::empty(),
        local_of_text(text) is None ==> local_in(Some(text)) == Map::<
            Seq<char>,
            Map<Seq<char>, i64>,
        >::empty(),
        local_of_text(text) is Some ==> local_of_text(text) == Some(local_in(Some(text))),
{
}

/// A file with sequence numbers is one line.
pub proof fn sequence_numbers_are_one_line(
    sequences: Map<Seq<char>, i64>,
    local: Map<Seq<char>, Map<Seq<char>, i64>>,
)
    ensures
        sequences_file_text(sequences) == sequences_text(sequences) + seq!['\n'],
        local_file_text(local) == local_text(local) + seq!['\n'],
{
    single_line_text(sequences_text(sequences));
    single_line_text(local_text(local));
    assert(sequences_text(sequences).push('\n') =~= sequences_text(sequences) + seq!['\n']);
    assert(local_text(local).push('\n') =~= local_text(local) + seq!['\n']);
}

} // verus!
