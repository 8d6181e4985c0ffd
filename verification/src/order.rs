//! The orders that decide which entry is newer and in which sequence groups are handled.
//!
//! Texts are ordered by their UTF-8 bytes and paths component by component, as
//! `String` and `Vec<String>` are.

use vstd::prelude::*;
use vstd::utf8::*;

verus! {

/// Lexicographic order of byte sequences: `a` comes strictly before `b`.
pub open spec fn bytes_before(a: Seq<u8>, b: Seq<u8>) -> bool
    decreases a.len(),
{
    if b.len() == 0 {
        false
    } else if a.len() == 0 {
        true
    } else if a[0] != b[0] {
        a[0] < b[0]
    } else {
        bytes_before(a.drop_first(), b.drop_first())
    }
}

/// Order of texts: by their UTF-8 bytes.
pub open spec fn text_before(a: Seq<char>, b: Seq<char>) -> bool {
    bytes_before(encode_utf8(a), encode_utf8(b))
}

/// Order of paths: lexicographic in their components.
pub open spec fn path_before(a: Seq<Seq<char>>, b: Seq<Seq<char>>) -> bool
    decreases a.len(),
{
    if b.len() == 0 {
        false
    } else if a.len() == 0 {
        true
    } else if a[0] != b[0] {
        text_before(a[0], b[0])
    } else {
        path_before(a.drop_first(), b.drop_first())
    }
}

proof fn bytes_before_irreflexive(a: Seq<u8>)
    ensures
        !bytes_before(a, a),
    decreases a.len(),
{
    if a.len() > 0 {
        bytes_before_irreflexive(a.drop_first());
    }
}

proof fn bytes_before_transitive(a: Seq<u8>, b: Seq<u8>, c: Seq<u8>)
    requires
        bytes_before(a, b),
        bytes_before(b, c),
    ensures
        bytes_before(a, c),
    decreases a.len(),
{
    if a.len() > 0 && a[0] == b[0] && b[0] == c[0] {
        bytes_before_transitive(a.drop_first(), b.drop_first(), c.drop_first());
    }
}

proof fn bytes_before_total(a: Seq<u8>, b: Seq<u8>)
    ensures
        a == b || bytes_before(a, b) || bytes_before(b, a),
    decreases a.len(),
{
    if a.len() > 0 && b.len() > 0 && a[0] == b[0] {
        bytes_before_total(a.drop_first(), b.drop_first());
        if a.drop_first() == b.drop_first() {
            assert(a == seq![a[0]] + a.drop_first());
            assert(b == seq![b[0]] + b.drop_first());
        }
    } else if a.len() == 0 && b.len() == 0 {
        assert(a == b);
    }
}

/// No text comes before itself.
pub proof fn text_before_irreflexive(a: Seq<char>)
    ensures
        !text_before(a, a),
{
    bytes_before_irreflexive(encode_utf8(a));
}

/// The order of texts is transitive.
pub proof fn text_before_transitive(a: Seq<char>, b: Seq<char>, c: Seq<char>)
    requires
        text_before(a, b),
        text_before(b, c),
    ensures
        text_before(a, c),
{
    bytes_before_transitive(encode_utf8(a), encode_utf8(b), encode_utf8(c));
}

/// Of two different texts one comes before the other.
pub proof fn text_before_total(a: Seq<char>, b: Seq<char>)
    ensures
        a == b || text_before(a, b) || text_before(b, a),
{
    bytes_before_total(encode_utf8(a), encode_utf8(b));
    encode_utf8_decode_utf8(a);
    encode_utf8_decode_utf8(b);
}

proof fn path_before_irreflexive(a: Seq<Seq<char>>)
    ensures
        !path_before(a, a),
    decreases a.len(),
{
    if a.len() > 0 {
        path_before_irreflexive(a.drop_first());
    }
}

proof fn path_before_transitive(a: Seq<Seq<char>>, b: Seq<Seq<char>>, c: Seq<Seq<char>>)
    requires
        path_before(a, b),
        path_before(b, c),
    ensures
        path_before(a, c),
    decreases a.len(),
{
    if a.len() > 0 {
        if a[0] == b[0] && b[0] == c[0] {
            path_before_transitive(a.drop_first(), b.drop_first(), c.drop_first());
        } else if a[0] != b[0] && b[0] != c[0] {
            text_before_transitive(a[0], b[0], c[0]);
            text_before_irreflexive(a[0]);
        }
    }
}

proof fn path_before_total(a: Seq<Seq<char>>, b: Seq<Seq<char>>)
    ensures
        a == b || path_before(a, b) || path_before(b, a),
    decreases a.len(),
{
    if a.len() > 0 && b.len() > 0 {
        if a[0] == b[0] {
            path_before_total(a.drop_first(), b.drop_first());
            if a.drop_first() == b.drop_first() {
                assert(a == seq![a[0]] + a.drop_first());
                assert(b == seq![b[0]] + b.drop_first());
            }
        } else {
            text_before_total(a[0], b[0]);
        }
    } else if a.len() == 0 && b.len() == 0 {
        assert(a == b);
    }
}

/// Whether the bytes of `a` come before those of `b`.
fn bytes_precede(a: &[u8], b: &[u8]) -> (r: bool)
    ensures
        r == bytes_before(a@, b@),
{
    let mut i: usize = 0;
    assert(a@.skip(0) == a@);
    assert(b@.skip(0) == b@);
    while i < a.len() && i < b.len()
        invariant
            i <= a@.len(),
            i <= b@.len(),
            bytes_before(a@, b@) == bytes_before(a@.skip(i as int), b@.skip(i as int)),
        decreases a@.len() - i,
    {
        if a[i] != b[i] {
            return a[i] < b[i];
        }
        assert(a@.skip(i as int).drop_first() == a@.skip(i + 1));
        assert(b@.skip(i as int).drop_first() == b@.skip(i + 1));
        i = i + 1;
    }
    i < b.len()
}

/// Whether text `a` comes before text `b`.
pub fn text_precedes(a: &String, b: &String) -> (r: bool)
    ensures
        r == text_before(a@, b@),
{
    bytes_precede(a.as_str().as_bytes(), b.as_str().as_bytes())
}

/// Whether two paths have the same components.
pub fn same_path(a: &Vec<String>, b: &Vec<String>) -> (r: bool)
    ensures
        r == (a.deep_view() == b.deep_view()),
{
    if a.len() != b.len() {
        assert(a.deep_view().len() != b.deep_view().len());
        return false;
    }
    let mut i: usize = 0;
    while i < a.len()
        invariant
            i <= a@.len(),
            a@.len() == b@.len(),
            forall|j: int| 0 <= j < i ==> a.deep_view()[j] == b.deep_view()[j],
        decreases a@.len() - i,
    {
        if a[i] != b[i] {
            assert(a.deep_view()[i as int] != b.deep_view()[i as int]);
            return false;
        }
        i = i + 1;
    }
    assert(a.deep_view() =~= b.deep_view());
    true
}

/// Whether `path` begins with the components of `prefix`.
pub fn path_starts_with(path: &Vec<String>, prefix: &Vec<String>) -> (r: bool)
    ensures
        r == prefix.deep_view().is_prefix_of(path.deep_view()),
{
    if prefix.len() > path.len() {
        return false;
    }
    let mut i: usize = 0;
    while i < prefix.len()
        invariant
            i <= prefix@.len(),
            prefix@.len() <= path@.len(),
            forall|j: int| 0 <= j < i ==> prefix.deep_view()[j] == path.deep_view()[j],
        decreases prefix@.len() - i,
    {
        if prefix[i] != path[i] {
            assert(path.deep_view().subrange(0, prefix@.len() as int)[i as int]
                == path.deep_view()[i as int]);
            return false;
        }
        i = i + 1;
    }
    assert(prefix.deep_view() =~= path.deep_view().subrange(0, prefix@.len() as int));
    true
}

/// Whether path `a` comes before path `b`.
pub fn path_precedes(a: &Vec<String>, b: &Vec<String>) -> (r: bool)
    ensures
        r == path_before(a.deep_view(), b.deep_view()),
{
    let ghost da = a.deep_view();
    let ghost db = b.deep_view();
    let mut i: usize = 0;
    assert(da.skip(0) == da);
    assert(db.skip(0) == db);
    while i < a.len() && i < b.len()
        invariant
            i <= a@.len(),
            i <= b@.len(),
            da == a.deep_view(),
            db == b.deep_view(),
            path_before(da, db) == path_before(da.skip(i as int), db.skip(i as int)),
        decreases a@.len() - i,
    {
        assert(da.skip(i as int)[0] == a@[i as int]@);
        assert(db.skip(i as int)[0] == b@[i as int]@);
        if a[i] != b[i] {
            return text_precedes(&a[i], &b[i]);
        }
        assert(da.skip(i as int).drop_first() == da.skip(i + 1));
        assert(db.skip(i as int).drop_first() == db.skip(i + 1));
        i = i + 1;
    }
    i < b.len()
}

/// Keys that a sorted collection can be arranged by.
pub trait Key: DeepView + Sized {
    /// `a` comes strictly before `b`.
    spec fn before(a: Self::V, b: Self::V) -> bool;

    proof fn before_irreflexive(a: Self::V)
        ensures
            !Self::before(a, a),
    ;

    proof fn before_transitive(a: Self::V, b: Self::V, c: Self::V)
        requires
            Self::before(a, b),
            Self::before(b, c),
        ensures
            Self::before(a, c),
    ;

    proof fn before_total(a: Self::V, b: Self::V)
        ensures
            a == b || Self::before(a, b) || Self::before(b, a),
    ;

    /// Whether this key comes before `other`.
    fn precedes(&self, other: &Self) -> (r: bool)
        ensures
            r == Self::before(self.deep_view(), other.deep_view()),
    ;

    /// A copy of this key.
    fn copy(&self) -> (r: Self)
        ensures
            r.deep_view() == self.deep_view(),
    ;
}

impl Key for String {
    open spec fn before(a: Seq<char>, b: Seq<char>) -> bool {
        text_before(a, b)
    }

    proof fn before_irreflexive(a: Seq<char>) {
        text_before_irreflexive(a);
    }

    proof fn before_transitive(a: Seq<char>, b: Seq<char>, c: Seq<char>) {
        text_before_transitive(a, b, c);
    }

    proof fn before_total(a: Seq<char>, b: Seq<char>) {
        text_before_total(a, b);
    }

    fn precedes(&self, other: &Self) -> (r: bool) {
        text_precedes(self, other)
    }

    fn copy(&self) -> (r: Self) {
        self.clone()
    }
}

impl Key for Vec<String> {
    open spec fn before(a: Seq<Seq<char>>, b: Seq<Seq<char>>) -> bool {
        path_before(a, b)
    }

    proof fn before_irreflexive(a: Seq<Seq<char>>) {
        path_before_irreflexive(a);
    }

    proof fn before_transitive(a: Seq<Seq<char>>, b: Seq<Seq<char>>, c: Seq<Seq<char>>) {
        path_before_transitive(a, b, c);
    }

    proof fn before_total(a: Seq<Seq<char>>, b: Seq<Seq<char>>) {
        path_before_total(a, b);
    }

    fn precedes(&self, other: &Self) -> (r: bool) {
        path_precedes(self, other)
    }

    fn copy(&self) -> (r: Self) {
        copy_path(self)
    }
}

/// A copy of a path.
pub fn copy_path(path: &Vec<String>) -> (r: Vec<String>)
    ensures
        r@ == path@,
        r.deep_view() == path.deep_view(),
{
    let r = path.clone();
    assert(r@ =~= path@);
    r
}

/// The keys stand in strictly ascending order.
pub open spec fn ascending<K: Key>(keys: Seq<K::V>) -> bool {
    forall|i: int, j: int|
        0 <= i < j < keys.len() ==> #[trigger] K::before(keys[i], #[trigger] keys[j])
}

/// `arranged` holds the distinct keys of `keys`, in ascending order.
pub open spec fn is_arrangement<K: Key>(keys: Seq<K::V>, arranged: Seq<K::V>) -> bool {
    &&& ascending::<K>(arranged)
    &&& forall|k: K::V| #[trigger] arranged.contains(k) <==> keys.contains(k)
}

/// The distinct keys of `keys`, in ascending order.
pub open spec fn arrangement<K: Key>(keys: Seq<K::V>) -> Seq<K::V> {
    choose|arranged: Seq<K::V>| is_arrangement::<K>(keys, arranged)
}

/// Ascending sequences of the same keys are the same.
pub proof fn ascending_is_unique<K: Key>(a: Seq<K::V>, b: Seq<K::V>)
    requires
        ascending::<K>(a),
        ascending::<K>(b),
        forall|k: K::V| #[trigger] a.contains(k) <==> b.contains(k),
    ensures
        a == b,
    decreases a.len(),
{
    if a.len() == 0 {
        if b.len() > 0 {
            assert(b.contains(b[0]));
            assert(a.contains(b[0]));
        }
        assert(a =~= b);
    } else {
        assert(a.contains(a[0]));
        assert(b.contains(a[0]));
        let i = choose|i: int| 0 <= i < b.len() && b[i] == a[0];
        assert(b.contains(b[0]));
        assert(a.contains(b[0]));
        let j = choose|j: int| 0 <= j < a.len() && a[j] == b[0];
        if i > 0 {
            assert(K::before(b[0], b[i]));
            if j > 0 {
                assert(K::before(a[0], a[j]));
                K::before_transitive(a[0], b[0], a[0]);
            }
            K::before_irreflexive(a[0]);
        }
        let c = a.drop_first();
        let d = b.drop_first();
        assert(a[0] == b[0]);
        assert forall|k: K::V| #[trigger] c.contains(k) <==> d.contains(k) by {
            if c.contains(k) {
                let p = choose|p: int| 0 <= p < c.len() && c[p] == k;
                assert(a[p + 1] == k);
                assert(a.contains(k));
                assert(b.contains(k));
                let q = choose|q: int| 0 <= q < b.len() && b[q] == k;
                assert(K::before(a[0], a[p + 1]));
                K::before_irreflexive(k);
                assert(d[q - 1] == k);
            }
            if d.contains(k) {
                let q = choose|q: int| 0 <= q < d.len() && d[q] == k;
                assert(b[q + 1] == k);
                assert(b.contains(k));
                assert(a.contains(k));
                let p = choose|p: int| 0 <= p < a.len() && a[p] == k;
                assert(K::before(b[0], b[q + 1]));
                K::before_irreflexive(k);
                assert(c[p - 1] == k);
            }
        }
        assert forall|p: int, q: int| 0 <= p < q < c.len() implies #[trigger] K::before(
            c[p],
            #[trigger] c[q],
        ) by {
            assert(K::before(a[p + 1], a[q + 1]));
        }
        assert forall|p: int, q: int| 0 <= p < q < d.len() implies #[trigger] K::before(
            d[p],
            #[trigger] d[q],
        ) by {
            assert(K::before(b[p + 1], b[q + 1]));
        }
        ascending_is_unique::<K>(c, d);
        assert(a =~= seq![a[0]] + c);
        assert(b =~= seq![b[0]] + d);
    }
}

/// Inserting a key between the smaller and the greater ones keeps the order.
pub proof fn insert_keeps_ascending<K: Key>(keys: Seq<K::V>, at: int, key: K::V)
    requires
        ascending::<K>(keys),
        0 <= at <= keys.len(),
        forall|j: int| 0 <= j < at ==> #[trigger] K::before(keys[j], key),
        at < keys.len() ==> K::before(key, keys[at]),
    ensures
        ascending::<K>(keys.insert(at, key)),
        forall|k: K::V| #[trigger]
            keys.insert(at, key).contains(k) <==> keys.contains(k) || k == key,
{
    let after = keys.insert(at, key);
    assert forall|i: int, j: int| 0 <= i < j < after.len() implies #[trigger] K::before(
        after[i],
        #[trigger] after[j],
    ) by {
        if i == at && j > at + 1 {
            assert(K::before(keys[at], keys[j - 1]));
            K::before_transitive(key, keys[at], keys[j - 1]);
        } else if i < at && j == at {
            assert(K::before(keys[i], key));
        } else if i != at && j != at {
            let p = if i < at { i } else { i - 1 };
            let q = if j < at { j } else { j - 1 };
            assert(K::before(keys[p], keys[q]));
        }
    }
    assert forall|k: K::V| #[trigger] after.contains(k) <==> keys.contains(k) || k == key by {
        if after.contains(k) {
            let i = choose|i: int| 0 <= i < after.len() && after[i] == k;
            if i != at {
                assert(keys[if i < at { i } else { i - 1 }] == k);
            }
        }
        if keys.contains(k) {
            let i = choose|i: int| 0 <= i < keys.len() && keys[i] == k;
            assert(after[if i < at { i } else { i + 1 }] == k);
        }
        assert(after[at] == key);
    }
}

/// There is a place for a key among ascending ones that do not hold it.
proof fn place_for_key<K: Key>(keys: Seq<K::V>, key: K::V) -> (at: int)
    requires
        ascending::<K>(keys),
        !keys.contains(key),
    ensures
        0 <= at <= keys.len(),
        forall|j: int| 0 <= j < at ==> #[trigger] K::before(keys[j], key),
        at < keys.len() ==> K::before(key, keys[at]),
    decreases keys.len(),
{
    if keys.len() == 0 {
        0
    } else {
        let last = keys.len() - 1;
        let rest = keys.drop_last();
        assert(keys.contains(keys[last]));
        K::before_total(key, keys[last]);
        if K::before(keys[last], key) {
            assert forall|j: int| 0 <= j < keys.len() implies #[trigger] K::before(keys[j], key) by {
                if j < last {
                    assert(K::before(keys[j], keys[last]));
                    K::before_transitive(keys[j], keys[last], key);
                }
            }
            keys.len() as int
        } else {
            assert forall|i: int, j: int| 0 <= i < j < rest.len() implies #[trigger] K::before(
                rest[i],
                #[trigger] rest[j],
            ) by {
                assert(K::before(keys[i], keys[j]));
            }
            if rest.contains(key) {
                let i = choose|i: int| 0 <= i < rest.len() && rest[i] == key;
                assert(keys[i] == key);
            }
            let at = place_for_key::<K>(rest, key);
            assert forall|j: int| 0 <= j < at implies #[trigger] K::before(keys[j], key) by {
                assert(K::before(rest[j], key));
            }
            at
        }
    }
}

/// The arrangement of keys holds exactly the keys, in ascending order.
pub proof fn arrangement_arranges<K: Key>(keys: Seq<K::V>)
    ensures
        is_arrangement::<K>(keys, arrangement::<K>(keys)),
    decreases keys.len(),
{
    if keys.len() == 0 {
        assert(is_arrangement::<K>(keys, keys));
    } else {
        let key = keys.last();
        let rest = keys.drop_last();
        arrangement_arranges::<K>(rest);
        let arranged = arrangement::<K>(rest);
        assert forall|k: K::V| #[trigger] keys.contains(k) <==> rest.contains(k) || k == key by {
            if keys.contains(k) {
                let i = choose|i: int| 0 <= i < keys.len() && keys[i] == k;
                if i < rest.len() {
                    assert(rest[i] == k);
                }
            }
            if rest.contains(k) {
                let i = choose|i: int| 0 <= i < rest.len() && rest[i] == k;
                assert(keys[i] == k);
            }
            assert(keys[keys.len() - 1] == key);
        }
        if arranged.contains(key) {
            assert(rest.contains(key));
            assert(is_arrangement::<K>(keys, arranged));
        } else {
            let at = place_for_key::<K>(arranged, key);
            insert_keeps_ascending::<K>(arranged, at, key);
            assert(is_arrangement::<K>(keys, arranged.insert(at, key)));
        }
    }
}

/// The distinct keys of `keys`, in ascending order.
pub fn distinct_keys<K: Key>(keys: &Vec<K>) -> (r: Vec<K>)
    ensures
        r.deep_view() == arrangement::<K>(keys.deep_view()),
        is_arrangement::<K>(keys.deep_view(), r.deep_view()),
{
    let ghost all = keys.deep_view();
    let mut r: Vec<K> = Vec::new();
    let mut i: usize = 0;
    while i < keys.len()
        invariant
            i <= keys@.len(),
            all == keys.deep_view(),
            ascending::<K>(r.deep_view()),
            forall|k: K::V| #[trigger]
                r.deep_view().contains(k) <==> all.take(i as int).contains(k),
        decreases keys@.len() - i,
    {
        let ghost seen = r.deep_view();
        let ghost key = all[i as int];
        let mut at: usize = 0;
        while at < r.len() && r[at].precedes(&keys[i])
            invariant
                i < keys@.len(),
                at <= r@.len(),
                all == keys.deep_view(),
                key == all[i as int],
                forall|j: int| 0 <= j < at ==> #[trigger] K::before(r.deep_view()[j], key),
            decreases r@.len() - at,
        {
            at = at + 1;
        }
        proof {
            assert(all.take(i + 1) == all.take(i as int).push(key));
            assert(all.take(i + 1).last() == key);
            assert forall|k: K::V| #[trigger] all.take(i + 1).contains(k) <==> all.take(
                i as int,
            ).contains(k) || k == key by {
                if all.take(i as int).contains(k) {
                    let j = choose|j: int| 0 <= j < i && all.take(i as int)[j] == k;
                    assert(all.take(i + 1)[j] == k);
                }
            }
            if at < r.len() {
                K::before_total(key, seen[at as int]);
            }
        }
        if at == r.len() || keys[i].precedes(&r[at]) {
            proof {
                insert_keeps_ascending::<K>(seen, at as int, key);
            }
            r.insert(at, keys[i].copy());
            assert(r.deep_view() =~= seen.insert(at as int, key));
        } else {
            assert(seen[at as int] == key);
        }
        i = i + 1;
    }
    assert(all.take(all.len() as int) == all);
    assert(is_arrangement::<K>(all, r.deep_view()));
    proof {
        ascending_is_unique::<K>(r.deep_view(), arrangement::<K>(all));
    }
    r
}

/// The first position that decides is `k`: up to it the bytes are the same, and there the first
/// sequence ends, or has the smaller byte.
pub open spec fn decides_at(a: Seq<u8>, b: Seq<u8>, k: int) -> bool {
    &&& 0 <= k <= a.len()
    &&& k < b.len()
    &&& a.take(k) == b.take(k)
    &&& k == a.len() || a[k] < b[k]
}

proof fn bytes_are_decided(a: Seq<u8>, b: Seq<u8>)
    ensures
        bytes_before(a, b) <==> exists|k: int| #[trigger] decides_at(a, b, k),
    decreases a.len(),
{
    if a.len() > 0 && b.len() > 0 && a[0] == b[0] {
        let c = a.drop_first();
        let d = b.drop_first();
        bytes_are_decided(c, d);
        if bytes_before(a, b) {
            let k = choose|k: int| #[trigger] decides_at(c, d, k);
            assert forall|i: int| 0 <= i < k + 1 implies a[i] == b[i] by {
                if i > 0 {
                    assert(c.take(k)[i - 1] == d.take(k)[i - 1]);
                }
            }
            assert(a.take(k + 1) =~= b.take(k + 1));
            assert(decides_at(a, b, k + 1));
        }
        if exists|k: int| #[trigger] decides_at(a, b, k) {
            let k = choose|k: int| #[trigger] decides_at(a, b, k);
            assert forall|i: int| 0 <= i < k - 1 implies c[i] == d[i] by {
                assert(a.take(k)[i + 1] == b.take(k)[i + 1]);
            }
            assert(k > 0);
            assert(c.take(k - 1) =~= d.take(k - 1));
            assert(decides_at(c, d, k - 1));
        }
    } else if b.len() > 0 {
        if bytes_before(a, b) {
            assert(a.take(0) =~= b.take(0));
            assert(decides_at(a, b, 0));
        }
        if exists|k: int| #[trigger] decides_at(a, b, k) {
            let k = choose|k: int| #[trigger] decides_at(a, b, k);
            if k > 0 {
                assert(a.take(k)[0] == b.take(k)[0]);
            }
        }
    }
}

/// A text comes before another one if the bytes of the first one are the smaller where they first
/// differ, or end there.
pub proof fn texts_are_ordered_by_their_bytes(a: Seq<char>, b: Seq<char>)
    ensures
        text_before(a, b) <==> exists|k: int| #[trigger]
            decides_at(encode_utf8(a), encode_utf8(b), k),
{
    bytes_are_decided(encode_utf8(a), encode_utf8(b));
}

/// The first component that decides is at position `k`: up to it the components are the same, and
/// there the first path ends, or has the component that comes before.
pub open spec fn path_decides_at(a: Seq<Seq<char>>, b: Seq<Seq<char>>, k: int) -> bool {
    &&& 0 <= k <= a.len()
    &&& k < b.len()
    &&& a.take(k) == b.take(k)
    &&& k == a.len() || (a[k] != b[k] && text_before(a[k], b[k]))
}

/// A path comes before another one if it has the component that comes before where they first
/// differ, or ends there.
pub proof fn paths_are_ordered_by_their_components(a: Seq<Seq<char>>, b: Seq<Seq<char>>)
    ensures
        path_before(a, b) <==> exists|k: int| #[trigger] path_decides_at(a, b, k),
    decreases a.len(),
{
    if a.len() > 0 && b.len() > 0 && a[0] == b[0] {
        let c = a.drop_first();
        let d = b.drop_first();
        paths_are_ordered_by_their_components(c, d);
        if path_before(a, b) {
            let k = choose|k: int| #[trigger] path_decides_at(c, d, k);
            assert forall|i: int| 0 <= i < k + 1 implies a[i] == b[i] by {
                if i > 0 {
                    assert(c.take(k)[i - 1] == d.take(k)[i - 1]);
                }
            }
            assert(a.take(k + 1) =~= b.take(k + 1));
            assert(path_decides_at(a, b, k + 1));
        }
        if exists|k: int| #[trigger] path_decides_at(a, b, k) {
            let k = choose|k: int| #[trigger] path_decides_at(a, b, k);
            assert forall|i: int| 0 <= i < k - 1 implies c[i] == d[i] by {
                assert(a.take(k)[i + 1] == b.take(k)[i + 1]);
            }
            assert(k > 0);
            assert(c.take(k - 1) =~= d.take(k - 1));
            assert(path_decides_at(c, d, k - 1));
        }
    } else if b.len() > 0 {
        if path_before(a, b) {
            assert(a.take(0) =~= b.take(0));
            assert(path_decides_at(a, b, 0));
        }
        if exists|k: int| #[trigger] path_decides_at(a, b, k) {
            let k = choose|k: int| #[trigger] path_decides_at(a, b, k);
            if k > 0 {
                assert(a.take(k)[0] == b.take(k)[0]);
            }
        }
    }
}

/// The distinct keys of some texts are the texts, each once, and every one comes before the next.
pub proof fn arranged_texts_ascend(texts: Seq<Seq<char>>, i: int, j: int, text: Seq<char>)
    ensures
        arrangement::<String>(texts).contains(text) <==> texts.contains(text),
        0 <= i < j < arrangement::<String>(texts).len() ==> text_before(
            arrangement::<String>(texts)[i],
            arrangement::<String>(texts)[j],
        ),
{
    arrangement_arranges::<String>(texts);
    let arranged = arrangement::<String>(texts);
    if 0 <= i < j < arranged.len() {
        assert(<String as Key>::before(arranged[i], arranged[j]));
    }
}

/// The distinct keys of some paths are the paths, each once, and every one comes before the next.
pub proof fn arranged_paths_ascend(
    paths: Seq<Seq<Seq<char>>>,
    i: int,
    j: int,
    path: Seq<Seq<char>>,
)
    ensures
        arrangement::<Vec<String>>(paths).contains(path) <==> paths.contains(path),
        0 <= i < j < arrangement::<Vec<String>>(paths).len() ==> path_before(
            arrangement::<Vec<String>>(paths)[i],
            arrangement::<Vec<String>>(paths)[j],
        ),
{
    arrangement_arranges::<Vec<String>>(paths);
    let arranged = arrangement::<Vec<String>>(paths);
    if 0 <= i < j < arranged.len() {
        assert(<Vec<String> as Key>::before(arranged[i], arranged[j]));
    }
}

} // verus!
