//! Maps keyed by strings, walked in the order of their keys.

use vstd::prelude::*;
use vstd::utf8::*;
use crate::text;

verus! {

/// The strict lexicographic order on byte strings.
pub open spec fn bytes_less(a: Seq<u8>, b: Seq<u8>) -> bool
    decreases a.len(),
{
    if b.len() == 0 {
        false
    } else if a.len() == 0 {
        true
    } else if a[0] == b[0] {
        bytes_less(a.drop_first(), b.drop_first())
    } else {
        a[0] < b[0]
    }
}

/// The strict order of strings: that of their UTF-8 bytes.
pub open spec fn text_less(a: Seq<char>, b: Seq<char>) -> bool {
    bytes_less(encode_utf8(a), encode_utf8(b))
}

proof fn lemma_bytes_less_irreflexive(a: Seq<u8>)
    ensures
        !bytes_less(a, a),
    decreases a.len(),
{
    if a.len() > 0 {
        lemma_bytes_less_irreflexive(a.drop_first());
    }
}

proof fn lemma_bytes_less_transitive(a: Seq<u8>, b: Seq<u8>, c: Seq<u8>)
    requires
        bytes_less(a, b),
        bytes_less(b, c),
    ensures
        bytes_less(a, c),
    decreases a.len(),
{
    if a.len() > 0 && a[0] == b[0] && b[0] == c[0] {
        lemma_bytes_less_transitive(a.drop_first(), b.drop_first(), c.drop_first());
    }
}

proof fn lemma_bytes_less_total(a: Seq<u8>, b: Seq<u8>)
    ensures
        a == b || bytes_less(a, b) || bytes_less(b, a),
    decreases a.len(),
{
    if a.len() > 0 && b.len() > 0 {
        lemma_bytes_less_total(a.drop_first(), b.drop_first());
        if a[0] == b[0] && a.drop_first() == b.drop_first() {
            assert(a =~= seq![a[0]] + a.drop_first());
            assert(b =~= seq![b[0]] + b.drop_first());
        }
    } else if a.len() == 0 && b.len() == 0 {
        assert(a =~= b);
    }
}

/// `text_less` is a strict total order.
pub proof fn lemma_text_less_order(a: Seq<char>, b: Seq<char>, c: Seq<char>)
    ensures
        !text_less(a, a),
        text_less(a, b) && text_less(b, c) ==> text_less(a, c),
        text_less(a, b) ==> !text_less(b, a),
        a == b || text_less(a, b) || text_less(b, a),
{
    lemma_bytes_less_irreflexive(encode_utf8(a));
    if text_less(a, b) && text_less(b, c) {
        lemma_bytes_less_transitive(encode_utf8(a), encode_utf8(b), encode_utf8(c));
    }
    if text_less(a, b) && text_less(b, a) {
        lemma_bytes_less_transitive(encode_utf8(a), encode_utf8(b), encode_utf8(a));
    }
    lemma_bytes_less_total(encode_utf8(a), encode_utf8(b));
    if encode_utf8(a) == encode_utf8(b) {
        text::lemma_utf8_injective(a, b);
    }
}

/// Whether one string comes before another.
pub fn str_less(a: &str, b: &str) -> (r: bool)
    ensures
        r == text_less(a@, b@),
{
    let x = a.as_bytes();
    let y = b.as_bytes();
    let mut i: usize = 0;
    assert(x@.skip(0) =~= x@);
    assert(y@.skip(0) =~= y@);
    while i < x.len() && i < y.len() && x[i] == y[i]
        invariant
            i <= x.len(),
            i <= y.len(),
            bytes_less(x@.skip(i as int), y@.skip(i as int)) == bytes_less(x@, y@),
        decreases x.len() - i,
    {
        assert(x@.skip(i as int).drop_first() =~= x@.skip(i + 1));
        assert(y@.skip(i as int).drop_first() =~= y@.skip(i + 1));
        i = i + 1;
    }
    assert(i < x.len() ==> x@.skip(i as int)[0] == x@[i as int]);
    assert(i < y.len() ==> y@.skip(i as int)[0] == y@[i as int]);
    if i == y.len() {
        false
    } else if i == x.len() {
        true
    } else {
        x[i] < y[i]
    }
}

/// Keys in strictly ascending order.
pub open spec fn ascending(keys: Seq<Seq<char>>) -> bool {
    forall|i: int, j: int| 0 <= i < j < keys.len() ==> text_less(#[trigger] keys[i], #[trigger] keys[j])
}

/// Ascending sequences with the same elements are equal.
pub proof fn lemma_ascending_unique(a: Seq<Seq<char>>, b: Seq<Seq<char>>)
    requires
        ascending(a),
        ascending(b),
        a.to_set() == b.to_set(),
    ensures
        a == b,
    decreases a.len(),
{
    if a.len() == 0 {
        if b.len() > 0 {
            assert(b.to_set().contains(b[0]));
            assert(a.to_set().contains(b[0]));
        }
        assert(a =~= b);
    } else {
        assert(a.to_set().contains(a.last()));
        assert(b.to_set().contains(a.last()));
        let j = choose|j: int| 0 <= j < b.len() && b[j] == a.last();
        assert(b.to_set().contains(b.last()));
        assert(a.to_set().contains(b.last()));
        let i = choose|i: int| 0 <= i < a.len() && a[i] == b.last();
        lemma_text_less_order(a.last(), b.last(), a.last());
        assert(a.last() == b.last());
        let x = a.last();
        let p = a.drop_last();
        let q = b.drop_last();
        assert forall|k: Seq<char>| p.to_set().contains(k) == q.to_set().contains(k) by {
            if p.to_set().contains(k) {
                let u = choose|u: int| 0 <= u < p.len() && p[u] == k;
                assert(a[u] == k);
                lemma_text_less_order(k, x, k);
                assert(a.to_set().contains(k));
                assert(b.to_set().contains(k));
                let w = choose|w: int| 0 <= w < b.len() && b[w] == k;
                assert(q[w] == k);
            }
            if q.to_set().contains(k) {
                let u = choose|u: int| 0 <= u < q.len() && q[u] == k;
                assert(b[u] == k);
                lemma_text_less_order(k, x, k);
                assert(b.to_set().contains(k));
                assert(a.to_set().contains(k));
                let w = choose|w: int| 0 <= w < a.len() && a[w] == k;
                assert(p[w] == k);
            }
        }
        assert(p.to_set() =~= q.to_set());
        lemma_ascending_unique(p, q);
        assert(a =~= p.push(x));
        assert(b =~= q.push(x));
    }
}

/// The elements of a set of strings, in ascending order.
pub open spec fn sorted(keys: Set<Seq<char>>) -> Seq<Seq<char>> {
    choose|s: Seq<Seq<char>>| ascending(s) && s.to_set() == keys
}

/// The ascending sequence of a set is unique.
pub proof fn lemma_sorted(s: Seq<Seq<char>>)
    requires
        ascending(s),
    ensures
        sorted(s.to_set()) == s,
{
    lemma_ascending_unique(s, sorted(s.to_set()));
}

/// Ascending keys are pairwise distinct.
pub proof fn lemma_ascending_distinct(s: Seq<Seq<char>>)
    requires
        ascending(s),
    ensures
        s.no_duplicates(),
        s.to_set().finite(),
        s.to_set().len() == s.len(),
{
    assert forall|i: int, j: int| 0 <= i < s.len() && 0 <= j < s.len() && i != j implies s[i] != s[j] by {
        lemma_text_less_order(s[i], s[j], s[i]);
        if i < j {
            assert(text_less(s[i], s[j]));
        } else {
            assert(text_less(s[j], s[i]));
        }
    }
    s.unique_seq_to_set();
    vstd::seq_lib::seq_to_set_is_finite(s);
}

/// An ascending sequence with one more element in its place.
spec fn with_key(s: Seq<Seq<char>>, k: Seq<char>) -> Seq<Seq<char>>
    decreases s.len(),
{
    if s.len() == 0 || text_less(k, s[0]) {
        seq![k] + s
    } else {
        seq![s[0]] + with_key(s.drop_first(), k)
    }
}

proof fn lemma_with_key(s: Seq<Seq<char>>, k: Seq<char>)
    requires
        ascending(s),
        !s.contains(k),
    ensures
        ascending(with_key(s, k)),
        with_key(s, k).to_set() == s.to_set().insert(k),
    decreases s.len(),
{
    let r = with_key(s, k);
    if s.len() == 0 || text_less(k, s[0]) {
        assert forall|i: int, j: int| 0 <= i < j < r.len() implies text_less(
            #[trigger] r[i],
            #[trigger] r[j],
        ) by {
            if i == 0 {
                if j > 1 {
                    assert(text_less(s[0], s[j - 1]));
                }
                lemma_text_less_order(k, s[0], s[j - 1]);
            } else {
                assert(text_less(s[i - 1], s[j - 1]));
            }
        }
        assert forall|x: Seq<char>| r.to_set().contains(x) == s.to_set().insert(k).contains(x) by {
            if r.contains(x) {
                let i = choose|i: int| 0 <= i < r.len() && r[i] == x;
                if i > 0 {
                    assert(s[i - 1] == x);
                }
            }
            if s.contains(x) {
                let i = choose|i: int| 0 <= i < s.len() && s[i] == x;
                assert(r[i + 1] == x);
            }
            assert(r[0] == k);
        }
    } else {
        let t = s.drop_first();
        assert(forall|i: int| 0 <= i < t.len() ==> t[i] == s[i + 1]);
        assert forall|i: int, j: int| 0 <= i < j < t.len() implies text_less(
            #[trigger] t[i],
            #[trigger] t[j],
        ) by {
            assert(text_less(s[i + 1], s[j + 1]));
        }
        lemma_with_key(t, k);
        let q = with_key(t, k);
        assert(s.contains(s[0]));
        lemma_text_less_order(k, s[0], k);
        assert(text_less(s[0], k));
        assert forall|i: int, j: int| 0 <= i < j < r.len() implies text_less(
            #[trigger] r[i],
            #[trigger] r[j],
        ) by {
            if i == 0 {
                assert(q.to_set().contains(q[j - 1]));
                if q[j - 1] != k {
                    assert(t.to_set().contains(q[j - 1]));
                    let u = choose|u: int| 0 <= u < t.len() && t[u] == q[j - 1];
                    assert(text_less(s[0], s[u + 1]));
                }
            } else {
                assert(text_less(q[i - 1], q[j - 1]));
            }
        }
        assert forall|x: Seq<char>| r.to_set().contains(x) == s.to_set().insert(k).contains(x) by {
            if r.contains(x) {
                let i = choose|i: int| 0 <= i < r.len() && r[i] == x;
                if i == 0 {
                    assert(s.to_set().contains(x));
                } else {
                    assert(q.to_set().contains(q[i - 1]));
                    if x != k {
                        assert(t.to_set().contains(x));
                        let u = choose|u: int| 0 <= u < t.len() && t[u] == x;
                        assert(s[u + 1] == x);
                    }
                }
            }
            if s.to_set().insert(k).contains(x) {
                if x == s[0] {
                    assert(r[0] == x);
                } else {
                    if x != k {
                        let i = choose|i: int| 0 <= i < s.len() && s[i] == x;
                        assert(t[i - 1] == x);
                    }
                    assert(q.to_set().contains(x));
                    let u = choose|u: int| 0 <= u < q.len() && q[u] == x;
                    assert(r[u + 1] == x);
                }
            }
        }
    }
    assert(r.to_set() =~= s.to_set().insert(k));
}

/// Every finite set of strings has its ascending sequence.
pub proof fn lemma_sorted_exists(keys: Set<Seq<char>>)
    requires
        keys.finite(),
    ensures
        ascending(sorted(keys)),
        sorted(keys).to_set() == keys,
    decreases keys.len(),
{
    if keys.len() == 0 {
        assert(keys =~= Set::empty());
        let s = Seq::<Seq<char>>::empty();
        assert(s.to_set() =~= keys);
        assert(ascending(s));
    } else {
        let k = keys.choose();
        let rest = keys.remove(k);
        lemma_sorted_exists(rest);
        let s = sorted(rest);
        assert(s.contains(k) ==> s.to_set().contains(k));
        lemma_with_key(s, k);
        assert(rest.insert(k) =~= keys);
        assert(ascending(with_key(s, k)) && with_key(s, k).to_set() == keys);
    }
}

/// A map keyed by strings. Its entries are kept in the order of their keys.
#[derive(Debug)]
pub struct StringMap<V> {
    entries: Vec<(String, V)>,
}

/// The keys of a sequence of entries.
spec fn entry_keys<V>(entries: Seq<(String, V)>) -> Seq<Seq<char>> {
    Seq::new(entries.len(), |i: int| entries[i].0@)
}

/// The map that a sequence of entries stands for.
spec fn entry_map<V: View>(entries: Seq<(String, V)>) -> Map<Seq<char>, V::V> {
    Map::new(
        |k: Seq<char>| entry_keys(entries).contains(k),
        |k: Seq<char>| entries[entry_keys(entries).index_of(k)].1@,
    )
}

impl<V> StringMap<V> {
    #[verifier::type_invariant]
    spec fn inv(&self) -> bool {
        ascending(entry_keys(self.entries@))
    }
}

impl<V: View> View for StringMap<V> {
    type V = Map<Seq<char>, V::V>;

    closed spec fn view(&self) -> Map<Seq<char>, V::V> {
        entry_map(self.entries@)
    }
}

/// Looking up the key of an entry finds that entry.
proof fn lemma_entry<V: View>(entries: Seq<(String, V)>, i: int)
    requires
        ascending(entry_keys(entries)),
        0 <= i < entries.len(),
    ensures
        entry_map(entries).contains_key(entries[i].0@),
        entry_map(entries)[entries[i].0@] == entries[i].1@,
{
    let keys = entry_keys(entries);
    lemma_ascending_distinct(keys);
    assert(keys[i] == entries[i].0@);
    assert(keys.contains(keys[i]));
}

/// The domain of an entry sequence, and its keys in order.
proof fn lemma_entries<V: View>(entries: Seq<(String, V)>)
    requires
        ascending(entry_keys(entries)),
    ensures
        entry_map(entries).dom() == entry_keys(entries).to_set(),
        sorted(entry_map(entries).dom()) == entry_keys(entries),
        entry_map(entries).dom().finite(),
        entry_map(entries).len() == entries.len(),
{
    let keys = entry_keys(entries);
    assert(entry_map(entries).dom() =~= keys.to_set());
    lemma_sorted(keys);
    lemma_ascending_distinct(keys);
}

impl<V: View> StringMap<V> {
    /// An empty map.
    pub fn new() -> (m: Self)
        ensures
            m@ == Map::<Seq<char>, V::V>::empty(),
    {
        let m = StringMap { entries: Vec::new() };
        assert(m@ =~= Map::<Seq<char>, V::V>::empty());
        m
    }

    /// The number of entries.
    pub fn len(&self) -> (n: usize)
        ensures
            n == self@.len(),
            n == sorted(self@.dom()).len(),
            self@.dom().finite(),
            ascending(sorted(self@.dom())),
            sorted(self@.dom()).to_set() == self@.dom(),
    {
        proof {
            use_type_invariant(self);
            lemma_entries(self.entries@);
        }
        self.entries.len()
    }

    /// Whether there is no entry.
    pub fn is_empty(&self) -> (r: bool)
        ensures
            r == (self@ == Map::<Seq<char>, V::V>::empty()),
            r == (self@.len() == 0),
    {
        proof {
            use_type_invariant(self);
            lemma_entries(self.entries@);
            if self.entries@.len() == 0 {
                assert(self@ =~= Map::<Seq<char>, V::V>::empty());
            } else {
                lemma_entry(self.entries@, 0);
            }
        }
        self.entries.len() == 0
    }

    /// The key at a position in ascending order.
    pub fn key_at(&self, i: usize) -> (k: &String)
        requires
            i < sorted(self@.dom()).len(),
        ensures
            k@ == sorted(self@.dom())[i as int],
            self@.contains_key(k@),
    {
        proof {
            use_type_invariant(self);
            lemma_entries(self.entries@);
            lemma_entry(self.entries@, i as int);
        }
        &self.entries[i].0
    }

    /// The value at a position in the ascending order of the keys.
    pub fn value_at(&self, i: usize) -> (v: &V)
        requires
            i < sorted(self@.dom()).len(),
        ensures
            v@ == self@[sorted(self@.dom())[i as int]],
    {
        proof {
            use_type_invariant(self);
            lemma_entries(self.entries@);
            lemma_entry(self.entries@, i as int);
        }
        &self.entries[i].1
    }

    /// The position of a key, or where it would stand.
    fn position(&self, key: &str) -> (i: usize)
        ensures
            i <= self.entries.len(),
            forall|k: int| 0 <= k < i ==> text_less(#[trigger] self.entries@[k].0@, key@),
            forall|k: int|
                i <= k < self.entries.len() ==> !text_less(#[trigger] self.entries@[k].0@, key@),
    {
        proof {
            use_type_invariant(self);
        }
        let ghost keys = entry_keys(self.entries@);
        let mut lo: usize = 0;
        let mut hi: usize = self.entries.len();
        while lo < hi
            invariant
                lo <= hi <= self.entries.len(),
                keys == entry_keys(self.entries@),
                ascending(keys),
                forall|k: int| 0 <= k < lo ==> text_less(#[trigger] self.entries@[k].0@, key@),
                forall|k: int|
                    hi <= k < self.entries.len() ==> !text_less(
                        #[trigger] self.entries@[k].0@,
                        key@,
                    ),
            decreases hi - lo,
        {
            let mid: usize = lo + (hi - lo) / 2;
            if str_less(self.entries[mid].0.as_str(), key) {
                assert forall|k: int| 0 <= k < mid + 1 implies text_less(
                    #[trigger] self.entries@[k].0@,
                    key@,
                ) by {
                    if k < mid {
                        assert(text_less(keys[k], keys[mid as int]));
                        lemma_text_less_order(keys[k], keys[mid as int], key@);
                    }
                }
                lo = mid + 1;
            } else {
                assert forall|k: int| mid <= k < self.entries.len() implies !text_less(
                    #[trigger] self.entries@[k].0@,
                    key@,
                ) by {
                    if k > mid {
                        assert(text_less(keys[mid as int], keys[k]));
                        lemma_text_less_order(keys[mid as int], keys[k], key@);
                    }
                }
                hi = mid;
            }
        }
        lo
    }

    /// The value of a key.
    pub fn get(&self, key: &str) -> (r: Option<&V>)
        ensures
            match r {
                Some(v) => self@.contains_key(key@) && v@ == self@[key@],
                None => !self@.contains_key(key@),
            },
    {
        proof {
            use_type_invariant(self);
        }
        let i: usize = self.position(key);
        if i < self.entries.len() && text::str_eq(self.entries[i].0.as_str(), key) {
            proof {
                lemma_entry(self.entries@, i as int);
            }
            Some(&self.entries[i].1)
        } else {
            proof {
                lemma_absent(self.entries@, key@, i as int);
            }
            None
        }
    }

    /// Whether a key has an entry.
    pub fn contains_key(&self, key: &str) -> (r: bool)
        ensures
            r == self@.contains_key(key@),
    {
        self.get(key).is_some()
    }
}

/// A key that no entry holds at its position has no entry.
proof fn lemma_absent<V: View>(entries: Seq<(String, V)>, key: Seq<char>, i: int)
    requires
        ascending(entry_keys(entries)),
        0 <= i <= entries.len(),
        forall|k: int| 0 <= k < i ==> text_less(#[trigger] entries[k].0@, key),
        forall|k: int| i <= k < entries.len() ==> !text_less(#[trigger] entries[k].0@, key),
        i < entries.len() ==> entries[i].0@ != key,
    ensures
        !entry_map(entries).contains_key(key),
{
    let keys = entry_keys(entries);
    if keys.contains(key) {
        let j = choose|j: int| 0 <= j < keys.len() && keys[j] == key;
        assert(entries[j].0@ == key);
        lemma_text_less_order(key, key, key);
        if j > i {
            assert(text_less(keys[i], keys[j]));
        }
    }
}

/// Inserting an entry at the position of its new key.
proof fn lemma_insert<V: View>(entries: Seq<(String, V)>, i: int, e: (String, V))
    requires
        ascending(entry_keys(entries)),
        0 <= i <= entries.len(),
        forall|k: int| 0 <= k < i ==> text_less(#[trigger] entries[k].0@, e.0@),
        forall|k: int| i <= k < entries.len() ==> !text_less(#[trigger] entries[k].0@, e.0@),
        i < entries.len() ==> entries[i].0@ != e.0@,
    ensures
        ascending(entry_keys(entries.insert(i, e))),
        entry_map(entries.insert(i, e)) == entry_map(entries).insert(e.0@, e.1@),
{
    let after = entries.insert(i, e);
    let keys = entry_keys(entries);
    let new_keys = entry_keys(after);
    lemma_absent(entries, e.0@, i);
    assert forall|a: int, b: int| 0 <= a < b < new_keys.len() implies text_less(
        #[trigger] new_keys[a],
        #[trigger] new_keys[b],
    ) by {
        if a < i && b < i {
            assert(text_less(keys[a], keys[b]));
        } else if a < i && b == i {
            assert(text_less(entries[a].0@, e.0@));
        } else if a < i {
            assert(text_less(keys[a], keys[b - 1]));
        } else if a == i {
            assert(!text_less(entries[b - 1].0@, e.0@));
            lemma_text_less_order(e.0@, entries[b - 1].0@, e.0@);
            if entries[b - 1].0@ == e.0@ {
                if b - 1 > i {
                    assert(text_less(keys[i], keys[b - 1]));
                }
            }
        } else {
            assert(text_less(keys[a - 1], keys[b - 1]));
        }
    }
    let want = entry_map(entries).insert(e.0@, e.1@);
    assert forall|k: Seq<char>|
        entry_map(after).contains_key(k) == #[trigger] want.contains_key(k) by {
        if new_keys.contains(k) {
            let a = choose|a: int| 0 <= a < new_keys.len() && new_keys[a] == k;
            if a < i {
                assert(keys[a] == k);
            } else if a > i {
                assert(keys[a - 1] == k);
            }
        }
        if keys.contains(k) {
            let a = choose|a: int| 0 <= a < keys.len() && keys[a] == k;
            if a < i {
                assert(new_keys[a] == k);
            } else {
                assert(new_keys[a + 1] == k);
            }
        }
        assert(new_keys[i] == e.0@);
    }
    assert forall|k: Seq<char>| #[trigger] want.contains_key(k) implies entry_map(after)[k] == want[k] by {
        if k == e.0@ {
            lemma_entry(after, i);
        } else {
            let a = choose|a: int| 0 <= a < keys.len() && keys[a] == k;
            lemma_entry(entries, a);
            if a < i {
                lemma_entry(after, a);
            } else {
                lemma_entry(after, a + 1);
            }
        }
    }
    assert(entry_map(after).dom() =~= want.dom());
    assert(entry_map(after) =~= want);
}

/// Removing an entry.
proof fn lemma_remove<V: View>(entries: Seq<(String, V)>, i: int)
    requires
        ascending(entry_keys(entries)),
        0 <= i < entries.len(),
    ensures
        ascending(entry_keys(entries.remove(i))),
        entry_map(entries.remove(i)) == entry_map(entries).remove(entries[i].0@),
{
    let after = entries.remove(i);
    let keys = entry_keys(entries);
    let new_keys = entry_keys(after);
    lemma_ascending_distinct(keys);
    assert forall|a: int, b: int| 0 <= a < b < new_keys.len() implies text_less(
        #[trigger] new_keys[a],
        #[trigger] new_keys[b],
    ) by {
        let x = if a < i {
            a
        } else {
            a + 1
        };
        let y = if b < i {
            b
        } else {
            b + 1
        };
        assert(text_less(keys[x], keys[y]));
    }
    let want = entry_map(entries).remove(entries[i].0@);
    assert forall|k: Seq<char>|
        entry_map(after).contains_key(k) == #[trigger] want.contains_key(k) by {
        if new_keys.contains(k) {
            let a = choose|a: int| 0 <= a < new_keys.len() && new_keys[a] == k;
            let x = if a < i {
                a
            } else {
                a + 1
            };
            assert(keys[x] == k && keys[i] == entries[i].0@);
            assert(keys[x] != keys[i]);
        }
        if keys.contains(k) && k != entries[i].0@ {
            let a = choose|a: int| 0 <= a < keys.len() && keys[a] == k;
            if a < i {
                assert(new_keys[a] == k);
            } else {
                assert(new_keys[a - 1] == k);
            }
        }
    }
    assert forall|k: Seq<char>| #[trigger] want.contains_key(k) implies entry_map(after)[k] == want[k] by {
        let a = choose|a: int| 0 <= a < keys.len() && keys[a] == k;
        lemma_entry(entries, a);
        if a < i {
            lemma_entry(after, a);
        } else {
            lemma_entry(after, a - 1);
        }
    }
    assert(entry_map(after).dom() =~= want.dom());
    assert(entry_map(after) =~= want);
}

impl<V: View> StringMap<V> {
    /// Removes the entry of a key; the value that was removed, if any.
    pub fn remove(&mut self, key: &str) -> (r: Option<V>)
        ensures
            final(self)@ == old(self)@.remove(key@),
            match r {
                Some(v) => old(self)@.contains_key(key@) && v@ == old(self)@[key@],
                None => !old(self)@.contains_key(key@),
            },
    {
        proof {
            use_type_invariant(&*self);
        }
        let i: usize = self.position(key);
        if i < self.entries.len() && text::str_eq(self.entries[i].0.as_str(), key) {
            proof {
                lemma_entry(self.entries@, i as int);
                lemma_remove(self.entries@, i as int);
            }
            let mut entries: Vec<(String, V)> = Vec::new();
            std::mem::swap(&mut entries, &mut self.entries);
            let e = entries.remove(i);
            self.entries = entries;
            Some(e.1)
        } else {
            proof {
                lemma_absent(self.entries@, key@, i as int);
                assert(self@.remove(key@) =~= self@);
            }
            None
        }
    }

    /// Sets the value of a key; the value that it had before, if any.
    pub fn insert(&mut self, key: String, value: V) -> (r: Option<V>)
        ensures
            final(self)@ == old(self)@.insert(key@, value@),
            match r {
                Some(v) => old(self)@.contains_key(key@) && v@ == old(self)@[key@],
                None => !old(self)@.contains_key(key@),
            },
    {
        let ghost before = self@;
        let r = self.remove(key.as_str());
        proof {
            use_type_invariant(&*self);
            assert(before.remove(key@).insert(key@, value@) =~= before.insert(key@, value@));
        }
        let i: usize = self.position(key.as_str());
        proof {
            if i < self.entries@.len() && self.entries@[i as int].0@ == key@ {
                lemma_entry(self.entries@, i as int);
            }
            lemma_insert(self.entries@, i as int, (key, value));
        }
        let mut entries: Vec<(String, V)> = Vec::new();
        std::mem::swap(&mut entries, &mut self.entries);
        entries.insert(i, (key, value));
        self.entries = entries;
        r
    }

    /// Removes every entry.
    pub fn clear(&mut self)
        ensures
            final(self)@ == Map::<Seq<char>, V::V>::empty(),
    {
        self.entries = Vec::new();
        assert(self@ =~= Map::<Seq<char>, V::V>::empty());
    }
}

} // verus!
