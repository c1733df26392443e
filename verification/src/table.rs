//! Small tables: keys that occur once, in the order in which they came.

use vstd::prelude::*;
use crate::bytes::{copy_bytes, same_bytes};

verus! {

/// A table key, known by its view.
pub trait Key: View + Sized {
    fn same_key(&self, other: &Self) -> (r: bool)
        ensures
            r == (self@ == other@),
    ;

    fn copy_key(&self) -> (r: Self)
        ensures
            r@ == self@,
    ;
}

impl Key for Vec<u8> {
    fn same_key(&self, other: &Self) -> (r: bool) {
        same_bytes(self.as_slice(), other.as_slice())
    }

    fn copy_key(&self) -> (r: Self) {
        copy_bytes(self.as_slice())
    }
}

impl Key for String {
    fn same_key(&self, other: &Self) -> (r: bool) {
        *self == *other
    }

    fn copy_key(&self) -> (r: Self) {
        self.clone()
    }
}

impl Key for [u8; 32] {
    fn same_key(&self, other: &Self) -> (r: bool) {
        same_bytes(self, other)
    }

    fn copy_key(&self) -> (r: Self) {
        *self
    }
}

impl Key for [u8; 16] {
    fn same_key(&self, other: &Self) -> (r: bool) {
        same_bytes(self, other)
    }

    fn copy_key(&self) -> (r: Self) {
        *self
    }
}

impl Key for u64 {
    fn same_key(&self, other: &Self) -> (r: bool) {
        *self == *other
    }

    fn copy_key(&self) -> (r: Self) {
        *self
    }
}

/// Whether no key occurs twice.
pub open spec fn distinct<T>(s: Seq<T>) -> bool {
    forall|i: int, j: int| 0 <= i < j < s.len() ==> s[i] != s[j]
}

/// Whether a key is in a list.
pub fn among<K: Key>(keys: &Vec<K>, key: &K) -> (r: bool)
    ensures
        r == crate::model::views(keys@).contains(key@),
{
    let ghost v = crate::model::views(keys@);
    let mut i: usize = 0;
    while i < keys.len()
        invariant
            i <= keys.len(),
            v == crate::model::views(keys@),
            forall|a: int| 0 <= a < i ==> v[a] != key@,
        decreases keys.len() - i,
    {
        if keys[i].same_key(key) {
            assert(v[i as int] == key@);
            return true;
        }
        i += 1;
    }
    false
}

#[derive(Clone, Debug, PartialEq, Eq)]
pub struct Table<K, V> {
    pub entries: Vec<(K, V)>,
}

/// The keys of entries, in order.
pub open spec fn keys_of<K: View, V>(s: Seq<(K, V)>) -> Seq<K::V> {
    Seq::new(s.len(), |i: int| s[i].0@)
}

/// The first place of a key, or the length where there is none.
pub open spec fn place<T>(keys: Seq<T>, key: T) -> int
    decreases keys.len(),
{
    if keys.len() == 0 {
        0
    } else if keys[0] == key {
        0
    } else {
        1 + place(keys.drop_first(), key)
    }
}

pub proof fn lemma_place<T>(keys: Seq<T>, key: T)
    ensures
        0 <= place(keys, key) <= keys.len(),
        place(keys, key) < keys.len() <==> keys.contains(key),
        place(keys, key) < keys.len() ==> keys[place(keys, key)] == key,
        forall|i: int| 0 <= i < place(keys, key) ==> keys[i] != key,
    decreases keys.len(),
{
    if keys.len() > 0 && keys[0] != key {
        let rest = keys.drop_first();
        lemma_place(rest, key);
        if keys.contains(key) {
            let i = choose|i: int| 0 <= i < keys.len() && keys[i] == key;
            assert(rest[i - 1] == key);
        }
        assert forall|i: int| 0 <= i < place(keys, key) implies keys[i] != key by {
            if i > 0 {
                assert(rest[i - 1] != key);
            }
        }
        if place(rest, key) < rest.len() {
            assert(keys[place(keys, key)] == rest[place(rest, key)]);
        }
    } else if keys.len() > 0 {
        assert(keys.contains(keys[0]));
    }
}

pub proof fn lemma_place_is<T>(keys: Seq<T>, key: T, i: int)
    requires
        0 <= i < keys.len(),
        keys[i] == key,
        forall|j: int| 0 <= j < i ==> keys[j] != key,
    ensures
        place(keys, key) == i,
{
    lemma_place(keys, key);
    assert(keys.contains(key));
}

/// The values of entries, in order.
pub open spec fn value_views<K, V: View>(s: Seq<(K, V)>) -> Seq<V::V> {
    Seq::new(s.len(), |i: int| s[i].1@)
}

/// The key of the first entry with a value.
pub open spec fn key_for<K: View, V: View>(s: Seq<(K, V)>, value: V::V) -> Option<K::V> {
    if value_views(s).contains(value) {
        Some(s[place(value_views(s), value)].0@)
    } else {
        None
    }
}

impl<K: Key, V> Table<K, V> {
    pub open spec fn keys(self) -> Seq<K::V> {
        keys_of(self.entries@)
    }

    /// No key occurs twice.
    pub open spec fn wf(self) -> bool {
        distinct(self.keys())
    }

    pub open spec fn has(self, key: K::V) -> bool {
        self.keys().contains(key)
    }

    pub open spec fn at(self, key: K::V) -> V {
        self.entries@[place(self.keys(), key)].1
    }

    /// What the table says of a key.
    pub open spec fn lookup(self, key: K::V) -> Option<V> {
        if self.has(key) {
            Some(self.at(key))
        } else {
            None
        }
    }

    pub fn new() -> (r: Self)
        ensures
            r.entries@.len() == 0,
            r.wf(),
            forall|k: K::V| !r.has(k),
    {
        Table { entries: Vec::new() }
    }

    pub fn find(&self, key: &K) -> (r: Option<usize>)
        ensures
            match r {
                Some(i) => i == place(self.keys(), key@) && i < self.entries@.len() && self.has(key@),
                None => !self.has(key@),
            },
    {
        let mut i: usize = 0;
        while i < self.entries.len()
            invariant
                i <= self.entries.len(),
                forall|j: int| 0 <= j < i ==> self.keys()[j] != key@,
            decreases self.entries.len() - i,
        {
            if self.entries[i].0.same_key(key) {
                proof {
                    lemma_place_is(self.keys(), key@, i as int);
                    assert(self.keys()[i as int] == key@);
                }
                return Some(i);
            }
            i += 1;
        }
        None
    }

    pub fn contains_key(&self, key: &K) -> (r: bool)
        ensures
            r == self.has(key@),
    {
        self.find(key).is_some()
    }

    pub fn get(&self, key: &K) -> (r: Option<&V>)
        ensures
            match r {
                Some(v) => self.lookup(key@) == Some(*v),
                None => self.lookup(key@) is None,
            },
    {
        match self.find(key) {
            Some(i) => Some(&self.entries[i].1),
            None => None,
        }
    }

    /// Sets what the table says of a key: in place, or as a new last entry.
    pub fn insert(&mut self, key: K, value: V) -> (r: Option<V>)
        ensures
            r == old(self).lookup(key@),
            old(self).wf() ==> final(self).wf(),
            final(self).lookup(key@) == Some(value),
            forall|k: K::V| k != key@ ==> #[trigger] final(self).lookup(k) == old(self).lookup(k),
            old(self).has(key@) ==> final(self).keys() == old(self).keys(),
            !old(self).has(key@) ==> final(self).entries@ == old(self).entries@.push((key, value)),
    {
        let ghost before = self.entries@;
        let ghost ks = self.keys();
        let ghost kv = key@;
        match self.find(&key) {
            Some(i) => {
                proof {
                    lemma_place(ks, kv);
                }
                let (old_key, old_value) = self.entries.remove(i);
                self.entries.insert(i, (old_key, value));
                proof {
                    let s = self.entries@;
                    assert(s.len() == before.len());
                    assert forall|j: int| 0 <= j < s.len() implies s[j] == (if j == i { (old_key, value) } else { before[j] }) by {}
                    assert(self.keys() =~= ks);
                    assert forall|k: K::V| k != kv implies #[trigger] self.lookup(k) == old(self).lookup(k) by {
                        lemma_place(ks, k);
                        assert(self.keys() == ks);
                    }
                    assert(self.keys().contains(kv));
                }
                Some(old_value)
            },
            None => {
                self.entries.push((key, value));
                proof {
                    assert(self.entries@ =~= before.push((key, value)));
                    let now = self.keys();
                    assert(now =~= ks.push(kv));
                    assert(now[ks.len() as int] == kv);
                    assert forall|j: int| 0 <= j < ks.len() implies now[j] != kv by {
                        assert(ks[j] == now[j]);
                        assert(ks.contains(ks[j]));
                    }
                    lemma_place_is(now, kv, ks.len() as int);
                    if old(self).wf() {
                        assert forall|a: int, b: int| 0 <= a < b < now.len() implies now[a] != now[b] by {
                            if b < ks.len() {
                                assert(ks[a] != ks[b]);
                            }
                        }
                    }
                    assert forall|k: K::V| k != kv implies #[trigger] self.lookup(k) == old(self).lookup(k) by {
                        lemma_place(ks, k);
                        lemma_place(now, k);
                        if ks.contains(k) {
                            let p = place(ks, k);
                            assert forall|j: int| 0 <= j < p implies now[j] != k by {
                                assert(now[j] == ks[j]);
                            }
                            lemma_place_is(now, k, p);
                            assert(now[p] == k);
                        } else if now.contains(k) {
                            let p = place(now, k);
                            assert(ks[p] == k);
                        }
                    }
                }
                None
            },
        }
    }

    /// Drops a key with what the table says of it.
    pub fn remove(&mut self, key: &K) -> (r: Option<V>)
        requires
            old(self).wf(),
        ensures
            r == old(self).lookup(key@),
            final(self).wf(),
            final(self).lookup(key@) is None,
            forall|k: K::V| k != key@ ==> #[trigger] final(self).lookup(k) == old(self).lookup(k),
            old(self).has(key@) ==> final(self).entries@ == old(self).entries@.remove(place(old(self).keys(), key@)),
            !old(self).has(key@) ==> final(self).entries@ == old(self).entries@,
    {
        let ghost ks = self.keys();
        match self.find(key) {
            Some(i) => {
                let (_, value) = self.entries.remove(i);
                proof {
                    lemma_place(ks, key@);
                    let now = self.keys();
                    assert(now =~= ks.remove(i as int));
                    assert forall|a: int, b: int| 0 <= a < b < now.len() implies now[a] != now[b] by {
                        let x = if a < i { a } else { a + 1 };
                        let y = if b < i { b } else { b + 1 };
                        assert(now[a] == ks[x] && now[b] == ks[y]);
                    }
                    if now.contains(key@) {
                        let a = choose|a: int| 0 <= a < now.len() && now[a] == key@;
                        let x = if a < i { a } else { a + 1 };
                        assert(ks[x] == ks[i as int]);
                    }
                    assert forall|k: K::V| k != key@ implies #[trigger] self.lookup(k) == old(self).lookup(k) by {
                        lemma_place(ks, k);
                        lemma_place(now, k);
                        if ks.contains(k) {
                            let p = place(ks, k);
                            let q = if p < i { p } else { p - 1 };
                            assert(now[q] == k);
                            assert forall|j: int| 0 <= j < q implies now[j] != k by {
                                let x = if j < i { j } else { j + 1 };
                                assert(now[j] == ks[x]);
                            }
                            lemma_place_is(now, k, q);
                        } else if now.contains(k) {
                            let q = place(now, k);
                            let x = if q < i { q } else { q + 1 };
                            assert(ks[x] == k);
                        }
                    }
                }
                Some(value)
            },
            None => None,
        }
    }

    /// Puts another table over this one: where both know a key, the other's
    /// value stays.
    pub fn absorb(&mut self, other: Table<K, V>)
        requires
            old(self).wf(),
            other.wf(),
        ensures
            final(self).wf(),
            forall|k: K::V| #[trigger] final(self).lookup(k) == (if other.has(k) {
                other.lookup(k)
            } else {
                old(self).lookup(k)
            }),
    {
        let mut other = other;
        let ghost before = *self;
        let ghost all = other;
        while other.entries.len() > 0
            invariant
                self.wf(),
                other.wf(),
                forall|k: K::V| other.has(k) ==> all.has(k) && #[trigger] other.lookup(k) == all.lookup(k),
                forall|k: K::V| all.has(k) && !other.has(k) ==> #[trigger] self.lookup(k) == all.lookup(k),
                forall|k: K::V| !all.has(k) ==> #[trigger] self.lookup(k) == before.lookup(k),
            decreases other.entries.len(),
        {
            let ghost left = other;
            let (key, value) = other.entries.remove(0);
            let ghost kv = key@;
            proof {
                let ks = left.keys();
                let now = other.keys();
                assert(now =~= ks.remove(0));
                assert(ks[0] == kv);
                assert(left.has(kv));
                lemma_place_is(ks, kv, 0);
                assert(left.lookup(kv) == Some(value));
                assert forall|a: int, b: int| 0 <= a < b < now.len() implies now[a] != now[b] by {
                    assert(now[a] == ks[a + 1] && now[b] == ks[b + 1]);
                }
                assert forall|k: K::V| now.contains(k) implies k != kv && left.has(k) && #[trigger] other.lookup(k) == left.lookup(k) by {
                    lemma_place(now, k);
                    let p = place(now, k);
                    assert(ks[p + 1] == k);
                    assert forall|j: int| 0 <= j < p + 1 implies ks[j] != k by {
                        if j > 0 {
                            assert(ks[j] == now[j - 1]);
                        }
                    }
                    lemma_place_is(ks, k, p + 1);
                }
                assert forall|k: K::V| left.has(k) && k != kv implies #[trigger] other.has(k) by {
                    let j = choose|j: int| 0 <= j < ks.len() && ks[j] == k;
                    assert(now[j - 1] == k);
                }
            }
            let ghost mid = *self;
            self.insert(key, value);
            proof {
                assert forall|k: K::V| all.has(k) && !other.has(k) implies #[trigger] self.lookup(k) == all.lookup(k) by {
                    if k != kv {
                        assert(!left.has(k));
                        assert(mid.lookup(k) == all.lookup(k));
                    }
                }
                assert forall|k: K::V| !all.has(k) implies #[trigger] self.lookup(k) == before.lookup(k) by {
                    assert(mid.lookup(k) == before.lookup(k));
                }
            }
        }
    }
}

} // verus!
