//! An ordered map from byte strings, held as a vector sorted by key.
use crate::bytes::{
    compare_bytes, copy_bytes, lemma_lex_asymmetric, lemma_lex_irreflexive, lemma_lex_transitive,
    lex_lt, ByteOrder,
};
use crate::mvcc::{
    chain_of, entry_size, lemma_places_of, places, places_of, snapshot_read, version_total,
    with_delete, with_put,
};
use crate::snap::Snapshot;
use crate::txn::{
    commit_of, lemma_versions_size, pending, saturated, vacuumed, Version, VersionChain,
    BUFFER_OVERHEAD,
};
use crate::types::{value_view, LogSequenceNumber, TransactionId, ValueBuf};
use vstd::prelude::*;

verus! {

/// The keys ascend strictly.
pub open spec fn ascending(keys: Seq<Seq<u8>>) -> bool {
    forall|i: int, j: int| 0 <= i < j < keys.len() ==> lex_lt(#[trigger] keys[i], #[trigger] keys[j])
}

/// The number of keys before `key`.
pub open spec fn rank(keys: Seq<Seq<u8>>, key: Seq<u8>) -> int
    decreases keys.len(),
{
    if keys.len() == 0 {
        0
    } else if lex_lt(keys.last(), key) {
        keys.len() as int
    } else {
        rank(keys.drop_last(), key)
    }
}

/// The rank is the position that parts the keys before `key` from the others.
pub proof fn lemma_rank(keys: Seq<Seq<u8>>, key: Seq<u8>, p: int)
    requires
        0 <= p <= keys.len(),
        forall|i: int| 0 <= i < p ==> lex_lt(#[trigger] keys[i], key),
        forall|i: int| p <= i < keys.len() ==> !lex_lt(#[trigger] keys[i], key),
    ensures
        rank(keys, key) == p,
    decreases keys.len(),
{
    if keys.len() > p {
        lemma_rank(keys.drop_last(), key, p);
    }
}

/// The keys before the rank come before `key`, and no others.
pub proof fn lemma_rank_parts(keys: Seq<Seq<u8>>, key: Seq<u8>)
    requires
        ascending(keys),
    ensures
        0 <= rank(keys, key) <= keys.len(),
        forall|i: int| 0 <= i < rank(keys, key) ==> lex_lt(#[trigger] keys[i], key),
        forall|i: int| rank(keys, key) <= i < keys.len() ==> !lex_lt(#[trigger] keys[i], key),
    decreases keys.len(),
{
    if keys.len() > 0 {
        let last = keys.last();
        if lex_lt(last, key) {
            assert forall|i: int| 0 <= i < keys.len() implies lex_lt(#[trigger] keys[i], key) by {
                if i < keys.len() - 1 {
                    assert(lex_lt(keys[i], keys[keys.len() - 1]));
                    lemma_lex_transitive(keys[i], last, key);
                }
            }
        } else {
            lemma_rank_parts(keys.drop_last(), key);
            assert forall|i: int| 0 <= i < rank(keys, key) implies lex_lt(
                #[trigger] keys[i],
                key,
            ) by {
                assert(keys.drop_last()[i] == keys[i]);
            }
            assert forall|i: int| rank(keys, key) <= i < keys.len() implies !lex_lt(
                #[trigger] keys[i],
                key,
            ) by {
                if i < keys.len() - 1 {
                    assert(keys.drop_last()[i] == keys[i]);
                }
            }
        }
    }
}

/// A set of keys can be listed in ascending order in one way only.
pub proof fn lemma_listed_once(a: Seq<Seq<u8>>, b: Seq<Seq<u8>>)
    requires
        ascending(a),
        ascending(b),
        forall|k: Seq<u8>| #[trigger] a.contains(k) <==> b.contains(k),
    ensures
        a == b,
    decreases a.len(),
{
    if a.len() == 0 {
        if b.len() > 0 {
            assert(b.contains(b[0]));
            assert(a.contains(b[0]));
        }
        assert(a =~= b);
    } else {
        let x = a.last();
        assert(a.contains(x));
        assert(b.contains(x));
        let y = b.last();
        assert(b.contains(y));
        assert(a.contains(y));
        let i = a.index_of(y);
        let j = b.index_of(x);
        if x != y {
            assert(lex_lt(a[i], a[a.len() - 1]));
            assert(lex_lt(b[j], b[b.len() - 1]));
            lemma_lex_asymmetric(x, y);
        }
        let a2 = a.drop_last();
        let b2 = b.drop_last();
        assert forall|k: Seq<u8>| #[trigger] a2.contains(k) <==> b2.contains(k) by {
            lemma_lex_irreflexive(x);
            if a2.contains(k) {
                let p = a2.index_of(k);
                assert(a[p] == k);
                assert(lex_lt(a[p], a[a.len() - 1]));
                assert(a.contains(k));
                let q = b.index_of(k);
                assert(b2[q] == k);
            }
            if b2.contains(k) {
                let p = b2.index_of(k);
                assert(b[p] == k);
                assert(lex_lt(b[p], b[b.len() - 1]));
                assert(b.contains(k));
                assert(a.contains(k));
                let q = a.index_of(k);
                assert(a2[q] == k);
            }
        }
        assert(ascending(a2)) by {
            assert forall|m: int, n: int| 0 <= m < n < a2.len() implies lex_lt(
                #[trigger] a2[m],
                #[trigger] a2[n],
            ) by {
                assert(lex_lt(a[m], a[n]));
            }
        }
        assert(ascending(b2)) by {
            assert forall|m: int, n: int| 0 <= m < n < b2.len() implies lex_lt(
                #[trigger] b2[m],
                #[trigger] b2[n],
            ) by {
                assert(lex_lt(b[m], b[n]));
            }
        }
        lemma_listed_once(a2, b2);
        assert(a =~= a2.push(x));
        assert(b =~= b2.push(x));
    }
}

/// A map from byte strings to `V`, in key order.
#[verifier::reject_recursive_types(V)]
#[derive(Debug)]
pub struct ByteMap<V> {
    pub entries: Vec<(Vec<u8>, V)>,
}

impl<V> View for ByteMap<V> {
    type V = Map<Seq<u8>, V>;

    open spec fn view(&self) -> Map<Seq<u8>, V> {
        Map::new(
            |k: Seq<u8>| self.keys().contains(k),
            |k: Seq<u8>| self.entries@[self.keys().index_of(k)].1,
        )
    }
}

impl<V> ByteMap<V> {
    /// The keys, in order.
    pub open spec fn keys(&self) -> Seq<Seq<u8>> {
        Seq::new(self.entries@.len(), |i: int| self.entries@[i].0@)
    }

    /// The keys ascend, so that none occurs twice.
    pub open spec fn wf(&self) -> bool {
        ascending(self.keys())
    }

    /// The entry at a position is what the map holds of its key.
    pub proof fn lemma_entry(&self, i: int)
        requires
            self.wf(),
            0 <= i < self.entries@.len(),
        ensures
            self@.contains_key(self.entries@[i].0@),
            self@[self.entries@[i].0@] == self.entries@[i].1,
            self.keys()[i] == self.entries@[i].0@,
    {
        let k = self.entries@[i].0@;
        assert(self.keys()[i] == k);
        let j = self.keys().index_of(k);
        assert(self.keys().contains(k));
        lemma_lex_irreflexive(k);
        if i < j {
            assert(lex_lt(self.keys()[i], self.keys()[j]));
        } else if j < i {
            assert(lex_lt(self.keys()[j], self.keys()[i]));
        }
    }

    /// Every key of the map stands at some position.
    pub proof fn lemma_key(&self, k: Seq<u8>) -> (i: int)
        requires
            self.wf(),
            self@.contains_key(k),
        ensures
            0 <= i < self.entries@.len(),
            self.entries@[i].0@ == k,
            self.entries@[i].1 == self@[k],
    {
        let i = self.keys().index_of(k);
        assert(self.keys()[i] == k);
        i
    }

    /// The number of keys is the number of entries.
    pub proof fn lemma_len(&self)
        requires
            self.wf(),
        ensures
            self@.dom().finite(),
            self@.dom().len() == self.entries@.len(),
    {
        let keys = self.keys();
        assert(keys.no_duplicates()) by {
            assert forall|i: int, j: int|
                0 <= i < keys.len() && 0 <= j < keys.len() && i != j implies keys[i] != keys[j] by {
                lemma_lex_irreflexive(keys[i]);
                if i < j {
                    assert(lex_lt(keys[i], keys[j]));
                } else {
                    assert(lex_lt(keys[j], keys[i]));
                }
            }
        }
        keys.unique_seq_to_set();
        assert(self@.dom() =~= keys.to_set());
    }

    /// An empty map.
    pub fn new() -> (r: Self)
        ensures
            r.wf(),
            r@ == Map::<Seq<u8>, V>::empty(),
            r.entries@.len() == 0,
    {
        let r = ByteMap { entries: Vec::new() };
        assert(r@ =~= Map::<Seq<u8>, V>::empty());
        r
    }

    /// The number of keys.
    pub fn len(&self) -> (r: usize)
        requires
            self.wf(),
        ensures
            r == self@.dom().len(),
            r == self.entries@.len(),
            self@.dom().finite(),
    {
        proof {
            self.lemma_len();
        }
        self.entries.len()
    }

    /// The first position whose key is not before `key`, and whether it holds `key` itself.
    pub fn find(&self, key: &[u8]) -> (r: (usize, bool))
        requires
            self.wf(),
        ensures
            r.0 <= self.entries@.len(),
            forall|i: int| 0 <= i < r.0 ==> lex_lt(#[trigger] self.keys()[i], key@),
            r.1 ==> r.0 < self.entries@.len() && self.keys()[r.0 as int] == key@
                && self.entries@[r.0 as int].0@ == key@,
            !r.1 ==> forall|i: int|
                r.0 <= i < self.entries@.len() ==> lex_lt(key@, #[trigger] self.keys()[i]),
            forall|i: int|
                r.0 < i < self.entries@.len() ==> lex_lt(key@, #[trigger] self.keys()[i]),
            r.1 <==> self@.contains_key(key@),
    {
        let mut lo: usize = 0;
        let mut hi: usize = self.entries.len();
        while lo < hi
            invariant
                self.wf(),
                lo <= hi <= self.entries@.len(),
                forall|i: int| 0 <= i < lo ==> lex_lt(#[trigger] self.keys()[i], key@),
                forall|i: int|
                    hi <= i < self.entries@.len() ==> lex_lt(key@, #[trigger] self.keys()[i]),
            decreases hi - lo,
        {
            let mid: usize = lo + (hi - lo) / 2;
            let ghost keys = self.keys();
            assert(keys[mid as int] == self.entries@[mid as int].0@);
            match compare_bytes(self.entries[mid].0.as_slice(), key) {
                ByteOrder::Equal => {
                    proof {
                        self.lemma_entry(mid as int);
                        assert forall|i: int| 0 <= i < mid implies lex_lt(
                            #[trigger] keys[i],
                            key@,
                        ) by {
                            assert(lex_lt(keys[i], keys[mid as int]));
                        }
                        assert forall|i: int| mid < i < keys.len() implies lex_lt(
                            key@,
                            #[trigger] keys[i],
                        ) by {
                            assert(lex_lt(keys[mid as int], keys[i]));
                        }
                    }
                    return (mid, true);
                },
                ByteOrder::Less => {
                    proof {
                        assert forall|i: int| 0 <= i < mid + 1 implies lex_lt(
                            #[trigger] keys[i],
                            key@,
                        ) by {
                            if i < mid {
                                assert(lex_lt(keys[i], keys[mid as int]));
                                lemma_lex_transitive(keys[i], keys[mid as int], key@);
                            }
                        }
                    }
                    lo = mid + 1;
                },
                ByteOrder::Greater => {
                    proof {
                        assert forall|i: int| mid <= i < keys.len() implies lex_lt(
                            key@,
                            #[trigger] keys[i],
                        ) by {
                            if i > mid {
                                assert(lex_lt(keys[mid as int], keys[i]));
                                lemma_lex_transitive(key@, keys[mid as int], keys[i]);
                            }
                        }
                    }
                    hi = mid;
                },
            }
        }
        proof {
            if self@.contains_key(key@) {
                let i = self.lemma_key(key@);
                assert(self.keys()[i] == key@);
                lemma_lex_irreflexive(key@);
            }
        }
        (lo, false)
    }

    /// Whether the map holds `key`.
    pub fn contains_key(&self, key: &[u8]) -> (r: bool)
        requires
            self.wf(),
        ensures
            r == self@.contains_key(key@),
    {
        self.find(key).1
    }

    /// What the map holds of `key`.
    pub fn get(&self, key: &[u8]) -> (r: Option<&V>)
        requires
            self.wf(),
        ensures
            r is Some <==> self@.contains_key(key@),
            r matches Some(v) ==> *v == self@[key@],
    {
        let (pos, found) = self.find(key);
        if found {
            proof {
                self.lemma_entry(pos as int);
            }
            Some(&self.entries[pos].1)
        } else {
            None
        }
    }

    /// Access to the value at a position.
    pub fn value_mut(&mut self, i: usize) -> (r: &mut V)
        requires
            old(self).wf(),
            i < old(self).entries@.len(),
        ensures
            *r == old(self).entries@[i as int].1,
            final(self).entries@ == old(self).entries@.update(
                i as int,
                (old(self).entries@[i as int].0, *final(r)),
            ),
            final(self).keys() == old(self).keys(),
            final(self).wf(),
            final(self)@ == old(self)@.insert(old(self).entries@[i as int].0@, *final(r)),
    {
        let ghost keys0 = self.keys();
        let ghost m0 = self@;
        let ghost e0 = self.entries@;
        let r = &mut self.entries[i].1;
        proof {
            assert(after_borrow(self).entries@ =~= e0.update(i as int, (e0[i as int].0, *final(r))));
            assert(after_borrow(self).keys() =~= keys0);
            old(self).lemma_entry(i as int);
            assert(after_borrow(self)@ =~= m0.insert(e0[i as int].0@, *final(r))) by {
                assert forall|k: Seq<u8>| keys0.contains(k) && k != e0[i as int].0@ implies
                    keys0.index_of(k) != i by {}
                after_borrow(self).lemma_entry(i as int);
            }
        }
        r
    }

    /// Puts a value under `key`; returns what stood there.
    pub fn insert(&mut self, key: Vec<u8>, value: V) -> (r: Option<V>)
        requires
            old(self).wf(),
        ensures
            final(self).wf(),
            final(self)@ == old(self)@.insert(key@, value),
            r == (if old(self)@.contains_key(key@) {
                Some(old(self)@[key@])
            } else {
                None
            }),
    {
        let (pos, found) = self.find(key.as_slice());
        let ghost k = key@;
        if found {
            proof {
                self.lemma_entry(pos as int);
            }
            let mut slot = value;
            let r = self.value_mut(pos);
            core::mem::swap(r, &mut slot);
            Some(slot)
        } else {
            self.entries.insert(pos, (key, value));
            proof {
                let keys0 = old(self).keys();
                let keys1 = self.keys();
                assert(keys1 =~= keys0.insert(pos as int, k));
                assert forall|i: int, j: int| 0 <= i < j < keys1.len() implies lex_lt(
                    #[trigger] keys1[i],
                    #[trigger] keys1[j],
                ) by {
                    let a = if i < pos { i } else { i - 1 };
                    let b = if j < pos { j } else { j - 1 };
                    if i != pos && j != pos {
                        assert(lex_lt(keys0[a], keys0[b]));
                    } else if i == pos {
                        assert(lex_lt(k, keys0[b]));
                    } else {
                        assert(lex_lt(keys0[a], k));
                    }
                }
                assert(self@ =~= old(self)@.insert(k, value)) by {
                    self.lemma_entry(pos as int);
                    assert forall|q: Seq<u8>| #[trigger] keys0.contains(q) implies keys1.contains(q)
                        && self@[q] == old(self)@[q] by {
                        let i = old(self).lemma_key(q);
                        let j = if i < pos { i } else { i + 1 };
                        assert(keys1[j] == q);
                        self.lemma_entry(j);
                    }
                    assert forall|q: Seq<u8>| #[trigger] keys1.contains(q) && q != k implies
                        keys0.contains(q) by {
                        let j = keys1.index_of(q);
                        assert(keys1[j] == q);
                        let i = if j < pos { j } else { j - 1 };
                        assert(keys0[i] == q);
                    }
                }
            }
            None
        }
    }

    /// Removes `key`; returns what stood there.
    pub fn remove(&mut self, key: &[u8]) -> (r: Option<V>)
        requires
            old(self).wf(),
        ensures
            final(self).wf(),
            final(self)@ == old(self)@.remove(key@),
            r == (if old(self)@.contains_key(key@) {
                Some(old(self)@[key@])
            } else {
                None
            }),
    {
        let (pos, found) = self.find(key);
        if found {
            let entry = self.entries.remove(pos);
            proof {
                old(self).lemma_entry(pos as int);
                let keys0 = old(self).keys();
                let keys1 = self.keys();
                assert(keys1 =~= keys0.remove(pos as int));
                assert forall|i: int, j: int| 0 <= i < j < keys1.len() implies lex_lt(
                    #[trigger] keys1[i],
                    #[trigger] keys1[j],
                ) by {
                    let a = if i < pos { i } else { i + 1 };
                    let b = if j < pos { j } else { j + 1 };
                    assert(lex_lt(keys0[a], keys0[b]));
                }
                assert(self@ =~= old(self)@.remove(key@)) by {
                    assert forall|q: Seq<u8>| #[trigger] keys1.contains(q) implies keys0.contains(q)
                        && self@[q] == old(self)@[q] && q != key@ by {
                        let j = self.lemma_key(q);
                        let i = if j < pos { j } else { j + 1 };
                        assert(keys0[i] == q);
                        old(self).lemma_entry(i);
                        lemma_lex_irreflexive(q);
                    }
                    assert forall|q: Seq<u8>| #[trigger] keys0.contains(q) && q != key@ implies
                        keys1.contains(q) by {
                        let i = keys0.index_of(q);
                        assert(keys0[i] == q);
                        let j = if i < pos { i } else { i - 1 };
                        assert(keys1[j] == q);
                    }
                }
            }
            Some(entry.1)
        } else {
            proof {
                assert(old(self)@.remove(key@) =~= old(self)@);
            }
            None
        }
    }
}

impl ByteMap<VersionChain> {
    /// The versions of each key.
    pub open spec fn chains(&self) -> Map<Seq<u8>, Seq<Version>> {
        self@.map_values(|c: VersionChain| c@)
    }

    /// The number of versions at the positions before `n`.
    spec fn versions_before(&self, n: int) -> int
        decreases n,
    {
        if n <= 0 {
            0
        } else {
            self.versions_before(n - 1) + self.entries@[n - 1].1@.len()
        }
    }

    spec fn places_before(&self, n: int) -> Set<(Seq<u8>, int)> {
        Set::new(
            |p: (Seq<u8>, int)|
                exists|j: int|
                    0 <= j < n && (#[trigger] self.entries@[j]).0@ == p.0 && 0 <= p.1
                        < self.entries@[j].1@.len(),
        )
    }

    proof fn lemma_places_before(&self, n: int)
        requires
            self.wf(),
            0 <= n <= self.entries@.len(),
        ensures
            self.places_before(n).finite(),
            self.places_before(n).len() == self.versions_before(n),
        decreases n,
    {
        if n == 0 {
            assert(self.places_before(n) =~= Set::empty());
        } else {
            self.lemma_places_before(n - 1);
            let (key, len) = (self.entries@[n - 1].0@, self.entries@[n - 1].1@.len() as int);
            let (a, b) = (self.places_before(n - 1), places_of(key, len));
            lemma_places_of(key, len);
            assert forall|p: (Seq<u8>, int)| !(a.contains(p) && b.contains(p)) by {
                if a.contains(p) && b.contains(p) {
                    let j = choose|j: int|
                        0 <= j < n - 1 && (#[trigger] self.entries@[j]).0@ == p.0 && 0 <= p.1
                            < self.entries@[j].1@.len();
                    self.lemma_entry(j);
                    self.lemma_entry(n - 1);
                    lemma_lex_irreflexive(key);
                    assert(lex_lt(self.keys()[j], self.keys()[n - 1]));
                }
            }
            assert forall|p: (Seq<u8>, int)| self.places_before(n).contains(p) <==> a.contains(p)
                || b.contains(p) by {
                if b.contains(p) {
                    assert(self.entries@[n - 1].0@ == p.0);
                }
                if a.contains(p) {
                    let j = choose|j: int|
                        0 <= j < n - 1 && (#[trigger] self.entries@[j]).0@ == p.0 && 0 <= p.1
                            < self.entries@[j].1@.len();
                    assert(self.entries@[j].0@ == p.0);
                }
            }
            assert(self.places_before(n) =~= a + b);
            vstd::set_lib::lemma_set_disjoint_lens(a, b);
        }
    }

    proof fn lemma_version_total(&self)
        requires
            self.wf(),
        ensures
            version_total(self.chains()) == self.versions_before(self.entries@.len() as int),
    {
        let n = self.entries@.len() as int;
        self.lemma_places_before(n);
        assert forall|p: (Seq<u8>, int)| self.places_before(n).contains(p) <==> places(
            self.chains(),
        ).contains(p) by {
            if self.places_before(n).contains(p) {
                let j = choose|j: int|
                    0 <= j < n && (#[trigger] self.entries@[j]).0@ == p.0 && 0 <= p.1
                        < self.entries@[j].1@.len();
                self.lemma_entry(j);
            }
            if places(self.chains()).contains(p) {
                let j = self.lemma_key(p.0);
                assert(self.entries@[j].0@ == p.0);
            }
        }
        assert(self.places_before(n) =~= places(self.chains()));
    }

    /// Puts a pending version in front of what `key` has.
    pub fn push_version(&mut self, key: Vec<u8>, value: Vec<u8>, tx: TransactionId)
        requires
            old(self).wf(),
        ensures
            final(self).wf(),
            final(self).chains() == with_put(old(self).chains(), key@, value@, tx),
    {
        let ghost k = key@;
        let ghost v = value@;
        let chain = match self.remove(key.as_slice()) {
            Some(c) => c.prepend(value, tx),
            None => VersionChain::new(value, tx),
        };
        assert(chain@ =~= seq![pending(v, tx)] + chain_of(old(self).chains(), k));
        self.insert(key, chain);
        proof {
            assert(self.chains() =~= with_put(old(self).chains(), k, v, tx));
        }
    }

    /// Puts a pending tombstone in front of what `key` has, if it is known.
    pub fn push_tombstone(&mut self, key: Vec<u8>, tx: TransactionId) -> (known: bool)
        requires
            old(self).wf(),
        ensures
            final(self).wf(),
            final(self).chains() == with_delete(old(self).chains(), key@, tx),
            known == old(self)@.contains_key(key@),
    {
        let ghost k = key@;
        match self.remove(key.as_slice()) {
            Some(c) => {
                let tombstone: Vec<u8> = Vec::new();
                assert(tombstone@ =~= Seq::<u8>::empty());
                let chain = c.prepend(tombstone, tx);
                self.insert(key, chain);
                proof {
                    assert(self.chains() =~= with_delete(old(self).chains(), k, tx));
                }
                true
            },
            None => {
                proof {
                    assert(self@ =~= old(self)@);
                }
                false
            },
        }
    }

    /// The value of `key` that the snapshot sees, tombstones and all.
    pub fn visible(&self, key: &[u8], snapshot: &Snapshot) -> (r: Option<&[u8]>)
        requires
            self.wf(),
        ensures
            r is Some <==> snapshot_read(
                self.chains(),
                key@,
                snapshot.lsn,
                snapshot.active_txns@,
            ) is Some,
            r matches Some(v) ==> Some(v@) == snapshot_read(
                self.chains(),
                key@,
                snapshot.lsn,
                snapshot.active_txns@,
            ),
    {
        match self.get(key) {
            Some(chain) => chain.find_visible_version(snapshot),
            None => None,
        }
    }

    /// The value of `key` that a reader at `lsn` gets.
    pub fn read(&self, key: &[u8], lsn: LogSequenceNumber) -> (r: Option<ValueBuf>)
        requires
            self.wf(),
        ensures
            value_view(r) == crate::mvcc::read(self.chains(), key@, lsn),
    {
        let snapshot = Snapshot::at(lsn);
        match self.visible(key, &snapshot) {
            Some(v) => {
                if v.len() == 0 {
                    None
                } else {
                    Some(ValueBuf(copy_bytes(v)))
                }
            },
            None => None,
        }
    }

    /// The value of `key` that a reader at `lsn` sees, tombstones included.
    pub fn raw_read(&self, key: &[u8], lsn: LogSequenceNumber) -> (r: Option<ValueBuf>)
        requires
            self.wf(),
        ensures
            value_view(r) == crate::mvcc::raw_read(self.chains(), key@, lsn),
    {
        let snapshot = Snapshot::at(lsn);
        match self.visible(key, &snapshot) {
            Some(v) => Some(ValueBuf(copy_bytes(v))),
            None => None,
        }
    }

    /// What `key` and its versions take in memory, by estimate; nothing where it is unknown.
    pub fn entry_size(&self, key: &[u8]) -> (r: usize)
        requires
            self.wf(),
        ensures
            r as int == entry_size(self.chains(), key@),
    {
        match self.get(key) {
            Some(chain) => {
                proof {
                    lemma_versions_size(chain@);
                }
                chain.estimated_size(key.len().saturating_add(BUFFER_OVERHEAD))
            },
            None => 0,
        }
    }

    proof fn lemma_mapped(&self, other: &Self, f: spec_fn(Seq<Version>) -> Seq<Version>)
        requires
            other.wf(),
            self.keys() == other.keys(),
            forall|j: int|
                0 <= j < self.entries@.len() ==> (#[trigger] self.entries@[j]).1@ == f(
                    other.entries@[j].1@,
                ),
        ensures
            self.chains() == other.chains().map_values(f),
    {
        assert(self.entries@.len() == self.keys().len());
        assert(other.entries@.len() == other.keys().len());
        assert forall|k: Seq<u8>| #[trigger] self@.contains_key(k) implies self.chains()[k] == f(
            other.chains()[k],
        ) by {
            let i = self.lemma_key(k);
            assert(self.keys()[i] == k);
            assert(other.keys()[i] == k);
            other.lemma_entry(i);
        }
        assert(self.chains() =~= other.chains().map_values(f));
    }

    /// Commits every version that `tx` left pending.
    pub fn commit_of(&mut self, tx: TransactionId, lsn: LogSequenceNumber)
        requires
            old(self).wf(),
        ensures
            final(self).wf(),
            final(self).keys() == old(self).keys(),
            final(self).chains() == old(self).chains().map_values(
                |vs: Seq<Version>| commit_of(vs, tx, lsn),
            ),
    {
        let n: usize = self.entries.len();
        let mut i: usize = 0;
        while i < n
            invariant
                n == self.entries@.len() == old(self).entries@.len(),
                i <= n,
                self.wf(),
                self.keys() == old(self).keys(),
                forall|j: int|
                    0 <= j < i ==> (#[trigger] self.entries@[j]).1@ == ({
                        let vs = old(self).entries@[j].1@;
                        commit_of(vs, tx, lsn)
                    }),
                forall|j: int| i <= j < n ==> #[trigger] self.entries@[j] == old(self).entries@[j],
            decreases n - i,
        {
            let chain = self.value_mut(i);
            chain.commit_of(tx, lsn);
            i += 1;
        }
        proof {
            self.lemma_mapped(old(self), |vs: Seq<Version>| commit_of(vs, tx, lsn));
        }
    }

    /// Vacuums every chain up to `min`. Returns how many versions went.
    pub fn vacuum(&mut self, min: LogSequenceNumber) -> (removed: usize)
        requires
            old(self).wf(),
        ensures
            final(self).wf(),
            final(self).keys() == old(self).keys(),
            final(self).chains() == old(self).chains().map_values(
                |vs: Seq<Version>| vacuumed(vs, min),
            ),
            removed as int == saturated(
                version_total(old(self).chains()) - version_total(final(self).chains()),
            ),
    {
        let n: usize = self.entries.len();
        let mut i: usize = 0;
        let mut removed: usize = 0;
        while i < n
            invariant
                n == self.entries@.len() == old(self).entries@.len(),
                i <= n,
                self.wf(),
                self.keys() == old(self).keys(),
                forall|j: int|
                    0 <= j < i ==> (#[trigger] self.entries@[j]).1@ == vacuumed(
                        old(self).entries@[j].1@,
                        min,
                    ),
                forall|j: int| i <= j < n ==> #[trigger] self.entries@[j] == old(self).entries@[j],
                removed as int == saturated(
                    old(self).versions_before(i as int) - self.versions_before(i as int),
                ),
                self.versions_before(i as int) <= old(self).versions_before(i as int),
            decreases n - i,
        {
            let ghost before = *self;
            let chain = self.value_mut(i);
            let count: usize = chain.vacuum(min);
            removed = removed.saturating_add(count);
            proof {
                self.lemma_versions_before(&before, i as int);
                crate::txn::lemma_vacuumed_len(before.entries@[i as int].1@, min);
            }
            i += 1;
        }
        proof {
            self.lemma_mapped(old(self), |vs: Seq<Version>| vacuumed(vs, min));
            self.lemma_version_total();
            old(self).lemma_version_total();
        }
        removed
    }

    proof fn lemma_versions_before(&self, other: &Self, n: int)
        requires
            0 <= n <= self.entries@.len(),
            n <= other.entries@.len(),
            forall|j: int| 0 <= j < n ==> #[trigger] self.entries@[j] == other.entries@[j],
        ensures
            self.versions_before(n) == other.versions_before(n),
        decreases n,
    {
        if n > 0 {
            self.lemma_versions_before(other, n - 1);
        }
    }
}

} // verus!
