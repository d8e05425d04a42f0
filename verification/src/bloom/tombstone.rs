//! Tombstones for Bloom filter keys: a rolled-back insertion is hidden, its bits stay.
use crate::bytes::bytes_equal;
use crate::snap::Snapshot;
use crate::types::{LogSequenceNumber, TransactionId};
use vstd::prelude::*;

verus! {

/// Hides a key that was inserted by a transaction that was rolled back.
#[derive(Debug, Clone, PartialEq, Eq, Hash)]
pub struct BloomTombstone {
    pub key: Vec<u8>,
    pub tombstone_tx_id: TransactionId,
    /// When the tombstone was committed.
    pub tombstone_lsn: Option<LogSequenceNumber>,
}

/// A tombstone as the contracts speak of it.
#[verifier::ext_equal]
pub struct TombstoneView {
    pub key: Seq<u8>,
    pub tx: TransactionId,
    pub lsn: Option<LogSequenceNumber>,
}

impl View for BloomTombstone {
    type V = TombstoneView;

    open spec fn view(&self) -> TombstoneView {
        TombstoneView { key: self.key@, tx: self.tombstone_tx_id, lsn: self.tombstone_lsn }
    }
}

impl TombstoneView {
    /// A reader at `lsn` sees the tombstone.
    pub open spec fn seen_at(self, lsn: LogSequenceNumber) -> bool {
        self.lsn is Some && self.lsn->Some_0.0 <= lsn.0
    }

    /// The tombstone after the transaction committed.
    pub open spec fn committed(self, tx: TransactionId, at: LogSequenceNumber) -> TombstoneView {
        if self.tx == tx && self.lsn is None {
            TombstoneView { lsn: Some(at), ..self }
        } else {
            self
        }
    }

    /// A vacuum up to `min` keeps the tombstone.
    pub open spec fn survives(self, min: LogSequenceNumber) -> bool {
        self.lsn is None || self.lsn->Some_0.0 > min.0
    }
}

impl BloomTombstone {
    /// A tombstone that is not committed yet.
    pub fn new(key: Vec<u8>, tx_id: TransactionId) -> (r: Self)
        ensures
            r@ == (TombstoneView { key: key@, tx: tx_id, lsn: None }),
    {
        BloomTombstone { key, tombstone_tx_id: tx_id, tombstone_lsn: None }
    }

    /// Marks the tombstone as committed.
    pub fn commit(&mut self, lsn: LogSequenceNumber)
        ensures
            final(self)@ == (TombstoneView { lsn: Some(lsn), ..old(self)@ }),
    {
        self.tombstone_lsn = Some(lsn);
    }

    /// Whether the snapshot sees the tombstone: it was committed by then.
    pub fn is_visible(&self, snapshot: &Snapshot) -> (r: bool)
        ensures
            r == self@.seen_at(snapshot.lsn),
    {
        match self.tombstone_lsn {
            Some(lsn) => lsn.0 <= snapshot.lsn.0,
            None => false,
        }
    }

    fn same(&self, other: &Self) -> (r: bool)
        ensures
            r == (self@ == other@),
    {
        let same_lsn: bool = match (self.tombstone_lsn, other.tombstone_lsn) {
            (Some(a), Some(b)) => a.0 == b.0,
            (None, None) => true,
            _ => false,
        };
        same_lsn && self.tombstone_tx_id.0 == other.tombstone_tx_id.0 && bytes_equal(
            self.key.as_slice(),
            other.key.as_slice(),
        )
    }
}

/// One of the tombstones hides the key from a reader at `lsn`.
pub open spec fn hides(set: Set<TombstoneView>, key: Seq<u8>, lsn: LogSequenceNumber) -> bool {
    exists|t: TombstoneView| #[trigger] set.contains(t) && t.key == key && t.seen_at(lsn)
}

/// The tombstones after the transaction committed.
pub open spec fn with_committed(
    set: Set<TombstoneView>,
    tx: TransactionId,
    at: LogSequenceNumber,
) -> Set<TombstoneView> {
    set.map(|t: TombstoneView| t.committed(tx, at))
}

/// The tombstones of a filter.
#[derive(Debug, Clone)]
pub struct BloomTombstoneSet {
    pub tombstones: Vec<BloomTombstone>,
}

impl View for BloomTombstoneSet {
    type V = Set<TombstoneView>;

    open spec fn view(&self) -> Set<TombstoneView> {
        self.views().to_set()
    }
}

impl Default for BloomTombstoneSet {
    fn default() -> (r: Self)
        ensures
            r.wf(),
            r@ == Set::<TombstoneView>::empty(),
    {
        Self::new()
    }
}

impl BloomTombstoneSet {
    /// The tombstones in the order in which they are held.
    pub open spec fn views(&self) -> Seq<TombstoneView> {
        Seq::new(self.tombstones@.len(), |i: int| self.tombstones@[i]@)
    }

    /// No tombstone is held twice.
    pub open spec fn wf(&self) -> bool {
        self.views().no_duplicates()
    }

    /// No tombstones.
    pub fn new() -> (r: Self)
        ensures
            r.wf(),
            r@ == Set::<TombstoneView>::empty(),
    {
        let r = BloomTombstoneSet { tombstones: Vec::new() };
        assert(r@ =~= Set::<TombstoneView>::empty());
        r
    }

    fn holds(&self, t: &BloomTombstone) -> (r: bool)
        ensures
            r == self@.contains(t@),
    {
        let mut i: usize = 0;
        while i < self.tombstones.len()
            invariant
                i <= self.tombstones@.len(),
                forall|j: int| 0 <= j < i ==> #[trigger] self.views()[j] != t@,
            decreases self.tombstones@.len() - i,
        {
            if self.tombstones[i].same(t) {
                assert(self.views()[i as int] == t@);
                return true;
            }
            i += 1;
        }
        false
    }

    fn include_one(&mut self, t: BloomTombstone)
        requires
            old(self).wf(),
        ensures
            final(self).wf(),
            final(self)@ == old(self)@.insert(t@),
    {
        let ghost before = self.views();
        if !self.holds(&t) {
            self.tombstones.push(t);
            assert(self.views() =~= before.push(t@));
            assert(self@ =~= old(self)@.insert(t@)) by {
                assert forall|x: TombstoneView| before.push(t@).contains(x) <==> before.contains(x)
                    || x == t@ by {
                    if before.contains(x) {
                        let i = before.index_of(x);
                        assert(before.push(t@)[i] == x);
                    }
                    if x == t@ {
                        assert(before.push(t@)[before.len() as int] == x);
                    }
                    if before.push(t@).contains(x) {
                        let i = before.push(t@).index_of(x);
                        if i < before.len() {
                            assert(before[i] == x);
                        }
                    }
                }
            }
        } else {
            assert(self@ =~= old(self)@.insert(t@));
        }
    }

    /// Adds a tombstone for a rolled-back key.
    pub fn add(&mut self, key: Vec<u8>, tx_id: TransactionId)
        requires
            old(self).wf(),
        ensures
            final(self).wf(),
            final(self)@ == old(self)@.insert(TombstoneView { key: key@, tx: tx_id, lsn: None }),
    {
        self.include_one(BloomTombstone::new(key, tx_id));
    }

    /// Whether a tombstone hides the key from the snapshot.
    pub fn is_tombstoned(&self, key: &[u8], snapshot: &Snapshot) -> (r: bool)
        ensures
            r == hides(self@, key@, snapshot.lsn),
    {
        let mut i: usize = 0;
        while i < self.tombstones.len()
            invariant
                i <= self.tombstones@.len(),
                forall|j: int|
                    0 <= j < i ==> !((#[trigger] self.views()[j]).key == key@
                        && self.views()[j].seen_at(snapshot.lsn)),
            decreases self.tombstones@.len() - i,
        {
            if bytes_equal(self.tombstones[i].key.as_slice(), key)
                && self.tombstones[i].is_visible(snapshot) {
                proof {
                    let t = self.views()[i as int];
                    assert(self@.contains(t));
                }
                return true;
            }
            i += 1;
        }
        false
    }

    /// Commits the pending tombstones of a transaction.
    pub fn commit_tombstones(&mut self, tx_id: TransactionId, commit_lsn: LogSequenceNumber)
        requires
            old(self).wf(),
        ensures
            final(self).wf(),
            final(self)@ == with_committed(old(self)@, tx_id, commit_lsn),
    {
        let ghost all = old(self).tombstones@;
        let ghost views = self.views();
        let ghost f = |t: TombstoneView| t.committed(tx_id, commit_lsn);
        let mut rest: Vec<BloomTombstone> = Vec::new();
        core::mem::swap(&mut rest, &mut self.tombstones);
        assert(rest@ =~= all);
        assert(views.take(0) =~= Seq::empty());
        let n: usize = rest.len();
        let mut i: usize = 0;
        assert(all.skip(0) =~= all);
        assert(self@ =~= views.take(0).to_set().map(f));
        while i < n
            invariant
                i <= n == all.len() == views.len(),
                rest@ == all.skip(i as int),
                forall|j: int| 0 <= j < n ==> #[trigger] views[j] == all[j]@,
                f == (|t: TombstoneView| t.committed(tx_id, commit_lsn)),
                self.wf(),
                self@ == views.take(i as int).to_set().map(f),
            decreases n - i,
        {
            let ghost before = self@;
            let mut t = rest.remove(0);
            let ghost t0 = t@;
            proof {
                assert(all.skip(i as int).remove(0) =~= all.skip(i + 1));
                assert(views[i as int] == t0);
            }
            if t.tombstone_tx_id.0 == tx_id.0 && t.tombstone_lsn.is_none() {
                t.commit(commit_lsn);
            }
            assert(t@ == f(t0));
            self.include_one(t);
            proof {
                let s0 = views.take(i as int);
                let s1 = views.take(i + 1);
                assert(s1 =~= s0.push(t0));
                assert forall|x: TombstoneView| #[trigger] s1.to_set().contains(x)
                    <==> s0.to_set().contains(x) || x == t0 by {
                    if s0.contains(x) {
                        let k = s0.index_of(x);
                        assert(s1[k] == x);
                    }
                    if x == t0 {
                        assert(s1[i as int] == x);
                    }
                    if s1.contains(x) {
                        let k = s1.index_of(x);
                        if k < i {
                            assert(s0[k] == x);
                        }
                    }
                }
                assert(s1.to_set() =~= s0.to_set().insert(t0));
                assert(s1.to_set().map(f) =~= s0.to_set().map(f).insert(f(t0))) by {
                    assert forall|y: TombstoneView| #[trigger] s1.to_set().map(f).contains(y)
                        <==> s0.to_set().map(f).contains(y) || y == f(t0) by {
                        if s0.to_set().map(f).contains(y) {
                            let x = choose|x: TombstoneView| s0.to_set().contains(x) && y == f(x);
                            assert(s1.to_set().contains(x));
                        }
                        if y == f(t0) {
                            assert(s1.to_set().contains(t0));
                        }
                        if s1.to_set().map(f).contains(y) {
                            let x = choose|x: TombstoneView| s1.to_set().contains(x) && y == f(x);
                            if x != t0 {
                                assert(s0.to_set().contains(x));
                            }
                        }
                    }
                }
            }
            i += 1;
        }
        assert(views.take(n as int) =~= views);
    }

    /// Drops the tombstones that were committed at `min_visible_lsn` or earlier. Returns how many
    /// went.
    pub fn vacuum(&mut self, min_visible_lsn: LogSequenceNumber) -> (r: usize)
        requires
            old(self).wf(),
        ensures
            final(self).wf(),
            final(self)@ == old(self)@.filter(|t: TombstoneView| t.survives(min_visible_lsn)),
            r == old(self)@.len() - final(self)@.len(),
    {
        let ghost all = old(self).tombstones@;
        let ghost views = self.views();
        let ghost p = |t: TombstoneView| t.survives(min_visible_lsn);
        let before: usize = self.tombstones.len();
        let mut rest: Vec<BloomTombstone> = Vec::new();
        core::mem::swap(&mut rest, &mut self.tombstones);
        assert(rest@ =~= all);
        let mut i: usize = 0;
        assert(all.skip(0) =~= all);
        assert(self@ =~= views.take(0).to_set().filter(p));
        while i < before
            invariant
                i <= before == all.len() == views.len(),
                rest@ == all.skip(i as int),
                forall|j: int| 0 <= j < before ==> #[trigger] views[j] == all[j]@,
                p == (|t: TombstoneView| t.survives(min_visible_lsn)),
                views.no_duplicates(),
                self.wf(),
                self.tombstones@.len() <= i,
                self@ == views.take(i as int).to_set().filter(p),
            decreases before - i,
        {
            let ghost mid = self.views();
            let t = rest.remove(0);
            let ghost t0 = t@;
            proof {
                assert(all.skip(i as int).remove(0) =~= all.skip(i + 1));
                assert(views[i as int] == t0);
                let s0 = views.take(i as int);
                let s1 = views.take(i + 1);
                assert(s1 =~= s0.push(t0));
                assert forall|x: TombstoneView| #[trigger] s1.to_set().contains(x)
                    <==> s0.to_set().contains(x) || x == t0 by {
                    if s0.contains(x) {
                        let k = s0.index_of(x);
                        assert(s1[k] == x);
                    }
                    if x == t0 {
                        assert(s1[i as int] == x);
                    }
                    if s1.contains(x) {
                        let k = s1.index_of(x);
                        if k < i {
                            assert(s0[k] == x);
                        }
                    }
                }
                assert(s1.to_set().filter(p) =~= (if p(t0) {
                    s0.to_set().filter(p).insert(t0)
                } else {
                    s0.to_set().filter(p)
                }));
            }
            let keep: bool = match t.tombstone_lsn {
                Some(lsn) => lsn.0 > min_visible_lsn.0,
                None => true,
            };
            if keep {
                let ghost len0 = self.tombstones@.len();
                self.include_one(t);
                proof {
                    self.views().unique_seq_to_set();
                    mid.unique_seq_to_set();
                }
            }
            i += 1;
        }
        proof {
            assert(views.take(before as int) =~= views);
            self.views().unique_seq_to_set();
            views.unique_seq_to_set();
        }
        before - self.tombstones.len()
    }

    /// The number of tombstones.
    pub fn len(&self) -> (r: usize)
        requires
            self.wf(),
        ensures
            r == self@.len(),
    {
        proof {
            self.views().unique_seq_to_set();
        }
        self.tombstones.len()
    }

    /// Whether there are no tombstones.
    pub fn is_empty(&self) -> (r: bool)
        ensures
            r == (self@ == Set::<TombstoneView>::empty()),
    {
        let r: bool = self.tombstones.len() == 0;
        proof {
            if r {
                assert(self@ =~= Set::<TombstoneView>::empty());
            } else {
                assert(self@.contains(self.views()[0]));
            }
        }
        r
    }

    /// Drops all tombstones.
    pub fn clear(&mut self)
        ensures
            final(self).wf(),
            final(self)@ == Set::<TombstoneView>::empty(),
    {
        self.tombstones.clear();
        assert(self@ =~= Set::<TombstoneView>::empty());
    }

    /// All tombstones, in no particular order.
    pub fn iter(&self) -> (r: &Vec<BloomTombstone>)
        ensures
            *r == self.tombstones,
    {
        &self.tombstones
    }
}

/// A key is hidden from the readers at or after a point where a tombstone of it was committed, and
/// from no others.
pub proof fn law_hidden_since_the_commit(
    set: Set<TombstoneView>,
    key: Seq<u8>,
    lsn: LogSequenceNumber,
)
    ensures
        hides(set, key, lsn) <==> exists|tx: TransactionId, at: LogSequenceNumber|
            at.0 <= lsn.0 && #[trigger] set.contains(TombstoneView { key, tx, lsn: Some(at) }),
{
    if hides(set, key, lsn) {
        let t = choose|t: TombstoneView| #[trigger]
            set.contains(t) && t.key == key && t.seen_at(lsn);
        assert(t == TombstoneView { key, tx: t.tx, lsn: Some(t.lsn->Some_0) });
        assert(set.contains(TombstoneView { key, tx: t.tx, lsn: Some(t.lsn->Some_0) }));
    }
    if exists|tx: TransactionId, at: LogSequenceNumber|
        at.0 <= lsn.0 && #[trigger] set.contains(TombstoneView { key, tx, lsn: Some(at) }) {
        let (tx, at) = choose|tx: TransactionId, at: LogSequenceNumber|
            at.0 <= lsn.0 && #[trigger] set.contains(TombstoneView { key, tx, lsn: Some(at) });
        let t = TombstoneView { key, tx, lsn: Some(at) };
        assert(set.contains(t) && t.seen_at(lsn));
    }
}

/// A commit hides the keys of its own pending tombstones from the readers at or after it, and
/// changes nothing else for any reader.
pub proof fn law_commit_hides_its_own(
    set: Set<TombstoneView>,
    tx: TransactionId,
    at: LogSequenceNumber,
    key: Seq<u8>,
    lsn: LogSequenceNumber,
)
    ensures
        hides(with_committed(set, tx, at), key, lsn) <==> hides(set, key, lsn) || (at.0 <= lsn.0
            && set.contains(TombstoneView { key, tx, lsn: None })),
{
    let f = |t: TombstoneView| t.committed(tx, at);
    let after = with_committed(set, tx, at);
    if hides(after, key, lsn) {
        let t = choose|t: TombstoneView| #[trigger]
            after.contains(t) && t.key == key && t.seen_at(lsn);
        let t0 = choose|t0: TombstoneView| #[trigger] set.contains(t0) && f(t0) == t;
        assert(set.contains(t0) && t0.committed(tx, at) == t);
        if t0.tx == tx && t0.lsn is None {
            assert(t0 == TombstoneView { key, tx, lsn: None });
        } else {
            assert(t0 == t);
        }
    }
    if hides(set, key, lsn) {
        let t = choose|t: TombstoneView| #[trigger]
            set.contains(t) && t.key == key && t.seen_at(lsn);
        assert(set.map(f).contains(f(t)));
        assert(after.contains(t));
    }
    if at.0 <= lsn.0 && set.contains(TombstoneView { key, tx, lsn: None }) {
        law_committed_tombstone_hides(set, key, tx, at, lsn);
    }
}

/// A vacuum takes the tombstones that were committed at or before `min`, and no others: those keys
/// are no longer hidden by them.
pub proof fn law_vacuum_takes_old_tombstones(
    set: Set<TombstoneView>,
    min: LogSequenceNumber,
    t: TombstoneView,
)
    requires
        set.contains(t),
    ensures
        set.filter(|t: TombstoneView| t.survives(min)).contains(t) <==> t.lsn is None
            || t.lsn->Some_0.0 > min.0,
{
}

/// Once committed, a tombstone hides its key from every later reader.
pub proof fn law_committed_tombstone_hides(
    set: Set<TombstoneView>,
    key: Seq<u8>,
    tx: TransactionId,
    at: LogSequenceNumber,
    lsn: LogSequenceNumber,
)
    requires
        set.contains(TombstoneView { key, tx, lsn: None }),
        at.0 <= lsn.0,
    ensures
        hides(with_committed(set, tx, at), key, lsn),
{
    let t0 = TombstoneView { key, tx, lsn: None };
    let f = |t: TombstoneView| t.committed(tx, at);
    assert(set.map(f).contains(f(t0)));
    assert(with_committed(set, tx, at).contains(t0.committed(tx, at)));
}

} // verus!
