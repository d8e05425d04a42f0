//! Version chains: the versions of one key, newest first.
use crate::bytes::copy_bytes;
use crate::snap::Snapshot;
use crate::types::{LogSequenceNumber, TransactionId};
use vstd::prelude::*;

verus! {

/// One version of a key, as the contracts speak of it.
#[verifier::ext_equal]
pub struct Version {
    pub value: Seq<u8>,
    pub created_by: TransactionId,
    pub commit_lsn: Option<LogSequenceNumber>,
}

/// The version that transaction `tx` has written and not committed.
pub open spec fn pending(value: Seq<u8>, tx: TransactionId) -> Version {
    Version { value, created_by: tx, commit_lsn: None }
}

/// The version as it stands once committed at `lsn`.
pub open spec fn committed(v: Version, lsn: LogSequenceNumber) -> Version {
    Version { commit_lsn: Some(lsn), ..v }
}

/// A reader at `lsn` that hides the transactions in `active` sees the version.
pub open spec fn sees(v: Version, lsn: LogSequenceNumber, active: Seq<TransactionId>) -> bool {
    match v.commit_lsn {
        Some(l) => l.0 <= lsn.0 && !active.contains(v.created_by),
        None => false,
    }
}

/// The newest version that a reader sees.
pub open spec fn find_visible(
    vs: Seq<Version>,
    lsn: LogSequenceNumber,
    active: Seq<TransactionId>,
) -> Option<Seq<u8>>
    decreases vs.len(),
{
    if vs.len() == 0 {
        None
    } else if sees(vs[0], lsn, active) {
        Some(vs[0].value)
    } else {
        find_visible(vs.drop_first(), lsn, active)
    }
}

/// The newest version committed at or before `lsn`.
pub open spec fn visible_at(vs: Seq<Version>, lsn: LogSequenceNumber) -> Option<Seq<u8>> {
    find_visible(vs, lsn, Seq::empty())
}

/// The newest committed version.
pub open spec fn latest_committed(vs: Seq<Version>) -> Option<Seq<u8>>
    decreases vs.len(),
{
    if vs.len() == 0 {
        None
    } else if vs[0].commit_lsn is Some {
        Some(vs[0].value)
    } else {
        latest_committed(vs.drop_first())
    }
}

/// The chain with its newest version committed at `lsn`.
pub open spec fn commit_head(vs: Seq<Version>, lsn: LogSequenceNumber) -> Seq<Version> {
    vs.update(0, committed(vs[0], lsn))
}

/// The chain with every version that `tx` left pending committed at `lsn`.
pub open spec fn commit_of(
    vs: Seq<Version>,
    tx: TransactionId,
    lsn: LogSequenceNumber,
) -> Seq<Version> {
    vs.map_values(
        |v: Version|
            if v.created_by == tx && v.commit_lsn is None {
                committed(v, lsn)
            } else {
                v
            },
    )
}

/// The chain with every pending version committed at `lsn`.
pub open spec fn commit_pending(vs: Seq<Version>, lsn: LogSequenceNumber) -> Seq<Version> {
    vs.map_values(
        |v: Version|
            if v.commit_lsn is None {
                committed(v, lsn)
            } else {
                v
            },
    )
}

/// The version was committed before `min`.
pub open spec fn is_old(v: Version, min: LogSequenceNumber) -> bool {
    match v.commit_lsn {
        Some(l) => l.0 < min.0,
        None => false,
    }
}

/// The chain without the versions behind its newest one that was committed before `min`.
pub open spec fn vacuumed(vs: Seq<Version>, min: LogSequenceNumber) -> Seq<Version>
    decreases vs.len(),
{
    if vs.len() == 0 {
        vs
    } else if is_old(vs[0], min) {
        seq![vs[0]]
    } else {
        seq![vs[0]] + vacuumed(vs.drop_first(), min)
    }
}

/// Vacuuming keeps at least one version and at most all of them.
pub proof fn lemma_vacuumed_len(vs: Seq<Version>, min: LogSequenceNumber)
    ensures
        vacuumed(vs, min).len() <= vs.len(),
        vs.len() > 0 ==> vacuumed(vs, min).len() > 0,
    decreases vs.len(),
{
    if vs.len() > 0 && !is_old(vs[0], min) {
        lemma_vacuumed_len(vs.drop_first(), min);
    }
}

/// Vacuuming up to `min` changes nothing for any reader at `min` or later, unless the reader
/// hides a transaction that committed before `min`.
pub proof fn lemma_vacuum_keeps_reads(
    vs: Seq<Version>,
    min: LogSequenceNumber,
    lsn: LogSequenceNumber,
    active: Seq<TransactionId>,
)
    requires
        lsn.0 >= min.0,
        forall|i: int|
            0 <= i < vs.len() && is_old(#[trigger] vs[i], min) ==> !active.contains(
                vs[i].created_by,
            ),
    ensures
        find_visible(vacuumed(vs, min), lsn, active) == find_visible(vs, lsn, active),
    decreases vs.len(),
{
    if vs.len() > 0 && !is_old(vs[0], min) {
        let rest = vs.drop_first();
        assert forall|i: int| 0 <= i < rest.len() && is_old(#[trigger] rest[i], min) implies
            !active.contains(rest[i].created_by) by {
            assert(rest[i] == vs[i + 1]);
        }
        lemma_vacuum_keeps_reads(rest, min, lsn, active);
        let out = vacuumed(vs, min);
        assert(out.drop_first() =~= vacuumed(rest, min));
    }
}

/// Vacuuming twice up to the same point removes nothing more.
pub proof fn lemma_vacuum_idempotent(vs: Seq<Version>, min: LogSequenceNumber)
    ensures
        vacuumed(vacuumed(vs, min), min) == vacuumed(vs, min),
    decreases vs.len(),
{
    if vs.len() > 0 && !is_old(vs[0], min) {
        lemma_vacuum_idempotent(vs.drop_first(), min);
        assert(vacuumed(vs, min).drop_first() =~= vacuumed(vs.drop_first(), min));
    }
}

/// A pending version is invisible: every reader sees what it saw before the write.
pub proof fn lemma_pending_is_invisible(
    vs: Seq<Version>,
    value: Seq<u8>,
    tx: TransactionId,
    lsn: LogSequenceNumber,
    active: Seq<TransactionId>,
)
    ensures
        find_visible(seq![pending(value, tx)] + vs, lsn, active) == find_visible(vs, lsn, active),
{
    assert((seq![pending(value, tx)] + vs).drop_first() =~= vs);
}

/// A chain in which transaction `tx` has nothing pending.
pub open spec fn has_none_pending(vs: Seq<Version>, tx: TransactionId) -> bool {
    forall|i: int|
        0 <= i < vs.len() ==> !((#[trigger] vs[i]).created_by == tx && vs[i].commit_lsn is None)
}

/// A commit at `at` leaves everything as it was for readers before `at`, and for those that hide
/// the transaction.
pub proof fn lemma_commit_is_later(
    vs: Seq<Version>,
    tx: TransactionId,
    at: LogSequenceNumber,
    lsn: LogSequenceNumber,
    active: Seq<TransactionId>,
)
    requires
        lsn.0 < at.0 || active.contains(tx),
    ensures
        find_visible(commit_of(vs, tx, at), lsn, active) == find_visible(vs, lsn, active),
    decreases vs.len(),
{
    if vs.len() > 0 {
        lemma_commit_is_later(vs.drop_first(), tx, at, lsn, active);
        assert(commit_of(vs, tx, at).drop_first() =~= commit_of(vs.drop_first(), tx, at));
    }
}

/// A version that is committed at `at` is what every reader at `at` or later sees, and readers
/// before `at` see what they saw before.
pub proof fn lemma_committed_is_visible(
    vs: Seq<Version>,
    value: Seq<u8>,
    tx: TransactionId,
    at: LogSequenceNumber,
    lsn: LogSequenceNumber,
)
    ensures
        visible_at(commit_of(seq![pending(value, tx)] + vs, tx, at), lsn) == (if at.0 <= lsn.0 {
            Some(value)
        } else {
            visible_at(vs, lsn)
        }),
{
    let before = seq![pending(value, tx)] + vs;
    let after = commit_of(before, tx, at);
    assert(after[0] == committed(pending(value, tx), at));
    if lsn.0 < at.0 {
        lemma_commit_is_later(before, tx, at, lsn, Seq::empty());
        lemma_pending_is_invisible(vs, value, tx, lsn, Seq::empty());
    }
}

/// Reading the latest committed version is reading at the end of the log.
pub proof fn lemma_latest_is_visible(vs: Seq<Version>)
    ensures
        latest_committed(vs) == visible_at(vs, LogSequenceNumber(u64::MAX)),
    decreases vs.len(),
{
    if vs.len() > 0 {
        lemma_latest_is_visible(vs.drop_first());
    }
}

/// A reader gets the newest version that was committed at or before its point of the log by a
/// transaction that it does not hide.
pub proof fn law_newest_visible_version(
    vs: Seq<Version>,
    n: int,
    lsn: LogSequenceNumber,
    active: Seq<TransactionId>,
)
    requires
        0 <= n < vs.len(),
        vs[n].commit_lsn matches Some(l) && l.0 <= lsn.0,
        !active.contains(vs[n].created_by),
        forall|i: int|
            0 <= i < n ==> (#[trigger] vs[i]).commit_lsn is None || vs[i].commit_lsn->Some_0.0
                > lsn.0 || active.contains(vs[i].created_by),
    ensures
        find_visible(vs, lsn, active) == Some(vs[n].value),
    decreases n,
{
    if n > 0 {
        let rest = vs.drop_first();
        assert forall|i: int| 0 <= i < n - 1 implies (#[trigger] rest[i]).commit_lsn is None
            || rest[i].commit_lsn->Some_0.0 > lsn.0 || active.contains(rest[i].created_by) by {
            assert(rest[i] == vs[i + 1]);
        }
        assert(vs[0].commit_lsn is None || vs[0].commit_lsn->Some_0.0 > lsn.0 || active.contains(
            vs[0].created_by,
        ));
        law_newest_visible_version(rest, n - 1, lsn, active);
    }
}

/// A reader gets nothing where every version is pending, later than its point of the log or of a
/// transaction that it hides.
pub proof fn law_nothing_visible(
    vs: Seq<Version>,
    lsn: LogSequenceNumber,
    active: Seq<TransactionId>,
)
    requires
        forall|i: int|
            0 <= i < vs.len() ==> (#[trigger] vs[i]).commit_lsn is None
                || vs[i].commit_lsn->Some_0.0 > lsn.0 || active.contains(vs[i].created_by),
    ensures
        find_visible(vs, lsn, active) is None,
    decreases vs.len(),
{
    if vs.len() > 0 {
        let rest = vs.drop_first();
        assert forall|i: int| 0 <= i < rest.len() implies (#[trigger] rest[i]).commit_lsn is None
            || rest[i].commit_lsn->Some_0.0 > lsn.0 || active.contains(rest[i].created_by) by {
            assert(rest[i] == vs[i + 1]);
        }
        assert(vs[0].commit_lsn is None || vs[0].commit_lsn->Some_0.0 > lsn.0 || active.contains(
            vs[0].created_by,
        ));
        law_nothing_visible(rest, lsn, active);
    }
}

/// A commit gives every pending version of its transaction its point of the log, leaves none of
/// them pending, and changes nothing else.
pub proof fn law_commit_is_of_one_transaction(
    vs: Seq<Version>,
    tx: TransactionId,
    at: LogSequenceNumber,
    i: int,
)
    requires
        0 <= i < vs.len(),
    ensures
        commit_of(vs, tx, at).len() == vs.len(),
        has_none_pending(commit_of(vs, tx, at), tx),
        vs[i].created_by == tx && vs[i].commit_lsn is None ==> {
            let v = commit_of(vs, tx, at)[i];
            v.value == vs[i].value && v.created_by == tx && v.commit_lsn == Some(at)
        },
        vs[i].created_by != tx || vs[i].commit_lsn is Some ==> commit_of(vs, tx, at)[i] == vs[i],
{
}

/// A commit of all that is pending changes no version that was committed, and no value.
pub proof fn law_commit_of_all_pending(vs: Seq<Version>, at: LogSequenceNumber, i: int)
    requires
        0 <= i < vs.len(),
    ensures
        commit_pending(vs, at).len() == vs.len(),
        ({
            let v = commit_pending(vs, at)[i];
            &&& v.value == vs[i].value
            &&& v.created_by == vs[i].created_by
            &&& v.commit_lsn == (match vs[i].commit_lsn {
                Some(l) => Some(l),
                None => Some(at),
            })
        }),
{
}

/// A vacuum keeps the newest versions, up to and with the first that was committed before `min`,
/// and takes all that lie behind it.
pub proof fn law_vacuum_leaves_one_old_version(vs: Seq<Version>, min: LogSequenceNumber)
    ensures
        ({
            let kept = vacuumed(vs, min);
            &&& kept.len() <= vs.len()
            &&& kept == vs.take(kept.len() as int)
            &&& forall|i: int|
                0 <= i < kept.len() - 1 ==> (#[trigger] kept[i]).commit_lsn is None
                    || kept[i].commit_lsn->Some_0.0 >= min.0
            &&& kept.len() < vs.len() ==> kept.len() > 0 && (kept.last().commit_lsn matches Some(l)
                && l.0 < min.0)
        }),
    decreases vs.len(),
{
    let kept = vacuumed(vs, min);
    if vs.len() == 0 {
        assert(kept =~= vs.take(0));
    } else if is_old(vs[0], min) {
        assert(kept =~= vs.take(1));
    } else {
        let rest = vs.drop_first();
        law_vacuum_leaves_one_old_version(rest, min);
        let tail = vacuumed(rest, min);
        assert(kept =~= vs.take(kept.len() as int)) by {
            assert forall|i: int| 0 < i < kept.len() implies kept[i] == vs[i] by {
                assert(kept[i] == tail[i - 1]);
                assert(tail[i - 1] == rest.take(tail.len() as int)[i - 1]);
            }
        }
        assert forall|i: int| 0 <= i < kept.len() - 1 implies (#[trigger] kept[i]).commit_lsn is None
            || kept[i].commit_lsn->Some_0.0 >= min.0 by {
            if i > 0 {
                assert(kept[i] == tail[i - 1]);
            }
        }
        if kept.len() < vs.len() {
            assert(kept.last() == tail.last());
        }
    }
}

/// The size of a version beside its value, by estimate: the version itself and the link to it.
pub const VERSION_OVERHEAD: usize = 64;

/// The size of an owned byte string beside its bytes.
pub const BUFFER_OVERHEAD: usize = 24;

/// What the versions take in memory, by estimate.
pub open spec fn versions_size(vs: Seq<Version>) -> int
    decreases vs.len(),
{
    if vs.len() == 0 {
        0
    } else {
        vs[0].value.len() + VERSION_OVERHEAD + versions_size(vs.drop_first())
    }
}

/// The estimate is never negative.
pub proof fn lemma_versions_size(vs: Seq<Version>)
    ensures
        versions_size(vs) >= 0,
    decreases vs.len(),
{
    if vs.len() > 0 {
        lemma_versions_size(vs.drop_first());
    }
}

/// The versions take what their values take and the overhead of each, however they are parted.
pub proof fn law_versions_size_adds_up(a: Seq<Version>, v: Version, b: Seq<Version>)
    ensures
        versions_size(Seq::empty()) == 0,
        versions_size(seq![v]) == v.value.len() + 64,
        versions_size(a + seq![v] + b) == versions_size(a) + versions_size(seq![v]) + versions_size(
            b,
        ),
    decreases a.len(),
{
    reveal_with_fuel(versions_size, 2);
    assert(seq![v].drop_first() =~= Seq::empty());
    let all = a + seq![v] + b;
    if a.len() == 0 {
        assert(all.drop_first() =~= b);
    } else {
        law_versions_size_adds_up(a.drop_first(), v, b);
        assert(all.drop_first() =~= a.drop_first() + seq![v] + b);
    }
}

/// The memory in use after an entry of size `before` became one of size `after`.
pub open spec fn adjusted_usage(usage: int, before: int, after: int) -> int {
    if usage + after - before < 0 {
        0
    } else {
        saturated(usage + after - before)
    }
}

/// Adjusts the memory in use for an entry that changed its size.
pub fn adjust_usage(usage: usize, before: usize, after: usize) -> (r: usize)
    ensures
        r as int == adjusted_usage(usage as int, before as int, after as int),
{
    if after >= before {
        usage.saturating_add(after - before)
    } else {
        usage.saturating_sub(before - after)
    }
}

/// The versions of one key.
#[derive(Debug)]
pub struct VersionChain {
    pub value: Vec<u8>,
    pub created_by: TransactionId,
    pub commit_lsn: Option<LogSequenceNumber>,
    pub prev_version: Option<Box<VersionChain>>,
}

impl View for VersionChain {
    type V = Seq<Version>;

    open spec fn view(&self) -> Seq<Version> {
        self.versions()
    }
}

impl VersionChain {
    /// The newest version.
    pub open spec fn head(&self) -> Version {
        Version {
            value: self.value@,
            created_by: self.created_by,
            commit_lsn: self.commit_lsn,
        }
    }

    /// Every version, newest first.
    pub open spec fn versions(&self) -> Seq<Version>
        decreases self,
    {
        seq![self.head()] + match self.prev_version {
            Some(prev) => prev.versions(),
            None => Seq::empty(),
        }
    }

    /// The versions behind the newest one.
    pub open spec fn older(&self) -> Seq<Version> {
        match self.prev_version {
            Some(prev) => prev@,
            None => Seq::empty(),
        }
    }

    /// A chain is its newest version and what is behind it.
    pub proof fn lemma_view(&self)
        ensures
            self@.len() >= 1,
            self@[0] == self.head(),
            self@.drop_first() == self.older(),
            self@ == seq![self.head()] + self.older(),
    {
        assert(self@.drop_first() =~= self.older());
    }

    /// A chain that holds one pending version.
    pub fn new(value: Vec<u8>, created_by: TransactionId) -> (r: Self)
        ensures
            r@ == seq![pending(value@, created_by)],
    {
        let r = VersionChain {
            value,
            created_by,
            commit_lsn: None,
            prev_version: None,
        };
        assert(r@ =~= seq![pending(value@, created_by)]);
        r
    }

    /// The chain with a pending version in front.
    pub fn prepend(self, value: Vec<u8>, created_by: TransactionId) -> (r: Self)
        ensures
            r@ == seq![pending(value@, created_by)] + self@,
    {
        VersionChain {
            value,
            created_by,
            commit_lsn: None,
            prev_version: Some(Box::new(self)),
        }
    }

    /// Commits the newest version at `lsn`.
    pub fn commit(&mut self, lsn: LogSequenceNumber)
        ensures
            final(self)@ == commit_head(old(self)@, lsn),
    {
        self.commit_lsn = Some(lsn);
        proof {
            assert(self@ =~= commit_head(old(self)@, lsn));
        }
    }

    /// Whether `tx` left a version pending.
    pub fn has_pending(&self, tx: TransactionId) -> (r: bool)
        ensures
            r == !has_none_pending(self@, tx),
        decreases self,
    {
        proof {
            self.lemma_view();
        }
        if self.created_by == tx && self.commit_lsn.is_none() {
            assert(self@[0] == self.head());
            return true;
        }
        match &self.prev_version {
            Some(prev) => {
                let r = prev.has_pending(tx);
                proof {
                    assert(forall|i: int|
                        0 <= i < prev@.len() ==> prev@[i] == #[trigger] self@[i + 1]);
                    assert(forall|i: int|
                        1 <= i < self@.len() ==> #[trigger] self@[i] == prev@[i - 1]);
                    if r {
                        let i = choose|i: int|
                            0 <= i < prev@.len() && (#[trigger] prev@[i]).created_by == tx
                                && prev@[i].commit_lsn is None;
                        assert(self@[i + 1] == prev@[i]);
                    }
                }
                r
            },
            None => false,
        }
    }

    /// Commits every version that `tx` left pending at `lsn`.
    pub fn commit_of(&mut self, tx: TransactionId, lsn: LogSequenceNumber)
        ensures
            final(self)@ == commit_of(old(self)@, tx, lsn),
        decreases old(self)@.len(),
    {
        proof {
            self.lemma_view();
        }
        if self.created_by == tx && self.commit_lsn.is_none() {
            self.commit_lsn = Some(lsn);
        }
        if let Some(prev) = &mut self.prev_version {
            prev.commit_of(tx, lsn);
        }
        proof {
            old(self).lemma_view();
            self.lemma_view();
            assert(self@ =~= commit_of(old(self)@, tx, lsn));
        }
    }

    /// Commits every pending version at `lsn`.
    pub fn commit_all_uncommitted(&mut self, lsn: LogSequenceNumber)
        ensures
            final(self)@ == commit_pending(old(self)@, lsn),
        decreases old(self)@.len(),
    {
        proof {
            self.lemma_view();
        }
        if self.commit_lsn.is_none() {
            self.commit_lsn = Some(lsn);
        }
        if let Some(prev) = &mut self.prev_version {
            prev.commit_all_uncommitted(lsn);
        }
        proof {
            old(self).lemma_view();
            self.lemma_view();
            assert(self@ =~= commit_pending(old(self)@, lsn));
        }
    }

    /// The newest version that the snapshot sees.
    pub fn find_visible_version(&self, snapshot: &Snapshot) -> (r: Option<&[u8]>)
        ensures
            r is Some <==> find_visible(self@, snapshot.lsn, snapshot.active_txns@) is Some,
            r matches Some(v) ==> Some(v@) == find_visible(
                self@,
                snapshot.lsn,
                snapshot.active_txns@,
            ),
        decreases self,
    {
        proof {
            self.lemma_view();
        }
        if let Some(lsn) = self.commit_lsn {
            if lsn.0 <= snapshot.lsn.0 && !snapshot.is_active(self.created_by) {
                return Some(self.value.as_slice());
            }
        }
        match &self.prev_version {
            Some(prev) => prev.find_visible_version(snapshot),
            None => None,
        }
    }

    /// The newest committed version.
    pub fn latest_committed(&self) -> (r: Option<&[u8]>)
        ensures
            r is Some <==> latest_committed(self@) is Some,
            r matches Some(v) ==> Some(v@) == latest_committed(self@),
        decreases self,
    {
        proof {
            self.lemma_view();
        }
        if self.commit_lsn.is_some() {
            return Some(self.value.as_slice());
        }
        match &self.prev_version {
            Some(prev) => prev.latest_committed(),
            None => None,
        }
    }

    /// The number of versions, if it fits the machine.
    fn count_from(chain: &Option<Box<VersionChain>>, start: usize) -> (r: usize)
        ensures
            r == (if start + Self::count_spec(*chain) <= usize::MAX {
                start + Self::count_spec(*chain)
            } else {
                usize::MAX as int
            }),
        decreases chain,
    {
        match chain {
            Some(c) => {
                proof {
                    c.lemma_view();
                }
                Self::count_from(&c.prev_version, start.saturating_add(1))
            },
            None => start,
        }
    }

    spec fn count_spec(chain: Option<Box<VersionChain>>) -> int {
        match chain {
            Some(c) => c@.len() as int,
            None => 0,
        }
    }

    /// The number of versions, as far as a machine word holds it.
    pub fn version_count(&self) -> (r: usize)
        ensures
            r as int == saturated(self@.len() as int),
    {
        proof {
            self.lemma_view();
        }
        Self::count_from(&self.prev_version, 1)
    }

    /// Drops the versions behind the newest one that was committed before `min`; that one stays
    /// as a base. Returns how many versions went.
    pub fn vacuum(&mut self, min: LogSequenceNumber) -> (removed: usize)
        ensures
            final(self)@ == vacuumed(old(self)@, min),
            removed as int == saturated(old(self)@.len() - final(self)@.len()),
        decreases old(self)@.len(),
    {
        proof {
            self.lemma_view();
        }
        let old_enough: bool = match self.commit_lsn {
            Some(l) => l.0 < min.0,
            None => false,
        };
        if old_enough {
            let removed: usize = Self::count_from(&self.prev_version, 0);
            self.prev_version = None;
            proof {
                assert(self@ =~= seq![old(self)@[0]]);
            }
            removed
        } else {
            let removed: usize = match &mut self.prev_version {
                Some(prev) => prev.vacuum(min),
                None => 0,
            };
            proof {
                self.lemma_view();
                old(self).lemma_view();
                assert(self.older() == vacuumed(old(self).older(), min));
                assert(self@ =~= vacuumed(old(self)@, min));
            }
            removed
        }
    }

    /// What the chain takes in memory on top of `base`, by estimate.
    pub fn estimated_size(&self, base: usize) -> (r: usize)
        ensures
            r as int == saturated(base + versions_size(self@)),
        decreases self,
    {
        proof {
            self.lemma_view();
            lemma_versions_size(self.older());
        }
        let size: usize = base.saturating_add(self.value.len()).saturating_add(VERSION_OVERHEAD);
        match &self.prev_version {
            Some(prev) => prev.estimated_size(size),
            None => size,
        }
    }

    /// A copy of the chain.
    pub fn copy(&self) -> (r: VersionChain)
        ensures
            r@ == self@,
        decreases self,
    {
        let prev_version: Option<Box<VersionChain>> = match &self.prev_version {
            Some(prev) => Some(Box::new(prev.copy())),
            None => None,
        };
        VersionChain {
            value: copy_bytes(self.value.as_slice()),
            created_by: self.created_by,
            commit_lsn: self.commit_lsn,
            prev_version,
        }
    }
}

/// The versions that a vacuum up to `min` takes.
pub open spec fn dropped(vs: Seq<Version>, min: LogSequenceNumber) -> Seq<Version>
    decreases vs.len(),
{
    if vs.len() == 0 {
        Seq::empty()
    } else if is_old(vs[0], min) {
        vs.drop_first()
    } else {
        dropped(vs.drop_first(), min)
    }
}

/// A vacuum takes the versions behind those that it keeps.
pub proof fn lemma_dropped(vs: Seq<Version>, min: LogSequenceNumber)
    ensures
        vacuumed(vs, min) + dropped(vs, min) == vs,
    decreases vs.len(),
{
    if vs.len() > 0 {
        if is_old(vs[0], min) {
            assert(vacuumed(vs, min) + dropped(vs, min) =~= vs);
        } else {
            let rest = vs.drop_first();
            lemma_dropped(rest, min);
            let (a, b) = (vacuumed(rest, min), dropped(rest, min));
            assert((seq![vs[0]] + a) + b =~= seq![vs[0]] + (a + b));
            assert(seq![vs[0]] + rest =~= vs);
        }
    } else {
        assert(vacuumed(vs, min) + dropped(vs, min) =~= vs);
    }
}

impl VersionChain {
    /// The values of all versions.
    pub fn all_values(&self) -> (r: Vec<Vec<u8>>)
        ensures
            r@.len() == self@.len(),
            forall|i: int| 0 <= i < r@.len() ==> (#[trigger] r@[i])@ == self@[i].value,
        decreases self,
    {
        proof {
            self.lemma_view();
        }
        let mut r: Vec<Vec<u8>> = match &self.prev_version {
            Some(prev) => prev.all_values(),
            None => Vec::new(),
        };
        let ghost older = r@;
        r.insert(0, copy_bytes(self.value.as_slice()));
        proof {
            assert forall|i: int| 0 <= i < r@.len() implies (#[trigger] r@[i])@
                == self@[i].value by {
                if i > 0 {
                    assert(r@[i] == older[i - 1]);
                    assert(self@[i] == self.older()[i - 1]);
                }
            }
        }
        r
    }

    /// The values of the versions that a vacuum up to `min` takes.
    pub fn dropped_values(&self, min: LogSequenceNumber) -> (r: Vec<Vec<u8>>)
        ensures
            r@.len() == dropped(self@, min).len(),
            forall|i: int|
                0 <= i < r@.len() ==> (#[trigger] r@[i])@ == dropped(self@, min)[i].value,
        decreases self,
    {
        proof {
            self.lemma_view();
        }
        let old_enough: bool = match self.commit_lsn {
            Some(l) => l.0 < min.0,
            None => false,
        };
        match &self.prev_version {
            Some(prev) => if old_enough {
                prev.all_values()
            } else {
                prev.dropped_values(min)
            },
            None => {
                assert(self.older() =~= Seq::empty());
                assert(dropped(self.older(), min) =~= Seq::empty());
                Vec::new()
            },
        }
    }
}

/// The number as a machine word, or the largest one where it does not fit.
pub open spec fn saturated(n: int) -> int {
    if n <= usize::MAX {
        n
    } else {
        usize::MAX as int
    }
}

} // verus!
