//! Multi-version maps: what reads, writes, commits and vacuums do to the versions of all keys.
use crate::txn::{
    adjusted_usage, commit_of, find_visible, has_none_pending, lemma_vacuum_idempotent,
    lemma_vacuum_keeps_reads, pending, saturated, vacuumed, versions_size, visible_at,
    Version, BUFFER_OVERHEAD,
};
use crate::types::{LogSequenceNumber, TransactionId};
use vstd::prelude::*;

verus! {

/// The versions of each key, newest first.
pub type Chains = Map<Seq<u8>, Seq<Version>>;

/// A change that waits to be flushed: a value to put, or a deletion.
pub type Change = (Seq<u8>, Option<Seq<u8>>);

/// The value of `key` that a snapshot sees, tombstones included.
pub open spec fn snapshot_read(
    m: Chains,
    key: Seq<u8>,
    lsn: LogSequenceNumber,
    active: Seq<TransactionId>,
) -> Option<Seq<u8>> {
    if m.contains_key(key) {
        find_visible(m[key], lsn, active)
    } else {
        None
    }
}

/// What a key and its versions take in memory, by estimate; nothing where it is unknown.
pub open spec fn entry_size(m: Chains, key: Seq<u8>) -> int {
    if m.contains_key(key) {
        saturated(key.len() + BUFFER_OVERHEAD + versions_size(m[key]))
    } else {
        0
    }
}

/// A put takes what its value takes and the overhead of a version, and for a new key what the key
/// takes and the overhead of a buffer.
pub proof fn law_put_takes_memory(m: Chains, key: Seq<u8>, value: Seq<u8>, tx: TransactionId)
    requires
        key.len() + value.len() + versions_size(chain_of(m, key)) + 88 <= usize::MAX,
    ensures
        entry_size(with_put(m, key, value, tx), key) == entry_size(m, key) + value.len() + 64 + (
        if m.contains_key(key) {
            0
        } else {
            key.len() + 24
        }),
{
    let vs = with_put(m, key, value, tx)[key];
    crate::txn::lemma_versions_size(chain_of(m, key));
    assert(vs[0] == pending(value, tx));
    assert(vs.drop_first() =~= chain_of(m, key));
}

/// The memory in use after one change.
pub open spec fn usage_after_change(m: Chains, usage: int, c: Change, tx: TransactionId) -> int {
    adjusted_usage(usage, entry_size(m, c.0), entry_size(with_change(m, c, tx), c.0))
}

/// The memory in use after the changes of transaction `tx`, in order.
pub open spec fn usage_after(m: Chains, usage: int, cs: Seq<Change>, tx: TransactionId) -> int
    decreases cs.len(),
{
    if cs.len() == 0 {
        usage
    } else {
        usage_after_change(
            with_changes(m, cs.drop_last(), tx),
            usage_after(m, usage, cs.drop_last(), tx),
            cs.last(),
            tx,
        )
    }
}

/// The value of `key` that a reader at `lsn` sees, tombstones included.
pub open spec fn raw_read(m: Chains, key: Seq<u8>, lsn: LogSequenceNumber) -> Option<Seq<u8>> {
    if m.contains_key(key) {
        visible_at(m[key], lsn)
    } else {
        None
    }
}

/// A value as a reader gets it: an empty one marks a deletion.
pub open spec fn unless_tombstone(v: Option<Seq<u8>>) -> Option<Seq<u8>> {
    match v {
        Some(b) => if b.len() == 0 {
            None
        } else {
            Some(b)
        },
        None => None,
    }
}

/// The value of `key` that a reader at `lsn` gets.
pub open spec fn read(m: Chains, key: Seq<u8>, lsn: LogSequenceNumber) -> Option<Seq<u8>> {
    unless_tombstone(raw_read(m, key, lsn))
}

/// The versions of `key`, none where it was never written.
pub open spec fn chain_of(m: Chains, key: Seq<u8>) -> Seq<Version> {
    if m.contains_key(key) {
        m[key]
    } else {
        Seq::empty()
    }
}

/// The map after transaction `tx` put a value.
pub open spec fn with_put(m: Chains, key: Seq<u8>, value: Seq<u8>, tx: TransactionId) -> Chains {
    m.insert(key, seq![pending(value, tx)] + chain_of(m, key))
}

/// The map after transaction `tx` deleted a key: a tombstone where the key is known.
pub open spec fn with_delete(m: Chains, key: Seq<u8>, tx: TransactionId) -> Chains {
    if m.contains_key(key) {
        m.insert(key, seq![pending(Seq::empty(), tx)] + m[key])
    } else {
        m
    }
}

/// The map after one change of transaction `tx`.
pub open spec fn with_change(m: Chains, c: Change, tx: TransactionId) -> Chains {
    match c.1 {
        Some(value) => with_put(m, c.0, value, tx),
        None => with_delete(m, c.0, tx),
    }
}

/// The map after the changes of transaction `tx`, in order.
pub open spec fn with_changes(m: Chains, cs: Seq<Change>, tx: TransactionId) -> Chains
    decreases cs.len(),
{
    if cs.len() == 0 {
        m
    } else {
        with_change(with_changes(m, cs.drop_last(), tx), cs.last(), tx)
    }
}

/// The map after every version that `tx` left pending was committed at `lsn`.
pub open spec fn with_commit(m: Chains, tx: TransactionId, lsn: LogSequenceNumber) -> Chains {
    m.map_values(|vs: Seq<Version>| commit_of(vs, tx, lsn))
}

/// The map after every chain was vacuumed up to `min`.
pub open spec fn with_vacuum(m: Chains, min: LogSequenceNumber) -> Chains {
    m.map_values(|vs: Seq<Version>| vacuumed(vs, min))
}

/// The places of all versions: a key, and a position in its chain.
pub open spec fn places(m: Chains) -> Set<(Seq<u8>, int)> {
    Set::new(|p: (Seq<u8>, int)| m.contains_key(p.0) && 0 <= p.1 < m[p.0].len())
}

/// The number of versions of all keys together.
pub open spec fn version_total(m: Chains) -> int {
    places(m).len() as int
}

/// The places in a chain of `n` versions.
pub open spec fn places_of(key: Seq<u8>, n: int) -> Set<(Seq<u8>, int)> {
    Set::new(|p: (Seq<u8>, int)| p.0 == key && 0 <= p.1 < n)
}

/// A chain has as many places as versions.
pub proof fn lemma_places_of(key: Seq<u8>, n: int)
    requires
        n >= 0,
    ensures
        places_of(key, n).finite(),
        places_of(key, n).len() == n,
    decreases n,
{
    if n == 0 {
        assert(places_of(key, n) =~= Set::empty());
    } else {
        lemma_places_of(key, n - 1);
        assert(places_of(key, n) =~= places_of(key, n - 1).insert((key, n - 1)));
    }
}

/// The changes that a list of pending changes stands for.
pub open spec fn changes_of(v: Seq<(Vec<u8>, Option<Vec<u8>>)>) -> Seq<Change> {
    Seq::new(
        v.len(),
        |i: int|
            (
                v[i].0@,
                match v[i].1 {
                    Some(b) => Some(b@),
                    None => None,
                },
            ),
    )
}

/// No key has an empty chain.
pub open spec fn chains_wf(m: Chains) -> bool {
    forall|k: Seq<u8>| #[trigger] m.contains_key(k) ==> m[k].len() > 0
}

/// A committed put is what every later reader of that key gets, and earlier readers of it, and
/// all readers of other keys, get what they got before.
pub proof fn law_committed_put_is_read(
    m: Chains,
    key: Seq<u8>,
    value: Seq<u8>,
    tx: TransactionId,
    at: LogSequenceNumber,
    other: Seq<u8>,
    lsn: LogSequenceNumber,
)
    requires
        value.len() > 0,
        m.contains_key(other) && other != key ==> has_none_pending(m[other], tx),
    ensures
        read(with_commit(with_put(m, key, value, tx), tx, at), other, lsn) == (if other == key
            && at.0 <= lsn.0 {
            Some(value)
        } else {
            read(m, other, lsn)
        }),
{
    let after = with_commit(with_put(m, key, value, tx), tx, at);
    if other == key {
        crate::txn::lemma_committed_is_visible(chain_of(m, key), value, tx, at, lsn);
        assert(after[key] == commit_of(seq![pending(value, tx)] + chain_of(m, key), tx, at));
    } else {
        if m.contains_key(other) {
            assert(commit_of(m[other], tx, at) =~= m[other]);
            assert(after[other] == m[other]);
        }
    }
}

/// A committed deletion hides the key from every later reader and from no earlier one.
pub proof fn law_committed_delete_is_read(
    m: Chains,
    key: Seq<u8>,
    tx: TransactionId,
    at: LogSequenceNumber,
    lsn: LogSequenceNumber,
)
    requires
        m.contains_key(key),
    ensures
        read(with_commit(with_delete(m, key, tx), tx, at), key, lsn) == (if at.0 <= lsn.0 {
            None
        } else {
            read(m, key, lsn)
        }),
{
    let after = with_commit(with_delete(m, key, tx), tx, at);
    crate::txn::lemma_committed_is_visible(m[key], Seq::empty(), tx, at, lsn);
    assert(after[key] == commit_of(seq![pending(Seq::empty(), tx)] + m[key], tx, at));
}

/// Flushed changes stay invisible until they are committed.
pub proof fn law_flushed_changes_are_invisible(
    m: Chains,
    cs: Seq<Change>,
    tx: TransactionId,
    key: Seq<u8>,
    lsn: LogSequenceNumber,
)
    ensures
        raw_read(with_changes(m, cs, tx), key, lsn) == raw_read(m, key, lsn),
    decreases cs.len(),
{
    if cs.len() > 0 {
        law_flushed_changes_are_invisible(m, cs.drop_last(), tx, key, lsn);
        let before = with_changes(m, cs.drop_last(), tx);
        let value = match cs.last().1 {
            Some(v) => v,
            None => Seq::empty(),
        };
        crate::txn::lemma_pending_is_invisible(chain_of(before, key), value, tx, lsn, Seq::empty());
    }
}

/// The newest version of a key after a flush is the last change made to it.
pub proof fn law_last_change_wins(m: Chains, cs: Seq<Change>, tx: TransactionId, i: int)
    requires
        0 <= i < cs.len(),
        cs[i].1 is Some,
        forall|j: int| i < j < cs.len() ==> (#[trigger] cs[j]).0 != cs[i].0,
    ensures
        with_changes(m, cs, tx).contains_key(cs[i].0),
        with_changes(m, cs, tx)[cs[i].0].len() > 0,
        with_changes(m, cs, tx)[cs[i].0][0] == pending(cs[i].1->Some_0, tx),
    decreases cs.len(),
{
    let key = cs[i].0;
    if i < cs.len() - 1 {
        assert(cs[cs.len() - 1].0 != key);
        law_last_change_wins(m, cs.drop_last(), tx, i);
    }
}

/// Flushing a batch whose last change to a key is a put, and committing it, makes the value what
/// every reader at or after the commit gets.
pub proof fn law_flush_and_commit_is_read(
    m: Chains,
    cs: Seq<Change>,
    tx: TransactionId,
    i: int,
    at: LogSequenceNumber,
    lsn: LogSequenceNumber,
)
    requires
        0 <= i < cs.len(),
        cs[i].1 is Some,
        cs[i].1->Some_0.len() > 0,
        forall|j: int| i < j < cs.len() ==> (#[trigger] cs[j]).0 != cs[i].0,
        at.0 <= lsn.0,
    ensures
        read(with_commit(with_changes(m, cs, tx), tx, at), cs[i].0, lsn) == cs[i].1,
{
    law_last_change_wins(m, cs, tx, i);
    let key = cs[i].0;
    let after = with_commit(with_changes(m, cs, tx), tx, at);
    assert(after[key][0] == crate::txn::committed(pending(cs[i].1->Some_0, tx), at));
}

/// Vacuuming up to `min` changes what no reader at `min` or later gets.
pub proof fn law_vacuum_keeps_reads(
    m: Chains,
    min: LogSequenceNumber,
    key: Seq<u8>,
    lsn: LogSequenceNumber,
)
    requires
        lsn.0 >= min.0,
    ensures
        raw_read(with_vacuum(m, min), key, lsn) == raw_read(m, key, lsn),
        read(with_vacuum(m, min), key, lsn) == read(m, key, lsn),
{
    if m.contains_key(key) {
        lemma_vacuum_keeps_reads(m[key], min, lsn, Seq::empty());
    }
}

/// A second vacuum up to the same point finds nothing to take.
pub proof fn law_second_vacuum_removes_nothing(m: Chains, min: LogSequenceNumber)
    ensures
        with_vacuum(with_vacuum(m, min), min) == with_vacuum(m, min),
        version_total(with_vacuum(m, min)) - version_total(with_vacuum(with_vacuum(m, min), min))
            == 0,
{
    let once = with_vacuum(m, min);
    assert forall|k: Seq<u8>| once.contains_key(k) implies #[trigger] with_vacuum(once, min)[k]
        == once[k] by {
        lemma_vacuum_idempotent(m[k], min);
    }
    assert(with_vacuum(once, min) =~= once);
}

/// No key disappears in a vacuum.
pub proof fn law_vacuum_keeps_keys(m: Chains, min: LogSequenceNumber)
    ensures
        with_vacuum(m, min).dom() == m.dom(),
{
    assert(with_vacuum(m, min).dom() =~= m.dom());
}

/// Every change keeps at least one version of each known key.
pub proof fn lemma_changes_keep_wf(m: Chains, cs: Seq<Change>, tx: TransactionId)
    requires
        chains_wf(m),
    ensures
        chains_wf(with_changes(m, cs, tx)),
    decreases cs.len(),
{
    if cs.len() > 0 {
        lemma_changes_keep_wf(m, cs.drop_last(), tx);
    }
}

} // verus!
