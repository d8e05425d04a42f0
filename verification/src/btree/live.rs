//! Values and deletions in the versions of an in-memory tree.
use crate::bytemap::ByteMap;
use crate::bytes::{append_bytes, copy_bytes};
use crate::mvcc::{chain_of, with_put, with_vacuum, Chains};
use crate::snap::Snapshot;
use crate::txn::{
    lemma_vacuum_keeps_reads, saturated, visible_at, Version, VersionChain, BUFFER_OVERHEAD,
    VERSION_OVERHEAD,
};
use crate::types::{value_view, LogSequenceNumber, TransactionId, ValueBuf};
use vstd::prelude::*;

verus! {

/// What a version holds that is a deletion.
pub open spec fn deletion_mark() -> Seq<u8> {
    seq![0xFFu8]
}

/// What a version holds for a value. One that starts as the mark does gets a byte in front, so
/// that no value is taken for a deletion.
pub open spec fn held_for(value: Seq<u8>) -> Seq<u8> {
    if value.len() > 0 && value[0] == 0xFF {
        seq![0xFFu8] + value
    } else {
        value
    }
}

/// The value that a version stands for, none where it is a deletion.
pub open spec fn value_in(held: Seq<u8>) -> Option<Seq<u8>> {
    if held.len() == 0 || held[0] != 0xFF {
        Some(held)
    } else if held.len() == 1 {
        None
    } else {
        Some(held.skip(1))
    }
}

/// A value comes out as it was put in, be it empty or look like a deletion.
pub proof fn law_held_value_comes_back(value: Seq<u8>)
    ensures
        value_in(held_for(value)) == Some(value),
        value_in(deletion_mark()) is None,
{
    if value.len() > 0 && value[0] == 0xFF {
        assert(held_for(value).skip(1) =~= value);
    }
}

/// The length of the value that a version stands for, nothing for a deletion.
pub open spec fn value_len(held: Seq<u8>) -> int {
    match value_in(held) {
        Some(v) => v.len() as int,
        None => 0,
    }
}

/// What the versions take in memory, by estimate.
pub open spec fn live_size(vs: Seq<Version>) -> int
    decreases vs.len(),
{
    if vs.len() == 0 {
        0
    } else {
        value_len(vs[0].value) + VERSION_OVERHEAD + live_size(vs.drop_first())
    }
}

proof fn lemma_live_size(vs: Seq<Version>)
    ensures
        live_size(vs) >= 0,
    decreases vs.len(),
{
    if vs.len() > 0 {
        lemma_live_size(vs.drop_first());
    }
}

/// A version takes what its value takes, nothing for a deletion, and an overhead on top.
pub proof fn law_version_takes_memory(vs: Seq<Version>, value: Seq<u8>, v: Version)
    ensures
        live_size(Seq::empty()) == 0,
        v.value == held_for(value) ==> live_size(seq![v] + vs) == value.len() + 64 + live_size(vs),
        v.value == deletion_mark() ==> live_size(seq![v] + vs) == 64 + live_size(vs),
{
    law_held_value_comes_back(value);
    assert((seq![v] + vs).drop_first() =~= vs);
}

/// What a key and its versions take in memory, by estimate; nothing where it is unknown.
pub open spec fn live_entry_size(m: Chains, key: Seq<u8>) -> int {
    if m.contains_key(key) {
        saturated(key.len() + BUFFER_OVERHEAD + live_size(m[key]))
    } else {
        0
    }
}

/// The value of a chain that a reader at `lsn` gets.
pub open spec fn seen_at(vs: Seq<Version>, lsn: LogSequenceNumber) -> Option<Seq<u8>> {
    match visible_at(vs, lsn) {
        Some(held) => value_in(held),
        None => None,
    }
}

/// The value of `key` that a reader at `lsn` gets.
pub open spec fn live_read(m: Chains, key: Seq<u8>, lsn: LogSequenceNumber) -> Option<Seq<u8>> {
    seen_at(chain_of(m, key), lsn)
}

/// The map after transaction `tx` put a value.
pub open spec fn with_value(m: Chains, key: Seq<u8>, value: Seq<u8>, tx: TransactionId) -> Chains {
    with_put(m, key, held_for(value), tx)
}

/// The map after transaction `tx` noted the deletion of a key, where it is known.
pub open spec fn with_removal(m: Chains, key: Seq<u8>, tx: TransactionId) -> Chains {
    if m.contains_key(key) {
        with_put(m, key, deletion_mark(), tx)
    } else {
        m
    }
}

/// A vacuum up to `min` changes nothing for a reader at `min` or later.
pub proof fn law_vacuum_keeps_live_reads(
    m: Chains,
    min: LogSequenceNumber,
    key: Seq<u8>,
    lsn: LogSequenceNumber,
)
    requires
        lsn.0 >= min.0,
    ensures
        live_read(with_vacuum(m, min), key, lsn) == live_read(m, key, lsn),
{
    if m.contains_key(key) {
        lemma_vacuum_keeps_reads(m[key], min, lsn, Seq::empty());
    }
}

/// What a version holds for a value.
pub fn hold(value: &[u8]) -> (r: Vec<u8>)
    ensures
        r@ == held_for(value@),
{
    let mut held: Vec<u8> = Vec::new();
    if value.len() > 0 && value[0] == 0xFF {
        held.push(0xFF);
    }
    append_bytes(&mut held, value);
    assert(held@ =~= held_for(value@));
    held
}

/// The value that a version stands for, none where it is a deletion.
pub fn unhold(held: &[u8]) -> (r: Option<&[u8]>)
    ensures
        r is Some <==> value_in(held@) is Some,
        r matches Some(v) ==> Some(v@) == value_in(held@),
{
    if held.len() == 0 || held[0] != 0xFF {
        Some(held)
    } else if held.len() == 1 {
        None
    } else {
        let value = vstd::slice::slice_subrange(held, 1, held.len());
        assert(value@ =~= held@.skip(1));
        Some(value)
    }
}

impl VersionChain {
    /// What the chain takes in memory on top of `base`, by estimate.
    pub fn live_size(&self, base: usize) -> (r: usize)
        ensures
            r as int == saturated(base + live_size(self@)),
        decreases self,
    {
        proof {
            self.lemma_view();
            lemma_live_size(self.older());
        }
        let len: usize = match unhold(self.value.as_slice()) {
            Some(v) => v.len(),
            None => 0,
        };
        let size: usize = base.saturating_add(len).saturating_add(VERSION_OVERHEAD);
        match &self.prev_version {
            Some(prev) => prev.live_size(size),
            None => size,
        }
    }
}

impl ByteMap<VersionChain> {
    /// Puts a pending deletion in front of what `key` has, if it is known.
    pub fn push_removal(&mut self, key: Vec<u8>, tx: TransactionId) -> (known: bool)
        requires
            old(self).wf(),
        ensures
            final(self).wf(),
            final(self).chains() == with_removal(old(self).chains(), key@, tx),
            known == old(self)@.contains_key(key@),
    {
        if self.contains_key(key.as_slice()) {
            let mut mark: Vec<u8> = Vec::new();
            mark.push(0xFF);
            assert(mark@ =~= deletion_mark());
            self.push_version(key, mark, tx);
            true
        } else {
            false
        }
    }

    /// The value of `key` that a reader at `lsn` gets, none where it sees a deletion.
    pub fn live_read(&self, key: &[u8], lsn: LogSequenceNumber) -> (r: Option<ValueBuf>)
        requires
            self.wf(),
        ensures
            value_view(r) == live_read(self.chains(), key@, lsn),
    {
        let snapshot = Snapshot::at(lsn);
        match self.get(key) {
            Some(chain) => match chain.find_visible_version(&snapshot) {
                Some(held) => match unhold(held) {
                    Some(v) => Some(ValueBuf(copy_bytes(v))),
                    None => None,
                },
                None => None,
            },
            None => None,
        }
    }

    /// What `key` and its versions take in memory, by estimate; nothing where it is unknown.
    pub fn live_entry_size(&self, key: &[u8]) -> (r: usize)
        requires
            self.wf(),
        ensures
            r as int == live_entry_size(self.chains(), key@),
    {
        match self.get(key) {
            Some(chain) => {
                proof {
                    lemma_live_size(chain@);
                }
                chain.live_size(key.len().saturating_add(BUFFER_OVERHEAD))
            },
            None => 0,
        }
    }
}

} // verus!
