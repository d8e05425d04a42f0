//! Identifiers, buffers and scan bounds shared by every table engine.
use crate::bytes::{compare_bytes, has_prefix, lex_le, lex_lt, starts_with, ByteOrder};
use vstd::prelude::*;
use vstd::std_specs::convert::FromSpecImpl;

verus! {

/// Identifies a table.
#[derive(Clone, Copy, Debug, PartialEq, Eq, Hash, Structural)]
pub struct TableId(pub u64);

impl From<u64> for TableId {
    fn from(value: u64) -> (r: Self) {
        TableId(value)
    }
}

impl FromSpecImpl<u64> for TableId {
    open spec fn obeys_from_spec() -> bool {
        true
    }

    open spec fn from_spec(value: u64) -> Self {
        TableId(value)
    }
}

/// Identifies a transaction.
#[derive(Clone, Copy, Debug, PartialEq, Eq, Hash, Structural)]
pub struct TransactionId(pub u64);

impl From<u64> for TransactionId {
    fn from(value: u64) -> (r: Self) {
        TransactionId(value)
    }
}

impl FromSpecImpl<u64> for TransactionId {
    open spec fn obeys_from_spec() -> bool {
        true
    }

    open spec fn from_spec(value: u64) -> Self {
        TransactionId(value)
    }
}

impl TransactionId {
    /// The number of the transaction.
    pub fn as_u64(&self) -> (r: u64)
        ensures
            r == self.0,
    {
        self.0
    }
}

/// A position in the write-ahead log.
#[derive(Clone, Copy, Debug, PartialEq, Eq, Hash, Structural)]
pub struct LogSequenceNumber(pub u64);

impl From<u64> for LogSequenceNumber {
    fn from(value: u64) -> (r: Self) {
        LogSequenceNumber(value)
    }
}

impl FromSpecImpl<u64> for LogSequenceNumber {
    open spec fn obeys_from_spec() -> bool {
        true
    }

    open spec fn from_spec(value: u64) -> Self {
        LogSequenceNumber(value)
    }
}

impl LogSequenceNumber {
    /// The number of the position.
    pub fn as_u64(&self) -> (r: u64)
        ensures
            r == self.0,
    {
        self.0
    }
}

/// An owned key.
#[derive(Clone, Debug, PartialEq, Eq)]
pub struct KeyBuf(pub Vec<u8>);

impl View for KeyBuf {
    type V = Seq<u8>;

    open spec fn view(&self) -> Seq<u8> {
        self.0@
    }
}

/// An owned value.
#[derive(Clone, Debug, PartialEq, Eq)]
pub struct ValueBuf(pub Vec<u8>);

impl View for ValueBuf {
    type V = Seq<u8>;

    open spec fn view(&self) -> Seq<u8> {
        self.0@
    }
}

/// The bytes of an optional value.
pub open spec fn value_view(v: Option<ValueBuf>) -> Option<Seq<u8>> {
    match v {
        Some(b) => Some(b@),
        None => None,
    }
}

/// One end of a range of keys.
#[derive(Clone, Debug, PartialEq, Eq)]
pub enum Bound {
    Included(KeyBuf),
    Excluded(KeyBuf),
    Unbounded,
}

/// The keys that a scan covers.
#[derive(Clone, Debug, PartialEq, Eq)]
pub enum ScanBounds {
    All,
    Prefix(KeyBuf),
    Range { start: Bound, end: Bound },
}

impl Bound {
    /// `key` is not before this bound taken as a start.
    pub open spec fn admits_from(&self, key: Seq<u8>) -> bool {
        match self {
            Bound::Included(k) => lex_le(k@, key),
            Bound::Excluded(k) => lex_lt(k@, key),
            Bound::Unbounded => true,
        }
    }

    /// `key` is not past this bound taken as an end.
    pub open spec fn admits_to(&self, key: Seq<u8>) -> bool {
        match self {
            Bound::Included(k) => lex_le(key, k@),
            Bound::Excluded(k) => lex_lt(key, k@),
            Bound::Unbounded => true,
        }
    }

    /// Whether `key` is not before this bound taken as a start.
    pub fn allows_from(&self, key: &[u8]) -> (r: bool)
        ensures
            r == self.admits_from(key@),
    {
        match self {
            Bound::Included(k) => match compare_bytes(key, k.0.as_slice()) {
                ByteOrder::Less => {
                    proof {
                        crate::bytes::lemma_lex_asymmetric(key@, k@);
                    }
                    false
                },
                _ => true,
            },
            Bound::Excluded(k) => match compare_bytes(key, k.0.as_slice()) {
                ByteOrder::Greater => true,
                _ => false,
            },
            Bound::Unbounded => true,
        }
    }

    /// Whether `key` is not past this bound taken as an end.
    pub fn allows_to(&self, key: &[u8]) -> (r: bool)
        ensures
            r == self.admits_to(key@),
    {
        match self {
            Bound::Included(k) => match compare_bytes(key, k.0.as_slice()) {
                ByteOrder::Greater => {
                    proof {
                        crate::bytes::lemma_lex_asymmetric(k@, key@);
                    }
                    false
                },
                _ => true,
            },
            Bound::Excluded(k) => match compare_bytes(key, k.0.as_slice()) {
                ByteOrder::Less => true,
                _ => false,
            },
            Bound::Unbounded => true,
        }
    }
}

/// A bound admits from one side what it does not shut out from the other.
proof fn lemma_sides(bound: Bound, key: Seq<u8>)
    ensures
        bound matches Bound::Included(k) ==> (lex_le(k@, key) <==> !lex_lt(key, k@)) && (lex_le(
            key,
            k@,
        ) <==> !lex_lt(k@, key)),
        bound matches Bound::Excluded(k) ==> (lex_lt(k@, key) <==> !(lex_lt(key, k@) || key
            == k@)) && (lex_lt(key, k@) <==> !(lex_lt(k@, key) || key == k@)),
{
    match bound {
        Bound::Included(k) | Bound::Excluded(k) => {
            crate::bytes::lemma_lex_total(k@, key);
            crate::bytes::lemma_lex_irreflexive(key);
            if lex_lt(k@, key) {
                crate::bytes::lemma_lex_asymmetric(k@, key);
            }
        },
        Bound::Unbounded => {},
    }
}

impl ScanBounds {
    /// Without bounds every key is admitted.
    pub proof fn law_all_admits_everything(key: Seq<u8>)
        ensures
            ScanBounds::All.admits(key),
    {
    }

    /// A prefix admits the keys that it begins, and no other.
    pub proof fn law_prefix_admits_what_it_begins(prefix: KeyBuf, key: Seq<u8>)
        ensures
            ScanBounds::Prefix(prefix).admits(key) <==> prefix@.len() <= key.len() && key.take(
                prefix@.len() as int,
            ) == prefix@,
            forall|rest: Seq<u8>| ScanBounds::Prefix(prefix).admits(#[trigger] (prefix@ + rest)),
    {
        if prefix@.len() <= key.len() {
            assert(key.take(prefix@.len() as int) =~= key.subrange(0, prefix@.len() as int));
        }
        assert forall|rest: Seq<u8>| ScanBounds::Prefix(prefix).admits(
            #[trigger] (prefix@ + rest),
        ) by {
            let whole = prefix@ + rest;
            assert(whole.subrange(0, prefix@.len() as int) =~= prefix@);
        }
    }

    /// A range leaves out what comes before its start and what comes past its end, and nothing
    /// else; the key of a bound itself is left out where the bound is exclusive.
    pub proof fn law_range_admits_what_lies_between(start: Bound, end: Bound, key: Seq<u8>)
        ensures
            (ScanBounds::Range { start, end }).admits(key) <==> !(match start {
                Bound::Included(k) => lex_lt(key, k@),
                Bound::Excluded(k) => lex_lt(key, k@) || key == k@,
                Bound::Unbounded => false,
            }) && !(match end {
                Bound::Included(k) => lex_lt(k@, key),
                Bound::Excluded(k) => lex_lt(k@, key) || key == k@,
                Bound::Unbounded => false,
            }),
    {
        lemma_sides(start, key);
        lemma_sides(end, key);
    }

    /// `key` lies within the bounds.
    pub open spec fn admits(&self, key: Seq<u8>) -> bool {
        match self {
            ScanBounds::All => true,
            ScanBounds::Prefix(p) => has_prefix(key, p@),
            ScanBounds::Range { start, end } => start.admits_from(key) && end.admits_to(key),
        }
    }

    /// Whether `key` lies within the bounds.
    pub fn contains(&self, key: &[u8]) -> (r: bool)
        ensures
            r == self.admits(key@),
    {
        match self {
            ScanBounds::All => true,
            ScanBounds::Prefix(p) => starts_with(key, p.0.as_slice()),
            ScanBounds::Range { start, end } => start.allows_from(key) && end.allows_to(key),
        }
    }
}

} // verus!
