//! The wire format of stored records, as the `postcard` crate writes it.
use crate::bytes::append_bytes;
use crate::txn::{Version, VersionChain};
use crate::types::{LogSequenceNumber, TransactionId};
use vstd::prelude::*;

verus! {

/// A number as `postcard` writes it: seven bits to a byte, the lowest first, and the high bit set
/// in every byte but the last.
pub open spec fn varint(n: nat) -> Seq<u8>
    decreases n,
{
    if n < 128 {
        seq![n as u8]
    } else {
        seq![(128 + n % 128) as u8] + varint(n / 128)
    }
}

/// A byte string as `postcard` writes it: its length and its bytes.
pub open spec fn counted_bytes(data: Seq<u8>) -> Seq<u8> {
    varint(data.len()) + data
}

/// A number that may be missing: a zero, or a one and the number.
pub open spec fn maybe_number(n: Option<u64>) -> Seq<u8> {
    match n {
        Some(v) => seq![1u8] + varint(v as nat),
        None => seq![0u8],
    }
}

/// The number at the front of a byte string, in no more than `places` bytes, and what follows.
pub open spec fn take_varint(bytes: Seq<u8>, places: nat) -> Option<(nat, Seq<u8>)>
    decreases places,
{
    if places == 0 || bytes.len() == 0 {
        None
    } else if bytes[0] < 128 {
        Some((bytes[0] as nat, bytes.skip(1)))
    } else {
        match take_varint(bytes.skip(1), (places - 1) as nat) {
            Some((n, rest)) => Some(((bytes[0] - 128 + 128 * n) as nat, rest)),
            None => None,
        }
    }
}

/// The number of up to 64 bits at the front of a byte string, and what follows.
pub open spec fn take_number(bytes: Seq<u8>) -> Option<(u64, Seq<u8>)> {
    match take_varint(bytes, 10) {
        Some((n, rest)) => if n <= u64::MAX {
            Some((n as u64, rest))
        } else {
            None
        },
        None => None,
    }
}

/// How many bytes a length may take: as many as the bits of a `usize` need.
pub open spec fn length_places() -> nat {
    ((usize::BITS + 6) / 7) as nat
}

/// The byte string behind its length at the front of another, and what follows.
pub open spec fn take_counted(bytes: Seq<u8>) -> Option<(Seq<u8>, Seq<u8>)> {
    match take_varint(bytes, length_places()) {
        Some((n, rest)) => if n <= usize::MAX && n <= rest.len() {
            Some((rest.take(n as int), rest.skip(n as int)))
        } else {
            None
        },
        None => None,
    }
}

/// The number that may be missing at the front of a byte string, and what follows.
pub open spec fn take_maybe(bytes: Seq<u8>) -> Option<(Option<u64>, Seq<u8>)> {
    if bytes.len() == 0 || bytes[0] > 1 {
        None
    } else if bytes[0] == 0 {
        Some((None, bytes.skip(1)))
    } else {
        match take_number(bytes.skip(1)) {
            Some((n, rest)) => Some((Some(n), rest)),
            None => None,
        }
    }
}

/// What numbers below it take no more than so many bytes.
spec fn varint_limit(places: nat) -> nat
    decreases places,
{
    if places == 0 {
        1
    } else {
        128 * varint_limit((places - 1) as nat)
    }
}

proof fn lemma_limits()
    ensures
        u64::MAX < varint_limit(10),
        usize::MAX < varint_limit(length_places()),
{
    reveal_with_fuel(varint_limit, 11);
    assert(usize::BITS == 32 || usize::BITS == 64);
}

proof fn lemma_varint(n: nat, places: nat, rest: Seq<u8>)
    requires
        n < varint_limit(places),
    ensures
        varint(n).len() >= 1,
        places > 0 ==> take_varint(varint(n) + rest, places) == Some((n, rest)),
    decreases n,
{
    let bytes = varint(n) + rest;
    if n < 128 {
        assert(bytes.skip(1) =~= rest);
    } else {
        let m = n / 128;
        assert(varint_limit(places) == 128 * varint_limit((places - 1) as nat));
        lemma_varint(m, (places - 1) as nat, rest);
        assert(bytes.skip(1) =~= varint(m) + rest);
        assert(n == 128 * m + n % 128);
        assert(places > 1);
    }
}

proof fn lemma_number(n: u64, rest: Seq<u8>)
    ensures
        take_number(varint(n as nat) + rest) == Some((n, rest)),
{
    lemma_limits();
    lemma_varint(n as nat, 10, rest);
}

proof fn lemma_counted(data: Seq<u8>, rest: Seq<u8>)
    requires
        data.len() <= usize::MAX,
    ensures
        take_counted(counted_bytes(data) + rest) == Some((data, rest)),
{
    lemma_limits();
    lemma_varint(data.len(), length_places(), data + rest);
    assert(counted_bytes(data) + rest =~= varint(data.len()) + (data + rest));
    assert((data + rest).take(data.len() as int) =~= data);
    assert((data + rest).skip(data.len() as int) =~= rest);
}

proof fn lemma_maybe(n: Option<u64>, rest: Seq<u8>)
    ensures
        take_maybe(maybe_number(n) + rest) == Some((n, rest)),
{
    let bytes = maybe_number(n) + rest;
    match n {
        Some(v) => {
            lemma_number(v, rest);
            assert(bytes.skip(1) =~= varint(v as nat) + rest);
        },
        None => {
            assert(bytes.skip(1) =~= rest);
        },
    }
}

/// A version's value, creator and commit position as `postcard` writes them.
#[verifier::opaque]
pub open spec fn version_record(value: Seq<u8>, created_by: u64, commit_lsn: Option<u64>) -> Seq<u8> {
    counted_bytes(value) + varint(created_by as nat) + maybe_number(commit_lsn)
}

/// A version's value, creator and commit position at the front of a byte string, and the bytes
/// that follow.
#[verifier::opaque]
pub open spec fn version_record_at(bytes: Seq<u8>) -> Option<
    (Seq<u8>, u64, Option<u64>, Seq<u8>),
> {
    match take_counted(bytes) {
        Some((value, b1)) => match take_number(b1) {
            Some((created_by, b2)) => match take_maybe(b2) {
                Some((commit_lsn, rest)) => Some((value, created_by, commit_lsn, rest)),
                None => None,
            },
            None => None,
        },
        None => None,
    }
}

/// What is written of a version is read back, whatever follows.
pub proof fn law_version_record_is_read_back(
    value: Seq<u8>,
    created_by: u64,
    commit_lsn: Option<u64>,
    rest: Seq<u8>,
)
    requires
        value.len() <= usize::MAX,
    ensures
        version_record_at(version_record(value, created_by, commit_lsn) + rest) == Some(
            (value, created_by, commit_lsn, rest),
        ),
{
    reveal(version_record);
    reveal(version_record_at);
    let b2 = maybe_number(commit_lsn) + rest;
    let b1 = varint(created_by as nat) + b2;
    lemma_counted(value, b1);
    lemma_number(created_by, b2);
    lemma_maybe(commit_lsn, rest);
    assert(version_record(value, created_by, commit_lsn) + rest =~= counted_bytes(value) + b1);
}

proof fn lemma_taken_len(bytes: Seq<u8>, places: nat)
    ensures
        take_varint(bytes, places) matches Some((n, rest)) ==> rest.len() < bytes.len(),
    decreases places,
{
    if places > 0 && bytes.len() > 0 {
        lemma_taken_len(bytes.skip(1), (places - 1) as nat);
    }
}

proof fn lemma_version_len(bytes: Seq<u8>)
    ensures
        version_record_at(bytes) matches Some((value, tx, lsn, rest)) ==> rest.len() < bytes.len(),
{
    reveal(version_record_at);
    lemma_taken_len(bytes, length_places());
    if let Some((value, b1)) = take_counted(bytes) {
        lemma_taken_len(b1, 10);
        if let Some((created_by, b2)) = take_number(b1) {
            if b2.len() > 0 {
                lemma_taken_len(b2.skip(1), 10);
            }
        }
    }
}

/// Calls `postcard::to_allocvec` on a tuple of a byte string, a number and a number that may be
/// missing: the length of the byte string as a variable-length number, its bytes, and the two
/// numbers, the second behind a byte that tells whether it is there.
#[verifier::external_body]
fn encode_version(value: &[u8], created_by: u64, commit_lsn: Option<u64>) -> (r: Vec<u8>)
    ensures
        r@ == version_record(value@, created_by, commit_lsn),
{
    postcard::to_allocvec(&(value, created_by, commit_lsn)).unwrap()
}

/// Writes a version's value, creator and commit position.
pub(crate) fn write_version(value: &[u8], created_by: u64, commit_lsn: Option<u64>) -> (r: Vec<u8>)
    ensures
        r@ == version_record(value@, created_by, commit_lsn),
        forall|rest: Seq<u8>| #[trigger]
            version_record_at(r@ + rest) == Some((value@, created_by, commit_lsn, rest)),
{
    let _len: usize = value.len();
    let r = encode_version(value, created_by, commit_lsn);
    proof {
        assert forall|rest: Seq<u8>| #[trigger] version_record_at(r@ + rest) == Some(
            (value@, created_by, commit_lsn, rest),
        ) by {
            law_version_record_is_read_back(value@, created_by, commit_lsn, rest);
        }
    }
    r
}

/// Calls `postcard::take_from_bytes` for a tuple of a byte string, a number and a number that may
/// be missing, and returns the bytes behind them. Numbers may be written with more bytes than they
/// need, but with no more than their largest takes; a byte other than zero and one where a number
/// may be missing, a number that is too large, and an early end of the input are refused.
#[verifier::external_body]
pub(crate) fn take_version(bytes: &[u8]) -> (r: Option<(Vec<u8>, u64, Option<u64>, &[u8])>)
    ensures
        match r {
            Some(t) => version_record_at(bytes@) == Some((t.0@, t.1, t.2, t.3@)),
            None => version_record_at(bytes@) is None,
        },
{
    match postcard::take_from_bytes::<(Vec<u8>, u64, Option<u64>)>(bytes) {
        Ok((t, rest)) => Some((t.0, t.1, t.2, rest)),
        Err(_) => None,
    }
}

/// A byte string and a size as `postcard` writes them.
#[verifier::opaque]
pub open spec fn blob_record(data: Seq<u8>, size: u64) -> Seq<u8> {
    counted_bytes(data) + varint(size as nat)
}

/// The byte string and the size at the front of a record.
#[verifier::opaque]
pub open spec fn blob_record_of(bytes: Seq<u8>) -> Option<(Seq<u8>, u64)> {
    match take_counted(bytes) {
        Some((data, b1)) => match take_number(b1) {
            Some((size, _)) => Some((data, size)),
            None => None,
        },
        None => None,
    }
}

/// What is written of a byte string and a size is read back.
pub proof fn law_blob_record_is_read_back(data: Seq<u8>, size: u64)
    requires
        data.len() <= usize::MAX,
    ensures
        blob_record_of(blob_record(data, size)) == Some((data, size)),
{
    reveal(blob_record);
    reveal(blob_record_of);
    let last = varint(size as nat);
    lemma_counted(data, last);
    lemma_number(size, Seq::empty());
    assert(last + Seq::<u8>::empty() =~= last);
}

/// Calls `postcard::to_allocvec` on a tuple of a byte string and a number: the length of the byte
/// string as a variable-length number, its bytes, and the number.
#[verifier::external_body]
fn encode_blob_record(data: &[u8], size: u64) -> (r: Vec<u8>)
    ensures
        r@ == blob_record(data@, size),
{
    postcard::to_allocvec(&(data, size)).unwrap()
}

/// Writes a byte string and a size.
pub(crate) fn write_blob_record(data: &[u8], size: u64) -> (r: Vec<u8>)
    ensures
        r@ == blob_record(data@, size),
        blob_record_of(r@) == Some((data@, size)),
{
    let _len: usize = data.len();
    proof {
        law_blob_record_is_read_back(data@, size);
    }
    encode_blob_record(data, size)
}

/// Calls `postcard::from_bytes` for a tuple of a byte string and a number. It reads as
/// `take_from_bytes` does, and what follows is passed over.
#[verifier::external_body]
pub(crate) fn read_blob_record(bytes: &[u8]) -> (r: Option<(Vec<u8>, u64)>)
    ensures
        match r {
            Some(t) => blob_record_of(bytes@) == Some((t.0@, t.1)),
            None => blob_record_of(bytes@) is None,
        },
{
    postcard::from_bytes::<(Vec<u8>, u64)>(bytes).ok()
}

/// A page number, a size and a number of pages as `postcard` writes them.
#[verifier::opaque]
pub open spec fn page_record(first_page: u64, size: u64, page_count: u64) -> Seq<u8> {
    varint(first_page as nat) + varint(size as nat) + varint(page_count as nat)
}

/// The page number, the size and the number of pages at the front of a record.
#[verifier::opaque]
pub open spec fn page_record_of(bytes: Seq<u8>) -> Option<(u64, u64, u64)> {
    match take_number(bytes) {
        Some((first_page, b1)) => match take_number(b1) {
            Some((size, b2)) => match take_number(b2) {
                Some((page_count, _)) => Some((first_page, size, page_count)),
                None => None,
            },
            None => None,
        },
        None => None,
    }
}

/// What is written of a blob in pages is read back.
pub proof fn law_page_record_is_read_back(first_page: u64, size: u64, page_count: u64)
    ensures
        page_record_of(page_record(first_page, size, page_count)) == Some(
            (first_page, size, page_count),
        ),
{
    reveal(page_record);
    reveal(page_record_of);
    let b2 = varint(page_count as nat);
    let b1 = varint(size as nat) + b2;
    lemma_number(first_page, b1);
    lemma_number(size, b2);
    lemma_number(page_count, Seq::empty());
    assert(b2 + Seq::<u8>::empty() =~= b2);
    assert(page_record(first_page, size, page_count) =~= varint(first_page as nat) + b1);
}

/// Calls `postcard::to_allocvec` on a tuple of three numbers: each as a variable-length number.
#[verifier::external_body]
fn encode_page_record(first_page: u64, size: u64, page_count: u64) -> (r: Vec<u8>)
    ensures
        r@ == page_record(first_page, size, page_count),
{
    postcard::to_allocvec(&(first_page, size, page_count)).unwrap()
}

/// Writes a page number, a size and a number of pages.
pub(crate) fn write_page_record(first_page: u64, size: u64, page_count: u64) -> (r: Vec<u8>)
    ensures
        r@ == page_record(first_page, size, page_count),
        page_record_of(r@) == Some((first_page, size, page_count)),
{
    proof {
        law_page_record_is_read_back(first_page, size, page_count);
    }
    encode_page_record(first_page, size, page_count)
}

/// Calls `postcard::from_bytes` for a tuple of three numbers. It reads as `take_from_bytes` does,
/// and what follows is passed over.
#[verifier::external_body]
pub(crate) fn read_page_record(bytes: &[u8]) -> (r: Option<(u64, u64, u64)>)
    ensures
        r == page_record_of(bytes@),
{
    postcard::from_bytes::<(u64, u64, u64)>(bytes).ok()
}

/// Numbers one behind the other.
pub open spec fn varints(numbers: Seq<usize>) -> Seq<u8>
    decreases numbers.len(),
{
    if numbers.len() == 0 {
        Seq::empty()
    } else {
        varints(numbers.drop_last()) + varint(numbers.last() as nat)
    }
}

/// Positions and the four bytes of a boost as `postcard` writes them: the number of positions, each
/// of them, and the boost with its low byte first.
#[verifier::opaque]
pub open spec fn positions_record(positions: Seq<usize>, boost: u32) -> Seq<u8> {
    varint(positions.len()) + varints(positions) + vstd::bytes::spec_u32_to_le_bytes(boost)
}

/// A record of positions takes five bytes or more.
pub proof fn lemma_positions_len(positions: Seq<usize>, boost: u32)
    ensures
        positions_record(positions, boost).len() >= 5,
{
    reveal(positions_record);
    vstd::bytes::lemma_auto_spec_u32_to_from_le_bytes();
    assert(varint(positions.len()).len() >= 1);
}

/// Calls `postcard::to_allocvec` on a tuple of a list of numbers and four bytes: the length of the
/// list and each number as a variable-length number, and the bytes as they are.
#[verifier::external_body]
pub(crate) fn write_positions(positions: &Vec<usize>, boost: u32) -> (r: Vec<u8>)
    ensures
        r@ == positions_record(positions@, boost),
{
    postcard::to_allocvec(&(positions, boost.to_le_bytes())).unwrap()
}

/// What `serde_json::to_vec` makes of the parts of an edge.
pub uninterp spec fn edge_record(
    edge_id: Seq<u8>,
    source: Seq<u8>,
    label: Seq<u8>,
    target: Seq<u8>,
    weight: Option<u64>,
) -> Seq<u8>;

/// The parts of an edge that `serde_json::from_slice` finds in a record.
pub uninterp spec fn edge_record_of(bytes: Seq<u8>) -> Option<
    (Seq<u8>, Seq<u8>, Seq<u8>, Seq<u8>, Option<u64>),
>;

/// Writes the parts of an edge with `serde_json::to_vec`. The bytes depend on the parts alone,
/// there is at least one, and `serde_json::from_slice` reads the parts back from them.
#[verifier::external_body]
pub(crate) fn write_edge(
    edge_id: &[u8],
    source: &[u8],
    label: &[u8],
    target: &[u8],
    weight: Option<u64>,
) -> (r: Vec<u8>)
    ensures
        r@ == edge_record(edge_id@, source@, label@, target@, weight),
        r@.len() > 0,
        edge_record_of(r@) == Some((edge_id@, source@, label@, target@, weight)),
{
    serde_json::to_vec(&(edge_id, source, label, target, weight)).unwrap()
}

/// Reads the parts of an edge with `serde_json::from_slice`. The outcome depends on the bytes
/// alone.
#[verifier::external_body]
pub(crate) fn read_edge(bytes: &[u8]) -> (r: Option<
    (Vec<u8>, Vec<u8>, Vec<u8>, Vec<u8>, Option<u64>),
>)
    ensures
        match r {
            Some(t) => edge_record_of(bytes@) == Some((t.0@, t.1@, t.2@, t.3@, t.4)),
            None => edge_record_of(bytes@) is None,
        },
{
    serde_json::from_slice(bytes).ok()
}

/// The commit position as a plain number.
pub open spec fn lsn_number(lsn: Option<LogSequenceNumber>) -> Option<u64> {
    match lsn {
        Some(l) => Some(l.0),
        None => None,
    }
}

/// A commit position from a plain number.
pub open spec fn lsn_of(n: Option<u64>) -> Option<LogSequenceNumber> {
    match n {
        Some(l) => Some(LogSequenceNumber(l)),
        None => None,
    }
}

/// One version on the wire, without the mark that tells whether an older one follows.
pub open spec fn version_bytes(v: Version) -> Seq<u8> {
    version_record(v.value, v.created_by.0, lsn_number(v.commit_lsn))
}

/// A chain on the wire: each version with a mark behind it, one where an older version follows and
/// zero at the end.
pub open spec fn chain_bytes(vs: Seq<Version>) -> Seq<u8>
    decreases vs.len(),
{
    if vs.len() == 0 {
        Seq::empty()
    } else if vs.len() == 1 {
        version_bytes(vs[0]) + seq![0u8]
    } else {
        version_bytes(vs[0]) + seq![1u8] + chain_bytes(vs.drop_first())
    }
}

/// The chain at the front of a byte string.
pub open spec fn parse_chain(bytes: Seq<u8>) -> Option<Seq<Version>>
    decreases bytes.len(),
{
    match version_record_at(bytes) {
        Some((value, tx, lsn, rest)) => if rest.len() == 0 || rest.len() > bytes.len() {
            None
        } else {
            let v = Version { value, created_by: TransactionId(tx), commit_lsn: lsn_of(lsn) };
            if rest[0] == 0 {
                Some(seq![v])
            } else if rest[0] == 1 {
                match parse_chain(rest.skip(1)) {
                    Some(older) => Some(seq![v] + older),
                    None => None,
                }
            } else {
                None
            }
        },
        None => None,
    }
}

/// Writes a chain.
pub fn write_chain(chain: &VersionChain) -> (r: Vec<u8>)
    ensures
        r@ == chain_bytes(chain@),
        forall|rest: Seq<u8>| #[trigger] parse_chain(r@ + rest) == Some(chain@),
    decreases chain,
{
    proof {
        chain.lemma_view();
    }
    let lsn: Option<u64> = match chain.commit_lsn {
        Some(l) => Some(l.0),
        None => None,
    };
    let mut out = write_version(chain.value.as_slice(), chain.created_by.0, lsn);
    let ghost first = out@;
    match &chain.prev_version {
        Some(prev) => {
            proof {
                prev.lemma_view();
            }
            out.push(1);
            let older = write_chain(prev);
            append_bytes(&mut out, older.as_slice());
            proof {
                assert(out@ =~= chain_bytes(chain@));
                assert forall|rest: Seq<u8>| #[trigger] parse_chain(out@ + rest) == Some(
                    chain@,
                ) by {
                    let behind = seq![1u8] + older@ + rest;
                    assert(out@ + rest =~= first + behind);
                    assert(behind.skip(1) =~= older@ + rest);
                    assert(parse_chain(older@ + rest) == Some(prev@));
                    assert(chain@ =~= seq![chain.head()] + prev@);
                }
            }
        },
        None => {
            out.push(0);
            proof {
                assert(out@ =~= chain_bytes(chain@));
                assert forall|rest: Seq<u8>| #[trigger] parse_chain(out@ + rest) == Some(
                    chain@,
                ) by {
                    assert(out@ + rest =~= first + (seq![0u8] + rest));
                    assert(chain@ =~= seq![chain.head()]);
                }
            }
        },
    }
    out
}

/// Reads the chain at the front of a byte string.
pub fn read_chain(bytes: &[u8]) -> (r: Option<VersionChain>)
    ensures
        r is Some <==> parse_chain(bytes@) is Some,
        r matches Some(c) ==> parse_chain(bytes@) == Some(c@),
    decreases bytes@.len(),
{
    let (value, tx, lsn, behind) = match take_version(bytes) {
        Some(t) => t,
        None => {
            return None;
        },
    };
    proof {
        lemma_version_len(bytes@);
    }
    if behind.len() == 0 {
        return None;
    }
    let commit_lsn: Option<LogSequenceNumber> = match lsn {
        Some(l) => Some(LogSequenceNumber(l)),
        None => None,
    };
    if behind[0] == 0 {
        let c = VersionChain {
            value,
            created_by: TransactionId(tx),
            commit_lsn,
            prev_version: None,
        };
        proof {
            c.lemma_view();
            assert(c@ =~= parse_chain(bytes@)->Some_0);
        }
        Some(c)
    } else if behind[0] == 1 {
        let rest = vstd::slice::slice_subrange(behind, 1, behind.len());
        assert(rest@ =~= behind@.skip(1));
        match read_chain(rest) {
            Some(older) => {
                let c = VersionChain {
                    value,
                    created_by: TransactionId(tx),
                    commit_lsn,
                    prev_version: Some(Box::new(older)),
                };
                proof {
                    c.lemma_view();
                    assert(c@ =~= parse_chain(bytes@)->Some_0);
                }
                Some(c)
            },
            None => None,
        }
    } else {
        None
    }
}

} // verus!
