//! Blobs in files, with versions: which file holds which blob. Reading and writing the files is
//! left to the caller.
use crate::bytemap::ByteMap;
use crate::bytes::{bytes_equal, copy_bytes};
use crate::mvcc::{
    chain_of, snapshot_read, version_total, with_commit, with_put, with_vacuum, Chains,
};
use crate::snap::Snapshot;
use crate::table::{TableCapabilities, TableEngineKind, TableError, TableResult, TableStatistics};
use crate::txn::{
    dropped, latest_committed, lemma_dropped, saturated, vacuumed, Version, VersionChain,
};
use crate::types::{LogSequenceNumber, TableId, TransactionId};
use crate::wire::{blob_record, blob_record_of, read_blob_record, write_blob_record};
use vstd::bytes::*;
use vstd::prelude::*;

verus! {

/// Blobs in files.
pub struct FileBlob {
    pub id: TableId,
    pub name: String,
    /// The directory of the files.
    pub base_path: Vec<u8>,
    /// The versions of each key; each is a record of a file's path and a size.
    pub index: ByteMap<VersionChain>,
    /// The number of the next file.
    pub next_file: u64,
}

/// A digit of a number to the base sixteen.
pub open spec fn hex_digit(n: u8) -> u8 {
    if n < 10 {
        (48 + n) as u8
    } else {
        (87 + n) as u8
    }
}

/// A byte string as digits to the base sixteen, two for each byte.
pub open spec fn hex_digits(s: Seq<u8>) -> Seq<u8>
    decreases s.len(),
{
    if s.len() == 0 {
        Seq::empty()
    } else {
        hex_digits(s.drop_last()) + seq![hex_digit(s.last() / 16), hex_digit(s.last() % 16)]
    }
}

/// A file in a directory.
pub open spec fn joined_path(base: Seq<u8>, file: Seq<u8>) -> Seq<u8> {
    if base.len() == 0 || base.last() == 47 {
        base + file
    } else {
        base + seq![47u8] + file
    }
}

/// The name of a file: the key's bytes to the base sixteen, a point, and the file's number.
pub open spec fn file_name(key: Seq<u8>, n: u64) -> Seq<u8> {
    hex_digits(key) + seq![46u8] + hex_digits(spec_u64_to_le_bytes(n))
}

/// The files of different keys, and different files of one key, have different paths.
pub proof fn law_files_are_distinct(base: Seq<u8>, a: Seq<u8>, n: u64, b: Seq<u8>, m: u64)
    requires
        joined_path(base, file_name(a, n)) == joined_path(base, file_name(b, m)),
    ensures
        a == b,
        n == m,
{
    let front = if base.len() == 0 || base.last() == 47 {
        base
    } else {
        base + seq![47u8]
    };
    let x = front + file_name(a, n);
    let y = front + file_name(b, m);
    assert(joined_path(base, file_name(a, n)) =~= x);
    assert(joined_path(base, file_name(b, m)) =~= y);
    assert(file_name(a, n) =~= x.skip(front.len() as int));
    assert(file_name(b, m) =~= y.skip(front.len() as int));
    let (p, q) = (spec_u64_to_le_bytes(n), spec_u64_to_le_bytes(m));
    lemma_auto_spec_u64_to_from_le_bytes();
    lemma_hex_len(a);
    lemma_hex_len(b);
    lemma_hex_len(p);
    lemma_hex_len(q);
    let len = hex_digits(a).len() as int;
    assert(hex_digits(a) =~= file_name(a, n).take(len));
    assert(hex_digits(b) =~= file_name(b, m).take(len));
    assert(hex_digits(p) =~= file_name(a, n).skip(len + 1));
    assert(hex_digits(q) =~= file_name(b, m).skip(len + 1));
    lemma_hex_injective(a, b);
    lemma_hex_injective(p, q);
    assert(spec_u64_from_le_bytes(p) == n);
    assert(spec_u64_from_le_bytes(q) == m);
}

proof fn lemma_hex_len(s: Seq<u8>)
    ensures
        hex_digits(s).len() == 2 * s.len(),
    decreases s.len(),
{
    if s.len() > 0 {
        lemma_hex_len(s.drop_last());
    }
}

proof fn lemma_hex_injective(a: Seq<u8>, b: Seq<u8>)
    requires
        hex_digits(a) == hex_digits(b),
    ensures
        a == b,
    decreases a.len(),
{
    lemma_hex_len(a);
    lemma_hex_len(b);
    if a.len() == 0 {
        assert(a =~= b);
    } else {
        let (a2, b2) = (a.drop_last(), b.drop_last());
        let n = hex_digits(a).len() as int;
        lemma_hex_len(a2);
        lemma_hex_len(b2);
        assert(hex_digits(a2) =~= hex_digits(a).take(n - 2));
        assert(hex_digits(b2) =~= hex_digits(b).take(n - 2));
        lemma_hex_injective(a2, b2);
        assert(hex_digits(a)[n - 2] == hex_digit(a.last() / 16));
        assert(hex_digits(b)[n - 2] == hex_digit(b.last() / 16));
        assert(hex_digits(a)[n - 1] == hex_digit(a.last() % 16));
        assert(hex_digits(b)[n - 1] == hex_digit(b.last() % 16));
        assert(a.last() / 16 == b.last() / 16);
        assert(a.last() % 16 == b.last() % 16);
        assert(a.last() == b.last());
        assert(a =~= a2.push(a.last()));
        assert(b =~= b2.push(b.last()));
    }
}

fn digit(n: u8) -> (r: u8)
    requires
        n < 16,
    ensures
        r == hex_digit(n),
{
    if n < 10 {
        48 + n
    } else {
        87 + n
    }
}

/// The path of a record, or that the record cannot be read. An empty path marks a deletion.
pub open spec fn path_of(record: Option<Seq<u8>>) -> TableResult<Option<Seq<u8>>> {
    match record {
        None => Ok(None),
        Some(b) => match blob_record_of(b) {
            Some((path, _)) => if path.len() == 0 {
                Ok(None)
            } else {
                Ok(Some(path))
            },
            None => Err(TableError::Serialization),
        },
    }
}

/// The path as a byte string.
pub open spec fn path_view(p: Option<Vec<u8>>) -> Option<Seq<u8>> {
    match p {
        Some(v) => Some(v@),
        None => None,
    }
}

/// The outcome of reading a record: an empty path marks a deletion.
pub fn decoded_path(record: Option<(Vec<u8>, u64)>) -> (r: TableResult<Option<Vec<u8>>>)
    ensures
        r is Ok <==> record is Some,
        r matches Ok(p) ==> path_view(p) == (if record->Some_0.0@.len() == 0 {
            None
        } else {
            Some(record->Some_0.0@)
        }),
        r matches Err(e) ==> e == TableError::Serialization,
{
    match record {
        Some((path, _)) => if path.len() == 0 {
            Ok(None)
        } else {
            Ok(Some(path))
        },
        None => Err(TableError::Serialization),
    }
}

fn read_path(record: Option<&[u8]>) -> (r: TableResult<Option<Vec<u8>>>)
    ensures
        match record {
            None => r == Ok::<Option<Vec<u8>>, TableError>(None),
            Some(b) => {
                &&& r is Ok <==> path_of(Some(b@)) is Ok
                &&& r matches Ok(p) ==> path_view(p) == path_of(Some(b@))->Ok_0
                &&& r matches Err(e) ==> path_of(Some(b@))->Err_0 == e
            },
        },
{
    match record {
        Some(b) => decoded_path(read_blob_record(b)),
        None => Ok(None),
    }
}

/// The record of a version names the file.
pub open spec fn names_file(v: Version, path: Seq<u8>) -> bool {
    blob_record_of(v.value) is Some && blob_record_of(v.value)->Some_0.0 == path
}

/// One of the versions names the file.
pub open spec fn file_in(vs: Seq<Version>, path: Seq<u8>) -> bool {
    exists|i: int| 0 <= i < vs.len() && names_file(#[trigger] vs[i], path)
}

/// A vacuum takes the last version of a key that names the file.
pub open spec fn is_orphaned(vs: Seq<Version>, min: LogSequenceNumber, path: Seq<u8>) -> bool {
    path.len() > 0 && file_in(dropped(vs, min), path) && !file_in(vacuumed(vs, min), path)
}

/// A vacuum takes the last version of a key that names the file.
pub open spec fn orphaned(m: Chains, min: LogSequenceNumber, path: Seq<u8>) -> bool {
    exists|k: Seq<u8>| #[trigger] m.contains_key(k) && is_orphaned(m[k], min, path)
}

/// A vacuum takes the last version of one of the first `n` keys that names the file.
spec fn orphaned_before(
    index: ByteMap<VersionChain>,
    min: LogSequenceNumber,
    n: int,
    path: Seq<u8>,
) -> bool {
    exists|i: int| 0 <= i < n && is_orphaned((#[trigger] index.entries@[i]).1@, min, path)
}

/// The path is in the list.
pub open spec fn lists_path(paths: Seq<Vec<u8>>, path: Seq<u8>) -> bool {
    exists|i: int| 0 <= i < paths.len() && (#[trigger] paths[i])@ == path
}

proof fn lemma_path_pushed(paths: Seq<Vec<u8>>, x: Vec<u8>, path: Seq<u8>)
    ensures
        lists_path(paths.push(x), path) <==> lists_path(paths, path) || x@ == path,
{
    let after = paths.push(x);
    if lists_path(paths, path) {
        let i = choose|i: int| 0 <= i < paths.len() && (#[trigger] paths[i])@ == path;
        assert(after[i]@ == path);
    }
    if x@ == path {
        assert(after[paths.len() as int]@ == path);
    }
    if lists_path(after, path) {
        let i = choose|i: int| 0 <= i < after.len() && (#[trigger] after[i])@ == path;
        if i < paths.len() {
            assert(paths[i]@ == path);
        }
    }
}

/// The file that a version of the key names, if it names one, is one of the key's first `next`
/// files.
pub open spec fn is_own(base: Seq<u8>, key: Seq<u8>, next: u64, v: Version) -> bool {
    blob_record_of(v.value) matches Some((path, _)) ==> path.len() == 0 || exists|n: u64|
        n < next && path == #[trigger] joined_path(base, file_name(key, n))
}

/// All versions name files of their keys, among the first `next`.
pub open spec fn owns_files(m: Chains, base: Seq<u8>, next: u64) -> bool {
    forall|k: Seq<u8>, i: int|
        m.contains_key(k) && 0 <= i < m[k].len() ==> is_own(base, k, next, #[trigger] m[k][i])
}

/// A later count of files leaves every version the owner of its file.
proof fn lemma_still_own(base: Seq<u8>, key: Seq<u8>, next: u64, later: u64, v: Version)
    requires
        is_own(base, key, next, v),
        next <= later,
    ensures
        is_own(base, key, later, v),
{
}

/// Once more than the first `next` files of a key are counted, a put keeps files apart.
proof fn lemma_put_owns(m: Chains, base: Seq<u8>, next: u64, key: Seq<u8>, value: Seq<u8>, tx: TransactionId)
    requires
        owns_files(m, base, next),
        next < u64::MAX,
        is_own(base, key, (next + 1) as u64, crate::txn::pending(value, tx)),
    ensures
        owns_files(with_put(m, key, value, tx), base, (next + 1) as u64),
{
    let after = with_put(m, key, value, tx);
    assert forall|k: Seq<u8>, i: int|
        after.contains_key(k) && 0 <= i < after[k].len() implies is_own(
        base,
        k,
        (next + 1) as u64,
        #[trigger] after[k][i],
    ) by {
        if k != key {
            lemma_still_own(base, k, next, (next + 1) as u64, m[k][i]);
        } else if i > 0 {
            assert(after[k][i] == m[k][i - 1]);
            lemma_still_own(base, k, next, (next + 1) as u64, m[k][i - 1]);
        }
    }
}

proof fn lemma_tombstone_owns(m: Chains, base: Seq<u8>, next: u64, key: Seq<u8>, value: Seq<u8>, tx: TransactionId)
    requires
        owns_files(m, base, next),
        blob_record_of(value) == Some((Seq::<u8>::empty(), 0u64)),
    ensures
        owns_files(with_put(m, key, value, tx), base, next),
{
    let after = with_put(m, key, value, tx);
    assert forall|k: Seq<u8>, i: int|
        after.contains_key(k) && 0 <= i < after[k].len() implies is_own(
        base,
        k,
        next,
        #[trigger] after[k][i],
    ) by {
        if k != key {
            assert(is_own(base, k, next, m[k][i]));
        } else if i > 0 {
            assert(after[k][i] == m[k][i - 1]);
        }
    }
}

impl FileBlob {
    /// The keys of the index ascend, and each version names a file of its key that was counted.
    pub open spec fn wf(&self) -> bool {
        &&& self.index.wf()
        &&& owns_files(self.chains(), self.base_path@, self.next_file)
    }

    /// The versions of each key.
    pub open spec fn chains(&self) -> Chains {
        self.index.chains()
    }

    /// The tables have the same name and directory.
    pub open spec fn same_identity(&self, other: &Self) -> bool {
        &&& self.id == other.id
        &&& self.name == other.name
        &&& self.base_path == other.base_path
    }

    /// The file that the next put of a key writes.
    pub open spec fn file_of(&self, key: Seq<u8>) -> Seq<u8> {
        joined_path(self.base_path@, file_name(key, self.next_file))
    }

    /// An empty table.
    pub fn new(id: TableId, name: String, base_path: Vec<u8>) -> (r: Self)
        ensures
            r.wf(),
            r.chains() == Map::<Seq<u8>, Seq<Version>>::empty(),
            r.id == id,
            r.name == name,
            r.base_path == base_path,
            r.next_file == 0,
    {
        let r = FileBlob { id, name, base_path, index: ByteMap::new(), next_file: 0 };
        assert(r.chains() =~= Map::<Seq<u8>, Seq<Version>>::empty());
        r
    }

    fn push_digits(path: &mut Vec<u8>, bytes: &[u8])
        ensures
            final(path)@ == old(path)@ + hex_digits(bytes@),
    {
        let ghost front = path@;
        let mut i: usize = 0;
        assert(bytes@.take(0) =~= Seq::empty());
        assert(front + hex_digits(bytes@.take(0)) =~= front);
        while i < bytes.len()
            invariant
                i <= bytes@.len(),
                path@ == front + hex_digits(bytes@.take(i as int)),
            decreases bytes@.len() - i,
        {
            proof {
                assert(bytes@.take(i + 1).drop_last() =~= bytes@.take(i as int));
                assert(bytes@.take(i + 1).last() == bytes@[i as int]);
            }
            path.push(digit(bytes[i] / 16));
            path.push(digit(bytes[i] % 16));
            assert(path@ =~= front + hex_digits(bytes@.take(i + 1)));
            i += 1;
        }
        assert(bytes@.take(i as int) =~= bytes@);
    }

    /// The file that the next put of a key writes, in the directory of the table. No version
    /// names it yet.
    pub fn key_to_path(&self, key: &[u8]) -> (r: Vec<u8>)
        ensures
            r@ == self.file_of(key@),
    {
        let mut path = copy_bytes(self.base_path.as_slice());
        let n: usize = path.len();
        if n > 0 && path[n - 1] != 47 {
            path.push(47);
        }
        Self::push_digits(&mut path, key);
        path.push(46);
        let number = u64_to_le_bytes(self.next_file);
        Self::push_digits(&mut path, number.as_slice());
        assert(path@ =~= self.file_of(key@));
        path
    }

    /// The file with the newest committed blob of a key, none if it is deleted.
    pub fn get(&self, key: &[u8]) -> (r: TableResult<Option<Vec<u8>>>)
        requires
            self.wf(),
        ensures
            ({
                let found = path_of(latest_committed(chain_of(self.chains(), key@)));
                &&& r is Ok <==> found is Ok
                &&& r matches Ok(p) ==> path_view(p) == found->Ok_0
                &&& r matches Err(e) ==> found->Err_0 == e
            }),
    {
        match self.index.get(key) {
            Some(chain) => read_path(chain.latest_committed()),
            None => Ok(None),
        }
    }

    /// The file with the blob of a key that the snapshot sees, none if it is deleted.
    pub fn get_snapshot(&self, key: &[u8], snapshot: &Snapshot) -> (r: TableResult<
        Option<Vec<u8>>,
    >)
        requires
            self.wf(),
        ensures
            ({
                let found = path_of(
                    snapshot_read(self.chains(), key@, snapshot.lsn, snapshot.active_txns@),
                );
                &&& r is Ok <==> found is Ok
                &&& r matches Ok(p) ==> path_view(p) == found->Ok_0
                &&& r matches Err(e) ==> found->Err_0 == e
            }),
    {
        read_path(self.index.visible(key, snapshot))
    }

    /// The table after a blob of a size was put.
    pub open spec fn is_put(&self, before: &Self, key: Seq<u8>, size: u64, tx: TransactionId) -> bool {
        &&& self.chains() == with_put(
            before.chains(),
            key,
            blob_record(before.file_of(key), size),
            tx,
        )
        &&& blob_record_of(blob_record(before.file_of(key), size)) == Some(
            (before.file_of(key), size),
        )
        &&& self.next_file == before.next_file + 1
    }

    /// Notes that the next file of a key was written, outside of any transaction.
    pub fn put(&mut self, key: &[u8], size: u64) -> (r: TableResult<u64>)
        requires
            old(self).wf(),
            old(self).next_file < u64::MAX,
        ensures
            r == Ok::<u64, TableError>(size),
            final(self).wf(),
            final(self).same_identity(old(self)),
            final(self).is_put(old(self), key@, size, TransactionId(0)),
    {
        self.put_tx(key, size, TransactionId(0))
    }

    /// Notes that the next file of a key was written with a blob of the given size.
    pub fn put_tx(&mut self, key: &[u8], size: u64, tx_id: TransactionId) -> (r: TableResult<u64>)
        requires
            old(self).wf(),
            old(self).next_file < u64::MAX,
        ensures
            r == Ok::<u64, TableError>(size),
            final(self).wf(),
            final(self).same_identity(old(self)),
            final(self).is_put(old(self), key@, size, tx_id),
    {
        let path = self.key_to_path(key);
        let record = write_blob_record(path.as_slice(), size);
        let ghost before = self.chains();
        let ghost n = self.next_file;
        self.index.push_version(copy_bytes(key), record, tx_id);
        self.next_file = self.next_file + 1;
        proof {
            assert(path@ == joined_path(self.base_path@, file_name(key@, n)));
            lemma_put_owns(before, self.base_path@, n, key@, record@, tx_id);
        }
        Ok(size)
    }

    /// The table after a key was deleted, with the outcome.
    pub open spec fn is_deleted(
        &self,
        before: &Self,
        key: Seq<u8>,
        tx: TransactionId,
        r: TableResult<bool>,
    ) -> bool {
        &&& r == Ok::<bool, TableError>(before.chains().contains_key(key))
        &&& if before.chains().contains_key(key) {
            &&& self.chains() == with_put(before.chains(), key, blob_record(Seq::empty(), 0), tx)
            &&& blob_record_of(blob_record(Seq::empty(), 0)) == Some((Seq::<u8>::empty(), 0u64))
            &&& self.next_file == before.next_file
        } else {
            *self == *before
        }
    }

    /// Deletes a key outside of any transaction, under the transaction number zero.
    pub fn delete(&mut self, key: &[u8]) -> (r: TableResult<bool>)
        requires
            old(self).wf(),
        ensures
            final(self).wf(),
            final(self).same_identity(old(self)),
            final(self).is_deleted(old(self), key@, TransactionId(0), r),
    {
        self.delete_tx(key, TransactionId(0))
    }

    /// Adds a version without a file to a known key. Returns whether it is known.
    pub fn delete_tx(&mut self, key: &[u8], tx_id: TransactionId) -> (r: TableResult<bool>)
        requires
            old(self).wf(),
        ensures
            final(self).wf(),
            final(self).same_identity(old(self)),
            final(self).is_deleted(old(self), key@, tx_id, r),
    {
        if !self.index.contains_key(key) {
            return Ok(false);
        }
        let nothing: Vec<u8> = Vec::new();
        assert(nothing@ =~= Seq::<u8>::empty());
        let record = write_blob_record(nothing.as_slice(), 0);
        let ghost before = self.chains();
        self.index.push_version(copy_bytes(key), record, tx_id);
        proof {
            lemma_tombstone_owns(before, self.base_path@, self.next_file, key@, record@, tx_id);
        }
        Ok(true)
    }

    /// Commits every version that the transaction left pending.
    pub fn commit_versions(&mut self, tx_id: TransactionId, commit_lsn: LogSequenceNumber) -> (r:
        TableResult<()>)
        requires
            old(self).wf(),
        ensures
            r is Ok,
            final(self).wf(),
            final(self).same_identity(old(self)),
            final(self).next_file == old(self).next_file,
            final(self).chains() == with_commit(old(self).chains(), tx_id, commit_lsn),
    {
        self.index.commit_of(tx_id, commit_lsn);
        proof {
            let (m, after) = (old(self).chains(), self.chains());
            assert forall|k: Seq<u8>, i: int|
                after.contains_key(k) && 0 <= i < after[k].len() implies is_own(
                self.base_path@,
                k,
                self.next_file,
                #[trigger] after[k][i],
            ) by {
                assert(is_own(self.base_path@, k, self.next_file, m[k][i]));
                assert(after[k][i].value == m[k][i].value);
            }
        }
        Ok(())
    }

    fn orphans_of(chain: &VersionChain, min: LogSequenceNumber, out: &mut Vec<Vec<u8>>)
        ensures
            forall|p: Seq<u8>| #[trigger]
                lists_path(final(out)@, p) <==> lists_path(old(out)@, p) || is_orphaned(
                    chain@,
                    min,
                    p,
                ),
    {
        let ghost vs = chain@;
        let ghost out0 = out@;
        let values = chain.all_values();
        let gone = chain.dropped_values(min);
        proof {
            lemma_dropped(vs, min);
        }
        let n: usize = values.len();
        let k: usize = n - gone.len();
        proof {
            assert(vacuumed(vs, min) =~= vs.take(k as int));
            assert(dropped(vs, min) =~= vs.skip(k as int));
        }
        let mut j: usize = k;
        while j < n
            invariant
                k <= j <= n == values@.len() == vs.len(),
                forall|i: int| 0 <= i < n ==> (#[trigger] values@[i])@ == vs[i].value,
                vacuumed(vs, min) == vs.take(k as int),
                dropped(vs, min) == vs.skip(k as int),
                forall|p: Seq<u8>| #[trigger]
                    lists_path(out@, p) <==> lists_path(out0, p) || (p.len() > 0 && file_in(
                        vs.subrange(k as int, j as int),
                        p,
                    ) && !file_in(vs.take(k as int), p)),
            decreases n - j,
        {
            let ghost out1 = out@;
            let ghost part = vs.subrange(k as int, j as int);
            let ghost part2 = vs.subrange(k as int, j + 1);
            let ghost mut added: Option<Vec<u8>> = None;
            match read_blob_record(values[j].as_slice()) {
                Some((path, _)) => {
                    if path.len() > 0 && !Self::names_among(
                        &values,
                        k,
                        path.as_slice(),
                        Ghost(vs),
                    ) {
                        proof {
                            added = Some(path);
                        }
                        out.push(path);
                    }
                },
                None => {},
            }
            proof {
                assert forall|p: Seq<u8>| #[trigger]
                    lists_path(out@, p) <==> lists_path(out0, p) || (p.len() > 0 && file_in(
                        part2,
                        p,
                    ) && !file_in(vs.take(k as int), p)) by {
                    assert(lists_path(out1, p) <==> lists_path(out0, p) || (p.len() > 0 && file_in(
                        part,
                        p,
                    ) && !file_in(vs.take(k as int), p)));
                    assert(file_in(part2, p) <==> file_in(part, p) || names_file(vs[j as int], p)) by {
                        if file_in(part, p) {
                            let i = choose|i: int|
                                0 <= i < part.len() && names_file(#[trigger] part[i], p);
                            assert(part2[i] == part[i]);
                        }
                        if names_file(vs[j as int], p) {
                            assert(part2[j - k] == vs[j as int]);
                        }
                        if file_in(part2, p) {
                            let i = choose|i: int|
                                0 <= i < part2.len() && names_file(#[trigger] part2[i], p);
                            if i < j - k {
                                assert(part[i] == part2[i]);
                            }
                        }
                    }
                    if added is Some {
                        assert(out@ == out1.push(added->Some_0));
                        lemma_path_pushed(out1, added->Some_0, p);
                    }
                }
            }
            j += 1;
        }
        proof {
            assert(vs.subrange(k as int, n as int) =~= vs.skip(k as int));
        }
    }

    fn names_among(values: &Vec<Vec<u8>>, k: usize, path: &[u8], Ghost(vs): Ghost<Seq<Version>>) -> (r:
        bool)
        requires
            k <= values@.len() == vs.len(),
            forall|i: int| 0 <= i < vs.len() ==> (#[trigger] values@[i])@ == vs[i].value,
        ensures
            r == file_in(vs.take(k as int), path@),
    {
        let ghost kept = vs.take(k as int);
        let mut i: usize = 0;
        while i < k
            invariant
                i <= k <= values@.len() == vs.len(),
                kept == vs.take(k as int),
                forall|j: int| 0 <= j < vs.len() ==> (#[trigger] values@[j])@ == vs[j].value,
                forall|j: int| 0 <= j < i ==> !names_file(#[trigger] kept[j], path@),
            decreases k - i,
        {
            match read_blob_record(values[i].as_slice()) {
                Some((p, _)) => {
                    if bytes_equal(p.as_slice(), path) {
                        assert(names_file(kept[i as int], path@));
                        return true;
                    }
                },
                None => {},
            }
            i += 1;
        }
        false
    }

    /// Drops the versions that no reader at `min_visible_lsn` or later can see, but for one base
    /// version per key. Returns how many went, and the files that no version names any more.
    pub fn vacuum(&mut self, min_visible_lsn: LogSequenceNumber) -> (r: TableResult<
        (usize, Vec<Vec<u8>>),
    >)
        requires
            old(self).wf(),
        ensures
            r is Ok,
            r->Ok_0.0 as int == saturated(
                version_total(old(self).chains()) - version_total(final(self).chains()),
            ),
            forall|p: Seq<u8>| #[trigger]
                lists_path(r->Ok_0.1@, p) <==> orphaned(old(self).chains(), min_visible_lsn, p),
            final(self).next_file == old(self).next_file,
            final(self).wf(),
            final(self).same_identity(old(self)),
            final(self).chains() == with_vacuum(old(self).chains(), min_visible_lsn),
    {
        let mut files: Vec<Vec<u8>> = Vec::new();
        let n: usize = self.index.entries.len();
        let mut i: usize = 0;
        while i < n
            invariant
                n == self.index.entries@.len(),
                *self == *old(self),
                self.wf(),
                i <= n,
                forall|p: Seq<u8>| #[trigger]
                    lists_path(files@, p) <==> orphaned_before(
                        self.index,
                        min_visible_lsn,
                        i as int,
                        p,
                    ),
            decreases n - i,
        {
            let ghost before = files@;
            Self::orphans_of(&self.index.entries[i].1, min_visible_lsn, &mut files);
            proof {
                assert forall|p: Seq<u8>| #[trigger]
                    lists_path(files@, p) <==> orphaned_before(
                        self.index,
                        min_visible_lsn,
                        i + 1,
                        p,
                    ) by {
                    assert(lists_path(before, p) <==> orphaned_before(
                        self.index,
                        min_visible_lsn,
                        i as int,
                        p,
                    ));
                    if is_orphaned(self.index.entries@[i as int].1@, min_visible_lsn, p) {
                        assert(orphaned_before(self.index, min_visible_lsn, i + 1, p));
                    }
                    if orphaned_before(self.index, min_visible_lsn, i + 1, p) {
                        let k = choose|k: int|
                            0 <= k < i + 1 && is_orphaned(
                                (#[trigger] self.index.entries@[k]).1@,
                                min_visible_lsn,
                                p,
                            );
                        if k < i {
                            assert(orphaned_before(self.index, min_visible_lsn, i as int, p));
                        }
                    }
                }
            }
            i += 1;
        }
        let ghost m = self.chains();
        proof {
            assert forall|p: Seq<u8>| #[trigger]
                lists_path(files@, p) <==> orphaned(m, min_visible_lsn, p) by {
                if orphaned_before(self.index, min_visible_lsn, n as int, p) {
                    let i = choose|i: int|
                        0 <= i < n && is_orphaned(
                            (#[trigger] self.index.entries@[i]).1@,
                            min_visible_lsn,
                            p,
                        );
                    self.index.lemma_entry(i);
                    assert(m.contains_key(self.index.keys()[i]));
                }
                if orphaned(m, min_visible_lsn, p) {
                    let k = choose|k: Seq<u8>| #[trigger]
                        m.contains_key(k) && is_orphaned(m[k], min_visible_lsn, p);
                    let i = self.index.lemma_key(k);
                    self.index.lemma_entry(i);
                    assert(self.index.keys()[i] == k);
                    assert(is_orphaned(self.index.entries@[i].1@, min_visible_lsn, p));
                }
            }
        }
        let removed: usize = self.index.vacuum(min_visible_lsn);
        proof {
            let after = self.chains();
            assert forall|k: Seq<u8>, i: int|
                after.contains_key(k) && 0 <= i < after[k].len() implies is_own(
                self.base_path@,
                k,
                self.next_file,
                #[trigger] after[k][i],
            ) by {
                lemma_dropped(m[k], min_visible_lsn);
                assert(after[k][i] == m[k][i]);
            }
        }
        Ok((removed, files))
    }

    /// The identifier of the table.
    pub fn table_id(&self) -> (r: TableId)
        ensures
            r == self.id,
    {
        self.id
    }

    /// The name of the table.
    pub fn name(&self) -> (r: &str)
        ensures
            r@ == self.name@,
    {
        self.name.as_str()
    }

    /// The engine of the table.
    pub fn kind(&self) -> (r: TableEngineKind)
        ensures
            r == TableEngineKind::Blob,
    {
        TableEngineKind::Blob
    }

    /// What the table can do.
    pub fn capabilities(&self) -> (r: TableCapabilities)
        ensures
            r == (TableCapabilities {
                ordered: false,
                point_lookup: true,
                prefix_scan: false,
                reverse_scan: false,
                range_delete: false,
                merge_operator: false,
                mvcc_native: true,
                append_optimized: false,
                memory_resident: false,
                disk_resident: true,
                supports_compression: false,
                supports_encryption: false,
            }),
    {
        TableCapabilities {
            ordered: false,
            point_lookup: true,
            prefix_scan: false,
            reverse_scan: false,
            range_delete: false,
            merge_operator: false,
            mvcc_native: true,
            append_optimized: false,
            memory_resident: false,
            disk_resident: true,
            supports_compression: false,
            supports_encryption: false,
        }
    }

    /// What is known of the table's contents.
    pub fn stats(&self) -> (r: TableResult<TableStatistics>)
        requires
            self.wf(),
        ensures
            r == Ok::<TableStatistics, TableError>(
                TableStatistics {
                    row_count: Some(self.chains().dom().len() as u64),
                    page_count: None,
                    total_size_bytes: None,
                    key_stats: None,
                    value_stats: None,
                    last_updated_lsn: None,
                },
            ),
    {
        assert(self.chains().dom() =~= self.index@.dom());
        Ok(
            TableStatistics {
                row_count: Some(self.index.len() as u64),
                page_count: None,
                total_size_bytes: None,
                key_stats: None,
                value_stats: None,
                last_updated_lsn: None,
            },
        )
    }
}

/// Once a put is committed, readers are sent to the file that it wrote.
pub proof fn law_committed_blob_is_found(
    before: FileBlob,
    put: FileBlob,
    key: Seq<u8>,
    size: u64,
    tx: TransactionId,
    at: LogSequenceNumber,
    lsn: LogSequenceNumber,
    active: Seq<TransactionId>,
)
    requires
        put.is_put(&before, key, size, tx),
        at.0 <= lsn.0,
        !active.contains(tx),
    ensures
        ({
            let after = with_commit(put.chains(), tx, at);
            &&& path_of(latest_committed(chain_of(after, key))) == Ok::<
                Option<Seq<u8>>,
                TableError,
            >(Some(before.file_of(key)))
            &&& path_of(snapshot_read(after, key, lsn, active)) == Ok::<
                Option<Seq<u8>>,
                TableError,
            >(Some(before.file_of(key)))
        }),
{
    let after = with_commit(put.chains(), tx, at);
    let record = blob_record(before.file_of(key), size);
    assert(put.chains()[key][0] == crate::txn::pending(record, tx));
    assert(after[key][0] == crate::txn::committed(crate::txn::pending(record, tx), at));
}

/// A put writes a file that no version names: the blobs that readers are sent to stay as they are.
pub proof fn law_put_writes_a_new_file(before: FileBlob, key: Seq<u8>, other: Seq<u8>, i: int)
    requires
        before.wf(),
        before.chains().contains_key(other),
        0 <= i < before.chains()[other].len(),
    ensures
        !names_file(before.chains()[other][i], before.file_of(key)),
{
    let v = before.chains()[other][i];
    let base = before.base_path@;
    assert(is_own(base, other, before.next_file, v));
    if names_file(v, before.file_of(key)) {
        assert(before.file_of(key).len() > 0);
        let n = choose|n: u64|
            n < before.next_file && before.file_of(key) == #[trigger] joined_path(
                base,
                file_name(other, n),
            );
        law_files_are_distinct(base, key, before.next_file, other, n);
    }
}

/// A committed deletion sends readers to no file.
pub proof fn law_committed_deletion_hides(
    before: FileBlob,
    deleted: FileBlob,
    key: Seq<u8>,
    tx: TransactionId,
    r: TableResult<bool>,
    at: LogSequenceNumber,
)
    requires
        deleted.is_deleted(&before, key, tx, r),
        before.chains().contains_key(key),
    ensures
        latest_committed(chain_of(deleted.chains(), key)) == latest_committed(
            chain_of(before.chains(), key),
        ),
        path_of(latest_committed(chain_of(with_commit(deleted.chains(), tx, at), key))) == Ok::<
            Option<Seq<u8>>,
            TableError,
        >(None),
{
    let after = with_commit(deleted.chains(), tx, at);
    let record = blob_record(Seq::empty(), 0);
    let vs = deleted.chains()[key];
    assert(vs[0] == crate::txn::pending(record, tx));
    assert(vs.drop_first() =~= before.chains()[key]);
    assert(after[key][0] == crate::txn::committed(crate::txn::pending(record, tx), at));
}

/// A vacuum gives up no file that a version is left of.
pub proof fn law_vacuum_keeps_named_files(
    before: FileBlob,
    min: LogSequenceNumber,
    key: Seq<u8>,
    path: Seq<u8>,
)
    requires
        before.wf(),
        before.chains().contains_key(key),
        path.len() > 0,
        file_in(with_vacuum(before.chains(), min)[key], path),
    ensures
        !orphaned(before.chains(), min, path),
{
    let m = before.chains();
    let base = before.base_path@;
    if orphaned(m, min, path) {
        let k = choose|k: Seq<u8>| #[trigger] m.contains_key(k) && is_orphaned(m[k], min, path);
        let (a, b) = (vacuumed(m[key], min), dropped(m[k], min));
        lemma_dropped(m[key], min);
        lemma_dropped(m[k], min);
        let i = choose|i: int| 0 <= i < a.len() && names_file(#[trigger] a[i], path);
        let j = choose|j: int| 0 <= j < b.len() && names_file(#[trigger] b[j], path);
        assert(m[key][i] == a[i]);
        assert(m[k][vacuumed(m[k], min).len() + j] == b[j]);
        let x = choose|n: u64|
            n < before.next_file && path == #[trigger] joined_path(base, file_name(key, n));
        let y = choose|n: u64|
            n < before.next_file && path == #[trigger] joined_path(base, file_name(k, n));
        law_files_are_distinct(base, key, x, k, y);
    }
}

} // verus!
