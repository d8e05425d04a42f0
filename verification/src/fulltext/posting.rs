//! Where a term occurs: postings with versions.
use crate::bytes::{bytes_equal, copy_bytes};
use crate::snap::Snapshot;
use crate::txn::{
    commit_head, commit_pending, find_visible, is_old, lemma_vacuum_keeps_reads,
    lemma_vacuumed_len, pending, saturated, vacuumed, Version, VersionChain,
};
use crate::types::{LogSequenceNumber, TransactionId};
use crate::wire::{lemma_positions_len, positions_record, write_positions};
use vstd::prelude::*;

verus! {

/// A term in one field of a document.
#[derive(Debug)]
pub struct PostingEntry {
    pub doc_id: Vec<u8>,
    pub field: String,
    /// Where in the field the term stands.
    pub positions: Vec<usize>,
    /// The weight of the field, as the bits of a single-precision number.
    pub boost: u32,
    pub version_chain: VersionChain,
}

/// A posting as the contracts speak of it.
#[verifier::ext_equal]
pub struct PostingView {
    pub doc_id: Seq<u8>,
    pub field: Seq<char>,
    pub positions: Seq<usize>,
    pub boost: u32,
    pub versions: Seq<Version>,
}

impl View for PostingEntry {
    type V = PostingView;

    open spec fn view(&self) -> PostingView {
        PostingView {
            doc_id: self.doc_id@,
            field: self.field@,
            positions: self.positions@,
            boost: self.boost,
            versions: self.version_chain@,
        }
    }
}

/// The value of a version that marks a deletion.
pub open spec fn tombstone_marker() -> Seq<u8> {
    seq![0xFFu8]
}

/// A point in the log, and the transactions that were under way.
pub type Moment = (LogSequenceNumber, Seq<TransactionId>);

/// The moment of a snapshot.
pub open spec fn moment(snapshot: &Snapshot) -> Moment {
    (snapshot.lsn, snapshot.active_txns@)
}

/// The moment of a snapshot, if there is one.
pub open spec fn moment_of(snapshot: Option<&Snapshot>) -> Option<Moment> {
    match snapshot {
        Some(s) => Some(moment(s)),
        None => None,
    }
}

impl PostingView {
    /// A snapshot at that moment sees the posting.
    pub open spec fn seen_at(self, at: Moment) -> bool {
        match find_visible(self.versions, at.0, at.1) {
            Some(v) => v != tombstone_marker(),
            None => false,
        }
    }

    /// The posting counts: it is seen, or nobody asks.
    pub open spec fn counts(self, at: Option<Moment>) -> bool {
        match at {
            Some(m) => self.seen_at(m),
            None => true,
        }
    }

    /// The posting with a new version in front.
    pub open spec fn with_version(
        self,
        positions: Seq<usize>,
        boost: u32,
        tx: TransactionId,
    ) -> PostingView {
        PostingView {
            positions,
            boost,
            versions: seq![pending(positions_record(positions, boost), tx)] + self.versions,
            ..self
        }
    }

    /// The posting marked as deleted.
    pub open spec fn with_tombstone(self, tx: TransactionId) -> PostingView {
        PostingView {
            versions: seq![pending(tombstone_marker(), tx)] + self.versions,
            ..self
        }
    }

    /// The posting with its pending versions committed.
    pub open spec fn committed(self, lsn: LogSequenceNumber) -> PostingView {
        PostingView { versions: commit_pending(self.versions, lsn), ..self }
    }

    /// The posting without the versions that no reader from `min` on sees.
    pub open spec fn vacuumed(self, min: LogSequenceNumber) -> PostingView {
        PostingView { versions: vacuumed(self.versions, min), ..self }
    }
}

impl PostingEntry {
    /// A posting with one pending version.
    pub fn new(
        doc_id: Vec<u8>,
        field: String,
        positions: Vec<usize>,
        boost: u32,
        tx_id: TransactionId,
    ) -> (r: Self)
        ensures
            r@ == (PostingView {
                doc_id: doc_id@,
                field: field@,
                positions: positions@,
                boost,
                versions: seq![pending(positions_record(positions@, boost), tx_id)],
            }),
    {
        let value = write_positions(&positions, boost);
        let version_chain = VersionChain::new(value, tx_id);
        PostingEntry { doc_id, field, positions, boost, version_chain }
    }

    /// Whether the snapshot sees the posting: the version that it sees marks no deletion.
    pub fn is_visible(&self, snapshot: &Snapshot) -> (r: bool)
        ensures
            r == self@.seen_at(moment(snapshot)),
    {
        match self.version_chain.find_visible_version(snapshot) {
            Some(value) => {
                let marked: bool = value.len() == 1 && value[0] == 0xFF;
                assert(marked == (value@ =~= tombstone_marker()));
                !marked
            },
            None => false,
        }
    }

    /// Whether the newest version marks a deletion, committed or not.
    pub fn is_deleted(&self) -> (r: bool)
        ensures
            r == (self@.versions[0].value == tombstone_marker()),
            self@.versions.len() > 0,
    {
        proof {
            self.version_chain.lemma_view();
        }
        let value = &self.version_chain.value;
        let marked: bool = value.len() == 1 && value[0] == 0xFF;
        assert(marked == (value@ =~= tombstone_marker()));
        marked
    }

    /// Commits the newest version.
    pub fn commit(&mut self, lsn: LogSequenceNumber)
        ensures
            final(self)@ == (PostingView {
                versions: commit_head(old(self)@.versions, lsn),
                ..old(self)@
            }),
    {
        self.version_chain.commit(lsn);
    }

    /// Commits all pending versions.
    pub fn commit_pending(&mut self, lsn: LogSequenceNumber)
        ensures
            final(self)@ == old(self)@.committed(lsn),
    {
        self.version_chain.commit_all_uncommitted(lsn);
    }

    fn push(&mut self, value: Vec<u8>, tx_id: TransactionId)
        ensures
            final(self)@ == (PostingView {
                versions: seq![pending(value@, tx_id)] + old(self)@.versions,
                ..old(self)@
            }),
    {
        let mut chain = VersionChain::new(Vec::new(), tx_id);
        core::mem::swap(&mut chain, &mut self.version_chain);
        self.version_chain = chain.prepend(value, tx_id);
    }

    /// Adds a pending version with new positions and boost.
    pub fn prepend_version(&mut self, positions: Vec<usize>, boost: u32, tx_id: TransactionId)
        ensures
            final(self)@ == old(self)@.with_version(positions@, boost, tx_id),
    {
        let value = write_positions(&positions, boost);
        self.push(value, tx_id);
        self.positions = positions;
        self.boost = boost;
    }

    /// Adds a pending version that marks the posting as deleted.
    pub fn prepend_tombstone(&mut self, tx_id: TransactionId)
        ensures
            final(self)@ == old(self)@.with_tombstone(tx_id),
    {
        let mut marker: Vec<u8> = Vec::new();
        marker.push(0xFF);
        assert(marker@ =~= tombstone_marker());
        self.push(marker, tx_id);
    }

    /// Drops the versions that no reader from `min_visible_lsn` on sees, but for one base
    /// version. Returns how many went.
    pub fn vacuum(&mut self, min_visible_lsn: LogSequenceNumber) -> (r: usize)
        ensures
            final(self)@ == old(self)@.vacuumed(min_visible_lsn),
            r as int == saturated(
                old(self)@.versions.len() - final(self)@.versions.len(),
            ),
    {
        self.version_chain.vacuum(min_visible_lsn)
    }
}

/// The postings of a term.
#[derive(Debug)]
pub struct PostingList {
    pub entries: Vec<PostingEntry>,
}

impl View for PostingList {
    type V = Seq<PostingView>;

    open spec fn view(&self) -> Seq<PostingView> {
        Seq::new(self.entries@.len(), |i: int| self.entries@[i]@)
    }
}

impl Default for PostingList {
    fn default() -> (r: Self)
        ensures
            r@ == Seq::<PostingView>::empty(),
    {
        Self::new()
    }
}

/// The first posting of a field of a document, or the number of postings.
pub open spec fn posting_index(list: Seq<PostingView>, doc: Seq<u8>, field: Seq<char>) -> int
    decreases list.len(),
{
    if list.len() == 0 {
        0
    } else if list[0].doc_id == doc && list[0].field == field {
        0
    } else {
        1 + posting_index(list.drop_first(), doc, field)
    }
}

/// The postings of other documents.
pub open spec fn without_document(list: Seq<PostingView>, doc: Seq<u8>) -> Seq<PostingView>
    decreases list.len(),
{
    if list.len() == 0 {
        Seq::empty()
    } else {
        let before = without_document(list.drop_last(), doc);
        if list.last().doc_id == doc {
            before
        } else {
            before.push(list.last())
        }
    }
}

/// The number of postings that count.
pub open spec fn count_of(list: Seq<PostingView>, at: Option<Moment>) -> int
    decreases list.len(),
{
    if list.len() == 0 {
        0
    } else {
        count_of(list.drop_last(), at) + (if list.last().counts(at) {
            1int
        } else {
            0int
        })
    }
}

/// The number of versions of all postings.
pub open spec fn versions_in(list: Seq<PostingView>) -> int
    decreases list.len(),
{
    if list.len() == 0 {
        0
    } else {
        versions_in(list.drop_last()) + list.last().versions.len()
    }
}

/// The postings after a deletion of a document.
pub open spec fn with_tombstones(list: Seq<PostingView>, doc: Seq<u8>, tx: TransactionId) -> Seq<
    PostingView,
> {
    list.map_values(
        |e: PostingView|
            if e.doc_id == doc {
                e.with_tombstone(tx)
            } else {
                e
            },
    )
}

/// The postings with their pending versions committed.
pub open spec fn with_commits(list: Seq<PostingView>, lsn: LogSequenceNumber) -> Seq<PostingView> {
    list.map_values(|e: PostingView| e.committed(lsn))
}

/// The postings without the versions that no reader from `min` on sees.
pub open spec fn with_vacuums(list: Seq<PostingView>, min: LogSequenceNumber) -> Seq<PostingView> {
    list.map_values(|e: PostingView| e.vacuumed(min))
}

/// The position that a new occurrence adds, if positions are kept.
pub open spec fn one_position(keep: bool, position: usize) -> Seq<usize> {
    if keep {
        seq![position]
    } else {
        Seq::empty()
    }
}

/// The positions that a new occurrence is added to: those of the posting, none where it was deleted.
pub open spec fn positions_before(e: PostingView) -> Seq<usize> {
    if e.versions.len() > 0 && e.versions[0].value == tombstone_marker() {
        Seq::empty()
    } else {
        e.positions
    }
}

/// The newest version of a posting is a pending one of transaction `tx` that marks no deletion.
pub open spec fn is_fresh(e: PostingView, tx: TransactionId) -> bool {
    &&& e.versions.len() > 0
    &&& e.versions[0] == pending(e.versions[0].value, tx)
    &&& e.versions[0].value != tombstone_marker()
}

/// A record of positions marks no deletion.
pub proof fn law_positions_mark_no_deletion(positions: Seq<usize>, boost: u32)
    ensures
        positions_record(positions, boost) != tombstone_marker(),
{
    lemma_positions_len(positions, boost);
}

/// The postings after an occurrence of the term was added.
pub open spec fn with_occurrence(
    list: Seq<PostingView>,
    doc: Seq<u8>,
    field: Seq<char>,
    position: usize,
    boost: u32,
    tx: TransactionId,
    keep: bool,
) -> Seq<PostingView> {
    let i = posting_index(list, doc, field);
    if i < list.len() {
        list.update(
            i,
            list[i].with_version(
                positions_before(list[i]) + one_position(keep, position),
                boost,
                tx,
            ),
        )
    } else {
        list.push(
            PostingView {
                doc_id: doc,
                field,
                positions: one_position(keep, position),
                boost,
                versions: seq![
                    pending(positions_record(one_position(keep, position), boost), tx),
                ],
            },
        )
    }
}

impl PostingList {
    /// No postings.
    pub fn new() -> (r: Self)
        ensures
            r@ == Seq::<PostingView>::empty(),
    {
        let r = PostingList { entries: Vec::new() };
        assert(r@ =~= Seq::<PostingView>::empty());
        r
    }

    /// Adds a posting.
    pub fn add(&mut self, entry: PostingEntry)
        ensures
            final(self)@ == old(self)@.push(entry@),
    {
        self.entries.push(entry);
        assert(self@ =~= old(self)@.push(entry@));
    }

    /// Removes all postings of a document.
    pub fn remove_document(&mut self, doc_id: &[u8])
        ensures
            final(self)@ == without_document(old(self)@, doc_id@),
    {
        let ghost all = self.entries@;
        let ghost list = self@;
        let mut rest: Vec<PostingEntry> = Vec::new();
        core::mem::swap(&mut rest, &mut self.entries);
        assert(rest@ =~= all);
        let n: usize = rest.len();
        let mut i: usize = 0;
        assert(all.skip(0) =~= all);
        assert(list.take(0) =~= Seq::empty());
        assert(self@ =~= without_document(list.take(0), doc_id@));
        while i < n
            invariant
                i <= n == all.len() == list.len(),
                rest@ == all.skip(i as int),
                forall|j: int| 0 <= j < n ==> #[trigger] list[j] == all[j]@,
                self@ == without_document(list.take(i as int), doc_id@),
            decreases n - i,
        {
            let ghost before = self@;
            let entry = rest.remove(0);
            proof {
                assert(all.skip(i as int).remove(0) =~= all.skip(i + 1));
                assert(entry@ == list[i as int]);
                assert(list.take(i + 1).drop_last() =~= list.take(i as int));
                assert(list.take(i + 1).last() == list[i as int]);
            }
            if !bytes_equal(entry.doc_id.as_slice(), doc_id) {
                self.add(entry);
            }
            i += 1;
        }
        assert(list.take(n as int) =~= list);
    }

    /// The number of postings that the snapshot sees, or of all.
    pub fn doc_freq(&self, snapshot: Option<&Snapshot>) -> (r: usize)
        ensures
            r == count_of(self@, moment_of(snapshot)),
            r <= self.entries@.len(),
    {
        let ghost list = self@;
        let ghost at = moment_of(snapshot);
        let mut count: usize = 0;
        let mut i: usize = 0;
        assert(list.take(0) =~= Seq::empty());
        while i < self.entries.len()
            invariant
                i <= self.entries@.len(),
                list == self@,
                at == moment_of(snapshot),
                count == count_of(list.take(i as int), at),
                count <= i,
            decreases self.entries@.len() - i,
        {
            proof {
                assert(list.take(i + 1).drop_last() =~= list.take(i as int));
                assert(list.take(i + 1).last() == list[i as int]);
            }
            let counts: bool = match snapshot {
                Some(s) => self.entries[i].is_visible(s),
                None => true,
            };
            if counts {
                count += 1;
            }
            i += 1;
        }
        assert(list.take(i as int) =~= list);
        count
    }

    /// Whether there are no postings.
    pub fn is_empty(&self) -> (r: bool)
        ensures
            r == (self@.len() == 0),
    {
        self.entries.len() == 0
    }

    /// Commits all pending versions.
    pub fn commit_versions(&mut self, lsn: LogSequenceNumber)
        ensures
            final(self)@ == with_commits(old(self)@, lsn),
    {
        let n: usize = self.entries.len();
        let mut i: usize = 0;
        while i < n
            invariant
                i <= n == self.entries@.len() == old(self).entries@.len(),
                forall|j: int|
                    0 <= j < i ==> (#[trigger] self.entries@[j])@ == old(self).entries@[j]@.committed(lsn),
                forall|j: int| i <= j < n ==> #[trigger] self.entries@[j] == old(self).entries@[j],
            decreases n - i,
        {
            self.entries[i].commit_pending(lsn);
            i += 1;
        }
        assert(self@ =~= with_commits(old(self)@, lsn));
    }

    /// Marks all postings of a document as deleted.
    pub fn delete_document(&mut self, doc_id: &[u8], tx_id: TransactionId)
        ensures
            final(self)@ == with_tombstones(old(self)@, doc_id@, tx_id),
    {
        let n: usize = self.entries.len();
        let mut i: usize = 0;
        while i < n
            invariant
                i <= n == self.entries@.len() == old(self).entries@.len(),
                forall|j: int|
                    0 <= j < i ==> (#[trigger] self.entries@[j])@ == (if old(self).entries@[j]@.doc_id == doc_id@ {
                        old(self).entries@[j]@.with_tombstone(tx_id)
                    } else {
                        old(self).entries@[j]@
                    }),
                forall|j: int| i <= j < n ==> #[trigger] self.entries@[j] == old(self).entries@[j],
            decreases n - i,
        {
            if bytes_equal(self.entries[i].doc_id.as_slice(), doc_id) {
                self.entries[i].prepend_tombstone(tx_id);
            }
            i += 1;
        }
        assert(self@ =~= with_tombstones(old(self)@, doc_id@, tx_id));
    }

    /// Drops the versions that no reader from `min_visible_lsn` on sees, but for one base
    /// version per posting. Returns how many went.
    pub fn vacuum(&mut self, min_visible_lsn: LogSequenceNumber) -> (r: usize)
        ensures
            final(self)@ == with_vacuums(old(self)@, min_visible_lsn),
            r as int == saturated(versions_in(old(self)@) - versions_in(final(self)@)),
            versions_in(final(self)@) <= versions_in(old(self)@),
    {
        let ghost list = self@;
        let ghost done = with_vacuums(list, min_visible_lsn);
        let n: usize = self.entries.len();
        let mut i: usize = 0;
        let mut removed: usize = 0;
        assert(list.take(0) =~= Seq::empty());
        assert(done.take(0) =~= Seq::empty());
        while i < n
            invariant
                i <= n == self.entries@.len() == old(self).entries@.len() == list.len()
                    == done.len(),
                forall|j: int| 0 <= j < n ==> #[trigger] list[j] == old(self).entries@[j]@,
                forall|j: int| 0 <= j < n ==> #[trigger] done[j] == list[j].vacuumed(min_visible_lsn),
                forall|j: int| 0 <= j < i ==> (#[trigger] self.entries@[j])@ == done[j],
                forall|j: int| i <= j < n ==> #[trigger] self.entries@[j] == old(self).entries@[j],
                removed as int == saturated(
                    versions_in(list.take(i as int)) - versions_in(done.take(i as int)),
                ),
                versions_in(done.take(i as int)) <= versions_in(list.take(i as int)),
            decreases n - i,
        {
            proof {
                assert(list.take(i + 1).drop_last() =~= list.take(i as int));
                assert(list.take(i + 1).last() == list[i as int]);
                assert(done.take(i + 1).drop_last() =~= done.take(i as int));
                assert(done.take(i + 1).last() == done[i as int]);
                lemma_vacuumed_len(list[i as int].versions, min_visible_lsn);
                assert(self.entries@[i as int] == old(self).entries@[i as int]);
            }
            let count: usize = self.entries[i].vacuum(min_visible_lsn);
            removed = removed.saturating_add(count);
            i += 1;
        }
        proof {
            assert(self@ =~= done);
            assert(list.take(n as int) =~= list);
            assert(done.take(n as int) =~= done);
        }
        removed
    }

    fn find(&self, doc_id: &[u8], field: &String) -> (r: usize)
        ensures
            r == posting_index(self@, doc_id@, field@),
            r <= self.entries@.len(),
    {
        let ghost list = self@;
        let mut i: usize = 0;
        assert(list.skip(0) =~= list);
        while i < self.entries.len()
            invariant
                i <= self.entries@.len(),
                list == self@,
                posting_index(list, doc_id@, field@) == i + posting_index(
                    list.skip(i as int),
                    doc_id@,
                    field@,
                ),
            decreases self.entries@.len() - i,
        {
            proof {
                assert(list.skip(i as int)[0] == list[i as int]);
                assert(list.skip(i as int).drop_first() =~= list.skip(i + 1));
            }
            if bytes_equal(self.entries[i].doc_id.as_slice(), doc_id) && self.entries[i].field
                == *field {
                return i;
            }
            i += 1;
        }
        assert(list.skip(i as int) =~= Seq::empty());
        i
    }

    /// Adds an occurrence of the term: a new version of the posting of that field and document,
    /// or a new posting.
    pub fn add_occurrence(
        &mut self,
        doc_id: &[u8],
        field: String,
        position: usize,
        boost: u32,
        tx_id: TransactionId,
        keep_positions: bool,
    )
        ensures
            final(self)@ == with_occurrence(
                old(self)@,
                doc_id@,
                field@,
                position,
                boost,
                tx_id,
                keep_positions,
            ),
            is_fresh(final(self)@[posting_index(old(self)@, doc_id@, field@)], tx_id),
    {
        let at: usize = self.find(doc_id, &field);
        proof {
            law_occurrence_is_fresh(
                self@,
                doc_id@,
                field@,
                position,
                boost,
                tx_id,
                keep_positions,
            );
        }
        if at < self.entries.len() {
            let mut positions: Vec<usize> = Vec::new();
            let ghost old_positions = positions_before(self@[at as int]);
            if !self.entries[at].is_deleted() {
                let n: usize = self.entries[at].positions.len();
                let mut i: usize = 0;
                assert(old_positions =~= self.entries@[at as int].positions@);
                while i < n
                    invariant
                        at < self.entries@.len(),
                        *self == *old(self),
                        old_positions == self.entries@[at as int].positions@,
                        i <= n == old_positions.len(),
                        positions@ == old_positions.take(i as int),
                    decreases n - i,
                {
                    positions.push(self.entries[at].positions[i]);
                    i += 1;
                    assert(old_positions.take(i as int) =~= old_positions.take(i - 1).push(
                        old_positions[i - 1],
                    ));
                }
                assert(old_positions.take(n as int) =~= old_positions);
            }
            if keep_positions {
                positions.push(position);
            }
            assert(positions@ =~= old_positions + one_position(keep_positions, position));
            self.entries[at].prepend_version(positions, boost, tx_id);
            assert(self@ =~= with_occurrence(
                old(self)@,
                doc_id@,
                field@,
                position,
                boost,
                tx_id,
                keep_positions,
            ));
        } else {
            let mut positions: Vec<usize> = Vec::new();
            if keep_positions {
                positions.push(position);
            }
            assert(positions@ =~= one_position(keep_positions, position));
            self.add(PostingEntry::new(copy_bytes(doc_id), field, positions, boost, tx_id));
        }
    }
}

/// A document as it is kept.
#[derive(Debug)]
pub struct DocumentEntry {
    pub doc_id: Vec<u8>,
    /// The names and texts of its fields.
    pub fields: Vec<(String, String)>,
}

/// A vacuum up to `min` keeps what every later snapshot sees, as long as the snapshot hides no
/// transaction that committed before `min`: the same postings are seen, with the same places and
/// weights.
pub proof fn law_vacuum_keeps_postings(
    list: Seq<PostingView>,
    min: LogSequenceNumber,
    at: Moment,
    i: int,
)
    requires
        0 <= i < list.len(),
        at.0.0 >= min.0,
        forall|j: int|
            0 <= j < list[i].versions.len() && is_old(#[trigger] list[i].versions[j], min)
                ==> !at.1.contains(list[i].versions[j].created_by),
    ensures
        with_vacuums(list, min).len() == list.len(),
        with_vacuums(list, min)[i].seen_at(at) == list[i].seen_at(at),
        with_vacuums(list, min)[i] == (PostingView {
            versions: with_vacuums(list, min)[i].versions,
            ..list[i]
        }),
{
    lemma_vacuum_keeps_reads(list[i].versions, min, at.0, at.1);
}

/// Once a deletion is committed, no posting of the document is seen any more from then on.
pub proof fn law_deleted_document_is_hidden(
    list: Seq<PostingView>,
    doc: Seq<u8>,
    tx: TransactionId,
    at: LogSequenceNumber,
    reader: Moment,
    i: int,
)
    requires
        0 <= i < list.len(),
        list[i].doc_id == doc,
        at.0 <= reader.0.0,
        !reader.1.contains(tx),
    ensures
        !with_commits(with_tombstones(list, doc, tx), at)[i].seen_at(reader),
{
    let e = with_tombstones(list, doc, tx)[i];
    let c = with_commits(with_tombstones(list, doc, tx), at)[i];
    assert(e.versions[0] == pending(tombstone_marker(), tx));
    assert(c.versions[0] == crate::txn::committed(pending(tombstone_marker(), tx), at));
}

/// A deletion hides nothing from snapshots before its commit: a posting of committed versions is
/// seen there as it was.
pub proof fn law_deletion_keeps_the_past(
    list: Seq<PostingView>,
    doc: Seq<u8>,
    tx: TransactionId,
    at: LogSequenceNumber,
    reader: Moment,
    i: int,
)
    requires
        0 <= i < list.len(),
        list[i].doc_id == doc,
        reader.0.0 < at.0,
        forall|k: int|
            0 <= k < list[i].versions.len() ==> (#[trigger] list[i].versions[k]).commit_lsn is Some,
    ensures
        with_commits(with_tombstones(list, doc, tx), at)[i].seen_at(reader) == list[i].seen_at(reader),
{
    let e = with_tombstones(list, doc, tx)[i];
    let c = with_commits(with_tombstones(list, doc, tx), at)[i];
    let marker = crate::txn::committed(pending(tombstone_marker(), tx), at);
    assert(commit_pending(list[i].versions, at) =~= list[i].versions);
    assert(e.versions.drop_first() =~= list[i].versions);
    assert(c.versions[0] == marker);
    assert(c.versions =~= seq![marker] + list[i].versions);
    assert(c.versions.drop_first() =~= list[i].versions);
}

/// An occurrence is noted as a version that marks no deletion.
pub proof fn law_occurrence_is_fresh(
    list: Seq<PostingView>,
    doc: Seq<u8>,
    field: Seq<char>,
    position: usize,
    boost: u32,
    tx: TransactionId,
    keep: bool,
)
    ensures
        ({
            let i = posting_index(list, doc, field);
            let added = with_occurrence(list, doc, field, position, boost, tx, keep);
            &&& 0 <= i < added.len()
            &&& added[i].doc_id == doc
            &&& added[i].field == field
            &&& is_fresh(added[i], tx)
        }),
{
    lemma_posting_index(list, doc, field);
    let i = posting_index(list, doc, field);
    let added = with_occurrence(list, doc, field, position, boost, tx, keep);
    law_positions_mark_no_deletion(added[i].positions, boost);
    assert(added[i].versions[0] == pending(positions_record(added[i].positions, boost), tx));
}

/// Once a version that marks no deletion is committed, its posting is seen from then on.
pub proof fn law_fresh_posting_is_seen(
    e: PostingView,
    tx: TransactionId,
    at: LogSequenceNumber,
    reader: Moment,
)
    requires
        is_fresh(e, tx),
        at.0 <= reader.0.0,
        !reader.1.contains(tx),
    ensures
        e.committed(at).seen_at(reader),
{
    assert(e.committed(at).versions[0] == crate::txn::committed(e.versions[0], at));
}

pub proof fn lemma_posting_index(list: Seq<PostingView>, doc: Seq<u8>, field: Seq<char>)
    ensures
        0 <= posting_index(list, doc, field) <= list.len(),
        posting_index(list, doc, field) < list.len() ==> list[posting_index(
            list,
            doc,
            field,
        )].doc_id == doc && list[posting_index(list, doc, field)].field == field,
    decreases list.len(),
{
    if list.len() > 0 && !(list[0].doc_id == doc && list[0].field == field) {
        lemma_posting_index(list.drop_first(), doc, field);
    }
}

/// The first posting of a field of a document is the one that no other comes before.
pub proof fn law_first_posting(list: Seq<PostingView>, doc: Seq<u8>, field: Seq<char>, i: int)
    requires
        0 <= i <= list.len(),
        i < list.len() ==> list[i].doc_id == doc && list[i].field == field,
        forall|j: int|
            0 <= j < i ==> (#[trigger] list[j]).doc_id != doc || list[j].field != field,
    ensures
        posting_index(list, doc, field) == i,
    decreases list.len(),
{
    if i > 0 {
        assert(list[0].doc_id != doc || list[0].field != field);
        let rest = list.drop_first();
        assert forall|j: int| 0 <= j < i - 1 implies (#[trigger] rest[j]).doc_id != doc
            || rest[j].field != field by {
            assert(rest[j] == list[j + 1]);
        }
        law_first_posting(rest, doc, field, i - 1);
    }
}

proof fn lemma_none_before(list: Seq<PostingView>, doc: Seq<u8>, field: Seq<char>, j: int)
    requires
        0 <= j < posting_index(list, doc, field),
    ensures
        list[j].doc_id != doc || list[j].field != field,
    decreases list.len(),
{
    if list.len() > 0 && j > 0 {
        let rest = list.drop_first();
        lemma_posting_index(rest, doc, field);
        lemma_none_before(rest, doc, field, j - 1);
        assert(rest[j - 1] == list[j]);
    }
}

/// Another occurrence leaves the posting of the field where it stands, or puts it at the end.
pub proof fn lemma_occurrence_keeps_place(
    list: Seq<PostingView>,
    doc: Seq<u8>,
    field: Seq<char>,
    position: usize,
    boost: u32,
    tx: TransactionId,
    keep: bool,
)
    ensures
        posting_index(
            with_occurrence(list, doc, field, position, boost, tx, keep),
            doc,
            field,
        ) == posting_index(list, doc, field),
{
    let i = posting_index(list, doc, field);
    let after = with_occurrence(list, doc, field, position, boost, tx, keep);
    lemma_posting_index(list, doc, field);
    assert forall|j: int| 0 <= j < i implies (#[trigger] after[j]).doc_id != doc || after[j].field
        != field by {
        lemma_none_before(list, doc, field, j);
    }
    law_first_posting(after, doc, field, i);
}

/// The versions of all postings are counted.
pub proof fn law_every_version_is_counted(list: Seq<PostingView>)
    ensures
        versions_in(list) == list.map_values(|e: PostingView| e.versions).flatten().len(),
    decreases list.len(),
{
    let versions = |e: PostingView| e.versions;
    if list.len() > 0 {
        let rest = list.drop_last();
        law_every_version_is_counted(rest);
        assert(list.map_values(versions) =~= rest.map_values(versions).push(list.last().versions));
        rest.map_values(versions).lemma_flatten_push(list.last().versions);
    } else {
        assert(list.map_values(versions) =~= Seq::empty());
    }
}

/// The postings of other documents are all that stays without a document, in their order.
pub proof fn law_other_documents_stay(list: Seq<PostingView>, doc: Seq<u8>)
    ensures
        without_document(list, doc) == list.filter(|e: PostingView| e.doc_id != doc),
    decreases list.len(),
{
    reveal(Seq::filter);
    if list.len() > 0 {
        law_other_documents_stay(list.drop_last(), doc);
    } else {
        assert(list =~= Seq::empty());
    }
}

/// The number of postings that count is that of the postings a reader sees; where no moment is
/// given, it is that of all.
pub proof fn law_counted_postings(list: Seq<PostingView>, at: Moment)
    ensures
        count_of(list, Some(at)) == list.filter(
            |e: PostingView|
                find_visible(e.versions, at.0, at.1) is Some && find_visible(
                    e.versions,
                    at.0,
                    at.1,
                ) != Some(seq![0xFFu8]),
        ).len(),
        count_of(list, None) == list.len(),
    decreases list.len(),
{
    reveal(Seq::filter);
    if list.len() > 0 {
        law_counted_postings(list.drop_last(), at);
    }
}

} // verus!
