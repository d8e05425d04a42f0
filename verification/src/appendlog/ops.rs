//! Reading and writing an append log.
use crate::appendlog::config::RetentionPolicy;
use crate::appendlog::log::{
    dropped, insert_segment, is_lost, kept, lemma_kept, lost_keys, segments_ascend, views,
    with_segment, AppendLog,
};
use crate::appendlog::segment::{
    entry_bytes, entry_len, pages_kept, Segment, SegmentId, SegmentMetadata, SegmentView,
};
use crate::bytes::copy_bytes;
use crate::mvcc::{
    chain_of, read, snapshot_read, unless_tombstone, version_total, with_delete, with_put,
    with_vacuum,
    Chains,
};
use crate::pager::{Page, PageId, PageSize, PageType, PageView, Pager, PagerError};
use crate::snap::Snapshot;
use crate::table::{TableError, TableResult};
use crate::txn::{commit_of, saturated, Version};
use crate::types::{value_view, LogSequenceNumber, TransactionId, ValueBuf};
use vstd::prelude::*;

verus! {

fn is_dropped(segment: &Segment, policy: &RetentionPolicy, now: u64, i: usize, len: usize, Ghost(
    s,
): Ghost<Seq<SegmentView>>) -> (r: bool)
    requires
        i < len == s.len(),
        s[i as int] == segment@,
    ensures
        r == dropped(s, *policy, now, i as int),
{
    match policy {
        RetentionPolicy::KeepAll => false,
        RetentionPolicy::MaxSegments(max) => len > *max && i < len - *max,
        RetentionPolicy::MaxAge(d) => {
            let limit: u64 = if now >= d.secs {
                now - d.secs
            } else {
                0
            };
            segment.metadata.created_at < limit
        },
    }
}

proof fn lemma_named_push(keys: Seq<Vec<u8>>, x: Vec<u8>, k: Seq<u8>)
    ensures
        named(keys.push(x), keys.len() as int + 1, k) <==> named(keys, keys.len() as int, k) || k
            == x@,
{
    let after = keys.push(x);
    if named(keys, keys.len() as int, k) {
        let a = choose|a: int| 0 <= a < keys.len() && (#[trigger] keys[a])@ == k;
        assert(after[a]@ == k);
    }
    if k == x@ {
        assert(after[keys.len() as int]@ == k);
    }
    if named(after, after.len() as int, k) {
        let a = choose|a: int| 0 <= a < after.len() && (#[trigger] after[a])@ == k;
        if a < keys.len() {
            assert(keys[a]@ == k);
        }
    }
}

fn among(ids: &Vec<SegmentId>, id: SegmentId) -> (r: bool)
    ensures
        r == ids@.contains(id),
{
    let mut i: usize = 0;
    while i < ids.len()
        invariant
            i <= ids@.len(),
            forall|k: int| 0 <= k < i ==> #[trigger] ids@[k] != id,
        decreases ids@.len() - i,
    {
        if ids[i] == id {
            assert(ids@[i as int] == id);
            return true;
        }
        i += 1;
    }
    false
}

/// The map without some keys.
pub open spec fn without<V>(m: Map<Seq<u8>, V>, keys: Set<Seq<u8>>) -> Map<Seq<u8>, V> {
    m.remove_keys(keys)
}

/// The key is among the first `n`.
spec fn named(keys: Seq<Vec<u8>>, n: int, k: Seq<u8>) -> bool {
    exists|a: int| 0 <= a < n && (#[trigger] keys[a])@ == k
}

impl AppendLog {
    /// Forgets the keys whose newest entry stands in one of the segments.
    fn forget_segments(&mut self, lost: &Vec<SegmentId>)
        requires
            old(self).index.wf(),
            old(self).versions.wf(),
            old(self).index@.dom() == old(self).versions@.dom(),
        ensures
            ({
                let gone = Set::new(
                    |k: Seq<u8>|
                        old(self).index@.contains_key(k) && lost@.contains(old(self).index@[k].0),
                );
                &&& final(self).index@ == without(old(self).index@, gone)
                &&& final(self).chains() == without(old(self).chains(), gone)
            }),
            final(self).index.wf(),
            final(self).versions.wf(),
            final(self).index@.dom() == final(self).versions@.dom(),
            final(self).same_identity(old(self)),
            final(self).active_segment == old(self).active_segment,
            final(self).immutable_segments == old(self).immutable_segments,
            final(self).next_segment_id == old(self).next_segment_id,
            final(self).entry_count == old(self).entry_count,
            final(self).total_size == old(self).total_size,
    {
        let ghost index0 = self.index@;
        let ghost chains0 = self.chains();
        let ghost gone = Set::new(
            |k: Seq<u8>| index0.contains_key(k) && lost@.contains(index0[k].0),
        );
        let mut doomed: Vec<Vec<u8>> = Vec::new();
        let ghost mut names: Set<Seq<u8>> = Set::empty();
        let mut i: usize = 0;
        let n: usize = self.index.entries.len();
        while i < n
            invariant
                n == self.index.entries@.len(),
                *self == *old(self),
                self.index.wf(),
                index0 == self.index@,
                i <= n,
                forall|j: int| 0 <= j < doomed@.len() ==> names.contains(
                    (#[trigger] doomed@[j])@,
                ),
                forall|k: Seq<u8>| #[trigger]
                    names.contains(k) <==> named(doomed@, doomed@.len() as int, k),
                forall|k: Seq<u8>| #[trigger]
                    names.contains(k) <==> exists|j: int|
                        0 <= j < i && #[trigger] self.index.keys()[j] == k && lost@.contains(
                            index0[k].0,
                        ),
            decreases n - i,
        {
            let ghost names0 = names;
            let ghost doomed0 = doomed@;
            proof {
                self.index.lemma_entry(i as int);
            }
            let ghost key = self.index.keys()[i as int];
            if among(lost, self.index.entries[i].1.0) {
                doomed.push(copy_bytes(self.index.entries[i].0.as_slice()));
                proof {
                    names = names.insert(key);
                    assert forall|k: Seq<u8>| #[trigger] names.contains(k) <==> named(
                        doomed@,
                        doomed@.len() as int,
                        k,
                    ) by {
                        lemma_named_push(doomed0, doomed@.last(), k);
                        assert(doomed@ =~= doomed0.push(doomed@.last()));
                    }
                }
            }
            proof {
                assert forall|k: Seq<u8>| #[trigger]
                    names.contains(k) <==> exists|j: int|
                        0 <= j < i + 1 && #[trigger] self.index.keys()[j] == k && lost@.contains(
                            index0[k].0,
                        ) by {
                    if names0.contains(k) {
                        let j = choose|j: int|
                            0 <= j < i && #[trigger] self.index.keys()[j] == k && lost@.contains(
                                index0[k].0,
                            );
                        assert(self.index.keys()[j] == k);
                    }
                    if exists|j: int|
                        0 <= j < i + 1 && #[trigger] self.index.keys()[j] == k && lost@.contains(
                            index0[k].0,
                        ) {
                        let j = choose|j: int|
                            0 <= j < i + 1 && #[trigger] self.index.keys()[j] == k
                                && lost@.contains(index0[k].0);
                        if j < i {
                            assert(names0.contains(k));
                        }
                    }
                }
            }
            i += 1;
        }
        proof {
            assert forall|k: Seq<u8>| #[trigger] names.contains(k) <==> gone.contains(k) by {
                if names.contains(k) {
                    let j = choose|j: int|
                        0 <= j < i && #[trigger] self.index.keys()[j] == k && lost@.contains(
                            index0[k].0,
                        );
                    self.index.lemma_entry(j);
                }
                if gone.contains(k) {
                    let j = self.index.lemma_key(k);
                    assert(self.index.keys()[j] == k);
                }
            }
            assert(names =~= gone);
        }
        let mut j: usize = 0;
        while j < doomed.len()
            invariant
                j <= doomed@.len(),
                self.index.wf(),
                self.versions.wf(),
                forall|k: Seq<u8>| #[trigger]
                    self.index@.contains_key(k) <==> index0.contains_key(k) && !named(
                        doomed@,
                        j as int,
                        k,
                    ),
                forall|k: Seq<u8>|
                    self.index@.contains_key(k) ==> #[trigger] self.index@[k] == index0[k],
                forall|k: Seq<u8>| #[trigger]
                    self.versions@.contains_key(k) <==> old(self).versions@.contains_key(k)
                        && !named(doomed@, j as int, k),
                forall|k: Seq<u8>|
                    self.versions@.contains_key(k) ==> #[trigger] self.versions@[k] == old(self).versions@[k],
                self.same_identity(old(self)),
                self.active_segment == old(self).active_segment,
                self.immutable_segments == old(self).immutable_segments,
                self.next_segment_id == old(self).next_segment_id,
                self.entry_count == old(self).entry_count,
                self.total_size == old(self).total_size,
            decreases doomed@.len() - j,
        {
            let ghost before = *self;
            let _ = self.index.remove(doomed[j].as_slice());
            let _ = self.versions.remove(doomed[j].as_slice());
            proof {
                assert forall|k: Seq<u8>| #[trigger]
                    named(doomed@, j + 1, k) == (k == doomed@[j as int]@ || named(
                        doomed@,
                        j as int,
                        k,
                    )) by {
                    if k == doomed@[j as int]@ {
                        assert(doomed@[j as int]@ == k);
                    }
                }
            }
            j += 1;
        }
        proof {
            assert forall|k: Seq<u8>| #[trigger]
                gone.contains(k) <==> named(doomed@, j as int, k) by {
                assert(names.contains(k) <==> gone.contains(k));
            }
            assert(self.index@ =~= without(index0, gone));
            assert(self.chains() =~= without(chains0, gone));
            assert(self.index@.dom() =~= self.versions@.dom());
        }
    }

    /// Makes the active segment immutable and starts a new one.
    fn roll_segment(&mut self, pager: &mut Pager, now: u64)
        requires
            old(pager).wf(),
            segments_ascend(views(old(self).immutable_segments@)),
            old(self).next_segment_id.0 < u64::MAX,
        ensures
            final(pager).wf(),
            final(pager).same_meta(old(pager)),
            pages_kept(old(pager).pages(), final(pager).pages()),
            final(self).active_segment.wf(final(pager).pages()),
            final(self).active_segment.metadata == (SegmentMetadata {
                id: old(self).next_segment_id,
                created_at: now,
                entry_count: 0,
                size: 0,
                first_page_id: final(self).active_segment.metadata.first_page_id,
                last_page_id: final(self).active_segment.metadata.first_page_id,
            }),
            final(self).active_segment.write_buffer@.len() == 0,
            final(self).active_segment.flushed_pages@.len() == 0,
            views(final(self).immutable_segments@) == with_segment(
                views(old(self).immutable_segments@),
                old(self).active_segment@,
            ),
            segments_ascend(views(final(self).immutable_segments@)),
            final(self).next_segment_id.0 == old(self).next_segment_id.0 + 1,
            final(self).same_identity(old(self)),
            final(self).index == old(self).index,
            final(self).versions == old(self).versions,
            final(self).entry_count == old(self).entry_count,
            final(self).total_size == old(self).total_size,
    {
        let mut segment = Segment::new(self.next_segment_id, pager, now);
        core::mem::swap(&mut segment, &mut self.active_segment);
        insert_segment(&mut self.immutable_segments, segment);
        self.next_segment_id = SegmentId(self.next_segment_id.0 + 1);
    }

    /// Lets go of the segments that the policy does not keep, and of the keys in them.
    fn apply_retention(&mut self, now: u64)
        requires
            old(self).index.wf(),
            old(self).versions.wf(),
            old(self).index@.dom() == old(self).versions@.dom(),
            segments_ascend(views(old(self).immutable_segments@)),
        ensures
            ({
                let s = views(old(self).immutable_segments@);
                let policy = old(self).config.retention_policy;
                let gone = lost_keys(old(self).index@, s, policy, now);
                &&& views(final(self).immutable_segments@) == kept(s, policy, now, s.len() as int)
                &&& final(self).index@ == without(old(self).index@, gone)
                &&& final(self).chains() == without(old(self).chains(), gone)
            }),
            segments_ascend(views(final(self).immutable_segments@)),
            final(self).index.wf(),
            final(self).versions.wf(),
            final(self).index@.dom() == final(self).versions@.dom(),
            final(self).same_identity(old(self)),
            final(self).active_segment == old(self).active_segment,
            final(self).next_segment_id == old(self).next_segment_id,
            final(self).entry_count == old(self).entry_count,
            final(self).total_size == old(self).total_size,
    {
        let ghost segs = self.immutable_segments@;
        let ghost s = views(segs);
        let policy = self.config.retention_policy;
        let mut rest: Vec<Segment> = Vec::new();
        core::mem::swap(&mut rest, &mut self.immutable_segments);
        let len: usize = rest.len();
        let mut lost: Vec<SegmentId> = Vec::new();
        let mut i: usize = 0;
        assert(segs.skip(0) =~= segs);
        assert(views(self.immutable_segments@) =~= kept(s, policy, now, 0));
        while i < len
            invariant
                i <= len == segs.len() == s.len(),
                s == views(segs),
                rest@ == segs.skip(i as int),
                views(self.immutable_segments@) == kept(s, policy, now, i as int),
                forall|id: SegmentId| #[trigger]
                    lost@.contains(id) <==> exists|j: int|
                        0 <= j < i && (#[trigger] s[j]).metadata.id == id && dropped(
                            s,
                            policy,
                            now,
                            j,
                        ),
                self.index == old(self).index,
                self.versions == old(self).versions,
                self.same_identity(old(self)),
                self.active_segment == old(self).active_segment,
                self.next_segment_id == old(self).next_segment_id,
                self.entry_count == old(self).entry_count,
                self.total_size == old(self).total_size,
            decreases len - i,
        {
            let ghost lost0 = lost@;
            let ghost kept0 = self.immutable_segments@;
            let segment = rest.remove(0);
            proof {
                assert(segs.skip(i as int).remove(0) =~= segs.skip(i + 1));
                assert(segment == segs[i as int]);
                assert(s[i as int] == segment@);
            }
            let ghost x = segment@;
            if is_dropped(&segment, &policy, now, i, len, Ghost(s)) {
                lost.push(segment.metadata.id);
                proof {
                    assert(lost@[lost@.len() - 1] == x.metadata.id);
                    assert forall|id: SegmentId| #[trigger]
                        lost@.contains(id) <==> lost0.contains(id) || id == x.metadata.id by {
                        if lost0.contains(id) {
                            let j = lost0.index_of(id);
                            assert(lost@[j] == id);
                        }
                        if lost@.contains(id) {
                            let j = lost@.index_of(id);
                            if j < lost0.len() {
                                assert(lost0[j] == id);
                            }
                        }
                    }
                }
            } else {
                self.immutable_segments.push(segment);
                assert(views(self.immutable_segments@) =~= views(kept0).push(x));
            }
            proof {
                assert forall|id: SegmentId| #[trigger]
                    lost@.contains(id) <==> exists|j: int|
                        0 <= j < i + 1 && (#[trigger] s[j]).metadata.id == id && dropped(
                            s,
                            policy,
                            now,
                            j,
                        ) by {
                    if lost0.contains(id) {
                        let j = choose|j: int|
                            0 <= j < i && (#[trigger] s[j]).metadata.id == id && dropped(
                                s,
                                policy,
                                now,
                                j,
                            );
                        assert(s[j].metadata.id == id);
                    }
                    if exists|j: int|
                        0 <= j < i + 1 && (#[trigger] s[j]).metadata.id == id && dropped(
                            s,
                            policy,
                            now,
                            j,
                        ) {
                        let j = choose|j: int|
                            0 <= j < i + 1 && (#[trigger] s[j]).metadata.id == id && dropped(
                                s,
                                policy,
                                now,
                                j,
                            );
                        if j < i {
                            assert(lost0.contains(id));
                        }
                    }
                }
            }
            i += 1;
        }
        let ghost mid = *self;
        self.forget_segments(&lost);
        proof {
            lemma_kept(s, policy, now, s.len() as int);
            let gone = lost_keys(old(self).index@, s, policy, now);
            let gone2 = Set::new(
                |k: Seq<u8>| mid.index@.contains_key(k) && lost@.contains(mid.index@[k].0),
            );
            assert forall|k: Seq<u8>| #[trigger] gone.contains(k) <==> gone2.contains(k) by {
                assert(is_lost(s, policy, now, old(self).index@[k].0) <==> lost@.contains(
                    old(self).index@[k].0,
                ));
            }
            assert(gone =~= gone2);
        }
    }

    /// Whether a put first rolls the active segment.
    pub open spec fn rolls(&self) -> bool {
        self.active_segment.metadata.size >= self.config.segment_size
    }

    /// The immutable segments once a put has rolled the active one, before retention.
    pub open spec fn rolled_segments(&self) -> Seq<SegmentView> {
        with_segment(views(self.immutable_segments@), self.active_segment@)
    }

    /// The keys that a put lets go of when it rolls the active segment.
    pub open spec fn forgotten(&self, now: u64) -> Set<Seq<u8>> {
        if self.rolls() {
            lost_keys(self.index@, self.rolled_segments(), self.config.retention_policy, now)
        } else {
            Set::empty()
        }
    }

    /// A put lets go of keys only where the active segment has reached its size. By age, those are
    /// the keys whose newest entry stands in a segment that is too old; by number, those in one
    /// that so many newer segments follow; without a limit, none.
    pub proof fn law_put_forgets_by_policy(&self, now: u64, key: Seq<u8>)
        ensures
            self.active_segment.metadata.size < self.config.segment_size ==> !self.forgotten(
                now,
            ).contains(key),
            self.config.retention_policy == RetentionPolicy::KeepAll ==> !self.forgotten(
                now,
            ).contains(key),
            self.active_segment.metadata.size >= self.config.segment_size ==> (
            self.config.retention_policy matches RetentionPolicy::MaxAge(max) ==> (self.forgotten(
                now,
            ).contains(key) <==> self.index@.contains_key(key) && exists|i: int|
                0 <= i < self.rolled_segments().len() && (
                #[trigger] self.rolled_segments()[i]).metadata.id == self.index@[key].0
                    && self.rolled_segments()[i].metadata.created_at < now - max.secs)),
            self.active_segment.metadata.size >= self.config.segment_size ==> (
            self.config.retention_policy matches RetentionPolicy::MaxSegments(max) ==> (
            self.forgotten(now).contains(key) <==> self.index@.contains_key(key) && exists|i: int|
                0 <= i && i + max < self.rolled_segments().len() && (
                #[trigger] self.rolled_segments()[i]).metadata.id == self.index@[key].0)),
    {
        let s = self.rolled_segments();
        let policy = self.config.retention_policy;
        if self.rolls() && self.index@.contains_key(key) {
            let id = self.index@[key].0;
            match policy {
                RetentionPolicy::KeepAll => {},
                RetentionPolicy::MaxSegments(max) => {
                    if is_lost(s, policy, now, id) {
                        let i = choose|i: int|
                            0 <= i < s.len() && (#[trigger] s[i]).metadata.id == id && dropped(
                                s,
                                policy,
                                now,
                                i,
                            );
                        assert(self.rolled_segments()[i].metadata.id == id);
                    }
                },
                RetentionPolicy::MaxAge(max) => {
                    if is_lost(s, policy, now, id) {
                        let i = choose|i: int|
                            0 <= i < s.len() && (#[trigger] s[i]).metadata.id == id && dropped(
                                s,
                                policy,
                                now,
                                i,
                            );
                        assert(self.rolled_segments()[i].metadata.id == id);
                    }
                },
            }
        }
    }

    /// The size of the active segment when a put appends to it.
    pub open spec fn size_before_put(&self) -> int {
        if self.rolls() {
            0
        } else {
            self.active_segment.metadata.size as int
        }
    }

    /// Appends an entry to the active segment, which is rolled first if it is full, and adds a
    /// pending version to the key. Returns the bytes of key and value.
    pub fn put_tx(
        &mut self,
        pager: &mut Pager,
        key: &[u8],
        value: &[u8],
        tx_id: TransactionId,
        now: u64,
    ) -> (r: TableResult<u64>)
        requires
            old(pager).wf(),
            old(self).wf(old(pager).pages()),
            old(self).rolls() ==> old(self).next_segment_id.0 < u64::MAX,
            !old(self).rolls() ==> old(self).active_segment.metadata.entry_count < u64::MAX,
            old(self).size_before_put() + entry_len(key@, value@) <= u64::MAX,
            old(self).entry_count < u64::MAX,
            old(self).total_size + key@.len() + value@.len() <= u64::MAX,
        ensures
            r == Ok::<u64, TableError>((key@.len() + value@.len()) as u64),
            final(pager).wf(),
            final(pager).same_meta(old(pager)),
            pages_kept(old(pager).pages(), final(pager).pages()),
            final(self).wf(final(pager).pages()),
            final(self).same_identity(old(self)),
            final(self).chains() == with_put(
                without(old(self).chains(), old(self).forgotten(now)),
                key@,
                value@,
                tx_id,
            ),
            final(self).index@ == without(old(self).index@, old(self).forgotten(now)).insert(
                key@,
                (final(self).active_segment.metadata.id, old(self).size_before_put() as u64),
            ),
            views(final(self).immutable_segments@) == (if old(self).rolls() {
                kept(
                    old(self).rolled_segments(),
                    old(self).config.retention_policy,
                    now,
                    old(self).rolled_segments().len() as int,
                )
            } else {
                views(old(self).immutable_segments@)
            }),
            final(self).active_segment.metadata.id == (if old(self).rolls() {
                old(self).next_segment_id
            } else {
                old(self).active_segment.metadata.id
            }),
            final(self).active_segment.metadata.size == old(self).size_before_put() + entry_len(
                key@,
                value@,
            ),
            final(self).active_segment.metadata.entry_count == (if old(self).rolls() {
                1int
            } else {
                old(self).active_segment.metadata.entry_count + 1
            }),
            final(self).active_segment.metadata.created_at == (if old(self).rolls() {
                now
            } else {
                old(self).active_segment.metadata.created_at
            }),
            final(self).active_segment.log(final(pager).pages()) == (if old(self).rolls() {
                entry_bytes(key@, value@)
            } else {
                old(self).active_segment.log(old(pager).pages()) + entry_bytes(key@, value@)
            }),
            final(self).next_segment_id.0 == old(self).next_segment_id.0 + (if old(self).rolls() {
                1int
            } else {
                0int
            }),
            final(self).entry_count == old(self).entry_count + 1,
            final(self).total_size == old(self).total_size + key@.len() + value@.len(),
            old(self).config.retention_policy == RetentionPolicy::KeepAll ==> forall|
                k: Seq<u8>,
                lsn: LogSequenceNumber,
                active: Seq<TransactionId>,
            | #[trigger]
                snapshot_read(final(self).chains(), k, lsn, active) == snapshot_read(
                    old(self).chains(),
                    k,
                    lsn,
                    active,
                ),
    {
        if self.active_segment.size() >= self.config.segment_size {
            self.roll_segment(pager, now);
            self.apply_retention(now);
            proof {
                let l = self.active_segment.log(pager.pages());
                assert(l =~= Seq::empty());
                assert(l + entry_bytes(key@, value@) =~= entry_bytes(key@, value@));
            }
        } else {
            proof {
                assert(without(self.chains(), Set::empty()) =~= self.chains());
                assert(without(self.index@, Set::empty()) =~= self.index@);
            }
        }
        let ghost mid = *self;
        let threshold: usize = self.config.write_buffer_size;
        let offset: u64 = match self.active_segment.append(pager, key, value, threshold) {
            Ok(o) => o,
            Err(e) => return Err(e),
        };
        let segment_id = self.active_segment.id();
        let _ = self.index.insert(copy_bytes(key), (segment_id, offset));
        self.versions.push_version(copy_bytes(key), copy_bytes(value), tx_id);
        proof {
            assert(self.chains().dom() =~= self.versions@.dom());
            assert(mid.chains().dom() =~= mid.versions@.dom());
            assert(self.index@.dom() =~= self.versions@.dom());
        }
        self.entry_count = self.entry_count + 1;
        let bytes_written: u64 = key.len() as u64 + value.len() as u64;
        self.total_size = self.total_size + bytes_written;
        proof {
            if old(self).config.retention_policy == RetentionPolicy::KeepAll {
                assert forall|k: Seq<u8>, lsn: LogSequenceNumber, active: Seq<TransactionId>|
                    #[trigger]
                    snapshot_read(self.chains(), k, lsn, active) == snapshot_read(
                        old(self).chains(),
                        k,
                        lsn,
                        active,
                    ) by {
                    law_put_is_invisible(
                        *old(self),
                        *self,
                        key@,
                        value@,
                        tx_id,
                        now,
                        k,
                        lsn,
                        active,
                    );
                }
            }
        }
        Ok(bytes_written)
    }

    /// Adds a pending tombstone to a key. Returns whether the key is known.
    pub fn delete_tx(&mut self, key: &[u8], tx_id: TransactionId) -> (r: TableResult<bool>)
        requires
            old(self).index.wf(),
            old(self).versions.wf(),
            old(self).index@.dom() == old(self).versions@.dom(),
        ensures
            r == Ok::<bool, TableError>(old(self).chains().contains_key(key@)),
            final(self).versions.wf(),
            final(self).index == old(self).index,
            final(self).index@.dom() == final(self).versions@.dom(),
            final(self).chains() == with_delete(old(self).chains(), key@, tx_id),
            final(self).same_identity(old(self)),
            final(self).same_storage(old(self)),
            final(self).entry_count == (if old(self).chains().contains_key(key@)
                && old(self).entry_count > 0 {
                old(self).entry_count - 1
            } else {
                old(self).entry_count as int
            }),
    {
        let existed: bool = self.versions.push_tombstone(copy_bytes(key), tx_id);
        proof {
            assert(self.chains().dom() =~= self.versions@.dom());
            assert(old(self).chains().dom() =~= old(self).versions@.dom());
            assert(self.index@.dom() =~= self.versions@.dom());
        }
        if existed && self.entry_count > 0 {
            self.entry_count = self.entry_count - 1;
        }
        Ok(existed)
    }

    /// Puts a value outside of any transaction, under the transaction number zero.
    pub fn put(
        &mut self,
        pager: &mut Pager,
        key: &[u8],
        value: &[u8],
        now: u64,
    ) -> (r: TableResult<u64>)
        requires
            old(pager).wf(),
            old(self).wf(old(pager).pages()),
            old(self).rolls() ==> old(self).next_segment_id.0 < u64::MAX,
            !old(self).rolls() ==> old(self).active_segment.metadata.entry_count < u64::MAX,
            old(self).size_before_put() + entry_len(key@, value@) <= u64::MAX,
            old(self).entry_count < u64::MAX,
            old(self).total_size + key@.len() + value@.len() <= u64::MAX,
        ensures
            r == Ok::<u64, TableError>((key@.len() + value@.len()) as u64),
            final(pager).wf(),
            final(pager).same_meta(old(pager)),
            pages_kept(old(pager).pages(), final(pager).pages()),
            final(self).wf(final(pager).pages()),
            final(self).same_identity(old(self)),
            final(self).chains() == with_put(
                without(old(self).chains(), old(self).forgotten(now)),
                key@,
                value@,
                TransactionId(0),
            ),
            final(self).index@ == without(old(self).index@, old(self).forgotten(now)).insert(
                key@,
                (final(self).active_segment.metadata.id, old(self).size_before_put() as u64),
            ),
            views(final(self).immutable_segments@) == (if old(self).rolls() {
                kept(
                    old(self).rolled_segments(),
                    old(self).config.retention_policy,
                    now,
                    old(self).rolled_segments().len() as int,
                )
            } else {
                views(old(self).immutable_segments@)
            }),
            final(self).active_segment.metadata.id == (if old(self).rolls() {
                old(self).next_segment_id
            } else {
                old(self).active_segment.metadata.id
            }),
            final(self).active_segment.metadata.size == old(self).size_before_put() + entry_len(
                key@,
                value@,
            ),
            final(self).active_segment.metadata.entry_count == (if old(self).rolls() {
                1int
            } else {
                old(self).active_segment.metadata.entry_count + 1
            }),
            final(self).active_segment.metadata.created_at == (if old(self).rolls() {
                now
            } else {
                old(self).active_segment.metadata.created_at
            }),
            final(self).active_segment.log(final(pager).pages()) == (if old(self).rolls() {
                entry_bytes(key@, value@)
            } else {
                old(self).active_segment.log(old(pager).pages()) + entry_bytes(key@, value@)
            }),
            final(self).next_segment_id.0 == old(self).next_segment_id.0 + (if old(self).rolls() {
                1int
            } else {
                0int
            }),
            final(self).entry_count == old(self).entry_count + 1,
            final(self).total_size == old(self).total_size + key@.len() + value@.len(),
            old(self).config.retention_policy == RetentionPolicy::KeepAll ==> forall|
                k: Seq<u8>,
                lsn: LogSequenceNumber,
                active: Seq<TransactionId>,
            | #[trigger]
                snapshot_read(final(self).chains(), k, lsn, active) == snapshot_read(
                    old(self).chains(),
                    k,
                    lsn,
                    active,
                ),
    {
        self.put_tx(pager, key, value, TransactionId(0), now)
    }

    /// Deletes a key outside of any transaction, under the transaction number zero.
    pub fn delete(&mut self, key: &[u8]) -> (r: TableResult<bool>)
        requires
            old(self).index.wf(),
            old(self).versions.wf(),
            old(self).index@.dom() == old(self).versions@.dom(),
        ensures
            r == Ok::<bool, TableError>(old(self).chains().contains_key(key@)),
            final(self).versions.wf(),
            final(self).index == old(self).index,
            final(self).index@.dom() == final(self).versions@.dom(),
            final(self).chains() == with_delete(old(self).chains(), key@, TransactionId(0)),
            final(self).same_identity(old(self)),
            final(self).same_storage(old(self)),
            final(self).entry_count == (if old(self).chains().contains_key(key@)
                && old(self).entry_count > 0 {
                old(self).entry_count - 1
            } else {
                old(self).entry_count as int
            }),
    {
        self.delete_tx(key, TransactionId(0))
    }

    /// What the snapshot sees of a key.
    pub fn get_snapshot(&self, key: &[u8], snapshot: &Snapshot) -> (r: TableResult<
        Option<ValueBuf>,
    >)
        requires
            self.versions.wf(),
        ensures
            r is Ok,
            value_view(r->Ok_0) == unless_tombstone(
                snapshot_read(self.chains(), key@, snapshot.lsn, snapshot.active_txns@),
            ),
    {
        match self.versions.visible(key, snapshot) {
            Some(v) => if v.len() == 0 {
                Ok(None)
            } else {
                Ok(Some(ValueBuf(copy_bytes(v))))
            },
            None => Ok(None),
        }
    }

    /// What a reader at `snapshot_lsn` sees of a key.
    pub fn get(&self, key: &[u8], snapshot_lsn: LogSequenceNumber) -> (r: TableResult<
        Option<ValueBuf>,
    >)
        requires
            self.versions.wf(),
        ensures
            r is Ok,
            value_view(r->Ok_0) == read(self.chains(), key@, snapshot_lsn),
    {
        Ok(self.versions.read(key, snapshot_lsn))
    }

    /// Commits every version that the transaction left pending.
    pub fn commit_versions(&mut self, tx_id: TransactionId, commit_lsn: LogSequenceNumber) -> (r:
        TableResult<()>)
        requires
            old(self).versions.wf(),
            old(self).index@.dom() == old(self).versions@.dom(),
        ensures
            r is Ok,
            final(self).versions.wf(),
            final(self).index == old(self).index,
            final(self).index@.dom() == final(self).versions@.dom(),
            final(self).chains() == old(self).chains().map_values(
                |vs: Seq<Version>| commit_of(vs, tx_id, commit_lsn),
            ),
            final(self).same_identity(old(self)),
            final(self).same_storage(old(self)),
            final(self).entry_count == old(self).entry_count,
    {
        self.versions.commit_of(tx_id, commit_lsn);
        proof {
            assert(self.chains().dom() =~= self.versions@.dom());
            assert(old(self).chains().dom() =~= old(self).versions@.dom());
            assert(self.index@.dom() =~= self.versions@.dom());
        }
        Ok(())
    }

    /// Drops the versions that no reader at `min_visible_lsn` or later can see, but for one base
    /// version per key. Returns how many went.
    pub fn vacuum(&mut self, min_visible_lsn: LogSequenceNumber) -> (r: TableResult<usize>)
        requires
            old(self).versions.wf(),
            old(self).index@.dom() == old(self).versions@.dom(),
        ensures
            r is Ok,
            r->Ok_0 as int == saturated(
                version_total(old(self).chains()) - version_total(final(self).chains()),
            ),
            final(self).versions.wf(),
            final(self).index == old(self).index,
            final(self).index@.dom() == final(self).versions@.dom(),
            final(self).chains() == with_vacuum(old(self).chains(), min_visible_lsn),
            final(self).same_identity(old(self)),
            final(self).same_storage(old(self)),
            final(self).entry_count == old(self).entry_count,
    {
        let removed: usize = self.versions.vacuum(min_visible_lsn);
        proof {
            assert(self.chains().dom() =~= self.versions@.dom());
            assert(old(self).chains().dom() =~= old(self).versions@.dom());
            assert(self.index@.dom() =~= self.versions@.dom());
        }
        Ok(removed)
    }

    /// Writes the serialised state to the root page.
    pub fn write_metadata(&self, pager: &mut Pager, metadata: Vec<u8>) -> (r: TableResult<()>)
        requires
            old(pager).wf(),
        ensures
            final(pager).wf(),
            final(pager).same_meta(old(pager)),
            r is Ok <==> metadata@.len() <= PageSize::Size4KB.capacity() && old(pager).pages().contains_key(self.root_page_id.0),
            r is Ok ==> final(pager).pages() == old(pager).pages().insert(
                self.root_page_id.0,
                PageView { page_type: PageType::LsmMeta, data: metadata@ },
            ),
            r is Err ==> final(pager).pages() == old(pager).pages(),
            r matches Err(e) ==> e == (if metadata@.len() > PageSize::Size4KB.capacity() {
                TableError::ValueTooLarge {
                    size: metadata@.len() as usize,
                    max: PageSize::Size4KB.capacity() as usize,
                }
            } else {
                TableError::Pager(PagerError::PageNotFound(self.root_page_id))
            }),
    {
        let max: usize = PageSize::Size4KB.data_size();
        let size: usize = metadata.len();
        if size > max {
            return Err(TableError::ValueTooLarge { size, max });
        }
        let page = Page { id: self.root_page_id, page_type: PageType::LsmMeta, data: metadata };
        match pager.write_page(page) {
            Ok(()) => Ok(()),
            Err(e) => Err(TableError::Pager(e)),
        }
    }

    /// The serialised state in a root page.
    pub fn read_metadata(pager: &Pager, root_page_id: PageId) -> (r: TableResult<Vec<u8>>)
        requires
            pager.wf(),
        ensures
            match r {
                Ok(b) => pager.pages().contains_key(root_page_id.0) && b@
                    == pager.pages()[root_page_id.0].data,
                Err(e) => !pager.pages().contains_key(root_page_id.0) && e == TableError::Pager(
                    PagerError::PageNotFound(root_page_id),
                ),
            },
    {
        match pager.read_page(root_page_id) {
            Ok(page) => Ok(page.data),
            Err(e) => Err(TableError::Pager(e)),
        }
    }

    /// Writes the buffer of the active segment to pages.
    pub fn flush(&mut self, pager: &mut Pager) -> (r: TableResult<()>)
        requires
            old(pager).wf(),
            old(self).wf(old(pager).pages()),
        ensures
            r is Ok,
            final(pager).wf(),
            final(pager).same_meta(old(pager)),
            pages_kept(old(pager).pages(), final(pager).pages()),
            final(self).wf(final(pager).pages()),
            final(self).active_segment.log(final(pager).pages()) == old(self).active_segment.log(
                old(pager).pages(),
            ),
            final(self).active_segment.metadata == (SegmentMetadata {
                last_page_id: final(self).active_segment.metadata.last_page_id,
                ..old(self).active_segment.metadata
            }),
            final(self).versions == old(self).versions,
            final(self).index == old(self).index,
            final(self).immutable_segments == old(self).immutable_segments,
            final(self).next_segment_id == old(self).next_segment_id,
            final(self).total_size == old(self).total_size,
            final(self).entry_count == old(self).entry_count,
            final(self).same_identity(old(self)),
    {
        match self.active_segment.flush(pager) {
            Ok(()) => Ok(()),
            Err(e) => Err(e),
        }
    }
}

/// A put that is committed is what every later reader gets, unless the value is empty: an empty
/// one marks a deletion.
pub proof fn law_committed_put_is_read(
    before: Chains,
    key: Seq<u8>,
    value: Seq<u8>,
    tx: TransactionId,
    at: LogSequenceNumber,
    lsn: LogSequenceNumber,
)
    requires
        at.0 <= lsn.0,
    ensures
        ({
            let after = with_put(before, key, value, tx).map_values(
                |vs: Seq<Version>| commit_of(vs, tx, at),
            );
            read(after, key, lsn) == (if value.len() == 0 {
                None
            } else {
                Some(value)
            })
        }),
{
    let vs = with_put(before, key, value, tx)[key];
    assert(vs[0] == crate::txn::pending(value, tx));
    assert(commit_of(vs, tx, at)[0] == crate::txn::committed(crate::txn::pending(value, tx), at));
}

/// A put forgets nothing where all segments are kept, and every snapshot sees what it saw before:
/// the new version is invisible until it is committed.
pub proof fn law_put_is_invisible(
    before: AppendLog,
    after: AppendLog,
    key: Seq<u8>,
    value: Seq<u8>,
    tx: TransactionId,
    now: u64,
    other: Seq<u8>,
    lsn: LogSequenceNumber,
    active: Seq<TransactionId>,
)
    requires
        before.config.retention_policy == RetentionPolicy::KeepAll,
        after.chains() == with_put(
            without(before.chains(), before.forgotten(now)),
            key,
            value,
            tx,
        ),
    ensures
        before.forgotten(now) == Set::<Seq<u8>>::empty(),
        snapshot_read(after.chains(), other, lsn, active) == snapshot_read(
            before.chains(),
            other,
            lsn,
            active,
        ),
{
    assert(before.forgotten(now) =~= Set::<Seq<u8>>::empty());
    assert(without(before.chains(), Set::empty()) =~= before.chains());
    if other == key {
        crate::txn::lemma_pending_is_invisible(
            chain_of(before.chains(), key),
            value,
            tx,
            lsn,
            active,
        );
    }
}

} // verus!
