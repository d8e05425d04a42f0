//! The append log: segments, and an index with the versions of each key.
use crate::appendlog::config::{AppendLogConfig, Duration, RetentionPolicy};
use crate::appendlog::segment::{pages_kept, PersistedSegment, Segment, SegmentId, SegmentView};
use crate::bytemap::ByteMap;
use crate::bytes::copy_bytes;
use crate::mvcc::Chains;
use crate::pager::{PageId, PageType, PageView, Pager};
use crate::txn::{Version, VersionChain};
use crate::types::TableId;
use vstd::prelude::*;

verus! {

/// Where the newest entry of a key stands.
pub type Place = (SegmentId, u64);

/// The segments as the contracts speak of them.
pub open spec fn views(segments: Seq<Segment>) -> Seq<SegmentView> {
    segments.map_values(|s: Segment| s@)
}

/// The stored segments as the contracts speak of them.
pub open spec fn stored_views(segments: Seq<PersistedSegment>) -> Seq<SegmentView> {
    segments.map_values(|s: PersistedSegment| s@)
}

/// The segments ascend by identifier.
pub open spec fn segments_ascend(s: Seq<SegmentView>) -> bool {
    forall|i: int, j: int|
        0 <= i < j < s.len() ==> (#[trigger] s[i]).metadata.id.0 < (#[trigger] s[j]).metadata.id.0
}

/// How many of the segments come before an identifier, up to the last that does.
pub open spec fn segment_rank(s: Seq<SegmentView>, id: u64) -> int
    decreases s.len(),
{
    if s.len() == 0 {
        0
    } else if s.last().metadata.id.0 < id {
        s.len() as int
    } else {
        segment_rank(s.drop_last(), id)
    }
}

/// The segments with one more, which takes the place of one with the same identifier.
pub open spec fn with_segment(s: Seq<SegmentView>, x: SegmentView) -> Seq<SegmentView> {
    let p = segment_rank(s, x.metadata.id.0);
    if p < s.len() && s[p].metadata.id == x.metadata.id {
        s.update(p, x)
    } else {
        s.insert(p, x)
    }
}

/// The segments put together one by one.
pub open spec fn gathered_segments(s: Seq<SegmentView>) -> Seq<SegmentView>
    decreases s.len(),
{
    if s.len() == 0 {
        Seq::empty()
    } else {
        with_segment(gathered_segments(s.drop_last()), s.last())
    }
}

proof fn lemma_segment_rank(s: Seq<SegmentView>, id: u64)
    requires
        segments_ascend(s),
    ensures
        0 <= segment_rank(s, id) <= s.len(),
        forall|i: int| 0 <= i < segment_rank(s, id) ==> (#[trigger] s[i]).metadata.id.0 < id,
        forall|i: int| segment_rank(s, id) <= i < s.len() ==> (#[trigger] s[i]).metadata.id.0 >= id,
    decreases s.len(),
{
    if s.len() > 0 && s.last().metadata.id.0 >= id {
        let t = s.drop_last();
        assert(segments_ascend(t));
        lemma_segment_rank(t, id);
        assert forall|i: int| 0 <= i < segment_rank(s, id) implies (#[trigger] s[i]).metadata.id.0
            < id by {
            assert(t[i] == s[i]);
        }
        assert forall|i: int| segment_rank(s, id) <= i < s.len() implies (
        #[trigger] s[i]).metadata.id.0 >= id by {
            if i < t.len() {
                assert(t[i] == s[i]);
            }
        }
    } else if s.len() > 0 {
        assert forall|i: int| 0 <= i < s.len() implies (#[trigger] s[i]).metadata.id.0 < id by {
            if i < s.len() - 1 {
                assert(s[i].metadata.id.0 < s[s.len() - 1].metadata.id.0);
            }
        }
    }
}

proof fn lemma_with_segment(s: Seq<SegmentView>, x: SegmentView)
    requires
        segments_ascend(s),
    ensures
        segments_ascend(with_segment(s, x)),
{
    let id = x.metadata.id.0;
    lemma_segment_rank(s, id);
    let p = segment_rank(s, id);
    let t = with_segment(s, x);
    assert forall|i: int, j: int| 0 <= i < j < t.len() implies (#[trigger] t[i]).metadata.id.0 < (
    #[trigger] t[j]).metadata.id.0 by {
        if p < s.len() && s[p].metadata.id == x.metadata.id {
            assert(s[i].metadata.id.0 < s[j].metadata.id.0);
        } else {
            let i0 = if i < p { i } else { i - 1 };
            let j0 = if j < p { j } else { j - 1 };
            if i != p && j != p {
                assert(s[i0].metadata.id.0 < s[j0].metadata.id.0);
            }
        }
    }
}

/// A segment that is put among others stands in its order, the others stay, and one with the same
/// identifier makes way for it.
pub proof fn law_segment_is_put_in_order(s: Seq<SegmentView>, x: SegmentView, v: SegmentView)
    requires
        segments_ascend(s),
    ensures
        segments_ascend(with_segment(s, x)),
        with_segment(s, x).contains(v) <==> v == x || (s.contains(v) && v.metadata.id
            != x.metadata.id),
{
    lemma_with_segment(s, x);
    lemma_segment_rank(s, x.metadata.id.0);
    let p = segment_rank(s, x.metadata.id.0);
    let t = with_segment(s, x);
    assert(t[p] == x);
    if s.contains(v) && v.metadata.id != x.metadata.id {
        let i = s.index_of(v);
        assert(s[i] == v);
        if p < s.len() && s[p].metadata.id == x.metadata.id {
            assert(t[i] == v);
        } else if i < p {
            assert(t[i] == v);
        } else {
            assert(t[i + 1] == v);
        }
    }
    if t.contains(v) && v != x {
        let i = t.index_of(v);
        assert(t[i] == v && i != p);
        if p < s.len() && s[p].metadata.id == x.metadata.id {
            assert(s[i] == v);
        } else if i < p {
            assert(s[i] == v);
        } else {
            assert(s[i - 1] == v);
        }
        if v.metadata.id == x.metadata.id {
            let j = if i < p {
                i
            } else if p < s.len() && s[p].metadata.id == x.metadata.id {
                i
            } else {
                i - 1
            };
            assert(s[j] == v);
            assert(j >= p);
            if p < s.len() && s[p].metadata.id == x.metadata.id {
                assert(s[p].metadata.id.0 < s[j].metadata.id.0);
            } else {
                assert(s[p].metadata.id.0 > x.metadata.id.0);
                if j > p {
                    assert(s[p].metadata.id.0 < s[j].metadata.id.0);
                }
            }
        }
    }
}

proof fn lemma_gathered_ascend(s: Seq<SegmentView>)
    ensures
        segments_ascend(gathered_segments(s)),
    decreases s.len(),
{
    if s.len() > 0 {
        lemma_gathered_ascend(s.drop_last());
        lemma_with_segment(gathered_segments(s.drop_last()), s.last());
    }
}

proof fn lemma_gathered_same(s: Seq<SegmentView>)
    requires
        segments_ascend(s),
    ensures
        gathered_segments(s) == s,
    decreases s.len(),
{
    if s.len() > 0 {
        let t = s.drop_last();
        let x = s.last();
        assert(segments_ascend(t));
        lemma_gathered_same(t);
        lemma_segment_rank(t, x.metadata.id.0);
        let p = segment_rank(t, x.metadata.id.0);
        if p < t.len() {
            assert(t[p] == s[p]);
            assert(s[p].metadata.id.0 < s[s.len() - 1].metadata.id.0);
        }
        assert(t.insert(p, x) =~= s);
    } else {
        assert(gathered_segments(s) =~= s);
    }
}

pub(crate) fn insert_segment(segments: &mut Vec<Segment>, x: Segment)
    requires
        segments_ascend(views(old(segments)@)),
    ensures
        views(final(segments)@) == with_segment(views(old(segments)@), x@),
        segments_ascend(views(final(segments)@)),
{
    let ghost s = views(segments@);
    let id: u64 = x.metadata.id.0;
    proof {
        lemma_with_segment(s, x@);
        lemma_segment_rank(s, id);
    }
    let mut p: usize = segments.len();
    proof {
        assert(s.take(p as int) =~= s);
    }
    while p > 0 && segments[p - 1].metadata.id.0 >= id
        invariant
            p <= segments@.len(),
            segments@ == old(segments)@,
            s == views(segments@),
            segment_rank(s, id) == segment_rank(s.take(p as int), id),
        decreases p,
    {
        proof {
            assert(s[p - 1] == segments@[p - 1]@);
            assert(s.take(p as int).drop_last() =~= s.take(p - 1));
        }
        p -= 1;
    }
    proof {
        if p > 0 {
            assert(s[p - 1] == segments@[p - 1]@);
            assert(s.take(p as int).last() == s[p - 1]);
        }
        if p < segments@.len() {
            assert(s[p as int] == segments@[p as int]@);
        }
    }
    if p < segments.len() && segments[p].metadata.id == x.metadata.id {
        segments.set(p, x);
        assert(views(segments@) =~= s.update(p as int, x@));
    } else {
        segments.insert(p, x);
        assert(views(segments@) =~= s.insert(p as int, x@));
    }
}

/// The time before which segments are too old.
pub open spec fn cutoff(now: u64, secs: u64) -> int {
    if now >= secs {
        now - secs
    } else {
        0
    }
}

/// Whether the policy lets go of the segment at position `i`.
pub open spec fn dropped(s: Seq<SegmentView>, policy: RetentionPolicy, now: u64, i: int) -> bool {
    match policy {
        RetentionPolicy::KeepAll => false,
        RetentionPolicy::MaxSegments(max) => i < s.len() - max,
        RetentionPolicy::MaxAge(d) => s[i].metadata.created_at < cutoff(now, d.secs),
    }
}

/// The segments among the first `n` that the policy keeps.
pub open spec fn kept(s: Seq<SegmentView>, policy: RetentionPolicy, now: u64, n: int) -> Seq<
    SegmentView,
>
    decreases n,
{
    if n <= 0 {
        Seq::empty()
    } else if dropped(s, policy, now, n - 1) {
        kept(s, policy, now, n - 1)
    } else {
        kept(s, policy, now, n - 1).push(s[n - 1])
    }
}

/// Whether the policy lets go of a segment with the identifier.
pub open spec fn is_lost(s: Seq<SegmentView>, policy: RetentionPolicy, now: u64, id: SegmentId) -> bool {
    exists|i: int|
        0 <= i < s.len() && (#[trigger] s[i]).metadata.id == id && dropped(s, policy, now, i)
}

/// At most so many segments are kept, and the newest ones.
pub proof fn law_max_segments(s: Seq<SegmentView>, max: usize, now: u64)
    ensures
        kept(s, RetentionPolicy::MaxSegments(max), now, s.len() as int) == s.skip(
            if s.len() > max {
                s.len() - max
            } else {
                0
            },
        ),
{
    lemma_max_segments(s, max, now, s.len() as int);
    let k = if s.len() > max {
        s.len() - max
    } else {
        0
    };
    assert(s.subrange(k, s.len() as int) =~= s.skip(k));
}

proof fn lemma_max_segments(s: Seq<SegmentView>, max: usize, now: u64, n: int)
    requires
        0 <= n <= s.len(),
    ensures
        ({
            let k = if s.len() > max {
                s.len() - max
            } else {
                0
            };
            kept(s, RetentionPolicy::MaxSegments(max), now, n) == (if n <= k {
                Seq::empty()
            } else {
                s.subrange(k, n)
            })
        }),
    decreases n,
{
    if n > 0 {
        lemma_max_segments(s, max, now, n - 1);
        let k = if s.len() > max {
            s.len() - max
        } else {
            0
        };
        if n > k {
            assert(kept(s, RetentionPolicy::MaxSegments(max), now, n) =~= s.subrange(k, n));
        }
    }
}

/// Retention by age keeps exactly the segments that were made no longer than `max` ago, wherever
/// they stand, in their order.
pub proof fn law_max_age(s: Seq<SegmentView>, max: Duration, now: u64)
    ensures
        kept(s, RetentionPolicy::MaxAge(max), now, s.len() as int) == s.filter(
            |v: SegmentView| v.metadata.created_at >= now - max.secs,
        ),
        forall|v: SegmentView| #[trigger]
            kept(s, RetentionPolicy::MaxAge(max), now, s.len() as int).contains(v) <==> s.contains(
                v,
            ) && v.metadata.created_at >= now - max.secs,
{
    let young = |v: SegmentView| v.metadata.created_at >= now - max.secs;
    lemma_max_age(s, max, now, s.len() as int);
    assert(s.take(s.len() as int) =~= s);
    assert forall|v: SegmentView| #[trigger] s.filter(young).contains(v) <==> s.contains(v)
        && v.metadata.created_at >= now - max.secs by {
        if s.filter(young).contains(v) {
            s.lemma_filter_contains_rev(young, v);
            s.lemma_filter_pred(young, s.filter(young).index_of(v));
        }
        if s.contains(v) && young(v) {
            s.lemma_filter_contains(young, s.index_of(v));
        }
    }
}

proof fn lemma_max_age(s: Seq<SegmentView>, max: Duration, now: u64, n: int)
    requires
        0 <= n <= s.len(),
    ensures
        kept(s, RetentionPolicy::MaxAge(max), now, n) == s.take(n).filter(
            |v: SegmentView| v.metadata.created_at >= now - max.secs,
        ),
    decreases n,
{
    reveal(Seq::filter);
    if n > 0 {
        lemma_max_age(s, max, now, n - 1);
        assert(s.take(n).drop_last() =~= s.take(n - 1));
        assert(s.take(n).last() == s[n - 1]);
    }
}

/// Without a limit all segments are kept.
pub proof fn law_keep_all(s: Seq<SegmentView>, now: u64, n: int)
    requires
        0 <= n <= s.len(),
    ensures
        kept(s, RetentionPolicy::KeepAll, now, n) == s.take(n),
    decreases n,
{
    if n > 0 {
        law_keep_all(s, now, n - 1);
        assert(s.take(n - 1).push(s[n - 1]) =~= s.take(n));
    } else {
        assert(s.take(0) =~= Seq::empty());
    }
}

pub(crate) proof fn lemma_kept(s: Seq<SegmentView>, policy: RetentionPolicy, now: u64, n: int)
    requires
        segments_ascend(s),
        0 <= n <= s.len(),
    ensures
        segments_ascend(kept(s, policy, now, n)),
        forall|i: int|
            0 <= i < kept(s, policy, now, n).len() ==> exists|j: int|
                0 <= j < n && #[trigger] s[j] == #[trigger] kept(s, policy, now, n)[i],
    decreases n,
{
    if n > 0 {
        lemma_kept(s, policy, now, n - 1);
        let before = kept(s, policy, now, n - 1);
        let after = kept(s, policy, now, n);
        assert forall|i: int, j: int| 0 <= i < j < after.len() implies (
        #[trigger] after[i]).metadata.id.0 < (#[trigger] after[j]).metadata.id.0 by {
            if j < before.len() {
                assert(before[i].metadata.id.0 < before[j].metadata.id.0);
            } else {
                let k = choose|k: int| 0 <= k < n - 1 && #[trigger] s[k] == before[i];
                assert(s[k].metadata.id.0 < s[n - 1].metadata.id.0);
            }
        }
        assert forall|i: int| 0 <= i < after.len() implies exists|j: int|
            0 <= j < n && #[trigger] s[j] == #[trigger] after[i] by {
            if i < before.len() {
                let k = choose|k: int| 0 <= k < n - 1 && #[trigger] s[k] == before[i];
                assert(s[k] == after[i]);
            } else {
                assert(s[n - 1] == after[i]);
            }
        }
    }
}

/// An index entry as it is stored.
#[derive(Debug)]
pub struct PersistedAppendLogEntry {
    pub key: Vec<u8>,
    pub segment_id: SegmentId,
    pub offset: u64,
    pub chain: VersionChain,
}

/// The state of a log as it is stored.
#[derive(Debug)]
pub struct PersistedAppendLogState {
    pub active_segment: PersistedSegment,
    pub immutable_segments: Vec<PersistedSegment>,
    pub index: Vec<PersistedAppendLogEntry>,
    pub next_segment_id: SegmentId,
    pub entry_count: u64,
    pub total_size: u64,
}

/// The places that stored entries give to keys; a later one counts.
pub open spec fn stored_places(es: Seq<PersistedAppendLogEntry>) -> Map<Seq<u8>, Place>
    decreases es.len(),
{
    if es.len() == 0 {
        Map::empty()
    } else {
        stored_places(es.drop_last()).insert(
            es.last().key@,
            (es.last().segment_id, es.last().offset),
        )
    }
}

/// The versions that stored entries give to keys; a later one counts.
pub open spec fn stored_chains(es: Seq<PersistedAppendLogEntry>) -> Chains
    decreases es.len(),
{
    if es.len() == 0 {
        Map::empty()
    } else {
        stored_chains(es.drop_last()).insert(es.last().key@, es.last().chain@)
    }
}

/// An append-only log.
pub struct AppendLog {
    pub table_id: TableId,
    pub name: String,
    pub config: AppendLogConfig,
    /// The page with the stored state.
    pub root_page_id: PageId,
    /// The segment that entries are appended to.
    pub active_segment: Segment,
    pub immutable_segments: Vec<Segment>,
    /// Where the newest entry of each key stands.
    pub index: ByteMap<Place>,
    /// The versions of each key.
    pub versions: ByteMap<VersionChain>,
    pub next_segment_id: SegmentId,
    pub entry_count: u64,
    pub total_size: u64,
}

/// The keys whose newest entry stands in a segment that the policy lets go of.
pub open spec fn lost_keys(
    index: Map<Seq<u8>, Place>,
    s: Seq<SegmentView>,
    policy: RetentionPolicy,
    now: u64,
) -> Set<Seq<u8>> {
    Set::new(|k: Seq<u8>| index.contains_key(k) && is_lost(s, policy, now, index[k].0))
}

impl AppendLog {
    /// Index and versions know the same keys, the segments ascend, and the active one is sound.
    pub open spec fn wf(&self, pages: Map<u64, PageView>) -> bool {
        &&& self.index.wf()
        &&& self.versions.wf()
        &&& self.index@.dom() == self.versions@.dom()
        &&& segments_ascend(views(self.immutable_segments@))
        &&& self.active_segment.wf(pages)
    }

    /// The versions of each key.
    pub open spec fn chains(&self) -> Chains {
        self.versions.chains()
    }

    /// The logs have the same name and settings.
    pub open spec fn same_identity(&self, other: &Self) -> bool {
        &&& self.table_id == other.table_id
        &&& self.name == other.name
        &&& self.config == other.config
        &&& self.root_page_id == other.root_page_id
    }

    /// The logs have the same segments and places.
    pub open spec fn same_storage(&self, other: &Self) -> bool {
        &&& self.active_segment == other.active_segment
        &&& self.immutable_segments == other.immutable_segments
        &&& self.index@ == other.index@
        &&& self.next_segment_id == other.next_segment_id
        &&& self.total_size == other.total_size
    }

    /// The stored state is that of the log.
    pub open spec fn is_stored(&self, p: &PersistedAppendLogState) -> bool {
        &&& self.active_segment@ == p.active_segment@
        &&& views(self.immutable_segments@) == gathered_segments(
            stored_views(p.immutable_segments@),
        )
        &&& self.index@ == stored_places(p.index@)
        &&& self.chains() == stored_chains(p.index@)
        &&& self.next_segment_id == p.next_segment_id
        &&& self.entry_count == p.entry_count
        &&& self.total_size == p.total_size
    }

    /// A log without entries, with a new root page and a first segment. Its state is still to be
    /// stored.
    pub fn new(
        table_id: TableId,
        name: String,
        pager: &mut Pager,
        config: AppendLogConfig,
        now: u64,
    ) -> (r: Self)
        requires
            old(pager).wf(),
        ensures
            final(pager).wf(),
            final(pager).same_meta(old(pager)),
            pages_kept(old(pager).pages(), final(pager).pages()),
            !old(pager).pages().contains_key(r.root_page_id.0),
            final(pager).pages().contains_key(r.root_page_id.0),
            final(pager).pages()[r.root_page_id.0].page_type == PageType::LsmMeta,
            r.wf(final(pager).pages()),
            r.table_id == table_id,
            r.name == name,
            r.config == config,
            r.chains() == Map::<Seq<u8>, Seq<Version>>::empty(),
            r.active_segment.metadata.id == SegmentId(0),
            r.active_segment.metadata.created_at == now,
            r.active_segment.metadata.entry_count == 0,
            r.active_segment.metadata.size == 0,
            r.immutable_segments@.len() == 0,
            r.next_segment_id == SegmentId(1),
            r.entry_count == 0,
            r.total_size == 0,
    {
        let root_page_id = pager.allocate_page(PageType::LsmMeta);
        let active_segment = Segment::new(SegmentId(0), pager, now);
        let r = AppendLog {
            table_id,
            name,
            config,
            root_page_id,
            active_segment,
            immutable_segments: Vec::new(),
            index: ByteMap::new(),
            versions: ByteMap::new(),
            next_segment_id: SegmentId(1),
            entry_count: 0,
            total_size: 0,
        };
        proof {
            assert(r.index@.dom() =~= r.versions@.dom());
            assert(r.chains() =~= Map::<Seq<u8>, Seq<Version>>::empty());
        }
        r
    }

    /// Whether an opened log can be written to: what its active segment was stored with agrees
    /// with the pages of the store.
    pub fn is_sound(&self, pager: &Pager) -> (r: bool)
        requires
            pager.wf(),
        ensures
            r == self.active_segment.wf(pager.pages()),
    {
        self.active_segment.is_sound(pager)
    }

    /// The log of a stored state.
    pub fn open(
        table_id: TableId,
        name: String,
        root_page_id: PageId,
        config: AppendLogConfig,
        persisted: PersistedAppendLogState,
    ) -> (r: Self)
        ensures
            r.table_id == table_id,
            r.name == name,
            r.config == config,
            r.root_page_id == root_page_id,
            r.is_stored(&persisted),
            r.index.wf(),
            r.versions.wf(),
            r.index@.dom() == r.versions@.dom(),
            segments_ascend(views(r.immutable_segments@)),
    {
        let active_segment = Segment::from_persisted(persisted.active_segment);
        let ghost ps = persisted.immutable_segments@;
        let ghost vs = stored_views(ps);
        let mut stored: Vec<PersistedSegment> = persisted.immutable_segments;
        let mut immutable_segments: Vec<Segment> = Vec::new();
        let mut i: usize = 0;
        let n: usize = stored.len();
        assert(ps.skip(0) =~= ps);
        assert(views(immutable_segments@) =~= gathered_segments(vs.take(0)));
        while i < n
            invariant
                i <= n == ps.len(),
                vs == stored_views(ps),
                stored@ == ps.skip(i as int),
                views(immutable_segments@) == gathered_segments(vs.take(i as int)),
                segments_ascend(views(immutable_segments@)),
            decreases n - i,
        {
            let segment = stored.remove(0);
            proof {
                assert(ps.skip(i as int).remove(0) =~= ps.skip(i + 1));
                assert(segment == ps[i as int]);
                assert(vs.take(i + 1).drop_last() =~= vs.take(i as int));
                assert(vs.take(i + 1).last() == segment@);
            }
            insert_segment(&mut immutable_segments, Segment::from_persisted(segment));
            i += 1;
        }
        assert(vs.take(n as int) =~= vs);
        let ghost es = persisted.index@;
        let mut entries: Vec<PersistedAppendLogEntry> = persisted.index;
        let mut index: ByteMap<Place> = ByteMap::new();
        let mut versions: ByteMap<VersionChain> = ByteMap::new();
        let mut j: usize = 0;
        let m: usize = entries.len();
        assert(es.skip(0) =~= es);
        assert(es.take(0) =~= Seq::empty());
        assert(index@ =~= stored_places(es.take(0)));
        assert(versions.chains() =~= stored_chains(es.take(0)));
        assert(index@.dom() =~= versions@.dom());
        while j < m
            invariant
                j <= m == es.len(),
                entries@ == es.skip(j as int),
                index.wf(),
                versions.wf(),
                index@ == stored_places(es.take(j as int)),
                versions.chains() == stored_chains(es.take(j as int)),
                index@.dom() == versions@.dom(),
            decreases m - j,
        {
            let entry = entries.remove(0);
            proof {
                assert(es.skip(j as int).remove(0) =~= es.skip(j + 1));
                assert(entry == es[j as int]);
                assert(es.take(j + 1).drop_last() =~= es.take(j as int));
                assert(es.take(j + 1).last() == entry);
            }
            let key = copy_bytes(entry.key.as_slice());
            let ghost chains0 = versions.chains();
            let _ = index.insert(key, (entry.segment_id, entry.offset));
            let ghost chain = entry.chain@;
            let ghost k = entry.key@;
            let _ = versions.insert(entry.key, entry.chain);
            proof {
                assert(versions.chains() =~= chains0.insert(k, chain));
                assert(index@.dom() =~= versions@.dom());
            }
            j += 1;
        }
        assert(es.take(m as int) =~= es);
        AppendLog {
            table_id,
            name,
            config,
            root_page_id,
            active_segment,
            immutable_segments,
            index,
            versions,
            next_segment_id: persisted.next_segment_id,
            entry_count: persisted.entry_count,
            total_size: persisted.total_size,
        }
    }

    /// The state to store.
    pub fn persisted(&self) -> (r: PersistedAppendLogState)
        requires
            self.index.wf(),
            self.versions.wf(),
            self.index@.dom() == self.versions@.dom(),
            segments_ascend(views(self.immutable_segments@)),
        ensures
            self.is_stored(&r),
            stored_views(r.immutable_segments@) == views(self.immutable_segments@),
            r.index@.len() == self.index.keys().len(),
            forall|i: int|
                0 <= i < r.index@.len() ==> (#[trigger] r.index@[i]).key@ == self.index.keys()[i],
    {
        let mut immutable_segments: Vec<PersistedSegment> = Vec::new();
        let mut i: usize = 0;
        while i < self.immutable_segments.len()
            invariant
                i <= self.immutable_segments@.len(),
                immutable_segments@.len() == i,
                forall|k: int|
                    0 <= k < i ==> (#[trigger] immutable_segments@[k])@
                        == self.immutable_segments@[k]@,
            decreases self.immutable_segments@.len() - i,
        {
            immutable_segments.push(self.immutable_segments[i].persist());
            i += 1;
        }
        proof {
            assert(stored_views(immutable_segments@) =~= views(self.immutable_segments@));
            lemma_gathered_same(views(self.immutable_segments@));
        }
        let ghost keys = self.index.keys();
        let mut index: Vec<PersistedAppendLogEntry> = Vec::new();
        let mut j: usize = 0;
        let n: usize = self.index.entries.len();
        while j < n
            invariant
                n == self.index.entries@.len(),
                keys == self.index.keys(),
                self.index.wf(),
                self.versions.wf(),
                self.index@.dom() == self.versions@.dom(),
                j <= n,
                index@.len() == j,
                forall|k: int|
                    0 <= k < j ==> (#[trigger] index@[k]).key@ == keys[k] && self.index@[keys[k]]
                        == (index@[k].segment_id, index@[k].offset) && index@[k].chain@
                        == self.chains()[keys[k]],
            decreases n - j,
        {
            proof {
                self.index.lemma_entry(j as int);
            }
            let key = copy_bytes(self.index.entries[j].0.as_slice());
            let place: Place = self.index.entries[j].1;
            proof {
                assert(self.index@.dom().contains(key@));
                assert(self.versions@.dom().contains(key@));
            }
            match self.versions.get(key.as_slice()) {
                Some(c) => {
                    let chain = c.copy();
                    index.push(
                        PersistedAppendLogEntry {
                            key,
                            segment_id: place.0,
                            offset: place.1,
                            chain,
                        },
                    );
                },
                None => {},
            }
            j += 1;
        }
        proof {
            self.lemma_stored(index@, n as int);
            assert(index@.take(n as int) =~= index@);
            assert(keys.take(n as int) =~= keys);
            assert forall|k: Seq<u8>| keys.contains(k) implies #[trigger] self.index@.contains_key(
                k,
            ) by {}
            assert(stored_places(index@) =~= self.index@) by {
                assert forall|k: Seq<u8>| self.index@.contains_key(k) implies keys.contains(k) by {
                    let p = self.index.lemma_key(k);
                    assert(keys[p] == k);
                }
            }
            assert(stored_chains(index@) =~= self.chains()) by {
                assert forall|k: Seq<u8>| self.chains().contains_key(k) implies keys.contains(k) by {
                    assert(self.versions@.dom().contains(k));
                    assert(self.index@.dom().contains(k));
                    let p = self.index.lemma_key(k);
                    assert(keys[p] == k);
                }
            }
        }
        PersistedAppendLogState {
            active_segment: self.active_segment.persist(),
            immutable_segments,
            index,
            next_segment_id: self.next_segment_id,
            entry_count: self.entry_count,
            total_size: self.total_size,
        }
    }

    proof fn lemma_stored(&self, es: Seq<PersistedAppendLogEntry>, n: int)
        requires
            self.index.wf(),
            self.index@.dom() == self.versions@.dom(),
            0 <= n <= es.len() == self.index.keys().len(),
            forall|k: int|
                0 <= k < es.len() ==> (#[trigger] es[k]).key@ == self.index.keys()[k]
                    && self.index@[self.index.keys()[k]] == (es[k].segment_id, es[k].offset)
                    && es[k].chain@ == self.chains()[self.index.keys()[k]],
        ensures
            forall|k: Seq<u8>| #[trigger]
                stored_places(es.take(n)).contains_key(k) <==> self.index.keys().take(n).contains(k),
            forall|k: Seq<u8>| #[trigger]
                stored_chains(es.take(n)).contains_key(k) <==> self.index.keys().take(n).contains(k),
            forall|k: Seq<u8>|
                stored_places(es.take(n)).contains_key(k) ==> #[trigger] stored_places(
                    es.take(n),
                )[k] == self.index@[k],
            forall|k: Seq<u8>|
                stored_chains(es.take(n)).contains_key(k) ==> #[trigger] stored_chains(
                    es.take(n),
                )[k] == self.chains()[k],
        decreases n,
    {
        let keys = self.index.keys();
        if n == 0 {
            assert(es.take(0) =~= Seq::empty());
            assert(keys.take(0) =~= Seq::empty());
        } else {
            self.lemma_stored(es, n - 1);
            assert(es.take(n).drop_last() =~= es.take(n - 1));
            assert(es.take(n).last() == es[n - 1]);
            let before = keys.take(n - 1);
            let after = keys.take(n);
            assert(after =~= before.push(keys[n - 1]));
            assert forall|k: Seq<u8>| #[trigger] after.contains(k) <==> before.contains(k) || k
                == keys[n - 1] by {
                if before.contains(k) {
                    let i = before.index_of(k);
                    assert(after[i] == k);
                }
                if k == keys[n - 1] {
                    assert(after[n - 1] == k);
                }
                if after.contains(k) {
                    let i = after.index_of(k);
                    if i < n - 1 {
                        assert(before[i] == k);
                    }
                }
            }
            let places = stored_places(es.take(n));
            let chains = stored_chains(es.take(n));
            assert(places == stored_places(es.take(n - 1)).insert(
                keys[n - 1],
                (es[n - 1].segment_id, es[n - 1].offset),
            ));
            assert(chains == stored_chains(es.take(n - 1)).insert(keys[n - 1], es[n - 1].chain@));
            assert forall|k: Seq<u8>| #[trigger] places.contains_key(k) <==> after.contains(k) by {
                assert(stored_places(es.take(n - 1)).contains_key(k) <==> before.contains(k));
            }
            assert forall|k: Seq<u8>| #[trigger] chains.contains_key(k) <==> after.contains(k) by {
                assert(stored_chains(es.take(n - 1)).contains_key(k) <==> before.contains(k));
            }
        }
    }

    /// The root page of the log.
    pub fn root_page_id(&self) -> (r: PageId)
        ensures
            r == self.root_page_id,
    {
        self.root_page_id
    }
}

/// A log that is opened from what another log stored has the same contents.
pub proof fn law_open_restores(log: AppendLog, stored: PersistedAppendLogState, opened: AppendLog)
    requires
        log.is_stored(&stored),
        opened.is_stored(&stored),
    ensures
        opened.chains() == log.chains(),
        opened.index@ == log.index@,
        opened.active_segment@ == log.active_segment@,
        views(opened.immutable_segments@) == views(log.immutable_segments@),
        opened.next_segment_id == log.next_segment_id,
        opened.entry_count == log.entry_count,
        opened.total_size == log.total_size,
{
}

} // verus!
