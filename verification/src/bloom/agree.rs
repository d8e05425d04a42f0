//! A filter in memory and a filter in pages of the same size answer alike.
use crate::bloom::bits::{bit, bit_position, is_bit_of, lemma_zero_byte};
use crate::bloom::memory::{bits_added, BloomFilter};
use crate::bloom::paged::{lemma_place, zero_bytes, PagedBloomFilter};
use crate::pager::{PageType, PageView, Pager};
use vstd::prelude::*;

verus! {

/// The filters have the same size and the same bits.
pub open spec fn is_alike(paged: PagedBloomFilter, pager: Pager, memory: BloomFilter) -> bool {
    &&& paged.num_bits == memory.num_bits
    &&& paged.num_hash_functions == memory.num_hash_functions
    &&& forall|p: int|
        0 <= p < memory.num_bits ==> #[trigger] paged.bit_at(pager.pages(), p) == bit(
            memory.bits@,
            p,
        )
}

/// A filter in memory, step by step: it starts without bits and takes one key after the other.
pub open spec fn is_memory_run(run: Seq<BloomFilter>, keys: Seq<Seq<u8>>) -> bool {
    &&& run.len() == keys.len() + 1
    &&& forall|i: int| 0 <= i < run.len() ==> (#[trigger] run[i]).wf() && run[i].can_hash()
    &&& forall|i: int| 0 <= i < run[0].bits@.len() ==> #[trigger] run[0].bits@[i] == 0
    &&& forall|i: int|
        0 <= i < keys.len() ==> #[trigger] is_memory_step(run[i], keys[i], run[i + 1])
}

/// What `BloomFilter::insert` does.
pub open spec fn is_memory_step(before: BloomFilter, key: Seq<u8>, after: BloomFilter) -> bool {
    &&& after.num_bits == before.num_bits
    &&& after.num_hash_functions == before.num_hash_functions
    &&& bits_added(
        after.bits@,
        before.bits@,
        before.num_bits as int,
        before.num_hash_functions as int,
        key,
    )
}

/// A filter in pages, step by step.
pub open spec fn is_paged_run(run: Seq<(PagedBloomFilter, Pager)>, keys: Seq<Seq<u8>>) -> bool {
    &&& run.len() == keys.len() + 1
    &&& forall|i: int|
        0 <= i < run.len() ==> (#[trigger] run[i]).0.wf(run[i].1) && run[i].0.can_hash()
    &&& run[0].0.is_blank(run[0].1.pages(), run[0].1.capacity() as int)
    &&& forall|i: int|
        0 <= i < keys.len() ==> #[trigger] is_paged_step(run[i], keys[i], run[i + 1])
}

/// What `PagedBloomFilter::insert` does.
pub open spec fn is_paged_step(
    before: (PagedBloomFilter, Pager),
    key: Seq<u8>,
    after: (PagedBloomFilter, Pager),
) -> bool {
    &&& after.0.same_shape(&before.0)
    &&& after.0.bits_added(
        after.1.pages(),
        before.1.pages(),
        key,
        before.0.num_hash_functions as int,
    )
}

proof fn lemma_starts_alike(paged: PagedBloomFilter, pager: Pager, memory: BloomFilter)
    requires
        memory.wf(),
        paged.wf(pager),
        paged.num_bits == memory.num_bits,
        paged.num_hash_functions == memory.num_hash_functions,
        paged.is_blank(pager.pages(), pager.capacity() as int),
        forall|i: int| 0 <= i < memory.bits@.len() ==> #[trigger] memory.bits@[i] == 0,
    ensures
        is_alike(paged, pager, memory),
{
    let ids = paged.bitmap_pages@;
    let per = paged.bits_per_page as int;
    assert forall|p: int| 0 <= p < memory.num_bits implies #[trigger] paged.bit_at(
        pager.pages(),
        p,
    ) == bit(memory.bits@, p) by {
        lemma_place(p, ids.len() as int, per);
        let r = p % per;
        assert(pager.pages()[ids[p / per].0] == (PageView {
            page_type: PageType::BloomData,
            data: zero_bytes(pager.capacity() as int),
        }));
        lemma_zero_byte((r % 8) as u8);
        lemma_zero_byte((p % 8) as u8);
        assert(memory.bits@[p / 8] == 0);
        assert(pager.pages()[ids[p / per].0].data[r / 8] == 0);
    }
}

proof fn lemma_stays_alike(
    paged0: (PagedBloomFilter, Pager),
    memory0: BloomFilter,
    key: Seq<u8>,
    paged1: (PagedBloomFilter, Pager),
    memory1: BloomFilter,
)
    requires
        memory0.wf(),
        paged0.0.wf(paged0.1),
        is_alike(paged0.0, paged0.1, memory0),
        is_paged_step(paged0, key, paged1),
        is_memory_step(memory0, key, memory1),
    ensures
        is_alike(paged1.0, paged1.1, memory1),
{
    let n = memory0.num_bits as int;
    let k = memory0.num_hash_functions as int;
    assert forall|p: int| 0 <= p < n implies #[trigger] paged1.0.bit_at(paged1.1.pages(), p) == bit(
        memory1.bits@,
        p,
    ) by {
        assert(paged1.0.room() == paged0.0.room());
        assert(paged1.0.bit_at(paged0.1.pages(), p) == paged0.0.bit_at(paged0.1.pages(), p));
        assert(bit(memory1.bits@, p) == (bit(memory0.bits@, p) || is_bit_of(key, k, n, p)));
    }
}

/// Filters of the same size that start empty and take the same keys in the same order give the
/// same answer for every key, whether their bits stand in memory or in pages.
pub proof fn law_filters_answer_alike(
    paged: Seq<(PagedBloomFilter, Pager)>,
    memory: Seq<BloomFilter>,
    keys: Seq<Seq<u8>>,
    key: Seq<u8>,
)
    requires
        is_paged_run(paged, keys),
        is_memory_run(memory, keys),
        paged[0].0.num_bits == memory[0].num_bits,
        paged[0].0.num_hash_functions == memory[0].num_hash_functions,
    ensures
        paged.last().0.holds(paged.last().1.pages(), key) == memory.last().holds(key),
{
    lemma_run_is_alike(paged, memory, keys, keys.len() as int);
    let (filter, pager) = paged.last();
    let other = memory.last();
    let n = other.num_bits as int;
    let k = other.num_hash_functions as int;
    assert forall|i: int| 0 <= i < k implies filter.bit_at(
        pager.pages(),
        #[trigger] bit_position(key, i, n),
    ) == bit(other.bits@, bit_position(key, i, n)) by {
        assert(0 <= bit_position(key, i, n) < n);
    }
    if filter.holds(pager.pages(), key) {
        assert(other.holds(key));
    }
    if other.holds(key) {
        assert(filter.holds(pager.pages(), key));
    }
}

proof fn lemma_run_is_alike(
    paged: Seq<(PagedBloomFilter, Pager)>,
    memory: Seq<BloomFilter>,
    keys: Seq<Seq<u8>>,
    i: int,
)
    requires
        is_paged_run(paged, keys),
        is_memory_run(memory, keys),
        paged[0].0.num_bits == memory[0].num_bits,
        paged[0].0.num_hash_functions == memory[0].num_hash_functions,
        0 <= i <= keys.len(),
    ensures
        is_alike(paged[i].0, paged[i].1, memory[i]),
    decreases i,
{
    if i == 0 {
        assert(paged[0].0.wf(paged[0].1));
        assert(memory[0].wf());
        lemma_starts_alike(paged[0].0, paged[0].1, memory[0]);
    } else {
        lemma_run_is_alike(paged, memory, keys, i - 1);
        assert(is_paged_step(paged[i - 1], keys[i - 1], paged[i - 1 + 1]));
        assert(is_memory_step(memory[i - 1], keys[i - 1], memory[i - 1 + 1]));
        assert(paged[i - 1].0.wf(paged[i - 1].1));
        assert(memory[i - 1].wf());
        lemma_stays_alike(paged[i - 1], memory[i - 1], keys[i - 1], paged[i], memory[i]);
    }
}

} // verus!
