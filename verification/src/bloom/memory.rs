//! A Bloom filter in memory.
use crate::bloom::bits::{
    best_hash_count, bit, bit_position, byte_count, bytes_for, get_bit, hash_count, hash_key,
    is_bit_of, lemma_zero_byte, position_of, set_bit, zeros,
};
use crate::table::{
    ConsistencyError, ConsistencyErrorType, ConsistencyWarning, SpecialtyTableCapabilities,
    SpecialtyTableStats, TableError, TableResult, VerificationReport,
};
use crate::types::{LogSequenceNumber, TableId, TransactionId};
use vstd::prelude::*;

verus! {

/// A Bloom filter: it may take an absent key for a present one, never the other way round.
#[derive(Clone, Debug)]
pub struct BloomFilter {
    pub bits: Vec<u8>,
    pub num_bits: usize,
    pub num_hash_functions: usize,
    pub num_items: usize,
}

/// All bits of a key are set.
pub open spec fn holds_key(bits: Seq<u8>, num_bits: int, k: int, key: Seq<u8>) -> bool {
    forall|i: int| 0 <= i < k ==> bit(bits, #[trigger] bit_position(key, i, num_bits))
}

/// The bits are those of before, and those of the key.
pub open spec fn bits_added(
    after: Seq<u8>,
    before: Seq<u8>,
    num_bits: int,
    k: int,
    key: Seq<u8>,
) -> bool {
    &&& after.len() == before.len()
    &&& forall|p: int|
        0 <= p < 8 * before.len() ==> #[trigger] bit(after, p) == (bit(before, p) || is_bit_of(
            key,
            k,
            num_bits,
            p,
        ))
}

/// A key that was inserted is found, and so is every key that was found before: there are no
/// false negatives.
pub proof fn law_no_false_negatives(
    after: Seq<u8>,
    before: Seq<u8>,
    num_bits: int,
    k: int,
    key: Seq<u8>,
    other: Seq<u8>,
)
    requires
        0 < num_bits <= 8 * before.len(),
        bits_added(after, before, num_bits, k, key),
    ensures
        holds_key(after, num_bits, k, key),
        holds_key(before, num_bits, k, other) ==> holds_key(after, num_bits, k, other),
{
    assert forall|i: int| 0 <= i < k implies bit(after, #[trigger] bit_position(key, i, num_bits)) by {
        let p = bit_position(key, i, num_bits);
        assert(is_bit_of(key, k, num_bits, p));
        assert(bit(after, p) == (bit(before, p) || is_bit_of(key, k, num_bits, p)));
    }
    if holds_key(before, num_bits, k, other) {
        assert forall|i: int| 0 <= i < k implies bit(
            after,
            #[trigger] bit_position(other, i, num_bits),
        ) by {
            let p = bit_position(other, i, num_bits);
            assert(bit(after, p) == (bit(before, p) || is_bit_of(key, k, num_bits, p)));
        }
    }
}

/// The bits that the first `k` hash functions give to a key.
pub open spec fn bits_of(key: Seq<u8>, k: int, num_bits: int) -> Set<int> {
    Set::new(|p: int| is_bit_of(key, k, num_bits, p))
}

/// The bits that an insertion sets anew.
pub open spec fn bits_gained(after: Seq<u8>, before: Seq<u8>) -> Set<int> {
    Set::new(|p: int| 0 <= p < 8 * before.len() && bit(after, p) && !bit(before, p))
}

proof fn lemma_bits_of(key: Seq<u8>, k: int, num_bits: int)
    requires
        0 <= k,
    ensures
        bits_of(key, k, num_bits).finite(),
        bits_of(key, k, num_bits).len() <= k,
    decreases k,
{
    let set = bits_of(key, k, num_bits);
    if k == 0 {
        assert(set =~= Set::empty());
    } else {
        lemma_bits_of(key, k - 1, num_bits);
        let less = bits_of(key, k - 1, num_bits);
        let p = bit_position(key, k - 1, num_bits);
        assert forall|q: int| set.contains(q) <==> less.insert(p).contains(q) by {
            if set.contains(q) && q != p {
                let i = choose|i: int| 0 <= i < k && #[trigger] bit_position(key, i, num_bits) == q;
                assert(i < k - 1);
            }
            if less.contains(q) {
                let i = choose|i: int|
                    0 <= i < k - 1 && #[trigger] bit_position(key, i, num_bits) == q;
                assert(0 <= i < k);
            }
        }
        assert(set =~= less.insert(p));
    }
}

/// An insertion clears no bit, and sets no more bits anew than there are hash functions.
pub proof fn law_insertion_sets_few_bits(
    after: Seq<u8>,
    before: Seq<u8>,
    num_bits: int,
    k: int,
    key: Seq<u8>,
    p: int,
)
    requires
        0 <= k,
        bits_added(after, before, num_bits, k, key),
    ensures
        bits_gained(after, before).finite(),
        bits_gained(after, before).len() <= k,
        0 <= p < 8 * before.len() && bit(before, p) ==> bit(after, p),
{
    lemma_bits_of(key, k, num_bits);
    let gained = bits_gained(after, before);
    assert forall|q: int| gained.contains(q) implies bits_of(key, k, num_bits).contains(q) by {
        assert(bit(after, q) == (bit(before, q) || is_bit_of(key, k, num_bits, q)));
    }
    vstd::set_lib::lemma_len_subset(gained, bits_of(key, k, num_bits));
}

/// A filter without bits set takes no key for present, as long as it hashes at all.
pub proof fn law_empty_filter_holds_nothing(bits: Seq<u8>, num_bits: int, k: int, key: Seq<u8>)
    requires
        0 < num_bits <= 8 * bits.len(),
        k > 0,
        forall|i: int| 0 <= i < bits.len() ==> #[trigger] bits[i] == 0,
    ensures
        !holds_key(bits, num_bits, k, key),
{
    let p = bit_position(key, 0, num_bits);
    lemma_zero_byte((p % 8) as u8);
    assert(bits[p / 8] == 0);
    assert(!bit(bits, p));
}

/// A filter that one key was put into takes another for present exactly if each bit of the other
/// is a bit of the first.
pub proof fn law_filter_of_one_key(
    after: Seq<u8>,
    before: Seq<u8>,
    num_bits: int,
    k: int,
    key: Seq<u8>,
    other: Seq<u8>,
)
    requires
        0 < num_bits <= 8 * before.len(),
        forall|i: int| 0 <= i < before.len() ==> #[trigger] before[i] == 0,
        bits_added(after, before, num_bits, k, key),
    ensures
        holds_key(after, num_bits, k, other) <==> vstd::set_lib::set_int_range(0, k).map(
            |i: int| bit_position(other, i, num_bits),
        ).subset_of(
            vstd::set_lib::set_int_range(0, k).map(|i: int| bit_position(key, i, num_bits)),
        ),
{
    let own = vstd::set_lib::set_int_range(0, k).map(|i: int| bit_position(key, i, num_bits));
    let others = vstd::set_lib::set_int_range(0, k).map(|i: int| bit_position(other, i, num_bits));
    if holds_key(after, num_bits, k, other) {
        assert forall|p: int| #[trigger] others.contains(p) implies own.contains(p) by {
            lemma_positions(other, k, num_bits, p);
            let i = choose|i: int| 0 <= i < k && #[trigger] bit_position(other, i, num_bits) == p;
            lemma_bit_of_one_key(after, before, num_bits, k, key, other, i);
            lemma_positions(key, k, num_bits, p);
        }
    }
    if others.subset_of(own) {
        assert forall|i: int| 0 <= i < k implies bit(
            after,
            #[trigger] bit_position(other, i, num_bits),
        ) by {
            let p = bit_position(other, i, num_bits);
            lemma_positions(other, k, num_bits, p);
            assert(is_bit_of(other, k, num_bits, p));
            assert(own.contains(p));
            lemma_positions(key, k, num_bits, p);
            lemma_bit_of_one_key(after, before, num_bits, k, key, other, i);
        }
    }
}

proof fn lemma_positions(key: Seq<u8>, k: int, num_bits: int, p: int)
    ensures
        vstd::set_lib::set_int_range(0, k).map(|i: int| bit_position(key, i, num_bits)).contains(p)
            <==> is_bit_of(key, k, num_bits, p),
{
    let f = |i: int| bit_position(key, i, num_bits);
    if is_bit_of(key, k, num_bits, p) {
        let i = choose|i: int| 0 <= i < k && #[trigger] bit_position(key, i, num_bits) == p;
        assert(vstd::set_lib::set_int_range(0, k).contains(i) && f(i) == p);
    }
}

proof fn lemma_bit_of_one_key(
    after: Seq<u8>,
    before: Seq<u8>,
    num_bits: int,
    k: int,
    key: Seq<u8>,
    other: Seq<u8>,
    i: int,
)
    requires
        0 < num_bits <= 8 * before.len(),
        forall|i: int| 0 <= i < before.len() ==> #[trigger] before[i] == 0,
        bits_added(after, before, num_bits, k, key),
    ensures
        ({
            let p = bit_position(other, i, num_bits);
            bit(after, p) == is_bit_of(key, k, num_bits, p)
        }),
{
    let p = bit_position(other, i, num_bits);
    lemma_zero_byte((p % 8) as u8);
    assert(before[p / 8] == 0);
    assert(!bit(before, p));
    assert(bit(after, p) == (bit(before, p) || is_bit_of(key, k, num_bits, p)));
}

/// A key is denied as soon as one of its bits is not set.
pub proof fn law_clear_bit_denies(bits: Seq<u8>, num_bits: int, k: int, key: Seq<u8>, i: int)
    requires
        0 < num_bits <= 8 * bits.len(),
        0 <= i < k <= usize::MAX,
        !bit(
            bits,
            ((crate::bloom::bits::fnv1a(key) + i * crate::bloom::bits::multiplicative(key))
                % 0x1_0000_0000_0000_0000) % num_bits,
        ),
    ensures
        !holds_key(bits, num_bits, k, key),
{
    crate::bloom::bits::law_bits_step_by_the_second_hash(key, i, num_bits);
    assert(!bit(bits, bit_position(key, i, num_bits)));
}

impl BloomFilter {
    /// Every bit has its place.
    pub open spec fn wf(&self) -> bool {
        self.num_bits <= 8 * self.bits@.len()
    }

    /// All bits of the key are set.
    pub open spec fn holds(&self, key: Seq<u8>) -> bool {
        holds_key(self.bits@, self.num_bits as int, self.num_hash_functions as int, key)
    }

    /// Hashing needs bits to hash to.
    pub open spec fn can_hash(&self) -> bool {
        self.num_hash_functions > 0 ==> self.num_bits > 0
    }

    /// An empty filter for so many items. Without a number of hash functions it takes the one
    /// that suits the bits per key.
    #[must_use]
    pub fn new(num_items: usize, bits_per_key: usize, num_hash_functions: Option<usize>) -> (r: Self)
        requires
            num_items * bits_per_key <= usize::MAX,
        ensures
            r.wf(),
            r.num_bits == num_items * bits_per_key,
            r.bits@.len() == bytes_for(r.num_bits as int),
            forall|i: int| 0 <= i < r.bits@.len() ==> #[trigger] r.bits@[i] == 0,
            r.num_hash_functions == (match num_hash_functions {
                Some(n) => n as int,
                None => best_hash_count(bits_per_key as int),
            }),
            r.num_items == 0,
    {
        let num_bits: usize = num_items * bits_per_key;
        let k: usize = match num_hash_functions {
            Some(n) => n,
            None => hash_count(bits_per_key),
        };
        BloomFilter {
            bits: zeros(byte_count(num_bits)),
            num_bits,
            num_hash_functions: k,
            num_items: 0,
        }
    }

    /// The filter with the given bits. How many items it holds is not known.
    #[must_use]
    pub fn from_bytes(bits: Vec<u8>, num_hash_functions: usize) -> (r: Self)
        requires
            bits@.len() * 8 <= usize::MAX,
        ensures
            r.wf(),
            r.bits == bits,
            r.num_bits == bits@.len() * 8,
            r.num_hash_functions == num_hash_functions,
            r.num_items == 0,
    {
        let num_bits: usize = bits.len() * 8;
        BloomFilter { bits, num_bits, num_hash_functions, num_items: 0 }
    }

    /// The filter with the given bits, of which only so many are in use.
    #[must_use]
    pub fn from_bytes_with_size(bits: Vec<u8>, num_bits: usize, num_hash_functions: usize) -> (r:
        Self)
        ensures
            r.bits == bits,
            r.num_bits == num_bits,
            r.num_hash_functions == num_hash_functions,
            r.num_items == 0,
    {
        BloomFilter { bits, num_bits, num_hash_functions, num_items: 0 }
    }

    /// Sets the bits of a key.
    pub fn insert(&mut self, key: &[u8])
        requires
            old(self).wf(),
            old(self).can_hash(),
            old(self).num_items < usize::MAX,
        ensures
            final(self).wf(),
            bits_added(
                final(self).bits@,
                old(self).bits@,
                old(self).num_bits as int,
                old(self).num_hash_functions as int,
                key@,
            ),
            final(self).holds(key@),
            forall|other: Seq<u8>| #[trigger] old(self).holds(other) ==> final(self).holds(other),
            bits_gained(final(self).bits@, old(self).bits@).len() <= old(self).num_hash_functions,
            forall|p: int|
                0 <= p < 8 * old(self).bits@.len() && bit(old(self).bits@, p) ==> #[trigger] bit(
                    final(self).bits@,
                    p,
                ),
            final(self).bits@.len() == old(self).bits@.len(),
            final(self).num_bits == old(self).num_bits,
            final(self).num_hash_functions == old(self).num_hash_functions,
            final(self).num_items == old(self).num_items + 1,
    {
        let (h1, h2) = hash_key(key);
        let ghost before = self.bits@;
        let ghost n = self.num_bits as int;
        let mut i: usize = 0;
        while i < self.num_hash_functions
            invariant
                i <= self.num_hash_functions,
                h1 == crate::bloom::bits::fnv1a(key@),
                h2 == crate::bloom::bits::multiplicative(key@),
                n == self.num_bits,
                self.wf(),
                self.can_hash(),
                bits_added(self.bits@, before, n, i as int, key@),
                self.num_bits == old(self).num_bits,
                self.num_hash_functions == old(self).num_hash_functions,
                self.num_items == old(self).num_items,
            decreases self.num_hash_functions - i,
        {
            let ghost mid = self.bits@;
            let pos: usize = position_of(h1, h2, i, self.num_bits, Ghost(key@));
            set_bit(&mut self.bits, pos);
            proof {
                assert forall|p: int| 0 <= p < 8 * before.len() implies #[trigger] bit(
                    self.bits@,
                    p,
                ) == (bit(before, p) || is_bit_of(key@, i + 1, n, p)) by {
                    assert(bit(self.bits@, p) == (p == pos || bit(mid, p)));
                    assert(bit(mid, p) == (bit(before, p) || is_bit_of(key@, i as int, n, p)));
                    if p == pos {
                        assert(bit_position(key@, i as int, n) == p);
                    }
                    if is_bit_of(key@, i + 1, n, p) && p != pos {
                        let j = choose|j: int| 0 <= j < i + 1 && #[trigger] bit_position(key@, j, n) == p;
                        assert(j < i);
                        assert(is_bit_of(key@, i as int, n, p));
                    }
                    if is_bit_of(key@, i as int, n, p) {
                        let j = choose|j: int| 0 <= j < i && #[trigger] bit_position(key@, j, n) == p;
                        assert(is_bit_of(key@, i + 1, n, p));
                    }
                }
            }
            i += 1;
        }
        self.num_items = self.num_items + 1;
        proof {
            law_insertion_sets_few_bits(
                self.bits@,
                before,
                n,
                self.num_hash_functions as int,
                key@,
                0,
            );
        }
        proof {
            if n > 0 {
                let k = self.num_hash_functions as int;
                law_no_false_negatives(self.bits@, before, n, k, key@, key@);
                assert forall|other: Seq<u8>| #[trigger] old(self).holds(other) implies self.holds(
                    other,
                ) by {
                    law_no_false_negatives(self.bits@, before, n, k, key@, other);
                }
            }
        }
    }

    /// Whether the key may be present: all its bits are set.
    #[must_use]
    pub fn contains(&self, key: &[u8]) -> (r: bool)
        requires
            self.wf(),
            self.can_hash(),
        ensures
            r == self.holds(key@),
    {
        let (h1, h2) = hash_key(key);
        let mut i: usize = 0;
        while i < self.num_hash_functions
            invariant
                i <= self.num_hash_functions,
                h1 == crate::bloom::bits::fnv1a(key@),
                h2 == crate::bloom::bits::multiplicative(key@),
                self.wf(),
                self.can_hash(),
                forall|j: int|
                    0 <= j < i ==> bit(
                        self.bits@,
                        #[trigger] bit_position(key@, j, self.num_bits as int),
                    ),
            decreases self.num_hash_functions - i,
        {
            let pos: usize = position_of(h1, h2, i, self.num_bits, Ghost(key@));
            if !get_bit(&self.bits, pos) {
                assert(!bit(self.bits@, bit_position(key@, i as int, self.num_bits as int)));
                return false;
            }
            i += 1;
        }
        true
    }

    /// The number of bits.
    #[must_use]
    pub fn num_bits(&self) -> (r: usize)
        ensures
            r == self.num_bits,
    {
        self.num_bits
    }

    /// The number of hash functions.
    #[must_use]
    pub fn num_hash_functions(&self) -> (r: usize)
        ensures
            r == self.num_hash_functions,
    {
        self.num_hash_functions
    }

    /// The number of items inserted.
    #[must_use]
    pub fn num_items(&self) -> (r: usize)
        ensures
            r == self.num_items,
    {
        self.num_items
    }

    /// The bits as bytes.
    #[must_use]
    pub fn as_bytes(&self) -> (r: &[u8])
        ensures
            r@ == self.bits@,
    {
        self.bits.as_slice()
    }

    /// Clears all bits.
    pub fn clear(&mut self)
        ensures
            final(self).bits@.len() == old(self).bits@.len(),
            forall|i: int| 0 <= i < final(self).bits@.len() ==> #[trigger] final(self).bits@[i] == 0,
            final(self).num_bits == old(self).num_bits,
            final(self).num_hash_functions == old(self).num_hash_functions,
            final(self).num_items == 0,
    {
        self.bits = zeros(self.bits.len());
        self.num_items = 0;
    }

    /// A filter is part of other tables: it has no identifier of its own.
    pub fn table_id(&self) -> (r: TableId)
        ensures
            r == TableId(0),
    {
        TableId(0)
    }

    /// The name of every filter.
    pub fn name(&self) -> (r: &str)
        ensures
            r@ == "bloom_filter"@,
    {
        "bloom_filter"
    }

    /// What the filter can do.
    pub fn capabilities(&self) -> (r: SpecialtyTableCapabilities)
        ensures
            r == (SpecialtyTableCapabilities {
                exact: false,
                approximate: true,
                ordered: false,
                sparse: false,
                supports_delete: false,
                supports_range_query: false,
                supports_prefix_query: false,
                supports_scoring: false,
                supports_incremental_rebuild: false,
                may_be_stale: false,
            }),
    {
        SpecialtyTableCapabilities {
            exact: false,
            approximate: true,
            ordered: false,
            sparse: false,
            supports_delete: false,
            supports_range_query: false,
            supports_prefix_query: false,
            supports_scoring: false,
            supports_incremental_rebuild: false,
            may_be_stale: false,
        }
    }

    /// Sets the bits of a key, whatever the transaction.
    pub fn insert_key(
        &mut self,
        key: &[u8],
        _tx_id: TransactionId,
        _commit_lsn: LogSequenceNumber,
    ) -> (r: TableResult<()>)
        requires
            old(self).wf(),
            old(self).can_hash(),
            old(self).num_items < usize::MAX,
        ensures
            r is Ok,
            final(self).wf(),
            bits_added(
                final(self).bits@,
                old(self).bits@,
                old(self).num_bits as int,
                old(self).num_hash_functions as int,
                key@,
            ),
            final(self).num_bits == old(self).num_bits,
            final(self).num_hash_functions == old(self).num_hash_functions,
            final(self).num_items == old(self).num_items + 1,
    {
        self.insert(key);
        Ok(())
    }

    /// Whether the key may be present.
    pub fn might_contain(&self, key: &[u8]) -> (r: TableResult<bool>)
        requires
            self.wf(),
            self.can_hash(),
        ensures
            r == Ok::<bool, TableError>(self.holds(key@)),
    {
        Ok(self.contains(key))
    }

    /// What is known of the filter's contents.
    pub fn stats(&self) -> (r: TableResult<SpecialtyTableStats>)
        ensures
            r == Ok::<SpecialtyTableStats, TableError>(
                SpecialtyTableStats {
                    entry_count: Some(self.num_items as u64),
                    size_bytes: Some(self.bits@.len() as u64),
                    distinct_keys: Some(self.num_items as u64),
                    stale_entries: Some(0),
                    last_updated_lsn: None,
                },
            ),
    {
        Ok(
            SpecialtyTableStats {
                entry_count: Some(self.num_items as u64),
                size_bytes: Some(self.bits.len() as u64),
                distinct_keys: Some(self.num_items as u64),
                stale_entries: Some(0),
                last_updated_lsn: None,
            },
        )
    }

    /// Checks that the bit array has the size that the number of bits asks for. The report warns
    /// of a high false positive rate where the caller has found one.
    pub fn verify(&self, rate_is_high: bool) -> (r: TableResult<VerificationReport>)
        ensures
            r is Ok,
            r->Ok_0.checked_items == 1,
            r->Ok_0.errors@ == (if self.bits@.len() == bytes_for(self.num_bits as int) {
                Seq::empty()
            } else {
                seq![
                    ConsistencyError {
                        error_type: ConsistencyErrorType::InvalidPointer,
                        expected: bytes_for(self.num_bits as int) as u64,
                        found: self.bits@.len() as u64,
                    },
                ]
            }),
            r->Ok_0.warnings@.len() == (if self.num_items > 0 && rate_is_high {
                1nat
            } else {
                0nat
            }),
            r->Ok_0.warnings@.len() == 1 ==> r->Ok_0.warnings@[0].location@ == "bloom_filter"@
                && r->Ok_0.warnings@[0].detail == self.num_items as u64,
    {
        let mut errors: Vec<ConsistencyError> = Vec::new();
        let mut warnings: Vec<ConsistencyWarning> = Vec::new();
        let expected: usize = byte_count(self.num_bits);
        let found: usize = self.bits.len();
        if found != expected {
            errors.push(
                ConsistencyError {
                    error_type: ConsistencyErrorType::InvalidPointer,
                    expected: expected as u64,
                    found: found as u64,
                },
            );
        }
        if self.num_items > 0 && rate_is_high {
            warnings.push(
                ConsistencyWarning {
                    location: "bloom_filter".to_string(),
                    detail: self.num_items as u64,
                },
            );
        }
        assert(found != expected ==> errors@ =~= seq![
            ConsistencyError {
                error_type: ConsistencyErrorType::InvalidPointer,
                expected: expected as u64,
                found: found as u64,
            },
        ]);
        Ok(VerificationReport { checked_items: 1, errors, warnings })
    }
}

/// Builds filters step by step.
#[derive(Clone, Copy, Debug)]
pub struct BloomFilterBuilder {
    pub num_items: usize,
    pub bits_per_key: usize,
    pub num_hash_functions: Option<usize>,
}

impl BloomFilterBuilder {
    /// A builder for so many items, at ten bits per key.
    pub fn new(num_items: usize) -> (r: Self)
        ensures
            r == (BloomFilterBuilder { num_items, bits_per_key: 10, num_hash_functions: None }),
    {
        BloomFilterBuilder { num_items, bits_per_key: 10, num_hash_functions: None }
    }

    /// Sets the number of bits per key.
    pub fn bits_per_key(self, bits: usize) -> (r: Self)
        ensures
            r == (BloomFilterBuilder { bits_per_key: bits, ..self }),
    {
        BloomFilterBuilder { bits_per_key: bits, ..self }
    }

    /// Sets the number of hash functions.
    pub fn num_hash_functions(self, num: usize) -> (r: Self)
        ensures
            r == (BloomFilterBuilder { num_hash_functions: Some(num), ..self }),
    {
        BloomFilterBuilder { num_hash_functions: Some(num), ..self }
    }

    /// The filter.
    pub fn build(self) -> (r: BloomFilter)
        requires
            self.num_items * self.bits_per_key <= usize::MAX,
        ensures
            r.wf(),
            r.num_bits == self.num_items * self.bits_per_key,
            r.bits@.len() == bytes_for(r.num_bits as int),
            forall|i: int| 0 <= i < r.bits@.len() ==> #[trigger] r.bits@[i] == 0,
            r.num_hash_functions == (match self.num_hash_functions {
                Some(n) => n as int,
                None => best_hash_count(self.bits_per_key as int),
            }),
            r.num_items == 0,
    {
        BloomFilter::new(self.num_items, self.bits_per_key, self.num_hash_functions)
    }
}

} // verus!
