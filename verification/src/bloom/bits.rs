//! What Bloom filters are made of: bit arrays and the hashes that give a key its bits.
use vstd::prelude::*;

verus! {

/// The FNV-1a hash of a key.
pub open spec fn fnv1a(key: Seq<u8>) -> u64
    decreases key.len(),
{
    if key.len() == 0 {
        0xcbf2_9ce4_8422_2325u64
    } else {
        (fnv1a(key.drop_last()) ^ (key.last() as u64)).wrapping_mul(0x0100_0000_01b3u64)
    }
}

/// The multiplicative hash of a key, to the base 31.
pub open spec fn multiplicative(key: Seq<u8>) -> u64
    decreases key.len(),
{
    if key.len() == 0 {
        0u64
    } else {
        multiplicative(key.drop_last()).wrapping_mul(31u64).wrapping_add(key.last() as u64)
    }
}

/// The bit that the hash function number `i` gives to a key: double hashing.
pub open spec fn bit_position(key: Seq<u8>, i: int, num_bits: int) -> int {
    (fnv1a(key).wrapping_add((i as u64).wrapping_mul(multiplicative(key))) as int) % num_bits
}

/// A bit of a byte.
pub open spec fn byte_bit(b: u8, i: u8) -> bool {
    b & (1u8 << i) != 0
}

/// A bit of a bit array.
pub open spec fn bit(bits: Seq<u8>, pos: int) -> bool {
    byte_bit(bits[pos / 8], (pos % 8) as u8)
}

/// One of the first `k` hash functions gives the bit to the key.
pub open spec fn is_bit_of(key: Seq<u8>, k: int, num_bits: int, pos: int) -> bool {
    exists|i: int| 0 <= i < k && #[trigger] bit_position(key, i, num_bits) == pos
}

/// The number of hash functions that suits a number of bits per key: seven tenths, roughly, the
/// logarithm of two.
pub open spec fn best_hash_count(bits_per_key: int) -> int {
    (693 * bits_per_key + 999) / 1000
}

/// The number of bytes that hold so many bits.
pub open spec fn bytes_for(num_bits: int) -> int {
    (num_bits + 7) / 8
}

/// The number of hash functions is 0.693 times the bits per key, rounded up.
pub proof fn law_hash_count_is_rounded_up(bits_per_key: int)
    ensures
        1000 * best_hash_count(bits_per_key) >= 693 * bits_per_key,
        1000 * (best_hash_count(bits_per_key) - 1) < 693 * bits_per_key,
{
}

/// As many bytes are taken as the bits need, and no more.
pub proof fn law_bytes_hold_the_bits(num_bits: int)
    ensures
        8 * bytes_for(num_bits) >= num_bits,
        8 * (bytes_for(num_bits) - 1) < num_bits,
{
}

/// The number of bytes that hold so many bits.
pub fn byte_count(num_bits: usize) -> (r: usize)
    ensures
        r == bytes_for(num_bits as int),
{
    if num_bits % 8 == 0 {
        num_bits / 8
    } else {
        num_bits / 8 + 1
    }
}

/// The number of hash functions that suits a number of bits per key.
pub fn hash_count(bits_per_key: usize) -> (r: usize)
    ensures
        r == best_hash_count(bits_per_key as int),
{
    let n: u128 = (693u128 * (bits_per_key as u128) + 999u128) / 1000u128;
    n as usize
}

/// Two hashes of a key.
pub fn hash_key(key: &[u8]) -> (r: (u64, u64))
    ensures
        r == (fnv1a(key@), multiplicative(key@)),
{
    let mut h1: u64 = 0xcbf2_9ce4_8422_2325u64;
    let mut h2: u64 = 0u64;
    let mut i: usize = 0;
    assert(key@.take(0) =~= Seq::empty());
    while i < key.len()
        invariant
            i <= key@.len(),
            h1 == fnv1a(key@.take(i as int)),
            h2 == multiplicative(key@.take(i as int)),
        decreases key@.len() - i,
    {
        let byte: u8 = key[i];
        proof {
            assert(key@.take(i + 1).drop_last() =~= key@.take(i as int));
            assert(key@.take(i + 1).last() == byte);
        }
        h1 = (h1 ^ (byte as u64)).wrapping_mul(0x0100_0000_01b3u64);
        h2 = h2.wrapping_mul(31u64).wrapping_add(byte as u64);
        i += 1;
    }
    assert(key@.take(i as int) =~= key@);
    (h1, h2)
}

/// An odd number that takes back another modulo two to the 64 takes multiplications back.
proof fn lemma_multiplied_apart(x: u64, y: u64, p: u64, q: u64)
    requires
        (p as int * q as int) % 0x1_0000_0000_0000_0000 == 1,
        x != y,
    ensures
        x.wrapping_mul(p) != y.wrapping_mul(p),
{
    lemma_taken_back(x, p, q);
    lemma_taken_back(y, p, q);
}

proof fn lemma_taken_back(x: u64, p: u64, q: u64)
    requires
        (p as int * q as int) % 0x1_0000_0000_0000_0000 == 1,
    ensures
        x.wrapping_mul(p) == (x as int * p as int) % 0x1_0000_0000_0000_0000,
        (x.wrapping_mul(p) as int * q as int) % 0x1_0000_0000_0000_0000 == x,
{
    let m: int = 0x1_0000_0000_0000_0000;
    let xp = x as int * p as int;
    let pq = p as int * q as int;
    assert(x.wrapping_mul(p) == xp % m);
    vstd::arithmetic::div_mod::lemma_mul_mod_noop_left(xp, q as int, m);
    assert(xp * q as int == x as int * pq) by (nonlinear_arith)
        requires
            xp == x as int * p as int,
            pq == p as int * q as int,
    ;
    vstd::arithmetic::div_mod::lemma_mul_mod_noop_right(x as int, pq, m);
    assert((x as int * 1) % m == x as int);
}

/// A byte goes into the first hash: other hashes before it, or another byte, give another hash.
pub proof fn law_first_hash_takes_in_each_byte(a: Seq<u8>, b: Seq<u8>, x: u8, y: u8)
    ensures
        fnv1a(a) != fnv1a(b) ==> fnv1a(a.push(x)) != fnv1a(b.push(x)),
        x != y ==> fnv1a(a.push(x)) != fnv1a(a.push(y)),
{
    let p = 0x0100_0000_01b3u64;
    let q = 0xce96_5057_aff6_957bu64;
    assert((p as int * q as int) % 0x1_0000_0000_0000_0000 == 1);
    assert(a.push(x).drop_last() =~= a);
    assert(a.push(y).drop_last() =~= a);
    assert(b.push(x).drop_last() =~= b);
    let h = fnv1a(a);
    let g = fnv1a(b);
    assert(h != g ==> h ^ (x as u64) != g ^ (x as u64)) by (bit_vector);
    assert(x != y ==> h ^ (x as u64) != h ^ (y as u64)) by (bit_vector);
    if h != g {
        lemma_multiplied_apart(h ^ (x as u64), g ^ (x as u64), p, q);
    }
    if x != y {
        lemma_multiplied_apart(h ^ (x as u64), h ^ (y as u64), p, q);
    }
}

/// A byte goes into the second hash: other hashes before it, or another byte, give another hash.
pub proof fn law_second_hash_takes_in_each_byte(a: Seq<u8>, b: Seq<u8>, x: u8, y: u8)
    ensures
        multiplicative(a) != multiplicative(b) ==> multiplicative(a.push(x)) != multiplicative(
            b.push(x),
        ),
        x != y ==> multiplicative(a.push(x)) != multiplicative(a.push(y)),
{
    let q = 0xef7b_def7_bdef_7bdfu64;
    assert((31int * q as int) % 0x1_0000_0000_0000_0000 == 1);
    assert(a.push(x).drop_last() =~= a);
    assert(a.push(y).drop_last() =~= a);
    assert(b.push(x).drop_last() =~= b);
    if multiplicative(a) != multiplicative(b) {
        lemma_multiplied_apart(multiplicative(a), multiplicative(b), 31, q);
    }
}

/// Two keys that differ in one byte, wherever it stands, have different hashes, the first as well
/// as the second: the hashes go over every byte.
pub proof fn law_hashes_go_over_every_byte(front: Seq<u8>, x: u8, y: u8, back: Seq<u8>)
    requires
        x != y,
    ensures
        fnv1a(front.push(x) + back) != fnv1a(front.push(y) + back),
        multiplicative(front.push(x) + back) != multiplicative(front.push(y) + back),
    decreases back.len(),
{
    if back.len() == 0 {
        law_first_hash_takes_in_each_byte(front, front, x, y);
        law_second_hash_takes_in_each_byte(front, front, x, y);
        assert(front.push(x) + back =~= front.push(x));
        assert(front.push(y) + back =~= front.push(y));
    } else {
        let less = back.drop_last();
        let last = back.last();
        law_hashes_go_over_every_byte(front, x, y, less);
        law_first_hash_takes_in_each_byte(front.push(x) + less, front.push(y) + less, last, last);
        law_second_hash_takes_in_each_byte(front.push(x) + less, front.push(y) + less, last, last);
        assert(front.push(x) + back =~= (front.push(x) + less).push(last));
        assert(front.push(y) + back =~= (front.push(y) + less).push(last));
    }
}

/// Multiplying with wrapping is multiplying modulo two to the 64.
proof fn lemma_wrapping_step(h: u64, factor: u64, more: u8)
    ensures
        h.wrapping_mul(factor) == ((h * factor) % 0x1_0000_0000_0000_0000) as u64,
        h.wrapping_mul(factor).wrapping_add(more as u64) == ((h * factor + more)
            % 0x1_0000_0000_0000_0000) as u64,
{
    let m: int = 0x1_0000_0000_0000_0000;
    let x = h as int * factor as int;
    vstd::arithmetic::div_mod::lemma_mod_bound(x, m);
    vstd::arithmetic::div_mod::lemma_mod_bound(x + more, m);
    vstd::arithmetic::div_mod::lemma_add_mod_noop_right(more as int, x, m);
    let y = h.wrapping_mul(factor);
    assert(y == x % m);
    assert(y.wrapping_add(more as u64) == (y + more) % m);
}

/// The first hash is folded over the bytes of a key from the first to the last, by exclusive or
/// and a multiplication modulo two to the 64.
pub proof fn law_first_hash_is_a_fold(key: Seq<u8>)
    ensures
        fnv1a(key) == key.fold_left(
            0xcbf2_9ce4_8422_2325u64,
            |h: u64, b: u8| (((h ^ (b as u64)) * 0x0100_0000_01b3u64) % 0x1_0000_0000_0000_0000) as u64,
        ),
    decreases key.len(),
{
    if key.len() > 0 {
        law_first_hash_is_a_fold(key.drop_last());
        let h = fnv1a(key.drop_last()) ^ (key.last() as u64);
        lemma_wrapping_step(h, 0x0100_0000_01b3u64, 0);
    }
}

/// The second hash is folded over the bytes of a key from the first to the last, by a
/// multiplication with 31 and an addition modulo two to the 64.
pub proof fn law_second_hash_is_a_fold(key: Seq<u8>)
    ensures
        multiplicative(key) == key.fold_left(
            0u64,
            |h: u64, b: u8| ((h * 31u64 + b) % 0x1_0000_0000_0000_0000) as u64,
        ),
    decreases key.len(),
{
    if key.len() > 0 {
        law_second_hash_is_a_fold(key.drop_last());
        lemma_wrapping_step(multiplicative(key.drop_last()), 31u64, key.last());
    }
}

/// The bits of a key are found by double hashing: the first hash and a multiple of the second, one
/// more for each hash function, modulo two to the 64 and then modulo the number of bits.
pub proof fn law_bits_step_by_the_second_hash(key: Seq<u8>, i: int, num_bits: int)
    requires
        0 <= i <= u64::MAX,
        0 < num_bits,
    ensures
        bit_position(key, i, num_bits) == ((fnv1a(key) + i * multiplicative(key))
            % 0x1_0000_0000_0000_0000) % num_bits,
        0 <= bit_position(key, i, num_bits) < num_bits,
{
    let m: int = 0x1_0000_0000_0000_0000;
    let h = fnv1a(key) as int;
    let s = multiplicative(key) as int;
    assert((i as u64).wrapping_mul(multiplicative(key)) == (i * s) % m);
    vstd::arithmetic::div_mod::lemma_add_mod_noop_right(h, i * s, m);
    assert(fnv1a(key).wrapping_add((i as u64).wrapping_mul(multiplicative(key))) == (h + (i * s) % m)
        % m);
    vstd::arithmetic::div_mod::lemma_mod_bound(
        fnv1a(key).wrapping_add((i as u64).wrapping_mul(multiplicative(key))) as int,
        num_bits,
    );
}

/// The bit that a hash function gives to a key with these hashes.
pub fn position_of(h1: u64, h2: u64, i: usize, num_bits: usize, Ghost(key): Ghost<Seq<u8>>) -> (r:
    usize)
    requires
        num_bits > 0,
        h1 == fnv1a(key),
        h2 == multiplicative(key),
    ensures
        r == bit_position(key, i as int, num_bits as int),
        r < num_bits,
{
    let hash: u64 = h1.wrapping_add((i as u64).wrapping_mul(h2));
    (hash % (num_bits as u64)) as usize
}

proof fn lemma_set_bit(b: u8, i: u8, j: u8)
    requires
        i < 8,
        j < 8,
    ensures
        byte_bit(b | (1u8 << i), j) == (i == j || byte_bit(b, j)),
{
    assert((b | (1u8 << i)) & (1u8 << j) != 0 <==> (i == j || b & (1u8 << j) != 0))
        by (bit_vector)
        requires
            i < 8,
            j < 8,
    ;
}

/// No bit of a zero byte is set.
pub proof fn lemma_zero_byte(i: u8)
    ensures
        !byte_bit(0u8, i),
{
    assert(0u8 & (1u8 << i) == 0) by (bit_vector);
}

/// Sets a bit.
pub fn set_bit(bits: &mut Vec<u8>, pos: usize)
    requires
        pos / 8 < old(bits)@.len(),
    ensures
        final(bits)@.len() == old(bits)@.len(),
        forall|p: int|
            0 <= p < 8 * old(bits)@.len() ==> #[trigger] bit(final(bits)@, p) == (p == pos || bit(
                old(bits)@,
                p,
            )),
{
    let byte: usize = pos / 8;
    let i: u8 = (pos % 8) as u8;
    let b: u8 = bits[byte];
    bits.set(byte, b | (1u8 << i));
    proof {
        assert forall|p: int| 0 <= p < 8 * old(bits)@.len() implies #[trigger] bit(bits@, p) == (p
            == pos || bit(old(bits)@, p)) by {
            lemma_set_bit(b, i, (p % 8) as u8);
        }
    }
}

/// Whether a bit is set.
pub fn get_bit(bits: &Vec<u8>, pos: usize) -> (r: bool)
    requires
        pos / 8 < bits@.len(),
    ensures
        r == bit(bits@, pos as int),
{
    let i: u8 = (pos % 8) as u8;
    (bits[pos / 8] & (1u8 << i)) != 0
}

/// So many zero bytes.
pub fn zeros(n: usize) -> (r: Vec<u8>)
    ensures
        r@.len() == n,
        forall|i: int| 0 <= i < n ==> #[trigger] r@[i] == 0,
{
    let mut r: Vec<u8> = Vec::new();
    let mut i: usize = 0;
    while i < n
        invariant
            i <= n,
            r@.len() == i,
            forall|j: int| 0 <= j < i ==> #[trigger] r@[j] == 0,
        decreases n - i,
    {
        r.push(0);
        i += 1;
    }
    r
}

} // verus!
