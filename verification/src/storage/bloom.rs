//! Bloom filters: which keys a table surely does not hold.
use crate::bytes;
use crate::checksum;
use vstd::prelude::*;

verus! {

/// A set of bits, some of which each key sets.
#[derive(Debug)]
pub struct BloomFilter {
    pub bits: Vec<u8>,
    pub k: usize,
}

/// The hash of a key under a seed: the checksum of the key and the seed's
/// eight bytes.
pub open spec fn key_hash(key: Seq<u8>, seed: int) -> u32 {
    checksum::crc32(key + bytes::le_bytes(seed as nat, 8))
}

/// Bit `j` of the bytes is set.
pub open spec fn bit_set(bits: Seq<u8>, j: int) -> bool {
    bits[j / 8] & (1u8 << ((j % 8) as u8)) != 0
}

/// The bit that the key sets under a seed, in a filter of `len` bytes.
pub open spec fn slot(key: Seq<u8>, seed: int, len: nat) -> int {
    key_hash(key, seed) as int % (len * 8) as int
}

/// The key sets bit `j` with one of its first `k` seeds.
pub open spec fn sets(key: Seq<u8>, k: int, len: nat, j: int) -> bool {
    exists|i: int| 0 <= i < k && #[trigger] slot(key, i, len) == j
}

/// A filter may hold the key: all bits that the key sets are set.
pub open spec fn may_hold(bits: Seq<u8>, k: int, key: Seq<u8>) -> bool {
    bits.len() > 0 && forall|i: int| 0 <= i < k ==> bit_set(bits, #[trigger] slot(key, i, bits.len()))
}

/// The bits are those that the keys set, and no others.
pub open spec fn filter_of(bits: Seq<u8>, keys: Seq<Seq<u8>>, k: int) -> bool {
    forall|j: int|
        0 <= j < bits.len() * 8 ==> (#[trigger] bit_set(bits, j) <==> exists|a: int|
            0 <= a < keys.len() && sets(#[trigger] keys[a], k, bits.len(), j))
}

/// Sets one bit.
fn set_bit(bits: &mut Vec<u8>, j: usize)
    requires
        j < old(bits)@.len() * 8,
    ensures
        final(bits)@.len() == old(bits)@.len(),
        forall|i: int|
            0 <= i < old(bits)@.len() * 8 ==> (#[trigger] bit_set(final(bits)@, i) <==> bit_set(
                old(bits)@,
                i,
            ) || i == j),
{
    let byte: usize = j / 8;
    let shift: u8 = (j % 8) as u8;
    let b: u8 = bits[byte];
    let mask: u8 = 1u8 << shift;
    bits.set(byte, b | mask);
    proof {
        assert forall|i: int| 0 <= i < old(bits)@.len() * 8 implies (#[trigger] bit_set(
            bits@,
            i,
        ) <==> bit_set(old(bits)@, i) || i == j) by {
            if i / 8 == byte as int {
                let s = (i % 8) as u8;
                if s == shift {
                    assert((b | (1u8 << shift)) & (1u8 << shift) != 0) by (bit_vector)
                        requires
                            shift < 8,
                    ;
                    assert(i == j);
                } else {
                    assert(((b | (1u8 << shift)) & (1u8 << s)) == (b & (1u8 << s))) by (bit_vector)
                        requires
                            shift < 8,
                            s < 8,
                            s != shift,
                    ;
                }
            }
        }
    }
}

impl BloomFilter {
    /// A filter of the given size that holds the keys. No keys make an empty
    /// filter, which holds nothing.
    pub fn new(keys: &[Vec<u8>], num_bits: usize, num_hashes: usize) -> (r: Self)
        requires
            keys@.len() > 0 ==> 0 < num_bits <= usize::MAX - 8,
        ensures
            keys@.len() == 0 ==> r.bits@.len() == 0 && r.k == 0,
            keys@.len() > 0 ==> r.bits@.len() == (num_bits + 7) / 8,
            keys@.len() > 0 ==> r.k == (if num_hashes < 1 {
                1
            } else if num_hashes > 30 {
                30
            } else {
                num_hashes as int
            }),
            filter_of(r.bits@, bytes::views(keys@), r.k as int),
    {
        if keys.len() == 0 {
            return BloomFilter { bits: Vec::new(), k: 0 };
        }
        let num_bytes: usize = (num_bits + 7) / 8;
        let mut bits: Vec<u8> = Vec::new();
        let mut n: usize = 0;
        while n < num_bytes
            invariant
                n <= num_bytes,
                bits@.len() == n,
                forall|i: int| 0 <= i < n ==> #[trigger] bits@[i] == 0,
            decreases num_bytes - n,
        {
            bits.push(0);
            n = n + 1;
        }
        let k: usize = if num_hashes < 1 {
            1
        } else if num_hashes > 30 {
            30
        } else {
            num_hashes
        };
        let ghost all = bytes::views(keys@);
        proof {
            assert forall|j: int| 0 <= j < bits@.len() * 8 implies !#[trigger] bit_set(bits@, j) by {
                let s = (j % 8) as u8;
                assert(0u8 & (1u8 << s) == 0) by (bit_vector);
            }
        }
        let mut a: usize = 0;
        while a < keys.len()
            invariant
                a <= keys@.len(),
                all == bytes::views(keys@),
                bits@.len() == num_bytes,
                0 < num_bytes,
                num_bytes * 8 <= usize::MAX,
                forall|j: int|
                    0 <= j < bits@.len() * 8 ==> (#[trigger] bit_set(bits@, j) <==> exists|b: int|
                        0 <= b < a && sets(#[trigger] all[b], k as int, bits@.len(), j)),
            decreases keys@.len() - a,
        {
            let ghost before = bits@;
            let key = keys[a].as_slice();
            let mut i: usize = 0;
            while i < k
                invariant
                    i <= k,
                    bits@.len() == num_bytes,
                    before.len() == num_bytes,
                    0 < num_bytes,
                    num_bytes * 8 <= usize::MAX,
                    forall|j: int|
                        0 <= j < bits@.len() * 8 ==> (#[trigger] bit_set(bits@, j) <==> bit_set(
                            before,
                            j,
                        ) || sets(key@, i as int, bits@.len(), j)),
                decreases k - i,
            {
                let hash: u32 = Self::hash(key, i);
                let idx: usize = (hash as usize) % (num_bytes * 8);
                let ghost prior = bits@;
                set_bit(&mut bits, idx);
                proof {
                    assert(slot(key@, i as int, bits@.len()) == idx);
                    assert forall|j: int| 0 <= j < bits@.len() * 8 implies (#[trigger] bit_set(
                        bits@,
                        j,
                    ) <==> bit_set(before, j) || sets(key@, i + 1, bits@.len(), j)) by {
                        assert(bit_set(prior, j) <==> bit_set(before, j) || sets(
                            key@,
                            i as int,
                            bits@.len(),
                            j,
                        ));
                        if sets(key@, i + 1, bits@.len(), j) {
                            let w = choose|w: int|
                                0 <= w < i + 1 && #[trigger] slot(key@, w, bits@.len()) == j;
                            if w < i {
                                assert(sets(key@, i as int, bits@.len(), j));
                            }
                        }
                        if sets(key@, i as int, bits@.len(), j) {
                            let w = choose|w: int|
                                0 <= w < i && #[trigger] slot(key@, w, bits@.len()) == j;
                            assert(slot(key@, w, bits@.len()) == j);
                        }
                    }
                }
                i = i + 1;
            }
            proof {
                assert(all[a as int] == key@);
                assert forall|j: int| 0 <= j < bits@.len() * 8 implies (#[trigger] bit_set(bits@, j)
                    <==> exists|b: int|
                    0 <= b < a + 1 && sets(#[trigger] all[b], k as int, bits@.len(), j)) by {
                    assert(bit_set(before, j) <==> exists|b: int|
                        0 <= b < a && sets(#[trigger] all[b], k as int, bits@.len(), j));
                }
            }
            a = a + 1;
        }
        BloomFilter { bits, k }
    }

    /// The hash of a key under a seed.
    pub fn hash(key: &[u8], seed: usize) -> (r: u32)
        ensures
            r == key_hash(key@, seed as int),
    {
        let mut buf: Vec<u8> = bytes::copy_bytes(key);
        bytes::push_le(&mut buf, seed as u64, 8);
        checksum::crc32_of(buf.as_slice())
    }

    /// Whether the filter may hold the key.
    pub fn contains(&self, key: &[u8]) -> (r: bool)
        requires
            self.bits@.len() * 8 <= usize::MAX,
        ensures
            r == may_hold(self.bits@, self.k as int, key@),
    {
        if self.bits.len() == 0 {
            return false;
        }
        let num_bits: usize = self.bits.len() * 8;
        let mut i: usize = 0;
        while i < self.k
            invariant
                i <= self.k,
                num_bits == self.bits@.len() * 8,
                0 < num_bits,
                forall|w: int|
                    0 <= w < i ==> bit_set(
                        self.bits@,
                        #[trigger] slot(key@, w, self.bits@.len()),
                    ),
            decreases self.k - i,
        {
            let hash: u32 = Self::hash(key, i);
            let idx: usize = (hash as usize) % num_bits;
            assert(slot(key@, i as int, self.bits@.len()) == idx);
            let mask: u8 = 1u8 << ((idx % 8) as u8);
            if self.bits[idx / 8] & mask == 0 {
                return false;
            }
            i = i + 1;
        }
        true
    }
}

/// A filter holds every key it was made from: it never denies one.
pub proof fn lemma_no_false_negatives(bits: Seq<u8>, keys: Seq<Seq<u8>>, k: int, a: int)
    requires
        filter_of(bits, keys, k),
        bits.len() > 0,
        0 <= a < keys.len(),
    ensures
        may_hold(bits, k, keys[a]),
{
    assert forall|i: int| 0 <= i < k implies bit_set(bits, #[trigger] slot(keys[a], i, bits.len())) by {
        let j = slot(keys[a], i, bits.len());
        assert(0 <= j < bits.len() * 8);
        assert(sets(keys[a], k, bits.len(), j));
    }
}

} // verus!
