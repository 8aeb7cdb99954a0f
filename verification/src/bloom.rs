//! A fixed-size bit-array membership filter over field identifiers.
//!
//! Inserting a key sets one bit chosen by a deterministic hash of the key's
//! big-endian bytes; a membership query reads that same bit.  Because the hash
//! is deterministic and inserts only ever set bits, a query never reports an
//! inserted key as absent.

use vstd::prelude::*;

use crate::codec::{put_u64_be, spec_u64_to_be_bytes};

verus! {

/// Deterministic multiply-and-add hash of a byte sequence, kept below `2^32`.
pub open spec fn spec_bkdr_hash(s: Seq<u8>) -> u64
    decreases s.len(),
{
    if s.len() == 0 {
        0u64
    } else {
        (((spec_bkdr_hash(s.drop_last()) * 131) + s.last()) % 0x1_0000_0000) as u64
    }
}

/// The bit index a key occupies in a filter of `nbits` bits.
pub open spec fn spec_filter_slot(key: u64, nbits: int) -> int
    recommends
        nbits > 0,
{
    spec_bkdr_hash(spec_u64_to_be_bytes(key)) as int % nbits
}

/// The bit array after inserting `key`: the byte holding `key`'s slot gains
/// that slot's bit, every other byte is unchanged.
pub open spec fn spec_filter_insert(bits: Seq<u8>, key: u64) -> Seq<u8>
    recommends
        bits.len() >= 1,
{
    let slot = spec_filter_slot(key, bits.len() as int * 8);
    bits.update(slot / 8, bits[slot / 8] | (1u8 << ((slot % 8) as u8)))
}

/// Whether bit `slot` is set in a bit array stored least-significant-bit
/// first within each byte.
pub open spec fn spec_bit_set(bits: Seq<u8>, slot: int) -> bool
    recommends
        0 <= slot < bits.len() * 8,
{
    (bits[slot / 8] >> ((slot % 8) as u8)) & 1 == 1
}

/// Hashes the big-endian bytes of a 64-bit key.
pub fn bkdr_hash_u64(key: u64) -> (h: u64)
    ensures
        h == spec_bkdr_hash(spec_u64_to_be_bytes(key)),
        h < 0x1_0000_0000,
{
    let mut bytes: Vec<u8> = Vec::new();
    put_u64_be(&mut bytes, key);
    let mut h: u64 = 0;
    let mut i: usize = 0;
    while i < bytes.len()
        invariant
            bytes@ == spec_u64_to_be_bytes(key),
            0 <= i <= bytes@.len(),
            h == spec_bkdr_hash(bytes@.take(i as int)),
            h < 0x1_0000_0000,
        decreases bytes@.len() - i,
    {
        let b: u8 = bytes[i];
        h = (h * 131 + (b as u64)) % 0x1_0000_0000;
        proof {
            assert(bytes@.take(i + 1).drop_last() =~= bytes@.take(i as int));
            assert(bytes@.take(i + 1).last() == bytes@[i as int]);
        }
        i = i + 1;
    }
    proof {
        assert(bytes@.take(bytes@.len() as int) =~= bytes@);
    }
    h
}

/// The membership filter: a bit array whose size is fixed when the filter is
/// created.  It answers "was this key inserted" with no false negatives.
pub struct BloomFilter {
    bits: Vec<u8>,
}

impl View for BloomFilter {
    type V = Seq<u8>;

    closed spec fn view(&self) -> Seq<u8> {
        self.bits@
    }
}

impl BloomFilter {
    /// The filter's bit array has a fixed, positive, byte-aligned size small
    /// enough for byte indexing.
    pub open spec fn wf(&self) -> bool {
        1 <= self@.len() <= 0x1000_0000
    }

    /// Whether the bit chosen by `key`'s hash is set.
    pub open spec fn marked(&self, key: u64) -> bool
        recommends
            self.wf(),
    {
        spec_bit_set(self@, spec_filter_slot(key, self@.len() as int * 8))
    }

    /// Creates an all-zero filter of `nbits` bits; no key is marked yet.
    pub fn new(nbits: u64) -> (r: BloomFilter)
        requires
            nbits % 8 == 0,
            8 <= nbits <= 0x8000_0000,
        ensures
            r.wf(),
            r@.len() == nbits / 8,
            forall|key: u64| !r.marked(key),
            forall|i: int| 0 <= i < r@.len() ==> r@[i] == 0u8,
    {
        let nbytes: usize = (nbits / 8) as usize;
        let mut bits: Vec<u8> = Vec::new();
        let mut i: usize = 0;
        while i < nbytes
            invariant
                0 <= i <= nbytes,
                bits@.len() == i,
                forall|j: int| 0 <= j < i ==> bits@[j] == 0u8,
            decreases nbytes - i,
        {
            bits.push(0u8);
            i = i + 1;
        }
        let r = BloomFilter { bits };
        proof {
            assert forall|key: u64| !r.marked(key) by {
                let slot = spec_filter_slot(key, r@.len() as int * 8);
                lemma_mod_range(spec_bkdr_hash(spec_u64_to_be_bytes(key)) as int, r@.len() as int * 8);
                lemma_slot_byte_range(slot, r@.len() as int);
                let t = (slot % 8) as u8;
                assert((0u8 >> t) & 1 == 0) by (bit_vector);
            }
        }
        r
    }

    /// Sets the bit chosen by `key`'s hash.  Every key marked before stays
    /// marked: the filter only ever gains bits.
    pub fn insert(&mut self, key: u64)
        requires
            old(self).wf(),
        ensures
            final(self).wf(),
            final(self)@.len() == old(self)@.len(),
            final(self).marked(key),
            forall|k2: u64| old(self).marked(k2) ==> final(self).marked(k2),
            final(self)@ == spec_filter_insert(old(self)@, key),
    {
        let ghost old_bits = self.bits@;
        let nbits: u64 = (self.bits.len() as u64) * 8;
        let h = bkdr_hash_u64(key);
        let slot: u64 = h % nbits;
        proof {
            lemma_mod_range(h as int, nbits as int);
            lemma_slot_byte_range(slot as int, self.bits@.len() as int);
        }
        let byte_i: usize = (slot / 8) as usize;
        let bit_i: u8 = (slot % 8) as u8;
        let b: u8 = self.bits[byte_i];
        let b2: u8 = b | (1u8 << bit_i);
        self.bits[byte_i] = b2;
        proof {
            let t = bit_i;
            assert(t < 8 ==> ((b | (1u8 << t)) >> t) & 1 == 1) by (bit_vector);
            assert(self.marked(key));
            assert(self.bits@ =~= spec_filter_insert(old_bits, key));
            assert forall|k2: u64| spec_bit_set(old_bits, spec_filter_slot(k2, old_bits.len() as int * 8))
                implies self.marked(k2) by {
                let slot2 = spec_filter_slot(k2, old_bits.len() as int * 8);
                lemma_mod_range(
                    spec_bkdr_hash(spec_u64_to_be_bytes(k2)) as int,
                    old_bits.len() as int * 8,
                );
                lemma_slot_byte_range(slot2, old_bits.len() as int);
                if slot2 / 8 == byte_i as int {
                    let t2 = (slot2 % 8) as u8;
                    assert(t2 < 8 && (b >> t2) & 1 == 1 ==> ((b | (1u8 << t)) >> t2) & 1 == 1)
                        by (bit_vector);
                } else {
                    assert(self.bits@[slot2 / 8] == old_bits[slot2 / 8]);
                }
            }
        }
    }

    /// Reports whether `key`'s bit is set.  An inserted key is always
    /// reported present; a key never inserted may collide and also report
    /// present, but never the other way round.
    pub fn contains(&self, key: u64) -> (r: bool)
        requires
            self.wf(),
        ensures
            r == self.marked(key),
    {
        let nbits: u64 = (self.bits.len() as u64) * 8;
        let h = bkdr_hash_u64(key);
        let slot: u64 = h % nbits;
        proof {
            lemma_mod_range(h as int, nbits as int);
            lemma_slot_byte_range(slot as int, self.bits@.len() as int);
        }
        let byte_i: usize = (slot / 8) as usize;
        let bit_i: u8 = (slot % 8) as u8;
        let b: u8 = self.bits[byte_i];
        ((b >> bit_i) & 1) == 1
    }

    /// The filter's raw bytes, as they are laid down in the footer.
    pub fn bytes(&self) -> (r: &Vec<u8>)
        ensures
            r@ == self@,
    {
        &self.bits
    }
}

/// A non-negative number taken modulo a positive bound lands inside it.
pub proof fn lemma_mod_range(x: int, m: int)
    requires
        x >= 0,
        m > 0,
    ensures
        0 <= x % m < m,
{
}

/// A bit slot below `8 * nbytes` addresses a byte below `nbytes`.
pub proof fn lemma_slot_byte_range(slot: int, nbytes: int)
    requires
        nbytes > 0,
        0 <= slot < nbytes * 8,
    ensures
        0 <= slot / 8 < nbytes,
        0 <= slot % 8 < 8,
{
    assert(slot / 8 < nbytes) by (nonlinear_arith)
        requires
            0 <= slot < nbytes * 8,
    ;
}


/// Inserting a key into a filter's bit array sets that key's bit, keeps
/// every bit that was already set, and keeps the array's size.  This is the
/// no-false-negative law at the level of the raw bytes the footer stores.
pub proof fn lemma_filter_insert_marks(bits: Seq<u8>, key: u64)
    requires
        1 <= bits.len() <= 0x1000_0000,
    ensures
        spec_filter_insert(bits, key).len() == bits.len(),
        spec_bit_set(spec_filter_insert(bits, key), spec_filter_slot(key, bits.len() as int * 8)),
        forall|k2: u64|
            spec_bit_set(bits, #[trigger] spec_filter_slot(k2, bits.len() as int * 8))
                ==> spec_bit_set(
                spec_filter_insert(bits, key),
                spec_filter_slot(k2, bits.len() as int * 8),
            ),
{
    let nbits = bits.len() as int * 8;
    let slot = spec_filter_slot(key, nbits);
    lemma_mod_range(spec_bkdr_hash(spec_u64_to_be_bytes(key)) as int, nbits);
    lemma_slot_byte_range(slot, bits.len() as int);
    let b = bits[slot / 8];
    let t = (slot % 8) as u8;
    let new = spec_filter_insert(bits, key);
    assert(t < 8 ==> ((b | (1u8 << t)) >> t) & 1 == 1) by (bit_vector);
    assert forall|k2: u64|
        spec_bit_set(bits, spec_filter_slot(k2, nbits)) implies spec_bit_set(
        new,
        spec_filter_slot(k2, nbits),
    ) by {
        let slot2 = spec_filter_slot(k2, nbits);
        lemma_mod_range(spec_bkdr_hash(spec_u64_to_be_bytes(k2)) as int, nbits);
        lemma_slot_byte_range(slot2, bits.len() as int);
        if slot2 / 8 == slot / 8 {
            let t2 = (slot2 % 8) as u8;
            assert(t2 < 8 && (b >> t2) & 1 == 1 ==> ((b | (1u8 << t)) >> t2) & 1 == 1)
                by (bit_vector);
        } else {
            assert(new[slot2 / 8] == bits[slot2 / 8]);
        }
    }
}

} // verus!
