use vstd::prelude::*;
use vstd::string::StringSliceAdditionalSpecFns;

verus! {

/// The 32-bit x86 MurmurHash3 of a byte string under a seed, on a machine
/// whose byte order reads the bytes `[1, 0]` as the `u16` value `order`.
pub uninterp spec fn murmur3_x86_32_of(bytes: Seq<u8>, seed: u32, order: u16) -> u32;

/// Relies on `murmurhash3::murmurhash3_x86_32`, which reads its 4-byte
/// blocks in the machine's byte order: the hash depends on the bytes, the
/// seed and that order. The order is reported beside the hash, as
/// `u16::from_ne_bytes([1, 0])`.
#[verifier::external_body]
fn murmur3(bytes: &[u8], seed: u32) -> (r: (u32, u16))
    ensures
        r.0 == murmur3_x86_32_of(bytes@, seed, r.1),
{
    (murmurhash3::murmurhash3_x86_32(bytes, seed), u16::from_ne_bytes([1, 0]))
}

pub const HASH_SEED: u32 = 48221234;

/// Whether bit `b` (0 for the lowest) of `byte` is set.
pub open spec fn bit_of(byte: u8, b: u8) -> bool {
    byte & (1u8 << b) != 0
}

proof fn lemma_set_bit(x: u8, b: u8, c: u8)
    requires
        b < 8,
        c < 8,
    ensures
        bit_of(x | (1u8 << b), c) == (b == c || bit_of(x, c)),
{
    assert(((x | (1u8 << b)) & (1u8 << c) != 0) == (b == c || (x & (1u8 << c)) != 0))
        by (bit_vector)
        requires
            b < 8,
            c < 8,
    ;
}

proof fn lemma_zero_bits(c: u8)
    requires
        c < 8,
    ensures
        !bit_of(0u8, c),
{
    assert((0u8 & (1u8 << c)) == 0) by (bit_vector);
}

/// The slot of `key` in a filter of `size` slots, on a machine of byte
/// order `order`.
pub open spec fn slot_of(key: Seq<u8>, size: nat, order: u16) -> nat {
    (murmur3_x86_32_of(key, HASH_SEED, order) as nat) % size
}

/// The slot of a key and the byte order it was computed under.
fn slot(key: &str, size: usize) -> (r: (usize, u16))
    requires
        size > 0,
    ensures
        r.0 == slot_of(key.spec_bytes(), size as nat, r.1),
        r.0 < size,
{
    let (h, order) = murmur3(key.as_bytes(), HASH_SEED);
    let hashed = h as usize;
    (hashed % size, order)
}

/// The slot a key maps to in a filter of `size` slots.
pub fn hash(key: &str, size: usize) -> (r: usize)
    requires
        size > 0,
    ensures
        exists|order: u16| r == slot_of(key.spec_bytes(), size as nat, order),
        r < size,
{
    let (r, order) = slot(key, size);
    assert(r == slot_of(key.spec_bytes(), size as nat, order));
    r
}

/// A Bloom filter of `size` one-bit slots, one slot per key.
pub struct BloomFilter {
    buf: Vec<u8>,
    size: usize,
}

impl BloomFilter {
    pub closed spec fn size_spec(&self) -> nat {
        self.size as nat
    }

    pub closed spec fn wf(&self) -> bool {
        self.size > 0 && self.buf@.len() == self.size
    }

    /// Whether slot `p` is set.
    pub closed spec fn is_set(&self, p: nat) -> bool {
        bit_of(self.buf@[(p / 8) as int], (p % 8) as u8)
    }

    /// A filter of `size` slots, none set.
    pub fn new(size: usize) -> (r: Self)
        requires
            size > 0,
        ensures
            r.wf(),
            r.size_spec() == size,
            forall|p: nat| p < size ==> !#[trigger] r.is_set(p),
    {
        let r = BloomFilter { buf: vec![0u8; size], size };
        assert forall|p: nat| p < size implies !#[trigger] r.is_set(p) by {
            lemma_zero_bits((p % 8) as u8);
        }
        r
    }

    /// Sets the slot of `key`; every other slot is left as it was.
    pub fn add(&mut self, key: &str)
        requires
            old(self).wf(),
        ensures
            final(self).wf(),
            final(self).size_spec() == old(self).size_spec(),
            exists|order: u16|
                #![trigger slot_of(key.spec_bytes(), old(self).size_spec(), order)]
                forall|p: nat|
                    p < old(self).size_spec() ==> #[trigger] final(self).is_set(p) == (p == slot_of(
                        key.spec_bytes(),
                        old(self).size_spec(),
                        order,
                    ) || old(self).is_set(p)),
    {
        let (hashed, order) = slot(key, self.size);
        let index = hashed / 8;
        let bit_index = (hashed % 8) as u8;
        let byte = self.buf[index] | (1u8 << bit_index);
        self.buf.set(index, byte);
        assert forall|p: nat| p < old(self).size_spec() implies #[trigger] self.is_set(p) == (p
            == hashed || old(self).is_set(p)) by {
            let c = (p % 8) as u8;
            if p / 8 == index as nat {
                lemma_set_bit(old(self).buf@[index as int], bit_index, c);
                assert(p == hashed <==> c == bit_index) by (nonlinear_arith)
                    requires
                        p / 8 == hashed / 8,
                        c == p % 8,
                        bit_index == hashed % 8,
                ;
            } else {
                assert(p != hashed);
            }
        }
        assert(hashed == slot_of(key.spec_bytes(), old(self).size_spec(), order));
    }

    /// Whether the slot of `key` is set: false means `key` was never added.
    pub fn key_exists(&self, key: &str) -> (r: bool)
        requires
            self.wf(),
        ensures
            exists|order: u16| r == self.is_set(slot_of(key.spec_bytes(), self.size_spec(), order)),
    {
        let (hashed, order) = slot(key, self.size);
        assert(hashed == slot_of(key.spec_bytes(), self.size_spec(), order));
        let index = hashed / 8;
        let bit_index = (hashed % 8) as u8;
        self.buf[index] & (1u8 << bit_index) != 0
    }
}

} // verus!
