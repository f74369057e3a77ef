use vstd::prelude::*;

verus! {

/// One step of the FNV-1a fold: exclusive-or the byte in, then multiply by
/// the FNV prime, wrapping.
pub open spec fn fnv_mix(h: u64, b: u8) -> u64 {
    (((h ^ (b as u64)) as nat * 1099511628211nat) % 0x1_0000_0000_0000_0000nat) as u64
}

/// FNV-1a folded over `key` from position `i` with accumulator `h`.
pub open spec fn spec_fnv1a_loop(key: Seq<u8>, i: int, h: u64) -> u64
    decreases key.len() - i,
{
    if i < 0 || i >= key.len() {
        h
    } else {
        spec_fnv1a_loop(key, i + 1, fnv_mix(h, key[i]))
    }
}

/// The FNV-1a 64-bit digest of `key`.
pub open spec fn spec_fnv1a(key: Seq<u8>) -> u64 {
    spec_fnv1a_loop(key, 0, 14695981039346656037u64)
}

/// The little-endian value of the `m`-byte chunk of `key` at `i`.
pub open spec fn spec_chunk(key: Seq<u8>, i: int, m: int) -> u32
    decreases m,
{
    if m <= 0 {
        0u32
    } else {
        spec_chunk(key, i, m - 1) | ((key[i + m - 1] as u32) << ((8 * (m - 1)) as u32))
    }
}

/// One step of the simplified Murmur-style mix: fold the chunk in, multiply
/// by the Murmur constant wrapping, then fold the high bits down.
pub open spec fn murmur_mix(h: u64, k: u32) -> u64 {
    let h1 = h ^ (k as u64);
    let h2 = ((h1 as nat * 0xc6a4a7935bd1e995nat) % 0x1_0000_0000_0000_0000nat) as u64;
    h2 ^ (h2 >> 47)
}

/// The Murmur-style mix folded over the four-byte chunks of `key` from
/// position `i` with accumulator `h`.
pub open spec fn spec_murmur_loop(key: Seq<u8>, i: int, h: u64) -> u64
    decreases key.len() - i,
{
    if i < 0 || i >= key.len() {
        h
    } else {
        let m = if key.len() - i < 4 {
            key.len() - i
        } else {
            4
        };
        spec_murmur_loop(key, i + m, murmur_mix(h, spec_chunk(key, i, m as int)))
    }
}

/// The simplified Murmur-style 64-bit digest of `key`, seeded per hash index.
pub open spec fn spec_murmur(key: Seq<u8>, seed: u32) -> u64 {
    spec_murmur_loop(key, 0, seed as u64)
}

/// The filter's i-th hash: the seeded Murmur digest plus the FNV digest,
/// wrapping.
pub open spec fn spec_hash(key: Seq<u8>, seed: u32) -> u64 {
    let a = spec_murmur(key, seed);
    let b = spec_fnv1a(key);
    if a + b > u64::MAX {
        (a + b - 0x1_0000_0000_0000_0000) as u64
    } else {
        (a + b) as u64
    }
}

/// The bit the i-th hash selects in a bit array of `nbytes` bytes.
pub open spec fn spec_bit_pos(key: Seq<u8>, seed: u32, nbytes: int) -> int {
    spec_hash(key, seed) as int % (nbytes * 8)
}

/// Whether bit `pos` of the packed bit array is set.
pub open spec fn bit_set(bits: Seq<u8>, pos: int) -> bool {
    (bits[pos / 8] >> ((pos % 8) as u8)) & 1u8 == 1u8
}

/// Whether every bit the `k` hashes of `key` select is set.
pub open spec fn covers(bits: Seq<u8>, k: u32, key: Seq<u8>) -> bool {
    forall|i: u32| i < k ==> bit_set(bits, spec_bit_pos(key, i, bits.len() as int))
}

/// The optimal bit count for `n` keys at a one-percent false-positive
/// target: the real-valued ceil(n * ln(1/0.01) / ln(2)^2), about 9.5851
/// bits per key, carried out in scaled integers.
pub open spec fn spec_bloom_bits(n: int) -> int {
    (n * 95851 + 9999) / 10000
}

/// The byte size of the bit array: the bit count rounded up to whole bytes,
/// at least one byte, and capped so the bit count fits the machine.
pub open spec fn spec_bloom_bytes(n: int) -> int {
    let b = (spec_bloom_bits(n) + 7) / 8;
    if b < 1 {
        1
    } else if b > usize::MAX as int / 8 {
        usize::MAX as int / 8
    } else {
        b
    }
}

/// The hash count: the real-valued round(bits-per-key * ln 2) in scaled
/// integers, at least one hash, capped at what a 32-bit count holds.
pub open spec fn spec_bloom_hashes(n: int) -> int {
    if n == 0 {
        1
    } else {
        let k = (spec_bloom_bits(n) * 6931 + n * 5000) / (n * 10000);
        if k < 1 {
            1
        } else if k > 0xffff_ffff {
            0xffff_ffff
        } else {
            k
        }
    }
}

/// A Bloom filter over byte keys: a packed bit array and a hash count. It
/// answers "possibly present" for every key added and never clears a bit.
#[derive(Debug)]
pub struct BloomFilter {
    pub bit_array: Vec<u8>,
    pub bit_array_size: usize,
    pub num_hashes: u32,
}

impl BloomFilter {
    /// The filter's internal shape: a nonempty bit array whose recorded size
    /// matches, a positive hash count, and a bit count that fits the machine.
    pub open spec fn wf(self) -> bool {
        &&& self.bit_array_size == self.bit_array@.len()
        &&& self.bit_array@.len() >= 1
        &&& self.bit_array@.len() * 8 <= usize::MAX
        &&& self.num_hashes >= 1
    }

    /// A filter sized for `expected_elements` keys at a one-percent
    /// false-positive target, every bit clear: the byte size and the hash
    /// count come out exactly as `spec_bloom_bytes` and `spec_bloom_hashes`
    /// lay down the sizing formulas.
    pub fn new(expected_elements: usize) -> (r: BloomFilter)
        requires
            expected_elements < 0x1_0000_0000,
        ensures
            r.wf(),
            forall|i: int| 0 <= i < r.bit_array@.len() ==> r.bit_array@[i] == 0u8,
            r.bit_array@.len() == spec_bloom_bytes(expected_elements as int),
            r.num_hashes == spec_bloom_hashes(expected_elements as int),
    {
        let n = expected_elements as u64;
        let optimal_bits: u64 = (n * 95851 + 9999) / 10000;
        let mut nbytes: u64 = (optimal_bits + 7) / 8;
        if nbytes == 0 {
            nbytes = 1;
        }
        if nbytes > (usize::MAX / 8) as u64 {
            nbytes = (usize::MAX / 8) as u64;
        }
        let mut k: u64 = if n == 0 {
            1
        } else {
            (optimal_bits * 6931 + n * 5000) / (n * 10000)
        };
        if k == 0 {
            k = 1;
        }
        if k > 0xffff_ffff {
            k = 0xffff_ffff;
        }
        let size = nbytes as usize;
        let mut bit_array: Vec<u8> = Vec::new();
        let mut i: usize = 0;
        while i < size
            invariant
                i <= size,
                bit_array@.len() == i,
                forall|j: int| 0 <= j < i ==> bit_array@[j] == 0u8,
            decreases size - i,
        {
            bit_array.push(0);
            i = i + 1;
        }
        BloomFilter { bit_array, bit_array_size: size, num_hashes: k as u32 }
    }

    /// The seeded combined hash of `key`.
    fn hash(&self, key: &[u8], seed: u32) -> (r: u64)
        ensures
            r == spec_hash(key@, seed),
    {
        let h1 = self.murmur3(key, seed);
        let h2 = self.fnv1a(key);
        h1.wrapping_add(h2)
    }

    /// The simplified Murmur-style digest over four-byte chunks.
    fn murmur3(&self, key: &[u8], seed: u32) -> (r: u64)
        ensures
            r == spec_murmur(key@, seed),
    {
        let n = key.len();
        let mut h: u64 = seed as u64;
        let mut i: usize = 0;
        while i < n
            invariant
                i <= n,
                n == key@.len(),
                spec_murmur(key@, seed) == spec_murmur_loop(key@, i as int, h),
            decreases n - i,
        {
            let m = if n - i < 4 {
                n - i
            } else {
                4
            };
            let mut k: u32 = 0;
            let mut j: usize = 0;
            while j < m
                invariant
                    j <= m,
                    m <= 4,
                    i + m <= n,
                    n == key@.len(),
                    k == spec_chunk(key@, i as int, j as int),
                decreases m - j,
            {
                k = k | ((key[i + j] as u32) << ((8 * (j as u32))));
                j = j + 1;
            }
            h = h ^ (k as u64);
            h = h.wrapping_mul(0xc6a4a7935bd1e995);
            h = h ^ (h >> 47);
            i = i + m;
        }
        h
    }

    /// The FNV-1a digest of `key`.
    fn fnv1a(&self, key: &[u8]) -> (r: u64)
        ensures
            r == spec_fnv1a(key@),
    {
        let n = key.len();
        let mut h: u64 = 14695981039346656037;
        let mut i: usize = 0;
        while i < n
            invariant
                i <= n,
                n == key@.len(),
                spec_fnv1a(key@) == spec_fnv1a_loop(key@, i as int, h),
            decreases n - i,
        {
            h = h ^ (key[i] as u64);
            h = h.wrapping_mul(1099511628211);
            i = i + 1;
        }
        h
    }

    /// Sets the bits the hashes of `key` select; no bit is ever cleared, so
    /// every key added stays possibly-present.
    pub fn add(&mut self, key: &[u8])
        requires
            old(self).wf(),
        ensures
            final(self).wf(),
            final(self).bit_array@.len() == old(self).bit_array@.len(),
            final(self).num_hashes == old(self).num_hashes,
            final(self).bit_array_size == old(self).bit_array_size,
            forall|p: int|
                0 <= p < 8 * old(self).bit_array@.len() && bit_set(old(self).bit_array@, p)
                    ==> bit_set(final(self).bit_array@, p),
            covers(final(self).bit_array@, final(self).num_hashes, key@),
            forall|p: int|
                0 <= p < 8 * old(self).bit_array@.len() && bit_set(final(self).bit_array@, p)
                    ==> bit_set(old(self).bit_array@, p) || exists|i: u32|
                    i < old(self).num_hashes && p == spec_bit_pos(
                        key@,
                        i,
                        old(self).bit_array@.len() as int,
                    ),
    {
        let nbits = (self.bit_array_size * 8) as u64;
        let k = self.num_hashes;
        let mut i: u32 = 0;
        while i < k
            invariant
                i <= k,
                self.wf(),
                self.bit_array@.len() == old(self).bit_array@.len(),
                self.num_hashes == old(self).num_hashes,
                self.bit_array_size == old(self).bit_array_size,
                k == self.num_hashes,
                nbits == self.bit_array@.len() * 8,
                forall|p: int|
                    0 <= p < 8 * self.bit_array@.len() && bit_set(old(self).bit_array@, p)
                        ==> bit_set(self.bit_array@, p),
                forall|s: u32|
                    s < i ==> bit_set(
                        self.bit_array@,
                        spec_bit_pos(key@, s, self.bit_array@.len() as int),
                    ),
                forall|p: int|
                    0 <= p < 8 * self.bit_array@.len() && bit_set(self.bit_array@, p) ==> bit_set(
                        old(self).bit_array@,
                        p,
                    ) || exists|s: u32|
                        s < i && p == spec_bit_pos(key@, s, self.bit_array@.len() as int),
            decreases k - i,
        {
            let ghost bits0 = self.bit_array@;
            let h = self.hash(key, i);
            let bit_pos = (h % nbits) as usize;
            let byte_idx = bit_pos / 8;
            let shift = (bit_pos % 8) as u8;
            let b = self.bit_array[byte_idx];
            let nb = b | (1u8 << shift);
            self.bit_array[byte_idx] = nb;
            proof {
                lemma_or_bit(b, shift);
                assert(bit_pos as int == spec_bit_pos(key@, i, self.bit_array@.len() as int));
                assert forall|p: int| 0 <= p < 8 * self.bit_array@.len() implies (bit_set(
                    self.bit_array@,
                    p,
                ) == (bit_set(bits0, p) || p == bit_pos as int)) by {
                    if p / 8 == byte_idx as int {
                        assert(self.bit_array@[p / 8] == nb);
                        assert(0 <= p % 8 < 8);
                        if p == bit_pos as int {
                            assert(p % 8 == shift as int);
                        } else {
                            assert(p % 8 != shift as int || p / 8 != byte_idx as int) by {
                                if p % 8 == shift as int && p / 8 == byte_idx as int {
                                    vstd::arithmetic::div_mod::lemma_fundamental_div_mod(
                                        p,
                                        8,
                                    );
                                    vstd::arithmetic::div_mod::lemma_fundamental_div_mod(
                                        bit_pos as int,
                                        8,
                                    );
                                }
                            }
                        }
                    } else {
                        assert(self.bit_array@[p / 8] == bits0[p / 8]);
                    }
                }
            }
            i = i + 1;
        }
    }

    /// True exactly when every bit the hashes of `key` select is set: a key
    /// that was added always answers true; an absent key may still collide.
    pub fn might_contain(&self, key: &[u8]) -> (r: bool)
        requires
            self.wf(),
        ensures
            r == covers(self.bit_array@, self.num_hashes, key@),
    {
        let nbits = (self.bit_array_size * 8) as u64;
        let k = self.num_hashes;
        let mut i: u32 = 0;
        while i < k
            invariant
                i <= k,
                self.wf(),
                k == self.num_hashes,
                nbits == self.bit_array@.len() * 8,
                forall|s: u32|
                    s < i ==> bit_set(
                        self.bit_array@,
                        spec_bit_pos(key@, s, self.bit_array@.len() as int),
                    ),
            decreases k - i,
        {
            let h = self.hash(key, i);
            let bit_pos = (h % nbits) as usize;
            let byte_idx = bit_pos / 8;
            let shift = (bit_pos % 8) as u8;
            let b = self.bit_array[byte_idx];
            if (b >> shift) & 1 == 0 {
                proof {
                    assert(bit_pos as int == spec_bit_pos(key@, i, self.bit_array@.len() as int));
                    assert(!bit_set(self.bit_array@, bit_pos as int)) by {
                        assert((b >> shift) & 1u8 == 0 ==> (b >> shift) & 1u8 != 1u8);
                    }
                }
                return false;
            }
            proof {
                assert(bit_set(self.bit_array@, bit_pos as int)) by {
                    assert((b >> shift) & 1u8 != 0 ==> (b >> shift) & 1u8 == 1u8) by (bit_vector);
                }
            }
            i = i + 1;
        }
        true
    }
}

/// Setting one bit leaves every other bit as it was and that bit set.
proof fn lemma_or_bit(b: u8, s: u8)
    requires
        s < 8,
    ensures
        ((b | (1u8 << s)) >> s) & 1u8 == 1u8,
        forall|t: u8|
            t < 8 && t != s ==> ((b | (1u8 << s)) >> t) & 1u8 == (b >> t) & 1u8,
{
    assert(((b | (1u8 << s)) >> s) & 1u8 == 1u8) by (bit_vector)
        requires
            s < 8,
    ;
    assert forall|t: u8| t < 8 && t != s implies ((b | (1u8 << s)) >> t) & 1u8 == (b >> t)
        & 1u8 by {
        assert(forall|t2: u8, s2: u8, b2: u8|
            t2 < 8 && s2 < 8 && t2 != s2 ==> ((b2 | (1u8 << s2)) >> t2) & 1u8 == (b2 >> t2)
                & 1u8) by (bit_vector);
    }
}

/// A filter whose set bits all carry over keeps covering every key it
/// covered: adding more keys never introduces a false negative.
pub proof fn lemma_covers_monotone(b1: Seq<u8>, b2: Seq<u8>, k: u32, key: Seq<u8>)
    requires
        b1.len() == b2.len(),
        b1.len() >= 1,
        forall|p: int| 0 <= p < 8 * b1.len() && bit_set(b1, p) ==> bit_set(b2, p),
        covers(b1, k, key),
    ensures
        covers(b2, k, key),
{
    assert forall|i: u32| i < k implies bit_set(b2, spec_bit_pos(key, i, b2.len() as int)) by {
        let p = spec_bit_pos(key, i, b1.len() as int);
        assert(bit_set(b1, p));
        assert(0 <= p < 8 * b1.len()) by {
            vstd::arithmetic::div_mod::lemma_mod_bound(
                spec_hash(key, i) as int,
                b1.len() as int * 8,
            );
        }
    }
}

} // verus!
