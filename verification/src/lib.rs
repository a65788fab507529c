//! A split-block Bloom filter: a probabilistic set-membership filter whose
//! bit array is partitioned into 32-byte buckets, so that every probe
//! touches a single bucket. Membership answers have no false negatives; a
//! false positive occurs only when all eight probed bits were set by other
//! insertions.
//!
//! The filter owns a zero-initialized byte buffer whose length is always a
//! positive multiple of the bucket size. Its serialized form is exactly
//! that buffer, with no header, and deserialization accepts exactly the
//! byte lengths that are positive multiples of the bucket size.

pub mod probe;

use vstd::prelude::*;

verus! {

use crate::probe::bit_position;
use crate::probe::bucket_count;
use crate::probe::bucket_index;
use crate::probe::lane_byte_index;
use crate::probe::lane_mask;
use crate::probe::lane_set;
use crate::probe::lemma_bucket_index_bounds;
use crate::probe::lemma_lane_byte_index_bounds;
use crate::probe::lemma_valid_len_buckets;
use crate::probe::spec_contains;
use crate::probe::spec_insert;
use crate::probe::insert_lanes;
use crate::probe::valid_len;
use vstd::arithmetic::mul::lemma_mul_upper_bound;

/// Size of one bucket in bytes: eight 32-bit lanes.
pub const BUCKET_SIZE: usize = 32;

/// A split-block Bloom filter that owns its buffer.
///
/// The buffer length is always `num_buckets * BUCKET_SIZE` with at least
/// one bucket. Reads (`contains_hash`, `as_bytes`) may be shared freely;
/// mutation (`insert_hash`, `as_bytes_mut`) needs exclusive access, which
/// the receiver types already enforce.
#[derive(Debug)]
pub struct Filter {
    buf: Vec<u8>,
    num_buckets: usize,
}

impl View for Filter {
    type V = Seq<u8>;

    closed spec fn view(&self) -> Seq<u8> {
        self.buf@
    }
}

/// The byte length a sizing request produces: `bits_per_key * num_keys / 8`
/// rounded up to the next multiple of the bucket size, with one whole
/// bucket substituted when the request rounds to zero.
pub open spec fn spec_filter_len(bits_per_key: int, num_keys: int) -> int {
    let l = (bits_per_key * num_keys / 8 + 31) / 32 * 32;
    if l == 0 {
        32
    } else {
        l
    }
}

impl Filter {
    /// The filter owns a well-formed buffer: at least one bucket, and a
    /// byte length of exactly `num_buckets` buckets.
    pub closed spec fn wf(&self) -> bool {
        &&& self.num_buckets >= 1
        &&& self.buf@.len() == self.num_buckets * 32
    }

    /// Create a new zero-initialized filter sized for `num_keys` expected
    /// distinct hashes at `bits_per_key` filter bits each. Any inputs,
    /// zero included, yield a valid filter of at least one bucket.
    pub fn new(bits_per_key: usize, num_keys: usize) -> (r: Self)
        requires
            bits_per_key * num_keys <= usize::MAX,
        ensures
            r.wf(),
            r@.len() == spec_filter_len(bits_per_key as int, num_keys as int),
            forall|j: int| 0 <= j < r@.len() ==> r@[j] == 0u8,
    {
        let bits: usize = bits_per_key * num_keys;
        let len0: usize = bits / 8;
        let len1: usize = (len0 + 31) / 32 * 32;
        let len: usize = if len1 == 0 {
            32
        } else {
            len1
        };
        let mut buf: Vec<u8> = Vec::new();
        while buf.len() < len
            invariant
                buf@.len() <= len,
                forall|j: int| 0 <= j < buf@.len() ==> buf@[j] == 0u8,
            decreases len - buf@.len(),
        {
            buf.push(0u8);
        }
        Filter { buf, num_buckets: len / 32 }
    }

    /// The byte offset of the bucket that `hash` probes.
    fn bucket_base(&self, hash: u64) -> (base: usize)
        requires
            self.wf(),
        ensures
            base == bucket_index(hash, bucket_count(self@.len() as int)) * 32,
            base + 32 <= self@.len(),
    {
        let high: u64 = hash / 0x1_0000_0000;
        let nb: usize = self.num_buckets;
        let len: usize = self.buf.len();
        proof {
            assert(bucket_count(self@.len() as int) == nb as int);
            lemma_bucket_index_bounds(hash, nb as int);
            lemma_mul_upper_bound(high as int, 0xffff_ffff, nb as int, usize::MAX as int);
        }
        let prod: u128 = (high as u128) * (nb as u128);
        let idx: usize = (prod / 0x1_0000_0000u128) as usize;
        proof {
            assert(idx < nb);
            assert(idx * 32 + 32 <= len);
        }
        idx * 32
    }

    /// Probe the filter for a pre-computed 64-bit hash: true iff all eight
    /// lane bits that `hash` selects are set. Read-only, and never a false
    /// negative for an inserted hash.
    pub fn contains_hash(&self, hash: u64) -> (r: bool)
        requires
            self.wf(),
        ensures
            r == spec_contains(self@, hash),
    {
        let base = self.bucket_base(hash);
        let ghost nb = bucket_count(self@.len() as int);
        let mut i: usize = 0;
        while i < 8
            invariant
                self.wf(),
                i <= 8,
                base == bucket_index(hash, nb) * 32,
                base + 32 <= self@.len(),
                nb == bucket_count(self@.len() as int),
                forall|k: int| 0 <= k < i ==> lane_set(self@, hash, k),
            decreases 8 - i,
        {
            let p = bit_position(hash, i);
            let idx = base + i * 4 + p / 8;
            proof {
                assert(idx == lane_byte_index(hash, nb, i as int));
            }
            let b = self.buf[idx];
            if b & (1u8 << ((p % 8) as u8)) == 0 {
                proof {
                    assert(!lane_set(self@, hash, i as int));
                }
                return false;
            }
            i += 1;
        }
        true
    }

    /// Insert a pre-computed 64-bit hash: OR the eight lane bits that
    /// `hash` selects into its bucket. Returns true iff the hash was
    /// (probably) already present, judged on the buffer as it was before
    /// this insertion.
    pub fn insert_hash(&mut self, hash: u64) -> (r: bool)
        requires
            old(self).wf(),
        ensures
            final(self).wf(),
            final(self)@ == spec_insert(old(self)@, hash),
            r == spec_contains(old(self)@, hash),
    {
        let prior = self.contains_hash(hash);
        let base = self.bucket_base(hash);
        let ghost orig = self@;
        let ghost nb = bucket_count(orig.len() as int);
        let mut i: usize = 0;
        while i < 8
            invariant
                self.wf(),
                i <= 8,
                self.num_buckets == old(self).num_buckets,
                base == bucket_index(hash, nb) * 32,
                nb == bucket_count(orig.len() as int),
                nb >= 1,
                orig.len() == self@.len(),
                self@ == insert_lanes(orig, hash, i as int),
            decreases 8 - i,
        {
            let p = bit_position(hash, i);
            let idx = base + i * 4 + p / 8;
            proof {
                lemma_lane_byte_index_bounds(hash, nb, i as int);
                assert(idx == lane_byte_index(hash, nb, i as int));
            }
            let b = self.buf[idx];
            let m: u8 = 1u8 << ((p % 8) as u8);
            self.buf[idx] = b | m;
            proof {
                let ghost prev = insert_lanes(orig, hash, i as int);
                assert(m == lane_mask(hash, i as int));
                assert(self@ == prev.update(idx as int, (prev[idx as int] | lane_mask(
                    hash,
                    i as int,
                ))));
                assert(insert_lanes(orig, hash, i as int + 1) == prev.update(
                    lane_byte_index(hash, nb, i as int),
                    (prev[lane_byte_index(hash, nb, i as int)] | lane_mask(hash, i as int)),
                ));
            }
            i += 1;
        }
        prior
    }

    /// The serialized form of the filter: a read-only view of the whole
    /// buffer, exactly `num_buckets * BUCKET_SIZE` bytes with no header.
    pub fn as_bytes(&self) -> (r: &[u8])
        ensures
            r@ == self@,
    {
        self.buf.as_slice()
    }

    /// A writable view of the whole buffer, for bulk population. The
    /// caller is responsible for writing filter-format-conformant bytes;
    /// since a slice's length is fixed, well-formedness is kept as long as
    /// the final slice contents have the buffer's length.
    pub fn as_bytes_mut(&mut self) -> (r: &mut [u8])
        ensures
            r@ == old(self)@,
            final(self)@ == final(r)@,
            old(self).wf() && final(r)@.len() == old(self)@.len() ==> final(self).wf(),
    {
        self.buf.as_mut_slice()
    }

    /// Restore a filter from its serialized bytes. Succeeds exactly when
    /// the length is a positive multiple of the bucket size, copying the
    /// bytes verbatim; every other length is rejected with `None`.
    pub fn from_bytes(bytes: &[u8]) -> (r: Option<Filter>)
        ensures
            r is Some <==> valid_len(bytes@.len() as int),
            r matches Some(f) ==> f.wf() && f@ == bytes@,
    {
        let len = bytes.len();
        if len == 0 || len % 32 != 0 {
            return None;
        }
        proof {
            lemma_valid_len_buckets(len as int);
        }
        let mut buf: Vec<u8> = Vec::new();
        let mut i: usize = 0;
        while i < len
            invariant
                i <= len,
                len == bytes@.len(),
                buf@ == bytes@.subrange(0, i as int),
            decreases len - i,
        {
            buf.push(bytes[i]);
            proof {
                assert(buf@ =~= bytes@.subrange(0, i + 1));
            }
            i += 1;
        }
        proof {
            assert(buf@ =~= bytes@);
        }
        Some(Filter { buf, num_buckets: len / 32 })
    }
}

impl Clone for Filter {
    /// An independent deep copy: same bytes, no shared buffer, so
    /// mutating either filter never affects the other.
    fn clone(&self) -> (r: Self)
        ensures
            r@ == self@,
            self.wf() ==> r.wf(),
    {
        let len = self.buf.len();
        let mut buf: Vec<u8> = Vec::new();
        let mut i: usize = 0;
        while i < len
            invariant
                i <= len,
                len == self.buf@.len(),
                buf@ == self.buf@.subrange(0, i as int),
            decreases len - i,
        {
            buf.push(self.buf[i]);
            proof {
                assert(buf@ =~= self.buf@.subrange(0, i + 1));
            }
            i += 1;
        }
        proof {
            assert(buf@ =~= self.buf@);
        }
        Filter { buf, num_buckets: self.num_buckets }
    }
}

/// Serialization round-trips: the byte view of a well-formed filter is a
/// valid length, so `from_bytes` accepts it (by its contract, returning a
/// filter with exactly these bytes, which `as_bytes` hands back verbatim).
pub proof fn lemma_round_trip(f: &Filter)
    requires
        f.wf(),
    ensures
        valid_len(f@.len() as int),
{
}

} // verus!
