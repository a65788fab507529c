//! The mathematics of the split-block Bloom filter probe.
//!
//! A filter buffer is a sequence of bytes whose length is a positive
//! multiple of 32. Each 32-byte bucket is eight 32-bit lanes, stored as
//! little-endian words, so bit `p` of lane `i` lives in bit `p % 8` of
//! byte `4 * i + p / 8` of the bucket. A 64-bit hash selects one bucket
//! from its high 32 bits and, from its low 32 bits, one bit position per
//! lane; inserting a hash ORs those eight bits in, and a membership probe
//! tests them.

use vstd::prelude::*;

verus! {

use vstd::arithmetic::div_mod::lemma_multiply_divide_lt;
use vstd::arithmetic::mul::lemma_mul_inequality;
use vstd::arithmetic::mul::lemma_mul_nonnegative;
use vstd::arithmetic::mul::lemma_mul_strict_inequality;
use vstd::arithmetic::mul::lemma_mul_upper_bound;

/// The eight odd 32-bit salt constants of the split-block Bloom filter
/// design, one per lane. They decorrelate the eight per-lane bit
/// positions derived from a single hash and are fixed by the on-the-wire
/// format: a byte-compatible filter must use these exact values.
pub open spec fn salt(i: int) -> u32 {
    if i == 0 {
        0x47b6137bu32
    } else if i == 1 {
        0x44974d91u32
    } else if i == 2 {
        0x8824ad5bu32
    } else if i == 3 {
        0xa2b7289du32
    } else if i == 4 {
        0x705495c7u32
    } else if i == 5 {
        0x2df1424bu32
    } else if i == 6 {
        0x9efc4947u32
    } else {
        0x5c6bfb31u32
    }
}

/// The low 32 bits of a hash, as a mathematical integer.
pub open spec fn low32(h: u64) -> int {
    (h as int) % 0x1_0000_0000
}

/// The high 32 bits of a hash, as a mathematical integer.
pub open spec fn high32(h: u64) -> int {
    (h as int) / 0x1_0000_0000
}

/// The 32-bit word that lane `i` derives from hash `h`: the low 32 bits
/// of `low32(h) * salt(i)`.
pub open spec fn lane_word(h: u64, i: int) -> int {
    (low32(h) * (salt(i) as int)) % 0x1_0000_0000
}

/// The bit position, in `0..32`, that hash `h` probes within lane `i`:
/// the high five bits of the lane word.
pub open spec fn bit_pos(h: u64, i: int) -> int {
    lane_word(h, i) / 0x0800_0000
}

/// The bucket, among `nb` buckets, that hash `h` probes: the multiply-shift
/// fast-range reduction of the high 32 bits of the hash into `[0, nb)`.
pub open spec fn bucket_index(h: u64, nb: int) -> int {
    (high32(h) * nb) / 0x1_0000_0000
}

/// The number of buckets a byte buffer of length `len` holds.
pub open spec fn bucket_count(len: int) -> int {
    len / 32
}

/// The index, within the whole byte buffer, of the byte that lane `i` of
/// hash `h` probes: lane `i` occupies bytes `4 * i .. 4 * i + 4` of its
/// bucket, and bit `p` of the little-endian lane word is bit `p % 8` of
/// byte `p / 8`.
pub open spec fn lane_byte_index(h: u64, nb: int, i: int) -> int {
    bucket_index(h, nb) * 32 + i * 4 + bit_pos(h, i) / 8
}

/// The single-bit mask that lane `i` of hash `h` tests or sets within its
/// byte.
pub open spec fn lane_mask(h: u64, i: int) -> u8 {
    1u8 << ((bit_pos(h, i) % 8) as u8)
}

/// Lane `i` of hash `h` finds its bit set in the buffer.
pub open spec fn lane_set(bytes: Seq<u8>, h: u64, i: int) -> bool {
    bytes[lane_byte_index(h, bucket_count(bytes.len() as int), i)] & lane_mask(h, i) != 0
}

/// The buffer (probably) contains hash `h`: all eight lane bits are set.
pub open spec fn spec_contains(bytes: Seq<u8>, h: u64) -> bool {
    forall|i: int| 0 <= i < 8 ==> lane_set(bytes, h, i)
}

/// The buffer after the bits of lanes `0..k` of hash `h` have been OR-ed in.
pub open spec fn insert_lanes(bytes: Seq<u8>, h: u64, k: int) -> Seq<u8>
    decreases k,
{
    if k <= 0 {
        bytes
    } else {
        let prev = insert_lanes(bytes, h, k - 1);
        let j = lane_byte_index(h, bucket_count(bytes.len() as int), k - 1);
        prev.update(j, prev[j] | lane_mask(h, k - 1))
    }
}

/// The buffer after hash `h` has been inserted: all eight lane bits OR-ed in.
pub open spec fn spec_insert(bytes: Seq<u8>, h: u64) -> Seq<u8> {
    insert_lanes(bytes, h, 8)
}

/// A valid filter buffer length: a positive multiple of the bucket size.
pub open spec fn valid_len(len: int) -> bool {
    len > 0 && len % 32 == 0
}

fn salt_val(i: usize) -> (r: u32)
    requires
        i < 8,
    ensures
        r == salt(i as int),
{
    if i == 0 {
        0x47b6137bu32
    } else if i == 1 {
        0x44974d91u32
    } else if i == 2 {
        0x8824ad5bu32
    } else if i == 3 {
        0xa2b7289du32
    } else if i == 4 {
        0x705495c7u32
    } else if i == 5 {
        0x2df1424bu32
    } else if i == 6 {
        0x9efc4947u32
    } else {
        0x5c6bfb31u32
    }
}

/// The bit position that hash `hash` probes within lane `i`, computed as
/// the probe algorithm fixes it: the high five bits of the low 32 bits of
/// `low32(hash) * salt(i)`.
pub(crate) fn bit_position(hash: u64, i: usize) -> (p: usize)
    requires
        i < 8,
    ensures
        p == bit_pos(hash, i as int),
        p < 32,
{
    let low: u64 = hash % 0x1_0000_0000;
    let s: u64 = salt_val(i) as u64;
    proof {
        lemma_mul_upper_bound(low as int, 0xffff_ffff, s as int, 0xffff_ffff);
    }
    let prod: u64 = low * s;
    let word: u64 = prod % 0x1_0000_0000;
    let p: u64 = word / 0x0800_0000;
    p as usize
}

/// The bit position probed within a lane always lies in `0..32`.
pub proof fn lemma_bit_pos_bounds(h: u64, i: int)
    ensures
        0 <= bit_pos(h, i) < 32,
{
    lemma_mul_nonnegative(low32(h), salt(i) as int);
}

/// The probed bucket always lies in `[0, nb)`: the fast-range reduction
/// never indexes out of the buffer.
pub proof fn lemma_bucket_index_bounds(h: u64, nb: int)
    requires
        nb >= 1,
    ensures
        0 <= bucket_index(h, nb) < nb,
{
    lemma_mul_nonnegative(high32(h), nb);
    lemma_mul_inequality(high32(h), 0xffff_ffff, nb);
    lemma_mul_strict_inequality(0xffff_ffff, 0x1_0000_0000, nb);
    lemma_multiply_divide_lt(high32(h) * nb, 0x1_0000_0000, nb);
}

/// The byte probed by lane `i` lies inside lane `i`'s four bytes of the
/// probed bucket, and so inside the buffer.
pub proof fn lemma_lane_byte_index_bounds(h: u64, nb: int, i: int)
    requires
        nb >= 1,
        0 <= i < 8,
    ensures
        bucket_index(h, nb) * 32 + i * 4 <= lane_byte_index(h, nb, i) < bucket_index(h, nb) * 32
            + i * 4 + 4,
        0 <= lane_byte_index(h, nb, i) < nb * 32,
{
    lemma_bucket_index_bounds(h, nb);
    lemma_bit_pos_bounds(h, i);
    lemma_mul_inequality(bucket_index(h, nb), nb - 1, 32);
}

/// Distinct lanes of one hash probe distinct bytes.
pub proof fn lemma_lane_bytes_distinct(h: u64, nb: int, i1: int, i2: int)
    requires
        nb >= 1,
        0 <= i1 < 8,
        0 <= i2 < 8,
        i1 != i2,
    ensures
        lane_byte_index(h, nb, i1) != lane_byte_index(h, nb, i2),
{
    lemma_lane_byte_index_bounds(h, nb, i1);
    lemma_lane_byte_index_bounds(h, nb, i2);
}

/// A valid length is exactly `bucket_count` buckets of 32 bytes, at least one.
pub proof fn lemma_valid_len_buckets(len: int)
    requires
        valid_len(len),
    ensures
        bucket_count(len) >= 1,
        bucket_count(len) * 32 == len,
{
}

/// What inserting does to each byte of the buffer: the byte probed by
/// lane `i < k` becomes its old value OR the lane's mask, and every other
/// byte is unchanged.
pub proof fn lemma_insert_lanes_bytes(bytes: Seq<u8>, h: u64, k: int, j: int)
    requires
        valid_len(bytes.len() as int),
        0 <= k <= 8,
        0 <= j < bytes.len(),
    ensures
        insert_lanes(bytes, h, k).len() == bytes.len(),
        (forall|i: int|
            0 <= i < k ==> lane_byte_index(h, bucket_count(bytes.len() as int), i) != j)
            ==> insert_lanes(bytes, h, k)[j] == bytes[j],
        forall|i: int|
            0 <= i < k && lane_byte_index(h, bucket_count(bytes.len() as int), i) == j
                ==> insert_lanes(bytes, h, k)[j] == (bytes[j] | lane_mask(h, i)),
    decreases k,
{
    let nb = bucket_count(bytes.len() as int);
    lemma_valid_len_buckets(bytes.len() as int);
    if k > 0 {
        lemma_insert_lanes_bytes(bytes, h, k - 1, j);
        let jk = lane_byte_index(h, nb, k - 1);
        lemma_lane_byte_index_bounds(h, nb, k - 1);
        if j == jk {
            assert forall|i: int| 0 <= i < k - 1 implies lane_byte_index(h, nb, i) != j by {
                lemma_lane_bytes_distinct(h, nb, i, k - 1);
            }
            assert(insert_lanes(bytes, h, k - 1)[j] == bytes[j]);
        }
    }
}

/// After inserting hash `h`, every lane bit of `h` is set: a membership
/// probe for `h` succeeds immediately. `lemma_no_false_negatives` extends
/// this across later insertions.
pub proof fn lemma_contains_after_insert(bytes: Seq<u8>, h: u64)
    requires
        valid_len(bytes.len() as int),
    ensures
        spec_contains(spec_insert(bytes, h), h),
{
    let nb = bucket_count(bytes.len() as int);
    lemma_valid_len_buckets(bytes.len() as int);
    assert forall|i: int| 0 <= i < 8 implies lane_set(spec_insert(bytes, h), h, i) by {
        let j = lane_byte_index(h, nb, i);
        lemma_lane_byte_index_bounds(h, nb, i);
        lemma_insert_lanes_bytes(bytes, h, 8, j);
        assert(spec_insert(bytes, h)[j] == (bytes[j] | lane_mask(h, i)));
        lemma_bit_pos_bounds(h, i);
        let b = bytes[j];
        let p = (bit_pos(h, i) % 8) as u8;
        assert((b | (1u8 << p)) & (1u8 << p) != 0) by (bit_vector)
            requires
                p < 8,
        ;
    }
}

/// Inserting a hash only ever sets bits, so it preserves membership of
/// every hash that was already (probably) contained.
pub proof fn lemma_insert_preserves_contains(bytes: Seq<u8>, h: u64, other: u64)
    requires
        valid_len(bytes.len() as int),
        spec_contains(bytes, h),
    ensures
        spec_contains(spec_insert(bytes, other), h),
{
    let nb = bucket_count(bytes.len() as int);
    lemma_valid_len_buckets(bytes.len() as int);
    assert forall|i: int| 0 <= i < 8 implies lane_set(spec_insert(bytes, other), h, i) by {
        let j = lane_byte_index(h, nb, i);
        lemma_lane_byte_index_bounds(h, nb, i);
        lemma_insert_lanes_bytes(bytes, other, 8, j);
        assert(lane_set(bytes, h, i));
        let b = bytes[j];
        let m = lane_mask(h, i);
        if exists|io: int| 0 <= io < 8 && lane_byte_index(other, nb, io) == j {
            let io = choose|io: int| 0 <= io < 8 && lane_byte_index(other, nb, io) == j;
            assert(spec_insert(bytes, other)[j] == (b | lane_mask(other, io)));
            let c = lane_mask(other, io);
            assert(b & m != 0 ==> (b | c) & m != 0) by (bit_vector);
        } else {
            assert(spec_insert(bytes, other)[j] == b);
        }
    }
}

/// Inserting a hash never changes the buffer's length.
pub proof fn lemma_insert_len(bytes: Seq<u8>, h: u64)
    requires
        valid_len(bytes.len() as int),
    ensures
        spec_insert(bytes, h).len() == bytes.len(),
{
    lemma_insert_lanes_bytes(bytes, h, 8, 0);
}

/// The buffer after inserting every hash of `hs`, in order.
pub open spec fn insert_all(bytes: Seq<u8>, hs: Seq<u64>) -> Seq<u8>
    decreases hs.len(),
{
    if hs.len() == 0 {
        bytes
    } else {
        insert_all(spec_insert(bytes, hs[0]), hs.subrange(1, hs.len() as int))
    }
}

/// Membership of a hash survives inserting any sequence of hashes.
pub proof fn lemma_insert_all_preserves_contains(bytes: Seq<u8>, h: u64, hs: Seq<u64>)
    requires
        valid_len(bytes.len() as int),
        spec_contains(bytes, h),
    ensures
        spec_contains(insert_all(bytes, hs), h),
    decreases hs.len(),
{
    if hs.len() > 0 {
        lemma_insert_preserves_contains(bytes, h, hs[0]);
        lemma_insert_len(bytes, hs[0]);
        lemma_insert_all_preserves_contains(
            spec_insert(bytes, hs[0]),
            h,
            hs.subrange(1, hs.len() as int),
        );
    }
}

/// The no-false-negatives law: once `h` is inserted, a membership probe
/// for `h` succeeds, and keeps succeeding after any number of subsequent
/// insertions, related or not.
pub proof fn lemma_no_false_negatives(bytes: Seq<u8>, h: u64, later: Seq<u64>)
    requires
        valid_len(bytes.len() as int),
    ensures
        spec_contains(insert_all(spec_insert(bytes, h), later), h),
{
    lemma_contains_after_insert(bytes, h);
    lemma_insert_len(bytes, h);
    lemma_insert_all_preserves_contains(spec_insert(bytes, h), h, later);
}

/// An all-zero buffer contains no hash: every membership probe fails.
pub proof fn lemma_empty_contains_nothing(bytes: Seq<u8>, h: u64)
    requires
        valid_len(bytes.len() as int),
        forall|j: int| 0 <= j < bytes.len() ==> bytes[j] == 0u8,
    ensures
        !spec_contains(bytes, h),
{
    let nb = bucket_count(bytes.len() as int);
    lemma_valid_len_buckets(bytes.len() as int);
    let j = lane_byte_index(h, nb, 0);
    lemma_lane_byte_index_bounds(h, nb, 0);
    let m = lane_mask(h, 0);
    assert(0u8 & m == 0) by (bit_vector);
    assert(!lane_set(bytes, h, 0));
}

/// On a fresh (all-zero) buffer, the first insertion of a hash finds it
/// absent, and any later insertion of the same hash finds it present:
/// insertion reports prior membership.
pub proof fn lemma_insert_reports_prior_membership(bytes: Seq<u8>, h: u64)
    requires
        valid_len(bytes.len() as int),
        forall|j: int| 0 <= j < bytes.len() ==> bytes[j] == 0u8,
    ensures
        !spec_contains(bytes, h),
        spec_contains(spec_insert(bytes, h), h),
{
    lemma_empty_contains_nothing(bytes, h);
    lemma_contains_after_insert(bytes, h);
}

} // verus!
