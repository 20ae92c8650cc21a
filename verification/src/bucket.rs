//! Index arithmetic of the bucket store: bucket `b` holds
//! `FIRST_BUCKET_SIZE * 2^b` elements, so storage grows by adding buckets and
//! never by moving elements that are already stored.
use vstd::prelude::*;
use vstd::arithmetic::power2::{
    lemma2_to64, lemma2_to64_rest, lemma_pow2_pos, lemma_pow2_strictly_increases,
    lemma_pow2_unfold, pow2,
};
use vstd::bits::{
    lemma_u64_pow2_no_overflow, lemma_u64_shl_is_mul, lemma_u64_shr_is_div,
    lemma_usize_shl_is_mul,
};
use vstd::std_specs::bits::u64_leading_zeros;

verus! {

/// Number of elements in the first bucket. A power of two.
pub const FIRST_BUCKET_SIZE: usize = 8;

/// Number of bucket slots in a store.
pub const NUM_BUCKETS: usize = 64;

/// Largest logical index the store addresses: adding `FIRST_BUCKET_SIZE` to
/// it must not overflow a machine word.
pub const MAX_INDEX: usize = usize::MAX - FIRST_BUCKET_SIZE;

/// Largest bucket that a machine word can address.
pub open spec fn max_bucket() -> nat {
    (usize::BITS - 4) as nat
}

/// A machine word holds the powers of two below its width.
pub proof fn lemma_word_limit()
    ensures
        pow2(usize::BITS as nat) == usize::MAX + 1,
        usize::BITS == 32 || usize::BITS == 64,
{
    lemma2_to64();
    lemma2_to64_rest();
}

/// Position of the highest set bit of `n`, counted from zero.
pub open spec fn highest_bit(n: nat) -> nat
    decreases n,
{
    if n <= 1 {
        0
    } else {
        1 + highest_bit(n / 2)
    }
}

/// The highest set bit brackets its number between two powers of two.
pub proof fn lemma_highest_bit_bounds(n: nat)
    requires
        n > 0,
    ensures
        pow2(highest_bit(n)) <= n < pow2(highest_bit(n) + 1),
    decreases n,
{
    lemma2_to64();
    if n > 1 {
        lemma_highest_bit_bounds(n / 2);
        lemma_pow2_unfold(highest_bit(n));
        lemma_pow2_unfold(highest_bit(n) + 1);
    }
}

/// A number bracketed by `2^k` and `2^(k+1)` has its highest bit at `k`.
pub proof fn lemma_highest_bit_unique(n: nat, k: nat)
    requires
        pow2(k) <= n < pow2(k + 1),
    ensures
        highest_bit(n) == k,
{
    lemma_pow2_pos(k);
    lemma_highest_bit_bounds(n);
    let h = highest_bit(n);
    if h < k {
        if h + 1 < k {
            lemma_pow2_strictly_increases(h + 1, k);
        }
    } else if k < h {
        if k + 1 < h {
            lemma_pow2_strictly_increases(k + 1, h);
        }
    }
}

/// The highest bit never moves down when the number grows.
pub proof fn lemma_highest_bit_monotonic(a: nat, b: nat)
    requires
        0 < a <= b,
    ensures
        highest_bit(a) <= highest_bit(b),
{
    lemma_highest_bit_bounds(a);
    lemma_highest_bit_bounds(b);
    if highest_bit(b) < highest_bit(a) {
        if highest_bit(b) + 1 < highest_bit(a) {
            lemma_pow2_strictly_increases(highest_bit(b) + 1, highest_bit(a));
        }
    }
}

/// Number of elements that bucket `bucket` holds.
pub open spec fn spec_bucket_size(bucket: nat) -> nat {
    pow2(highest_bit(FIRST_BUCKET_SIZE as nat) + bucket)
}

/// Bucket that holds logical index `i`.
pub open spec fn bucket_index(i: nat) -> nat {
    (highest_bit(i + FIRST_BUCKET_SIZE as nat) - highest_bit(FIRST_BUCKET_SIZE as nat)) as nat
}

/// Offset of logical index `i` inside its bucket.
pub open spec fn bucket_offset(i: nat) -> nat {
    (i + FIRST_BUCKET_SIZE as nat - pow2(highest_bit(i + FIRST_BUCKET_SIZE as nat))) as nat
}

/// First logical index that bucket `bucket` holds.
pub open spec fn bucket_start(bucket: nat) -> nat {
    (spec_bucket_size(bucket) - FIRST_BUCKET_SIZE as nat) as nat
}

/// The first bucket size is `2^3`.
pub proof fn lemma_first_bucket()
    ensures
        highest_bit(FIRST_BUCKET_SIZE as nat) == 3,
        spec_bucket_size(0) == FIRST_BUCKET_SIZE,
{
    lemma2_to64();
    lemma_highest_bit_unique(8, 3);
}

/// Each bucket is twice as large as the one before it.
pub proof fn lemma_bucket_size_doubles(bucket: nat)
    ensures
        spec_bucket_size(bucket + 1) == 2 * spec_bucket_size(bucket),
        spec_bucket_size(bucket) >= FIRST_BUCKET_SIZE,
    decreases bucket,
{
    lemma_first_bucket();
    lemma_pow2_unfold(3 + bucket + 1);
    if bucket > 0 {
        lemma_bucket_size_doubles((bucket - 1) as nat);
    }
}

/// The mapping from an index to its bucket and offset is a bijection onto
/// the pairs `(b, o)` with `o < spec_bucket_size(b)`: the offset stays inside
/// the bucket, and the index is recovered as `bucket_start(b) + o`.
pub proof fn lemma_bucket_of_index(i: nat)
    ensures
        bucket_offset(i) < spec_bucket_size(bucket_index(i)),
        i == bucket_start(bucket_index(i)) + bucket_offset(i),
        highest_bit(i + FIRST_BUCKET_SIZE as nat) >= 3,
{
    lemma_first_bucket();
    lemma_highest_bit_monotonic(8, i + 8);
    lemma_highest_bit_bounds(i + 8);
    let h = highest_bit(i + 8);
    lemma_pow2_unfold(h + 1);
    assert(3 + (h - 3) as nat == h);
    lemma_bucket_size_doubles(bucket_index(i));
}

/// Every offset of every bucket is the image of exactly one index.
pub proof fn lemma_index_of_bucket(bucket: nat, offset: nat)
    requires
        offset < spec_bucket_size(bucket),
    ensures
        bucket_index(bucket_start(bucket) + offset) == bucket,
        bucket_offset(bucket_start(bucket) + offset) == offset,
{
    lemma_first_bucket();
    lemma_bucket_size_doubles(bucket);
    let i = bucket_start(bucket) + offset;
    lemma_pow2_unfold(3 + bucket + 1);
    lemma_highest_bit_unique(i + 8, 3 + bucket);
}

/// Two different indices never share a slot.
pub proof fn lemma_bucket_of_injective(i: nat, j: nat)
    requires
        bucket_index(i) == bucket_index(j),
        bucket_offset(i) == bucket_offset(j),
    ensures
        i == j,
{
    lemma_bucket_of_index(i);
    lemma_bucket_of_index(j);
}

/// A larger index never lies in an earlier bucket.
pub proof fn lemma_bucket_index_monotonic(i: nat, j: nat)
    requires
        i <= j,
    ensures
        bucket_index(i) <= bucket_index(j),
{
    lemma_first_bucket();
    lemma_highest_bit_monotonic(8, i + 8);
    lemma_highest_bit_monotonic(i + 8, j + 8);
}

/// The bucket of the next index is the same bucket or the one after it.
pub proof fn lemma_bucket_index_successor(i: nat)
    ensures
        bucket_index(i + 1) <= bucket_index(i) + 1,
{
    lemma_first_bucket();
    lemma_highest_bit_monotonic(8, i + 8);
    lemma_highest_bit_bounds(i + 8);
    lemma_highest_bit_bounds(i + 9);
    let h = highest_bit(i + 8);
    let k = highest_bit(i + 9);
    lemma_pow2_unfold(h + 1);
    lemma_pow2_unfold(h + 2);
    lemma_pow2_pos(h);
    if k > h + 1 {
        if k > h + 2 {
            lemma_pow2_strictly_increases(h + 2, k);
        }
    }
    lemma_highest_bit_monotonic(8, i + 9);
}

/// Index zero is the first slot of the first bucket.
pub proof fn lemma_first_index()
    ensures
        bucket_index(0) == 0,
        bucket_offset(0) == 0,
{
    lemma_first_bucket();
    lemma2_to64();
}

/// Indices up to `MAX_INDEX` lie in buckets that a machine word addresses.
pub proof fn lemma_bucket_index_bounded(i: nat)
    requires
        i <= MAX_INDEX,
    ensures
        bucket_index(i) <= max_bucket(),
        highest_bit(i + FIRST_BUCKET_SIZE as nat) < usize::BITS,
{
    lemma_word_limit();
    lemma_highest_bit_bounds(i + 8);
    let h = highest_bit(i + 8);
    if h > usize::BITS {
        lemma_pow2_strictly_increases(usize::BITS as nat, h);
    }
    assert(h < usize::BITS);
    lemma_first_bucket();
    lemma_highest_bit_monotonic(8, i + 8);
}

/// The size of a bucket that a machine word addresses fits that word.
pub proof fn lemma_bucket_size_fits(bucket: nat)
    requires
        bucket <= max_bucket(),
    ensures
        spec_bucket_size(bucket) <= usize::MAX,
{
    lemma_word_limit();
    lemma_first_bucket();
    lemma_pow2_strictly_increases(3 + bucket, usize::BITS as nat);
}

/// The leading zeros of a number tell where its highest set bit is.
proof fn lemma_leading_zeros(i: u64)
    requires
        i > 0,
    ensures
        u64_leading_zeros(i) == 63 - highest_bit(i as nat),
    decreases i,
{
    reveal(u64_leading_zeros);
    if i > 1 {
        lemma_leading_zeros(i / 2);
    } else {
        assert(u64_leading_zeros(0) == 64);
    }
}

/// Position of the highest set bit of `num`.
pub fn highest_bit_index(num: usize) -> (r: usize)
    requires
        num > 0,
    ensures
        r == highest_bit(num as nat),
        pow2(r as nat) <= num < pow2(r as nat + 1),
        r < usize::BITS,
{
    proof {
        lemma_leading_zeros(num as u64);
        lemma_highest_bit_bounds(num as nat);
        lemma_word_limit();
        if highest_bit(num as nat) >= usize::BITS {
            if highest_bit(num as nat) > usize::BITS {
                lemma_pow2_strictly_increases(usize::BITS as nat, highest_bit(num as nat));
            }
        }
    }
    (63 - (num as u64).leading_zeros()) as usize
}

/// Number of elements that bucket `bucket` holds.
pub fn bucket_size(bucket: usize) -> (r: usize)
    requires
        bucket <= max_bucket(),
    ensures
        r == spec_bucket_size(bucket as nat),
        r >= FIRST_BUCKET_SIZE,
{
    proof {
        lemma_first_bucket();
        lemma_word_limit();
        lemma_bucket_size_doubles(bucket as nat);
        lemma_bucket_size_fits(bucket as nat);
        lemma_usize_shl_is_mul(1, (3 + bucket) as usize);
    }
    1 << (highest_bit_index(FIRST_BUCKET_SIZE) + bucket)
}

/// Clearing the highest set bit of a number takes the power of two of
/// that bit away from it.
proof fn lemma_clear_highest_bit(pos: u64, hibit: u64)
    requires
        hibit < 64,
        pow2(hibit as nat) <= pos < pow2(hibit as nat + 1),
    ensures
        pos ^ (1u64 << hibit) == pos - pow2(hibit as nat),
{
    lemma_u64_pow2_no_overflow(hibit as nat);
    lemma_u64_shl_is_mul(1, hibit);
    lemma_u64_shr_is_div(pos, hibit);
    let one = 1u64 << hibit;
    assert(one == pow2(hibit as nat));
    lemma_pow2_unfold(hibit as nat + 1);
    assert(pos / one == 1) by (nonlinear_arith)
        requires
            one <= pos < 2 * one,
            one > 0,
    ;
    assert(pos ^ one == pos - one) by (bit_vector)
        requires
            one == 1u64 << hibit,
            hibit < 64,
            pos >> hibit == 1,
    ;
}

/// Bucket and offset of logical index `i`: the bucket is the place of the
/// highest set bit of `i + FIRST_BUCKET_SIZE` less that of
/// `FIRST_BUCKET_SIZE`, and the offset is `i + FIRST_BUCKET_SIZE` with that
/// bit cleared.
pub fn bucket_of(i: usize) -> (r: (usize, usize))
    requires
        i <= MAX_INDEX,
    ensures
        r.0 == bucket_index(i as nat),
        r.1 == bucket_offset(i as nat),
        r.0 <= max_bucket(),
        r.1 < spec_bucket_size(r.0 as nat),
{
    let pos: usize = i + FIRST_BUCKET_SIZE;
    let hibit: usize = highest_bit_index(pos);
    proof {
        lemma_word_limit();
        lemma_bucket_index_bounded(i as nat);
        lemma_bucket_of_index(i as nat);
        lemma_first_bucket();
        lemma_clear_highest_bit(pos as u64, hibit as u64);
    }
    let idx: usize = ((pos as u64) ^ (1u64 << hibit)) as usize;
    let bucket: usize = hibit - highest_bit_index(FIRST_BUCKET_SIZE);
    (bucket, idx)
}

} // verus!
