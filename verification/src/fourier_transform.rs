//! The test on the size of the input of a fast Fourier transform, which
//! halves its input until one element is left.
use vstd::prelude::*;
use vstd::arithmetic::power2::{is_pow2, is_pow2_equiv, is_pow2_exists};

verus! {

/// A number of at least two has a single bit set exactly when it is even
/// and its half has a single bit set.
proof fn lemma_single_bit_of_half(n: u64)
    requires
        n >= 2,
    ensures
        (n & ((n - 1) as u64) == 0) <==> (n % 2 == 0 && (n / 2) & ((n / 2 - 1) as u64) == 0),
{
    assert(n >= 2 ==> ((n & ((n - 1) as u64) == 0) <==> (n % 2 == 0 && (n / 2) & ((n / 2
        - 1) as u64) == 0))) by (bit_vector);
}

/// A positive number is a power of two exactly when it shares no bit with
/// its predecessor.
proof fn lemma_single_bit(n: u64)
    requires
        n > 0,
    ensures
        is_pow2(n as int) <==> n & ((n - 1) as u64) == 0,
    decreases n,
{
    reveal(is_pow2);
    if n == 1 {
        assert(1u64 & 0u64 == 0) by (bit_vector);
    } else {
        lemma_single_bit_of_half(n);
        lemma_single_bit(n / 2);
    }
}

/// Whether `n` is a power of two.
pub fn is_power_of_two(n: usize) -> (r: bool)
    ensures
        r == is_pow2(n as int),
        r == is_pow2_exists(n as int),
{
    proof {
        is_pow2_equiv(n as int);
        if n > 0 {
            lemma_single_bit(n as u64);
            let m = n as u64;
            let p = (n - 1) as usize;
            assert((n & p == 0) == (m & ((m - 1) as u64) == 0)) by (bit_vector)
                requires
                    m == n as u64,
                    p == (n - 1) as usize,
                    n > 0,
            ;
        } else {
            reveal(is_pow2);
        }
    }
    n != 0 && (n & (n - 1) == 0)
}

} // verus!
