//! Powers of two and binary logarithms.
use vstd::arithmetic::power2::*;
use vstd::prelude::*;

verus! {

/// `n` is a power of two.
pub open spec fn is_pow2(n: int) -> bool {
    exists|k: nat| n == #[trigger] pow2(k)
}

/// The number of binary digits of `n`.
pub open spec fn bit_len(n: nat) -> nat
    decreases n,
{
    if n == 0 {
        0
    } else {
        bit_len(n / 2) + 1
    }
}

/// The least `k` such that `n` is at most two to the power `k`.
pub open spec fn log2(n: int) -> nat {
    if n <= 1 {
        0
    } else {
        bit_len((n - 1) as nat)
    }
}

proof fn lemma_bit_len(n: nat)
    ensures
        n < pow2(bit_len(n)),
        n > 0 ==> pow2((bit_len(n) - 1) as nat) <= n,
    decreases n,
{
    lemma2_to64();
    if n > 0 {
        lemma_bit_len(n / 2);
        lemma_pow2_unfold(bit_len(n));
        if n / 2 > 0 {
            lemma_pow2_unfold((bit_len(n) - 1) as nat);
        }
    }
}

/// `log2(n)` is the least exponent whose power of two reaches `n`.
pub proof fn lemma_log2(n: int)
    requires
        n > 0,
    ensures
        n <= pow2(log2(n)),
        log2(n) > 0 ==> pow2((log2(n) - 1) as nat) < n,
{
    lemma2_to64();
    if n > 1 {
        lemma_bit_len((n - 1) as nat);
    }
}

/// The logarithm of a power of two is its exponent.
pub proof fn lemma_log2_pow2(k: nat)
    ensures
        log2(pow2(k) as int) == k,
{
    lemma_pow2_pos(k);
    let n = pow2(k) as int;
    lemma_log2(n);
    if log2(n) < k {
        lemma_pow2_strictly_increases(log2(n), k);
    }
    if log2(n) > k {
        if k < log2(n) - 1 {
            lemma_pow2_strictly_increases(k, (log2(n) - 1) as nat);
        }
    }
}

/// A power of two is two to the power of its logarithm.
pub proof fn lemma_pow2_log2(n: int)
    requires
        is_pow2(n),
    ensures
        n == pow2(log2(n)),
        n > 0,
{
    let k = choose|k: nat| n == #[trigger] pow2(k);
    lemma_log2_pow2(k);
    lemma_pow2_pos(k);
}

/// The binary logarithm of `n`, rounded up.
pub fn log_2(n: usize) -> (r: usize)
    requires
        n > 0,
    ensures
        r == log2(n as int),
{
    let mut m: usize = n - 1;
    let mut r: usize = 0;
    while m > 0
        invariant
            r + m <= n,
            r + bit_len(m as nat) == bit_len((n - 1) as nat),
        decreases m,
    {
        m = m / 2;
        r = r + 1;
    }
    r
}

} // verus!
