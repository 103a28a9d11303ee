//! The number of election phases for a population of `n` agents:
//! `⌈log2(n)⌉`, computed by repeated halving (rounding up).

use vstd::prelude::*;

use vstd::arithmetic::power2::pow2;
use vstd::arithmetic::power2::lemma2_to64;

verus! {

/// `⌈x / 2⌉` for a non-negative integer `x`.
pub open spec fn ceil_half(x: int) -> int {
    x / 2 + x % 2
}

/// `⌈log2(n)⌉`: the number of times `n` must be halved (rounding up) to
/// reach 1.
pub open spec fn num_phases_spec(n: int) -> nat
    decreases n,
{
    if n <= 1 {
        0
    } else {
        (1 + num_phases_spec(ceil_half(n))) as nat
    }
}

/// Halving (rounding up) never goes below 1 and strictly shrinks any `n >= 2`.
pub proof fn lemma_ceil_half_bounds(n: int)
    requires
        2 <= n,
    ensures
        1 <= ceil_half(n) < n,
{
}

/// Only 1 needs no halving; everything larger needs at least one.
pub proof fn lemma_num_phases_pos(n: int)
    requires
        2 <= n,
    ensures
        1 <= num_phases_spec(n),
{
}

/// `⌈log2(n)⌉ <= k` whenever `n <= 2^k`.
pub proof fn lemma_num_phases_le(k: nat, n: int)
    requires
        1 <= n <= pow2(k),
    ensures
        num_phases_spec(n) <= k,
    decreases k,
{
    if n <= 1 {
    } else {
        vstd::arithmetic::power2::lemma_pow2_pos(k);
        if k == 0 {
            assert(pow2(0) == 1) by {
                lemma2_to64();
            }
        } else {
            assert(pow2(k) == 2 * pow2((k - 1) as nat)) by {
                vstd::arithmetic::power2::lemma_pow2_unfold(k);
            }
            lemma_ceil_half_bounds(n);
            assert(ceil_half(n) <= pow2((k - 1) as nat));
            lemma_num_phases_le((k - 1) as nat, ceil_half(n));
        }
    }
}

/// On any supported machine, a population that fits in a `usize` needs at
/// most 64 phases.
pub proof fn lemma_num_phases_le_64(n: int)
    requires
        1 <= n <= usize::MAX,
    ensures
        num_phases_spec(n) <= 64,
{
    lemma2_to64();
    assert(usize::MAX as int <= u64::MAX as int);
    lemma_num_phases_le(64, n);
}

/// `num_phases_spec` is `⌈log2(n)⌉`: `2^num_phases(n)` reaches `n`, and no
/// smaller power of two does.
pub proof fn lemma_num_phases_is_ceil_log2(n: int)
    requires
        1 <= n,
    ensures
        n <= pow2(num_phases_spec(n)),
        num_phases_spec(n) >= 1 ==> pow2((num_phases_spec(n) - 1) as nat) < n,
    decreases n,
{
    lemma2_to64();
    if n >= 2 {
        lemma_ceil_half_bounds(n);
        lemma_num_phases_is_ceil_log2(ceil_half(n));
        let p = num_phases_spec(ceil_half(n));
        assert(num_phases_spec(n) == p + 1);
        assert(pow2(p + 1) == 2 * pow2(p)) by {
            vstd::arithmetic::power2::lemma_pow2_unfold(p + 1);
        }
        assert(n <= 2 * ceil_half(n));
        if p >= 1 {
            assert(pow2(p) == 2 * pow2((p - 1) as nat)) by {
                vstd::arithmetic::power2::lemma_pow2_unfold(p);
            }
            assert(pow2((p - 1) as nat) < ceil_half(n));
            assert(2 * ceil_half(n) <= n + 1);
            assert(pow2(p) < n);
        } else {
            assert(ceil_half(n) <= pow2(0));
            assert(pow2(0) == 1);
            assert(n <= 3);
            assert(pow2(0) < n);
        }
    }
}

/// The number of leader-election (and ranking) phases for `n` agents:
/// `⌈log2(n)⌉`.
pub fn num_phases(n: usize) -> (result: usize)
    requires
        1 <= n,
    ensures
        result == num_phases_spec(n as int),
        result <= 64,
{
    proof {
        lemma_num_phases_le_64(n as int);
    }
    let mut m: usize = n;
    let mut p: usize = 0;
    while m > 1
        invariant
            1 <= m <= n,
            num_phases_spec(n as int) == p + num_phases_spec(m as int),
            num_phases_spec(n as int) <= 64,
        decreases m,
    {
        proof {
            lemma_ceil_half_bounds(m as int);
            lemma_num_phases_pos(m as int);
        }
        m = m / 2 + m % 2;
        p = p + 1;
    }
    p
}

} // verus!
