use vstd::prelude::*;
use vstd::arithmetic::power2::pow2;
use vstd::arithmetic::power2::lemma_pow2_strictly_increases;
use vstd::arithmetic::power2::lemma2_to64;

verus! {

/// `n` is a power of two.
pub open spec fn is_pow2(n: nat) -> bool
    decreases n,
{
    n >= 1 && (n == 1 || (n % 2 == 0 && is_pow2(n / 2)))
}

/// The base-two logarithm of `n`, rounded down.
pub open spec fn lg(n: nat) -> nat
    decreases n,
{
    if n <= 1 {
        0
    } else {
        1 + lg(n / 2)
    }
}

/// The least power of two that is at least `n` (and at least 1).
pub open spec fn np2(n: nat) -> nat
    decreases n,
{
    if n <= 1 {
        1
    } else {
        2 * np2((n + 1) / 2)
    }
}

pub proof fn lemma_pow2_lg(n: nat)
    requires
        is_pow2(n),
    ensures
        pow2(lg(n)) == n,
    decreases n,
{
    if n == 1 {
        lemma2_to64();
    } else {
        lemma_pow2_lg(n / 2);
        vstd::arithmetic::power2::lemma_pow2_unfold(lg(n));
    }
}

pub proof fn lemma_lg_pow2(k: nat)
    ensures
        lg(pow2(k)) == k,
        is_pow2(pow2(k)),
        pow2(k) >= 1,
    decreases k,
{
    if k == 0 {
        lemma2_to64();
    } else {
        lemma_lg_pow2((k - 1) as nat);
        vstd::arithmetic::power2::lemma_pow2_unfold(k);
        vstd::arithmetic::power2::lemma_pow2_pos((k - 1) as nat);
    }
}

pub proof fn lemma_np2_bounds(n: nat)
    ensures
        is_pow2(np2(n)),
        np2(n) >= n,
        np2(n) >= 1,
        n >= 1 ==> np2(n) < 2 * n,
    decreases n,
{
    if n > 1 {
        lemma_np2_bounds((n + 1) / 2);
    }
}

/// A power of two in `[n, 2n)` is unique, hence equals `np2(n)`.
pub proof fn lemma_np2_unique(n: nat, m: nat)
    requires
        n >= 1,
        is_pow2(m),
        m >= n,
        m < 2 * n,
    ensures
        m == np2(n),
{
    lemma_np2_bounds(n);
    let a = lg(m);
    let b = lg(np2(n));
    lemma_pow2_lg(m);
    lemma_pow2_lg(np2(n));
    if a < b {
        assert(pow2(1 + a) == 2 * pow2(a)) by {
            vstd::arithmetic::power2::lemma_pow2_adds(1, a);
            lemma2_to64();
        }
        lemma_pow2_le(1 + a, b);
        assert(2 * m <= np2(n));
    } else if b < a {
        assert(pow2(1 + b) == 2 * pow2(b)) by {
            vstd::arithmetic::power2::lemma_pow2_adds(1, b);
            lemma2_to64();
        }
        lemma_pow2_le(1 + b, a);
        assert(2 * np2(n) <= m);
    }
}

pub proof fn lemma_pow2_le(a: nat, b: nat)
    requires
        a <= b,
    ensures
        pow2(a) <= pow2(b),
{
    if a < b {
        lemma_pow2_strictly_increases(a, b);
    }
}

/// Whether `n` is a power of two.
pub fn is_power_of_two(n: usize) -> (r: bool)
    ensures
        r == is_pow2(n as nat),
{
    if n == 0 {
        return false;
    }
    let mut m: usize = n;
    while m > 1
        invariant
            m >= 1,
            is_pow2(n as nat) == is_pow2(m as nat),
        decreases m,
    {
        if m % 2 != 0 {
            return false;
        }
        m = m / 2;
    }
    true
}

/// The exact base-two logarithm of a power-of-two number.
pub fn log2(n: usize) -> (r: u32)
    requires
        is_pow2(n as nat),
    ensures
        n as nat == pow2(r as nat),
        r as nat == lg(n as nat),
{
    let mut m: usize = n;
    let mut k: u32 = 0;
    proof {
        lemma2_to64();
    }
    while m > 1
        invariant
            is_pow2(m as nat),
            n as nat == (m as nat) * pow2(k as nat),
            pow2(k as nat) <= n as nat,
            m >= 1,
        decreases m,
    {
        proof {
            let pk = pow2(k as nat);
            let pk1 = pow2((k as nat) + 1);
            assert(pk1 == 2 * pk) by {
                vstd::arithmetic::power2::lemma_pow2_adds(1, k as nat);
                lemma2_to64();
            }
            assert((m as nat) * pk == (m as nat / 2) * pk1) by (nonlinear_arith)
                requires
                    m as nat % 2 == 0,
                    pk1 == 2 * pk,
            ;
            assert(pk1 <= (m as nat / 2) * pk1) by (nonlinear_arith)
                requires
                    m as nat / 2 >= 1,
                    pk1 >= 0,
            ;
            if (k as nat) + 1 >= 64 {
                lemma_pow2_le(64, (k as nat) + 1);
                lemma2_to64();
                assert(usize::MAX as nat == 0xffff_ffffnat || usize::MAX as nat
                    == 0xffff_ffff_ffff_ffffnat);
                assert(false);
            }
        }
        m = m / 2;
        k = k + 1;
    }
    proof {
        lemma_lg_pow2(k as nat);
    }
    k
}

/// The least power of two that is at least `n` (and at least 1).
pub fn next_pow2(n: usize) -> (r: usize)
    requires
        n <= usize::MAX / 2,
    ensures
        r as nat == np2(n as nat),
        is_pow2(r as nat),
        r >= n,
        r >= 1,
    {
    let mut m: usize = 1;
    while m < n
        invariant
            is_pow2(m as nat),
            m >= 1,
            m == 1 || m as nat <= 2 * (n as nat),
            m > 1 ==> m as nat / 2 < n as nat,
            n <= usize::MAX / 2,
        decreases 2 * (n as int) - m,
    {
        m = m * 2;
    }
    proof {
        if n as nat >= 1 {
            assert((m as nat) < 2 * (n as nat) || m == 1);
            lemma_np2_unique(n as nat, m as nat);
        }
    }
    m
}

/// A power of two that fits a machine word has a small exponent.
pub proof fn lemma_pow2_bounded(n: nat)
    requires
        pow2(n) <= usize::MAX,
    ensures
        n < 64,
{
    if n >= 64 {
        lemma_pow2_le(64, n);
        lemma2_to64();
        assert(usize::MAX as nat == 0xffff_ffffnat || usize::MAX as nat
            == 0xffff_ffff_ffff_ffffnat);
        assert(false);
    }
}

/// `pow2(k)` as a machine integer.
pub fn pow2_usize(k: u32) -> (r: usize)
    requires
        pow2(k as nat) <= usize::MAX,
    ensures
        r as nat == pow2(k as nat),
        r >= 1,
{
    let mut i: u32 = 0;
    let mut r: usize = 1;
    proof {
        lemma2_to64();
    }
    while i < k
        invariant
            i <= k,
            r as nat == pow2(i as nat),
            pow2(k as nat) <= usize::MAX,
        decreases k - i,
    {
        proof {
            lemma_pow2_le((i as nat) + 1, k as nat);
            vstd::arithmetic::power2::lemma_pow2_adds(i as nat, 1);
            lemma2_to64();
        }
        r = r * 2;
        i = i + 1;
    }
    proof {
        vstd::arithmetic::power2::lemma_pow2_pos(k as nat);
    }
    r
}

} // verus!
