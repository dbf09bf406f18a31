//! Integer facts and small integer routines shared by the allocators:
//! powers of two, base-2 logarithms and trailing zero counts.
use vstd::prelude::*;

verus! {

use vstd::arithmetic::power2::{
    pow2,
    is_pow2,
    lemma_pow2_pos,
    lemma_pow2_unfold,
    lemma_pow2_strictly_increases,
};

/// Floor of the base-2 logarithm (0 for 0 and 1).
pub open spec fn log2(n: nat) -> nat
    decreases n,
{
    if n <= 1 {
        0
    } else {
        1 + log2(n / 2)
    }
}

/// The smallest power of two that is at least `n` (1 for 0 and 1).
pub open spec fn npow2(n: nat) -> nat {
    if n <= 1 {
        1
    } else {
        pow2(log2((n - 1) as nat) + 1)
    }
}

pub proof fn lemma_npow2(n: nat)
    ensures
        is_pow2(npow2(n) as int),
        n <= npow2(n),
{
    lemma_pow2_zero();
    reveal(is_pow2);
    if n > 1 {
        let k = log2((n - 1) as nat);
        lemma_log2_bounds((n - 1) as nat);
        lemma_is_pow2_pow2(k + 1);
    }
}

/// Number of trailing zero bits of a positive integer.
pub open spec fn tz(n: nat) -> nat
    decreases n,
{
    if n == 0 || n % 2 == 1 {
        0
    } else {
        1 + tz(n / 2)
    }
}

pub proof fn lemma_pow2_zero()
    ensures
        pow2(0) == 1,
{
    vstd::arithmetic::power2::lemma2_to64();
}

pub proof fn lemma_pow2_succ(k: nat)
    ensures
        pow2(k + 1) == 2 * pow2(k),
        pow2(k) > 0,
{
    lemma_pow2_unfold(k + 1);
    lemma_pow2_pos(k);
}

pub proof fn lemma_pow2_monotone(a: nat, b: nat)
    requires
        a <= b,
    ensures
        pow2(a) <= pow2(b),
{
    if a < b {
        lemma_pow2_strictly_increases(a, b);
    }
}

/// `log2(n)` brackets `n` between consecutive powers of two.
pub proof fn lemma_log2_bounds(n: nat)
    requires
        n >= 1,
    ensures
        pow2(log2(n)) <= n < pow2(log2(n) + 1),
    decreases n,
{
    lemma_pow2_zero();
    lemma_pow2_succ(0);
    if n > 1 {
        lemma_log2_bounds(n / 2);
        lemma_pow2_succ(log2(n / 2));
        lemma_pow2_succ(log2(n / 2) + 1);
    }
}

/// A power of two bracket determines the exponent.
pub proof fn lemma_log2_unique(n: nat, k: nat)
    requires
        pow2(k) <= n < pow2(k + 1),
    ensures
        log2(n) == k,
{
    lemma_pow2_pos(k);
    lemma_log2_bounds(n);
    let l = log2(n);
    if l < k {
        lemma_pow2_monotone(l + 1, k);
    } else if l > k {
        lemma_pow2_monotone(k + 1, l);
    }
}

pub proof fn lemma_log2_pow2(k: nat)
    ensures
        log2(pow2(k)) == k,
{
    lemma_pow2_succ(k);
    lemma_log2_unique(pow2(k), k);
}

/// The recursive power-of-two predicate agrees with `n == 2^log2(n)`.
pub proof fn lemma_is_pow2_iff(n: int)
    ensures
        is_pow2(n) <==> (n >= 1 && n == pow2(log2(n as nat))),
    decreases n,
{
    reveal(is_pow2);
    lemma_pow2_zero();
    if n > 1 {
        lemma_is_pow2_iff(n / 2);
        lemma_pow2_succ(log2((n / 2) as nat));
        if n % 2 == 1 {
            lemma_log2_bounds(n as nat);
            if log2(n as nat) > 0 {
                lemma_pow2_unfold(log2(n as nat));
            }
        }
    }
}

pub proof fn lemma_is_pow2_pow2(k: nat)
    ensures
        is_pow2(pow2(k) as int),
{
    lemma_log2_pow2(k);
    lemma_pow2_pos(k);
    lemma_is_pow2_iff(pow2(k) as int);
}

/// Dividing a power of two by two gives a power of two, unless it is 1.
pub proof fn lemma_is_pow2_half(n: int)
    requires
        is_pow2(n),
        n >= 2,
    ensures
        is_pow2(n / 2),
        n % 2 == 0,
{
    reveal(is_pow2);
}

pub proof fn lemma_is_pow2_double(n: int)
    requires
        is_pow2(n),
    ensures
        is_pow2(2 * n),
{
    reveal(is_pow2);
    assert((2 * n) / 2 == n);
}

/// Of two powers of two, the smaller divides the larger.
pub proof fn lemma_pow2_divides(a: int, b: int)
    requires
        is_pow2(a),
        is_pow2(b),
        a <= b,
    ensures
        b % a == 0,
        b / a * a == b,
{
    lemma_is_pow2_iff(a);
    lemma_is_pow2_iff(b);
    let la = log2(a as nat);
    let lb = log2(b as nat);
    if lb < la {
        lemma_pow2_strictly_increases(lb, la);
    }
    let d = (lb - la) as nat;
    vstd::arithmetic::power2::lemma_pow2_adds(d, la);
    assert(b == pow2(d) * a);
    vstd::arithmetic::div_mod::lemma_mod_multiples_basic(pow2(d) as int, a);
    vstd::arithmetic::div_mod::lemma_div_multiples_vanish(pow2(d) as int, a);
    vstd::arithmetic::mul::lemma_mul_is_commutative(a, pow2(d) as int);
    assert(b / a == pow2(d));
}

/// The trailing zeros of `2^k` are `k`.
pub proof fn lemma_tz_pow2(k: nat)
    ensures
        tz(pow2(k)) == k,
    decreases k,
{
    lemma_pow2_zero();
    if k > 0 {
        lemma_pow2_succ((k - 1) as nat);
        lemma_tz_pow2((k - 1) as nat);
        assert(pow2(k) / 2 == pow2((k - 1) as nat));
        assert(pow2(k) % 2 == 0);
    }
}

/// `2^tz(n)` divides `n`, so it is at most `n` and at most `2^log2(n)`.
pub proof fn lemma_tz_bounds(n: nat)
    requires
        n > 0,
    ensures
        pow2(tz(n)) <= n,
        n % pow2(tz(n)) == 0,
        tz(n) <= log2(n),
    decreases n,
{
    lemma_pow2_zero();
    if n % 2 == 0 {
        lemma_tz_bounds(n / 2);
        lemma_pow2_succ(tz(n / 2));
        let q = (n / 2) / pow2(tz(n / 2));
        vstd::arithmetic::div_mod::lemma_fundamental_div_mod((n / 2) as int, pow2(tz(n / 2)) as int);
        assert(n / 2 == q * pow2(tz(n / 2)));
        assert(n == q * pow2(tz(n))) by (nonlinear_arith)
            requires
                n / 2 == q * pow2(tz(n / 2)),
                n % 2 == 0,
                pow2(tz(n)) == 2 * pow2(tz(n / 2)),
        ;
        vstd::arithmetic::div_mod::lemma_mod_multiples_basic(q as int, pow2(tz(n)) as int);
    }
}

/// `1 << k` is `2^k`.
pub proof fn lemma_shl_one(k: usize)
    requires
        k < 32,
    ensures
        (1usize << k) == pow2(k as nat),
        pow2(k as nat) <= u32::MAX,
{
    vstd::bits::lemma_u32_pow2_no_overflow(k as nat);
    vstd::bits::lemma_usize_shl_is_mul(1, k);
}

/// Whether `x` is a power of two.
pub fn is_power_of_two(x: usize) -> (b: bool)
    ensures
        b == is_pow2(x as int),
{
    if x == 0 {
        proof {
            reveal(is_pow2);
        }
        return false;
    }
    let mut v = x;
    while v % 2 == 0
        invariant
            v > 0,
            is_pow2(v as int) == is_pow2(x as int),
        decreases v,
    {
        proof {
            reveal(is_pow2);
        }
        v = v / 2;
    }
    proof {
        reveal(is_pow2);
    }
    v == 1
}

/// The smallest power of two that is at least `x` (1 for 0).
pub fn next_power_of_two(x: usize) -> (r: usize)
    requires
        x <= usize::MAX / 2 + 1,
    ensures
        is_pow2(r as int),
        x <= r,
        r == 1 || r / 2 < x,
        r == npow2(x as nat),
{
    let mut p: usize = 1;
    proof {
        reveal(is_pow2);
    }
    while p < x
        invariant
            is_pow2(p as int),
            p >= 1,
            x <= usize::MAX / 2 + 1,
            p == 1 || p / 2 < x,
        decreases usize::MAX - p,
    {
        proof {
            lemma_is_pow2_double(p as int);
        }
        p = p * 2;
    }
    proof {
        lemma_is_pow2_iff(p as int);
        if x <= 1 {
            assert(p == 1);
        } else {
            let k = log2(p as nat);
            lemma_pow2_zero();
            if k == 0 {
                assert(false);
            }
            lemma_pow2_unfold(k);
            lemma_log2_unique((x - 1) as nat, (k - 1) as nat);
        }
    }
    p
}

/// Number of trailing zero bits of a positive `x`.
pub fn trailing_zeros(x: usize) -> (r: u32)
    requires
        x > 0,
    ensures
        r == tz(x as nat),
        r < 64,
{
    let mut v = x;
    let mut n: u32 = 0;
    proof {
        lemma_pow2_zero();
    }
    while v % 2 == 0
        invariant
            v > 0,
            n + tz(v as nat) == tz(x as nat),
            pow2(n as nat) * v == x,
            n < 64,
        decreases v,
    {
        proof {
            lemma_pow2_succ(n as nat);
            assert(pow2((n + 1) as nat) * (v / 2) == x) by (nonlinear_arith)
                requires
                    pow2(n as nat) * v == x,
                    v % 2 == 0,
                    pow2((n + 1) as nat) == 2 * pow2(n as nat),
            ;
            if n + 1 >= 64 {
                vstd::arithmetic::power2::lemma2_to64();
                lemma_pow2_monotone(64, (n + 1) as nat);
                assert(v / 2 >= 1);
                assert(pow2((n + 1) as nat) * (v / 2) >= pow2((n + 1) as nat)) by (nonlinear_arith)
                    requires v / 2 >= 1;
            }
        }
        v = v / 2;
        n = n + 1;
    }
    n
}

} // verus!
