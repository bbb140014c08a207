//! Small integer helpers shared by the pyramid: powers of two, general
//! powers, the base-two logarithm of a power of two, and a few facts about
//! them.

use vstd::prelude::*;

verus! {

/// `2^e`.
pub open spec fn pow2(e: nat) -> nat
    decreases e,
{
    if e == 0 {
        1
    } else {
        2 * pow2((e - 1) as nat)
    }
}

/// `b^e`.
pub open spec fn pow_nat(b: nat, e: nat) -> nat
    decreases e,
{
    if e == 0 {
        1
    } else {
        b * pow_nat(b, (e - 1) as nat)
    }
}

/// Floor of the base-two logarithm; `0` for inputs below `2`.
pub open spec fn log2(n: nat) -> nat
    decreases n,
{
    if n <= 1 {
        0
    } else {
        1 + log2(n / 2)
    }
}

/// Whether `n` is an exact power of two.
pub open spec fn is_pow2(n: nat) -> bool
    decreases n,
{
    if n == 0 {
        false
    } else if n == 1 {
        true
    } else {
        n % 2 == 0 && is_pow2(n / 2)
    }
}

pub open spec fn min_int(a: int, b: int) -> int {
    if a < b {
        a
    } else {
        b
    }
}

pub open spec fn abs_int(x: int) -> int {
    if x < 0 {
        -x
    } else {
        x
    }
}

pub proof fn lemma_pow2_positive(e: nat)
    ensures
        pow2(e) >= 1,
    decreases e,
{
    if e > 0 {
        lemma_pow2_positive((e - 1) as nat);
    }
}

pub proof fn lemma_pow2_increases(e1: nat, e2: nat)
    requires
        e1 <= e2,
    ensures
        pow2(e1) <= pow2(e2),
    decreases e2,
{
    if e1 < e2 {
        lemma_pow2_increases(e1, (e2 - 1) as nat);
        lemma_pow2_positive((e2 - 1) as nat);
    }
}

/// `2^e` agrees with the general power function.
pub proof fn lemma_pow2_is_pow_nat(e: nat)
    ensures
        pow2(e) == pow_nat(2, e),
    decreases e,
{
    if e > 0 {
        lemma_pow2_is_pow_nat((e - 1) as nat);
    }
}

pub proof fn lemma_pow2_7()
    ensures
        pow2(7) == 128,
{
    reveal_with_fuel(pow2, 9);
}

pub proof fn lemma_pow2_8()
    ensures
        pow2(8) == 256,
{
    reveal_with_fuel(pow2, 10);
}

pub proof fn lemma_pow_nat_positive(b: nat, e: nat)
    requires
        b >= 1,
    ensures
        pow_nat(b, e) >= 1,
    decreases e,
{
    if e > 0 {
        lemma_pow_nat_positive(b, (e - 1) as nat);
        assert(b * pow_nat(b, (e - 1) as nat) >= 1) by (nonlinear_arith)
            requires
                b >= 1,
                pow_nat(b, (e - 1) as nat) >= 1,
        ;
    }
}

/// `b^e` grows with both the base and the exponent.
pub proof fn lemma_pow_nat_increases(b1: nat, e1: nat, b2: nat, e2: nat)
    requires
        1 <= b1 <= b2,
        e1 <= e2,
    ensures
        pow_nat(b1, e1) <= pow_nat(b2, e2),
    decreases e2,
{
    if e2 == 0 {
    } else if e1 == 0 {
        lemma_pow_nat_positive(b2, e2);
    } else {
        lemma_pow_nat_increases(b1, (e1 - 1) as nat, b2, (e2 - 1) as nat);
        assert(b1 * pow_nat(b1, (e1 - 1) as nat) <= b2 * pow_nat(b2, (e2 - 1) as nat))
            by (nonlinear_arith)
            requires
                1 <= b1 <= b2,
                0 <= pow_nat(b1, (e1 - 1) as nat) <= pow_nat(b2, (e2 - 1) as nat),
        ;
    }
}

/// Computes `b^e`.
pub fn pow_usize(b: usize, e: usize) -> (r: usize)
    requires
        b >= 1,
        pow_nat(b as nat, e as nat) <= usize::MAX,
    ensures
        r as nat == pow_nat(b as nat, e as nat),
{
    let mut r: usize = 1;
    let mut i: usize = 0;
    while i < e
        invariant
            b >= 1,
            i <= e,
            pow_nat(b as nat, e as nat) <= usize::MAX,
            r as nat == pow_nat(b as nat, i as nat),
        decreases e - i,
    {
        proof {
            lemma_pow_nat_increases(b as nat, (i + 1) as nat, b as nat, e as nat);
            assert(pow_nat(b as nat, (i + 1) as nat) == b * pow_nat(b as nat, i as nat));
        }
        r = r * b;
        i = i + 1;
    }
    r
}

/// Computes the base-two logarithm; also bounds it by any power of two at or
/// above `n`.
pub fn log2_usize(n: usize) -> (r: usize)
    requires
        n >= 1,
    ensures
        r as nat == log2(n as nat),
        pow2(r as nat) <= n,
{
    let mut m: usize = n;
    let mut c: usize = 0;
    proof {
        assert(pow2(0) == 1);
    }
    while m > 1
        invariant
            1 <= m <= n,
            c <= n - m,
            log2(n as nat) == c + log2(m as nat),
            pow2(c as nat) * m <= n,
        decreases m,
    {
        proof {
            assert(log2(m as nat) == 1 + log2((m / 2) as nat));
            assert(pow2((c + 1) as nat) == 2 * pow2(c as nat));
            assert(2 * pow2(c as nat) * ((m / 2) as nat) <= pow2(c as nat) * m)
                by (nonlinear_arith)
                requires
                    m >= 2,
                    pow2(c as nat) >= 0,
            ;
        }
        m = m / 2;
        c = c + 1;
    }
    proof {
        lemma_pow2_positive(c as nat);
        assert(pow2(c as nat) * 1 == pow2(c as nat));
    }
    c
}

/// Decides whether `n` is an exact power of two.
pub fn is_pow2_usize(n: usize) -> (r: bool)
    ensures
        r == is_pow2(n as nat),
{
    if n == 0 {
        return false;
    }
    let mut m: usize = n;
    while m > 1
        invariant
            1 <= m <= n,
            is_pow2(n as nat) == is_pow2(m as nat),
        decreases m,
    {
        if m % 2 == 1 {
            return false;
        }
        m = m / 2;
    }
    true
}

} // verus!
