use vstd::prelude::*;

use vstd::arithmetic::div_mod::lemma_div_nonincreasing;
use vstd::arithmetic::div_mod::lemma_fundamental_div_mod;
use vstd::arithmetic::div_mod::lemma_fundamental_div_mod_converse;
use vstd::arithmetic::div_mod::lemma_mod_division_less_than_divisor;

verus! {

/// Rounding a nonnegative numerator up: `(n + b - 1) / b` is the ceiling
/// of `n / b`, stated as the floor of the shifted numerator.
proof fn lemma_round_up_nonneg(n: int, b: int)
    requires
        n >= 0,
        b > 0,
    ensures
        (n + b - 1) / b == if n % b == 0 {
            n / b
        } else {
            n / b + 1
        },
        n == b * (n / b) + n % b,
        0 <= n % b < b,
{
    lemma_fundamental_div_mod(n, b);
    lemma_mod_division_less_than_divisor(n, b);
    let d = n / b;
    let m = n % b;
    if m == 0 {
        assert(n + b - 1 == d * b + (b - 1)) by (nonlinear_arith)
            requires
                n == b * d,
        ;
        lemma_fundamental_div_mod_converse(n + b - 1, b, d, b - 1);
    } else {
        assert(n + b - 1 == (d + 1) * b + (m - 1)) by (nonlinear_arith)
            requires
                n == b * d + m,
        ;
        lemma_fundamental_div_mod_converse(n + b - 1, b, d + 1, m - 1);
    }
}

/// Negating the numerator turns a floor into a ceiling: for positive `b`,
/// `(-n) / b == -((n + b - 1) / b)` whenever `n >= 0`.
proof fn lemma_neg_div(n: int, b: int)
    requires
        n >= 0,
        b > 0,
    ensures
        (-n) / b == -((n + b - 1) / b),
{
    lemma_round_up_nonneg(n, b);
    let d = n / b;
    let m = n % b;
    if m == 0 {
        assert(-n == (-d) * b + 0) by (nonlinear_arith)
            requires
                n == b * d,
        ;
        lemma_fundamental_div_mod_converse(-n, b, -d, 0);
    } else {
        assert(-n == (-(d + 1)) * b + (b - m)) by (nonlinear_arith)
            requires
                n == b * d + m,
        ;
        lemma_fundamental_div_mod_converse(-n, b, -(d + 1), b - m);
    }
}

/// Floor division with a positive divisor. Spec-level `/` on `int` rounds
/// towards negative infinity when the divisor is positive, so the contract
/// is plain `a / b`.
pub fn floor_div(a: i128, b: i128) -> (r: i128)
    requires
        0 < b <= 0x1000_0000_0000_0000_0000_0000,
        -0x1000_0000_0000_0000_0000_0000 <= a <= 0x1000_0000_0000_0000_0000_0000,
    ensures
        r == a as int / b as int,
        -0x1000_0000_0000_0000_0000_0000 <= r <= 0x1000_0000_0000_0000_0000_0000,
{
    if a >= 0 {
        let q = (a as u128) / (b as u128);
        proof {
            lemma_div_nonincreasing(a as int, b as int);
        }
        q as i128
    } else {
        let na = (-a) as u128;
        let q = (na + (b as u128) - 1) / (b as u128);
        proof {
            lemma_round_up_nonneg(na as int, b as int);
            lemma_neg_div(na as int, b as int);
            lemma_div_nonincreasing(na as int + b as int - 1, b as int);
        }
        -(q as i128)
    }
}

/// Ceiling division with a positive divisor, stated through the identity
/// `ceil(a / b) == -floor(-a / b)` over the integers.
pub fn ceil_div(a: i128, b: i128) -> (r: i128)
    requires
        0 < b <= 0x1000_0000_0000_0000_0000_0000,
        -0x1000_0000_0000_0000_0000_0000 <= a <= 0x1000_0000_0000_0000_0000_0000,
    ensures
        r == -((-a) as int / b as int),
        -0x1000_0000_0000_0000_0000_0000 <= r <= 0x1000_0000_0000_0000_0000_0000,
{
    if a <= 0 {
        let q = ((-a) as u128) / (b as u128);
        proof {
            lemma_div_nonincreasing((-a) as int, b as int);
        }
        -(q as i128)
    } else {
        let q = ((a as u128) + (b as u128) - 1) / (b as u128);
        proof {
            lemma_round_up_nonneg(a as int, b as int);
            lemma_neg_div(a as int, b as int);
            lemma_div_nonincreasing(a as int + b as int - 1, b as int);
        }
        q as i128
    }
}

/// The integer base-2 logarithm, with `log2_floor(0) == 0` by convention.
pub open spec fn log2_floor(w: nat) -> nat
    decreases w,
{
    if w < 2 {
        0
    } else {
        1 + log2_floor(w / 2)
    }
}

/// Computes `log2_floor` of a machine integer.
pub fn log2_floor_u64(w: u64) -> (r: u64)
    ensures
        r == log2_floor(w as nat),
{
    let mut v = w;
    let mut r: u64 = 0;
    proof {
        lemma_log2_floor_bound(w as nat);
    }
    while v >= 2
        invariant
            log2_floor(w as nat) == r + log2_floor(v as nat),
            log2_floor(w as nat) <= w,
        decreases v,
    {
        proof {
            assert(log2_floor(v as nat) == 1 + log2_floor((v as nat) / 2));
        }
        v = v / 2;
        r = r + 1;
    }
    assert(log2_floor(v as nat) == 0);
    r
}

/// `log2_floor` never exceeds its argument, which bounds the loop counter
/// above.
pub proof fn lemma_log2_floor_bound(w: nat)
    ensures
        log2_floor(w) <= w,
    decreases w,
{
    if w >= 2 {
        lemma_log2_floor_bound(w / 2);
    }
}

/// Values below `2^k` have a base-2 logarithm below `k`.
pub proof fn lemma_log2_floor_below(w: nat, k: nat)
    requires
        w < vstd::arithmetic::power2::pow2(k),
        k >= 1,
    ensures
        log2_floor(w) < k,
    decreases k,
{
    if w >= 2 {
        vstd::arithmetic::power2::lemma_pow2_unfold(k);
        if k == 1 {
            vstd::arithmetic::power2::lemma2_to64();
        } else {
            lemma_log2_floor_below(w / 2, (k - 1) as nat);
        }
    }
}

/// Weights that fit in 32 bits have a base-2 logarithm of at most 31.
pub proof fn lemma_log2_floor_u32(w: nat)
    requires
        w <= 0xffff_ffff,
    ensures
        log2_floor(w) <= 31,
{
    vstd::arithmetic::power2::lemma2_to64();
    lemma_log2_floor_below(w, 32);
}

} // verus!
