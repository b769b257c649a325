//! Modular arithmetic on residues held in `u128`.
//!
//! Every modulus used by the library is below `2^128`, so a residue always
//! fits in a `u128`.  The operations below never overflow: additions are
//! arranged so that no intermediate value exceeds the modulus, and products
//! are formed by doubling and adding.

use vstd::prelude::*;
use vstd::arithmetic::div_mod::*;
use vstd::arithmetic::mul::*;
use vstd::arithmetic::power::*;

use crate::math::spec_xgcd;

verus! {

/// `(a + b) mod p` for residues `a, b < p`.
pub fn add_mod(a: u128, b: u128, p: u128) -> (r: u128)
    requires
        a < p,
        b < p,
    ensures
        r == (a + b) % (p as int),
        r < p,
{
    let gap = p - b;
    if a >= gap {
        let r = a - gap;
        proof {
            lemma_mod_sub_multiples_vanish((a + b) as int, p as int);
            lemma_small_mod(r as nat, p as nat);
        }
        r
    } else {
        proof {
            lemma_small_mod((a + b) as nat, p as nat);
        }
        a + b
    }
}

/// `(a - b) mod p` for residues `a, b < p`, always in `[0, p)`.
pub fn sub_mod(a: u128, b: u128, p: u128) -> (r: u128)
    requires
        a < p,
        b < p,
    ensures
        r == (a - b) % (p as int),
        r < p,
{
    if a >= b {
        proof {
            lemma_small_mod((a - b) as nat, p as nat);
        }
        a - b
    } else {
        let r = p - (b - a);
        proof {
            lemma_mod_add_multiples_vanish(a - b, p as int);
            lemma_small_mod(r as nat, p as nat);
        }
        r
    }
}

/// `(a * b) mod p` for residues `a, b < p`, computed by doubling and adding.
pub fn mul_mod(a: u128, b: u128, p: u128) -> (r: u128)
    requires
        a < p,
        b < p,
    ensures
        r == (a * b) % (p as int),
        r < p,
{
    let mut acc: u128 = 0;
    let mut base: u128 = a;
    let mut e: u128 = b;
    while e > 0
        invariant
            acc < p,
            base < p,
            (acc + base * e) % (p as int) == (a * b) % (p as int),
        decreases e,
    {
        let ghost e0 = e;
        let ghost acc0 = acc;
        let ghost base0 = base;
        proof {
            lemma_fundamental_div_mod(e as int, 2);
        }
        if e % 2 == 1 {
            acc = add_mod(acc, base, p);
        }
        base = add_mod(base, base, p);
        e = e / 2;
        proof {
            let pi = p as int;
            let bit = e0 % 2;
            // acc0 + base0 * e0 == (acc0 + base0 * bit) + (2 * base0) * (e0 / 2)
            assert(base0 * e0 == base0 * bit + (2 * base0) * e) by {
                lemma_mul_is_distributive_add(base0 as int, 2 * (e as int), bit as int);
                lemma_mul_is_associative(base0 as int, 2, e as int);
                lemma_mul_is_commutative(base0 as int, 2);
            }
            assert(acc as int == (acc0 + base0 * bit) % pi) by {
                lemma_mul_basics(base0 as int);
                if bit == 1 {
                } else {
                    lemma_small_mod(acc0 as nat, p as nat);
                }
            }
            lemma_mul_mod_noop_left(2 * base0, e as int, pi);
            lemma_add_mod_noop(acc0 + base0 * bit, (2 * base0) * e, pi);
            lemma_add_mod_noop(acc as int, base * e, pi);
            lemma_mod_twice(acc0 + base0 * bit, pi);
            lemma_mod_twice((2 * base0) * e, pi);
        }
    }
    proof {
        lemma_mul_basics(base as int);
        lemma_small_mod(acc as nat, p as nat);
    }
    acc
}


/// One squaring-and-multiplying step of exponentiation, in congruence form.
proof fn lemma_pow_step(r: int, b: int, e: nat, p: int, r2: int, b2: int)
    requires
        p > 0,
        e > 0,
        r2 == (if e % 2 == 1 { r * b } else { r }) % p,
        b2 == (b * b) % p,
    ensures
        (r2 * pow(b2, e / 2)) % p == (r * pow(b, e)) % p,
{
    let h = (e / 2) as nat;
    let bit = (e % 2) as nat;
    lemma_fundamental_div_mod(e as int, 2);
    assert(e == 2 * h + bit);
    lemma_pow_adds(b, 2 * h, bit);
    lemma_pow_multiplies(b, 2, h);
    lemma_square_is_pow2(b);
    assert(pow(b, 2) == b * b) by {
        reveal_with_fuel(pow, 3);
    }
    assert(pow(b, bit) == (if bit == 1 { b } else { 1 })) by {
        reveal_with_fuel(pow, 2);
    }
    // r * pow(b, e) == (r * pow(b, bit)) * pow(b * b, h)
    lemma_mul_is_associative(r, pow(b, bit), pow(b * b, h));
    lemma_mul_is_commutative(pow(b, 2 * h), pow(b, bit));
    lemma_mul_basics(r);
    // reduce each factor modulo p
    lemma_pow_mod_noop(b * b, h, p);
    lemma_mul_mod_noop_general(r * pow(b, bit), pow(b * b, h), p);
    lemma_mul_mod_noop_general(r2, pow(b2, h), p);
    lemma_mul_mod_noop_general(r2, pow(b * b, h), p);
    lemma_pow_mod_noop(b2, h, p);
    lemma_mod_twice(b * b, p);
}

/// `base^e mod p` for a residue `base < p`, by square-and-multiply.
pub fn pow_mod(base: u128, e: u128, p: u128) -> (r: u128)
    requires
        base < p,
    ensures
        r == pow(base as int, e as nat) % (p as int),
        r < p,
{
    let mut acc: u128 = 1 % p;
    let mut b: u128 = base;
    let mut k: u128 = e;
    proof {
        reveal_with_fuel(pow, 1);
        lemma_mul_basics(pow(base as int, e as nat));
        lemma_mod_twice(1, p as int);
        lemma_mul_mod_noop_left(1, pow(base as int, e as nat), p as int);
    }
    while k > 0
        invariant
            acc < p,
            b < p,
            (acc * pow(b as int, k as nat)) % (p as int) == pow(base as int, e as nat) % (p as int),
        decreases k,
    {
        let ghost acc0 = acc;
        let ghost b0 = b;
        let ghost k0 = k;
        if k % 2 == 1 {
            acc = mul_mod(acc, b, p);
        } else {
            proof {
                lemma_small_mod(acc as nat, p as nat);
            }
        }
        b = mul_mod(b, b, p);
        k = k / 2;
        proof {
            lemma_pow_step(acc0 as int, b0 as int, k0 as nat, p as int, acc as int, b as int);
        }
    }
    proof {
        reveal_with_fuel(pow, 1);
        lemma_mul_basics(acc as int);
        lemma_small_mod(acc as nat, p as nat);
    }
    acc
}

/// One step of the modular extended Euclidean recurrence.
proof fn lemma_inverse_step(a: int, b: int, q: int, os: int, s: int, ns: int, p: int)
    requires
        p > 0,
        ns == (os - (q % p) * s % p) % p,
    ensures
        (b * os + (a - q * b) * s) % p == (a * s + b * ns) % p,
{
    assert(b * os + (a - q * b) * s == a * s + b * (os - q * s)) by (nonlinear_arith);
    // ns is congruent to os - q * s
    lemma_mul_mod_noop_left(q, s, p);
    lemma_sub_mod_noop_right(os, q * s, p);
    assert(ns == (os - q * s) % p);
    lemma_mul_mod_noop_right(b, os - q * s, p);
    lemma_add_mod_noop_right(a * s, b * ns, p);
    lemma_add_mod_noop_right(a * s, b * (os - q * s), p);
}

/// The inverse of `x` modulo `p` from the extended Euclidean algorithm: the
/// Bézout coefficient of `x` in `spec_xgcd(x, p)`, reduced into `[0, p)`.
pub open spec fn spec_inverse(x: nat, p: nat) -> nat {
    (spec_xgcd(x, p).0 % (p as int)) as nat
}

/// Computes [`spec_inverse`] with the Bézout coefficients tracked modulo `p`.
pub fn inv_mod(x: u128, p: u128) -> (r: u128)
    requires
        x < p,
    ensures
        r == spec_inverse(x as nat, p as nat),
        r < p,
{
    let mut old_r: u128 = x;
    let mut r: u128 = p;
    let mut old_s: u128 = 1 % p;
    let mut s: u128 = 0;
    proof {
        let c = spec_xgcd(x as nat, p as nat);
        lemma_mul_mod_noop_right(c.0, 1, p as int);
        lemma_mul_basics(c.0);
        lemma_mul_basics(c.1);
    }
    while r != 0
        invariant
            old_s < p,
            s < p,
            ({
                let c = spec_xgcd(old_r as nat, r as nat);
                spec_xgcd(x as nat, p as nat).0 % (p as int) == (c.0 * old_s + c.1 * s) % (p as int)
            }),
        decreases r,
    {
        let q = old_r / r;
        let new_r = old_r % r;
        let qs = mul_mod(q % p, s, p);
        let new_s = sub_mod(old_s, qs, p);
        proof {
            let c = spec_xgcd(r as nat, new_r as nat);
            lemma_inverse_step(c.0, c.1, q as int, old_s as int, s as int, new_s as int, p as int);
        }
        old_r = r;
        r = new_r;
        old_s = s;
        s = new_s;
    }
    proof {
        lemma_mul_basics(old_s as int);
        lemma_mul_basics(s as int);
        lemma_small_mod(old_s as nat, p as nat);
    }
    old_s
}

} // verus!
