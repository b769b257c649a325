//! Number-theoretic primitives used by the field arithmetic layer.

use vstd::prelude::*;
use vstd::arithmetic::div_mod::*;
use vstd::arithmetic::mul::*;
use vstd::arithmetic::power::*;
use vstd::arithmetic::power2::*;

verus! {

/// The extended Euclidean algorithm on natural numbers, as a recursive
/// definition: `spec_xgcd(x, y) == (a, b, g)` with `a·x + b·y == g` and
/// `g == gcd(x, y)`.  The coefficients are those produced by the classic
/// iterative algorithm (see [`lemma_xgcd_bezout`] and [`lemma_xgcd_gcd`]).
pub open spec fn spec_xgcd(x: nat, y: nat) -> (int, int, nat)
    decreases y,
{
    if y == 0 {
        (1, 0, x)
    } else {
        let r = spec_xgcd(y, x % y);
        (r.1, r.0 - (x / y) as int * r.1, r.2)
    }
}

/// Greatest common divisor by Euclid's algorithm.
pub open spec fn spec_gcd(x: nat, y: nat) -> nat
    decreases y,
{
    if y == 0 {
        x
    } else {
        spec_gcd(y, x % y)
    }
}

/// Bézout's identity for the coefficients of [`spec_xgcd`].
pub proof fn lemma_xgcd_bezout(x: nat, y: nat)
    ensures
        ({
            let r = spec_xgcd(x, y);
            r.0 * x + r.1 * y == r.2 as int
        }),
    decreases y,
{
    if y != 0 {
        lemma_xgcd_bezout(y, x % y);
        let r = spec_xgcd(y, x % y);
        let q = (x / y) as int;
        lemma_fundamental_div_mod(x as int, y as int);
        // r.0 * y + r.1 * (x - q*y) == g  ==>  r.1 * x + (r.0 - q*r.1) * y == g
        assert((x % y) as int == x as int - y * q);
        lemma_mul_is_distributive_sub(r.1, x as int, y * q);
        lemma_mul_is_distributive_sub_other_way(y as int, r.0, q * r.1);
        lemma_mul_is_associative(r.1, y as int, q);
        lemma_mul_is_commutative(r.1, y as int);
        lemma_mul_is_associative(y as int, q, r.1);
        lemma_mul_is_commutative(q, r.1);
        lemma_mul_is_commutative(r.0, y as int);
        lemma_mul_is_commutative(r.0 - q * r.1, y as int);
    }
}

/// The third component of [`spec_xgcd`] is the greatest common divisor.
pub proof fn lemma_xgcd_gcd(x: nat, y: nat)
    ensures
        spec_xgcd(x, y).2 == spec_gcd(x, y),
    decreases y,
{
    if y != 0 {
        lemma_xgcd_gcd(y, x % y);
    }
}

/// The Bézout coefficients of [`spec_xgcd`] are bounded by the other
/// argument: `|a| <= max(y, 1)` and `|b| <= max(x, 1)`.
pub proof fn lemma_xgcd_bounds(x: nat, y: nat)
    ensures
        ({
            let r = spec_xgcd(x, y);
            &&& -(if y == 0 { 1 } else { y as int }) <= r.0 <= (if y == 0 { 1 } else { y as int })
            &&& -(if x == 0 { 1 } else { x as int }) <= r.1 <= (if x == 0 { 1 } else { x as int })
        }),
    decreases y,
{
    if y != 0 {
        lemma_xgcd_bounds(y, x % y);
        let r = spec_xgcd(y, x % y);
        let q = (x / y) as int;
        lemma_fundamental_div_mod(x as int, y as int);
        assert(spec_xgcd(x, y) == (r.1, r.0 - q * r.1, r.2));
        if x % y == 0 {
            assert(r == (1int, 0int, y));
            assert(r.0 - q * r.1 == 1);
        } else {
            let m = (x % y) as int;
            let t = r.1;
            let u = r.0;
            assert(-(q * y) <= q * t <= q * y) by (nonlinear_arith)
                requires
                    q >= 0,
                    -(y as int) <= t <= y,
            ;
            assert(y * q == q * y) by (nonlinear_arith);
            assert(-m <= u <= m);
            assert(x as int == q * y + m);
            assert(-(x as int) <= u - q * t <= x);
        }
    }
}

/// Extended Greatest Common Divisor: returns `(a, b, g)` with
/// `a·x + b·y == g` and `g == gcd(x, y)`.  When `g == 1`, `a` is the
/// inverse of `x` modulo `y`.  The arguments are at most `i128::MAX`, so
/// that the coefficients, bounded by the arguments, fit in an `i128`.
pub fn xgcd(x: u128, y: u128) -> (r: (i128, i128, u128))
    requires
        x <= i128::MAX,
        y <= i128::MAX,
    ensures
        r.0 == spec_xgcd(x as nat, y as nat).0,
        r.1 == spec_xgcd(x as nat, y as nat).1,
        r.2 == spec_xgcd(x as nat, y as nat).2,
        r.0 * x + r.1 * y == r.2,
        r.2 == spec_gcd(x as nat, y as nat),
    decreases y,
{
    proof {
        lemma_xgcd_bezout(x as nat, y as nat);
        lemma_xgcd_gcd(x as nat, y as nat);
        lemma_xgcd_bounds(x as nat, y as nat);
    }
    if y == 0 {
        return (1, 0, x);
    }
    proof {
        lemma_mod_bound(x as int, y as int);
    }
    let (a, b, g) = xgcd(y, x % y);
    let q = x / y;
    proof {
        lemma_xgcd_bounds(y as nat, (x % y) as nat);
        lemma_fundamental_div_mod(x as int, y as int);
        let qi = q as int;
        assert(qi <= x) by {
            lemma_div_is_ordered_by_denominator(x as int, 1, y as int);
        }
        assert(-(qi * y) <= qi * b <= qi * y) by (nonlinear_arith)
            requires
                qi >= 0,
                -(y as int) <= b <= y,
        ;
        assert(y * qi == qi * y) by (nonlinear_arith);
    }
    (b, a - (q as i128) * b, g)
}

/// One is coprime to every modulus above one.
pub proof fn lemma_gcd_one(p: nat)
    requires
        p > 1,
    ensures
        spec_gcd(1, p) == 1,
{
    reveal_with_fuel(spec_gcd, 3);
    lemma_small_mod(1, p);
    lemma_mod_self_0(1);
    lemma_mod_multiples_basic(p as int, 1);
    assert(spec_gcd(1, p) == spec_gcd(p, 1nat % p));
    assert(spec_gcd(p, 1) == spec_gcd(1, p % 1nat));
    assert(spec_gcd(1, 0) == 1);
}

/// Decides whether `n` is a power of two (`1, 2, 4, ...`).
pub fn is_power_of_two(n: u128) -> (r: bool)
    ensures
        r == is_pow2(n as int),
{
    if n == 0 {
        proof {
            reveal(is_pow2);
        }
        return false;
    }
    let mut m: u128 = n;
    while m > 1 && m % 2 == 0
        invariant
            m > 0,
            is_pow2(n as int) == is_pow2(m as int),
        decreases m,
    {
        proof {
            reveal(is_pow2);
        }
        m = m / 2;
    }
    proof {
        reveal(is_pow2);
    }
    m == 1
}

/// Of two powers of two, the smaller one is at most half the larger one.
pub proof fn lemma_pow2_lt_half(a: int, b: int)
    requires
        is_pow2(a),
        is_pow2(b),
        a < b,
    ensures
        2 * a <= b,
        b % 2 == 0,
        is_pow2(b / 2),
    decreases b,
{
    reveal(is_pow2);
    if a != 1 {
        lemma_pow2_lt_half(a / 2, b / 2);
    }
}

/// `a` has a multiplicative inverse modulo `p`.
pub open spec fn is_unit(a: int, p: int) -> bool {
    exists|b: int| #[trigger] ((a * b) % p) == 1
}

/// An integer with an inverse modulo `p > 1` is not a multiple of `p`.
pub proof fn lemma_unit_nonzero(a: int, p: int)
    requires
        p > 1,
        is_unit(a, p),
    ensures
        a % p != 0,
{
    let b = choose|b: int| #[trigger] ((a * b) % p) == 1;
    if a % p == 0 {
        lemma_mul_mod_noop_left(a, b, p);
        lemma_small_mod(0, p as nat);
        assert(0 * b == 0);
    }
}

/// Products of units are units.
pub proof fn lemma_unit_mul(a: int, b: int, p: int)
    requires
        p > 1,
        is_unit(a, p),
        is_unit(b, p),
    ensures
        is_unit(a * b, p),
{
    let ia = choose|x: int| #[trigger] ((a * x) % p) == 1;
    let ib = choose|x: int| #[trigger] ((b * x) % p) == 1;
    assert((a * b) * (ia * ib) == (a * ia) * (b * ib)) by (nonlinear_arith);
    lemma_mul_mod_noop_general(a * ia, b * ib, p);
    lemma_small_mod(1, p as nat);
    assert(((a * b) * (ia * ib)) % p == 1);
}

/// Powers of units are units.
pub proof fn lemma_unit_pow(a: int, e: nat, p: int)
    requires
        p > 1,
        is_unit(a, p),
    ensures
        is_unit(pow(a, e), p),
    decreases e,
{
    reveal(pow);
    if e == 0 {
        lemma_small_mod(1, p as nat);
        assert(((1int * 1int) % p) == 1);
    } else {
        lemma_unit_pow(a, (e - 1) as nat, p);
        lemma_unit_mul(a, pow(a, (e - 1) as nat), p);
    }
}

/// Being a unit depends only on the residue.
pub proof fn lemma_unit_mod(a: int, p: int)
    requires
        p > 1,
    ensures
        is_unit(a, p) <==> is_unit(a % p, p),
{
    if is_unit(a, p) {
        let b = choose|x: int| #[trigger] ((a * x) % p) == 1;
        lemma_mul_mod_noop_left(a, b, p);
        assert((((a % p) * b) % p) == 1);
    }
    if is_unit(a % p, p) {
        let b = choose|x: int| #[trigger] (((a % p) * x) % p) == 1;
        lemma_mul_mod_noop_left(a, b, p);
        assert(((a * b) % p) == 1);
    }
}

} // verus!
