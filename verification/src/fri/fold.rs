//! One round of FRI folding: a codeword of length `n` on the coset
//! `offset · <omega>` becomes a codeword of length `n / 2` on the coset
//! `offset² · <omega²>`.

use vstd::prelude::*;
use vstd::arithmetic::div_mod::*;
use vstd::arithmetic::power::*;

use crate::field::arith::spec_inverse;
use crate::field::{Field, FieldElement};
use crate::math::{is_unit, lemma_unit_mul, lemma_unit_nonzero, lemma_unit_pow};
use crate::polynomial::multivariate_eval::{lemma_add_congruent2, lemma_mul_congruent};

verus! {

/// The value at position `i` of the fold of `c` with challenge `alpha`,
/// `x` being the domain point of position `i`:
/// `((1 + α/x)·c[i] + (1 − α/x)·c[i + n/2]) / 2` modulo `p`.
pub open spec fn fold_value(c: Seq<FieldElement>, i: int, alpha: int, x: int, p: int) -> int {
    let xi = spec_inverse((x % p) as nat, p as nat);
    let half = (c.len() / 2) as int;
    (spec_inverse((2int % p) as nat, p as nat) * ((1 + alpha * xi) * c[i].value + (1 - alpha * xi) * c[half
        + i].value)) % p
}

/// Every element is a well-formed element of `f`.
pub open spec fn codeword_in_field(c: Seq<FieldElement>, f: Field) -> bool {
    forall|i: int| 0 <= i < c.len() ==> (#[trigger] c[i]).field == f && c[i].wf()
}

/// Differences of congruent values are congruent.
proof fn lemma_sub_congruent2(u1: int, v1: int, u2: int, v2: int, p: int)
    requires
        p > 0,
        u1 % p == v1 % p,
        u2 % p == v2 % p,
    ensures
        (u1 - u2) % p == (v1 - v2) % p,
{
    lemma_sub_mod_noop(u1, u2, p);
    lemma_sub_mod_noop(v1, v2, p);
}

/// The value computed for one position equals [`fold_value`].
proof fn lemma_fold_step(
    c: Seq<FieldElement>,
    i: int,
    alpha: int,
    x: int,
    p: int,
    pt: int,
    q: int,
    lw: int,
    rw: int,
    t1: int,
    t2: int,
    s: int,
    ti: int,
    r: int,
)
    requires
        p > 1,
        0 <= i,
        i + ((c.len() / 2) as int) < c.len(),
        pt == x % p,
        q == (alpha * spec_inverse((pt % p) as nat, p as nat)) % p,
        lw == ((1int % p) + q) % p,
        rw == ((1int % p) - q) % p,
        t1 == (lw * c[i].value) % p,
        t2 == (rw * c[(c.len() / 2) as int + i].value) % p,
        s == (t1 + t2) % p,
        ti == (spec_inverse((2int % p) as nat, p as nat) as int) % p,
        r == (ti * s) % p,
    ensures
        r == fold_value(c, i, alpha, x, p),
{
    let xi = spec_inverse((x % p) as nat, p as nat) as int;
    let ci = c[i].value as int;
    let ch = c[(c.len() / 2) as int + i].value as int;
    let inv2 = spec_inverse((2int % p) as nat, p as nat) as int;
    lemma_mod_twice(x, p);
    assert(q % p == (alpha * xi) % p) by {
        lemma_mod_twice(alpha * xi, p);
    }
    lemma_mod_twice(1, p);
    lemma_add_congruent2(1int % p, 1, q, alpha * xi, p);
    lemma_mod_twice((1int % p) + q, p);
    lemma_sub_congruent2(1int % p, 1, q, alpha * xi, p);
    lemma_mod_twice((1int % p) - q, p);
    lemma_mul_congruent(lw, ci, 1 + alpha * xi, ci, p);
    lemma_mul_congruent(rw, ch, 1 - alpha * xi, ch, p);
    lemma_mod_twice(lw * ci, p);
    lemma_mod_twice(rw * ch, p);
    lemma_add_congruent2(t1, (1 + alpha * xi) * ci, t2, (1 - alpha * xi) * ch, p);
    lemma_mod_twice(t1 + t2, p);
    lemma_mod_twice(inv2, p);
    lemma_mul_congruent(ti, s, inv2, (1 + alpha * xi) * ci + (1 - alpha * xi) * ch, p);
}

/// Folds a codeword in half with challenge `alpha`: position `i` combines
/// positions `i` and `i + n/2` at the domain point `offset · omega^i`.
pub fn fold_codeword(
    codeword: &Vec<FieldElement>,
    alpha: FieldElement,
    offset: FieldElement,
    omega: FieldElement,
    field: Field,
) -> (r: Vec<FieldElement>)
    requires
        field.p > 2,
        codeword_in_field(codeword@, field),
        alpha.wf(),
        alpha.field == field,
        offset.wf(),
        offset.field == field,
        omega.wf(),
        omega.field == field,
        is_unit(offset.value as int, field.p as int),
        is_unit(omega.value as int, field.p as int),
    ensures
        r@.len() == codeword@.len() / 2,
        codeword_in_field(r@, field),
        forall|i: int|
            0 <= i < r@.len() ==> (#[trigger] r@[i]).value == fold_value(
                codeword@,
                i,
                alpha.value as int,
                offset.value * pow(omega.value as int, i as nat),
                field.p as int,
            ),
{
    let ghost p = field.p as int;
    let one = field.one();
    let two = field.from_u64(2);
    proof {
        lemma_small_mod(2, p as nat);
    }
    let two_inv = two.inverse();
    let n = codeword.len();
    let half = n / 2;
    let mut out: Vec<FieldElement> = Vec::new();
    let mut index: usize = 0;
    while index < half
        invariant
            p == field.p,
            p > 2,
            n == codeword@.len(),
            half == n / 2,
            codeword_in_field(codeword@, field),
            alpha.wf() && alpha.field == field,
            offset.wf() && offset.field == field,
            omega.wf() && omega.field == field,
            is_unit(offset.value as int, p),
            is_unit(omega.value as int, p),
            one == field.element_of(1),
            two_inv == field.element_of(spec_inverse((2int % p) as nat, p as nat) as int),
            index <= half,
            out@.len() == index,
            codeword_in_field(out@, field),
            forall|i: int|
                0 <= i < index ==> (#[trigger] out@[i]).value == fold_value(
                    codeword@,
                    i,
                    alpha.value as int,
                    offset.value * pow(omega.value as int, i as nat),
                    p,
                ),
        decreases half - index,
    {
        let power = omega.pow(index as u64);
        let point = offset * power;
        let ghost x = offset.value * pow(omega.value as int, index as nat);
        proof {
            lemma_mul_mod_noop_right(offset.value as int, pow(omega.value as int, index as nat), p);
            lemma_unit_pow(omega.value as int, index as nat, p);
            lemma_unit_mul(offset.value as int, pow(omega.value as int, index as nat), p);
            lemma_unit_nonzero(x, p);
        }
        let q1 = alpha / point;
        let left_weight = one + q1;
        let q2 = alpha / point;
        let right_weight = one - q2;
        let a = codeword[index];
        let b = codeword[half + index];
        let t1 = left_weight * a;
        let t2 = right_weight * b;
        let sum = t1 + t2;
        let v = two_inv * sum;
        proof {
            lemma_fold_step(
                codeword@,
                index as int,
                alpha.value as int,
                x,
                p,
                point.value as int,
                q1.value as int,
                left_weight.value as int,
                right_weight.value as int,
                t1.value as int,
                t2.value as int,
                sum.value as int,
                two_inv.value as int,
                v.value as int,
            );
        }
        out.push(v);
        index = index + 1;
    }
    out
}

} // verus!
