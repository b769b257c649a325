//! Rescue-Prime over the STARK field, its arithmetization as an AIR, and
//! the RPSSS signature scheme built on the STARK prover and verifier.
//!
//! The instance has state width 2 (rate 1, capacity 1), 27 rounds and
//! S-box exponent 3; its MDS matrix, the matrix's inverse and the round
//! constants are given to [`RescuePrime::new`].

use vstd::prelude::*;
use vstd::arithmetic::div_mod::*;
use vstd::arithmetic::power::*;

use crate::field::{Field, FieldElement, MAIN_PRIME};

pub mod air;
pub mod laws;
pub mod signature;

pub use signature::{signature_proof_stream, RPSSS};

verus! {

/// The inverse of the S-box exponent 3 modulo `p - 1`.
pub const ALPHA_INV: u128 = 180331931428153586757283157844700080811u128;

/// The entries of a list of rows.
pub open spec fn rows_view(v: Seq<Vec<FieldElement>>) -> Seq<Seq<FieldElement>> {
    v.map_values(|r: Vec<FieldElement>| r@)
}

/// An `m × m` matrix of well-formed elements of `f`.
pub open spec fn square_over(mat: Seq<Seq<FieldElement>>, m: nat, f: Field) -> bool {
    &&& mat.len() == m
    &&& forall|r: int| 0 <= r < m ==> (#[trigger] mat[r]).len() == m
    &&& forall|r: int, c: int| 0 <= r < m && 0 <= c < m ==> (#[trigger] mat[r][c]).wf() && mat[r][c].field == f
}

/// Well-formed elements of `f`.
pub open spec fn elements_over(s: Seq<FieldElement>, f: Field) -> bool {
    forall|i: int| 0 <= i < s.len() ==> (#[trigger] s[i]).wf() && s[i].field == f
}

/// Each entry raised to the power `e`.
pub open spec fn sbox(s: Seq<FieldElement>, e: nat) -> Seq<FieldElement> {
    Seq::new(s.len(), |i: int| s[i].field.element_of(pow(s[i].value as int, e)))
}

/// `Σ_{c<k} row[c] · s[c]` over the integers.
pub open spec fn dot(row: Seq<FieldElement>, s: Seq<FieldElement>, k: nat) -> int
    decreases k,
{
    if k == 0 {
        0
    } else {
        dot(row, s, (k - 1) as nat) + row[k - 1].value * s[k - 1].value
    }
}

/// The matrix applied to the state, in `f`.
pub open spec fn mat_apply(mat: Seq<Seq<FieldElement>>, s: Seq<FieldElement>, f: Field) -> Seq<FieldElement> {
    Seq::new(mat.len(), |r: int| f.element_of(dot(mat[r], s, s.len())))
}

/// The state plus the constants `rc[offset..offset + len]`.
pub open spec fn add_constants(s: Seq<FieldElement>, rc: Seq<FieldElement>, offset: int) -> Seq<FieldElement> {
    Seq::new(s.len(), |i: int| s[i].field.element_of(s[i].value + rc[offset + i].value))
}

/// Rescue-Prime over the STARK field.
#[derive(Debug)]
pub struct RescuePrime {
    field: Field,
    m: usize,
    rate: usize,
    capacity: usize,
    n: usize,
    alpha: u64,
    alpha_inv: u128,
    mds: Vec<Vec<FieldElement>>,
    mds_inv: Vec<Vec<FieldElement>>,
    round_constants: Vec<FieldElement>,
}

impl RescuePrime {
    /// The fixed parameters, and constants of the right shape in the field.
    #[verifier::type_invariant]
    pub closed spec fn inv(self) -> bool {
        &&& self.field.p == MAIN_PRIME
        &&& self.m == 2
        &&& self.rate == 1
        &&& self.capacity == 1
        &&& self.n == 27
        &&& self.alpha == 3
        &&& self.alpha_inv == ALPHA_INV
        &&& square_over(rows_view(self.mds@), 2, self.field)
        &&& square_over(rows_view(self.mds_inv@), 2, self.field)
        &&& self.round_constants@.len() == 2 * 2 * 27
        &&& elements_over(self.round_constants@, self.field)
        &&& self.mds_inverse_holds()
    }

    /// The field.
    pub closed spec fn field_spec(&self) -> Field {
        self.field
    }

    /// The MDS matrix.
    pub closed spec fn mds_spec(&self) -> Seq<Seq<FieldElement>> {
        rows_view(self.mds@)
    }

    /// The inverse of the MDS matrix.
    pub closed spec fn mds_inv_spec(&self) -> Seq<Seq<FieldElement>> {
        rows_view(self.mds_inv@)
    }

    /// The round constants: for round `r`, the `2` constants added after
    /// the first half-round start at `4 r`, those after the second at
    /// `4 r + 2`.
    pub closed spec fn constants_spec(&self) -> Seq<FieldElement> {
        self.round_constants@
    }

    /// What the invariant says.
    pub proof fn lemma_inv(self)
        requires
            self.inv(),
        ensures
            self.field_spec().p == MAIN_PRIME,
            square_over(self.mds_spec(), 2, self.field_spec()),
            square_over(self.mds_inv_spec(), 2, self.field_spec()),
            self.constants_spec().len() == 108,
            elements_over(self.constants_spec(), self.field_spec()),
    {
    }

    /// One round: S-box, MDS, constants, inverse S-box, MDS, constants.
    pub open spec fn round_spec(&self, s: Seq<FieldElement>, r: int) -> Seq<FieldElement> {
        let f = self.field_spec();
        let a = add_constants(mat_apply(self.mds_spec(), sbox(s, 3), f), self.constants_spec(), 4 * r);
        add_constants(mat_apply(self.mds_spec(), sbox(a, ALPHA_INV as nat), f), self.constants_spec(), 4 * r + 2)
    }

    /// The state after `k` rounds, starting from `[input, 0]`.
    pub open spec fn state_after(&self, input: FieldElement, k: nat) -> Seq<FieldElement>
        decreases k,
    {
        if k == 0 {
            seq![input, self.field_spec().element_of(0)]
        } else {
            self.round_spec(self.state_after(input, (k - 1) as nat), k - 1)
        }
    }

    /// The hash of `input`: the first entry of the state after 27 rounds.
    pub open spec fn hash_spec(&self, input: FieldElement) -> FieldElement {
        self.state_after(input, 27)[0]
    }

    /// Creates the Rescue-Prime instance with the given MDS matrix, its
    /// inverse (which must undo the matrix modulo the field's modulus),
    /// and round constants.
    pub fn new(mds: Vec<Vec<FieldElement>>, mds_inv: Vec<Vec<FieldElement>>, round_constants: Vec<FieldElement>) -> (r: RescuePrime)
        requires
            square_over(rows_view(mds@), 2, Field { p: MAIN_PRIME }),
            square_over(rows_view(mds_inv@), 2, Field { p: MAIN_PRIME }),
            round_constants@.len() == 108,
            elements_over(round_constants@, Field { p: MAIN_PRIME }),
            forall|i: int, k: int|
                #![trigger mds_inv@[i]@[0], mds@[0]@[k]]
                0 <= i < 2 && 0 <= k < 2 ==> (mds_inv@[i]@[0].value * mds@[0]@[k].value + mds_inv@[i]@[1].value
                    * mds@[1]@[k].value) % (MAIN_PRIME as int) == (if i == k {
                    1int
                } else {
                    0int
                }),
        ensures
            r.field_spec().p == MAIN_PRIME,
            r.mds_inverse_holds(),
            r.mds_spec() == rows_view(mds@),
            r.mds_inv_spec() == rows_view(mds_inv@),
            r.constants_spec() == round_constants@,
    {
        let field = Field::main();
        RescuePrime {
            field,
            m: 2,
            rate: 1,
            capacity: 1,
            n: 27,
            alpha: 3,
            alpha_inv: ALPHA_INV,
            mds,
            mds_inv,
            round_constants,
        }
    }

    /// The field.
    pub(crate) fn field_of(&self) -> (f: Field)
        ensures
            f == self.field_spec(),
    {
        self.field
    }

    /// The round constants.
    pub(crate) fn constants(&self) -> (c: &Vec<FieldElement>)
        ensures
            c@ == self.constants_spec(),
    {
        &self.round_constants
    }

    /// An entry of the MDS matrix.
    pub(crate) fn mds_entry(&self, row: usize, column: usize) -> (e: FieldElement)
        requires
            row < 2,
            column < 2,
        ensures
            e == self.mds_spec()[row as int][column as int],
    {
        proof {
            use_type_invariant(self);
            assert(self.mds@[row as int]@ == self.mds_spec()[row as int]);
        }
        self.mds[row][column]
    }

    /// An entry of the inverse MDS matrix.
    pub(crate) fn mds_inv_entry(&self, row: usize, column: usize) -> (e: FieldElement)
        requires
            row < 2,
            column < 2,
        ensures
            e == self.mds_inv_spec()[row as int][column as int],
    {
        proof {
            use_type_invariant(self);
            assert(self.mds_inv@[row as int]@ == self.mds_inv_spec()[row as int]);
        }
        self.mds_inv[row][column]
    }

    /// Returns the state width.
    pub fn state_width(&self) -> (m: usize)
        ensures
            m == 2,
    {
        proof {
            use_type_invariant(self);
        }
        self.m
    }

    /// Returns the number of permutation rounds.
    pub fn rounds(&self) -> (n: usize)
        ensures
            n == 27,
    {
        proof {
            use_type_invariant(self);
        }
        self.n
    }

    /// Each entry of the state raised to the S-box exponent, or to its
    /// inverse.
    fn apply_sbox(&self, state: &Vec<FieldElement>, inverse: bool) -> (r: Vec<FieldElement>)
        requires
            elements_over(state@, self.field_spec()),
        ensures
            r@ == sbox(state@, if inverse { ALPHA_INV as nat } else { 3 }),
            elements_over(r@, self.field_spec()),
    {
        proof {
            use_type_invariant(self);
        }
        let mut out: Vec<FieldElement> = Vec::new();
        let mut i: usize = 0;
        while i < state.len()
            invariant
                self.field.p == MAIN_PRIME,
                self.alpha == 3,
                self.alpha_inv == ALPHA_INV,
                elements_over(state@, self.field),
                i <= state@.len(),
                out@ =~= sbox(state@, if inverse { ALPHA_INV as nat } else { 3 }).take(i as int),
                elements_over(out@, self.field),
            decreases state@.len() - i,
        {
            let v = if inverse {
                state[i].pow_u128(self.alpha_inv)
            } else {
                state[i].pow(self.alpha)
            };
            out.push(v);
            i = i + 1;
            proof {
                assert(out@ =~= sbox(state@, if inverse { ALPHA_INV as nat } else { 3 }).take(i as int));
            }
        }
        proof {
            assert(sbox(state@, if inverse { ALPHA_INV as nat } else { 3 }).take(i as int) =~= sbox(
                state@,
                if inverse { ALPHA_INV as nat } else { 3 },
            ));
        }
        out
    }

    /// The matrix applied to the state.
    fn apply_mds(&self, matrix: &Vec<Vec<FieldElement>>, state: &Vec<FieldElement>) -> (r: Vec<FieldElement>)
        requires
            square_over(rows_view(matrix@), 2, self.field_spec()),
            state@.len() == 2,
            elements_over(state@, self.field_spec()),
        ensures
            r@ == mat_apply(rows_view(matrix@), state@, self.field_spec()),
            elements_over(r@, self.field_spec()),
    {
        proof {
            use_type_invariant(self);
        }
        let f = self.field;
        let ghost mat = rows_view(matrix@);
        let mut out: Vec<FieldElement> = Vec::new();
        let mut row: usize = 0;
        while row < 2
            invariant
                f == self.field,
                f.p == MAIN_PRIME,
                mat == rows_view(matrix@),
                square_over(mat, 2, f),
                state@.len() == 2,
                elements_over(state@, f),
                row <= 2,
                out@ =~= mat_apply(mat, state@, f).take(row as int),
                elements_over(out@, f),
            decreases 2 - row,
        {
            let mut acc = f.zero();
            let mut col: usize = 0;
            proof {
                assert(matrix@[row as int]@ == mat[row as int]);
                lemma_small_mod(0, MAIN_PRIME as nat);
            }
            while col < 2
                invariant
                    f == self.field,
                    f.p == MAIN_PRIME,
                    mat == rows_view(matrix@),
                    square_over(mat, 2, f),
                    row < 2,
                    matrix@[row as int]@ == mat[row as int],
                    state@.len() == 2,
                    elements_over(state@, f),
                    col <= 2,
                    acc == f.element_of(dot(mat[row as int], state@, col as nat)),
                    acc.wf(),
                decreases 2 - col,
            {
                proof {
                    assert(mat[row as int][col as int].wf());
                }
                let term = matrix[row][col] * state[col];
                let ghost before = acc;
                acc = acc + term;
                proof {
                    let d = dot(mat[row as int], state@, col as nat);
                    let t = mat[row as int][col as int].value * state@[col as int].value;
                    lemma_add_mod_noop(d, t, MAIN_PRIME as int);
                    lemma_mod_twice(d, MAIN_PRIME as int);
                    lemma_mod_twice(t, MAIN_PRIME as int);
                    lemma_add_mod_noop(d % (MAIN_PRIME as int), t % (MAIN_PRIME as int), MAIN_PRIME as int);
                    lemma_mod_bound(d + t, MAIN_PRIME as int);
                }
                col = col + 1;
            }
            out.push(acc);
            row = row + 1;
            proof {
                assert(out@ =~= mat_apply(mat, state@, f).take(row as int));
            }
        }
        proof {
            assert(mat_apply(mat, state@, f).take(2) =~= mat_apply(mat, state@, f));
        }
        out
    }

    /// The state plus the constants from `offset` on.
    fn add_round_constants(&self, state: &Vec<FieldElement>, offset: usize) -> (r: Vec<FieldElement>)
        requires
            elements_over(state@, self.field_spec()),
            offset + state@.len() <= 108,
        ensures
            r@ == add_constants(state@, self.constants_spec(), offset as int),
            elements_over(r@, self.field_spec()),
    {
        proof {
            use_type_invariant(self);
        }
        let mut out: Vec<FieldElement> = Vec::new();
        let mut i: usize = 0;
        while i < state.len()
            invariant
                self.field.p == MAIN_PRIME,
                self.round_constants@.len() == 108,
                elements_over(self.round_constants@, self.field),
                elements_over(state@, self.field),
                offset + state@.len() <= 108,
                i <= state@.len(),
                out@ =~= add_constants(state@, self.round_constants@, offset as int).take(i as int),
                elements_over(out@, self.field),
            decreases state@.len() - i,
        {
            let v = state[i] + self.round_constants[offset + i];
            proof {
                lemma_mod_bound(state@[i as int].value + self.round_constants@[offset + i].value, MAIN_PRIME as int);
            }
            out.push(v);
            i = i + 1;
            proof {
                assert(out@ =~= add_constants(state@, self.round_constants@, offset as int).take(i as int));
            }
        }
        proof {
            assert(add_constants(state@, self.round_constants@, offset as int).take(i as int) =~= add_constants(
                state@,
                self.round_constants@,
                offset as int,
            ));
        }
        out
    }

    /// One round of the permutation.
    fn round(&self, state: &Vec<FieldElement>, r: usize) -> (out: Vec<FieldElement>)
        requires
            state@.len() == 2,
            elements_over(state@, self.field_spec()),
            r < 27,
        ensures
            out@ == self.round_spec(state@, r as int),
            out@.len() == 2,
            elements_over(out@, self.field_spec()),
    {
        proof {
            use_type_invariant(self);
        }
        let a = self.apply_sbox(state, false);
        let b = self.apply_mds(&self.mds, &a);
        let c = self.add_round_constants(&b, 4 * r);
        let d = self.apply_sbox(&c, true);
        let e = self.apply_mds(&self.mds, &d);
        self.add_round_constants(&e, 4 * r + 2)
    }

    /// The initial state `[input, 0]`.
    fn initial_state(&self, input: &FieldElement) -> (s: Vec<FieldElement>)
        requires
            input.wf(),
            input.field == self.field_spec(),
        ensures
            s@ == self.state_after(*input, 0),
            elements_over(s@, self.field_spec()),
    {
        proof {
            use_type_invariant(self);
            lemma_small_mod(0, MAIN_PRIME as nat);
        }
        let mut state: Vec<FieldElement> = Vec::new();
        state.push(*input);
        state.push(self.field.zero());
        proof {
            assert(state@ =~= seq![*input, self.field.element_of(0)]);
        }
        state
    }

    /// Hashes one field element.
    pub fn hash(&self, input_element: &FieldElement) -> (h: FieldElement)
        requires
            input_element.wf(),
            input_element.field == self.field_spec(),
        ensures
            h == self.hash_spec(*input_element),
            h.wf(),
            h.field == self.field_spec(),
    {
        let mut state = self.initial_state(input_element);
        let mut r: usize = 0;
        while r < 27
            invariant
                r <= 27,
                state@ == self.state_after(*input_element, r as nat),
                state@.len() == 2,
                elements_over(state@, self.field_spec()),
            decreases 27 - r,
        {
            state = self.round(&state, r);
            r = r + 1;
        }
        state[0]
    }

    /// Returns the execution trace of hashing one field element: the
    /// state before the first round and after each round.
    pub fn trace(&self, input_element: &FieldElement) -> (t: Vec<Vec<FieldElement>>)
        requires
            input_element.wf(),
            input_element.field == self.field_spec(),
        ensures
            t@.len() == 28,
            forall|k: int| 0 <= k < 28 ==> (#[trigger] t@[k])@ == self.state_after(*input_element, k as nat),
            forall|k: int| 0 <= k < 28 ==> (#[trigger] t@[k])@.len() == 2,
            forall|k: int| 0 <= k < 28 ==> elements_over((#[trigger] t@[k])@, self.field_spec()),
    {
        let mut trace: Vec<Vec<FieldElement>> = Vec::new();
        let mut state = self.initial_state(input_element);
        let mut r: usize = 0;
        trace.push(copy_state(&state));
        while r < 27
            invariant
                r <= 27,
                state@ == self.state_after(*input_element, r as nat),
                state@.len() == 2,
                elements_over(state@, self.field_spec()),
                trace@.len() == r + 1,
                forall|k: int| 0 <= k <= r ==> (#[trigger] trace@[k])@ == self.state_after(*input_element, k as nat),
                forall|k: int| 0 <= k <= r ==> (#[trigger] trace@[k])@.len() == 2,
                forall|k: int| 0 <= k <= r ==> elements_over((#[trigger] trace@[k])@, self.field_spec()),
            decreases 27 - r,
        {
            state = self.round(&state, r);
            r = r + 1;
            trace.push(copy_state(&state));
        }
        trace
    }
}

/// A copy of a state.
fn copy_state(s: &Vec<FieldElement>) -> (r: Vec<FieldElement>)
    ensures
        r@ == s@,
{
    let mut out: Vec<FieldElement> = Vec::new();
    let mut i: usize = 0;
    while i < s.len()
        invariant
            i <= s@.len(),
            out@ =~= s@.take(i as int),
        decreases s@.len() - i,
    {
        out.push(s[i]);
        i = i + 1;
        proof {
            assert(out@ =~= s@.take(i as int));
        }
    }
    proof {
        assert(s@.take(i as int) =~= s@);
    }
    out
}

} // verus!
