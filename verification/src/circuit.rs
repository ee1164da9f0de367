use vstd::prelude::*;
use vstd::arithmetic::div_mod::{lemma_add_mod_noop, lemma_add_mod_noop_right, lemma_mul_mod_noop,
    lemma_mul_mod_noop_right, lemma_small_mod};
use crate::errors::ZKError;
use crate::field::FieldElement;
use crate::polynomial::values_of;

verus! {

/// One term of a linear combination: a variable ordinal with a coefficient.
#[derive(Debug, Clone, Copy)]
pub struct Term {
    pub index: usize,
    pub coefficient: FieldElement,
}

/// An ordered linear combination of terms, evaluated positionally against a
/// witness vector.
#[derive(Debug, Clone)]
pub struct LinearCombination {
    pub terms: Vec<Term>,
}

/// The weighted sum of a linear combination over the witness values, summed
/// in term order, over the integers.
pub open spec fn lc_sum(terms: Seq<Term>, w: Seq<int>) -> int
    decreases terms.len(),
{
    if terms.len() == 0 {
        0
    } else {
        lc_sum(terms.drop_last(), w) + terms.last().coefficient.value * w[terms.last().index as int]
    }
}

/// A well-shaped witness: every element carries the one positive modulus `m`.
pub open spec fn witness_wf(w: Seq<FieldElement>, m: int) -> bool {
    &&& m >= 1
    &&& forall|i: int| 0 <= i < w.len() ==> (#[trigger] w[i]).modulus as int == m
}

impl LinearCombination {
    /// Every coefficient carries the modulus `m`.
    pub open spec fn wf_for(self, m: int) -> bool {
        forall|i: int|
            0 <= i < self.terms@.len() ==> (#[trigger] self.terms@[i]).coefficient.modulus as int
                == m
    }

    /// Every term's variable index lies below `n`.
    pub open spec fn indices_ok(self, n: int) -> bool {
        forall|i: int| 0 <= i < self.terms@.len() ==> (#[trigger] self.terms@[i]).index < n
    }

    /// Creates a new, empty linear combination.
    pub fn new() -> (r: Self)
        ensures
            r.terms@.len() == 0,
    {
        LinearCombination { terms: Vec::new() }
    }

    /// Appends a term.
    pub fn add_term(&mut self, term: Term)
        ensures
            final(self).terms@ == old(self).terms@.push(term),
    {
        self.terms.push(term);
    }

    /// Evaluates the linear combination against a witness, taking each
    /// variable's value from the witness by its index.
    ///
    /// Fails when the witness is empty or a term's index is out of bounds;
    /// otherwise returns the reduced weighted sum.
    pub fn evaluate(&self, witness: &Vec<FieldElement>) -> (r: Result<FieldElement, ZKError>)
        requires
            witness@.len() > 0 ==> witness_wf(witness@, witness@[0].modulus as int) && self.wf_for(
                witness@[0].modulus as int,
            ),
        ensures
            r is Ok <==> (witness@.len() > 0 && self.indices_ok(witness@.len() as int)),
            r is Err ==> r->Err_0 == (ZKError::CircuitError { unsatisfied: None }),
            r is Ok ==> r->Ok_0.modulus == witness@[0].modulus && r->Ok_0.value == lc_sum(
                self.terms@,
                values_of(witness@),
            ) % (witness@[0].modulus as int),
    {
        if witness.len() == 0 {
            return Err(ZKError::CircuitError { unsatisfied: None });
        }
        let m = witness[0].modulus;
        let ghost wv = values_of(witness@);
        let mut result = FieldElement { value: 0, modulus: m };
        proof {
            lemma_small_mod(0nat, m as nat);
        }
        let mut i: usize = 0;
        while i < self.terms.len()
            invariant
                witness@.len() > 0,
                witness_wf(witness@, m as int),
                self.wf_for(m as int),
                m == witness@[0].modulus,
                wv == values_of(witness@),
                i <= self.terms@.len(),
                forall|j: int| 0 <= j < i ==> (#[trigger] self.terms@[j]).index < witness@.len(),
                result.modulus == m,
                result.value == lc_sum(self.terms@.take(i as int), wv) % (m as int),
            decreases self.terms@.len() - i,
        {
            let term = self.terms[i];
            if term.index >= witness.len() {
                return Err(ZKError::CircuitError { unsatisfied: None });
            }
            let term_value = match term.coefficient.mul(&witness[term.index]) {
                Ok(f) => f,
                Err(e) => return Err(e),
            };
            let ghost prefix = lc_sum(self.terms@.take(i as int), wv);
            result = match result.add(&term_value) {
                Ok(f) => f,
                Err(e) => return Err(e),
            };
            proof {
                let mm = m as int;
                let contribution = term.coefficient.value * wv[term.index as int];
                assert(self.terms@.take(i + 1).drop_last() =~= self.terms@.take(i as int));
                assert(self.terms@.take(i + 1).last() == term);
                assert(lc_sum(self.terms@.take(i + 1), wv) == prefix + contribution);
                lemma_add_mod_noop(prefix, contribution, mm);
                lemma_add_mod_noop_right(prefix % mm, contribution, mm);
                assert(result.value == (prefix + contribution) % mm);
            }
            i += 1;
        }
        proof {
            assert(self.terms@.take(self.terms@.len() as int) =~= self.terms@);
        }
        Ok(result)
    }
}

/// One rank-1 constraint: `a(w) * b(w) = c(w)`.
#[derive(Debug, Clone)]
pub struct R1CSConstraint {
    pub a: LinearCombination,
    pub b: LinearCombination,
    pub c: LinearCombination,
}

impl R1CSConstraint {
    /// Every coefficient of all three sides carries the modulus `m`.
    pub open spec fn wf_for(self, m: int) -> bool {
        self.a.wf_for(m) && self.b.wf_for(m) && self.c.wf_for(m)
    }

    /// Every variable index of all three sides lies below `n`.
    pub open spec fn indices_ok(self, n: int) -> bool {
        self.a.indices_ok(n) && self.b.indices_ok(n) && self.c.indices_ok(n)
    }

    /// The constraint holds of the witness values, modulo `m`.
    pub open spec fn satisfied_by(self, w: Seq<int>, m: int) -> bool {
        (lc_sum(self.a.terms@, w) * lc_sum(self.b.terms@, w)) % m == lc_sum(self.c.terms@, w) % m
    }

    /// The constraint evaluates cleanly against the witness and holds.
    pub open spec fn passes(self, w: Seq<FieldElement>) -> bool {
        &&& w.len() > 0
        &&& self.indices_ok(w.len() as int)
        &&& self.satisfied_by(values_of(w), w[0].modulus as int)
    }

    /// Creates a new constraint from its three linear combinations.
    pub fn new(a: LinearCombination, b: LinearCombination, c: LinearCombination) -> (r: Self)
        ensures
            r.a == a,
            r.b == b,
            r.c == c,
    {
        R1CSConstraint { a, b, c }
    }
}

/// An ordered set of rank-1 constraints with a count of allocated variables.
///
/// By convention variable 0 is bound to the constant one; that is a caller
/// contract, not an enforced invariant.
#[derive(Debug, Clone)]
pub struct ConstraintSystem {
    pub constraints: Vec<R1CSConstraint>,
    pub num_variables: usize,
}

impl ConstraintSystem {
    /// Creates a new, empty constraint system.
    pub fn new() -> (r: Self)
        ensures
            r.constraints@.len() == 0,
            r.num_variables == 0,
    {
        ConstraintSystem { constraints: Vec::new(), num_variables: 0 }
    }

    /// Appends a constraint.
    pub fn add_constraint(&mut self, constraint: R1CSConstraint)
        ensures
            final(self).constraints@ == old(self).constraints@.push(constraint),
            final(self).num_variables == old(self).num_variables,
    {
        self.constraints.push(constraint);
    }

    /// Allocates a new variable and returns its index; indices increase
    /// monotonically and are never reused.
    pub fn allocate_variable(&mut self) -> (idx: usize)
        requires
            old(self).num_variables < usize::MAX,
        ensures
            idx == old(self).num_variables,
            final(self).num_variables == old(self).num_variables + 1,
            final(self).constraints@ == old(self).constraints@,
    {
        let var_index = self.num_variables;
        self.num_variables += 1;
        var_index
    }

    /// Checks every constraint, in insertion order, against the witness.
    ///
    /// Fails fast on the first constraint that does not evaluate cleanly
    /// (carrying no position) or whose product check `a(w)*b(w) = c(w)`
    /// fails (carrying that constraint's position).
    pub fn evaluate(&self, witness: &Vec<FieldElement>) -> (r: Result<bool, ZKError>)
        requires
            witness@.len() > 0 ==> witness_wf(witness@, witness@[0].modulus as int),
            witness@.len() > 0 ==> forall|j: int|
                0 <= j < self.constraints@.len() ==> (#[trigger] self.constraints@[j]).wf_for(
                    witness@[0].modulus as int,
                ),
        ensures
            r is Ok ==> r->Ok_0 == true,
            r is Ok <==> (forall|j: int|
                0 <= j < self.constraints@.len() ==> (#[trigger] self.constraints@[j]).passes(
                    witness@,
                )),
            r is Err ==> exists|j: int|
                0 <= j < self.constraints@.len() && (forall|j2: int|
                    0 <= j2 < j ==> (#[trigger] self.constraints@[j2]).passes(witness@)) && !(
                #[trigger] self.constraints@[j]).passes(witness@) && r->Err_0 == (if witness@.len()
                    > 0 && self.constraints@[j].indices_ok(witness@.len() as int) {
                    ZKError::CircuitError { unsatisfied: Some(j as usize) }
                } else {
                    ZKError::CircuitError { unsatisfied: None }
                }),
    {
        let mut i: usize = 0;
        while i < self.constraints.len()
            invariant
                witness@.len() > 0 ==> witness_wf(witness@, witness@[0].modulus as int),
                witness@.len() > 0 ==> forall|j: int|
                    0 <= j < self.constraints@.len() ==> (#[trigger] self.constraints@[j]).wf_for(
                        witness@[0].modulus as int,
                    ),
                i <= self.constraints@.len(),
                forall|j: int| 0 <= j < i ==> (#[trigger] self.constraints@[j]).passes(witness@),
            decreases self.constraints@.len() - i,
        {
            let constraint = &self.constraints[i];
            let a_val = match constraint.a.evaluate(witness) {
                Ok(f) => f,
                Err(e) => return Err(e),
            };
            let b_val = match constraint.b.evaluate(witness) {
                Ok(f) => f,
                Err(e) => return Err(e),
            };
            let c_val = match constraint.c.evaluate(witness) {
                Ok(f) => f,
                Err(e) => return Err(e),
            };
            let product = match a_val.mul(&b_val) {
                Ok(f) => f,
                Err(e) => return Err(e),
            };
            proof {
                let mm = witness@[0].modulus as int;
                let wv = values_of(witness@);
                let sa = lc_sum(constraint.a.terms@, wv);
                let sb = lc_sum(constraint.b.terms@, wv);
                lemma_mul_mod_noop(sa, sb, mm);
                assert(product.value == (sa * sb) % mm);
            }
            if product != c_val {
                return Err(ZKError::CircuitError { unsatisfied: Some(i) });
            }
            i += 1;
        }
        Ok(true)
    }
}

} // verus!
