use vstd::prelude::*;
use vstd::arithmetic::div_mod::{
    lemma_add_mod_noop, lemma_add_mod_noop_right, lemma_mod_add_multiples_vanish, lemma_mod_bound,
    lemma_mod_twice, lemma_mul_mod_noop, lemma_mul_mod_noop_left, lemma_mul_mod_noop_right,
    lemma_small_mod, lemma_sub_mod_noop, lemma_sub_mod_noop_right,
};
use vstd::arithmetic::mul::{
    lemma_mul_by_zero_is_zero, lemma_mul_is_associative, lemma_mul_is_commutative,
};
use crate::circuit::{ConstraintSystem, LinearCombination, Term};
use crate::errors::ZKError;
use crate::field::{gcd, FieldElement};
use crate::polynomial::{
    coeff_or_zero, conv_at, eval_at, lemma_conv_commutes, lemma_eval_congruent,
    lemma_eval_padded_add, lemma_eval_scaled, lemma_mul_then_evaluate,
    lemma_true_degree_properties, true_degree, values_of, Polynomial,
};

verus! {

/// A rank-1 constraint system in quadratic-arithmetic-program form: one
/// interpolated polynomial per circuit variable for each of the three
/// constraint sides, and the target polynomial that vanishes on the
/// evaluation domain `{1, ..., m}` (`m` = constraint count).
pub struct QAP {
    pub a_polynomials: Vec<Polynomial>,
    pub b_polynomials: Vec<Polynomial>,
    pub c_polynomials: Vec<Polynomial>,
    pub target_polynomial: Polynomial,
}

/// An interpolation node with its prescribed value.
#[derive(Debug, Clone, Copy)]
struct Point {
    x: FieldElement,
    y: FieldElement,
}

/// The coefficient of variable `i` in a linear combination: the first term
/// with that index decides, zero when none carries it.
pub open spec fn lc_coeff_of(terms: Seq<Term>, i: int) -> int
    decreases terms.len(),
{
    if terms.len() == 0 {
        0
    } else if terms[0].index == i {
        terms[0].coefficient.value as int
    } else {
        lc_coeff_of(terms.drop_first(), i)
    }
}

/// The product of `(v - xs[l])` over `l < n`, `l != skip`: a Lagrange basis
/// numerator (evaluated at `v`), or with `v = xs[skip]` its denominator.
pub open spec fn prod_lin(xs: Seq<int>, skip: int, n: int, v: int) -> int
    decreases n,
{
    if n <= 0 {
        1
    } else if n - 1 == skip {
        prod_lin(xs, skip, n - 1, v)
    } else {
        prod_lin(xs, skip, n - 1, v) * (v - xs[n - 1])
    }
}

/// Coefficient `k` of the weighted polynomial sum over the first `n`
/// variables: the sum of `polys[j][k] * w[j].value`.
pub open spec fn agg_coeff(polys: Seq<Polynomial>, w: Seq<FieldElement>, k: int, n: int) -> int
    decreases n,
{
    if n <= 0 {
        0
    } else {
        agg_coeff(polys, w, k, n - 1) + coeff_or_zero(polys[n - 1].values(), k) * w[n
            - 1].value
    }
}

/// The length of the weighted polynomial sum over the first `n` variables.
pub open spec fn agg_len(polys: Seq<Polynomial>, n: int) -> int
    decreases n,
{
    if n <= 0 {
        1
    } else if agg_len(polys, n - 1) >= polys[n - 1].coefficients@.len() {
        agg_len(polys, n - 1)
    } else {
        polys[n - 1].coefficients@.len() as int
    }
}

/// The reduced coefficients of the weighted polynomial sum.
pub open spec fn agg_seq(polys: Seq<Polynomial>, w: Seq<FieldElement>, m: int) -> Seq<int> {
    Seq::new(
        agg_len(polys, w.len() as int) as nat,
        |k: int| agg_coeff(polys, w, k, w.len() as int) % m,
    )
}

impl QAP {
    /// All four polynomial families are usable and share one modulus.
    pub open spec fn wf(self) -> bool {
        &&& self.target_polynomial.wf()
        &&& forall|j: int|
            0 <= j < self.a_polynomials@.len() ==> (#[trigger] self.a_polynomials@[j]).wf()
                && self.a_polynomials@[j].modulus() == self.modulus()
        &&& forall|j: int|
            0 <= j < self.b_polynomials@.len() ==> (#[trigger] self.b_polynomials@[j]).wf()
                && self.b_polynomials@[j].modulus() == self.modulus()
        &&& forall|j: int|
            0 <= j < self.c_polynomials@.len() ==> (#[trigger] self.c_polynomials@[j]).wf()
                && self.c_polynomials@[j].modulus() == self.modulus()
    }

    /// The shared modulus of the whole program.
    pub open spec fn modulus(self) -> int {
        self.target_polynomial.modulus()
    }
}

/// A usable point list: one positive modulus throughout.
spec fn points_wf(ps: Seq<Point>, m: int) -> bool {
    &&& m >= 1
    &&& forall|i: int|
        0 <= i < ps.len() ==> (#[trigger] ps[i]).x.modulus as int == m && ps[i].y.modulus as int
            == m
}

/// The node values of a point list.
spec fn xs_of(ps: Seq<Point>) -> Seq<int> {
    Seq::new(ps.len(), |i: int| ps[i].x.value as int)
}

/// The prescribed values of a point list.
spec fn ys_of(ps: Seq<Point>) -> Seq<int> {
    Seq::new(ps.len(), |i: int| ps[i].y.value as int)
}

/// A Lagrange numerator vanishes at every node other than the one skipped.
proof fn lemma_prod_lin_zero(xs: Seq<int>, skip: int, n: int, j: int)
    requires
        0 <= j < n,
        j != skip,
    ensures
        prod_lin(xs, skip, n, xs[j]) == 0,
    decreases n,
{
    if n - 1 == j {
        lemma_mul_by_zero_is_zero(prod_lin(xs, skip, n - 1, xs[j]));
    } else {
        lemma_prod_lin_zero(xs, skip, n - 1, j);
        if n - 1 != skip {
            lemma_mul_by_zero_is_zero(xs[j] - xs[n - 1]);
        }
    }
}

/// Lagrange interpolation: the result passes through every given point.
///
/// Fails on an empty point set, or when some basis denominator (the product
/// of node differences) has no modular inverse; with distinct nodes over a
/// prime modulus it always succeeds.
fn interpolate_points(points: &Vec<Point>) -> (r: Result<Polynomial, ZKError>)
    requires
        points@.len() + 2 <= usize::MAX,
        points@.len() > 0 ==> points_wf(points@, points@[0].x.modulus as int),
    ensures
        r is Err ==> r->Err_0 == ZKError::PolynomialError,
        r is Ok <==> (points@.len() > 0 && forall|k: int|
            0 <= k < points@.len() ==> gcd(
                (prod_lin(
                    xs_of(points@),
                    k,
                    points@.len() as int,
                    xs_of(points@)[k],
                ) % (points@[0].x.modulus as int)) as nat,
                points@[0].x.modulus as nat,
            ) == 1),
        r is Ok ==> {
            let out = r->Ok_0;
            &&& out.wf()
            &&& out.modulus() == points@[0].x.modulus as int
            &&& out.coefficients@.len() == points@.len()
            &&& forall|j: int|
                0 <= j < points@.len() ==> eval_at(out.values(), xs_of(points@)[j]) % (
                points@[0].x.modulus as int) == ys_of(points@)[j] % (points@[0].x.modulus as int)
        },
{
    if points.len() == 0 {
        return Err(ZKError::PolynomialError);
    }
    let modulus = points[0].x.modulus;
    let n = points.len();
    let ghost xs = xs_of(points@);
    let ghost ys = ys_of(points@);
    let ghost mm = modulus as int;
    let mut result = Polynomial { coefficients: crate::polynomial::zero_vec(modulus, 1) };
    proof {
        lemma_small_mod(0nat, modulus as nat);
        assert forall|j: int| 0 <= j < n implies eval_at(result.values(), xs[j]) % mm == 0int by {
            assert(result.values() =~= seq![0int]);
            crate::polynomial::lemma_eval_single(0, xs[j]);
        }
    }
    let mut i: usize = 0;
    while i < n
        invariant
            n == points@.len(),
            1 <= n,
            n + 2 <= usize::MAX,
            modulus == points@[0].x.modulus,
            mm == modulus as int,
            points_wf(points@, mm),
            xs == xs_of(points@),
            ys == ys_of(points@),
            i <= n,
            result.wf(),
            result.modulus() == mm,
            result.coefficients@.len() == if i == 0 {
                1int
            } else {
                n as int
            },
            forall|j: int|
                0 <= j < n ==> eval_at(result.values(), xs[j]) % mm == if j < i {
                    ys[j] % mm
                } else {
                    0int
                },
            forall|k: int|
                0 <= k < i ==> gcd((prod_lin(xs, k, n as int, xs[k]) % mm) as nat, modulus as nat)
                    == 1,
        decreases n - i,
    {
        let mut numerator = Polynomial {
            coefficients: crate::polynomial::zero_vec(modulus, 0),
        };
        numerator.coefficients.push(FieldElement { value: 1, modulus });
        let mut denominator = FieldElement { value: 1, modulus };
        proof {
            assert forall|j: int| 0 <= j < n implies eval_at(numerator.values(), xs[j]) % mm
                == prod_lin(xs, i as int, 0, xs[j]) % mm by {
                assert(numerator.values() =~= seq![1int]);
                crate::polynomial::lemma_eval_single(1, xs[j]);
            }
        }
        let mut l: usize = 0;
        while l < n
            invariant
                n == points@.len(),
                1 <= n,
                n + 2 <= usize::MAX,
                modulus == points@[0].x.modulus,
                mm == modulus as int,
                points_wf(points@, mm),
                xs == xs_of(points@),
                ys == ys_of(points@),
                i < n,
                l <= n,
                numerator.wf(),
                numerator.modulus() == mm,
                numerator.coefficients@.len() == 1 + if l <= i {
                    l as int
                } else {
                    l - 1
                },
                forall|j: int|
                    0 <= j < n ==> eval_at(numerator.values(), xs[j]) % mm == prod_lin(
                        xs,
                        i as int,
                        l as int,
                        xs[j],
                    ) % mm,
                denominator.modulus == modulus,
                denominator.value as int % mm == prod_lin(xs, i as int, l as int, xs[i as int])
                    % mm,
                denominator.value == 1 || denominator.value < modulus,
            decreases n - l,
        {
            if l != i {
                let ghost num_old = numerator.values();
                let ghost den_old = denominator.value as int;
                let xl = points[l].x.value;
                let c0 = (modulus - (xl % modulus)) % modulus;
                let mut factor_coefficients = crate::polynomial::zero_vec(modulus, 0);
                factor_coefficients.push(FieldElement { value: c0, modulus });
                factor_coefficients.push(FieldElement { value: 1, modulus });
                let factor = Polynomial { coefficients: factor_coefficients };
                let new_numerator = match numerator.mul(&factor) {
                    Ok(f) => f,
                    Err(e) => return Err(e),
                };
                let diff = match points[i].x.sub(&points[l].x) {
                    Ok(f) => f,
                    Err(e) => return Err(e),
                };
                let new_denominator = match denominator.mul(&diff) {
                    Ok(f) => f,
                    Err(e) => return Err(e),
                };
                proof {
                    let xlv = xs[l as int];
                    let li = l as int;
                    let ii = i as int;
                    // The linear factor evaluates to (v - xs[l]) modulo mm.
                    assert forall|v: int| true implies eval_at(factor.values(), v) % mm == (v
                        - xlv) % mm by {
                        assert(factor.values() =~= seq![c0 as int, 1int]);
                        crate::polynomial::lemma_eval_pair(c0 as int, 1, v);
                        assert(eval_at(factor.values(), v) == c0 + v);
                        assert(c0 as int == ((0 - (xlv % mm)) + mm) % mm);
                        lemma_mod_add_multiples_vanish(0 - (xlv % mm), mm);
                        lemma_sub_mod_noop_right(0, xlv, mm);
                        assert((c0 as int) == (0 - xlv) % mm);
                        lemma_add_mod_noop(0 - xlv, v, mm);
                        lemma_add_mod_noop_right((0 - xlv) % mm, v, mm);
                        assert((c0 + v) % mm == ((0 - xlv) + v) % mm);
                    }
                    // The grown numerator evaluates to the longer product.
                    assert forall|j: int| 0 <= j < n implies eval_at(new_numerator.values(), xs[j])
                        % mm == prod_lin(xs, ii, li + 1, xs[j]) % mm by {
                        let v = xs[j];
                        lemma_mul_then_evaluate(numerator, factor, new_numerator, v);
                        let en = eval_at(num_old, v);
                        let ef = eval_at(factor.values(), v);
                        lemma_mul_mod_noop(en, ef, mm);
                        assert((en * ef) % mm == ((en % mm) * (ef % mm)) % mm);
                        lemma_mul_mod_noop(prod_lin(xs, ii, li, v), v - xlv, mm);
                        assert(prod_lin(xs, ii, li + 1, v) == prod_lin(xs, ii, li, v) * (v
                            - xlv));
                    }
                    // The denominator keeps pace with its product.
                    assert(new_denominator.value as int == (den_old * ((xs[ii] - xlv) % mm))
                        % mm);
                    lemma_mul_mod_noop_right(den_old, xs[ii] - xlv, mm);
                    lemma_mul_mod_noop_left(den_old, xs[ii] - xlv, mm);
                    lemma_mul_mod_noop_left(prod_lin(xs, ii, li, xs[ii]), xs[ii] - xlv, mm);
                    assert(new_denominator.value as int % mm == prod_lin(xs, ii, li + 1, xs[ii])
                        % mm) by {
                        lemma_mod_twice((den_old * (xs[ii] - xlv)), mm);
                        assert(prod_lin(xs, ii, li + 1, xs[ii]) == prod_lin(xs, ii, li, xs[ii]) * (
                        xs[ii] - xlv));
                    }
                }
                numerator = new_numerator;
                denominator = new_denominator;
            }
            l += 1;
        }
        let denominator_inverse = match denominator.inv() {
            Ok(f) => f,
            Err(_) => {
                proof {
                    crate::field::lemma_gcd_mod(denominator.value as nat, modulus as nat);
                }
                return Err(ZKError::PolynomialError);
            },
        };
        proof {
            crate::field::lemma_gcd_mod(denominator.value as nat, modulus as nat);
        }
        let scalar = match points[i].y.mul(&denominator_inverse) {
            Ok(f) => f,
            Err(e) => return Err(e),
        };
        let mut scalar_coefficients = crate::polynomial::zero_vec(modulus, 0);
        scalar_coefficients.push(scalar);
        let scalar_poly = Polynomial { coefficients: scalar_coefficients };
        let term = match numerator.mul(&scalar_poly) {
            Ok(f) => f,
            Err(e) => return Err(e),
        };
        let ghost result_old = result.values();
        let new_result = match result.add(&term) {
            Ok(f) => f,
            Err(e) => return Err(e),
        };
        proof {
            let ii = i as int;
            let nn = n as int;
            let sv = scalar.value as int;
            let num = numerator.values();
            let iv = denominator_inverse.value as int;
            let dv = denominator.value as int;
            let yi = ys[ii];
            // term coefficients are the scaled numerator coefficients
            let sc = Seq::new(num.len(), |k: int| sv * num[k]);
            assert forall|k: int| 0 <= k < term.values().len() implies term.values()[k] % mm
                == sc[k] % mm by {
                lemma_conv_commutes(num, scalar_poly.values(), k);
                assert(scalar_poly.values() =~= seq![sv]);
                assert(conv_at(seq![sv], num, k) == crate::polynomial::conv_sum(
                    seq![sv],
                    num,
                    k,
                    0,
                ) + sv * coeff_or_zero(num, k));
                assert(term.values()[k] == conv_at(num, scalar_poly.values(), k) % mm);
                lemma_mod_twice(sv * num[k], mm);
            }
            // term evaluates to scalar times the numerator's product
            assert forall|j: int| 0 <= j < nn implies eval_at(term.values(), xs[j]) % mm == (sv
                * prod_lin(xs, ii, nn, xs[j])) % mm by {
                let v = xs[j];
                lemma_eval_scaled(num, sc, sv, v);
                lemma_eval_congruent(term.values(), sc, v, mm);
                lemma_mul_mod_noop_right(sv, eval_at(num, v), mm);
                lemma_mul_mod_noop_right(sv, prod_lin(xs, ii, nn, v), mm);
            }
            // at the skipped node the denominator cancels, leaving y
            assert(eval_at(term.values(), xs[ii]) % mm == yi % mm) by {
                let p = prod_lin(xs, ii, nn, xs[ii]);
                lemma_mul_mod_noop_right(sv, p, mm);
                assert((sv * p) % mm == (sv * (p % mm)) % mm);
                assert(dv % mm == p % mm);
                lemma_mul_mod_noop_right(sv, dv, mm);
                lemma_mod_twice(dv, mm);
                assert((sv * (p % mm)) % mm == (sv * dv) % mm) by {
                    lemma_mul_mod_noop_right(sv, dv % mm, mm);
                }
                lemma_mul_mod_noop_left(yi * iv, dv, mm);
                lemma_mul_is_associative(yi, iv, dv);
                lemma_mul_mod_noop_right(yi, iv * dv, mm);
                lemma_mul_is_commutative(iv, dv);
                assert((dv * iv) % mm == 1int % mm);
                lemma_mul_mod_noop_right(yi, 1int % mm, mm);
                lemma_mul_mod_noop_right(yi, 1int, mm);
                assert((sv * dv) % mm == (yi * 1) % mm);
            }
            // away from it the numerator vanishes
            assert forall|j: int| 0 <= j < nn && j != ii implies eval_at(term.values(), xs[j])
                % mm == 0int by {
                lemma_prod_lin_zero(xs, ii, nn, j);
                lemma_mul_by_zero_is_zero(sv);
                lemma_small_mod(0nat, modulus as nat);
            }
            // the accumulated result picks up exactly this node's value
            assert forall|j: int| 0 <= j < nn implies eval_at(new_result.values(), xs[j]) % mm
                == (if j < ii + 1 {
                ys[j] % mm
            } else {
                0int
            }) by {
                let v = xs[j];
                let w = new_result.values();
                let su = Seq::new(
                    w.len(),
                    |k: int| coeff_or_zero(result_old, k) + coeff_or_zero(term.values(), k),
                );
                assert forall|k: int| 0 <= k < w.len() implies w[k] % mm == su[k] % mm by {
                    lemma_mod_twice(su[k], mm);
                }
                lemma_eval_congruent(w, su, v, mm);
                lemma_eval_padded_add(result_old, term.values(), su, v);
                let ea = eval_at(result_old, v);
                let eb = eval_at(term.values(), v);
                lemma_add_mod_noop(ea, eb, mm);
                if j < ii {
                    lemma_mod_bound(ys[j], mm);
                    lemma_mod_twice(ys[j], mm);
                    assert((ea % mm + eb % mm) % mm == (ys[j] % mm + 0) % mm);
                    lemma_mod_twice(ys[j], mm);
                } else if j == ii {
                    lemma_mod_twice(yi, mm);
                    assert((ea % mm + eb % mm) % mm == (0 + yi % mm) % mm);
                } else {
                    lemma_small_mod(0nat, modulus as nat);
                }
            }
        }
        result = new_result;
        i += 1;
    }
    Ok(result)
}

/// The fixed evaluation domain `{1, ..., n}`.
pub open spec fn domain_seq(n: int) -> Seq<int> {
    Seq::new(n as nat, |j: int| j + 1)
}

/// The reduced negation of a node, added to `v`, is congruent to `v` minus
/// the node.
proof fn lemma_shift_eval(c0: int, xl: int, mm: int, v: int)
    requires
        mm >= 1,
        c0 == (mm - (xl % mm)) % mm,
    ensures
        (c0 + v) % mm == (v - xl) % mm,
{
    lemma_mod_add_multiples_vanish(0 - (xl % mm), mm);
    lemma_sub_mod_noop_right(0, xl, mm);
    assert(c0 == (0 - xl) % mm);
    lemma_add_mod_noop(0 - xl, v, mm);
    lemma_add_mod_noop_right((0 - xl) % mm, v, mm);
}

/// The aggregate length dominates every summand's length.
proof fn lemma_agg_len_bounds(polys: Seq<Polynomial>, n: int)
    ensures
        agg_len(polys, n) >= 1,
        forall|j: int| 0 <= j < n ==> agg_len(polys, n) >= (#[trigger] polys[j]).coefficients@.len(),
    decreases n,
{
    if n > 0 {
        lemma_agg_len_bounds(polys, n - 1);
    }
}

/// Beyond the aggregate length every aggregate coefficient is zero.
proof fn lemma_agg_coeff_beyond(polys: Seq<Polynomial>, w: Seq<FieldElement>, k: int, n: int)
    requires
        k >= agg_len(polys, n),
    ensures
        agg_coeff(polys, w, k, n) == 0,
    decreases n,
{
    if n > 0 {
        lemma_agg_len_bounds(polys, n);
        lemma_agg_coeff_beyond(polys, w, k, n - 1);
        assert(coeff_or_zero(polys[n - 1].values(), k) == 0);
        lemma_mul_by_zero_is_zero(w[n - 1].value as int);
    }
}

/// The weighted sum of the polynomials for one constraint side, one summand
/// per witness entry: coefficient `k` of the result is the reduced sum of
/// `polys[j][k] * witness[j]`.
fn aggregate_polynomials(polys: &Vec<Polynomial>, witness: &Vec<FieldElement>) -> (r: Result<
    Polynomial,
    ZKError,
>)
    requires
        1 <= witness@.len() <= polys@.len(),
        witness@[0].modulus >= 1,
        forall|i: int|
            0 <= i < witness@.len() ==> (#[trigger] witness@[i]).modulus == witness@[0].modulus,
        forall|j: int|
            0 <= j < polys@.len() ==> (#[trigger] polys@[j]).wf() && polys@[j].modulus()
                == witness@[0].modulus as int,
    ensures
        r is Ok,
        ({
            let out = r->Ok_0;
            let m = witness@[0].modulus as int;
            &&& out.wf()
            &&& out.modulus() == m
            &&& out.coefficients@.len() == agg_len(polys@, witness@.len() as int)
            &&& forall|k: int|
                0 <= k < out.values().len() ==> #[trigger] out.values()[k] == agg_coeff(
                    polys@,
                    witness@,
                    k,
                    witness@.len() as int,
                ) % m
        }),
{
    let modulus = witness[0].modulus;
    let ghost mm = modulus as int;
    let mut sum = Polynomial { coefficients: crate::polynomial::zero_vec(modulus, 1) };
    proof {
        lemma_small_mod(0nat, modulus as nat);
    }
    let mut j: usize = 0;
    while j < witness.len()
        invariant
            1 <= witness@.len() <= polys@.len(),
            modulus == witness@[0].modulus,
            mm == modulus as int,
            modulus >= 1,
            forall|i: int|
                0 <= i < witness@.len() ==> (#[trigger] witness@[i]).modulus == modulus,
            forall|j2: int|
                0 <= j2 < polys@.len() ==> (#[trigger] polys@[j2]).wf() && polys@[j2].modulus()
                    == mm,
            j <= witness@.len(),
            sum.wf(),
            sum.modulus() == mm,
            sum.coefficients@.len() == agg_len(polys@, j as int),
            forall|k: int|
                0 <= k < sum.values().len() ==> #[trigger] sum.values()[k] == agg_coeff(
                    polys@,
                    witness@,
                    k,
                    j as int,
                ) % mm,
        decreases witness@.len() - j,
    {
        let ghost sum_old = sum.values();
        let scaled = match polys[j].scale(&witness[j]) {
            Ok(f) => f,
            Err(e) => return Err(e),
        };
        let new_sum = match sum.add(&scaled) {
            Ok(f) => f,
            Err(e) => return Err(e),
        };
        proof {
            let ji = j as int;
            lemma_agg_len_bounds(polys@, ji);
            lemma_agg_len_bounds(polys@, ji + 1);
            assert(new_sum.coefficients@.len() == agg_len(polys@, ji + 1));
            assert forall|k: int| 0 <= k < new_sum.values().len() implies #[trigger] new_sum.values()[k]
                == agg_coeff(polys@, witness@, k, ji + 1) % mm by {
                let pk = coeff_or_zero(polys@[ji].values(), k);
                let wv = witness@[ji].value as int;
                let a_part = agg_coeff(polys@, witness@, k, ji);
                // the summand contributed by polynomial j
                assert(coeff_or_zero(scaled.values(), k) == (pk * wv) % mm) by {
                    if k < scaled.values().len() {
                    } else {
                        lemma_mul_by_zero_is_zero(wv);
                        lemma_small_mod(0nat, modulus as nat);
                    }
                }
                // the part already accumulated
                assert(coeff_or_zero(sum_old, k) == a_part % mm) by {
                    if k >= sum_old.len() {
                        lemma_agg_coeff_beyond(polys@, witness@, k, ji);
                        lemma_small_mod(0nat, modulus as nat);
                    }
                }
                lemma_add_mod_noop(a_part, pk * wv, mm);
                lemma_add_mod_noop_right(a_part % mm, pk * wv, mm);
                assert(new_sum.values()[k] == (a_part % mm + (pk * wv) % mm) % mm);
                lemma_add_mod_noop_right(a_part % mm, (pk * wv) % mm, mm);
                lemma_mod_twice(pk * wv, mm);
            }
        }
        sum = new_sum;
        j += 1;
    }
    Ok(sum)
}

/// Looks up variable `index`'s coefficient in a linear combination; the first
/// matching term decides, and a missing variable contributes zero.
fn find_coefficient(lc: &LinearCombination, index: usize, modulus: u64) -> (r: FieldElement)
    requires
        modulus >= 1,
        lc.wf_for(modulus as int),
    ensures
        r.modulus == modulus,
        r.value as int == lc_coeff_of(lc.terms@, index as int),
{
    let mut j: usize = 0;
    proof {
        assert(lc.terms@.skip(0) =~= lc.terms@);
    }
    while j < lc.terms.len()
        invariant
            modulus >= 1,
            lc.wf_for(modulus as int),
            j <= lc.terms@.len(),
            forall|j2: int| 0 <= j2 < j ==> (#[trigger] lc.terms@[j2]).index != index,
            lc_coeff_of(lc.terms@, index as int) == lc_coeff_of(
                lc.terms@.skip(j as int),
                index as int,
            ),
        decreases lc.terms@.len() - j,
    {
        let term = lc.terms[j];
        proof {
            assert(lc.terms@.skip(j as int)[0] == term);
            assert(lc.terms@.skip(j as int).drop_first() =~= lc.terms@.skip(j + 1));
        }
        if term.index == index {
            return term.coefficient;
        }
        j += 1;
    }
    proof {
        assert(lc.terms@.skip(lc.terms@.len() as int).len() == 0);
    }
    FieldElement { value: 0, modulus }
}

impl QAP {
    /// The reduced coefficients of `p(x) = A(x)*B(x) - C(x)`, aggregated from
    /// the witness.
    pub open spec fn p_seq(self, w: Seq<FieldElement>) -> Seq<int> {
        let m = self.modulus();
        let sa = agg_seq(self.a_polynomials@, w, m);
        let sb = agg_seq(self.b_polynomials@, w, m);
        let sc = agg_seq(self.c_polynomials@, w, m);
        let lab = sa.len() + sb.len() - 1;
        let l = if lab >= sc.len() {
            lab as int
        } else {
            sc.len() as int
        };
        Seq::new(
            l as nat,
            |k: int| ((conv_at(sa, sb, k) % m) - coeff_or_zero(sc, k)) % m,
        )
    }

    /// `q` is the reduced quotient of `p` by the target polynomial of the
    /// expected length with an exact (remainder-free) product.
    pub open spec fn is_witness_quotient(self, w: Seq<FieldElement>, q: Seq<int>) -> bool {
        let p = self.p_seq(w);
        let t = self.target_polynomial.values();
        let m = self.modulus();
        &&& q.len() == 1 + if true_degree(p) >= true_degree(t) {
            true_degree(p) - true_degree(t)
        } else {
            0
        }
        &&& (forall|k: int| 0 <= k < q.len() ==> 0 <= #[trigger] q[k] < m)
        &&& crate::polynomial::is_exact_quotient(q, t, p, m)
    }

    /// The one reduced exact quotient of `p` by the target polynomial (well
    /// defined whenever the computation succeeds with the division running).
    pub open spec fn witness_quotient_seq(self, w: Seq<FieldElement>) -> Seq<int> {
        choose|q: Seq<int>| self.is_witness_quotient(w, q)
    }

    /// The witness-quotient computation fails on this witness: either the
    /// division cannot run to completion (a non-invertible leading target
    /// coefficient while `p`'s degree reaches the target's), or the division
    /// leaves something behind — in particular whenever the target does not
    /// divide `p` exactly.
    pub open spec fn witness_quotient_fails(self, w: Seq<FieldElement>) -> bool {
        let p = self.p_seq(w);
        let t = self.target_polynomial.values();
        let m = self.modulus();
        if true_degree(p) >= true_degree(t) && p[true_degree(p)] != 0 {
            gcd(t[true_degree(t)] as nat, m as nat) != 1 || !crate::polynomial::divides_mod(
                t,
                p,
                m,
            )
        } else {
            p[true_degree(p)] != 0
        }
    }

    /// Computes the witness quotient `h(x)` with
    /// `p(x) = A(x)*B(x) - C(x) = h(x) * t(x)`, where each of A, B, C is the
    /// witness-weighted sum of that side's per-variable polynomials and `t`
    /// is the target polynomial.
    ///
    /// This is the soundness gate: the quotient exists exactly when the
    /// division leaves a zero remainder, and any leftover remainder is
    /// reported as an error. A returned quotient always satisfies the
    /// coefficientwise identity `h * t = p` modulo the working modulus.
    #[verifier::loop_isolation(false)]
    pub fn calculate_witness_quotient(&self, witness: &Vec<FieldElement>) -> (r: Result<
        Polynomial,
        ZKError,
    >)
        requires
            self.wf(),
            1 <= witness@.len(),
            witness@.len() <= self.a_polynomials@.len(),
            witness@.len() <= self.b_polynomials@.len(),
            witness@.len() <= self.c_polynomials@.len(),
            forall|i: int|
                0 <= i < witness@.len() ==> (#[trigger] witness@[i]).modulus as int
                    == self.modulus(),
            agg_len(self.a_polynomials@, witness@.len() as int) + agg_len(
                self.b_polynomials@,
                witness@.len() as int,
            ) + agg_len(self.c_polynomials@, witness@.len() as int)
                + self.target_polynomial.coefficients@.len() <= usize::MAX,
        ensures
            r is Err ==> r->Err_0 == ZKError::PolynomialError,
            r is Err <==> self.witness_quotient_fails(witness@),
            r is Ok ==> {
                let h = r->Ok_0;
                let p = self.p_seq(witness@);
                let t = self.target_polynomial.values();
                &&& h.wf()
                &&& h.modulus() == self.modulus()
                &&& forall|k: int|
                    0 <= k ==> (#[trigger] conv_at(
                        h.values(),
                        self.target_polynomial.values(),
                        k,
                    )) % self.modulus() == coeff_or_zero(self.p_seq(witness@), k) % self.modulus()
                &&& ((true_degree(p) >= true_degree(t) && p[true_degree(p)] != 0) ==> h.values()
                    == self.witness_quotient_seq(witness@))
                &&& (!(true_degree(p) >= true_degree(t) && p[true_degree(p)] != 0)
                    ==> h.values() == Seq::new(h.values().len(), |k: int| 0int))
            },
    {
        let ghost mm = self.modulus();
        let a_polynomial = match aggregate_polynomials(&self.a_polynomials, witness) {
            Ok(f) => f,
            Err(e) => return Err(e),
        };
        let b_polynomial = match aggregate_polynomials(&self.b_polynomials, witness) {
            Ok(f) => f,
            Err(e) => return Err(e),
        };
        let c_polynomial = match aggregate_polynomials(&self.c_polynomials, witness) {
            Ok(f) => f,
            Err(e) => return Err(e),
        };
        let product = match a_polynomial.mul(&b_polynomial) {
            Ok(f) => f,
            Err(e) => return Err(e),
        };
        let p_polynomial = match product.sub(&c_polynomial) {
            Ok(f) => f,
            Err(e) => return Err(e),
        };
        proof {
            let sa = agg_seq(self.a_polynomials@, witness@, mm);
            let sb = agg_seq(self.b_polynomials@, witness@, mm);
            let sc = agg_seq(self.c_polynomials@, witness@, mm);
            assert(a_polynomial.values() =~= sa);
            assert(b_polynomial.values() =~= sb);
            assert(c_polynomial.values() =~= sc);
            assert forall|k: int| 0 <= k < p_polynomial.values().len() implies #[trigger] p_polynomial.values()[k]
                == self.p_seq(witness@)[k] by {
                if k >= product.values().len() {
                    crate::polynomial::lemma_conv_sum_beyond(sa, sb, k);
                    lemma_small_mod(0nat, mm as nat);
                }
            }
            assert(p_polynomial.values() =~= self.p_seq(witness@));
            lemma_agg_len_bounds(self.a_polynomials@, witness@.len() as int);
            lemma_agg_len_bounds(self.b_polynomials@, witness@.len() as int);
            lemma_agg_len_bounds(self.c_polynomials@, witness@.len() as int);
            assert(self.p_seq(witness@).len() >= 1);
        }
        let pair = match p_polynomial.div(&self.target_polynomial) {
            Ok(f) => f,
            Err(_) => {
                return Err(ZKError::PolynomialError);
            },
        };
        let quotient = pair.0;
        let remainder = pair.1;
        proof {
            // p is reduced coefficient by coefficient
            assert forall|k: int| 0 <= k < p_polynomial.values().len() implies 0
                <= #[trigger] p_polynomial.values()[k] < mm by {
                lemma_mod_bound(
                    (conv_at(
                        agg_seq(self.a_polynomials@, witness@, mm),
                        agg_seq(self.b_polynomials@, witness@, mm),
                        k,
                    ) % mm) - coeff_or_zero(agg_seq(self.c_polynomials@, witness@, mm), k),
                    mm,
                );
            }
        }
        let mut k: usize = 0;
        while k < remainder.coefficients.len()
            invariant
                forall|k2: int|
                    0 <= k2 < k ==> #[trigger] remainder.values()[k2] == 0,
                k <= remainder.coefficients@.len(),
            decreases remainder.coefficients@.len() - k,
        {
            if remainder.coefficients[k].value != 0 {
                proof {
                    let p = self.p_seq(witness@);
                    let t = self.target_polynomial.values();
                    lemma_true_degree_properties(p);
                    lemma_true_degree_properties(t);
                    if true_degree(p) >= true_degree(t) && p[true_degree(p)] != 0 {
                        // the division ran, so the leading target coefficient
                        // is invertible; an exact quotient would force a zero
                        // remainder
                        if crate::polynomial::divides_mod(t, p, mm) {
                            crate::polynomial::lemma_exact_division_remainder_zero(
                                quotient.values(),
                                t,
                                remainder.values(),
                                p,
                                mm,
                            );
                            assert(remainder.values()[k as int] == 0);
                        }
                    } else {
                        // the division never ran and handed p back unchanged
                        assert(remainder.values() == p);
                        assert(p[k as int] != 0);
                        if p[true_degree(p)] == 0 {
                            assert(true_degree(p) == 0);
                            assert(forall|k2: int| 0 <= k2 < p.len() ==> p[k2] == 0);
                        }
                    }
                }
                return Err(ZKError::PolynomialError);
            }
            k += 1;
        }
        proof {
            let p = self.p_seq(witness@);
            let t = self.target_polynomial.values();
            // all remainder coefficients are zero: the identity collapses to
            // exact division
            assert forall|k2: int| 0 <= k2 implies (#[trigger] conv_at(quotient.values(), t, k2))
                % mm == coeff_or_zero(p, k2) % mm by {
                assert(coeff_or_zero(remainder.values(), k2) == 0);
            }
            lemma_true_degree_properties(p);
            lemma_true_degree_properties(t);
            if true_degree(p) >= true_degree(t) && p[true_degree(p)] != 0 {
                assert(crate::polynomial::is_exact_quotient(quotient.values(), t, p, mm));
                assert(crate::polynomial::divides_mod(t, p, mm));
                // the returned quotient is the one reduced exact quotient
                assert(self.is_witness_quotient(witness@, quotient.values()));
                let qq = self.witness_quotient_seq(witness@);
                assert(self.is_witness_quotient(witness@, qq));
                crate::polynomial::lemma_exact_quotient_unique(quotient.values(), qq, t, p, mm);
            } else {
                assert(remainder.values() == p);
                assert(p[true_degree(p)] == 0);
                assert(quotient.values() =~= Seq::new(quotient.values().len(), |k: int| 0int));
            }
        }
        Ok(quotient)
    }

    /// Builds the QAP of a constraint system: the target polynomial over the
    /// fixed public domain `{1, ..., m}` (`m` = constraint count), and for
    /// each variable the Lagrange interpolation of its coefficients in every
    /// constraint's A, B and C sides.
    ///
    /// The working modulus is read from the first term of the first
    /// constraint's A side and is assumed uniform across the system (a
    /// precondition, not a validated invariant). Fails when there is no
    /// constraint, the first constraint's A side has no term, or some
    /// interpolation denominator over the domain has no inverse (which cannot
    /// happen when the modulus is a prime above the constraint count).
    #[verifier::loop_isolation(false)]
    pub fn create(cs: &ConstraintSystem) -> (r: Result<QAP, ZKError>)
        requires
            cs.constraints@.len() + 2 <= 0xFFFF_FFFF,
            (cs.constraints@.len() > 0 && cs.constraints@[0].a.terms@.len() > 0) ==> {
                let m = cs.constraints@[0].a.terms@[0].coefficient.modulus as int;
                &&& m >= 1
                &&& forall|j: int|
                    0 <= j < cs.constraints@.len() ==> (#[trigger] cs.constraints@[j]).wf_for(m)
            },
        ensures
            r is Err ==> r->Err_0 == ZKError::PolynomialError,
            r is Err <==> (cs.constraints@.len() == 0 || cs.constraints@[0].a.terms@.len() == 0 || (
            cs.num_variables > 0 && exists|k: int|
                0 <= k < cs.constraints@.len() && gcd(
                    ((#[trigger] prod_lin(
                        domain_seq(cs.constraints@.len() as int),
                        k,
                        cs.constraints@.len() as int,
                        k + 1,
                    )) % (cs.constraints@[0].a.terms@[0].coefficient.modulus as int)) as nat,
                    cs.constraints@[0].a.terms@[0].coefficient.modulus as nat,
                ) != 1)),
            r is Ok ==> {
                let out = r->Ok_0;
                let n = cs.constraints@.len() as int;
                let m = cs.constraints@[0].a.terms@[0].coefficient.modulus as int;
                &&& out.wf()
                &&& out.modulus() == m
                &&& out.a_polynomials@.len() == cs.num_variables
                &&& out.b_polynomials@.len() == cs.num_variables
                &&& out.c_polynomials@.len() == cs.num_variables
                &&& forall|i: int|
                    0 <= i < cs.num_variables ==> (#[trigger] out.a_polynomials@[i]).coefficients@.len()
                        == n && out.b_polynomials@[i].coefficients@.len() == n
                        && out.c_polynomials@[i].coefficients@.len() == n
                &&& out.target_polynomial.coefficients@.len() == n + 1
                &&& out.target_polynomial.values()[n] == 1int % m
                &&& forall|v: int|
                    1 <= v <= n ==> #[trigger] eval_at(out.target_polynomial.values(), v) % m == 0
                &&& forall|i: int, v: int|
                    0 <= i < cs.num_variables && 1 <= v <= n ==> #[trigger] eval_at(
                        out.a_polynomials@[i].values(),
                        v,
                    ) % m == lc_coeff_of(cs.constraints@[v - 1].a.terms@, i) % m
                &&& forall|i: int, v: int|
                    0 <= i < cs.num_variables && 1 <= v <= n ==> #[trigger] eval_at(
                        out.b_polynomials@[i].values(),
                        v,
                    ) % m == lc_coeff_of(cs.constraints@[v - 1].b.terms@, i) % m
                &&& forall|i: int, v: int|
                    0 <= i < cs.num_variables && 1 <= v <= n ==> #[trigger] eval_at(
                        out.c_polynomials@[i].values(),
                        v,
                    ) % m == lc_coeff_of(cs.constraints@[v - 1].c.terms@, i) % m
            },
    {
        let num_constraints = cs.constraints.len();
        if num_constraints == 0 {
            return Err(ZKError::PolynomialError);
        }
        if cs.constraints[0].a.terms.len() == 0 {
            return Err(ZKError::PolynomialError);
        }
        let modulus = cs.constraints[0].a.terms[0].coefficient.modulus;
        let n = num_constraints;
        let ghost mm = modulus as int;
        let ghost nn = n as int;
        let num_variables = cs.num_variables;

        // The evaluation points 1, ..., n.
        let mut evaluation_points: Vec<FieldElement> = Vec::new();
        let mut idx: usize = 0;
        while idx < n
            invariant
                idx <= n,
                evaluation_points@.len() == idx,
                forall|j: int|
                    0 <= j < idx ==> (#[trigger] evaluation_points@[j]).modulus == modulus
                        && evaluation_points@[j].value == j + 1,
            decreases n - idx,
        {
            evaluation_points.push(FieldElement { value: (idx as u64) + 1, modulus });
            idx += 1;
        }

        // The target polynomial: the product of (x - r) over the domain.
        let mut target = Polynomial { coefficients: crate::polynomial::zero_vec(modulus, 0) };
        target.coefficients.push(FieldElement { value: 1, modulus });
        let mut j: usize = 0;
        while j < n
            invariant
                j <= n,
                target.wf(),
                target.modulus() == mm,
                target.coefficients@.len() == j + 1,
                target.values()[j as int] == if j == 0 {
                    1int
                } else {
                    1int % mm
                },
                forall|v: int| 1 <= v <= j ==> #[trigger] eval_at(target.values(), v) % mm == 0,
            decreases n - j,
        {
            let ghost t_old = target.values();
            let rv = (j as u64) + 1;
            let c0 = (modulus - (rv % modulus)) % modulus;
            let mut factor_coefficients = crate::polynomial::zero_vec(modulus, 0);
            factor_coefficients.push(FieldElement { value: c0, modulus });
            factor_coefficients.push(FieldElement { value: 1, modulus });
            let factor = Polynomial { coefficients: factor_coefficients };
            let new_target = match target.mul(&factor) {
                Ok(f) => f,
                Err(e) => return Err(e),
            };
            proof {
                let ji = j as int;
                assert(factor.values() =~= seq![c0 as int, 1int]);
                assert forall|v: int| 1 <= v <= ji + 1 implies eval_at(new_target.values(), v) % mm
                    == 0int by {
                    lemma_mul_then_evaluate(target, factor, new_target, v);
                    crate::polynomial::lemma_eval_pair(c0 as int, 1, v);
                    lemma_shift_eval(c0 as int, ji + 1, mm, v);
                    let et = eval_at(t_old, v);
                    let ef = eval_at(factor.values(), v);
                    lemma_mul_mod_noop(et, ef, mm);
                    lemma_small_mod(0nat, modulus as nat);
                    if v <= ji {
                        assert(et % mm == 0);
                        lemma_mul_by_zero_is_zero(ef % mm);
                    } else {
                        assert(ef % mm == (v - (ji + 1)) % mm);
                        assert(v - (ji + 1) == 0);
                        lemma_mul_by_zero_is_zero(et % mm);
                    }
                }
                assert(new_target.values()[ji + 1] == 1int % mm) by {
                    let tv = t_old;
                    let fv = factor.values();
                    let k = ji + 1;
                    assert(new_target.values()[k] == conv_at(tv, fv, k) % mm);
                    lemma_conv_commutes(tv, fv, k);
                    assert(fv.len() == 2 && fv[0] == c0 as int && fv[1] == 1int);
                    assert(crate::polynomial::conv_sum(fv, tv, k, 0) == 0);
                    assert(crate::polynomial::conv_sum(fv, tv, k, 1) == fv[0] * coeff_or_zero(
                        tv,
                        k,
                    ));
                    assert(crate::polynomial::conv_sum(fv, tv, k, 2)
                        == crate::polynomial::conv_sum(fv, tv, k, 1) + fv[1] * coeff_or_zero(
                        tv,
                        k - 1,
                    ));
                    assert(conv_at(fv, tv, k) == crate::polynomial::conv_sum(fv, tv, k, 2));
                    assert(coeff_or_zero(tv, k) == 0);
                    lemma_mul_by_zero_is_zero(c0 as int);
                    assert(fv[0] * coeff_or_zero(tv, k) == 0);
                    assert(coeff_or_zero(tv, k - 1) == tv[ji]);
                    assert(fv[1] * tv[ji] == tv[ji]);
                    assert(conv_at(tv, fv, k) == tv[ji]);
                    lemma_mod_twice(1int, mm);
                    if j == 0 {
                        assert(tv[ji] == 1int);
                    } else {
                        assert(tv[ji] == 1int % mm);
                    }
                }
            }
            target = new_target;
            j += 1;
        }

        // Per-variable interpolation of the three constraint sides.
        let mut a_polynomials: Vec<Polynomial> = Vec::new();
        let mut b_polynomials: Vec<Polynomial> = Vec::new();
        let mut c_polynomials: Vec<Polynomial> = Vec::new();
        let mut i: usize = 0;
        while i < num_variables
            invariant
                i <= num_variables,
                a_polynomials@.len() == i,
                b_polynomials@.len() == i,
                c_polynomials@.len() == i,
                forall|i2: int|
                    0 <= i2 < i ==> (#[trigger] a_polynomials@[i2]).wf()
                        && a_polynomials@[i2].modulus() == mm
                        && a_polynomials@[i2].coefficients@.len() == nn,
                forall|i2: int|
                    0 <= i2 < i ==> (#[trigger] b_polynomials@[i2]).wf()
                        && b_polynomials@[i2].modulus() == mm
                        && b_polynomials@[i2].coefficients@.len() == nn,
                forall|i2: int|
                    0 <= i2 < i ==> (#[trigger] c_polynomials@[i2]).wf()
                        && c_polynomials@[i2].modulus() == mm
                        && c_polynomials@[i2].coefficients@.len() == nn,
                forall|i2: int, v: int|
                    0 <= i2 < i && 1 <= v <= nn ==> #[trigger] eval_at(
                        a_polynomials@[i2].values(),
                        v,
                    ) % mm == lc_coeff_of(cs.constraints@[v - 1].a.terms@, i2) % mm,
                forall|i2: int, v: int|
                    0 <= i2 < i && 1 <= v <= nn ==> #[trigger] eval_at(
                        b_polynomials@[i2].values(),
                        v,
                    ) % mm == lc_coeff_of(cs.constraints@[v - 1].b.terms@, i2) % mm,
                forall|i2: int, v: int|
                    0 <= i2 < i && 1 <= v <= nn ==> #[trigger] eval_at(
                        c_polynomials@[i2].values(),
                        v,
                    ) % mm == lc_coeff_of(cs.constraints@[v - 1].c.terms@, i2) % mm,
                i > 0 ==> forall|k: int|
                    0 <= k < nn ==> gcd(
                        ((#[trigger] prod_lin(domain_seq(nn), k, nn, k + 1)) % mm) as nat,
                        modulus as nat,
                    ) == 1,
            decreases num_variables - i,
        {
            let mut a_points: Vec<Point> = Vec::new();
            let mut b_points: Vec<Point> = Vec::new();
            let mut c_points: Vec<Point> = Vec::new();
            let mut j2: usize = 0;
            while j2 < n
                invariant
                    j2 <= n,
                    a_points@.len() == j2,
                    b_points@.len() == j2,
                    c_points@.len() == j2,
                    forall|l: int|
                        0 <= l < j2 ==> {
                            let p = #[trigger] a_points@[l];
                            &&& p.x.modulus == modulus
                            &&& p.x.value == l + 1
                            &&& p.y.modulus == modulus
                            &&& p.y.value as int == lc_coeff_of(cs.constraints@[l].a.terms@, i as int)
                        },
                    forall|l: int|
                        0 <= l < j2 ==> {
                            let p = #[trigger] b_points@[l];
                            &&& p.x.modulus == modulus
                            &&& p.x.value == l + 1
                            &&& p.y.modulus == modulus
                            &&& p.y.value as int == lc_coeff_of(cs.constraints@[l].b.terms@, i as int)
                        },
                    forall|l: int|
                        0 <= l < j2 ==> {
                            let p = #[trigger] c_points@[l];
                            &&& p.x.modulus == modulus
                            &&& p.x.value == l + 1
                            &&& p.y.modulus == modulus
                            &&& p.y.value as int == lc_coeff_of(cs.constraints@[l].c.terms@, i as int)
                        },
                decreases n - j2,
            {
                let r = evaluation_points[j2];
                let a_coefficient = find_coefficient(&cs.constraints[j2].a, i, modulus);
                let b_coefficient = find_coefficient(&cs.constraints[j2].b, i, modulus);
                let c_coefficient = find_coefficient(&cs.constraints[j2].c, i, modulus);
                a_points.push(Point { x: r, y: a_coefficient });
                b_points.push(Point { x: r, y: b_coefficient });
                c_points.push(Point { x: r, y: c_coefficient });
                j2 += 1;
            }
            proof {
                assert(xs_of(a_points@) =~= domain_seq(nn));
                assert(xs_of(b_points@) =~= domain_seq(nn));
                assert(xs_of(c_points@) =~= domain_seq(nn));
            }
            let a_interpolated = match interpolate_points(&a_points) {
                Ok(p) => p,
                Err(e) => return Err(e),
            };
            let b_interpolated = match interpolate_points(&b_points) {
                Ok(p) => p,
                Err(e) => return Err(e),
            };
            let c_interpolated = match interpolate_points(&c_points) {
                Ok(p) => p,
                Err(e) => return Err(e),
            };
            proof {
                assert forall|k: int| 0 <= k < nn implies gcd(
                    ((#[trigger] prod_lin(domain_seq(nn), k, nn, k + 1)) % mm) as nat,
                    modulus as nat,
                ) == 1 by {
                    assert(xs_of(a_points@)[k] == k + 1);
                    assert(gcd(
                        (prod_lin(xs_of(a_points@), k, nn, xs_of(a_points@)[k]) % mm) as nat,
                        modulus as nat,
                    ) == 1);
                }
                assert forall|v: int| 1 <= v <= nn implies eval_at(a_interpolated.values(), v) % mm
                    == lc_coeff_of(cs.constraints@[v - 1].a.terms@, i as int) % mm by {
                    let j3 = v - 1;
                    assert(xs_of(a_points@)[j3] == v);
                    assert(ys_of(a_points@)[j3] == lc_coeff_of(cs.constraints@[j3].a.terms@, i as int));
                    assert(eval_at(a_interpolated.values(), xs_of(a_points@)[j3]) % mm == ys_of(
                        a_points@,
                    )[j3] % mm);
                }
                assert forall|v: int| 1 <= v <= nn implies eval_at(b_interpolated.values(), v) % mm
                    == lc_coeff_of(cs.constraints@[v - 1].b.terms@, i as int) % mm by {
                    let j3 = v - 1;
                    assert(xs_of(b_points@)[j3] == v);
                    assert(ys_of(b_points@)[j3] == lc_coeff_of(cs.constraints@[j3].b.terms@, i as int));
                    assert(eval_at(b_interpolated.values(), xs_of(b_points@)[j3]) % mm == ys_of(
                        b_points@,
                    )[j3] % mm);
                }
                assert forall|v: int| 1 <= v <= nn implies eval_at(c_interpolated.values(), v) % mm
                    == lc_coeff_of(cs.constraints@[v - 1].c.terms@, i as int) % mm by {
                    let j3 = v - 1;
                    assert(xs_of(c_points@)[j3] == v);
                    assert(ys_of(c_points@)[j3] == lc_coeff_of(cs.constraints@[j3].c.terms@, i as int));
                    assert(eval_at(c_interpolated.values(), xs_of(c_points@)[j3]) % mm == ys_of(
                        c_points@,
                    )[j3] % mm);
                }
            }
            a_polynomials.push(a_interpolated);
            b_polynomials.push(b_interpolated);
            c_polynomials.push(c_interpolated);
            i += 1;
        }
        Ok(QAP { a_polynomials, b_polynomials, c_polynomials, target_polynomial: target })
    }
}

} // verus!
