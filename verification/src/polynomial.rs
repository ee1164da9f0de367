use vstd::prelude::*;
use vstd::arithmetic::div_mod::{
    lemma_add_mod_noop, lemma_add_mod_noop_right, lemma_mod_bound, lemma_mul_mod_noop_left,
    lemma_mod_twice, lemma_mul_mod_noop, lemma_mul_mod_noop_right, lemma_small_mod, lemma_sub_mod_noop,
    lemma_sub_mod_noop_right,
};
use vstd::arithmetic::mul::{
    lemma_mul_is_associative, lemma_mul_is_commutative, lemma_mul_upper_bound,
};
use vstd::pervasive::VecAdditionalExecFns;
use crate::errors::ZKError;
use crate::field::{gcd, FieldElement};

verus! {

/// A dense polynomial over one modulus; `coefficients[i]` scales `x^i`.
///
/// The coefficient list is never empty; the all-zero polynomial keeps its
/// zero coefficients and reports degree zero.
#[derive(Debug, Clone)]
pub struct Polynomial {
    pub coefficients: Vec<FieldElement>,
}

/// The integer values carried by a sequence of field elements.
pub open spec fn values_of(s: Seq<FieldElement>) -> Seq<int> {
    Seq::new(s.len(), |i: int| s[i].value as int)
}

/// The value at index `k` of a coefficient sequence, zero beyond its length.
pub open spec fn coeff_or_zero(s: Seq<int>, k: int) -> int {
    if 0 <= k < s.len() {
        s[k]
    } else {
        0
    }
}

/// The largest index holding a non-zero coefficient, floored at zero (so the
/// all-zero polynomial has true degree zero).
pub open spec fn true_degree(s: Seq<int>) -> int
    decreases s.len(),
{
    if s.len() <= 1 {
        0
    } else if s[s.len() - 1] != 0 {
        s.len() - 1
    } else {
        true_degree(s.drop_last())
    }
}

/// Polynomial evaluation over the integers, in Horner form.
pub open spec fn eval_at(s: Seq<int>, x: int) -> int
    decreases s.len(),
{
    if s.len() == 0 {
        0
    } else {
        s[0] + x * eval_at(s.subrange(1, s.len() as int), x)
    }
}

/// A partial convolution coefficient: the sum of `a[i] * b[k - i]` over the
/// first `n` indices `i` of `a` (with `b` read as zero out of range).
pub open spec fn conv_sum(a: Seq<int>, b: Seq<int>, k: int, n: int) -> int
    decreases n,
{
    if n <= 0 {
        0
    } else {
        conv_sum(a, b, k, n - 1) + a[n - 1] * coeff_or_zero(b, k - (n - 1))
    }
}

/// Coefficient `k` of the product of two coefficient sequences.
pub open spec fn conv_at(a: Seq<int>, b: Seq<int>, k: int) -> int {
    conv_sum(a, b, k, a.len() as int)
}

/// The true degree is in range, points at a non-zero coefficient unless it is
/// zero, and everything above it is zero.
pub proof fn lemma_true_degree_properties(s: Seq<int>)
    requires
        s.len() >= 1,
    ensures
        0 <= true_degree(s) < s.len(),
        s[true_degree(s)] != 0 || true_degree(s) == 0,
        forall|j: int| true_degree(s) < j < s.len() ==> s[j] == 0,
    decreases s.len(),
{
    if s.len() == 1 {
    } else if s[s.len() - 1] != 0 {
    } else {
        lemma_true_degree_properties(s.drop_last());
        assert forall|j: int| true_degree(s) < j < s.len() implies s[j] == 0 by {
            if j < s.len() - 1 {
                assert(s.drop_last()[j] == s[j]);
            }
        }
    }
}

/// An index that holds a non-zero coefficient (or is zero) with only zeros
/// above it is the true degree.
pub proof fn lemma_true_degree_is(s: Seq<int>, d: int)
    requires
        s.len() >= 1,
        0 <= d < s.len(),
        s[d] != 0 || d == 0,
        forall|j: int| d < j < s.len() ==> s[j] == 0,
    ensures
        true_degree(s) == d,
    decreases s.len(),
{
    if s.len() == 1 {
    } else if d == s.len() - 1 {
    } else {
        assert(s[s.len() - 1] == 0);
        assert forall|j: int| d < j < s.drop_last().len() implies s.drop_last()[j] == 0 by {
            assert(s.drop_last()[j] == s[j]);
        }
        assert(s.drop_last()[d] == s[d]);
        lemma_true_degree_is(s.drop_last(), d);
    }
}

/// A partial convolution with an all-zero left factor is zero.
proof fn lemma_conv_sum_zero(a: Seq<int>, b: Seq<int>, k: int, n: int)
    requires
        forall|i: int| 0 <= i < n ==> a[i] == 0,
    ensures
        conv_sum(a, b, k, n) == 0,
    decreases n,
{
    if n > 0 {
        lemma_conv_sum_zero(a, b, k, n - 1);
    }
}

/// A partial convolution whose left factor is zero everywhere but at `s`
/// collapses to the single product at `s`.
proof fn lemma_conv_sum_spike(a: Seq<int>, b: Seq<int>, k: int, n: int, s: int)
    requires
        0 <= s < a.len(),
        forall|i: int| 0 <= i < n && i != s ==> a[i] == 0,
    ensures
        conv_sum(a, b, k, n) == if s < n {
            a[s] * coeff_or_zero(b, k - s)
        } else {
            0
        },
    decreases n,
{
    if n > 0 {
        lemma_conv_sum_spike(a, b, k, n - 1, s);
    }
}

/// Changing one entry of the left factor changes a partial convolution by the
/// difference times the matching right coefficient.
proof fn lemma_conv_sum_update(a: Seq<int>, b: Seq<int>, k: int, n: int, idx: int, v: int)
    requires
        0 <= idx < a.len(),
        n <= a.len(),
    ensures
        conv_sum(a.update(idx, v), b, k, n) == conv_sum(a, b, k, n) + if 0 <= idx < n {
            (v - a[idx]) * coeff_or_zero(b, k - idx)
        } else {
            0
        },
    decreases n,
{
    if n > 0 {
        lemma_conv_sum_update(a, b, k, n - 1, idx, v);
        if idx == n - 1 {
            vstd::arithmetic::mul::lemma_mul_is_distributive_sub_other_way(
                coeff_or_zero(b, k - idx),
                v,
                a[idx],
            );
        }
    }
}

/// A partial convolution at a negative index is zero.
proof fn lemma_conv_sum_neg(a: Seq<int>, b: Seq<int>, k: int, n: int)
    requires
        k < 0,
    ensures
        conv_sum(a, b, k, n) == 0,
    decreases n,
{
    if n > 0 {
        lemma_conv_sum_neg(a, b, k, n - 1);
        vstd::arithmetic::mul::lemma_mul_by_zero_is_zero(a[n - 1]);
    }
}

/// Peeling the first coefficient off the left factor of a convolution.
proof fn lemma_conv_sum_drop_first(a: Seq<int>, b: Seq<int>, k: int, n: int)
    requires
        1 <= n <= a.len(),
    ensures
        conv_sum(a, b, k, n) == a[0] * coeff_or_zero(b, k) + conv_sum(
            a.drop_first(),
            b,
            k - 1,
            n - 1,
        ),
    decreases n,
{
    if n == 1 {
        assert(conv_sum(a, b, k, 0) == 0);
        assert(conv_sum(a.drop_first(), b, k - 1, 0) == 0);
    } else {
        lemma_conv_sum_drop_first(a, b, k, n - 1);
        assert(a.drop_first()[n - 2] == a[n - 1]);
        assert(conv_sum(a, b, k, n) == conv_sum(a, b, k, n - 1) + a[n - 1] * coeff_or_zero(
            b,
            k - (n - 1),
        ));
        assert(conv_sum(a.drop_first(), b, k - 1, n - 1) == conv_sum(a.drop_first(), b, k - 1, n - 2)
            + a.drop_first()[n - 2] * coeff_or_zero(b, (k - 1) - (n - 2)));
    }
}

/// Peeling the first coefficient off the right factor of a convolution.
proof fn lemma_conv_sum_drop_first_right(b: Seq<int>, a: Seq<int>, k: int, n: int)
    requires
        1 <= a.len(),
        0 <= n <= b.len(),
    ensures
        conv_sum(b, a, k, n) == (if 0 <= k < n {
            b[k] * a[0]
        } else {
            0
        }) + conv_sum(b, a.drop_first(), k - 1, n),
    decreases n,
{
    if n > 0 {
        lemma_conv_sum_drop_first_right(b, a, k, n - 1);
        if k != n - 1 {
            assert(coeff_or_zero(a, k - (n - 1)) == coeff_or_zero(a.drop_first(), k - 1 - (n - 1)));
        } else {
            assert(coeff_or_zero(a.drop_first(), k - 1 - (n - 1)) == 0);
            vstd::arithmetic::mul::lemma_mul_by_zero_is_zero(b[n - 1]);
        }
    }
}

/// Law: convolution is commutative, coefficient by coefficient; `mul` is
/// therefore commutative as its contract states the product.
pub proof fn lemma_conv_commutes(a: Seq<int>, b: Seq<int>, k: int)
    ensures
        conv_at(a, b, k) == conv_at(b, a, k),
    decreases a.len(),
{
    if a.len() == 0 {
        assert forall|n: int| 0 <= n <= b.len() implies conv_sum(b, a, k, n) == 0 by {
            lemma_conv_sum_all_pads_zero(b, a, k, n);
        }
    } else if k < 0 {
        lemma_conv_sum_neg(a, b, k, a.len() as int);
        lemma_conv_sum_neg(b, a, k, b.len() as int);
    } else {
        lemma_conv_sum_drop_first(a, b, k, a.len() as int);
        lemma_conv_sum_drop_first_right(b, a, k, b.len() as int);
        lemma_conv_commutes(a.drop_first(), b, k - 1);
        vstd::arithmetic::mul::lemma_mul_is_commutative(a[0], coeff_or_zero(b, k));
        if !(0 <= k < b.len()) {
            vstd::arithmetic::mul::lemma_mul_by_zero_is_zero(a[0]);
        }
    }
}

/// A partial convolution whose right pads are all zero is zero.
proof fn lemma_conv_sum_all_pads_zero(b: Seq<int>, a: Seq<int>, k: int, n: int)
    requires
        a.len() == 0,
    ensures
        conv_sum(b, a, k, n) == 0,
    decreases n,
{
    if n > 0 {
        lemma_conv_sum_all_pads_zero(b, a, k, n - 1);
        vstd::arithmetic::mul::lemma_mul_by_zero_is_zero(b[n - 1]);
    }
}

/// Evaluation of a coefficientwise sum (each side padded with zeros) is the
/// sum of the evaluations.
pub proof fn lemma_eval_padded_add(u: Seq<int>, v: Seq<int>, w: Seq<int>, x: int)
    requires
        w.len() >= u.len(),
        w.len() >= v.len(),
        forall|k: int|
            0 <= k < w.len() ==> w[k] == coeff_or_zero(u, k) + coeff_or_zero(v, k),
    ensures
        eval_at(w, x) == eval_at(u, x) + eval_at(v, x),
    decreases w.len(),
{
    if w.len() == 0 {
    } else {
        let u1 = if u.len() == 0 {
            Seq::<int>::empty()
        } else {
            u.drop_first()
        };
        let v1 = if v.len() == 0 {
            Seq::<int>::empty()
        } else {
            v.drop_first()
        };
        let w1 = w.drop_first();
        assert forall|k: int| 0 <= k < w1.len() implies w1[k] == coeff_or_zero(u1, k)
            + coeff_or_zero(v1, k) by {
            assert(w1[k] == w[k + 1]);
            assert(coeff_or_zero(u1, k) == coeff_or_zero(u, k + 1));
            assert(coeff_or_zero(v1, k) == coeff_or_zero(v, k + 1));
        }
        lemma_eval_padded_add(u1, v1, w1, x);
        assert(w1 =~= w.subrange(1, w.len() as int));
        vstd::arithmetic::mul::lemma_mul_is_distributive_add(x, eval_at(u1, x), eval_at(v1, x));
        if u.len() == 0 {
            assert(eval_at(u, x) == 0);
        } else {
            assert(u1 =~= u.subrange(1, u.len() as int));
        }
        if v.len() == 0 {
            assert(eval_at(v, x) == 0);
        } else {
            assert(v1 =~= v.subrange(1, v.len() as int));
        }
    }
}

/// Evaluation of a coefficientwise scalar multiple is the scalar times the
/// evaluation.
pub proof fn lemma_eval_scaled(u: Seq<int>, w: Seq<int>, q: int, x: int)
    requires
        w.len() >= u.len(),
        forall|k: int| 0 <= k < w.len() ==> w[k] == q * coeff_or_zero(u, k),
    ensures
        eval_at(w, x) == q * eval_at(u, x),
    decreases w.len(),
{
    if w.len() == 0 {
        vstd::arithmetic::mul::lemma_mul_by_zero_is_zero(q);
    } else {
        let u1 = if u.len() == 0 {
            Seq::<int>::empty()
        } else {
            u.drop_first()
        };
        let w1 = w.drop_first();
        assert forall|k: int| 0 <= k < w1.len() implies w1[k] == q * coeff_or_zero(u1, k) by {
            assert(w1[k] == w[k + 1]);
            assert(coeff_or_zero(u1, k) == coeff_or_zero(u, k + 1));
        }
        lemma_eval_scaled(u1, w1, q, x);
        assert(w1 =~= w.subrange(1, w.len() as int));
        if u.len() == 0 {
            assert(eval_at(u, x) == 0);
            vstd::arithmetic::mul::lemma_mul_by_zero_is_zero(q);
            vstd::arithmetic::mul::lemma_mul_by_zero_is_zero(x);
        } else {
            assert(u1 =~= u.subrange(1, u.len() as int));
            // q*u0 + x*(q*e1) == q*(u0 + x*e1)
            let e1 = eval_at(u1, x);
            assert(q * (u[0] + x * e1) == q * u[0] + x * (q * e1)) by (nonlinear_arith);
        }
    }
}

/// Evaluating the convolution of two coefficient sequences gives the product
/// of their evaluations, over the integers.
pub proof fn lemma_eval_conv(a: Seq<int>, b: Seq<int>, c: Seq<int>, x: int)
    requires
        a.len() >= 1,
        b.len() >= 1,
        c.len() == a.len() + b.len() - 1,
        forall|k: int| 0 <= k < c.len() ==> c[k] == conv_at(a, b, k),
    ensures
        eval_at(c, x) == eval_at(a, x) * eval_at(b, x),
    decreases a.len(),
{
    if a.len() == 1 {
        assert forall|k: int| 0 <= k < c.len() implies c[k] == a[0] * coeff_or_zero(b, k) by {
            assert(conv_sum(a, b, k, 0) == 0);
            assert(conv_at(a, b, k) == conv_sum(a, b, k, 1));
        }
        lemma_eval_scaled(b, c, a[0], x);
        assert(a.subrange(1, a.len() as int) =~= Seq::<int>::empty());
        assert(eval_at(Seq::<int>::empty(), x) == 0);
        vstd::arithmetic::mul::lemma_mul_by_zero_is_zero(x);
        assert(eval_at(a, x) == a[0]);
    } else {
        let a1 = a.drop_first();
        let c1 = Seq::new((a1.len() + b.len() - 1) as nat, |k: int| conv_at(a1, b, k));
        lemma_eval_conv(a1, b, c1, x);
        let d = c.drop_first();
        let b1 = b.drop_first();
        // d[k] == a[0] * (shifted b)[k] + c1[k]
        let su = Seq::new(d.len(), |k: int| a[0] * coeff_or_zero(b1, k));
        assert forall|k: int| 0 <= k < d.len() implies d[k] == coeff_or_zero(su, k)
            + coeff_or_zero(c1, k) by {
            assert(d[k] == c[k + 1]);
            assert(c[k + 1] == conv_at(a, b, k + 1));
            lemma_conv_sum_drop_first(a, b, k + 1, a.len() as int);
            assert(conv_at(a, b, k + 1) == a[0] * coeff_or_zero(b, k + 1) + conv_at(a1, b, k));
            assert(coeff_or_zero(b, k + 1) == coeff_or_zero(b1, k));
            assert(coeff_or_zero(su, k) == a[0] * coeff_or_zero(b1, k));
            if k < c1.len() {
                assert(coeff_or_zero(c1, k) == conv_at(a1, b, k));
            } else {
                assert(k >= a1.len() + b.len() - 1);
                lemma_conv_sum_beyond(a1, b, k);
            }
        }
        lemma_eval_padded_add(su, c1, d, x);
        lemma_eval_scaled(b1, su, a[0], x);
        // c[0] == a[0] * b[0]
        lemma_conv_sum_drop_first(a, b, 0, a.len() as int);
        lemma_conv_sum_neg(a1, b, -1, a1.len() as int);
        assert(c[0] == a[0] * b[0]);
        assert(d =~= c.subrange(1, c.len() as int));
        assert(a1 =~= a.subrange(1, a.len() as int));
        assert(b1 =~= b.subrange(1, b.len() as int));
        let ea1 = eval_at(a1, x);
        let eb1 = eval_at(b1, x);
        let eb = eval_at(b, x);
        assert(eb == b[0] + x * eb1);
        assert(eval_at(c, x) == a[0] * b[0] + x * (a[0] * eb1 + ea1 * eb));
        assert(eval_at(a, x) * eval_at(b, x) == (a[0] + x * ea1) * eb);
        assert(a[0] * b[0] + x * (a[0] * eb1 + ea1 * eb) == (a[0] + x * ea1) * (b[0] + x * eb1))
            by (nonlinear_arith)
        requires
            eb == b[0] + x * eb1,
        ;
    }
}

/// Beyond the combined length the convolution is zero.
pub(crate) proof fn lemma_conv_sum_beyond(a: Seq<int>, b: Seq<int>, k: int)
    requires
        k >= a.len() + b.len() - 1,
    ensures
        conv_at(a, b, k) == 0,
{
    lemma_conv_sum_beyond_n(a, b, k, a.len() as int);
}

proof fn lemma_conv_sum_beyond_n(a: Seq<int>, b: Seq<int>, k: int, n: int)
    requires
        k >= a.len() + b.len() - 1,
        n <= a.len(),
    ensures
        conv_sum(a, b, k, n) == 0,
    decreases n,
{
    if n > 0 {
        lemma_conv_sum_beyond_n(a, b, k, n - 1);
        assert(coeff_or_zero(b, k - (n - 1)) == 0);
        vstd::arithmetic::mul::lemma_mul_by_zero_is_zero(a[n - 1]);
    }
}

/// A one-coefficient polynomial evaluates to that coefficient.
pub proof fn lemma_eval_single(c: int, x: int)
    ensures
        eval_at(seq![c], x) == c,
{
    assert(seq![c].subrange(1, seq![c].len() as int) =~= Seq::<int>::empty());
    assert(eval_at(Seq::<int>::empty(), x) == 0);
    vstd::arithmetic::mul::lemma_mul_by_zero_is_zero(x);
}

/// A two-coefficient polynomial evaluates linearly.
pub proof fn lemma_eval_pair(c0: int, c1: int, x: int)
    ensures
        eval_at(seq![c0, c1], x) == c0 + x * c1,
{
    assert(seq![c0, c1].subrange(1, seq![c0, c1].len() as int) =~= seq![c1]);
    lemma_eval_single(c1, x);
}

/// Coefficientwise congruent sequences evaluate to congruent values.
pub proof fn lemma_eval_congruent(u: Seq<int>, v: Seq<int>, x: int, m: int)
    requires
        0 < m,
        u.len() == v.len(),
        forall|k: int| 0 <= k < u.len() ==> u[k] % m == v[k] % m,
    ensures
        eval_at(u, x) % m == eval_at(v, x) % m,
    decreases u.len(),
{
    if u.len() > 0 {
        let u1 = u.drop_first();
        let v1 = v.drop_first();
        assert forall|k: int| 0 <= k < u1.len() implies u1[k] % m == v1[k] % m by {
            assert(u1[k] == u[k + 1] && v1[k] == v[k + 1]);
        }
        lemma_eval_congruent(u1, v1, x, m);
        assert(u1 =~= u.subrange(1, u.len() as int));
        assert(v1 =~= v.subrange(1, v.len() as int));
        let eu = eval_at(u1, x);
        let ev = eval_at(v1, x);
        // x * eu and x * ev are congruent, and the heads are congruent.
        lemma_mul_mod_noop_right(x, eu, m);
        lemma_mul_mod_noop_right(x, ev, m);
        lemma_add_mod_noop(u[0], x * eu, m);
        lemma_add_mod_noop(v[0], x * ev, m);
        assert((u[0] + x * eu) % m == (v[0] + x * ev) % m);
    }
}

/// Law: multiplying polynomials then evaluating agrees with multiplying the
/// evaluations: `(p.mul(q)).evaluate(x) == p.evaluate(x).mul(q.evaluate(x))`,
/// stated over the values those contracts pin down.
pub proof fn lemma_mul_then_evaluate(p: Polynomial, q: Polynomial, r: Polynomial, x: int)
    requires
        p.wf(),
        q.wf(),
        r.wf(),
        q.modulus() == p.modulus(),
        r.modulus() == p.modulus(),
        r.coefficients@.len() == p.coefficients@.len() + q.coefficients@.len() - 1,
        forall|k: int|
            0 <= k < r.values().len() ==> #[trigger] r.values()[k] == conv_at(
                p.values(),
                q.values(),
                k,
            ) % p.modulus(),
    ensures
        eval_at(r.values(), x) % p.modulus() == (eval_at(p.values(), x) * eval_at(q.values(), x))
            % p.modulus(),
{
    let m = p.modulus();
    let c = Seq::new(r.values().len(), |k: int| conv_at(p.values(), q.values(), k));
    lemma_eval_conv(p.values(), q.values(), c, x);
    assert forall|k: int| 0 <= k < r.values().len() implies r.values()[k] % m == c[k] % m by {
        vstd::arithmetic::div_mod::lemma_mod_twice(c[k], m);
    }
    lemma_eval_congruent(r.values(), c, x, m);
    lemma_mul_mod_noop(eval_at(p.values(), x), eval_at(q.values(), x), m);
    vstd::arithmetic::div_mod::lemma_mod_twice(eval_at(p.values(), x) * eval_at(q.values(), x), m);
    lemma_mul_mod_noop_left(eval_at(p.values(), x), eval_at(q.values(), x), m);
    lemma_mul_mod_noop_right(eval_at(p.values(), x) % m, eval_at(q.values(), x), m);
}

/// `q`'s convolution with `t` matches `p` coefficient by coefficient,
/// modulo `m`.
pub open spec fn is_exact_quotient(q: Seq<int>, t: Seq<int>, p: Seq<int>, m: int) -> bool {
    forall|k: int| 0 <= k ==> (#[trigger] conv_at(q, t, k)) % m == coeff_or_zero(p, k) % m
}

/// `t` divides `p` exactly, modulo `m`: some quotient's convolution with `t`
/// matches `p` coefficient by coefficient.
pub open spec fn divides_mod(t: Seq<int>, p: Seq<int>, m: int) -> bool {
    exists|q: Seq<int>| is_exact_quotient(q, t, p, m)
}

/// Two left factors that agree on their first `n` entries give equal partial
/// convolutions.
proof fn lemma_conv_sum_prefix_equal(a: Seq<int>, b: Seq<int>, t: Seq<int>, k: int, n: int)
    requires
        n <= a.len(),
        n <= b.len(),
        forall|i: int| 0 <= i < n ==> a[i] == b[i],
    ensures
        conv_sum(a, t, k, n) == conv_sum(b, t, k, n),
    decreases n,
{
    if n > 0 {
        lemma_conv_sum_prefix_equal(a, b, t, k, n - 1);
    }
}

/// Zero entries past a point add nothing to a partial convolution.
proof fn lemma_conv_sum_zero_tail(a: Seq<int>, t: Seq<int>, k: int, n0: int, n1: int)
    requires
        0 <= n0 <= n1,
        forall|i: int| n0 <= i < n1 ==> a[i] == 0,
    ensures
        conv_sum(a, t, k, n1) == conv_sum(a, t, k, n0),
    decreases n1 - n0,
{
    if n1 > n0 {
        lemma_conv_sum_zero_tail(a, t, k, n0, n1 - 1);
        vstd::arithmetic::mul::lemma_mul_by_zero_is_zero(coeff_or_zero(t, k - (n1 - 1)));
    }
}

/// Zero-padding the left factor leaves every convolution coefficient as it
/// was.
pub(crate) proof fn lemma_conv_extend(q: Seq<int>, t: Seq<int>, k: int, le: int)
    requires
        le >= q.len(),
    ensures
        conv_at(Seq::new(le as nat, |i: int| coeff_or_zero(q, i)), t, k) == conv_at(q, t, k),
{
    let qe = Seq::new(le as nat, |i: int| coeff_or_zero(q, i));
    lemma_conv_sum_prefix_equal(qe, q, t, k, q.len() as int);
    lemma_conv_sum_zero_tail(qe, t, k, q.len() as int, le);
}

/// A pointwise difference of left factors subtracts partial convolutions.
proof fn lemma_conv_sum_sub(a: Seq<int>, b: Seq<int>, u: Seq<int>, t: Seq<int>, k: int, n: int)
    requires
        n <= u.len(),
        n <= a.len(),
        n <= b.len(),
        forall|i: int| 0 <= i < n ==> u[i] == a[i] - b[i],
    ensures
        conv_sum(u, t, k, n) == conv_sum(a, t, k, n) - conv_sum(b, t, k, n),
    decreases n,
{
    if n > 0 {
        lemma_conv_sum_sub(a, b, u, t, k, n - 1);
        vstd::arithmetic::mul::lemma_mul_is_distributive_sub_other_way(
            coeff_or_zero(t, k - (n - 1)),
            a[n - 1],
            b[n - 1],
        );
    }
}

/// A left factor congruent to zero everywhere gives convolutions congruent
/// to zero.
proof fn lemma_conv_sum_cong_zero(u: Seq<int>, t: Seq<int>, m: int, k: int, n: int)
    requires
        m >= 1,
        n <= u.len(),
        forall|i: int| 0 <= i < n ==> (#[trigger] u[i]) % m == 0,
    ensures
        conv_sum(u, t, k, n) % m == 0,
    decreases n,
{
    lemma_small_mod(0nat, m as nat);
    if n > 0 {
        lemma_conv_sum_cong_zero(u, t, m, k, n - 1);
        let c = conv_sum(u, t, k, n - 1);
        let term = u[n - 1] * coeff_or_zero(t, k - (n - 1));
        lemma_mul_mod_noop_left(u[n - 1], coeff_or_zero(t, k - (n - 1)), m);
        vstd::arithmetic::mul::lemma_mul_by_zero_is_zero(coeff_or_zero(t, k - (n - 1)));
        assert(term % m == 0);
        lemma_add_mod_noop(c, term, m);
        assert((c + term) % m == (c % m + term % m) % m);
    }
}

/// At position `du + dt` the convolution reduces to the single product of
/// the two leading terms, when everything above `du` on the left is
/// congruent to zero and everything above `dt` on the right is zero.
proof fn lemma_conv_sum_mod_spike(u: Seq<int>, t: Seq<int>, m: int, du: int, dt: int, n: int)
    requires
        m >= 1,
        0 <= dt < t.len(),
        0 <= du < u.len(),
        forall|i: int| du < i < u.len() ==> (#[trigger] u[i]) % m == 0,
        forall|j: int| dt < j < t.len() ==> t[j] == 0,
        n <= u.len(),
    ensures
        conv_sum(u, t, du + dt, n) % m == (if du < n {
            u[du] * t[dt]
        } else {
            0
        }) % m,
    decreases n,
{
    lemma_small_mod(0nat, m as nat);
    if n > 0 {
        lemma_conv_sum_mod_spike(u, t, m, du, dt, n - 1);
        let i = n - 1;
        let c = conv_sum(u, t, du + dt, n - 1);
        let term = u[i] * coeff_or_zero(t, du + dt - i);
        if i == du {
            assert(coeff_or_zero(t, du + dt - i) == t[dt]);
            lemma_add_mod_noop(c, term, m);
            lemma_add_mod_noop_right(c % m, term, m);
            assert((c + term) % m == (0 + term) % m);
        } else if i > du {
            lemma_mul_mod_noop_left(u[i], coeff_or_zero(t, du + dt - i), m);
            vstd::arithmetic::mul::lemma_mul_by_zero_is_zero(coeff_or_zero(t, du + dt - i));
            assert(term % m == 0);
            lemma_add_mod_noop(c, term, m);
            lemma_mod_twice(c, m);
            assert((c + term) % m == c % m);
        } else {
            assert(coeff_or_zero(t, du + dt - i) == 0);
            vstd::arithmetic::mul::lemma_mul_by_zero_is_zero(u[i]);
            assert(term == 0);
        }
    }
}

/// The soundness gate behind exact division: when `t`'s leading coefficient
/// is invertible and `t` divides `p` exactly, the remainder that the
/// division identity pairs with any quotient must vanish.
pub proof fn lemma_exact_division_remainder_zero(
    q: Seq<int>,
    t: Seq<int>,
    r: Seq<int>,
    p: Seq<int>,
    m: int,
)
    requires
        m >= 1,
        t.len() >= 1,
        t[true_degree(t)] >= 0,
        gcd(t[true_degree(t)] as nat, m as nat) == 1,
        forall|k: int| 0 <= k < r.len() ==> 0 <= #[trigger] r[k] < m,
        true_degree(r) < true_degree(t) || (forall|k: int| 0 <= k < r.len() ==> r[k] == 0),
        forall|k: int|
            0 <= k ==> ((#[trigger] conv_at(q, t, k)) + coeff_or_zero(r, k)) % m == coeff_or_zero(
                p,
                k,
            ) % m,
        divides_mod(t, p, m),
    ensures
        forall|k: int| 0 <= k < r.len() ==> r[k] == 0,
{
    if forall|k: int| 0 <= k < r.len() ==> r[k] == 0 {
    } else {
        let q2 = choose|q2: Seq<int>| is_exact_quotient(q2, t, p, m);
        let le = if q.len() >= q2.len() {
            q.len() as int
        } else {
            q2.len() as int
        };
        let qe = Seq::new(le as nat, |i: int| coeff_or_zero(q, i));
        let qe2 = Seq::new(le as nat, |i: int| coeff_or_zero(q2, i));
        let u = Seq::new(le as nat, |i: int| qe2[i] - qe[i]);
        // Each remainder coefficient is congruent to a convolution of the
        // quotient difference with t.
        assert forall|k: int| 0 <= k implies (#[trigger] conv_at(u, t, k)) % m == coeff_or_zero(
            r,
            k,
        ) % m by {
            lemma_conv_extend(q, t, k, le);
            lemma_conv_extend(q2, t, k, le);
            lemma_conv_sum_sub(qe2, qe, u, t, k, le);
            let cq = conv_at(q, t, k);
            let cq2 = conv_at(q2, t, k);
            let rk = coeff_or_zero(r, k);
            assert(conv_at(u, t, k) == cq2 - cq);
            // cq2 == cq + rk (mod m), so the difference is congruent to rk
            lemma_sub_mod_noop(cq2, cq, m);
            lemma_sub_mod_noop(cq + rk, cq, m);
            assert((cq2 - cq) % m == ((cq2 % m) - (cq % m)) % m);
            assert(((cq + rk) - cq) % m == (((cq + rk) % m) - (cq % m)) % m);
            lemma_mod_twice(cq2, m);
            lemma_mod_twice(cq + rk, m);
            assert(cq2 % m == (cq + rk) % m);
        }
        let ur = Seq::new(le as nat, |i: int| u[i] % m);
        if forall|i: int| 0 <= i < le ==> #[trigger] ur[i] == 0 {
            // The quotients agree modulo m, so the remainder is congruent to
            // zero everywhere, hence zero because it is reduced.
            assert forall|i: int| 0 <= i < le implies (#[trigger] u[i]) % m == 0 by {
                assert(ur[i] == 0);
            }
            assert forall|k: int| 0 <= k < r.len() implies r[k] == 0 by {
                lemma_conv_sum_cong_zero(u, t, m, k, le);
                assert(conv_at(u, t, k) % m == 0);
                assert(coeff_or_zero(r, k) == r[k]);
                lemma_small_mod(r[k] as nat, m as nat);
            }
        } else {
            // Some quotient-difference coefficient survives reduction; at the
            // matching position the product with t's leading coefficient
            // would have to appear in the remainder, above its degree.
            let iw = choose|i: int| 0 <= i < le && #[trigger] ur[i] != 0;
            assert(le >= 1);
            lemma_true_degree_properties(ur);
            let du = true_degree(ur);
            assert(ur[du] != 0) by {
                if ur[du] == 0 {
                    assert(du == 0);
                    assert(ur[iw] == 0);
                }
            }
            let dt = true_degree(t);
            lemma_true_degree_properties(t);
            let k0 = du + dt;
            assert forall|i: int| du < i < u.len() implies (#[trigger] u[i]) % m == 0 by {
                assert(ur[i] == 0);
            }
            lemma_conv_sum_mod_spike(u, t, m, du, dt, le);
            assert(conv_at(u, t, k0) % m == (u[du] * t[dt]) % m);
            // above its true degree the (reduced) remainder is zero
            assert(coeff_or_zero(r, k0) == 0) by {
                lemma_true_degree_properties(r);
                assert(true_degree(r) < true_degree(t));
            }
            lemma_small_mod(0nat, m as nat);
            assert((u[du] * t[dt]) % m == 0);
            // but t's leading coefficient is invertible, so u[du] itself
            // would have to reduce to zero
            crate::field::lemma_gcd_one_inverse(t[dt] as nat, m as nat);
            let w = choose|w: int|
                0 <= w < m && #[trigger] ((t[dt] * w) % m) == 1int % m;
            lemma_mul_mod_noop_right(u[du], t[dt] * w, m);
            lemma_mul_mod_noop_right(u[du], 1int % m, m);
            lemma_mul_mod_noop_right(u[du], 1int, m);
            assert((u[du] * (t[dt] * w)) % m == u[du] % m);
            lemma_mul_is_associative(u[du], t[dt], w);
            lemma_mul_mod_noop_left(u[du] * t[dt], w, m);
            vstd::arithmetic::mul::lemma_mul_by_zero_is_zero(w);
            assert(((u[du] * t[dt]) * w) % m == 0);
            assert(u[du] % m == 0);
            lemma_mod_twice(u[du], m);
            assert(false);
        }
    }
}

/// With an invertible leading divisor coefficient, the reduced exact
/// quotient of a fixed length is unique.
pub proof fn lemma_exact_quotient_unique(
    q1: Seq<int>,
    q2: Seq<int>,
    t: Seq<int>,
    p: Seq<int>,
    m: int,
)
    requires
        m >= 1,
        t.len() >= 1,
        t[true_degree(t)] >= 0,
        gcd(t[true_degree(t)] as nat, m as nat) == 1,
        forall|k: int| 0 <= k < q1.len() ==> 0 <= #[trigger] q1[k] < m,
        forall|k: int| 0 <= k < q2.len() ==> 0 <= #[trigger] q2[k] < m,
        is_exact_quotient(q1, t, p, m),
        is_exact_quotient(q2, t, p, m),
        q1.len() == q2.len(),
    ensures
        q1 == q2,
{
    let le = q1.len() as int;
    let u = Seq::new(le as nat, |i: int| q2[i] - q1[i]);
    lemma_small_mod(0nat, m as nat);
    assert forall|k: int| 0 <= k implies (#[trigger] conv_at(u, t, k)) % m == 0 by {
        lemma_conv_sum_sub(q2, q1, u, t, k, le);
        let c1 = conv_at(q1, t, k);
        let c2 = conv_at(q2, t, k);
        assert(c1 % m == coeff_or_zero(p, k) % m);
        assert(c2 % m == coeff_or_zero(p, k) % m);
        lemma_sub_mod_noop(c2, c1, m);
        assert((c2 - c1) % m == ((c2 % m) - (c1 % m)) % m);
    }
    let ur = Seq::new(le as nat, |i: int| u[i] % m);
    if exists|i: int| 0 <= i < le && #[trigger] ur[i] != 0 {
        let iw = choose|i: int| 0 <= i < le && #[trigger] ur[i] != 0;
        lemma_true_degree_properties(ur);
        let du = true_degree(ur);
        assert(ur[du] != 0) by {
            if ur[du] == 0 {
                assert(du == 0);
                assert(ur[iw] == 0);
            }
        }
        let dt = true_degree(t);
        lemma_true_degree_properties(t);
        let k0 = du + dt;
        assert forall|i: int| du < i < u.len() implies (#[trigger] u[i]) % m == 0 by {
            assert(ur[i] == 0);
        }
        lemma_conv_sum_mod_spike(u, t, m, du, dt, le);
        assert(conv_at(u, t, k0) == conv_sum(u, t, k0, le));
        assert(conv_at(u, t, k0) % m == 0);
        assert((u[du] * t[dt]) % m == 0);
        crate::field::lemma_gcd_one_inverse(t[dt] as nat, m as nat);
        let w = choose|w: int| 0 <= w < m && #[trigger] ((t[dt] * w) % m) == 1int % m;
        lemma_mul_mod_noop_right(u[du], t[dt] * w, m);
        lemma_mul_mod_noop_right(u[du], 1int % m, m);
        lemma_mul_mod_noop_right(u[du], 1int, m);
        assert((u[du] * (t[dt] * w)) % m == u[du] % m);
        lemma_mul_is_associative(u[du], t[dt], w);
        lemma_mul_mod_noop_left(u[du] * t[dt], w, m);
        vstd::arithmetic::mul::lemma_mul_by_zero_is_zero(w);
        assert(u[du] % m == 0);
        lemma_mod_twice(u[du], m);
        assert(false);
    }
    assert forall|i: int| 0 <= i < le implies q1[i] == q2[i] by {
        assert(ur[i] == 0);
        let d = q2[i] - q1[i];
        assert(d % m == 0);
        if d > 0 {
            lemma_small_mod(d as nat, m as nat);
        } else if d < 0 {
            vstd::arithmetic::div_mod::lemma_mod_add_multiples_vanish(d, m);
            lemma_small_mod((d + m) as nat, m as nat);
        }
    }
    assert(q1 =~= q2);
}

/// Law: polynomial addition is commutative, coefficient by coefficient, as
/// `add` states its result.
pub proof fn lemma_padded_add_commutes(a: Seq<int>, b: Seq<int>, k: int, m: int)
    ensures
        (coeff_or_zero(a, k) + coeff_or_zero(b, k)) % m == (coeff_or_zero(b, k) + coeff_or_zero(
            a,
            k,
        )) % m,
{
}

/// A copy of a coefficient vector, element by element.
fn copy_elements(v: &Vec<FieldElement>) -> (out: Vec<FieldElement>)
    ensures
        out@ == v@,
{
    let mut out: Vec<FieldElement> = Vec::new();
    let mut i: usize = 0;
    while i < v.len()
        invariant
            i <= v@.len(),
            out@.len() == i,
            forall|j: int| 0 <= j < i ==> out@[j] == v@[j],
        decreases v@.len() - i,
    {
        out.push(v[i]);
        i += 1;
    }
    proof {
        assert(out@ =~= v@);
    }
    out
}

/// A vector of `len` zero elements over `modulus`.
pub(crate) fn zero_vec(modulus: u64, len: usize) -> (v: Vec<FieldElement>)
    requires
        modulus >= 1,
    ensures
        v@.len() == len,
        forall|i: int| 0 <= i < len ==> v@[i] == (FieldElement { value: 0u64, modulus }),
{
    let mut v: Vec<FieldElement> = Vec::new();
    let mut i: usize = 0;
    while i < len
        invariant
            i <= len,
            v@.len() == i,
            forall|j: int| 0 <= j < i ==> v@[j] == (FieldElement { value: 0u64, modulus }),
        decreases len - i,
    {
        v.push(FieldElement { value: 0, modulus });
        i += 1;
    }
    v
}

impl Polynomial {
    /// The shared modulus of the coefficients.
    pub open spec fn modulus(self) -> int {
        self.coefficients[0].modulus as int
    }

    /// The coefficient values, low degree first, as plain integers.
    pub open spec fn values(self) -> Seq<int> {
        values_of(self.coefficients@)
    }

    /// A usable polynomial: non-empty, one positive modulus throughout.
    pub open spec fn wf(self) -> bool {
        &&& self.coefficients.len() >= 1
        &&& self.modulus() >= 1
        &&& forall|i: int|
            0 <= i < self.coefficients.len() ==> (#[trigger] self.coefficients[i]).modulus as int
                == self.modulus()
    }

    /// Creates a new polynomial from its coefficients, low degree first.
    ///
    /// Fails when the list is empty or the coefficients' moduli differ.
    pub fn new(coefficients: Vec<FieldElement>) -> (r: Result<Self, ZKError>)
        ensures
            r is Ok <==> (coefficients@.len() >= 1 && forall|i: int|
                0 <= i < coefficients@.len() ==> (#[trigger] coefficients@[i]).modulus
                    == coefficients@[0].modulus),
            r is Ok ==> r->Ok_0.coefficients@ == coefficients@,
            r is Err ==> r->Err_0 == ZKError::PolynomialError,
    {
        if coefficients.len() == 0 {
            return Err(ZKError::PolynomialError);
        }
        let modulus = coefficients[0].modulus;
        let mut i: usize = 1;
        while i < coefficients.len()
            invariant
                1 <= i <= coefficients@.len(),
                modulus == coefficients@[0].modulus,
                forall|j: int| 0 <= j < i ==> (#[trigger] coefficients@[j]).modulus == modulus,
            decreases coefficients@.len() - i,
        {
            if coefficients[i].modulus != modulus {
                return Err(ZKError::PolynomialError);
            }
            i += 1;
        }
        Ok(Self { coefficients })
    }

    /// Returns the degree of the polynomial: the highest index with a
    /// non-zero coefficient, floored at zero.
    pub fn degree(&self) -> (d: usize)
        requires
            self.coefficients.len() >= 1,
        ensures
            d == true_degree(self.values()),
            d < self.coefficients@.len(),
    {
        let mut deg = self.coefficients.len() - 1;
        while deg > 0 && self.coefficients[deg].value == 0
            invariant
                0 <= deg < self.coefficients.len(),
                forall|j: int| deg < j < self.values().len() ==> self.values()[j] == 0,
            decreases deg,
        {
            deg -= 1;
        }
        proof {
            lemma_true_degree_is(self.values(), deg as int);
        }
        deg
    }

    /// Evaluates the polynomial at `x` by Horner's method; the result is the
    /// reduced value of the integer polynomial at `x.value`.
    pub fn evaluate(&self, x: &FieldElement) -> (r: Result<FieldElement, ZKError>)
        requires
            self.wf(),
            x.wf(),
        ensures
            r is Ok <==> self.modulus() == x.modulus,
            r is Err ==> r->Err_0 == ZKError::PolynomialError,
            r is Ok ==> r->Ok_0.modulus as int == self.modulus()
                && r->Ok_0.value == eval_at(self.values(), x.value as int) % self.modulus(),
    {
        if self.coefficients[0].modulus != x.modulus {
            return Err(ZKError::PolynomialError);
        }
        let m = x.modulus;
        let mut result = FieldElement { value: 0, modulus: m };
        let ghost s = self.values();
        let ghost xv = x.value as int;
        let mut i = self.coefficients.len();
        proof {
            assert(s.subrange(i as int, s.len() as int) =~= Seq::<int>::empty());
            lemma_small_mod(0nat, m as nat);
        }
        while i > 0
            invariant
                self.wf(),
                x.wf(),
                m == x.modulus,
                self.modulus() == m as int,
                s == self.values(),
                xv == x.value as int,
                i <= self.coefficients.len(),
                result.modulus == m,
                result.value == eval_at(s.subrange(i as int, s.len() as int), xv) % (m as int),
            decreases i,
        {
            i -= 1;
            let ghost e_tail = eval_at(s.subrange(i + 1, s.len() as int), xv);
            let stepped = match result.mul(x) {
                Ok(f) => f,
                Err(e) => return Err(e),
            };
            let coeff = self.coefficients[i];
            result = match stepped.add(&coeff) {
                Ok(f) => f,
                Err(e) => return Err(e),
            };
            proof {
                let mm = m as int;
                let tail = s.subrange(i as int, s.len() as int);
                assert(tail[0] == s[i as int]);
                assert(tail.subrange(1, tail.len() as int) =~= s.subrange(
                    i + 1,
                    s.len() as int,
                ));
                assert(eval_at(tail, xv) == s[i as int] + xv * e_tail);
                lemma_mul_mod_noop_left(e_tail, xv, mm);
                lemma_mul_is_commutative(e_tail, xv);
                assert(stepped.value == (e_tail * xv) % mm);
                lemma_add_mod_noop(e_tail * xv, s[i as int], mm);
                lemma_add_mod_noop_right((e_tail * xv) % mm, s[i as int], mm);
                assert(result.value == (xv * e_tail + s[i as int]) % mm);
            }
        }
        proof {
            assert(s.subrange(0, s.len() as int) =~= s);
        }
        Ok(result)
    }

    /// Adds two polynomials elementwise over the zero-padded union of their
    /// lengths; the result keeps the longer length, trailing zeros included.
    pub fn add(&self, other: &Polynomial) -> (r: Result<Polynomial, ZKError>)
        requires
            self.wf(),
            other.wf(),
        ensures
            r is Ok <==> self.modulus() == other.modulus(),
            r is Err ==> r->Err_0 == ZKError::PolynomialError,
            r is Ok ==> {
                let out = r->Ok_0;
                &&& out.wf()
                &&& out.modulus() == self.modulus()
                &&& out.coefficients@.len() == if self.coefficients@.len()
                    >= other.coefficients@.len() {
                    self.coefficients@.len()
                } else {
                    other.coefficients@.len()
                }
                &&& forall|k: int|
                    0 <= k < out.values().len() ==> #[trigger] out.values()[k] == (coeff_or_zero(
                        self.values(),
                        k,
                    ) + coeff_or_zero(other.values(), k)) % self.modulus()
            },
    {
        if self.coefficients[0].modulus != other.coefficients[0].modulus {
            return Err(ZKError::PolynomialError);
        }
        let modulus = self.coefficients[0].modulus;
        let n = self.coefficients.len();
        let p = other.coefficients.len();
        let max_len = if n >= p {
            n
        } else {
            p
        };
        let mut sum: Vec<FieldElement> = Vec::new();
        let zero = FieldElement { value: 0, modulus };
        let mut k: usize = 0;
        while k < max_len
            invariant
                self.wf(),
                other.wf(),
                self.modulus() == modulus as int,
                other.modulus() == modulus as int,
                zero == (FieldElement { value: 0u64, modulus }),
                n == self.coefficients@.len(),
                p == other.coefficients@.len(),
                max_len == if n >= p {
                    n
                } else {
                    p
                },
                k <= max_len,
                sum@.len() == k,
                forall|j: int|
                    0 <= j < k ==> (#[trigger] sum@[j]).modulus == modulus && sum@[j].value as int
                        == (coeff_or_zero(self.values(), j) + coeff_or_zero(other.values(), j))
                        % (modulus as int),
            decreases max_len - k,
        {
            let a = if k < n {
                self.coefficients[k]
            } else {
                zero
            };
            let b = if k < p {
                other.coefficients[k]
            } else {
                zero
            };
            let c = match a.add(&b) {
                Ok(f) => f,
                Err(e) => return Err(e),
            };
            sum.push(c);
            k += 1;
        }
        let out = Self { coefficients: sum };
        proof {
            assert(out.values().len() == max_len);
        }
        Ok(out)
    }

    /// Subtracts `other` from `self` elementwise over the zero-padded union
    /// of their lengths.
    pub fn sub(&self, other: &Polynomial) -> (r: Result<Polynomial, ZKError>)
        requires
            self.wf(),
            other.wf(),
        ensures
            r is Ok <==> self.modulus() == other.modulus(),
            r is Err ==> r->Err_0 == ZKError::PolynomialError,
            r is Ok ==> {
                let out = r->Ok_0;
                &&& out.wf()
                &&& out.modulus() == self.modulus()
                &&& out.coefficients@.len() == if self.coefficients@.len()
                    >= other.coefficients@.len() {
                    self.coefficients@.len()
                } else {
                    other.coefficients@.len()
                }
                &&& forall|k: int|
                    0 <= k < out.values().len() ==> #[trigger] out.values()[k] == (coeff_or_zero(
                        self.values(),
                        k,
                    ) - coeff_or_zero(other.values(), k)) % self.modulus()
            },
    {
        if self.coefficients[0].modulus != other.coefficients[0].modulus {
            return Err(ZKError::PolynomialError);
        }
        let modulus = self.coefficients[0].modulus;
        let n = self.coefficients.len();
        let p = other.coefficients.len();
        let max_len = if n >= p {
            n
        } else {
            p
        };
        let mut diff: Vec<FieldElement> = Vec::new();
        let zero = FieldElement { value: 0, modulus };
        let mut k: usize = 0;
        while k < max_len
            invariant
                self.wf(),
                other.wf(),
                self.modulus() == modulus as int,
                other.modulus() == modulus as int,
                zero == (FieldElement { value: 0u64, modulus }),
                n == self.coefficients@.len(),
                p == other.coefficients@.len(),
                max_len == if n >= p {
                    n
                } else {
                    p
                },
                k <= max_len,
                diff@.len() == k,
                forall|j: int|
                    0 <= j < k ==> (#[trigger] diff@[j]).modulus == modulus && diff@[j].value as int
                        == (coeff_or_zero(self.values(), j) - coeff_or_zero(other.values(), j))
                        % (modulus as int),
            decreases max_len - k,
        {
            let a = if k < n {
                self.coefficients[k]
            } else {
                zero
            };
            let b = if k < p {
                other.coefficients[k]
            } else {
                zero
            };
            let c = match a.sub(&b) {
                Ok(f) => f,
                Err(e) => return Err(e),
            };
            diff.push(c);
            k += 1;
        }
        let out = Self { coefficients: diff };
        proof {
            assert(out.values().len() == max_len);
        }
        Ok(out)
    }

    /// Multiplies two polynomials by full convolution; the result has length
    /// `len(self) + len(other) - 1`.
    pub fn mul(&self, other: &Polynomial) -> (r: Result<Polynomial, ZKError>)
        requires
            self.wf(),
            other.wf(),
            self.coefficients@.len() + other.coefficients@.len() <= usize::MAX,
        ensures
            r is Ok <==> self.modulus() == other.modulus(),
            r is Err ==> r->Err_0 == ZKError::PolynomialError,
            r is Ok ==> {
                let out = r->Ok_0;
                &&& out.wf()
                &&& out.modulus() == self.modulus()
                &&& out.coefficients@.len() == self.coefficients@.len()
                    + other.coefficients@.len() - 1
                &&& forall|k: int|
                    0 <= k < out.values().len() ==> #[trigger] out.values()[k] == conv_at(
                        self.values(),
                        other.values(),
                        k,
                    ) % self.modulus()
            },
    {
        if self.coefficients[0].modulus != other.coefficients[0].modulus {
            return Err(ZKError::PolynomialError);
        }
        let modulus = self.coefficients[0].modulus;
        let n = self.coefficients.len();
        let p = other.coefficients.len();
        let ghost a = self.values();
        let ghost b = other.values();
        let ghost mm = modulus as int;
        let len = n + p - 1;
        let mut product = zero_vec(modulus, len);
        proof {
            lemma_small_mod(0nat, modulus as nat);
        }
        let mut i: usize = 0;
        while i < n
            invariant
                self.wf(),
                other.wf(),
                self.modulus() == modulus as int,
                other.modulus() == modulus as int,
                mm == modulus as int,
                a == self.values(),
                b == other.values(),
                n == a.len(),
                p == b.len(),
                1 <= n,
                1 <= p,
                n + p <= usize::MAX,
                len == n + p - 1,
                i <= n,
                product@.len() == len,
                forall|k: int|
                    0 <= k < len ==> (#[trigger] product@[k]).modulus == modulus
                        && product@[k].value as int == conv_sum(a, b, k, i as int) % mm,
            decreases n - i,
        {
            let mut j: usize = 0;
            while j < p
                invariant
                    self.wf(),
                    other.wf(),
                    self.modulus() == modulus as int,
                    other.modulus() == modulus as int,
                    mm == modulus as int,
                    a == self.values(),
                    b == other.values(),
                    n == a.len(),
                    p == b.len(),
                    1 <= n,
                    1 <= p,
                    n + p <= usize::MAX,
                    len == n + p - 1,
                    i < n,
                    j <= p,
                    product@.len() == len,
                    forall|k: int|
                        0 <= k < len ==> (#[trigger] product@[k]).modulus == modulus
                            && product@[k].value as int == (conv_sum(a, b, k, i as int) + if i <= k
                            < i + j {
                            a[i as int] * b[k - i]
                        } else {
                            0
                        }) % mm,
                decreases p - j,
            {
                let prod = match self.coefficients[i].mul(&other.coefficients[j]) {
                    Ok(f) => f,
                    Err(e) => return Err(e),
                };
                let idx = i + j;
                let entry = match product[idx].add(&prod) {
                    Ok(f) => f,
                    Err(e) => return Err(e),
                };
                proof {
                    let k = idx as int;
                    let c = conv_sum(a, b, k, i as int);
                    lemma_add_mod_noop_right(c % mm, a[i as int] * b[k - i], mm);
                    lemma_add_mod_noop(c, a[i as int] * b[k - i], mm);
                    assert(entry.value as int == (c + a[i as int] * b[k - i]) % mm);
                }
                product.set(idx, entry);
                j += 1;
            }
            proof {
                assert forall|k: int| 0 <= k < len implies product@[k].value as int == conv_sum(
                    a,
                    b,
                    k,
                    i + 1,
                ) % mm by {
                    assert(conv_sum(a, b, k, i + 1) == conv_sum(a, b, k, i as int) + a[i as int]
                        * coeff_or_zero(b, k - i));
                    if i <= k < i + p {
                        assert(coeff_or_zero(b, k - i) == b[k - i]);
                    } else {
                        assert(coeff_or_zero(b, k - i) == 0);
                    }
                }
            }
            i += 1;
        }
        let out = Self { coefficients: product };
        proof {
            assert(out.values().len() == len);
        }
        Ok(out)
    }

    /// Synthetic long division: returns the quotient and the remainder.
    ///
    /// Division does not itself judge divisibility; the remainder comes back
    /// for the caller to inspect. The reduced coefficients of
    /// `quotient * other + remainder` agree with the dividend's coefficients
    /// modulo the shared modulus, and the remainder's true degree lies below
    /// the divisor's unless the remainder is all zero. Fails when the moduli
    /// differ, or when the division would run (the dividend's true degree
    /// reaches the divisor's with a non-zero leading coefficient there) and
    /// the divisor's leading coefficient has no modular inverse.
    pub fn div(&self, other: &Polynomial) -> (r: Result<(Polynomial, Polynomial), ZKError>)
        requires
            self.wf(),
            other.wf(),
            self.coefficients@.len() + other.coefficients@.len() <= usize::MAX,
        ensures
            r is Err <==> (self.modulus() != other.modulus() || (true_degree(self.values())
                >= true_degree(other.values()) && self.values()[true_degree(self.values())] != 0
                && gcd(
                other.values()[true_degree(other.values())] as nat,
                self.coefficients[0].modulus as nat,
            ) != 1)),
            r is Err ==> r->Err_0 == ZKError::PolynomialError,
            r is Ok ==> {
                let quot = r->Ok_0.0;
                let rem = r->Ok_0.1;
                &&& quot.wf()
                &&& rem.wf()
                &&& quot.modulus() == self.modulus()
                &&& rem.modulus() == self.modulus()
                &&& quot.coefficients@.len() == 1 + if true_degree(self.values()) >= true_degree(
                    other.values(),
                ) {
                    true_degree(self.values()) - true_degree(other.values())
                } else {
                    0
                }
                &&& forall|k: int|
                    0 <= k ==> (#[trigger] conv_at(quot.values(), other.values(), k)
                        + coeff_or_zero(rem.values(), k)) % self.modulus() == coeff_or_zero(
                        self.values(),
                        k,
                    ) % self.modulus()
                &&& (true_degree(rem.values()) < true_degree(other.values()) || (forall|k: int|
                    0 <= k < rem.values().len() ==> rem.values()[k] == 0))
                &&& (!(true_degree(self.values()) >= true_degree(other.values())
                    && self.values()[true_degree(self.values())] != 0) ==> rem.values()
                    == self.values() && (forall|k: int|
                    0 <= k < quot.values().len() ==> #[trigger] quot.values()[k] == 0))
                &&& forall|k: int|
                    0 <= k < quot.values().len() ==> 0 <= #[trigger] quot.values()[k]
                        < self.modulus()
                &&& (rem.values() == self.values() || (forall|k: int|
                    0 <= k < rem.values().len() ==> #[trigger] rem.values()[k] < self.modulus()))
            },
    {
        let modulus = self.coefficients[0].modulus;
        if modulus != other.coefficients[0].modulus {
            return Err(ZKError::PolynomialError);
        }
        let ghost pp = self.values();
        let ghost dv = other.values();
        let ghost mm = modulus as int;
        let dd = other.degree();
        let dp = self.degree();
        proof {
            lemma_true_degree_properties(pp);
            lemma_true_degree_properties(dv);
        }
        let quotient_size = (if dp >= dd {
            dp - dd
        } else {
            0
        }) + 1;
        let mut quotient = zero_vec(modulus, quotient_size);
        let remainder = Polynomial { coefficients: copy_elements(&self.coefficients) };
        proof {
            lemma_small_mod(0nat, modulus as nat);
            assert(remainder.values() =~= pp);
            assert forall|k: int| 0 <= k implies (#[trigger] conv_at(values_of(quotient@), dv, k)
                + coeff_or_zero(remainder.values(), k)) % mm == coeff_or_zero(pp, k) % mm by {
                lemma_conv_sum_zero(values_of(quotient@), dv, k, quotient@.len() as int);
            }
        }
        if !(dp >= dd && self.coefficients[dp].value != 0) {
            proof {
                lemma_true_degree_properties(pp);
                if dp >= dd {
                    // A zero leading coefficient forces the whole dividend to
                    // be zero.
                    assert(dp == 0);
                    assert(forall|k: int| 0 <= k < pp.len() ==> pp[k] == 0);
                }
            }
            return Ok((Polynomial { coefficients: quotient }, remainder));
        }
        let lead_divisor = other.coefficients[dd];
        let inv_d = match lead_divisor.inv() {
            Ok(f) => f,
            Err(_) => {
                return Err(ZKError::PolynomialError);
            },
        };
        let mut remainder = remainder;
        let mut dr = dp;
        proof {
            assert(lead_divisor.value as int == dv[dd as int]);
        }
        let mut lead = remainder.coefficients[dr];
        while dr >= dd && lead.value != 0
            invariant
                self.wf(),
                other.wf(),
                modulus == self.coefficients[0].modulus,
                mm == modulus as int,
                pp == self.values(),
                dv == other.values(),
                other.modulus() == mm,
                dd == true_degree(dv),
                dd < dv.len(),
                dp == true_degree(pp),
                dp >= dd,
                dp < pp.len(),
                self.coefficients@.len() + other.coefficients@.len() <= usize::MAX,
                inv_d.modulus == modulus,
                (dv[dd as int] * inv_d.value) % mm == 1int % mm,
                remainder.wf(),
                remainder.modulus() == mm,
                dr == true_degree(remainder.values()),
                dr < remainder.coefficients@.len(),
                dr <= dp,
                lead == remainder.coefficients@[dr as int],
                quotient@.len() == quotient_size,
                quotient_size == 1 + dp - dd,
                forall|j: int| 0 <= j < quotient@.len() ==> (#[trigger] quotient@[j]).modulus
                    == modulus && quotient@[j].value < modulus,
                forall|k: int| 0 <= k ==> (#[trigger] conv_at(values_of(quotient@), dv, k)
                    + coeff_or_zero(remainder.values(), k)) % mm == coeff_or_zero(pp, k) % mm,
                remainder.values() == pp || (forall|k: int|
                    0 <= k < remainder.values().len() ==> #[trigger] remainder.values()[k] < mm),
            decreases true_degree(remainder.values()) + if remainder.values()[true_degree(
                remainder.values(),
            )] != 0 {
                1int
            } else {
                0int
            },
        {
            let ghost rv = remainder.values();
            let deg_diff = dr - dd;
            let ghost s = deg_diff as int;
            let factor = match lead.mul(&inv_d) {
                Ok(f) => f,
                Err(e) => return Err(e),
            };
            let mut factor_poly_coefficients = zero_vec(modulus, deg_diff);
            factor_poly_coefficients.push(factor);
            let factor_poly = Polynomial { coefficients: factor_poly_coefficients };
            let ghost oldq = values_of(quotient@);
            let q_entry = match quotient[deg_diff].add(&factor) {
                Ok(f) => f,
                Err(e) => return Err(e),
            };
            quotient.set(deg_diff, q_entry);
            let subtrahend = match factor_poly.mul(other) {
                Ok(f) => f,
                Err(e) => return Err(e),
            };
            let new_remainder = match remainder.sub(&subtrahend) {
                Ok(f) => f,
                Err(e) => return Err(e),
            };
            proof {
                let newq = values_of(quotient@);
                let nrv = new_remainder.values();
                let fv = factor.value as int;
                let fpv = factor_poly.values();
                let sv = subtrahend.values();
                let ev = q_entry.value as int;
                lemma_true_degree_properties(dv);
                lemma_true_degree_properties(rv);
                lemma_small_mod(0nat, modulus as nat);
                assert(newq =~= oldq.update(s, ev));
                assert(fpv.len() == s + 1 && fpv[s] == fv);
                assert(forall|i: int| 0 <= i < s ==> fpv[i] == 0);
                // Every subtrahend coefficient is the factor times the shifted
                // divisor coefficient, reduced.
                assert forall|k: int| 0 <= k implies coeff_or_zero(sv, k) == (fv * coeff_or_zero(
                    dv,
                    k - s,
                )) % mm by {
                    if k < sv.len() {
                        lemma_conv_sum_spike(fpv, dv, k, s + 1, s);
                        assert(sv[k] == conv_at(fpv, dv, k) % mm);
                    } else {
                        assert(coeff_or_zero(dv, k - s) == 0);
                        vstd::arithmetic::mul::lemma_mul_by_zero_is_zero(fv);
                        lemma_small_mod(0nat, modulus as nat);
                    }
                }
                // The updated quotient entry stands for adding the factor.
                assert((ev - oldq[s]) % mm == fv % mm) by {
                    lemma_sub_mod_noop_right((oldq[s] + fv) % mm, oldq[s], mm);
                    lemma_sub_mod_noop(oldq[s] + fv, oldq[s], mm);
                }
                // The division identity is preserved.
                assert forall|k: int| 0 <= k implies (#[trigger] conv_at(newq, dv, k)
                    + coeff_or_zero(nrv, k)) % mm == coeff_or_zero(pp, k) % mm by {
                    lemma_conv_sum_update(oldq, dv, k, oldq.len() as int, s, ev);
                    let dk = coeff_or_zero(dv, k - s);
                    let delta = ev - oldq[s];
                    let cq = conv_at(oldq, dv, k);
                    let rk = coeff_or_zero(rv, k);
                    let sk = coeff_or_zero(sv, k);
                    assert(conv_at(newq, dv, k) == cq + delta * dk);
                    // delta * dk and sk agree modulo mm
                    lemma_mul_mod_noop_left(delta, dk, mm);
                    lemma_mul_mod_noop_left(fv, dk, mm);
                    assert((delta * dk) % mm == (fv * dk) % mm);
                    lemma_mod_bound(fv * dk, mm);
                    lemma_small_mod(sk as nat, modulus as nat);
                    lemma_sub_mod_noop(delta * dk, sk, mm);
                    assert((delta * dk - sk) % mm == 0);
                    if k < nrv.len() {
                        assert(coeff_or_zero(nrv, k) == (rk - sk) % mm);
                        lemma_add_mod_noop_right(cq + delta * dk, rk - sk, mm);
                        assert((conv_at(newq, dv, k) + coeff_or_zero(nrv, k)) % mm == (cq + delta
                            * dk + rk - sk) % mm);
                        let w = delta * dk - sk;
                        vstd::arithmetic::div_mod::lemma_fundamental_div_mod(w, mm);
                        vstd::arithmetic::div_mod::lemma_mod_multiples_vanish(
                            w / mm,
                            cq + rk,
                            mm,
                        );
                        assert((cq + rk + w) % mm == (cq + rk) % mm);
                    } else {
                        // beyond the new remainder both tails are zero
                        assert(k >= rv.len() && k >= sv.len());
                        assert(rk == 0);
                        assert(sk == 0);
                        assert((fv * dk) % mm == 0);
                        let w = delta * dk;
                        vstd::arithmetic::div_mod::lemma_fundamental_div_mod(w, mm);
                        vstd::arithmetic::div_mod::lemma_mod_multiples_vanish(
                            w / mm,
                            cq + rk,
                            mm,
                        );
                        assert((cq + delta * dk) % mm == cq % mm);
                    }
                }
                // Everything at or above the old true degree cancels.
                assert forall|k: int| dr <= k implies coeff_or_zero(nrv, k) == 0 by {
                    let rk = coeff_or_zero(rv, k);
                    let sk = coeff_or_zero(sv, k);
                    let dk = coeff_or_zero(dv, k - s);
                    if k == dr {
                        assert(rk == lead.value as int);
                        assert(dk == dv[dd as int]);
                        // factor * lead divisor reduces to the old leading
                        // coefficient
                        lemma_mul_mod_noop_left(lead.value * inv_d.value, dk, mm);
                        lemma_mul_is_associative(lead.value as int, inv_d.value as int, dk);
                        lemma_mul_mod_noop_right(lead.value as int, inv_d.value * dk, mm);
                        lemma_mul_is_commutative(inv_d.value as int, dk);
                        lemma_mul_mod_noop_right(lead.value as int, 1int % mm, mm);
                        vstd::arithmetic::div_mod::lemma_mod_mod(1, 1, mm);
                        assert((lead.value * (1int % mm)) % mm == (lead.value * 1) % mm) by {
                            lemma_mul_mod_noop_right(lead.value as int, 1, mm);
                        }
                        assert(sk == (lead.value as int) % mm);
                        if k < nrv.len() {
                            lemma_sub_mod_noop_right(lead.value as int, lead.value as int, mm);
                            assert(coeff_or_zero(nrv, k) == (rk - sk) % mm);
                            assert((rk - sk) % mm == 0);
                        }
                    } else {
                        assert(rk == 0);
                        assert(dk == 0);
                        assert(sk == (fv * 0) % mm);
                        assert(sk == 0);
                        if k < nrv.len() {
                            assert(coeff_or_zero(nrv, k) == (0int - 0int) % mm);
                        }
                    }
                }
                // The new remainder is reduced.
                assert forall|k: int| 0 <= k < nrv.len() implies #[trigger] nrv[k] < mm by {
                    lemma_mod_bound(
                        coeff_or_zero(rv, k) - coeff_or_zero(sv, k),
                        mm,
                    );
                }
                // The true degree strictly drops (or the remainder is zero).
                lemma_true_degree_properties(nrv);
                if true_degree(nrv) >= dr {
                    assert(coeff_or_zero(nrv, true_degree(nrv)) == 0);
                    assert(nrv[true_degree(nrv)] == 0);
                    assert(true_degree(nrv) == 0);
                }
            }
            remainder = new_remainder;
            dr = remainder.degree();
            proof {
                lemma_true_degree_properties(remainder.values());
            }
            lead = remainder.coefficients[dr];
        }
        let quot = Polynomial { coefficients: quotient };
        proof {
            assert(quot.values().len() == quotient_size);
            lemma_true_degree_properties(remainder.values());
            if !(dr < dd) {
                // the loop stopped on a zero leading coefficient, so the
                // remainder is all zero
                assert(remainder.values()[dr as int] == 0);
                assert(dr == 0);
            }
        }
        Ok((quot, remainder))
    }

    /// Scales every coefficient by `scalar`, which must carry the
    /// polynomial's modulus.
    pub fn scale(&self, scalar: &FieldElement) -> (r: Result<Polynomial, ZKError>)
        requires
            self.wf(),
            scalar.wf(),
            scalar.modulus as int == self.modulus(),
        ensures
            r is Ok,
            ({
                let out = r->Ok_0;
                &&& out.wf()
                &&& out.modulus() == self.modulus()
                &&& out.coefficients@.len() == self.coefficients@.len()
                &&& forall|k: int|
                    0 <= k < out.values().len() ==> #[trigger] out.values()[k] == (self.values()[k]
                        * scalar.value) % self.modulus()
            }),
    {
        let modulus = self.coefficients[0].modulus;
        let n = self.coefficients.len();
        let mut scaled: Vec<FieldElement> = Vec::new();
        let mut k: usize = 0;
        while k < n
            invariant
                self.wf(),
                scalar.wf(),
                scalar.modulus == modulus,
                self.modulus() == modulus as int,
                n == self.coefficients@.len(),
                k <= n,
                scaled@.len() == k,
                forall|j: int|
                    0 <= j < k ==> (#[trigger] scaled@[j]).modulus == modulus
                        && scaled@[j].value as int == (self.values()[j] * scalar.value) % (
                    modulus as int),
            decreases n - k,
        {
            let c = match self.coefficients[k].mul(scalar) {
                Ok(f) => f,
                Err(e) => return Err(e),
            };
            scaled.push(c);
            k += 1;
        }
        Ok(Self { coefficients: scaled })
    }
}

} // verus!
