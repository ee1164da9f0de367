use vstd::prelude::*;
use vstd::arithmetic::div_mod::{
    lemma_add_mod_noop, lemma_add_mod_noop_right, lemma_fundamental_div_mod,
    lemma_mod_add_multiples_vanish, lemma_mod_bound, lemma_mod_twice,
    lemma_mul_mod_noop, lemma_mul_mod_noop_left, lemma_mul_mod_noop_right, lemma_small_mod,
    lemma_sub_mod_noop, lemma_sub_mod_noop_right,
};
use vstd::arithmetic::mul::{lemma_mul_is_associative, lemma_mul_is_distributive_sub_other_way,
    lemma_mul_upper_bound};
use vstd::arithmetic::power::{lemma_pow_adds, lemma_pow_mod_noop, lemma_pow_multiplies, pow};
use crate::errors::ZKError;

verus! {

/// An element of the ring of integers modulo `modulus`.
///
/// Construction does not reduce `value` into `[0, modulus)`; every arithmetic
/// operation returns a reduced result. A modulus of zero never arises from
/// `new`, and all operations require a positive modulus.
#[derive(Debug, Clone, Copy, PartialEq, Eq, Structural)]
pub struct FieldElement {
    pub value: u64,
    pub modulus: u64,
}

/// Greatest common divisor by Euclid's scheme; `gcd(0, b) == b`.
pub open spec fn gcd(a: nat, b: nat) -> nat
    decreases a,
{
    if a == 0 {
        b
    } else {
        gcd(b % a, a)
    }
}

impl FieldElement {
    /// A usable element: its modulus is positive.
    pub open spec fn wf(self) -> bool {
        self.modulus >= 1
    }

    /// Creates a new field element with value and modulus.
    ///
    /// The value is stored as given, without reduction modulo `modulus`.
    pub fn new(value: u64, modulus: u64) -> (r: Result<Self, ZKError>)
        ensures
            r is Ok <==> modulus != 0,
            r is Ok ==> r->Ok_0 == (FieldElement { value, modulus }),
            r is Err ==> r->Err_0 == ZKError::InvalidFieldElement,
    {
        if modulus == 0 {
            return Err(ZKError::InvalidFieldElement);
        }
        Ok(FieldElement { value, modulus })
    }

    /// Adds two field elements; the result is reduced into `[0, modulus)`.
    pub fn add(&self, other: &FieldElement) -> (r: Result<Self, ZKError>)
        requires
            self.wf(),
            other.wf(),
        ensures
            r is Ok <==> self.modulus == other.modulus,
            r is Err ==> r->Err_0 == ZKError::InvalidFieldElement,
            r is Ok ==> r->Ok_0.modulus == self.modulus
                && r->Ok_0.value == (self.value + other.value) % (self.modulus as int),
    {
        if self.modulus != other.modulus {
            return Err(ZKError::InvalidFieldElement);
        }
        let m = self.modulus as u128;
        let v = ((self.value as u128 + other.value as u128) % m) as u64;
        Ok(FieldElement { value: v, modulus: self.modulus })
    }

    /// Subtracts `other` from `self`; the result is reduced into `[0, modulus)`.
    pub fn sub(&self, other: &FieldElement) -> (r: Result<Self, ZKError>)
        requires
            self.wf(),
            other.wf(),
        ensures
            r is Ok <==> self.modulus == other.modulus,
            r is Err ==> r->Err_0 == ZKError::InvalidFieldElement,
            r is Ok ==> r->Ok_0.modulus == self.modulus
                && r->Ok_0.value == (self.value - other.value) % (self.modulus as int),
    {
        if self.modulus != other.modulus {
            return Err(ZKError::InvalidFieldElement);
        }
        let m = self.modulus as u128;
        // Reduce both operands, then add the modulus before subtracting so the
        // difference never goes below zero.
        let a = self.value as u128 % m;
        let b = other.value as u128 % m;
        let v = ((a + m - b) % m) as u64;
        proof {
            let mi = self.modulus as int;
            let av = self.value as int;
            let bv = other.value as int;
            lemma_mod_bound(av, mi);
            lemma_mod_bound(bv, mi);
            lemma_mod_add_multiples_vanish(av % mi - bv % mi, mi);
            lemma_sub_mod_noop(av, bv, mi);
            assert((av % mi + mi - bv % mi) % mi == (av - bv) % mi);
        }
        Ok(FieldElement { value: v, modulus: self.modulus })
    }

    /// Multiplies two field elements; the result is reduced into `[0, modulus)`.
    pub fn mul(&self, other: &FieldElement) -> (r: Result<Self, ZKError>)
        requires
            self.wf(),
            other.wf(),
        ensures
            r is Ok <==> self.modulus == other.modulus,
            r is Err ==> r->Err_0 == ZKError::InvalidFieldElement,
            r is Ok ==> r->Ok_0.modulus == self.modulus
                && r->Ok_0.value == (self.value * other.value) % (self.modulus as int),
    {
        if self.modulus != other.modulus {
            return Err(ZKError::InvalidFieldElement);
        }
        let m = self.modulus as u128;
        let a = self.value as u128;
        let b = other.value as u128;
        proof {
            lemma_mul_upper_bound(a as int, u64::MAX as int, b as int, u64::MAX as int);
        }
        let v = ((a * b) % m) as u64;
        Ok(FieldElement { value: v, modulus: self.modulus })
    }

    /// Finds the modular inverse of the field element by the extended
    /// Euclidean algorithm.
    ///
    /// Succeeds exactly when `gcd(value, modulus) == 1`; the result is the
    /// unique representative in `[0, modulus)` whose product with `value` is
    /// congruent to one.
    pub fn inv(&self) -> (r: Result<Self, ZKError>)
        requires
            self.wf(),
        ensures
            r is Ok <==> gcd(self.value as nat, self.modulus as nat) == 1,
            r is Err ==> r->Err_0 == ZKError::InvalidFieldElement,
            r is Ok ==> r->Ok_0.modulus == self.modulus
                && r->Ok_0.value < self.modulus
                && (self.value * r->Ok_0.value) % (self.modulus as int)
                    == 1int % (self.modulus as int),
    {
        let m = self.modulus;
        let a = self.value;
        let mi = m as u128;
        // Remainder sequence of Euclid's algorithm, alongside the Bezout
        // coefficient of `a`, kept reduced into [0, m).
        let mut r0: u64 = m;
        let mut r1: u64 = a;
        let mut t0: u64 = 0;
        let mut t1: u64 = 1 % m;
        proof {
            lemma_mul_mod_noop_left(1, a as int, m as int);
            vstd::arithmetic::div_mod::lemma_mod_self_0(m as int);
            lemma_small_mod(0nat, m as nat);
            assert((0int * a) % (m as int) == (m as int) % (m as int));
        }
        while r1 != 0
            invariant
                m >= 1,
                mi == m as u128,
                1 <= r0,
                t0 < m,
                t1 < m,
                gcd(r1 as nat, r0 as nat) == gcd(a as nat, m as nat),
                (t0 * a) % (m as int) == (r0 as int) % (m as int),
                (t1 * a) % (m as int) == (r1 as int) % (m as int),
            decreases r1,
        {
            let q = r0 / r1;
            let r2 = r0 % r1;
            proof {
                lemma_mul_upper_bound(q as int, u64::MAX as int, t1 as int, u64::MAX as int);
            }
            let qt = ((q as u128 * t1 as u128) % mi) as u64;
            let t2 = ((t0 as u128 + mi - qt as u128) % mi) as u64;
            proof {
                let qi = q as int;
                let mm = m as int;
                // The new remainder pair still has the gcd of (a, m).
                assert(gcd(r1 as nat, r0 as nat) == gcd((r0 % r1) as nat, r1 as nat));
                // t2 == t0 - q * t1 (mod m).
                lemma_mod_add_multiples_vanish(t0 - qt, mm);
                lemma_sub_mod_noop_right(t0 as int, qi * t1, mm);
                assert(t2 == (t0 - qi * t1) % mm);
                // (t0 - q * t1) * a == t0 * a - q * (t1 * a).
                lemma_mul_is_distributive_sub_other_way(a as int, t0 as int, qi * t1);
                lemma_mul_is_associative(qi, t1 as int, a as int);
                // q * (t1 * a) == q * r1 (mod m).
                lemma_mul_mod_noop_right(qi, t1 * a, mm);
                lemma_mul_mod_noop_right(qi, r1 as int, mm);
                // Combine into t2 * a == r0 - q * r1 == r2 (mod m).
                lemma_mul_mod_noop_left(t0 - qi * t1, a as int, mm);
                lemma_sub_mod_noop(t0 * a, qi * (t1 * a), mm);
                lemma_sub_mod_noop(r0 as int, qi * (r1 as int), mm);
                lemma_fundamental_div_mod(r0 as int, r1 as int);
                assert((t2 * a) % mm == (r2 as int) % mm);
            }
            r0 = r1;
            r1 = r2;
            t0 = t1;
            t1 = t2;
        }
        if r0 != 1 {
            return Err(ZKError::InvalidFieldElement);
        }
        proof {
            vstd::arithmetic::mul::lemma_mul_is_commutative(a as int, t0 as int);
        }
        Ok(FieldElement { value: t0, modulus: m })
    }

    /// Raises the field element to `exponent` by square-and-multiply.
    ///
    /// An exponent of zero yields the multiplicative identity.
    pub fn exp(&self, exponent: u64) -> (r: Result<Self, ZKError>)
        requires
            self.wf(),
        ensures
            r is Ok,
            r->Ok_0.modulus == self.modulus,
            r->Ok_0.value == exp_value(self.value as int, exponent as nat, self.modulus as int),
    {
        let m = self.modulus;
        let mut result = FieldElement::new(1, m)?;
        let mut base = *self;
        let mut e = exponent;
        while e > 0
            invariant
                m >= 1,
                result.modulus == m,
                base.modulus == m,
                (result.value * pow(base.value as int, e as nat)) % (m as int)
                    == pow(self.value as int, exponent as nat) % (m as int),
                exponent == 0 ==> (e == 0 && result.value == 1),
                (e == 0 && exponent > 0) ==> result.value < m,
                e > 0 ==> (result.value == 1 || result.value < m),
            decreases e,
        {
            let ghost r_old = result.value as int;
            let ghost b_old = base.value as int;
            let ghost e_old = e as nat;
            if e % 2 == 1 {
                result = result.mul(&base)?;
            }
            base = base.mul(&base)?;
            e = e / 2;
            proof {
                let mm = m as int;
                let e_new = e as nat;
                // The squared base stands for an exponent twice as large.
                lemma_pow_multiplies(b_old, 2, e_new);
                assert(pow(b_old, 2) == b_old * b_old) by {
                    vstd::arithmetic::power::lemma_pow1(b_old);
                    reveal_with_fuel(pow, 2);
                };
                lemma_pow_mod_noop(b_old * b_old, e_new, mm);
                assert(pow(base.value as int, e_new) % mm == pow(b_old, 2 * e_new) % mm);
                if e_old % 2 == 1 {
                    // pow(b, e_old) == b * pow(b, e_old - 1)
                    lemma_pow_adds(b_old, 1nat, (e_old - 1) as nat);
                    vstd::arithmetic::power::lemma_pow1(b_old);
                    assert(2 * e_new == e_old - 1);
                    // result picked up one factor of the base
                    lemma_mul_mod_noop_left(r_old * b_old, pow(base.value as int, e_new), mm);
                    lemma_mul_mod_noop_right(r_old * b_old, pow(base.value as int, e_new), mm);
                    lemma_mul_mod_noop_right(r_old * b_old, pow(b_old, 2 * e_new), mm);
                    lemma_mul_is_associative(r_old, b_old, pow(b_old, (e_old - 1) as nat));
                    assert((result.value * pow(base.value as int, e_new)) % mm
                        == (r_old * pow(b_old, e_old)) % mm);
                } else {
                    assert(2 * e_new == e_old);
                    lemma_mul_mod_noop_right(r_old, pow(base.value as int, e_new), mm);
                    lemma_mul_mod_noop_right(r_old, pow(b_old, 2 * e_new), mm);
                    assert((result.value * pow(base.value as int, e_new)) % mm
                        == (r_old * pow(b_old, e_old)) % mm);
                }
            }
        }
        proof {
            vstd::arithmetic::power::lemma_pow0(base.value as int);
            if exponent > 0 {
                lemma_mod_bound(pow(self.value as int, exponent as nat), m as int);
                lemma_small_mod(result.value as nat, m as nat);
            }
        }
        Ok(result)
    }
}

/// The value of exponentiation as the contracts state it: an exponent of zero
/// yields the stored identity value one (even when the modulus is one);
/// otherwise the reduced power.
pub open spec fn exp_value(v: int, e: nat, m: int) -> int {
    if e == 0 {
        1
    } else {
        pow(v, e) % m
    }
}

/// `x` and `y` witness Bezout's identity for `a` and `b`.
pub open spec fn is_bezout_pair(a: nat, b: nat, x: int, y: int) -> bool {
    a * x + b * y == gcd(a, b)
}

/// Bezout's identity: the gcd is an integer combination of its arguments.
pub proof fn lemma_bezout(a: nat, b: nat)
    requires
        b >= 1,
    ensures
        exists|x: int, y: int| is_bezout_pair(a, b, x, y),
    decreases a,
{
    if a == 0 {
        assert(is_bezout_pair(a, b, 0, 1)) by {
            vstd::arithmetic::mul::lemma_mul_by_zero_is_zero(a as int);
        }
    } else {
        let ba = b % a;
        lemma_bezout(ba, a);
        let (x2, y2) = choose|x2: int, y2: int| is_bezout_pair(ba, a, x2, y2);
        let q = b as int / a as int;
        lemma_fundamental_div_mod(b as int, a as int);
        assert(b % a == b - q * a);
        assert((b - q * a) * x2 + a * y2 == a * (y2 - q * x2) + b * x2) by (nonlinear_arith);
        assert(is_bezout_pair(a, b, y2 - q * x2, x2));
    }
}

/// An argument coprime to the modulus has a modular inverse.
pub proof fn lemma_gcd_one_inverse(a: nat, m: nat)
    requires
        m >= 1,
        gcd(a, m) == 1,
    ensures
        exists|w: int| 0 <= w < m && #[trigger] ((a * w) % (m as int)) == 1int % (m as int),
{
    lemma_bezout(a, m);
    let (x, y) = choose|x: int, y: int| is_bezout_pair(a, m, x, y);
    let mi = m as int;
    assert(a * x + mi * y == 1);
    assert(a * x == mi * (y * -1) + 1) by (nonlinear_arith)
        requires
            a * x + mi * y == 1,
    ;
    vstd::arithmetic::div_mod::lemma_mod_multiples_vanish(y * -1, 1, mi);
    assert((a * x) % mi == 1int % mi);
    let w = x % mi;
    lemma_mod_bound(x, mi);
    lemma_mul_mod_noop_right(a as int, x, mi);
    assert((a * w) % mi == 1int % mi);
}

/// Reducing the left operand of a sum before reducing the sum changes
/// nothing.
pub proof fn lemma_add_left_reduced(x: int, y: int, m: int)
    requires
        m >= 1,
    ensures
        ((x % m) + y) % m == (x + y) % m,
{
    lemma_add_mod_noop_right(x % m, y, m);
    lemma_add_mod_noop(x, y, m);
}

/// Reducing the left operand of a difference before reducing the difference
/// changes nothing.
pub proof fn lemma_sub_left_reduced(x: int, y: int, m: int)
    requires
        m >= 1,
    ensures
        ((x % m) - y) % m == (x - y) % m,
{
    lemma_sub_mod_noop_right(x % m, y, m);
    lemma_sub_mod_noop(x, y, m);
}

/// Reducing the first argument modulo the second leaves the gcd unchanged.
pub proof fn lemma_gcd_mod(x: nat, m: nat)
    requires
        m >= 1,
    ensures
        gcd(x % m, m) == gcd(x, m),
{
    if x == 0 {
    } else if x < m {
        lemma_small_mod(x, m);
    } else if x == m {
        assert(x % m == 0) by {
            vstd::arithmetic::div_mod::lemma_mod_self_0(m as int);
        }
        assert(gcd(x, m) == gcd(m % x, x));
        assert(m % x == 0) by {
            vstd::arithmetic::div_mod::lemma_mod_self_0(x as int);
        }
    } else {
        assert(m % x == m) by {
            lemma_small_mod(m, x);
        }
        assert(gcd(x, m) == gcd(m, x));
        assert(gcd(m, x) == gcd(x % m, m));
    }
}

/// Law: adding an element and then subtracting it again returns the original
/// element, for any two reduced elements over one modulus. The two sides are
/// stated as `add` and `sub` state their results.
pub proof fn lemma_add_then_sub_cancels(a: FieldElement, b: FieldElement)
    requires
        a.wf(),
        b.wf(),
        a.modulus == b.modulus,
        a.value < a.modulus,
    ensures
        ((a.value + b.value) % (a.modulus as int) - b.value) % (a.modulus as int) == a.value,
{
    let m = a.modulus as int;
    let x = a.value + b.value;
    let y = b.value as int;
    lemma_sub_mod_noop_right(x % m, y, m);
    lemma_sub_mod_noop(x, y, m);
    lemma_small_mod(a.value as nat, a.modulus as nat);
}

/// Law: multiplication of field elements is commutative, as `mul` states its
/// result.
pub proof fn lemma_mul_commutes(a: FieldElement, b: FieldElement)
    requires
        a.wf(),
        b.wf(),
        a.modulus == b.modulus,
    ensures
        (a.value * b.value) % (a.modulus as int) == (b.value * a.value) % (a.modulus as int),
{
    vstd::arithmetic::mul::lemma_mul_is_commutative(a.value as int, b.value as int);
}

/// Law: an element times its inverse is exactly one whenever the modulus is at
/// least two. The hypotheses on `i` are what `inv` states of its result; over
/// a modulus of one the product reduces to zero instead.
pub proof fn lemma_mul_by_inverse_is_one(a: FieldElement, i: FieldElement)
    requires
        a.wf(),
        a.modulus >= 2,
        i.modulus == a.modulus,
        i.value < i.modulus,
        (a.value * i.value) % (a.modulus as int) == 1int % (a.modulus as int),
    ensures
        (a.value * i.value) % (a.modulus as int) == 1,
{
    lemma_small_mod(1nat, a.modulus as nat);
}

/// Law: exponents add, as `exp` states its result: raising to `e1 + e2`
/// equals the reduced product of raising to `e1` and to `e2`, over any
/// modulus of at least two. (Over a modulus of one and exponents both zero
/// the two sides differ: the identity is stored unreduced as one.)
pub proof fn lemma_exp_adds(v: u64, e1: u64, e2: u64, m: u64)
    requires
        m >= 2,
    ensures
        exp_value(v as int, (e1 + e2) as nat, m as int) == (exp_value(v as int, e1 as nat, m as int)
            * exp_value(v as int, e2 as nat, m as int)) % (m as int),
{
    let mm = m as int;
    let vi = v as int;
    if e1 == 0 && e2 == 0 {
        lemma_small_mod(1nat, m as nat);
        assert(exp_value(vi, (e1 + e2) as nat, mm) == 1);
        assert((1int * 1int) % mm == 1);
    } else if e1 == 0 {
        lemma_mod_twice(pow(vi, e2 as nat), mm);
        assert((e1 + e2) as nat == e2 as nat);
        assert(1int * (pow(vi, e2 as nat) % mm) == pow(vi, e2 as nat) % mm);
    } else if e2 == 0 {
        lemma_mod_twice(pow(vi, e1 as nat), mm);
        assert((e1 + e2) as nat == e1 as nat);
        assert((pow(vi, e1 as nat) % mm) * 1int == pow(vi, e1 as nat) % mm);
    } else {
        lemma_pow_adds(vi, e1 as nat, e2 as nat);
        lemma_mul_mod_noop(pow(vi, e1 as nat), pow(vi, e2 as nat), mm);
        assert((e1 + e2) as nat == e1 as nat + e2 as nat);
        assert(pow(vi, (e1 + e2) as nat) == pow(vi, e1 as nat) * pow(vi, e2 as nat));
    }
}

} // verus!
