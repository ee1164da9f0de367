use vstd::prelude::*;
use vstd::arithmetic::div_mod::{
    lemma_add_mod_noop, lemma_add_mod_noop_right, lemma_mod_bound, lemma_mod_twice,
    lemma_mul_mod_noop, lemma_mul_mod_noop_left, lemma_mul_mod_noop_right, lemma_small_mod,
    lemma_sub_mod_noop, lemma_sub_mod_noop_right,
};
use vstd::arithmetic::mul::{lemma_mul_is_associative, lemma_mul_is_commutative};
use crate::errors::ZKError;
use crate::field::{gcd, FieldElement};

verus! {

/// A short Weierstrass curve `y^2 = x^3 + a*x + b` over one modulus.
#[derive(Debug, Clone)]
pub struct EllipticCurve {
    pub a: FieldElement,
    pub b: FieldElement,
}

/// A point on the curve: the identity, or an affine coordinate pair.
#[derive(Debug, Clone, Copy, PartialEq, Eq, Structural)]
pub enum EllipticCurvePoint {
    Infinity,
    Point { x: FieldElement, y: FieldElement },
}

/// The unique value in `[0, m)` whose product with `d` reduces to one, where
/// one exists.
pub open spec fn mod_inv(d: int, m: int) -> int {
    choose|w: int| 0 <= w < m && #[trigger] ((d * w) % m) == 1int % m
}

/// Modular inverses in `[0, m)` are unique.
pub proof fn lemma_mod_inverse_unique(d: int, m: int, w1: int, w2: int)
    requires
        m >= 1,
        0 <= w1 < m,
        0 <= w2 < m,
        (d * w1) % m == 1int % m,
        (d * w2) % m == 1int % m,
    ensures
        w1 == w2,
{
    // w1 == w1 * (d * w2) == (w1 * d) * w2 == w2 (mod m)
    lemma_mul_mod_noop_right(w1, d * w2, m);
    lemma_mul_mod_noop_right(w1, 1int % m, m);
    lemma_mul_mod_noop_right(w1, 1int, m);
    assert((w1 * (d * w2)) % m == w1 % m);
    lemma_mul_is_associative(w1, d, w2);
    lemma_mul_mod_noop_left(w1 * d, w2, m);
    lemma_mul_is_commutative(w1, d);
    lemma_mul_mod_noop_left(d * w1, w2, m);
    assert(((1int % m) * w2) % m == ((w1 * d) % m * w2) % m);
    lemma_mul_mod_noop_left(1int, w2, m);
    assert(((1int % m) * w2) % m == (1int * w2) % m);
    lemma_small_mod(w1 as nat, m as nat);
    lemma_small_mod(w2 as nat, m as nat);
}

/// The result of one curve addition, as values: the identity rules, the
/// vertical-reflection rule, and the chord/tangent formulas with the unique
/// inverse slope; `None` where the slope's denominator has no inverse.
pub open spec fn spec_add_points(
    av: int,
    m: int,
    p: EllipticCurvePoint,
    q: EllipticCurvePoint,
) -> Option<EllipticCurvePoint> {
    match (p, q) {
        (EllipticCurvePoint::Infinity, _) => Some(q),
        (_, EllipticCurvePoint::Infinity) => Some(p),
        (
            EllipticCurvePoint::Point { x: x1, y: y1 },
            EllipticCurvePoint::Point { x: x2, y: y2 },
        ) => {
            if x1 == x2 {
                if y1 == y2 && y1.value != 0 {
                    let num = ((3 * ((x1.value * x1.value) % m)) % m + av) % m;
                    let den = (2 * y1.value) % m;
                    if gcd(den as nat, m as nat) == 1 {
                        let s = (num * mod_inv(den, m)) % m;
                        let x3 = (s * s - 2 * x1.value) % m;
                        let y3 = (s * (x1.value - x3) - y1.value) % m;
                        Some(
                            EllipticCurvePoint::Point {
                                x: FieldElement { value: x3 as u64, modulus: m as u64 },
                                y: FieldElement { value: y3 as u64, modulus: m as u64 },
                            },
                        )
                    } else {
                        None
                    }
                } else {
                    Some(EllipticCurvePoint::Infinity)
                }
            } else {
                let num = (y2.value - y1.value) % m;
                let den = (x2.value - x1.value) % m;
                if gcd(den as nat, m as nat) == 1 {
                    let s = (num * mod_inv(den, m)) % m;
                    let x3 = (s * s - x1.value - x2.value) % m;
                    let y3 = (s * (x1.value - x3) - y1.value) % m;
                    Some(
                        EllipticCurvePoint::Point {
                            x: FieldElement { value: x3 as u64, modulus: m as u64 },
                            y: FieldElement { value: y3 as u64, modulus: m as u64 },
                        },
                    )
                } else {
                    None
                }
            }
        },
    }
}

/// The double-and-add state machine over `spec_add_points`, mirroring one
/// loop step per bit of the scalar.
pub open spec fn spec_mul_scalar(
    av: int,
    m: int,
    acc: EllipticCurvePoint,
    addend: EllipticCurvePoint,
    k: nat,
) -> Option<EllipticCurvePoint>
    decreases k,
{
    if k == 0 {
        Some(acc)
    } else {
        let acc2 = if k % 2 == 1 {
            spec_add_points(av, m, acc, addend)
        } else {
            Some(acc)
        };
        match acc2 {
            Option::None => None,
            Option::Some(acc3) => match spec_add_points(av, m, addend, addend) {
                Option::None => None,
                Option::Some(doubled) => spec_mul_scalar(av, m, acc3, doubled, k / 2),
            },
        }
    }
}

impl EllipticCurve {
    /// The curve's two parameters share one positive modulus.
    pub open spec fn wf(self) -> bool {
        &&& self.a.modulus >= 1
        &&& self.b.modulus == self.a.modulus
    }

    /// The point's coordinates carry the curve's modulus.
    pub open spec fn point_wf(self, p: EllipticCurvePoint) -> bool {
        match p {
            EllipticCurvePoint::Infinity => true,
            EllipticCurvePoint::Point { x, y } => x.modulus == self.a.modulus && y.modulus
                == self.a.modulus,
        }
    }

    /// Checks whether the point satisfies the curve equation; the identity
    /// always counts as on the curve.
    pub fn is_on_curve(&self, point: &EllipticCurvePoint) -> (r: Result<bool, ZKError>)
        requires
            self.wf(),
            self.point_wf(*point),
        ensures
            r is Ok,
            r->Ok_0 == match *point {
                EllipticCurvePoint::Infinity => true,
                EllipticCurvePoint::Point { x, y } => (y.value * y.value) % (
                self.a.modulus as int) == (x.value * x.value * x.value + x.value * self.a.value
                    + self.b.value) % (self.a.modulus as int),
            },
    {
        match point {
            EllipticCurvePoint::Infinity => Ok(true),
            EllipticCurvePoint::Point { x, y } => {
                let y2 = match y.mul(y) {
                    Ok(f) => f,
                    Err(e) => return Err(e),
                };
                let x3 = match x.mul(x) {
                    Ok(f) => f,
                    Err(e) => return Err(e),
                };
                let x3 = match x3.mul(x) {
                    Ok(f) => f,
                    Err(e) => return Err(e),
                };
                let ax = match x.mul(&self.a) {
                    Ok(f) => f,
                    Err(e) => return Err(e),
                };
                let rhs = match x3.add(&ax) {
                    Ok(f) => f,
                    Err(e) => return Err(e),
                };
                let rhs = match rhs.add(&self.b) {
                    Ok(f) => f,
                    Err(e) => return Err(e),
                };
                proof {
                    let mi = self.a.modulus as int;
                    let xv = x.value as int;
                    let av = self.a.value as int;
                    let bv = self.b.value as int;
                    lemma_mul_mod_noop_left(xv * xv, xv, mi);
                    lemma_add_mod_noop(xv * xv * xv, xv * av, mi);
                    crate::field::lemma_add_left_reduced(xv * xv * xv + xv * av, bv, mi);
                    assert(rhs.value == (xv * xv * xv + xv * av + bv) % mi);
                }
                Ok(y2 == rhs)
            },
        }
    }

    /// Adds two points by the chord/tangent group law. The identity is
    /// neutral; a vertical pair sums to the identity; otherwise the slope's
    /// denominator must have a modular inverse.
    pub fn add_points(&self, p: &EllipticCurvePoint, q: &EllipticCurvePoint) -> (r: Result<
        EllipticCurvePoint,
        ZKError,
    >)
        requires
            self.wf(),
            self.point_wf(*p),
            self.point_wf(*q),
        ensures
            r is Ok <==> spec_add_points(
                self.a.value as int,
                self.a.modulus as int,
                *p,
                *q,
            ) is Some,
            r is Ok ==> r->Ok_0 == spec_add_points(
                self.a.value as int,
                self.a.modulus as int,
                *p,
                *q,
            )->Some_0,
            r is Err ==> r->Err_0 == ZKError::InvalidFieldElement,
    {
        let m = self.a.modulus;
        let ghost mi = m as int;
        let ghost av = self.a.value as int;
        match (p, q) {
            (EllipticCurvePoint::Infinity, _) => Ok(q.clone()),
            (_, EllipticCurvePoint::Infinity) => Ok(p.clone()),
            (
                EllipticCurvePoint::Point { x: x1, y: y1 },
                EllipticCurvePoint::Point { x: x2, y: y2 },
            ) => {
                if x1 == x2 {
                    if y1 == y2 && y1.value != 0 {
                        // Tangent slope: (3*x1^2 + a) / (2*y1).
                        let three = FieldElement { value: 3, modulus: m };
                        let two = FieldElement { value: 2, modulus: m };
                        let x1sq = match x1.mul(x1) {
                            Ok(f) => f,
                            Err(e) => return Err(e),
                        };
                        let numerator = match three.mul(&x1sq) {
                            Ok(f) => f,
                            Err(e) => return Err(e),
                        };
                        let numerator = match numerator.add(&self.a) {
                            Ok(f) => f,
                            Err(e) => return Err(e),
                        };
                        let denominator = match two.mul(y1) {
                            Ok(f) => f,
                            Err(e) => return Err(e),
                        };
                        let den_inv = match denominator.inv() {
                            Ok(f) => f,
                            Err(e) => return Err(e),
                        };
                        let slope = match numerator.mul(&den_inv) {
                            Ok(f) => f,
                            Err(e) => return Err(e),
                        };
                        let ssq = match slope.mul(&slope) {
                            Ok(f) => f,
                            Err(e) => return Err(e),
                        };
                        let twox = match two.mul(x1) {
                            Ok(f) => f,
                            Err(e) => return Err(e),
                        };
                        let x3 = match ssq.sub(&twox) {
                            Ok(f) => f,
                            Err(e) => return Err(e),
                        };
                        let xdiff = match x1.sub(&x3) {
                            Ok(f) => f,
                            Err(e) => return Err(e),
                        };
                        let y3 = match slope.mul(&xdiff) {
                            Ok(f) => f,
                            Err(e) => return Err(e),
                        };
                        let y3 = match y3.sub(y1) {
                            Ok(f) => f,
                            Err(e) => return Err(e),
                        };
                        proof {
                            let x1v = x1.value as int;
                            let y1v = y1.value as int;
                            let num = ((3 * ((x1v * x1v) % mi)) % mi + av) % mi;
                            let den = (2 * y1v) % mi;
                            assert(numerator.value == num);
                            assert(denominator.value == den);
                            lemma_mod_bound(num, mi);
                            lemma_mod_bound(den, mi);
                            let w = den_inv.value as int;
                            let iw = mod_inv(den, mi);
                            assert(0 <= iw < mi && (den * iw) % mi == 1int % mi) by {
                                assert(0 <= w < mi && (den * w) % mi == 1int % mi);
                            }
                            lemma_mod_inverse_unique(den, mi, w, iw);
                            let s = slope.value as int;
                            assert(s == (num * iw) % mi);
                            // x3 and y3 follow the tangent formulas
                            lemma_mul_mod_noop(s, s, mi);
                            lemma_mod_twice(s * s, mi);
                            lemma_sub_mod_noop(s * s, 2 * x1v, mi);
                            lemma_mod_twice(s * s - 2 * x1v, mi);
                            assert(x3.value == (s * s - 2 * x1v) % mi);
                            let x3v = x3.value as int;
                            lemma_mul_mod_noop_right(s, x1v - x3v, mi);
                            crate::field::lemma_sub_left_reduced(s * (x1v - x3v), y1v, mi);
                            assert(y3.value == (s * (x1v - x3v) - y1v) % mi);
                        }
                        Ok(EllipticCurvePoint::Point { x: x3, y: y3 })
                    } else {
                        // Vertical reflections sum to the identity.
                        Ok(EllipticCurvePoint::Infinity)
                    }
                } else {
                    // Chord slope: (y2 - y1) / (x2 - x1).
                    let numerator = match y2.sub(y1) {
                        Ok(f) => f,
                        Err(e) => return Err(e),
                    };
                    let denominator = match x2.sub(x1) {
                        Ok(f) => f,
                        Err(e) => return Err(e),
                    };
                    let den_inv = match denominator.inv() {
                        Ok(f) => f,
                        Err(e) => return Err(e),
                    };
                    let slope = match numerator.mul(&den_inv) {
                        Ok(f) => f,
                        Err(e) => return Err(e),
                    };
                    let ssq = match slope.mul(&slope) {
                        Ok(f) => f,
                        Err(e) => return Err(e),
                    };
                    let x3 = match ssq.sub(x1) {
                        Ok(f) => f,
                        Err(e) => return Err(e),
                    };
                    let x3 = match x3.sub(x2) {
                        Ok(f) => f,
                        Err(e) => return Err(e),
                    };
                    let xdiff = match x1.sub(&x3) {
                        Ok(f) => f,
                        Err(e) => return Err(e),
                    };
                    let y3 = match slope.mul(&xdiff) {
                        Ok(f) => f,
                        Err(e) => return Err(e),
                    };
                    let y3 = match y3.sub(y1) {
                        Ok(f) => f,
                        Err(e) => return Err(e),
                    };
                    proof {
                        let x1v = x1.value as int;
                        let y1v = y1.value as int;
                        let x2v = x2.value as int;
                        let y2v = y2.value as int;
                        let num = (y2v - y1v) % mi;
                        let den = (x2v - x1v) % mi;
                        assert(numerator.value == num);
                        assert(denominator.value == den);
                        lemma_mod_bound(num, mi);
                        lemma_mod_bound(den, mi);
                        let w = den_inv.value as int;
                        let iw = mod_inv(den, mi);
                        assert(0 <= iw < mi && (den * iw) % mi == 1int % mi) by {
                            assert(0 <= w < mi && (den * w) % mi == 1int % mi);
                        }
                        lemma_mod_inverse_unique(den, mi, w, iw);
                        let s = slope.value as int;
                        assert(s == (num * iw) % mi);
                        lemma_mul_mod_noop(s, s, mi);
                        lemma_mod_twice(s * s, mi);
                        crate::field::lemma_sub_left_reduced(s * s, x1v, mi);
                        crate::field::lemma_sub_left_reduced(s * s - x1v, x2v, mi);
                        assert(x3.value == (s * s - x1v - x2v) % mi);
                        let x3v = x3.value as int;
                        lemma_mul_mod_noop_right(s, x1v - x3v, mi);
                        crate::field::lemma_sub_left_reduced(s * (x1v - x3v), y1v, mi);
                        assert(y3.value == (s * (x1v - x3v) - y1v) % mi);
                    }
                    Ok(EllipticCurvePoint::Point { x: x3, y: y3 })
                }
            },
        }
    }

    /// Multiplies a point by a scalar with double-and-add; a scalar of zero
    /// yields the identity.
    pub fn mul_scalar(&self, point: &EllipticCurvePoint, scalar: u64) -> (r: Result<
        EllipticCurvePoint,
        ZKError,
    >)
        requires
            self.wf(),
            self.point_wf(*point),
        ensures
            r is Ok <==> spec_mul_scalar(
                self.a.value as int,
                self.a.modulus as int,
                EllipticCurvePoint::Infinity,
                *point,
                scalar as nat,
            ) is Some,
            r is Ok ==> r->Ok_0 == spec_mul_scalar(
                self.a.value as int,
                self.a.modulus as int,
                EllipticCurvePoint::Infinity,
                *point,
                scalar as nat,
            )->Some_0,
            r is Err ==> r->Err_0 == ZKError::InvalidFieldElement,
    {
        let ghost mi = self.a.modulus as int;
        let ghost av = self.a.value as int;
        let mut result = EllipticCurvePoint::Infinity;
        let mut addend = point.clone();
        let mut k = scalar;
        while k > 0
            invariant
                self.wf(),
                mi == self.a.modulus as int,
                av == self.a.value as int,
                self.point_wf(result),
                self.point_wf(addend),
                spec_mul_scalar(av, mi, EllipticCurvePoint::Infinity, *point, scalar as nat)
                    == spec_mul_scalar(av, mi, result, addend, k as nat),
            decreases k,
        {
            let ghost result_old = result;
            let ghost addend_old = addend;
            let ghost k_old = k as nat;
            proof {
                assert(k & 1 == k % 2) by (bit_vector);
            }
            if k & 1 == 1 {
                result = match self.add_points(&result, &addend) {
                    Ok(f) => f,
                    Err(e) => {
                        proof {
                            assert(spec_mul_scalar(av, mi, result_old, addend_old, k_old)
                                is None);
                        }
                        return Err(e);
                    },
                };
            }
            addend = match self.add_points(&addend, &addend) {
                Ok(f) => f,
                Err(e) => {
                    proof {
                        assert(spec_mul_scalar(av, mi, result_old, addend_old, k_old) is None);
                    }
                    return Err(e);
                },
            };
            proof {
                assert(k >> 1 == k / 2) by (bit_vector);
                assert(spec_mul_scalar(av, mi, result_old, addend_old, k_old)
                    == spec_mul_scalar(av, mi, result, addend, (k_old / 2) as nat));
            }
            k = k >> 1;
        }
        Ok(result)
    }
}

} // verus!
