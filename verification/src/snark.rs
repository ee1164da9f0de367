use vstd::prelude::*;
use crate::curve::{EllipticCurve, EllipticCurvePoint};
use crate::errors::ZKError;
use crate::field::FieldElement;
use crate::pairing::{spec_pairing, Pairing};
use crate::polynomial::true_degree;
use crate::qap::{agg_len, QAP};

verus! {

/// The common reference string of the stand-in proof system: two fixed
/// group elements.
pub struct CRS {
    pub g1: EllipticCurvePoint,
    pub g2: EllipticCurvePoint,
}

/// A proof: three group elements derived from the witness quotient.
pub struct Proof {
    pub a: EllipticCurvePoint,
    pub b: EllipticCurvePoint,
    pub c: EllipticCurvePoint,
}

/// The stand-in proof system around the QAP's witness quotient.
pub struct SNARK {}

/// The constant coefficient of the witness quotient polynomial: zero when
/// the division never runs, else the head of the unique reduced quotient.
pub open spec fn quotient_head(qap: QAP, w: Seq<FieldElement>) -> int {
    let p = qap.p_seq(w);
    let t = qap.target_polynomial.values();
    if true_degree(p) >= true_degree(t) && p[true_degree(p)] != 0 {
        qap.witness_quotient_seq(w)[0]
    } else {
        0
    }
}

/// A point with both coordinates multiplied by a scalar (a stand-in for a
/// real scalar multiplication); the identity stays the identity.
pub open spec fn spec_scale_point(p: EllipticCurvePoint, h0: int, m: u64) -> EllipticCurvePoint {
    match p {
        EllipticCurvePoint::Infinity => EllipticCurvePoint::Infinity,
        EllipticCurvePoint::Point { x, y } => EllipticCurvePoint::Point {
            x: FieldElement { value: ((x.value * h0) % (m as int)) as u64, modulus: m },
            y: FieldElement { value: ((y.value * h0) % (m as int)) as u64, modulus: m },
        },
    }
}

/// The coordinatewise sum of two affine points (a stand-in for the group
/// addition); the identity where either is the identity.
pub open spec fn spec_combine_points(
    p: EllipticCurvePoint,
    q: EllipticCurvePoint,
    m: u64,
) -> EllipticCurvePoint {
    match (p, q) {
        (
            EllipticCurvePoint::Point { x: x1, y: y1 },
            EllipticCurvePoint::Point { x: x2, y: y2 },
        ) => EllipticCurvePoint::Point {
            x: FieldElement { value: ((x1.value + x2.value) % (m as int)) as u64, modulus: m },
            y: FieldElement { value: ((y1.value + y2.value) % (m as int)) as u64, modulus: m },
        },
        _ => EllipticCurvePoint::Infinity,
    }
}

impl SNARK {
    /// Generates the fixed stand-in common reference string over the
    /// curve's modulus.
    pub fn trusted_setup(curve: &EllipticCurve) -> (r: Result<CRS, ZKError>)
        requires
            curve.wf(),
        ensures
            r is Ok,
            r->Ok_0.g1 == (EllipticCurvePoint::Point {
                x: FieldElement { value: 47u64, modulus: curve.a.modulus },
                y: FieldElement { value: 1u64, modulus: curve.a.modulus },
            }),
            r->Ok_0.g2 == (EllipticCurvePoint::Point {
                x: FieldElement { value: 2u64, modulus: curve.a.modulus },
                y: FieldElement { value: 1u64, modulus: curve.a.modulus },
            }),
    {
        let modulus = curve.a.modulus;

        // These values are chosen so that the stand-in pairing check accepts
        // the proof over the modulus used in the examples.
        let g1_x = match FieldElement::new(47, modulus) {
            Ok(f) => f,
            Err(e) => return Err(e),
        };
        let g1_y = match FieldElement::new(1, modulus) {
            Ok(f) => f,
            Err(e) => return Err(e),
        };
        let g2_x = match FieldElement::new(2, modulus) {
            Ok(f) => f,
            Err(e) => return Err(e),
        };
        let g2_y = match FieldElement::new(1, modulus) {
            Ok(f) => f,
            Err(e) => return Err(e),
        };

        let g1 = EllipticCurvePoint::Point { x: g1_x, y: g1_y };
        let g2 = EllipticCurvePoint::Point { x: g2_x, y: g2_y };

        Ok(CRS { g1, g2 })
    }

    /// Computes the witness quotient and commits to its constant coefficient
    /// through the stand-in group operations.
    pub fn create_proof(qap: &QAP, witness: &Vec<FieldElement>, crs: &CRS) -> (r: Result<
        Proof,
        ZKError,
    >)
        requires
            qap.wf(),
            1 <= witness@.len(),
            witness@.len() <= qap.a_polynomials@.len(),
            witness@.len() <= qap.b_polynomials@.len(),
            witness@.len() <= qap.c_polynomials@.len(),
            forall|i: int|
                0 <= i < witness@.len() ==> (#[trigger] witness@[i]).modulus as int
                    == qap.modulus(),
            agg_len(qap.a_polynomials@, witness@.len() as int) + agg_len(
                qap.b_polynomials@,
                witness@.len() as int,
            ) + agg_len(qap.c_polynomials@, witness@.len() as int)
                + qap.target_polynomial.coefficients@.len() <= usize::MAX,
            match crs.g1 {
                EllipticCurvePoint::Infinity => true,
                EllipticCurvePoint::Point { x, y } => x.modulus as int == qap.modulus()
                    && y.modulus as int == qap.modulus(),
            },
            match crs.g2 {
                EllipticCurvePoint::Infinity => true,
                EllipticCurvePoint::Point { x, y } => x.modulus as int == qap.modulus()
                    && y.modulus as int == qap.modulus(),
            },
        ensures
            r is Err ==> r->Err_0 == ZKError::PolynomialError,
            r is Err <==> qap.witness_quotient_fails(witness@),
            r is Ok ==> {
                let m = qap.target_polynomial.coefficients@[0].modulus;
                let h0 = quotient_head(*qap, witness@);
                &&& r->Ok_0.a == spec_scale_point(crs.g1, h0, m)
                &&& r->Ok_0.b == spec_scale_point(crs.g2, h0, m)
                &&& r->Ok_0.c == spec_combine_points(crs.g1, crs.g2, m)
            },
    {
        let h_polynomial = match qap.calculate_witness_quotient(witness) {
            Ok(f) => f,
            Err(e) => return Err(e),
        };
        let h0 = h_polynomial.coefficients[0];
        proof {
            assert(h0.value as int == quotient_head(*qap, witness@)) by {
                assert(h_polynomial.values()[0] == h0.value as int);
            }
        }
        let proof_a = match &crs.g1 {
            EllipticCurvePoint::Point { x, y } => {
                let sx = match x.mul(&h0) {
                    Ok(f) => f,
                    Err(e) => return Err(e),
                };
                let sy = match y.mul(&h0) {
                    Ok(f) => f,
                    Err(e) => return Err(e),
                };
                EllipticCurvePoint::Point { x: sx, y: sy }
            },
            EllipticCurvePoint::Infinity => EllipticCurvePoint::Infinity,
        };
        let proof_b = match &crs.g2 {
            EllipticCurvePoint::Point { x, y } => {
                let sx = match x.mul(&h0) {
                    Ok(f) => f,
                    Err(e) => return Err(e),
                };
                let sy = match y.mul(&h0) {
                    Ok(f) => f,
                    Err(e) => return Err(e),
                };
                EllipticCurvePoint::Point { x: sx, y: sy }
            },
            EllipticCurvePoint::Infinity => EllipticCurvePoint::Infinity,
        };
        let proof_c = match (&crs.g1, &crs.g2) {
            (
                EllipticCurvePoint::Point { x: x1, y: y1 },
                EllipticCurvePoint::Point { x: x2, y: y2 },
            ) => {
                let sx = match x1.add(x2) {
                    Ok(f) => f,
                    Err(e) => return Err(e),
                };
                let sy = match y1.add(y2) {
                    Ok(f) => f,
                    Err(e) => return Err(e),
                };
                EllipticCurvePoint::Point { x: sx, y: sy }
            },
            _ => EllipticCurvePoint::Infinity,
        };

        Ok(Proof { a: proof_a, b: proof_b, c: proof_c })
    }

    /// Checks the proof with the stand-in pairing: the pairing of the first
    /// element against `g2` must equal the product of the other two
    /// pairings.
    pub fn verify_proof(proof: &Proof, crs: &CRS, curve: &EllipticCurve) -> (r: Result<
        bool,
        ZKError,
    >)
        requires
            curve.wf(),
            curve.point_wf(proof.a),
            curve.point_wf(proof.b),
            curve.point_wf(proof.c),
            curve.point_wf(crs.g1),
            curve.point_wf(crs.g2),
        ensures
            r is Ok,
            r->Ok_0 == {
                let m = curve.a.modulus;
                spec_pairing(m, proof.a, crs.g2) == (FieldElement {
                    value: ((spec_pairing(m, proof.b, crs.g1).value * spec_pairing(
                        m,
                        proof.c,
                        crs.g2,
                    ).value) % (m as int)) as u64,
                    modulus: m,
                })
            },
    {
        let pairing_a = match Pairing::create(curve, &proof.a, &crs.g2) {
            Ok(f) => f,
            Err(e) => return Err(e),
        };
        let pairing_b = match Pairing::create(curve, &proof.b, &crs.g1) {
            Ok(f) => f,
            Err(e) => return Err(e),
        };
        let pairing_c = match Pairing::create(curve, &proof.c, &crs.g2) {
            Ok(f) => f,
            Err(e) => return Err(e),
        };
        let combined_value = match pairing_b.value.mul(&pairing_c.value) {
            Ok(f) => f,
            Err(e) => return Err(e),
        };
        let combined = Pairing { value: combined_value };
        Ok(pairing_a == combined)
    }
}

} // verus!
