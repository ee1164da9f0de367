use vstd::prelude::*;
use crate::curve::{EllipticCurve, EllipticCurvePoint};
use crate::errors::ZKError;
use crate::field::FieldElement;

verus! {

/// The result of the stand-in pairing operation.
#[derive(Debug, Clone, Copy, PartialEq, Eq, Structural)]
pub struct Pairing {
    pub value: FieldElement,
}

/// The stand-in pairing's value: the identity when either point is the
/// identity, otherwise the reduced product of the two x-coordinates.
pub open spec fn spec_pairing(m: u64, p: EllipticCurvePoint, q: EllipticCurvePoint) -> FieldElement {
    match (p, q) {
        (
            EllipticCurvePoint::Point { x: x1, y: _ },
            EllipticCurvePoint::Point { x: x2, y: _ },
        ) => FieldElement {
            value: ((x1.value * x2.value) % (m as int)) as u64,
            modulus: m,
        },
        _ => FieldElement { value: 1u64, modulus: m },
    }
}

impl Pairing {
    /// Creates the stand-in pairing of two points over the curve's modulus.
    ///
    /// With either point at infinity the result is the field identity;
    /// otherwise it is the product of the points' x-coordinates.
    pub fn create(
        curve: &EllipticCurve,
        p: &EllipticCurvePoint,
        q: &EllipticCurvePoint,
    ) -> (r: Result<Self, ZKError>)
        requires
            curve.wf(),
            curve.point_wf(*p),
            curve.point_wf(*q),
        ensures
            r is Ok,
            r->Ok_0.value == spec_pairing(curve.a.modulus, *p, *q),
    {
        match (p, q) {
            (EllipticCurvePoint::Infinity, _) | (_, EllipticCurvePoint::Infinity) => {
                let value = match FieldElement::new(1, curve.a.modulus) {
                    Ok(f) => f,
                    Err(e) => return Err(e),
                };
                Ok(Pairing { value })
            },
            (
                EllipticCurvePoint::Point { x: x1, y: _ },
                EllipticCurvePoint::Point { x: x2, y: _ },
            ) => {
                let value = match x1.mul(x2) {
                    Ok(f) => f,
                    Err(e) => return Err(e),
                };
                Ok(Pairing { value })
            },
        }
    }
}

} // verus!
