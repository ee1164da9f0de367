use zkqap::curve::{EllipticCurve, EllipticCurvePoint};
use zkqap::field::FieldElement;

fn get_test_values() -> (EllipticCurve, EllipticCurvePoint) {
    let modulus = 97;

    // Test curve with the equation y^2 = x^3 + 2x + 3.
    let curve = EllipticCurve {
        a: FieldElement::new(2, modulus).unwrap(),
        b: FieldElement::new(3, modulus).unwrap(),
    };

    // Test point that lies on the curve.
    let x = FieldElement::new(3, modulus).unwrap();
    let y = FieldElement::new(6, modulus).unwrap();
    let point = EllipticCurvePoint::Point { x, y };

    return (curve, point);
}

#[test]
fn test_is_on_curve() {
    let (curve, point) = get_test_values();
    let on_curve = curve.is_on_curve(&point).unwrap();
    assert_eq!(on_curve, true);
}

#[test]
fn test_add_points_identity() {
    let (curve, point) = get_test_values();
    let identity = EllipticCurvePoint::Infinity;
    let result = curve.add_points(&point, &identity).unwrap();
    assert_eq!(result, point);
}

#[test]
fn test_mul_scalar_zero() {
    let (curve, point) = get_test_values();
    let result = curve.mul_scalar(&point, 0).unwrap();
    assert_eq!(result, EllipticCurvePoint::Infinity);
}

#[test]
fn test_mul_scalar() {
    let (curve, point) = get_test_values();
    // P + P
    let double = curve.add_points(&point, &point).unwrap();
    // 2P
    let mul_scalar_result = curve.mul_scalar(&point, 2).unwrap();
    // P + P = 2P
    assert_eq!(double, mul_scalar_result);
}
