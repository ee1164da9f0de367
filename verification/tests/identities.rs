use zkqap::field::FieldElement;
use zkqap::polynomial::Polynomial;

#[test]
fn test_add_then_sub_returns_original() {
    let a = FieldElement::new(41, 97).unwrap();
    let b = FieldElement::new(88, 97).unwrap();
    let back = a.add(&b).unwrap().sub(&b).unwrap();
    assert_eq!(back, a);
}

#[test]
fn test_field_mul_commutative() {
    let a = FieldElement::new(41, 97).unwrap();
    let b = FieldElement::new(88, 97).unwrap();
    assert_eq!(a.mul(&b).unwrap(), b.mul(&a).unwrap());
}

#[test]
fn test_inv_succeeds_iff_coprime() {
    // gcd(4, 8) = 4: no inverse.
    let a = FieldElement::new(4, 8).unwrap();
    assert!(a.inv().is_err());
    // gcd(3, 8) = 1: inverse exists and cancels.
    let b = FieldElement::new(3, 8).unwrap();
    let b_inv = b.inv().unwrap();
    assert_eq!(b.mul(&b_inv).unwrap().value, 1);
    // Zero has no inverse over a modulus above one.
    let z = FieldElement::new(0, 7).unwrap();
    assert!(z.inv().is_err());
}

#[test]
fn test_exp_zero_is_identity() {
    let a = FieldElement::new(12, 97).unwrap();
    assert_eq!(a.exp(0).unwrap().value, 1);
}

#[test]
fn test_exp_adds_exponents() {
    let a = FieldElement::new(12, 97).unwrap();
    let whole = a.exp(11).unwrap();
    let split = a.exp(4).unwrap().mul(&a.exp(7).unwrap()).unwrap();
    assert_eq!(whole, split);
}

fn poly(values: &[u64], modulus: u64) -> Polynomial {
    let coefficients = values
        .iter()
        .map(|&v| FieldElement::new(v, modulus).unwrap())
        .collect();
    Polynomial::new(coefficients).unwrap()
}

#[test]
fn test_poly_add_commutative() {
    let p = poly(&[1, 2, 3], 97);
    let q = poly(&[5, 7], 97);
    let pq = p.add(&q).unwrap();
    let qp = q.add(&p).unwrap();
    for k in 0..pq.coefficients.len() {
        assert_eq!(pq.coefficients[k], qp.coefficients[k]);
    }
}

#[test]
fn test_poly_mul_commutative() {
    let p = poly(&[1, 2, 3], 97);
    let q = poly(&[5, 7], 97);
    let pq = p.mul(&q).unwrap();
    let qp = q.mul(&p).unwrap();
    assert_eq!(pq.coefficients.len(), qp.coefficients.len());
    for k in 0..pq.coefficients.len() {
        assert_eq!(pq.coefficients[k], qp.coefficients[k]);
    }
}

#[test]
fn test_mul_then_evaluate_is_ring_homomorphism() {
    let p = poly(&[3, 0, 4], 97);
    let q = poly(&[9, 2], 97);
    let product = p.mul(&q).unwrap();
    for xv in 0..20 {
        let x = FieldElement::new(xv, 97).unwrap();
        let lhs = product.evaluate(&x).unwrap();
        let rhs = p.evaluate(&x).unwrap().mul(&q.evaluate(&x).unwrap()).unwrap();
        assert_eq!(lhs, rhs);
    }
}

#[test]
fn test_div_reconstructs_dividend() {
    // x^2 + 5x + 7 = (x + 3)(x + 2) + 1: quotient x + 3, remainder 1.
    let p = poly(&[7, 5, 1], 97);
    let d = poly(&[2, 1], 97);
    let (quotient, remainder) = p.div(&d).unwrap();
    assert_eq!(quotient.coefficients[0].value, 3);
    assert_eq!(quotient.coefficients[1].value, 1);
    assert_eq!(remainder.coefficients[0].value, 1);
    // The remainder's true degree lies below the divisor's.
    assert!(remainder.degree() < d.degree());
    // quotient * d + remainder reproduces p.
    let recombined = quotient.mul(&d).unwrap().add(&remainder).unwrap();
    for k in 0..p.coefficients.len() {
        assert_eq!(recombined.coefficients[k], p.coefficients[k]);
    }
}

#[test]
fn test_degree_of_zero_polynomial() {
    let z = poly(&[0, 0, 0], 97);
    assert_eq!(z.degree(), 0);
    let p = poly(&[1, 0, 2, 0], 97);
    assert_eq!(p.degree(), 2);
}
