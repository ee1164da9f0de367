use zkqap::circuit::{ConstraintSystem, LinearCombination, R1CSConstraint, Term};
use zkqap::errors::ZKError;
use zkqap::field::FieldElement;
use zkqap::polynomial::Polynomial;

#[test]
fn test_new_rejects_zero_modulus() {
    assert!(matches!(FieldElement::new(5, 0), Err(ZKError::InvalidFieldElement)));
}

#[test]
fn test_add_rejects_modulus_mismatch() {
    let a = FieldElement::new(1, 7).unwrap();
    let b = FieldElement::new(1, 11).unwrap();
    assert!(matches!(a.add(&b), Err(ZKError::InvalidFieldElement)));
    assert!(matches!(a.sub(&b), Err(ZKError::InvalidFieldElement)));
    assert!(matches!(a.mul(&b), Err(ZKError::InvalidFieldElement)));
}

#[test]
fn test_polynomial_new_rejects_empty() {
    assert!(matches!(Polynomial::new(Vec::new()), Err(ZKError::PolynomialError)));
}

#[test]
fn test_polynomial_new_rejects_mixed_moduli() {
    let coefficients = vec![
        FieldElement::new(1, 7).unwrap(),
        FieldElement::new(1, 11).unwrap(),
    ];
    assert!(matches!(Polynomial::new(coefficients), Err(ZKError::PolynomialError)));
}

#[test]
fn test_div_rejects_non_invertible_leading_coefficient() {
    // Divisor 2x over modulus 4: gcd(2, 4) = 2, no inverse.
    let p = Polynomial::new(vec![
        FieldElement::new(1, 4).unwrap(),
        FieldElement::new(1, 4).unwrap(),
    ])
    .unwrap();
    let d = Polynomial::new(vec![
        FieldElement::new(0, 4).unwrap(),
        FieldElement::new(2, 4).unwrap(),
    ])
    .unwrap();
    assert!(matches!(p.div(&d), Err(ZKError::PolynomialError)));
}

#[test]
fn test_lc_evaluate_rejects_empty_witness() {
    let mut lc = LinearCombination::new();
    lc.add_term(Term {
        index: 0,
        coefficient: FieldElement::new(1, 7).unwrap(),
    });
    let witness: Vec<FieldElement> = Vec::new();
    assert!(matches!(
        lc.evaluate(&witness),
        Err(ZKError::CircuitError { unsatisfied: None })
    ));
}

#[test]
fn test_lc_evaluate_rejects_out_of_range_index() {
    let mut lc = LinearCombination::new();
    lc.add_term(Term {
        index: 3,
        coefficient: FieldElement::new(1, 7).unwrap(),
    });
    let witness = vec![FieldElement::new(1, 7).unwrap()];
    assert!(matches!(
        lc.evaluate(&witness),
        Err(ZKError::CircuitError { unsatisfied: None })
    ));
}

#[test]
fn test_constraint_system_reports_unsatisfied_position() {
    let modulus = 97;
    let mut cs = ConstraintSystem::new();
    let v0 = cs.allocate_variable();
    let v1 = cs.allocate_variable();
    let v2 = cs.allocate_variable();

    let one = FieldElement::new(1, modulus).unwrap();
    // Constraint 0: v0 * v1 = v2 (satisfied by the witness below).
    {
        let mut a = LinearCombination::new();
        a.add_term(Term { index: v0, coefficient: one });
        let mut b = LinearCombination::new();
        b.add_term(Term { index: v1, coefficient: one });
        let mut c = LinearCombination::new();
        c.add_term(Term { index: v2, coefficient: one });
        cs.add_constraint(R1CSConstraint::new(a, b, c));
    }
    // Constraint 1: v0 * v0 = v2 (violated by the witness below).
    {
        let mut a = LinearCombination::new();
        a.add_term(Term { index: v0, coefficient: one });
        let mut b = LinearCombination::new();
        b.add_term(Term { index: v0, coefficient: one });
        let mut c = LinearCombination::new();
        c.add_term(Term { index: v2, coefficient: one });
        cs.add_constraint(R1CSConstraint::new(a, b, c));
    }

    let witness = vec![
        FieldElement::new(2, modulus).unwrap(),
        FieldElement::new(3, modulus).unwrap(),
        FieldElement::new(6, modulus).unwrap(),
    ];
    // The check fails, and points at the second constraint.
    let result = cs.evaluate(&witness);
    assert!(matches!(
        result,
        Err(ZKError::CircuitError { unsatisfied: Some(1) })
    ));
}
