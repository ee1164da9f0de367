use zkqap::circuit::{ConstraintSystem, LinearCombination, R1CSConstraint, Term};
use zkqap::field::FieldElement;
use zkqap::polynomial::Polynomial;
use zkqap::qap::QAP;

// Builds the flattened circuit for x^3 + x + 5 = 35 over the given modulus:
// v0 = 1, v1 = x, v2 = x*x, v3 = x^2*x, v4 = v3 + v1, v5 = v4 + 5.
fn build_cubic_circuit(modulus: u64) -> ConstraintSystem {
    let mut cs = ConstraintSystem::new();

    let v0 = cs.allocate_variable();
    let v1 = cs.allocate_variable();
    let v2 = cs.allocate_variable();
    let v3 = cs.allocate_variable();
    let v4 = cs.allocate_variable();
    let v5 = cs.allocate_variable();

    // Constraint 1: x * x = x^2
    {
        let mut lc_a = LinearCombination::new();
        lc_a.add_term(Term {
            index: v1,
            coefficient: FieldElement::new(1, modulus).unwrap(),
        });
        let mut lc_b = LinearCombination::new();
        lc_b.add_term(Term {
            index: v1,
            coefficient: FieldElement::new(1, modulus).unwrap(),
        });
        let mut lc_c = LinearCombination::new();
        lc_c.add_term(Term {
            index: v2,
            coefficient: FieldElement::new(1, modulus).unwrap(),
        });

        cs.add_constraint(R1CSConstraint::new(lc_a, lc_b, lc_c));
    }

    // Constraint 2: x * x^2 = x^3
    {
        let mut lc_a = LinearCombination::new();
        lc_a.add_term(Term {
            index: v1,
            coefficient: FieldElement::new(1, modulus).unwrap(),
        });
        let mut lc_b = LinearCombination::new();
        lc_b.add_term(Term {
            index: v2,
            coefficient: FieldElement::new(1, modulus).unwrap(),
        });
        let mut lc_c = LinearCombination::new();
        lc_c.add_term(Term {
            index: v3,
            coefficient: FieldElement::new(1, modulus).unwrap(),
        });

        cs.add_constraint(R1CSConstraint::new(lc_a, lc_b, lc_c));
    }

    // Constraint 3: v3 + v1 = v4 OR (v3 + v1) * 1 = v4
    {
        let mut lc_a = LinearCombination::new();
        lc_a.add_term(Term {
            index: v3,
            coefficient: FieldElement::new(1, modulus).unwrap(),
        });
        lc_a.add_term(Term {
            index: v1,
            coefficient: FieldElement::new(1, modulus).unwrap(),
        });
        let mut lc_b = LinearCombination::new();
        lc_b.add_term(Term {
            index: v0,
            coefficient: FieldElement::new(1, modulus).unwrap(),
        });
        let mut lc_c = LinearCombination::new();
        lc_c.add_term(Term {
            index: v4,
            coefficient: FieldElement::new(1, modulus).unwrap(),
        });

        cs.add_constraint(R1CSConstraint::new(lc_a, lc_b, lc_c));
    }

    // Constraint 4: v4 + 5 = v5 OR (v4 + 5) * 1 = v5
    {
        let mut lc_a = LinearCombination::new();
        lc_a.add_term(Term {
            index: v4,
            coefficient: FieldElement::new(1, modulus).unwrap(),
        });
        lc_a.add_term(Term {
            index: v0,
            coefficient: FieldElement::new(5, modulus).unwrap(),
        });
        let mut lc_b = LinearCombination::new();
        lc_b.add_term(Term {
            index: v0,
            coefficient: FieldElement::new(1, modulus).unwrap(),
        });
        let mut lc_c = LinearCombination::new();
        lc_c.add_term(Term {
            index: v5,
            coefficient: FieldElement::new(1, modulus).unwrap(),
        });

        cs.add_constraint(R1CSConstraint::new(lc_a, lc_b, lc_c));
    }

    cs
}

#[test]
fn test_qap() {
    let modulus = 97;
    let cs = build_cubic_circuit(modulus);

    // Create QAP from the constraint system.
    let qap = QAP::create(&cs).unwrap();

    // Helper function to check interpolation.
    let check_interpolation = |poly: &Polynomial, expected: &[u64]| {
        for (i, &exp_coeff) in expected.iter().enumerate() {
            let r = FieldElement::new((i + 1) as u64, modulus).unwrap();
            let eval = poly.evaluate(&r).unwrap();
            assert_eq!(
                eval.value,
                exp_coeff,
                "Expected coefficient {} at r = {} but got {}",
                exp_coeff,
                i + 1,
                eval.value
            );
        }
    };

    // Check poly_a for each variable.
    // There are 6 variables (indices 0 to 5).
    let expected_a = vec![
        vec![0, 0, 0, 5], // v0
        vec![1, 1, 1, 0], // v1
        vec![0, 0, 0, 0], // v2
        vec![0, 0, 1, 0], // v3
        vec![0, 0, 0, 1], // v4
        vec![0, 0, 0, 0], // v5
    ];
    for j in 0..6 {
        check_interpolation(&qap.a_polynomials[j], &expected_a[j]);
    }

    // Check poly_b for each variable.
    let expected_b = vec![
        vec![0, 0, 1, 1], // v0
        vec![1, 0, 0, 0], // v1
        vec![0, 1, 0, 0], // v2
        vec![0, 0, 0, 0], // v3
        vec![0, 0, 0, 0], // v4
        vec![0, 0, 0, 0], // v5
    ];
    for j in 0..6 {
        check_interpolation(&qap.b_polynomials[j], &expected_b[j]);
    }

    // Check poly_c for each variable.
    let expected_c = vec![
        vec![0, 0, 0, 0], // v0
        vec![0, 0, 0, 0], // v1
        vec![1, 0, 0, 0], // v2
        vec![0, 1, 0, 0], // v3
        vec![0, 0, 1, 0], // v4
        vec![0, 0, 0, 1], // v5
    ];
    for j in 0..6 {
        check_interpolation(&qap.c_polynomials[j], &expected_c[j]);
    }

    // Check witness.

    // For x = 3, the witness is:
    // v0 = 1, v1 = 3, v2 = 9, v3 = 27, v4 = 27 + 3 = 30, v5 = 30 + 5 = 35.
    let witness = vec![
        FieldElement::new(1, modulus).unwrap(),
        FieldElement::new(3, modulus).unwrap(),
        FieldElement::new(9, modulus).unwrap(),
        FieldElement::new(27, modulus).unwrap(),
        FieldElement::new(30, modulus).unwrap(),
        FieldElement::new(35, modulus).unwrap(),
    ];

    // Compute the witness quotient polynomial h(x).
    let h_poly = qap.calculate_witness_quotient(&witness).unwrap();

    // As a sanity check, we verify that for several x-values, we have:
    // A(x) * B(x) - C(x) = h(x) * t(x)
    for x_val in 1..=5 {
        let x = FieldElement::new(x_val, modulus).unwrap();
        // Aggregate A(x), B(x), and C(x)
        let mut a_eval = FieldElement::new(0, modulus).unwrap();
        let mut b_eval = FieldElement::new(0, modulus).unwrap();
        let mut c_eval = FieldElement::new(0, modulus).unwrap();
        for j in 0..witness.len() {
            a_eval = a_eval
                .add(&qap.a_polynomials[j].scale(&witness[j]).unwrap().evaluate(&x).unwrap())
                .unwrap();
            b_eval = b_eval
                .add(&qap.b_polynomials[j].scale(&witness[j]).unwrap().evaluate(&x).unwrap())
                .unwrap();
            c_eval = c_eval
                .add(&qap.c_polynomials[j].scale(&witness[j]).unwrap().evaluate(&x).unwrap())
                .unwrap();
        }
        let p_val = a_eval.mul(&b_eval).unwrap().sub(&c_eval).unwrap();
        let t_val = qap.target_polynomial.evaluate(&x).unwrap();
        let h_val = h_poly.evaluate(&x).unwrap();
        let recomposed = h_val.mul(&t_val).unwrap();
        assert_eq!(
            p_val.value, recomposed.value,
            "At x = {}: p(x) should equal h(x) * t(x)",
            x_val
        );
    }
}

#[test]
fn test_witness_quotient_rejects_corrupt_witness() {
    let modulus = 97;
    let cs = build_cubic_circuit(modulus);
    let qap = QAP::create(&cs).unwrap();

    // Same circuit, but v5 corrupted from 35 to 36: the remainder cannot
    // vanish, so no quotient exists.
    let witness = vec![
        FieldElement::new(1, modulus).unwrap(),
        FieldElement::new(3, modulus).unwrap(),
        FieldElement::new(9, modulus).unwrap(),
        FieldElement::new(27, modulus).unwrap(),
        FieldElement::new(30, modulus).unwrap(),
        FieldElement::new(36, modulus).unwrap(),
    ];
    let result = qap.calculate_witness_quotient(&witness);
    assert!(matches!(result, Err(zkqap::errors::ZKError::PolynomialError)));
}

#[test]
fn test_qap_no_constraints() {
    let cs = ConstraintSystem::new();
    let result = QAP::create(&cs);
    assert!(matches!(result, Err(zkqap::errors::ZKError::PolynomialError)));
}

#[test]
fn test_target_polynomial_has_domain_roots() {
    let modulus = 97;
    let cs = build_cubic_circuit(modulus);
    let qap = QAP::create(&cs).unwrap();
    // Four constraints, so t(x) = (x-1)(x-2)(x-3)(x-4): degree 4, and each
    // domain point is a root.
    assert_eq!(qap.target_polynomial.coefficients.len(), 5);
    for r in 1..=4 {
        let x = FieldElement::new(r, modulus).unwrap();
        let eval = qap.target_polynomial.evaluate(&x).unwrap();
        assert_eq!(eval.value, 0);
    }
    let x5 = FieldElement::new(5, modulus).unwrap();
    assert_eq!(qap.target_polynomial.evaluate(&x5).unwrap().value, 24);
}
