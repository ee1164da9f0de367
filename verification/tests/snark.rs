use zkqap::circuit::{ConstraintSystem, LinearCombination, R1CSConstraint, Term};
use zkqap::curve::EllipticCurve;
use zkqap::field::FieldElement;
use zkqap::qap::QAP;
use zkqap::snark::SNARK;

#[test]
fn test_snark() {
    let modulus = 97;
    let curve = EllipticCurve {
        a: FieldElement::new(2, modulus).unwrap(),
        b: FieldElement::new(3, modulus).unwrap(),
    };

    // Run trusted setup to generate the CRS.
    let crs = SNARK::trusted_setup(&curve).unwrap();

    // Equation: x^3 + x + 5 = 35.
    let mut cs = ConstraintSystem::new();
    let v0 = cs.allocate_variable();
    let v1 = cs.allocate_variable();
    let v2 = cs.allocate_variable();
    let v3 = cs.allocate_variable();
    let v4 = cs.allocate_variable();
    let v5 = cs.allocate_variable();

    // Constraint 1: x * x = x^2
    {
        let mut lc_a = LinearCombination::new();
        lc_a.add_term(Term {
            index: v1,
            coefficient: FieldElement::new(1, modulus).unwrap(),
        });
        let mut lc_b = LinearCombination::new();
        lc_b.add_term(Term {
            index: v1,
            coefficient: FieldElement::new(1, modulus).unwrap(),
        });
        let mut lc_c = LinearCombination::new();
        lc_c.add_term(Term {
            index: v2,
            coefficient: FieldElement::new(1, modulus).unwrap(),
        });

        cs.add_constraint(R1CSConstraint::new(lc_a, lc_b, lc_c));
    }

    // Constraint 2: x * x^2 = x^3
    {
        let mut lc_a = LinearCombination::new();
        lc_a.add_term(Term {
            index: v1,
            coefficient: FieldElement::new(1, modulus).unwrap(),
        });
        let mut lc_b = LinearCombination::new();
        lc_b.add_term(Term {
            index: v2,
            coefficient: FieldElement::new(1, modulus).unwrap(),
        });
        let mut lc_c = LinearCombination::new();
        lc_c.add_term(Term {
            index: v3,
            coefficient: FieldElement::new(1, modulus).unwrap(),
        });

        cs.add_constraint(R1CSConstraint::new(lc_a, lc_b, lc_c));
    }

    // Constraint 3: v3 + v1 = v4 OR (v3 + v1) * 1 = v4
    {
        let mut lc_a = LinearCombination::new();
        lc_a.add_term(Term {
            index: v3,
            coefficient: FieldElement::new(1, modulus).unwrap(),
        });
        lc_a.add_term(Term {
            index: v1,
            coefficient: FieldElement::new(1, modulus).unwrap(),
        });
        let mut lc_b = LinearCombination::new();
        lc_b.add_term(Term {
            index: v0,
            coefficient: FieldElement::new(1, modulus).unwrap(),
        });
        let mut lc_c = LinearCombination::new();
        lc_c.add_term(Term {
            index: v4,
            coefficient: FieldElement::new(1, modulus).unwrap(),
        });

        cs.add_constraint(R1CSConstraint::new(lc_a, lc_b, lc_c));
    }

    // Constraint 4: v4 + 5 = v5 OR (v4 + 5) * 1 = v5
    {
        let mut lc_a = LinearCombination::new();
        lc_a.add_term(Term {
            index: v4,
            coefficient: FieldElement::new(1, modulus).unwrap(),
        });
        lc_a.add_term(Term {
            index: v0,
            coefficient: FieldElement::new(5, modulus).unwrap(),
        });
        let mut lc_b = LinearCombination::new();
        lc_b.add_term(Term {
            index: v0,
            coefficient: FieldElement::new(1, modulus).unwrap(),
        });
        let mut lc_c = LinearCombination::new();
        lc_c.add_term(Term {
            index: v5,
            coefficient: FieldElement::new(1, modulus).unwrap(),
        });

        cs.add_constraint(R1CSConstraint::new(lc_a, lc_b, lc_c));
    }

    // Create QAP from the constraint system.
    let qap = QAP::create(&cs).unwrap();

    // For x = 3, the witness is:
    // v0 = 1, v1 = 3, v2 = 9, v3 = 27, v4 = 27 + 3 = 30, v5 = 30 + 5 = 35.
    let witness = vec![
        FieldElement::new(1, modulus).unwrap(),
        FieldElement::new(3, modulus).unwrap(),
        FieldElement::new(9, modulus).unwrap(),
        FieldElement::new(27, modulus).unwrap(),
        FieldElement::new(30, modulus).unwrap(),
        FieldElement::new(35, modulus).unwrap(),
    ];

    // Prover: Generate a SNARK proof.
    let proof = SNARK::create_proof(&qap, &witness, &crs).unwrap();
    // Verifier: Check the proof.
    let valid = SNARK::verify_proof(&proof, &crs, &curve).unwrap();
    assert!(valid, "The proof is invalid.");
}
