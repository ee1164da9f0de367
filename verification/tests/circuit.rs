use zkqap::circuit::{ConstraintSystem, LinearCombination, R1CSConstraint, Term};
use zkqap::field::FieldElement;

#[test]
fn test_linear_combination() {
    // Create a linear combination: 3v0 + 5v1.
    let modulus = 97;
    let mut lc = LinearCombination::new();
    lc.add_term(Term {
        index: 0,
        coefficient: FieldElement::new(3, modulus).unwrap(),
    });
    lc.add_term(Term {
        index: 1,
        coefficient: FieldElement::new(5, modulus).unwrap(),
    });

    // Witness vector: v0 = 2, v1 = 4.
    let witness = vec![
        FieldElement::new(2, modulus).unwrap(),
        FieldElement::new(4, modulus).unwrap(),
    ];
    let result = lc.evaluate(&witness).unwrap();
    // Expected evaluation: 3 x 2 + 5 x 4 = 26 mod 97.
    assert_eq!(result, FieldElement::new(26, modulus).unwrap());
}

#[test]
fn test_constraint_system() {
    let modulus = 97;
    let mut cs = ConstraintSystem::new();

    // Allocate variables: v0, v1, v2.
    let v0 = cs.allocate_variable(); // index 0
    let v1 = cs.allocate_variable(); // index 1
    let v2 = cs.allocate_variable(); // index 2

    // Enforce the constraint: v0 * v1 = v2.
    // Linear combinations for the constraint:
    // a = 1 * v0, b = 1 * v1, c = 1 * v2.
    let mut a_lc = LinearCombination::new();
    a_lc.add_term(Term {
        index: v0,
        coefficient: FieldElement::new(1, modulus).unwrap(),
    });

    let mut b_lc = LinearCombination::new();
    b_lc.add_term(Term {
        index: v1,
        coefficient: FieldElement::new(1, modulus).unwrap(),
    });

    let mut c_lc = LinearCombination::new();
    c_lc.add_term(Term {
        index: v2,
        coefficient: FieldElement::new(1, modulus).unwrap(),
    });

    let constraint = R1CSConstraint::new(a_lc, b_lc, c_lc);
    cs.add_constraint(constraint);

    // Choose a witness such that v0 * v1 = v2.
    // Let v0 = 3, v1 = 4, then v2 should be 12 mod 97.
    let witness = vec![
        FieldElement::new(3, modulus).unwrap(),
        FieldElement::new(4, modulus).unwrap(),
        FieldElement::new(12, modulus).unwrap(),
    ];
    let result = cs.evaluate(&witness).unwrap();
    assert_eq!(result, true);
}
