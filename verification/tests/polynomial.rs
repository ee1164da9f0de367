use zkqap::field::FieldElement;
use zkqap::polynomial::Polynomial;

#[test]
fn test_evaluate() {
    // Define polynomial: 2 + 4x + 6x^2 mod 97.
    let modulus = 97;
    let coefficients = vec![
        FieldElement::new(2, modulus).unwrap(),
        FieldElement::new(4, modulus).unwrap(),
        FieldElement::new(6, modulus).unwrap(),
    ];
    let polynomial = Polynomial::new(coefficients).unwrap();

    // Evaluate at x = 3.
    let x = FieldElement::new(3, modulus).unwrap();
    let result = polynomial.evaluate(&x).unwrap();
    assert_eq!(result, FieldElement::new(68, modulus).unwrap());
}

#[test]
fn polynomial_test_add() {
    let modulus = 97;
    // Define polynomial: 1 + 2x mod 97.
    let coefficients1 = vec![
        FieldElement::new(1, modulus).unwrap(),
        FieldElement::new(2, modulus).unwrap(),
    ];
    let polynomial1 = Polynomial::new(coefficients1).unwrap();

    // Define polynomial: 2 + 3x + 4x^2 mod 97.
    let coefficients2 = vec![
        FieldElement::new(2, modulus).unwrap(),
        FieldElement::new(3, modulus).unwrap(),
        FieldElement::new(4, modulus).unwrap(),
    ];
    let polynomial2 = Polynomial::new(coefficients2).unwrap();

    let sum = polynomial1.add(&polynomial2).unwrap();
    assert_eq!(sum.coefficients[0], FieldElement::new(3, modulus).unwrap());
    assert_eq!(sum.coefficients[1], FieldElement::new(5, modulus).unwrap());
    assert_eq!(sum.coefficients[2], FieldElement::new(4, modulus).unwrap());
}

#[test]
fn polynomial_test_sub() {
    let modulus = 97;
    // Define polynomial: 1 + 2x mod 97.
    let coefficients1 = vec![
        FieldElement::new(1, modulus).unwrap(),
        FieldElement::new(2, modulus).unwrap(),
    ];
    let polynomial1 = Polynomial::new(coefficients1).unwrap();

    // Define polynomial: 2 + 3x + 4x^2 mod 97.
    let coefficients2 = vec![
        FieldElement::new(2, modulus).unwrap(),
        FieldElement::new(3, modulus).unwrap(),
        FieldElement::new(4, modulus).unwrap(),
    ];
    let polynomial2 = Polynomial::new(coefficients2).unwrap();

    let diff = polynomial1.sub(&polynomial2).unwrap();
    assert_eq!(diff.coefficients[0], FieldElement::new(96, modulus).unwrap());
    assert_eq!(diff.coefficients[1], FieldElement::new(96, modulus).unwrap());
    assert_eq!(diff.coefficients[2], FieldElement::new(93, modulus).unwrap());
}

#[test]
fn polynomial_test_mul() {
    let modulus = 97;
    // Define polynomial: 1 + 2x mod 97.
    let coefficients1 = vec![
        FieldElement::new(1, modulus).unwrap(),
        FieldElement::new(2, modulus).unwrap(),
    ];
    let polynomial1 = Polynomial::new(coefficients1).unwrap();

    // Define polynomial: 2 + 3x + 4x^2 mod 97.
    let coefficients2 = vec![
        FieldElement::new(2, modulus).unwrap(),
        FieldElement::new(3, modulus).unwrap(),
        FieldElement::new(4, modulus).unwrap(),
    ];
    let polynomial2 = Polynomial::new(coefficients2).unwrap();

    // Expected polynomial = 2 + 7x + 10x^2 + 8x^3 mod 97.
    let product = polynomial1.mul(&polynomial2).unwrap();
    assert_eq!(product.coefficients.len(), 4);
    assert_eq!(product.coefficients[0], FieldElement::new(2, modulus).unwrap());
    assert_eq!(product.coefficients[1], FieldElement::new(7, modulus).unwrap());
    assert_eq!(product.coefficients[2], FieldElement::new(10, modulus).unwrap());
    assert_eq!(product.coefficients[3], FieldElement::new(8, modulus).unwrap());
}

#[test]
fn test_div() {
    let modulus = 97;
    // Define polynomial: 6 + 5x + x^2 mod 97.
    let coefficients1 = vec![
        FieldElement::new(6, modulus).unwrap(),
        FieldElement::new(5, modulus).unwrap(),
        FieldElement::new(1, modulus).unwrap(),
    ];
    let polynomial1 = Polynomial::new(coefficients1).unwrap();

    // Define polynomial: 2 + x mod 97.
    let coefficients2 = vec![
        FieldElement::new(2, modulus).unwrap(),
        FieldElement::new(1, modulus).unwrap(),
    ];
    let polynomial2 = Polynomial::new(coefficients2).unwrap();

    // Expected polynomial = 3 + x
    let (quotient, remainder) = polynomial1.div(&polynomial2).unwrap();

    assert_eq!(quotient.coefficients[0], FieldElement::new(3, modulus).unwrap());
    assert_eq!(quotient.coefficients[1], FieldElement::new(1, modulus).unwrap());

    for i in 0..2 {
        assert_eq!(remainder.coefficients[i], FieldElement::new(0, modulus).unwrap());
    }
}

#[test]
fn test_scale() {
    let modulus = 97;
    // Define polynomial: 1 + 2x + 3x^2 mod 97.
    let coefficients = vec![
        FieldElement::new(1, modulus).unwrap(),
        FieldElement::new(2, modulus).unwrap(),
        FieldElement::new(3, modulus).unwrap(),
    ];
    let polynomial = Polynomial::new(coefficients).unwrap();

    let scaled = polynomial.scale(&FieldElement::new(2, modulus).unwrap()).unwrap();

    assert_eq!(scaled.coefficients[0], FieldElement::new(2, modulus).unwrap());
    assert_eq!(scaled.coefficients[1], FieldElement::new(4, modulus).unwrap());
    assert_eq!(scaled.coefficients[2], FieldElement::new(6, modulus).unwrap());
}
