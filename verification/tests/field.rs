use zkqap::field::FieldElement;

#[test]
fn field_test_add() {
    let a = FieldElement::new(3, 7).unwrap();
    let b = FieldElement::new(4, 7).unwrap();
    let result = a.add(&b).unwrap();
    assert_eq!(result.value, 0);
}

#[test]
fn field_test_sub() {
    let a = FieldElement::new(3, 7).unwrap();
    let b = FieldElement::new(4, 7).unwrap();
    let result = a.sub(&b).unwrap();
    assert_eq!(result.value, 6);
}

#[test]
fn field_test_mul() {
    let a = FieldElement::new(3, 7).unwrap();
    let b = FieldElement::new(4, 7).unwrap();
    let result = a.mul(&b).unwrap();
    assert_eq!(result.value, 5);
}

#[test]
fn test_inv() {
    let a = FieldElement::new(3, 7).unwrap();
    let a_inv = a.inv().unwrap();
    // a x a_inv should equal to 1 mod 7.
    let one = a.mul(&a_inv).unwrap();
    assert_eq!(one.value, 1);
}

#[test]
fn test_exp() {
    let a = FieldElement::new(3, 7).unwrap();
    let a_exp = a.exp(3).unwrap();
    assert_eq!(a_exp.value, 6);
}
