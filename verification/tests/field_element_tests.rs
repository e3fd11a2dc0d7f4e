use ecc_core::errors::FieldError;
use ecc_core::field_element::FieldElement;

#[test]
fn add_two_field_elements() {
    let prime = 13u64;
    let a = FieldElement::new(7, prime).unwrap();
    let b = FieldElement::new(12, prime).unwrap();
    let c = FieldElement::new(6, prime).unwrap();

    assert_eq!(a.add(b).unwrap(), c);
}

#[test]
fn substract_two_field_elements() {
    let prime = 19u64;
    let a = FieldElement::new(6, prime).unwrap();
    let b = FieldElement::new(13, prime).unwrap();
    let c = FieldElement::new(12, prime).unwrap();

    assert_eq!(a.sub(b).unwrap(), c);
}

#[test]
fn multiply_two_field_elements() {
    let prime = 13u64;
    let a = FieldElement::new(3, prime).unwrap();
    let b = FieldElement::new(12, prime).unwrap();
    let c = FieldElement::new(10, prime).unwrap();

    assert_eq!(a.mul(b).unwrap(), c);
}

#[test]
fn power_a_field_element_to_a_positive_exponent() {
    let prime = 13u64;
    let a = FieldElement::new(3, prime).unwrap();
    let b = FieldElement::new(1, prime).unwrap();
    let exponent = 3i128;

    assert_eq!(a.pow(exponent), b);
}

#[test]
fn divide_two_field_elements() {
    let prime = 19u64;
    let a = FieldElement::new(2, prime).unwrap();
    let b = FieldElement::new(7, prime).unwrap();
    let c = FieldElement::new(3, prime).unwrap();

    assert_eq!(a.div(b).unwrap(), c);
}

#[test]
fn power_a_field_element_to_a_negative_exponent() {
    let prime = 13u64;
    let a = FieldElement::new(7, prime).unwrap();
    let b = FieldElement::new(8, prime).unwrap();
    let exponent = -3i128;

    assert_eq!(a.pow(exponent), b);
}

#[test]
fn constructing_with_non_prime_modulus_is_rejected() {
    assert_eq!(FieldElement::new(5, 10), Err(FieldError::NotPrime));
    assert_eq!(FieldElement::new(0, 1), Err(FieldError::NotPrime));
    assert_eq!(FieldElement::new(3, 0), Err(FieldError::NotPrime));
}

#[test]
fn constructing_out_of_range_is_rejected() {
    assert_eq!(FieldElement::new(13, 13), Err(FieldError::OutOfRange));
    assert_eq!(FieldElement::new(20, 13), Err(FieldError::OutOfRange));
}

#[test]
fn operations_on_different_fields_are_rejected() {
    let a = FieldElement::new(3, 13).unwrap();
    let b = FieldElement::new(3, 17).unwrap();
    assert_eq!(a.add(b), Err(FieldError::FieldMismatch));
    assert_eq!(a.sub(b), Err(FieldError::FieldMismatch));
    assert_eq!(a.mul(b), Err(FieldError::FieldMismatch));
    assert_eq!(a.div(b), Err(FieldError::FieldMismatch));
}

#[test]
fn dividing_by_the_zero_element_is_rejected() {
    let a = FieldElement::new(3, 13).unwrap();
    let zero = FieldElement::new(0, 13).unwrap();
    assert_eq!(a.div(zero), Err(FieldError::DivisionByZero));
}

#[test]
fn subtraction_wraps_into_range() {
    let a = FieldElement::new(2, 13).unwrap();
    let b = FieldElement::new(5, 13).unwrap();
    assert_eq!(a.sub(b).unwrap(), FieldElement::new(10, 13).unwrap());
}

#[test]
fn zero_exponent_gives_the_one_element() {
    let a = FieldElement::new(5, 13).unwrap();
    assert_eq!(a.pow(0), FieldElement::new(1, 13).unwrap());
}

#[test]
fn smallest_field_works() {
    let one = FieldElement::new(1, 2).unwrap();
    assert_eq!(one.add(one).unwrap(), FieldElement::new(0, 2).unwrap());
    assert_eq!(one.mul(one).unwrap(), one);
    assert_eq!(one.div(one).unwrap(), one);
}
