use ecc_core::errors::FieldError;
use ecc_core::finite_field_element::FiniteFieldElement;

#[should_panic]
#[test]
fn test_can_not_create_field_with_no_prime_order() {
    let _ = FiniteFieldElement::<10>::new(1).unwrap();
}

#[test]
fn test_add_two_finite_field_elements() {
    let first_field_element = FiniteFieldElement::<11>::new(1).unwrap();
    let second_field_element = FiniteFieldElement::<11>::new(20).unwrap();

    assert_eq!(
        first_field_element.add(second_field_element),
        FiniteFieldElement::<11>::new(10).unwrap()
    );
}

#[test]
fn test_sub_two_finite_field_elements() {
    let first_field_element = FiniteFieldElement::<11>::new(1).unwrap();
    let second_field_element = FiniteFieldElement::<11>::new(20).unwrap();

    assert_eq!(
        first_field_element.sub(second_field_element),
        FiniteFieldElement::<11>::new(3).unwrap()
    );
}

#[test]
fn test_mul_two_finite_field_elements() {
    let first_field_element = FiniteFieldElement::<11>::new(1).unwrap();
    let second_field_element = FiniteFieldElement::<11>::new(20).unwrap();

    assert_eq!(
        first_field_element.mul(second_field_element),
        FiniteFieldElement::<11>::new(9).unwrap()
    );
}

#[test]
fn test_pow_a_finite_field_with_a_number() {
    let first_field_element = FiniteFieldElement::<11>::new(3).unwrap();

    assert_eq!(
        first_field_element.pow(3),
        FiniteFieldElement::<11>::new(5).unwrap()
    );
}

#[test]
fn test_div_two_finite_field_elements() {
    let first_field_element = FiniteFieldElement::<11>::new(1).unwrap();
    let second_field_element = FiniteFieldElement::<11>::new(20).unwrap();

    assert_eq!(
        first_field_element.div(second_field_element).unwrap(),
        FiniteFieldElement::<11>::new(5).unwrap()
    );
}

#[test]
fn negative_values_normalize_into_range() {
    let element = FiniteFieldElement::<11>::new(-1).unwrap();
    assert_eq!(element.value, 10);
    let element = FiniteFieldElement::<11>::new(-22).unwrap();
    assert_eq!(element.value, 0);
}

#[test]
fn negative_exponent_gives_the_inverse() {
    let element = FiniteFieldElement::<11>::new(3).unwrap();
    let inverse = element.pow(-1);
    assert_eq!(inverse, FiniteFieldElement::<11>::new(4).unwrap());
    assert_eq!(
        element.mul(inverse),
        FiniteFieldElement::<11>::new(1).unwrap()
    );
}

#[test]
fn division_by_the_zero_element_is_rejected() {
    let element = FiniteFieldElement::<11>::new(7).unwrap();
    let zero = FiniteFieldElement::<11>::new(0).unwrap();
    assert_eq!(element.div(zero), Err(FieldError::DivisionByZero));
}

#[test]
fn compound_assignments_match_the_operations() {
    let mut element = FiniteFieldElement::<11>::new(3).unwrap();
    element.add_assign(FiniteFieldElement::<11>::new(9).unwrap());
    assert_eq!(element, FiniteFieldElement::<11>::new(1).unwrap());
    element.mul_assign(FiniteFieldElement::<11>::new(5).unwrap());
    assert_eq!(element, FiniteFieldElement::<11>::new(5).unwrap());
    element.sub_assign(FiniteFieldElement::<11>::new(7).unwrap());
    assert_eq!(element, FiniteFieldElement::<11>::new(9).unwrap());
}
