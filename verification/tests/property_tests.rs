use ecc_core::field_element::FieldElement;
use ecc_core::point::Point;
use ecc_core::primality::is_prime;

#[test]
fn field_addition_is_commutative_and_associative() {
    let p = 13u64;
    for av in 0..p {
        for bv in 0..p {
            let a = FieldElement::new(av, p).unwrap();
            let b = FieldElement::new(bv, p).unwrap();
            assert_eq!(a.add(b), b.add(a));
            for cv in 0..p {
                let c = FieldElement::new(cv, p).unwrap();
                assert_eq!(
                    a.add(b).unwrap().add(c).unwrap(),
                    a.add(b.add(c).unwrap()).unwrap()
                );
            }
        }
    }
}

#[test]
fn field_zero_is_the_additive_identity() {
    let p = 13u64;
    let zero = FieldElement::new(0, p).unwrap();
    for av in 0..p {
        let a = FieldElement::new(av, p).unwrap();
        assert_eq!(a.add(zero).unwrap(), a);
    }
}

#[test]
fn nonzero_elements_cancel_with_their_inverse() {
    let p = 13u64;
    let one = FieldElement::new(1, p).unwrap();
    for av in 1..p {
        let a = FieldElement::new(av, p).unwrap();
        assert_eq!(a.mul(a.pow(-1)).unwrap(), one);
    }
}

#[test]
fn exponents_reduce_modulo_group_order() {
    let p = 13u64;
    let group_order = (p - 1) as i128;
    for av in 0..p {
        let a = FieldElement::new(av, p).unwrap();
        for k in -30i128..30i128 {
            assert_eq!(a.pow(k), a.pow(k.rem_euclid(group_order)));
        }
    }
}

#[test]
fn division_is_multiplication_by_the_inverse_power() {
    let p = 19u64;
    let fermat_exponent = (p - 2) as i128;
    for av in 0..p {
        for bv in 1..p {
            let a = FieldElement::new(av, p).unwrap();
            let b = FieldElement::new(bv, p).unwrap();
            assert_eq!(a.div(b).unwrap(), a.mul(b.pow(fermat_exponent)).unwrap());
        }
    }
}

#[test]
fn point_addition_is_commutative_on_sample_points() {
    // Pairs whose chord or tangent slope is an exact integer.
    let pairs = [
        ((2, 5), (-1, -1)),
        ((3, 7), (-1, -1)),
        ((2, -5), (3, 7)),
        ((-1, -1), (-1, -1)),
        ((-1, 1), (-1, -1)),
        ((-1, 1), (-1, 1)),
    ];
    for ((x1, y1), (x2, y2)) in pairs {
        let p = Point::new_point(x1, y1, 5, 7).unwrap();
        let q = Point::new_point(x2, y2, 5, 7).unwrap();
        assert_eq!(p.add(q), q.add(p));
    }
    let inf = Point::new_infinity(5, 7);
    let p = Point::new_point(2, 5, 5, 7).unwrap();
    assert_eq!(p.add(inf), inf.add(p));
    assert_eq!(inf.add(inf).unwrap(), inf);
}

#[test]
fn trial_division_agrees_with_known_primes() {
    assert!(!is_prime(0));
    assert!(!is_prime(1));
    assert!(is_prime(2));
    assert!(is_prime(3));
    assert!(!is_prime(4));
    assert!(is_prime(97));
    assert!(!is_prime(91));
    assert!(!is_prime(561));
    assert!(is_prime(7919));
}
