use stark_primitives::field::{FieldElement, FieldError};

const P: u32 = 3221225473;

#[test]
fn test_basic_operations() {
    let a = FieldElement::new(10);
    let b = FieldElement::new(5);

    assert_eq!(FieldElement::new(15).value(), (a.clone() + b.clone()).value());
    assert_eq!(FieldElement::new(5).value(), (a.clone() - b.clone()).value());
    assert_eq!(FieldElement::new(50).value(), (a.clone() * b.clone()).value());
    assert_eq!(
        FieldElement::new(2).value(),
        (a.clone() / b.clone()).unwrap().value()
    );
}

#[test]
fn test_zero_and_one() {
    let a = FieldElement::new(10);
    let zero = FieldElement::zero();
    let one = FieldElement::one();

    assert_eq!(a.value(), (a.clone() + zero.clone()).value());
    assert_eq!(a.value(), (a.clone() - zero.clone()).value());
    assert_eq!(zero.value(), (a.clone() * zero.clone()).value());
    assert_eq!(a.value(), (a.clone() * one.clone()).value());
    assert_eq!(a.value(), (a.clone() / one.clone()).unwrap().value());
}

#[test]
fn test_large_numbers() {
    let a = FieldElement::new(u32::MAX - 2);
    let b = FieldElement::new(u32::MAX - 1);

    let _sum = a.clone() + b.clone();
    let _diff = a.clone() - b.clone();
    let _prod = a.clone() * b.clone();
    let _div = (a.clone() / b.clone()).unwrap();
}

#[test]
fn test_subtraction_edge_cases() {
    let small = FieldElement::new(5);
    let large = FieldElement::new(10);

    let diff = small.clone() - large.clone();
    assert!(diff.value() < FieldElement::get_prime());
    assert!(diff.value() > 0);
}

#[test]
fn test_pow() {
    let a = FieldElement::new(5);
    let a_pow = a.pow(3);
    assert_eq!(a_pow.value(), 125);

    let a_pow2 = a.pow(FieldElement::get_prime() - 2);
    assert_eq!(a_pow2, a.inverse().unwrap());
}

#[test]
fn test_inverse() {
    let a = FieldElement::new(6);
    let a_inv = a.inverse().unwrap();

    assert_eq!((a * a_inv), FieldElement::one());
}

#[test]
#[should_panic]
fn test_zero_inverse() {
    let zero = FieldElement::zero();
    let _inv = zero.inverse().unwrap();
}

#[test]
fn test_is_order() {
    let a = FieldElement::new(5);
    assert!(a.is_order(FieldElement::get_prime() - 1));
}

#[test]
fn test_random_element() {
    for _ in 0..100 {
        let a = FieldElement::random_element();
        assert!(a.value() < FieldElement::get_prime());
    }
}

#[test]
fn new_reduces_modulo_the_prime() {
    assert_eq!(FieldElement::new(0).value(), 0);
    assert_eq!(FieldElement::new(P - 1).value(), P - 1);
    assert_eq!(FieldElement::new(P).value(), 0);
    assert_eq!(FieldElement::new(P + 1).value(), 1);
    assert_eq!(FieldElement::new(u32::MAX).value(), u32::MAX - P);
    assert_eq!(FieldElement::new(u32::MAX).value(), 1073741822);
}

#[test]
fn constants() {
    assert_eq!(FieldElement::get_prime(), 3 * (1u32 << 30) + 1);
    assert_eq!(FieldElement::new(7).get_generator(), 5);
    assert_eq!(FieldElement::zero().value(), 0);
    assert_eq!(FieldElement::one().value(), 1);
}

#[test]
fn addition_wraps_at_the_prime() {
    let a = FieldElement::new(P - 1);
    let b = FieldElement::new(P - 1);
    assert_eq!((a + b).value(), P - 2);
    assert_eq!((a + FieldElement::one()).value(), 0);
}

#[test]
fn subtraction_below_zero_adds_the_prime() {
    let small = FieldElement::new(5);
    let large = FieldElement::new(10);
    assert_eq!((small - large).value(), P - 5);
    assert_eq!((FieldElement::zero() - FieldElement::one()).value(), P - 1);
    assert_eq!((large - large).value(), 0);
}

#[test]
fn multiplication_uses_a_wide_intermediate() {
    let a = FieldElement::new(P - 1);
    assert_eq!((a * a).value(), 1);
    let b = FieldElement::new(1 << 31);
    // 2^62 mod p
    let expected = ((1u64 << 62) % (P as u64)) as u32;
    assert_eq!((b * b).value(), expected);
    assert_eq!(expected, 2863311532);
}

#[test]
fn closure_on_chosen_values() {
    let xs = [0u32, 1, 2, 5, 1 << 30, P - 2, P - 1, u32::MAX];
    for &x in xs.iter() {
        for &y in xs.iter() {
            let a = FieldElement::new(x);
            let b = FieldElement::new(y);
            assert!((a + b).value() < P);
            assert!((a - b).value() < P);
            assert!((a * b).value() < P);
            assert_eq!((a + b).value() as u64, (a.value() as u64 + b.value() as u64) % P as u64);
            assert_eq!((a * b).value() as u64, (a.value() as u64 * b.value() as u64) % P as u64);
            assert_eq!(((a - b) + b), a);
        }
    }
}

#[test]
fn identities_on_chosen_values() {
    for &x in [0u32, 1, 17, P - 1].iter() {
        let a = FieldElement::new(x);
        assert_eq!(a + FieldElement::zero(), a);
        assert_eq!(a * FieldElement::one(), a);
    }
}

#[test]
fn inverse_law_on_chosen_values() {
    for &x in [1u32, 2, 3, 5, 6, 1 << 30, P - 1].iter() {
        let a = FieldElement::new(x);
        let inv = a.inverse().unwrap();
        assert_eq!(a * inv, FieldElement::one());
        assert_eq!(inv, a.pow(P - 2));
    }
    assert_eq!(FieldElement::new(2).inverse().unwrap().value(), (P + 1) / 2);
}

#[test]
fn zero_has_no_inverse() {
    assert_eq!(FieldElement::zero().inverse(), Err(FieldError::DivisionByZero));
    assert_eq!(FieldElement::new(P).inverse(), Err(FieldError::DivisionByZero));
    assert_eq!(
        FieldElement::new(4) / FieldElement::zero(),
        Err(FieldError::DivisionByZero)
    );
}

#[test]
fn pow_edge_cases() {
    let a = FieldElement::new(12345);
    assert_eq!(a.pow(0), FieldElement::one());
    assert_eq!(a.pow(1), a);
    assert_eq!(a.pow(2), a * a);
    assert_eq!(FieldElement::zero().pow(0), FieldElement::one());
    assert_eq!(FieldElement::zero().pow(5), FieldElement::zero());
    assert_eq!(FieldElement::new(2).pow(32).value(), 1073741823);
    assert_eq!(a.pow(P - 1), FieldElement::one());
}

#[test]
fn is_order_of_small_orders() {
    let one = FieldElement::one();
    let minus_one = FieldElement::new(P - 1);
    assert!(one.is_order(1));
    assert!(!minus_one.is_order(1));
    assert!(minus_one.is_order(2));
    // a multiple of the true order is refused
    assert!(!minus_one.is_order(4));
    assert!(!minus_one.is_order(6));
    assert!(!minus_one.is_order(3));
    let g = FieldElement::new(5);
    assert!(!g.is_order((P - 1) / 2));
    assert!(!g.is_order((P - 1) / 3));
    // an element of order 3: g^((p-1)/3)
    let w = g.pow((P - 1) / 3);
    assert!(w.is_order(3));
    assert!(!w.is_order(9));
    assert!(!w.is_order(6));
    // an element of order 8
    let e = g.pow((P - 1) / 8);
    assert!(e.is_order(8));
    assert!(!e.is_order(4));
    assert!(!e.is_order(16));
}

#[test]
fn compound_assignment() {
    let mut a = FieldElement::new(10);
    a += FieldElement::new(5);
    assert_eq!(a.value(), 15);
    a -= FieldElement::new(20);
    assert_eq!(a.value(), P - 5);
    a *= FieldElement::new(2);
    assert_eq!(a.value(), P - 10);
    let mut b = FieldElement::new(10);
    assert_eq!(b.div_assign(FieldElement::new(5)), Ok(()));
    assert_eq!(b.value(), 2);
    assert_eq!(
        b.div_assign(FieldElement::zero()),
        Err(FieldError::DivisionByZero)
    );
    assert_eq!(b.value(), 2);
}

#[test]
fn decimal_serialization() {
    assert_eq!(FieldElement::new(0).to_string(), "0");
    assert_eq!(FieldElement::new(7).to_string(), "7");
    assert_eq!(FieldElement::new(1050).to_string(), "1050");
    assert_eq!(FieldElement::new(P - 1).to_string(), "3221225472");
    assert_eq!(FieldElement::new(P + 3).to_string(), "3");
}

#[test]
fn random_elements_are_not_all_the_same() {
    let first = FieldElement::random_element();
    let mut differs = false;
    for _ in 0..200 {
        let next = FieldElement::random_element();
        assert!(next.value() < P);
        if next != first {
            differs = true;
        }
    }
    assert!(differs);
}
