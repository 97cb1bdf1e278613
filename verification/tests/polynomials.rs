use stark_primitives::field::FieldElement;
use stark_primitives::polynomials::Polynomial;
use stark_primitives::utils::{remove_trailing_elements, zip_with};

fn elements(values: &[u32]) -> Vec<FieldElement> {
    values.iter().map(|v| FieldElement::new(*v)).collect()
}

#[test]
fn test_polynomial_display() {
    let first = Polynomial::new(vec![
        FieldElement::new(1),
        FieldElement::new(2),
        FieldElement::new(3),
    ]);
    assert_eq!(first.to_string(), "1 + 2*X + 3*X^2");

    let second = Polynomial::new(vec![
        FieldElement::new(1),
        FieldElement::new(0),
        FieldElement::new(0),
        FieldElement::new(2),
    ]);
    assert_eq!(second.to_string(), "1 + 2*X^3");

    let third = Polynomial::new(vec![FieldElement::zero()]);
    assert_eq!(third.to_string(), "0");
}

#[test]
fn display_leaves_out_unit_coefficients() {
    assert_eq!(Polynomial::new(elements(&[1, 1, 1])).to_string(), "1 + X + X^2");
    assert_eq!(Polynomial::new(elements(&[0, 1])).to_string(), "X");
    assert_eq!(Polynomial::new(elements(&[0, 0, 7])).to_string(), "7*X^2");
    assert_eq!(Polynomial::new(elements(&[5])).to_string(), "5");
    assert_eq!(Polynomial::new(Vec::new()).to_string(), "0");
    let mut long = vec![0u32; 12];
    long[11] = 1;
    long[10] = 4;
    assert_eq!(Polynomial::new(elements(&long)).to_string(), "4*X^10 + X^11");
}

#[test]
fn trailing_elements_are_removed_and_the_rest_is_turned_round() {
    let zero = FieldElement::zero();
    assert_eq!(
        remove_trailing_elements(elements(&[1, 2, 0, 0]), zero),
        elements(&[2, 1])
    );
    assert_eq!(
        remove_trailing_elements(elements(&[0, 1, 0, 3]), zero),
        elements(&[3, 0, 1, 0])
    );
    assert_eq!(remove_trailing_elements(elements(&[0, 0]), zero), elements(&[]));
    assert_eq!(remove_trailing_elements(elements(&[]), zero), elements(&[]));
    assert_eq!(
        remove_trailing_elements(elements(&[4, 7, 7]), FieldElement::new(7)),
        elements(&[4])
    );
}

#[test]
fn zip_with_pads_the_shorter_list_with_zeros() {
    let sum = zip_with(elements(&[1, 2, 3]), elements(&[10]), |a, b| a + b);
    assert_eq!(sum, elements(&[11, 2, 3]));
    let diff = zip_with(elements(&[1]), elements(&[1, 2]), |a, b| a - b);
    assert_eq!(diff, elements(&[0, 3221225471]));
    let none = zip_with(Vec::new(), Vec::new(), |a, b| a * b);
    assert!(none.is_empty());
}

#[test]
fn degree_counts_the_kept_coefficients() {
    assert_eq!(Polynomial::new(elements(&[1, 2, 3])).degree(), 2);
    assert_eq!(Polynomial::new(elements(&[9])).degree(), 0);
    assert_eq!(Polynomial::new(elements(&[1, 2, 0])).degree(), 1);
}

#[test]
fn sums_and_differences_go_entry_by_entry() {
    let a = Polynomial::new(elements(&[1, 2, 3]));
    let b = Polynomial::new(elements(&[4, 5, 6]));
    assert_eq!((a.clone() + b.clone()).to_string(), "9 + 7*X + 5*X^2");
    assert_eq!((b.clone() - a.clone()).to_string(), "3 + 3*X + 3*X^2");
    assert_eq!((a.clone() - a.clone()).to_string(), "0");
    assert!(a.clone() == a.clone());
    assert!(a != b);
    let zero = Polynomial::new(Vec::new());
    assert!(a.clone() - a.clone() == zero);
}

#[test]
fn negation_subtracts_from_zero() {
    let a = Polynomial::new(elements(&[1, 2]));
    let n = a.neg();
    assert_eq!(n.to_string(), "3221225471 + 3221225472*X");
    assert_eq!(Polynomial::new(Vec::new()).neg().to_string(), "0");
}

#[test]
fn product_of_two_polynomials() {
    let a = Polynomial::new(elements(&[1, 2]));
    let b = Polynomial::new(elements(&[3, 4]));
    assert_eq!((a * b).to_string(), "3 + 10*X + 8*X^2");
    let c = Polynomial::new(elements(&[1, 1]));
    let d = Polynomial::new(elements(&[3221225472, 1]));
    assert_eq!((c * d).to_string(), "3221225472 + X^2");
    let e = Polynomial::new(elements(&[2]));
    let f = Polynomial::new(elements(&[1, 0, 3]));
    assert_eq!((e * f).to_string(), "2 + 6*X^2");
}

#[test]
fn a_number_is_added_as_a_polynomial_of_one_coefficient() {
    let a = Polynomial::new(elements(&[1]));
    assert_eq!((a.clone() + 5).to_string(), "6");
    assert_eq!((a.clone() - 1).to_string(), "0");
    assert_eq!((a - 3221225473).to_string(), "1");
    let zero = Polynomial::new(Vec::new());
    assert_eq!((zero + 7).to_string(), "7");
}

#[test]
fn composition_of_the_zero_polynomial() {
    let zero = Polynomial::new(elements(&[0, 0]));
    let g = Polynomial::new(elements(&[1, 1]));
    assert_eq!(zero.compose(&g).to_string(), "0");
    assert!(zero.compose(&g) == Polynomial::new(Vec::new()));
}
