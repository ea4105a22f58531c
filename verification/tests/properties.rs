use fraction_calculator::fraction::Fraction;

#[test]
fn normalization_gives_positive_denominator_and_lowest_terms() {
    let mut f = Fraction::new(36, -48);
    f.simplify();
    assert_eq!(f.numerator, -3);
    assert_eq!(f.denominator, 4);
}

#[test]
fn normalization_leaves_zero_and_undefined_alone() {
    let mut z = Fraction::new(0, 6);
    z.simplify();
    assert_eq!(z.numerator, 0);
    assert_eq!(z.denominator, 6);
    let mut u = Fraction::new(7, 0);
    u.simplify();
    assert_eq!(u.numerator, 7);
    assert_eq!(u.denominator, 0);
}

#[test]
fn normalization_handles_distant_magnitudes() {
    let mut f = Fraction::new(5, 1000000);
    f.simplify();
    assert_eq!(f.numerator, 1);
    assert_eq!(f.denominator, 200000);
}

#[test]
fn equality_is_reflexive_symmetric_transitive() {
    let a = Fraction::new(2, 4);
    let b = Fraction::new(3, 6);
    let c = Fraction::new(50, 100);
    assert_eq!(a, a);
    assert_eq!(a, b);
    assert_eq!(b, a);
    assert_eq!(b, c);
    assert_eq!(a, c);
}

#[test]
fn equality_distinguishes_zero_denominators() {
    // Two zero fractions with different denominators are left unnormalized
    // and so are not equal.
    let a = Fraction::new(0, 8);
    let b = Fraction::new(0, 16);
    assert_ne!(a, b);
}

#[test]
fn addition_commutes() {
    let a = Fraction::new(3, 7);
    let b = Fraction::new(-5, 9);
    assert_eq!(a.add(b), b.add(a));
}

#[test]
fn multiplication_commutes() {
    let a = Fraction::new(3, 7);
    let b = Fraction::new(-5, 9);
    assert_eq!(a.multiply(b), b.multiply(a));
}

#[test]
fn addition_associates_up_to_value_equality() {
    let a = Fraction::new(1, 2);
    let b = Fraction::new(1, 2);
    let c = Fraction::new(1, 3);
    let left = a.add(b).add(c);
    let right = a.add(b.add(c));
    // The representations differ; the values agree.
    assert!(!left.is_same_as(&right));
    assert_eq!(left, right);
}

#[test]
fn multiplication_associates() {
    let a = Fraction::new(2, 3);
    let b = Fraction::new(-7, 5);
    let c = Fraction::new(11, 4);
    assert_eq!(a.multiply(b).multiply(c), a.multiply(b.multiply(c)));
}

#[test]
fn reciprocal_of_zero_is_undefined() {
    let z = Fraction::new(0, 5);
    assert!(z.reciprocal().is_undefined());
}

#[test]
fn renders_whole_numbers_and_fractions() {
    assert_eq!(Fraction::new(7, 1).to_text(), "7");
    assert_eq!(Fraction::new(0, 1).to_text(), "0");
    assert_eq!(Fraction::new(-3, 4).to_text(), "-3/4");
    assert_eq!(Fraction::new(3, -4).to_text(), "3/-4");
    assert_eq!(Fraction::new(-9223372036854775808, 1).to_text(), "-9223372036854775808");
}

#[test]
fn parses_signs_and_rejects_malformed_literals() {
    assert_eq!(Fraction::from_str("+5").unwrap(), 5);
    assert_eq!(Fraction::from_str("-0").unwrap(), 0);
    let min = Fraction::from_str("-9223372036854775808").unwrap();
    assert_eq!(min.numerator, -9223372036854775808);
    assert!(Fraction::from_str("9223372036854775808").is_err());
    assert!(Fraction::from_str("").is_err());
    assert!(Fraction::from_str("+").is_err());
    assert!(Fraction::from_str("1/2/3").is_err());
    assert!(Fraction::from_str("1.5").is_err());
    assert!(Fraction::from_str(" 5").is_err());
    assert!(Fraction::from_str("1/-2").unwrap().is_same_as(&Fraction::new(1, -2)));
}

#[test]
fn clone_simplified_leaves_original_alone() {
    let f = Fraction::new(10, 20);
    let s = f.clone_simplified();
    assert_eq!(f.numerator, 10);
    assert_eq!(f.denominator, 20);
    assert_eq!(s.numerator, 1);
    assert_eq!(s.denominator, 2);
}
