use fraction_calculator::fraction::Fraction;

#[test]
fn is_undefined() {
    assert!(Fraction::new(5, 0).is_undefined())
}

#[test]
fn is_zero() {
    assert!(Fraction::new(0, 10).is_zero());
}

#[test]
fn is_same_as() {
    let f1 = Fraction::new(123, 456);
    let f2 = Fraction::new(123, 456);
    assert!(f1.is_same_as(&f2));
}

#[test]
fn is_not_same_as() {
    let f1 = Fraction::new(123, 456);
    let f2 = Fraction::new(456, 123);
    assert!(!f1.is_same_as(&f2));
}

#[test]
fn reciprocal() {
    let f1 = Fraction::new(123, 456);
    let result = f1.clone().reciprocal();
    let expected = Fraction::new(456, 123);
    assert_eq!(result, expected);
}

#[test]
fn equality() {
    let f1 = Fraction::new(6, 12);
    let f2 = Fraction::new(1, 2);
    assert_eq!(f1, f2);
}

#[test]
fn equality_with_int() {
    let f1 = Fraction::new(3, 1);
    let expected = f1.numerator;
    assert_eq!(f1, expected);
}

#[test]
fn equality_with_zero() {
    assert_eq!(Fraction::new(0, 1), 0);
}

#[test]
fn simplify_positive() {
    let mut f1 = Fraction::new(8, 32);
    f1.simplify();
    let expected = Fraction::new(1, 4);
    assert_eq!(f1.numerator, expected.numerator);
    assert_eq!(f1.denominator, expected.denominator);
}

#[test]
fn simplify_negative() {
    let mut f1 = Fraction::new(-3, 9);
    f1.simplify();
    let expected = Fraction::new(-1, 3);
    assert_eq!(f1.numerator, expected.numerator);
    assert_eq!(f1.denominator, expected.denominator);
}

#[test]
fn simplify_zero() {
    let mut f1 = Fraction::new(0, 1);
    f1.simplify();
    assert_eq!(f1, 0);
}

#[test]
fn simplify_double_negative() {
    let mut f1 = Fraction::new(-5, -25);
    f1.simplify();
    let expected = Fraction::new(1, 5);
    assert_eq!(f1.numerator, expected.numerator);
    assert_eq!(f1.denominator, expected.denominator);
}

#[test]
fn addition_with_common_denominator() {
    let f1 = Fraction::new(1, 5);
    let f2 = Fraction::new(3, 5);
    let result = f1.add(f2);
    let expected = Fraction::new(4, 5);
    assert_eq!(result, expected);
}

#[test]
fn addition_without_common_denominator() {
    let f1 = Fraction::new(1, 3);
    let f2 = Fraction::new(1, 2);
    let result = f1.add(f2);
    let expected = Fraction::new(5, 6);
    assert_eq!(result, expected);
}

#[test]
fn addition_with_two_negatives() {
    let f1 = Fraction::new(-2, 3);
    let f2 = Fraction::new(-4, 8);
    let result = f1.add(f2);
    let expected = Fraction::new(-7, 6);
    assert_eq!(result, expected);
}

#[test]
fn addition_with_one_negative_first() {
    let f1 = Fraction::new(-7, 14);
    let f2 = Fraction::new(1, 1);
    let result = f1.add(f2);
    let expected = Fraction::new(1, 2);
    assert_eq!(result, expected);
}

#[test]
fn addition_with_one_negative_last() {
    let f1 = Fraction::new(3, 5);
    let f2 = Fraction::new(-2, 5);
    let result = f1.add(f2);
    let expected = Fraction::new(1, 5);
    assert_eq!(result, expected);
}

#[test]
fn addition_of_three_fractions() {
    let f1 = Fraction::new(5, 4);
    let f2 = Fraction::new(3, 4);
    let f3 = Fraction::new(8, 4);
    let result = f1.add(f2).add(f3);
    let expected = 4;
    assert_eq!(result, expected);
}

#[test]
fn negative() {
    let f1 = Fraction::new(4, 3);
    let result = f1.negate();
    let expected = Fraction::new(-4, 3);
    assert_eq!(result, expected);
}

#[test]
fn subtraction() {
    let f1 = Fraction::new(6, 7);
    let f2 = Fraction::new(2, 7);
    let result = f1.subtract(f2);
    let expected = Fraction::new(4, 7);
    assert_eq!(result, expected);
}

#[test]
fn from_string() {
    let result = Fraction::from_str("6/18").unwrap();
    let expected = Fraction::new(1, 3);
    assert_eq!(result, expected);
}

#[test]
fn from_string_to_whole_number() {
    let result = Fraction::from_str("8/4").unwrap();
    let expected = 2;
    assert_eq!(result, expected);
}

#[test]
fn multiplication() {
    let f1 = Fraction::new(5, 8);
    let f2 = Fraction::new(6, 12);
    let result = f1.multiply(f2);
    let expected = Fraction::new(30, 96);
    assert_eq!(result, expected);
}

#[test]
fn multiplication_to_whole_number() {
    let f1 = Fraction::new(9, 3);
    let f2 = Fraction::new(1, 3);
    let result = f1.multiply(f2);
    let expected = 1;
    assert_eq!(result, expected);
}

#[test]
fn division() {
    let f1 = Fraction::new(1, 6);
    let f2 = Fraction::new(1, 3);
    let result = f1.divide(f2);
    let expected = Fraction::new(1, 2);
    assert_eq!(result, expected);
}

#[test]
fn division_to_whole_number() {
    let f1 = Fraction::new(1, 2);
    let f2 = Fraction::new(1, 4);
    let result = f1.divide(f2);
    let expected = 2;
    assert_eq!(result, expected);
}

#[test]
fn complex_equation1() {
    let f1 = Fraction::new(1, 2);
    let f2 = Fraction::new(1, 4);
    let result = f1.add(f2).subtract(f2).divide(f2).multiply(f1.negate());
    let expected = -1;
    assert_eq!(result, expected);
}
