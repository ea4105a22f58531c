use fraction_calculator::equation::{Equation, EquationError, OperatorType, Token};
use fraction_calculator::fraction::Fraction;

fn join_tokens(tokens: &Vec<Token>) -> String {
    tokens.iter().map(|t| t.to_text()).collect::<Vec<String>>().join(" ")
}

#[test]
fn rpn1() {
    let tokens = vec![
        Token::Number(Fraction::new(3, 1)),
        Token::Operator(OperatorType::Add),
        Token::Number(Fraction::new(4, 1)),
    ];
    let result = join_tokens(&Equation::shunting_yard_algorithm(&tokens).unwrap());
    let expected = "3 4 +";
    assert_eq!(result, expected);
}

#[test]
fn rpn2() {
    let tokens = vec![
        Token::Number(Fraction::new(2, 3)),
        Token::Operator(OperatorType::Add),
        Token::Number(Fraction::new(5, 8)),
        Token::Operator(OperatorType::Mul),
        Token::Number(Fraction::new(-8, 7)),
    ];
    let result = join_tokens(&Equation::shunting_yard_algorithm(&tokens).unwrap());
    let expected = "2/3 5/8 -8/7 * +";
    assert_eq!(result, expected);
}

#[test]
fn eval1() {
    let result = Equation::eval("3 + 4").unwrap();
    let expected = 7;
    assert_eq!(result, expected);
}

#[test]
fn eval2() {
    let result = Equation::eval("1/2 + 2 * -1/8").unwrap();
    let expected = Fraction::new(1, 4);
    assert_eq!(result, expected)
}

#[test]
fn eval_regression_long() {
    let result = Equation::eval("3 + 4/5 * 6/7 + 1/2 - 2 * 3").unwrap();
    let expected = Fraction::new(-127, 70);
    assert_eq!(result, expected);
    assert_eq!(result.numerator, -127);
    assert_eq!(result.denominator, 70);
}

#[test]
fn eval_single_number() {
    let result = Equation::eval("42").unwrap();
    assert_eq!(result, 42);
}

#[test]
fn eval_missing_operand() {
    let result = Equation::eval("3 +");
    assert!(matches!(result, Err(EquationError::UnableToEvaluate)));
}

#[test]
fn eval_extra_operand() {
    let result = Equation::eval("3 4");
    assert!(matches!(result, Err(EquationError::UnableToEvaluate)));
}

#[test]
fn eval_rpn_style_counts_match() {
    // Three tokens in postfix order happen to convert to themselves and
    // evaluate: the counts are balanced.
    let result = Equation::eval("3 4 +").unwrap();
    assert_eq!(result, 7);
}

#[test]
fn eval_operator_first_counts_match() {
    // A leading operator is pushed onto an empty stack and drained after
    // both numbers, so this too evaluates.
    let result = Equation::eval("+ 3 4").unwrap();
    assert_eq!(result, 7);
}

#[test]
fn eval_unparseable_literal() {
    let result = Equation::eval("3 ? 4");
    assert!(matches!(result, Err(EquationError::UnableToTokenize)));
}

#[test]
fn eval_empty_input() {
    let result = Equation::eval("");
    assert!(matches!(result, Err(EquationError::UnableToTokenize)));
}

#[test]
fn eval_double_space() {
    let result = Equation::eval("3  + 4");
    assert!(matches!(result, Err(EquationError::UnableToTokenize)));
}

#[test]
fn eval_overflow() {
    let result = Equation::eval("9223372036854775807 * 3");
    assert!(matches!(result, Err(EquationError::Overflow)));
}

#[test]
fn eval_division_by_zero_fraction_is_undefined() {
    // Division by a zero fraction is not guarded: the undefined fraction
    // propagates instead of failing.
    let result = Equation::eval("1 / 0").unwrap();
    assert!(result.is_undefined());
}

#[test]
fn error_messages() {
    assert_eq!(
        EquationError::UnableToTokenize.message(),
        "Unable to tokenize the equation"
    );
    assert_eq!(
        EquationError::UnableToConvertToPostfix.message(),
        "Unable to convert to postfix notation"
    );
    assert_eq!(
        EquationError::UnableToEvaluate.message(),
        "Unable to evaluate the postfix equation"
    );
    assert_eq!(
        EquationError::Overflow.message(),
        "Unable to represent an intermediate value"
    );
}

#[test]
fn operator_precedences() {
    assert_eq!(OperatorType::Add.precedence(), 0);
    assert_eq!(OperatorType::Sub.precedence(), 0);
    assert_eq!(OperatorType::Mul.precedence(), 1);
    assert_eq!(OperatorType::Div.precedence(), 1);
}

#[test]
fn operator_symbols() {
    assert_eq!(OperatorType::Add.symbol(), '+');
    assert_eq!(OperatorType::Sub.symbol(), '-');
    assert_eq!(OperatorType::Mul.symbol(), '*');
    assert_eq!(OperatorType::Div.symbol(), '/');
}

#[test]
fn left_associative_subtraction() {
    // 10 - 4 - 3 must group as (10 - 4) - 3.
    let result = Equation::eval("10 - 4 - 3").unwrap();
    assert_eq!(result, 3);
}

#[test]
fn left_associative_division() {
    // 8 / 4 / 2 must group as (8 / 4) / 2.
    let result = Equation::eval("8 / 4 / 2").unwrap();
    assert_eq!(result, 1);
}
