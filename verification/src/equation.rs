//! The expression pipeline: a tokenizer for space-delimited infix input,
//! the shunting-yard conversion to postfix order, and the postfix evaluator.

use crate::fraction::{
    add_fits, div_fits, frac_add, frac_div, frac_mul, frac_sub, mul_fits, sub_fits, Fraction,
};
use crate::parse::fraction_literal_val;
use crate::render::{chars_to_string, frac_text};
use vstd::prelude::*;

verus! {

/// The failure of one evaluation, one kind per pipeline stage.
#[derive(Debug, Clone, Copy, PartialEq, Eq, Structural)]
pub enum EquationError {
    /// A piece of the input was neither an operator symbol nor a number
    /// literal.
    UnableToTokenize,
    /// An internal invariant of the shunting-yard stack was violated.  A
    /// defensive guard: the converter is proved never to return it.
    UnableToConvertToPostfix,
    /// The postfix sequence was malformed: an operand was missing, or
    /// values were left over at the end.
    UnableToEvaluate,
    /// An intermediate numerator or denominator left the machine integers.
    Overflow,
}

/// The description of each error.
pub open spec fn error_text(e: EquationError) -> Seq<char> {
    match e {
        EquationError::UnableToTokenize => "Unable to tokenize the equation"@,
        EquationError::UnableToConvertToPostfix => "Unable to convert to postfix notation"@,
        EquationError::UnableToEvaluate => "Unable to evaluate the postfix equation"@,
        EquationError::Overflow => "Unable to represent an intermediate value"@,
    }
}

impl EquationError {
    /// A short description of the failure.
    pub fn message(&self) -> (m: &'static str)
        ensures
            m@ == error_text(*self),
    {
        match self {
            EquationError::UnableToTokenize => "Unable to tokenize the equation",
            EquationError::UnableToConvertToPostfix => "Unable to convert to postfix notation",
            EquationError::UnableToEvaluate => "Unable to evaluate the postfix equation",
            EquationError::Overflow => "Unable to represent an intermediate value",
        }
    }
}

/// The closed set of binary operators.
#[derive(Debug, Clone, Copy, PartialEq, Eq, Structural)]
pub enum OperatorType {
    Add,
    Sub,
    Mul,
    Div,
}

/// The fixed precedence of each operator: multiplicative above additive.
pub open spec fn op_precedence(op: OperatorType) -> int {
    match op {
        OperatorType::Add => 0,
        OperatorType::Sub => 0,
        OperatorType::Mul => 1,
        OperatorType::Div => 1,
    }
}

/// The display symbol of each operator.
pub open spec fn op_symbol(op: OperatorType) -> char {
    match op {
        OperatorType::Add => '+',
        OperatorType::Sub => '-',
        OperatorType::Mul => '*',
        OperatorType::Div => '/',
    }
}

impl OperatorType {
    /// The operator's precedence.
    pub fn precedence(&self) -> (p: i32)
        ensures
            p as int == op_precedence(*self),
    {
        match self {
            OperatorType::Add => 0,
            OperatorType::Sub => 0,
            OperatorType::Mul => 1,
            OperatorType::Div => 1,
        }
    }

    /// The operator's display symbol.
    pub fn symbol(&self) -> (c: char)
        ensures
            c == op_symbol(*self),
    {
        match self {
            OperatorType::Add => '+',
            OperatorType::Sub => '-',
            OperatorType::Mul => '*',
            OperatorType::Div => '/',
        }
    }
}

/// One piece of an expression: a number or an operator.
#[derive(Debug, Clone, Copy)]
pub enum Token {
    Number(Fraction),
    Operator(OperatorType),
}

/// The text of a token: the fraction's text, or the operator's symbol.
pub open spec fn token_text(t: Token) -> Seq<char> {
    match t {
        Token::Number(f) => frac_text(f@),
        Token::Operator(op) => seq![op_symbol(op)],
    }
}

impl Token {
    /// The token as text.
    pub fn to_text(&self) -> (s: String)
        ensures
            s@ == token_text(*self),
    {
        match self {
            Token::Number(f) => f.to_text(),
            Token::Operator(op) => {
                let mut v: Vec<char> = Vec::new();
                v.push(op.symbol());
                proof {
                    assert(v@ =~= token_text(*self));
                }
                chars_to_string(v)
            },
        }
    }
}

/// Splits at every single space character.  The split is strict:
/// consecutive spaces, or leading and trailing ones, yield empty pieces.
pub open spec fn split_spaces(s: Seq<char>) -> Seq<Seq<char>>
    decreases s.len(),
{
    if s.len() == 0 {
        seq![s]
    } else if s[0] == ' ' {
        seq![Seq::<char>::empty()] + split_spaces(s.skip(1))
    } else {
        let r = split_spaces(s.skip(1));
        seq![seq![s[0]] + r[0]] + r.skip(1)
    }
}

/// A split has at least one piece.
proof fn lemma_split_spaces_nonempty(s: Seq<char>)
    ensures
        split_spaces(s).len() >= 1,
    decreases s.len(),
{
    if s.len() > 0 {
        lemma_split_spaces_nonempty(s.skip(1));
    }
}

/// A sequence without spaces is its own single piece.
proof fn lemma_split_spaces_none(s: Seq<char>)
    requires
        forall|j: int| 0 <= j < s.len() ==> s[j] != ' ',
    ensures
        split_spaces(s) =~~= seq![s],
    decreases s.len(),
{
    if s.len() > 0 {
        assert(forall|j: int| 0 <= j < s.skip(1).len() ==> #[trigger] s.skip(1)[j] != ' ');
        lemma_split_spaces_none(s.skip(1));
        lemma_split_spaces_nonempty(s.skip(1));
        assert(seq![s[0]] + s.skip(1) =~= s);
        assert(split_spaces(s) =~~= seq![s]);
    }
}

/// Splitting at the first space: the piece before it, then the split of
/// what follows it.
proof fn lemma_split_spaces_first(s: Seq<char>, i: int)
    requires
        0 <= i < s.len(),
        s[i] == ' ',
        forall|j: int| 0 <= j < i ==> s[j] != ' ',
    ensures
        split_spaces(s) =~~= seq![s.subrange(0, i)] + split_spaces(s.skip(i + 1)),
    decreases i,
{
    if i == 0 {
        assert(s.subrange(0, 0) =~= Seq::<char>::empty());
    } else {
        assert(forall|j: int| 0 <= j < i - 1 ==> #[trigger] s.skip(1)[j] != ' ');
        lemma_split_spaces_first(s.skip(1), i - 1);
        lemma_split_spaces_nonempty(s.skip(1).skip(i));
        assert(s.skip(1).subrange(0, i - 1) =~= s.subrange(1, i));
        assert(s.skip(1).skip(i) =~= s.skip(i + 1));
        assert(seq![s[0]] + s.subrange(1, i) =~= s.subrange(0, i));
        assert(split_spaces(s) =~~= seq![s.subrange(0, i)] + split_spaces(s.skip(i + 1)));
    }
}

/// What a single piece of the input denotes: an exact operator symbol, or
/// whatever the fraction literal parser accepts.  Anything else is nothing.
pub open spec fn token_of(piece: Seq<char>) -> Option<Token> {
    if piece.len() == 1 && piece[0] == '+' {
        Some(Token::Operator(OperatorType::Add))
    } else if piece.len() == 1 && piece[0] == '-' {
        Some(Token::Operator(OperatorType::Sub))
    } else if piece.len() == 1 && piece[0] == '*' {
        Some(Token::Operator(OperatorType::Mul))
    } else if piece.len() == 1 && piece[0] == '/' {
        Some(Token::Operator(OperatorType::Div))
    } else {
        match fraction_literal_val(piece) {
            Some(v) => Some(
                Token::Number(Fraction { numerator: v.0 as i64, denominator: v.1 as i64 }),
            ),
            None => None,
        }
    }
}

/// The tokens of a piece list; one bad piece fails the whole list.
pub open spec fn tokens_of(pieces: Seq<Seq<char>>) -> Option<Seq<Token>>
    decreases pieces.len(),
{
    if pieces.len() == 0 {
        Some(Seq::<Token>::empty())
    } else {
        match (token_of(pieces[0]), tokens_of(pieces.skip(1))) {
            (Some(t), Some(rest)) => Some(seq![t] + rest),
            _ => None,
        }
    }
}

/// The token sequence denoted by an input line: split at single spaces,
/// each piece classified.
pub open spec fn tokenize_val(s: Seq<char>) -> Option<Seq<Token>> {
    tokens_of(split_spaces(s))
}

/// Combines finished tokens with the tokens still owed by the rest of the
/// input.
spec fn opt_concat(done: Seq<Token>, rest: Option<Seq<Token>>) -> Option<Seq<Token>> {
    match rest {
        Some(r) => Some(done + r),
        None => None,
    }
}

/// Classifies the characters `s[from..to]` as one token.
fn classify_piece(s: &str, from: usize, to: usize) -> (r: Option<Token>)
    requires
        from <= to <= s@.len(),
    ensures
        r == token_of(s@.subrange(from as int, to as int)),
{
    let ghost piece = s@.subrange(from as int, to as int);
    if to > from && to - from == 1 {
        let c = s.get_char(from);
        if c == '+' {
            return Some(Token::Operator(OperatorType::Add));
        }
        if c == '-' {
            return Some(Token::Operator(OperatorType::Sub));
        }
        if c == '*' {
            return Some(Token::Operator(OperatorType::Mul));
        }
        if c == '/' {
            return Some(Token::Operator(OperatorType::Div));
        }
    }
    let text = s.substring_char(from, to);
    match Fraction::from_str(text) {
        Ok(f) => Some(Token::Number(f)),
        Err(_) => None,
    }
}

/// The expression evaluator.  It only supports integers, fractions, and
/// the four binary operators; parentheses and functions are out of scope.
pub struct Equation;

impl Equation {
    /// Splits one line of input at single spaces and classifies each piece
    /// as a number or an operator.  A piece that is neither fails the whole
    /// tokenization.
    pub fn tokenize(input: &str) -> (r: Result<Vec<Token>, EquationError>)
        ensures
            match tokenize_val(input@) {
                Some(ts) => r matches Ok(v) && v@ == ts,
                None => r == Err::<Vec<Token>, EquationError>(EquationError::UnableToTokenize),
            },
    {
        let n = input.unicode_len();
        let mut tokens: Vec<Token> = Vec::new();
        let mut start: usize = 0;
        let mut i: usize = 0;
        proof {
            assert(input@.skip(0) =~= input@);
        }
        while i < n
            invariant
                start <= i <= n,
                n == input@.len(),
                forall|j: int| start <= j < i ==> input@[j] != ' ',
                tokenize_val(input@) == opt_concat(
                    tokens@,
                    tokens_of(split_spaces(input@.skip(start as int))),
                ),
            decreases n - i,
        {
            let c = input.get_char(i);
            if c == ' ' {
                proof {
                    let rest = input@.skip(start as int);
                    assert(rest[i - start] == ' ');
                    assert(forall|j: int| 0 <= j < i - start ==> #[trigger] rest[j] != ' ');
                    lemma_split_spaces_first(rest, i - start);
                    assert(rest.subrange(0, i - start) =~= input@.subrange(
                        start as int,
                        i as int,
                    ));
                    assert(rest.skip(i - start + 1) =~= input@.skip(i + 1));
                }
                let t = classify_piece(input, start, i);
                match t {
                    Some(tok) => {
                        tokens.push(tok);
                        proof {
                            let piece = input@.subrange(start as int, i as int);
                            let pieces = seq![piece] + split_spaces(input@.skip(i + 1));
                            assert(pieces.skip(1) =~= split_spaces(input@.skip(i + 1)));
                            assert(tokens_of(pieces) == (match (token_of(piece), tokens_of(
                                split_spaces(input@.skip(i + 1)),
                            )) {
                                (Some(t0), Some(rest0)) => Some(seq![t0] + rest0),
                                _ => None::<Seq<Token>>,
                            }));
                            if tokens_of(split_spaces(input@.skip(i + 1))) is Some {
                                let rest0 = tokens_of(split_spaces(input@.skip(i + 1)))->Some_0;
                                assert(tokens@.drop_last() + (seq![tok] + rest0) =~= tokens@
                                    + rest0);
                            }
                        }
                        start = i + 1;
                    },
                    None => {
                        return Err(EquationError::UnableToTokenize);
                    },
                }
            }
            i = i + 1;
        }
        proof {
            let rest = input@.skip(start as int);
            assert(forall|j: int| 0 <= j < rest.len() ==> #[trigger] rest[j] != ' ');
            lemma_split_spaces_none(rest);
            assert(rest =~= input@.subrange(start as int, n as int));
        }
        let t = classify_piece(input, start, n);
        match t {
            Some(tok) => {
                tokens.push(tok);
                proof {
                    let rest = input@.skip(start as int);
                    assert(tokens_of(seq![rest]) == (match (token_of(rest), tokens_of(
                        seq![rest].skip(1),
                    )) {
                        (Some(t0), Some(rest0)) => Some(seq![t0] + rest0),
                        _ => None::<Seq<Token>>,
                    }));
                    assert(seq![rest].skip(1) =~= Seq::<Seq<char>>::empty());
                    if tokenize_val(input@) is Some {
                        assert(tokens@ =~= tokens@.drop_last() + (seq![tok]
                            + Seq::<Token>::empty()));
                    }
                }
                Ok(tokens)
            },
            None => Err(EquationError::UnableToTokenize),
        }
    }

    /// Converts an infix token sequence to postfix order with the
    /// shunting-yard algorithm.  Equal precedence pops before pushing, so
    /// every operator is left-associative.  The conversion never fails on
    /// any token sequence; the error kind exists as a defensive guard only.
    pub fn shunting_yard_algorithm(tokens: &Vec<Token>) -> (r: Result<Vec<Token>, EquationError>)
        ensures
            r matches Ok(v) && v@ == to_postfix(tokens@),
    {
        let ghost ts = tokens@;
        let mut output_queue: Vec<Token> = Vec::new();
        let mut operator_stack: Vec<OperatorType> = Vec::new();
        let n = tokens.len();
        let mut idx: usize = 0;
        proof {
            assert(ts.skip(0) =~= ts);
        }
        while idx < n
            invariant
                idx <= n,
                n == ts.len(),
                ts == tokens@,
                to_postfix(ts) == shunt_rec(ts.skip(idx as int), output_queue@, operator_stack@),
            decreases n - idx,
        {
            let token = tokens[idx];
            proof {
                assert(ts.skip(idx as int)[0] == token);
                assert(ts.skip(idx as int).skip(1) =~= ts.skip(idx + 1));
            }
            match token {
                Token::Number(_) => {
                    output_queue.push(token);
                },
                Token::Operator(current_operator) => {
                    let ghost out0 = output_queue@;
                    let ghost st0 = operator_stack@;
                    while operator_stack.len() > 0 && operator_stack[operator_stack.len()
                        - 1].precedence() >= current_operator.precedence()
                        invariant
                            pop_ge(current_operator, out0, st0) == pop_ge(
                                current_operator,
                                output_queue@,
                                operator_stack@,
                            ),
                        decreases operator_stack.len(),
                    {
                        let top = operator_stack.pop().unwrap();
                        output_queue.push(Token::Operator(top));
                    }
                    operator_stack.push(current_operator);
                },
            }
            idx = idx + 1;
        }
        proof {
            assert(ts.skip(n as int).len() == 0);
        }
        while operator_stack.len() > 0
            invariant
                to_postfix(ts) == drain(output_queue@, operator_stack@),
            decreases operator_stack.len(),
        {
            let top = operator_stack.pop().unwrap();
            output_queue.push(Token::Operator(top));
        }
        Ok(output_queue)
    }

    /// Evaluates a postfix token sequence with a value stack.  Numbers are
    /// pushed; an operator pops its right operand, then its left one, and
    /// pushes the result; at the end exactly one value must remain.
    pub fn evaluate_rpn(postfix: &Vec<Token>) -> (r: Result<Fraction, EquationError>)
        ensures
            match rpn_val(postfix@) {
                Ok(v) => r matches Ok(f) && f@ == v,
                Err(e) => r == Err::<Fraction, EquationError>(e),
            },
    {
        let ghost ts = postfix@;
        let mut number_stack: Vec<Fraction> = Vec::new();
        let n = postfix.len();
        let mut idx: usize = 0;
        proof {
            assert(ts.skip(0) =~= ts);
            assert(stack_views(number_stack@) =~= Seq::<(int, int)>::empty());
        }
        while idx < n
            invariant
                idx <= n,
                n == ts.len(),
                ts == postfix@,
                rpn_steps(ts, Seq::<(int, int)>::empty()) == rpn_steps(
                    ts.skip(idx as int),
                    stack_views(number_stack@),
                ),
            decreases n - idx,
        {
            let token = postfix[idx];
            proof {
                assert(ts.skip(idx as int)[0] == token);
                assert(ts.skip(idx as int).skip(1) =~= ts.skip(idx + 1));
            }
            match token {
                Token::Number(_) => {
                    let ghost s0 = number_stack@;
                    let f = token_fraction(token);
                    number_stack.push(f);
                    proof {
                        assert(stack_views(number_stack@) =~= stack_views(s0).push(f@));
                    }
                },
                Token::Operator(operator) => {
                    if number_stack.len() < 2 {
                        return Err(EquationError::UnableToEvaluate);
                    }
                    let ghost s0 = number_stack@;
                    let num2 = number_stack.pop().unwrap();
                    let num1 = number_stack.pop().unwrap();
                    let ghost s1 = number_stack@;
                    proof {
                        assert(stack_views(s0) =~= stack_views(s1).push(num1@).push(num2@));
                        assert(stack_views(s0).last() == num2@);
                        assert(stack_views(s0)[stack_views(s0).len() - 2] == num1@);
                        assert(stack_views(s0).drop_last().drop_last() =~= stack_views(s1));
                    }
                    match checked_apply(operator, num1, num2) {
                        Some(result) => {
                            number_stack.push(result);
                            proof {
                                assert(stack_views(number_stack@) =~= stack_views(s1).push(
                                    result@,
                                ));
                            }
                        },
                        None => {
                            return Err(EquationError::Overflow);
                        },
                    }
                },
            }
            idx = idx + 1;
        }
        proof {
            assert(ts.skip(n as int).len() == 0);
        }
        if number_stack.len() == 1 {
            let result = number_stack.pop().unwrap();
            proof {
                assert(stack_views(number_stack@.push(result))[0] == result@);
            }
            Ok(result)
        } else {
            Err(EquationError::UnableToEvaluate)
        }
    }

    /// Evaluates one line of input: tokenize, convert to postfix order,
    /// evaluate.  Each stage's failure is returned as its own error kind.
    pub fn eval(input: &str) -> (r: Result<Fraction, EquationError>)
        ensures
            match tokenize_val(input@) {
                None => r == Err::<Fraction, EquationError>(EquationError::UnableToTokenize),
                Some(ts) => match rpn_val(to_postfix(ts)) {
                    Ok(v) => r matches Ok(f) && f@ == v,
                    Err(e) => r == Err::<Fraction, EquationError>(e),
                },
            },
    {
        let tokens = match Self::tokenize(input) {
            Ok(t) => t,
            Err(e) => {
                return Err(e);
            },
        };
        let rpn = match Self::shunting_yard_algorithm(&tokens) {
            Ok(t) => t,
            Err(e) => {
                return Err(e);
            },
        };
        Self::evaluate_rpn(&rpn)
    }
}

/// Pops every stacked operator whose precedence is not below that of the
/// incoming one, appending each to the output.
pub open spec fn pop_ge(op: OperatorType, out: Seq<Token>, st: Seq<OperatorType>) -> (
    Seq<Token>,
    Seq<OperatorType>,
)
    decreases st.len(),
{
    if st.len() == 0 {
        (out, st)
    } else if op_precedence(op) > op_precedence(st.last()) {
        (out, st)
    } else {
        pop_ge(op, out.push(Token::Operator(st.last())), st.drop_last())
    }
}

/// Pops the whole operator stack onto the output, in stack order.
pub open spec fn drain(out: Seq<Token>, st: Seq<OperatorType>) -> Seq<Token>
    decreases st.len(),
{
    if st.len() == 0 {
        out
    } else {
        drain(out.push(Token::Operator(st.last())), st.drop_last())
    }
}

/// The conversion pass: numbers go to the output directly, operators go
/// through the precedence-ordered stack, and the stack is drained at the
/// end.
pub open spec fn shunt_rec(ts: Seq<Token>, out: Seq<Token>, st: Seq<OperatorType>) -> Seq<Token>
    decreases ts.len(),
{
    if ts.len() == 0 {
        drain(out, st)
    } else {
        match ts[0] {
            Token::Number(_) => shunt_rec(ts.skip(1), out.push(ts[0]), st),
            Token::Operator(op) => {
                let p = pop_ge(op, out, st);
                shunt_rec(ts.skip(1), p.0, p.1.push(op))
            },
        }
    }
}

/// The postfix order of an infix token sequence.
pub open spec fn to_postfix(ts: Seq<Token>) -> Seq<Token> {
    shunt_rec(ts, Seq::<Token>::empty(), Seq::<OperatorType>::empty())
}

/// The fraction inside a number token; an operator has none.
pub open spec fn spec_token_fraction(t: Token) -> Fraction
    recommends
        t is Number,
{
    match t {
        Token::Number(f) => f,
        Token::Operator(_) => Fraction { numerator: 0, denominator: 0 },
    }
}

/// Extracts the fraction from a number token.
fn token_fraction(t: Token) -> (f: Fraction)
    requires
        t is Number,
    ensures
        f == spec_token_fraction(t),
{
    match t {
        Token::Number(f) => f,
        Token::Operator(_) => Fraction::new(0, 0),
    }
}

/// The views of a stack of fractions.
pub open spec fn stack_views(s: Seq<Fraction>) -> Seq<(int, int)> {
    s.map_values(|f: Fraction| f@)
}

/// The exact arithmetic each operator performs on two raw representations.
pub open spec fn apply_op(op: OperatorType, a: (int, int), b: (int, int)) -> (int, int) {
    match op {
        OperatorType::Add => frac_add(a, b),
        OperatorType::Sub => frac_sub(a, b),
        OperatorType::Mul => frac_mul(a, b),
        OperatorType::Div => frac_div(a, b),
    }
}

/// Whether the operator's arithmetic stays within the machine integers.
pub open spec fn apply_fits(op: OperatorType, a: (int, int), b: (int, int)) -> bool {
    match op {
        OperatorType::Add => add_fits(a, b),
        OperatorType::Sub => sub_fits(a, b),
        OperatorType::Mul => mul_fits(a, b),
        OperatorType::Div => div_fits(a, b),
    }
}

/// The value stack after consuming a postfix sequence, or the error that
/// stops it: a missing operand stops evaluation, and so does a value that
/// the machine integers cannot hold.
pub open spec fn rpn_steps(ts: Seq<Token>, stack: Seq<(int, int)>) -> Result<
    Seq<(int, int)>,
    EquationError,
>
    decreases ts.len(),
{
    if ts.len() == 0 {
        Ok(stack)
    } else {
        match ts[0] {
            Token::Number(f) => rpn_steps(ts.skip(1), stack.push(f@)),
            Token::Operator(op) => {
                if stack.len() < 2 {
                    Err(EquationError::UnableToEvaluate)
                } else {
                    let b = stack.last();
                    let a = stack[stack.len() - 2];
                    if apply_fits(op, a, b) {
                        rpn_steps(
                            ts.skip(1),
                            stack.drop_last().drop_last().push(apply_op(op, a, b)),
                        )
                    } else {
                        Err(EquationError::Overflow)
                    }
                }
            },
        }
    }
}

/// The value of a postfix token sequence: the single value left on the
/// stack; anything else is an evaluation error.
pub open spec fn rpn_val(ts: Seq<Token>) -> Result<(int, int), EquationError> {
    match rpn_steps(ts, Seq::<(int, int)>::empty()) {
        Ok(st) => if st.len() == 1 {
            Ok(st[0])
        } else {
            Err(EquationError::UnableToEvaluate)
        },
        Err(e) => Err(e),
    }
}

/// How many number tokens a sequence holds.
pub open spec fn number_count(ts: Seq<Token>) -> int
    decreases ts.len(),
{
    if ts.len() == 0 {
        0
    } else {
        (if ts[0] is Number {
            1int
        } else {
            0int
        }) + number_count(ts.skip(1))
    }
}

/// How many operator tokens a sequence holds.
pub open spec fn operator_count(ts: Seq<Token>) -> int
    decreases ts.len(),
{
    if ts.len() == 0 {
        0
    } else {
        (if ts[0] is Operator {
            1int
        } else {
            0int
        }) + operator_count(ts.skip(1))
    }
}

/// Appending one token raises its kind's count by one.
proof fn lemma_counts_push(ts: Seq<Token>, t: Token)
    ensures
        number_count(ts.push(t)) == number_count(ts) + (if t is Number {
            1int
        } else {
            0int
        }),
        operator_count(ts.push(t)) == operator_count(ts) + (if t is Operator {
            1int
        } else {
            0int
        }),
    decreases ts.len(),
{
    if ts.len() == 0 {
        assert(ts.push(t).skip(1) =~= ts);
    } else {
        assert(ts.push(t).skip(1) =~= ts.skip(1).push(t));
        lemma_counts_push(ts.skip(1), t);
    }
}

/// Draining the stack moves operators only.
proof fn lemma_counts_drain(out: Seq<Token>, st: Seq<OperatorType>)
    ensures
        number_count(drain(out, st)) == number_count(out),
        operator_count(drain(out, st)) == operator_count(out) + st.len(),
    decreases st.len(),
{
    if st.len() > 0 {
        lemma_counts_push(out, Token::Operator(st.last()));
        lemma_counts_drain(out.push(Token::Operator(st.last())), st.drop_last());
    }
}

/// Popping by precedence moves operators from the stack to the output.
proof fn lemma_counts_pop_ge(op: OperatorType, out: Seq<Token>, st: Seq<OperatorType>)
    ensures
        number_count(pop_ge(op, out, st).0) == number_count(out),
        operator_count(pop_ge(op, out, st).0) + pop_ge(op, out, st).1.len() == operator_count(out)
            + st.len(),
    decreases st.len(),
{
    if st.len() > 0 && !(op_precedence(op) > op_precedence(st.last())) {
        lemma_counts_push(out, Token::Operator(st.last()));
        lemma_counts_pop_ge(op, out.push(Token::Operator(st.last())), st.drop_last());
    }
}

/// The conversion pass keeps every token.
proof fn lemma_counts_shunt_rec(ts: Seq<Token>, out: Seq<Token>, st: Seq<OperatorType>)
    ensures
        number_count(shunt_rec(ts, out, st)) == number_count(ts) + number_count(out),
        operator_count(shunt_rec(ts, out, st)) == operator_count(ts) + operator_count(out)
            + st.len(),
    decreases ts.len(),
{
    if ts.len() == 0 {
        lemma_counts_drain(out, st);
    } else {
        match ts[0] {
            Token::Number(_) => {
                lemma_counts_push(out, ts[0]);
                lemma_counts_shunt_rec(ts.skip(1), out.push(ts[0]), st);
            },
            Token::Operator(op) => {
                lemma_counts_pop_ge(op, out, st);
                lemma_counts_shunt_rec(ts.skip(1), pop_ge(op, out, st).0, pop_ge(
                    op,
                    out,
                    st,
                ).1.push(op));
            },
        }
    }
}

/// The postfix order of a token sequence holds exactly the tokens of the
/// infix one: both counts are unchanged.
pub proof fn lemma_to_postfix_counts(ts: Seq<Token>)
    ensures
        number_count(to_postfix(ts)) == number_count(ts),
        operator_count(to_postfix(ts)) == operator_count(ts),
{
    lemma_counts_shunt_rec(ts, Seq::<Token>::empty(), Seq::<OperatorType>::empty());
}

/// When postfix evaluation completes, the stack has grown by one entry per
/// number and shrunk by one per operator.
proof fn lemma_rpn_steps_balance(ts: Seq<Token>, stack: Seq<(int, int)>)
    requires
        rpn_steps(ts, stack) is Ok,
    ensures
        rpn_steps(ts, stack)->Ok_0.len() == stack.len() + number_count(ts) - operator_count(ts),
    decreases ts.len(),
{
    if ts.len() > 0 {
        match ts[0] {
            Token::Number(f) => {
                lemma_rpn_steps_balance(ts.skip(1), stack.push(f@));
            },
            Token::Operator(op) => {
                let b = stack.last();
                let a = stack[stack.len() - 2];
                lemma_rpn_steps_balance(
                    ts.skip(1),
                    stack.drop_last().drop_last().push(apply_op(op, a, b)),
                );
            },
        }
    }
}

/// A token sequence with a mismatched number and operator count is always
/// rejected: a well-formed expression has exactly one number more than it
/// has operators, and on any other sequence the pipeline returns an error
/// — it never produces a value (and, being verified, never crashes).
pub proof fn lemma_mismatched_counts_rejected(ts: Seq<Token>)
    requires
        number_count(ts) != operator_count(ts) + 1,
    ensures
        rpn_val(to_postfix(ts)) is Err,
{
    lemma_to_postfix_counts(ts);
    let pf = to_postfix(ts);
    if rpn_steps(pf, Seq::<(int, int)>::empty()) is Ok {
        lemma_rpn_steps_balance(pf, Seq::<(int, int)>::empty());
    }
}

/// Adds two fractions with overflow-checked arithmetic.
fn checked_add_frac(a: Fraction, b: Fraction) -> (r: Option<Fraction>)
    ensures
        add_fits(a@, b@) ==> (r matches Some(f) && f@ == frac_add(a@, b@)),
        !add_fits(a@, b@) ==> r is None,
{
    if a.denominator == b.denominator {
        match a.numerator.checked_add(b.numerator) {
            Some(x) => Some(Fraction::new(x, a.denominator)),
            None => None,
        }
    } else {
        let p1 = a.numerator.checked_mul(b.denominator);
        let p2 = b.numerator.checked_mul(a.denominator);
        let dd = a.denominator.checked_mul(b.denominator);
        match (p1, p2, dd) {
            (Some(x), Some(y), Some(d)) => match x.checked_add(y) {
                Some(s) => Some(Fraction::new(s, d)),
                None => None,
            },
            _ => None,
        }
    }
}

/// Multiplies two fractions with overflow-checked arithmetic.
fn checked_mul_frac(a: Fraction, b: Fraction) -> (r: Option<Fraction>)
    ensures
        mul_fits(a@, b@) ==> (r matches Some(f) && f@ == frac_mul(a@, b@)),
        !mul_fits(a@, b@) ==> r is None,
{
    let p = a.numerator.checked_mul(b.numerator);
    let dd = a.denominator.checked_mul(b.denominator);
    match (p, dd) {
        (Some(x), Some(d)) => Some(Fraction::new(x, d)),
        _ => None,
    }
}

/// Applies one operator to two fractions with overflow-checked arithmetic:
/// the result exists exactly when every intermediate fits the machine
/// integers.
fn checked_apply(op: OperatorType, a: Fraction, b: Fraction) -> (r: Option<Fraction>)
    ensures
        apply_fits(op, a@, b@) ==> (r matches Some(f) && f@ == apply_op(op, a@, b@)),
        !apply_fits(op, a@, b@) ==> r is None,
{
    match op {
        OperatorType::Add => checked_add_frac(a, b),
        OperatorType::Sub => {
            if b.numerator == i64::MIN {
                None
            } else {
                checked_add_frac(a, Fraction::new(-b.numerator, b.denominator))
            }
        },
        OperatorType::Mul => checked_mul_frac(a, b),
        OperatorType::Div => checked_mul_frac(a, Fraction::new(b.denominator, b.numerator)),
    }
}

} // verus!
