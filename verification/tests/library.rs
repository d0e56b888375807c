//! Tests of the library's own guarantees: numeric evaluation of converted
//! expressions, the error taxonomy, validation purity and negation encoding.

use rpn::rpn_convert::shunting_yard::convert_in_to_post_fix;
use rpn::rpn_convert::{handle_non_op_token, ConvError, MathValue, Validate};
use rpn::{get_rpn_tree, get_rpn_yard, in_to_rpn};

/// Evaluates a numeric infix expression by converting it to postfix with the
/// shunting yard and folding the result over an operand stack, exactly as a
/// numeric caller of the library would.
fn solve(input: &str) -> Result<f64, ConvError> {
    let rpn_form = convert_in_to_post_fix(input)?;
    let mut total_stack: Vec<f64> = Vec::new();
    let mut iter = rpn_form.iter();
    while let Some(value) = iter.next() {
        match value {
            MathValue::Num(text) => total_stack.push(text.parse::<f64>().unwrap()),
            MathValue::Op(op) => {
                let b = total_stack.pop().unwrap();
                let a = total_stack.pop().unwrap();
                let v = match *op {
                    '+' => a + b,
                    '-' => a - b,
                    '*' => a * b,
                    '/' => a / b,
                    '^' => a.powf(b),
                    _ => panic!("unexpected operator"),
                };
                total_stack.push(v);
            }
            MathValue::Alge(_) => continue,
        }
    }
    Ok(total_stack.pop().unwrap())
}

#[test]
fn eval_simple_addition() {
    assert_eq!(10.0, solve("3 + 7").unwrap());
}

#[test]
fn eval_simple_subtraction() {
    assert_eq!(6.0, solve("10 - 4").unwrap());
}

#[test]
fn eval_simple_multiplication() {
    assert_eq!(40.0, solve("5*8").unwrap());
}

#[test]
fn eval_simple_division() {
    assert_eq!(5.0, solve("20 / 4").unwrap());
}

#[test]
fn eval_mixed_operations() {
    assert_eq!(12.0, solve("4 + 2 * 5 - 8 / 4").unwrap());
}

#[test]
fn eval_negatives() {
    assert_eq!(10.0, solve("(!5+!5) * !1").unwrap());
}

#[test]
fn eval_division_by_zero() {
    assert_eq!(f64::INFINITY, solve("10/0").unwrap());
}

#[test]
fn eval_complex_expression() {
    assert_eq!(-0.41000000000000014, solve("3.34 + 12 * ( 4 - 2 ) / !6.4").unwrap());
}

#[test]
fn eval_power_left_associative() {
    // Both converters fold `^` left-associatively: 2 ^ 3 ^ 2 is (2^3)^2.
    assert_eq!(64.0, solve("2^3^2").unwrap());
}

#[test]
fn error_invalid_operation() {
    assert_eq!(ConvError::InvalidOperator('='), convert_in_to_post_fix("10=2").unwrap_err());
}

#[test]
fn error_invalid_operator_identifies_character() {
    assert_eq!(ConvError::InvalidOperator('='), convert_in_to_post_fix("5+6=a").unwrap_err());
}

#[test]
fn error_too_short() {
    assert_eq!(ConvError::TooShort, get_rpn_yard("2+").unwrap_err());
    assert_eq!(ConvError::TooShort, get_rpn_yard("   ").unwrap_err());
}

#[test]
fn error_invalid_character() {
    assert_eq!(ConvError::InvalidCharacter, get_rpn_yard("3@5+7*(8+4)").unwrap_err());
}

#[test]
fn error_adjacent_operators() {
    assert_eq!(ConvError::AdjacentOperators, get_rpn_yard("2++5-3*(5--2)").unwrap_err());
}

#[test]
fn error_unbalanced_parentheses() {
    assert_eq!(ConvError::UnbalancedParentheses, get_rpn_yard("(()").unwrap_err());
    assert_eq!(ConvError::UnbalancedParentheses, get_rpn_tree("))((").unwrap_err());
}

#[test]
fn error_malformed_number() {
    assert_eq!(ConvError::MalformedNumber, get_rpn_yard("5..2+1").unwrap_err());
}

#[test]
fn error_insufficient_operands() {
    assert_eq!(ConvError::InsufficientOperands, get_rpn_tree("2+3+4+").unwrap_err());
}

#[test]
fn char_containment() {
    assert!(Validate::char_contained_in('(', "().!"));
    assert!(Validate::char_contained_in('!', "().!"));
    assert!(!Validate::char_contained_in('a', "().!"));
    assert!(!Validate::char_contained_in('x', ""));
}

#[test]
fn validation_is_pure() {
    let input = "2+5-1/7*2^(2-1)+a21";
    let first = Validate::validate_input(input);
    let second = Validate::validate_input(input);
    assert_eq!(first, second);
    let bad = "))((";
    assert_eq!(Validate::validate_input(bad), Validate::validate_input(bad));
}

#[test]
fn negation_marker_becomes_minus() {
    let mut tracker = false;
    let mut pending = String::new();
    assert!(handle_non_op_token(&'!', &mut tracker, &mut pending));
    assert!(tracker);
    assert_eq!("-", pending);
    assert!(handle_non_op_token(&'5', &mut tracker, &mut pending));
    assert_eq!("-5", pending);
    assert!(!handle_non_op_token(&'+', &mut tracker, &mut pending));
    assert_eq!("-5", pending);
}

#[test]
fn negation_before_number_renders_negative() {
    assert_eq!("-6.4", get_rpn_yard("(!6.4)").unwrap());
    assert_eq!("3 -4 +", get_rpn_yard("3+!4").unwrap());
}

#[test]
fn canonical_number_rendering() {
    assert_eq!("2 0.5 +", get_rpn_yard("2+0.50").unwrap());
    assert_eq!("2 7 +", get_rpn_yard("2+007").unwrap());
    assert_eq!("5 -0.25 *", get_rpn_yard("5*!.250").unwrap());
}

#[test]
fn converters_agree_on_samples() {
    let samples = [
        "(31 + 321)*(32+54)",
        "42 - 4234 * (4-234 + (43*43)) - 10",
        "(4*((5+4)))^2",
        "c*(a*(b*b+1) - (d123.32/f9.23))",
        "(x + 87.31)*(x-31.23)",
        "2^3^2",
        "(!5+!5) * !1",
    ];
    for input in samples {
        assert_eq!(get_rpn_yard(input).unwrap(), get_rpn_tree(input).unwrap());
    }
}

#[test]
fn in_to_rpn_uses_shunting_yard() {
    assert_eq!("31 321 + 32 54 + *", in_to_rpn("(31 + 321)*(32+54)").unwrap());
    assert_eq!(in_to_rpn("(()").unwrap_err(), get_rpn_yard("(()").unwrap_err());
}
