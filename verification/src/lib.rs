//! Converts infix arithmetic expressions to postfix (reverse Polish) form.
//!
//! Two interchangeable algorithms perform the conversion: an iterative
//! operator-precedence method (shunting yard) and a recursive-descent parser
//! whose expression tree is linearized by post-order traversal. Expressions
//! containing letters are kept symbolic: every operand token is carried as raw
//! text; purely numeric expressions carry each literal's text too, so a caller
//! may parse and evaluate the postfix sequence.
//!
//! Acceptable operators are `+`, `-`, `/`, `^`, `*`; the marker `!` in front
//! of a numeric run negates it.

use vstd::prelude::*;

pub mod rpn_convert;

use rpn_convert::ast_tree;
use rpn_convert::shunting_yard;
use rpn_convert::ConvError;
use rpn_convert::Validate;

verus! {

/// What converting through the shunting yard returns: the first validation
/// failure, or the conversion's own outcome, its tokens rendered as one
/// space-joined string.
pub open spec fn spec_get_rpn_yard(s: Seq<char>) -> Result<Seq<char>, ConvError> {
    match rpn_convert::spec_validate(s) {
        Some(e) => Err(e),
        None => match shunting_yard::spec_convert(s) {
            Err(e) => Err(e),
            Ok(ts) => Ok(rpn_convert::spec_render(ts)),
        },
    }
}

/// Converts an infix expression to a postfix expression (RPN).
pub fn in_to_rpn(input: &str) -> (r: Result<String, ConvError>)
    ensures
        match spec_get_rpn_yard(input@) {
            Ok(t) => r matches Ok(s) && s@ == t,
            Err(e) => r == Err::<String, ConvError>(e),
        },
{
    get_rpn_yard(input)
}

/// Converts an infix expression to a postfix expression (RPN) using shunting
/// yard.
pub fn get_rpn_yard(input: &str) -> (r: Result<String, ConvError>)
    ensures
        match spec_get_rpn_yard(input@) {
            Ok(t) => r matches Ok(s) && s@ == t,
            Err(e) => r == Err::<String, ConvError>(e),
        },
{
    let (is_valid, _msg) = Validate::validate_input(input);
    if is_valid {
        match shunting_yard::convert_in_to_post_fix(input) {
            Ok(stack) => Ok(stack.as_string()),
            Err(e) => Err(e),
        }
    } else {
        Err(rpn_convert::validation_error(input))
    }
}

/// What converting through the expression tree returns: the conversion's
/// outcome, its tokens rendered as one space-joined string.
pub open spec fn spec_get_rpn_tree(s: Seq<char>) -> Result<Seq<char>, ConvError> {
    match ast_tree::spec_convert_tree(s) {
        Err(e) => Err(e),
        Ok(ts) => Ok(rpn_convert::spec_render(ts)),
    }
}

/// Converts an infix expression to a postfix expression (RPN) using
/// post-order traversal of an expression tree.
pub fn get_rpn_tree(input: &str) -> (r: Result<String, ConvError>)
    ensures
        match spec_get_rpn_tree(input@) {
            Ok(t) => r matches Ok(s) && s@ == t,
            Err(e) => r == Err::<String, ConvError>(e),
        },
{
    let (is_valid, _msg) = Validate::validate_input(input);
    if is_valid {
        match ast_tree::convert_in_to_post_fix(input) {
            Ok(stack) => Ok(stack.as_string()),
            Err(e) => Err(e),
        }
    } else {
        Err(rpn_convert::validation_error(input))
    }
}

} // verus!
