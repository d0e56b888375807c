//! Iterative infix-to-postfix conversion driven by the precedence table.

use vstd::prelude::*;

use super::{
    spec_is_operator, spec_precedence, spec_strip, spec_tokenize, strip_spaces, tokenize,
    precedence_of, ConvError, MathValue, Stack, TokenView,
};

verus! {

/// Pops operators whose priority binds at least as tight as `p` (a lower
/// value binds tighter, so priority `<= p`) from the scratch stack into the
/// output; a parenthesis or the stack bottom stops the run.
pub open spec fn spec_pop_ge(
    ops: Seq<TokenView>,
    p: u8,
    out: Seq<TokenView>,
) -> (Seq<TokenView>, Seq<TokenView>)
    decreases ops.len(),
{
    if ops.len() == 0 {
        (ops, out)
    } else {
        match ops.last() {
            TokenView::Op(c) => if spec_is_operator(c) && spec_precedence(c).unwrap() <= p {
                spec_pop_ge(ops.drop_last(), p, out.push(ops.last()))
            } else {
                (ops, out)
            },
            _ => (ops, out),
        }
    }
}

/// Pops operators into the output until an opening parenthesis appears and is
/// discarded; an empty stack ends the run silently.
pub open spec fn spec_close_paren(
    ops: Seq<TokenView>,
    out: Seq<TokenView>,
) -> (Seq<TokenView>, Seq<TokenView>)
    decreases ops.len(),
{
    if ops.len() == 0 {
        (ops, out)
    } else {
        match ops.last() {
            TokenView::Op(c) => if c == '(' {
                (ops.drop_last(), out)
            } else {
                spec_close_paren(ops.drop_last(), out.push(ops.last()))
            },
            _ => (ops.drop_last(), out),
        }
    }
}

/// One shunting-yard step: operands go to the output; an operator first pops
/// everything that binds at least as tight (making equal priority
/// left-associative), then goes on the scratch stack; parentheses group; any
/// other character is rejected.
pub open spec fn spec_shunt_token(
    t: TokenView,
    ops: Seq<TokenView>,
    out: Seq<TokenView>,
) -> Result<(Seq<TokenView>, Seq<TokenView>), ConvError> {
    match t {
        TokenView::Num(_) => Ok((ops, out.push(t))),
        TokenView::Alge(_) => Ok((ops, out.push(t))),
        TokenView::Op(c) => if spec_is_operator(c) {
            let (ops2, out2) = spec_pop_ge(ops, spec_precedence(c).unwrap(), out);
            Ok((ops2.push(TokenView::Op(c)), out2))
        } else if c == '(' {
            Ok((ops.push(TokenView::Op(c)), out))
        } else if c == ')' {
            Ok(spec_close_paren(ops, out))
        } else {
            Err(ConvError::InvalidOperator(c))
        },
    }
}

/// Runs the shunting-yard step over `ts[i..]` from the given state.
pub open spec fn spec_shunt_tokens(
    ts: Seq<TokenView>,
    i: int,
    ops: Seq<TokenView>,
    out: Seq<TokenView>,
) -> Result<(Seq<TokenView>, Seq<TokenView>), ConvError>
    decreases ts.len() - i,
{
    if i < 0 || i >= ts.len() {
        Ok((ops, out))
    } else {
        match spec_shunt_token(ts[i], ops, out) {
            Err(e) => Err(e),
            Ok((ops2, out2)) => spec_shunt_tokens(ts, i + 1, ops2, out2),
        }
    }
}

/// The whole conversion: strip spaces, tokenize, run every token through the
/// shunting-yard step, then flush the scratch stack onto the output.
pub open spec fn spec_convert(s: Seq<char>) -> Result<Seq<TokenView>, ConvError> {
    match spec_tokenize(spec_strip(s)) {
        None => Err(ConvError::MalformedNumber),
        Some(ts) => match spec_shunt_tokens(ts, 0, Seq::empty(), Seq::empty()) {
            Err(e) => Err(e),
            Ok((ops, out)) => Ok(out + ops.reverse()),
        },
    }
}

/// Applies one operator or parenthesis to the scratch stack and the output.
fn handle_operators(token: &char, operators: &mut Stack, output: &mut Stack) -> (r: Result<
    (),
    ConvError,
>)
    ensures
        match spec_shunt_token(TokenView::Op(*token), old(operators)@, old(output)@) {
            Ok((ops2, out2)) => r is Ok && final(operators)@ == ops2 && final(output)@ == out2,
            Err(e) => r == Err::<(), ConvError>(e) && final(operators)@ == old(operators)@
                && final(output)@ == old(output)@,
        },
{
    match precedence_of(*token) {
        Some(pres) => {
            let ghost ops0 = operators@;
            let ghost out0 = output@;
            loop
                invariant_except_break
                    spec_pop_ge(ops0, pres, out0) == spec_pop_ge(operators@, pres, output@),
                ensures
                    (operators@, output@) == spec_pop_ge(ops0, pres, out0),
                decreases operators@.len(),
            {
                let should_pop = match operators.peak() {
                    Some(MathValue::Op(op)) => match precedence_of(*op) {
                        Some(q) => q <= pres,
                        None => false,
                    },
                    _ => false,
                };
                if !should_pop {
                    break ;
                }
                match operators.pop() {
                    Some(t) => {
                        output.push(t);
                    },
                    None => {
                        proof {
                            assert(false);
                        }
                    },
                }
            }
            operators.push(MathValue::Op(*token));
            Ok(())
        },
        None => {
            if *token == '(' {
                operators.push(MathValue::Op(*token));
                Ok(())
            } else if *token == ')' {
                let ghost ops0 = operators@;
                let ghost out0 = output@;
                loop
                    invariant_except_break
                        spec_close_paren(ops0, out0) == spec_close_paren(operators@, output@),
                    ensures
                        (operators@, output@) == spec_close_paren(ops0, out0),
                    decreases operators@.len(),
                {
                    match operators.pop() {
                        Some(MathValue::Op(op)) => {
                            if op == '(' {
                                break ;
                            } else {
                                output.push(MathValue::Op(op));
                            }
                        },
                        Some(_t) => {
                            break ;
                        },
                        None => {
                            break ;
                        },
                    }
                }
                Ok(())
            } else {
                Err(ConvError::InvalidOperator(*token))
            }
        },
    }
}

/// Converts an infix expression to postfix order in a single pass: operands
/// are appended as they appear, operators wait on a scratch stack until one
/// that binds no tighter arrives, and whatever stays on the stack at the end
/// is flushed onto the output.
pub fn convert_in_to_post_fix(input: &str) -> (r: Result<Stack, ConvError>)
    ensures
        match spec_convert(input@) {
            Ok(ts) => r matches Ok(st) && st@ == ts,
            Err(e) => r == Err::<Stack, ConvError>(e),
        },
{
    // Clean spaces from string
    let stripped = strip_spaces(input);
    let tokens = match tokenize(stripped.as_str()) {
        Ok(t) => t,
        Err(e) => {
            return Err(e);
        },
    };
    let ghost ts = spec_tokenize(spec_strip(input@)).unwrap();
    let mut operators = Stack::new();
    let mut output = Stack::new();
    let n = tokens.elements.len();
    let mut i: usize = 0;
    while i < n
        invariant
            i <= n,
            n == tokens@.len(),
            n == tokens.elements@.len(),
            ts == tokens@,
            spec_tokenize(spec_strip(input@)) == Some(ts),
            spec_shunt_tokens(ts, i as int, operators@, output@) == spec_shunt_tokens(
                ts,
                0,
                Seq::empty(),
                Seq::empty(),
            ),
        decreases n - i,
    {
        proof {
            assert(tokens.elements@[i as int]@ == ts[i as int]);
        }
        let step = match &tokens.elements[i] {
            MathValue::Op(c) => handle_operators(c, &mut operators, &mut output),
            other => {
                output.push(other.dup());
                Ok(())
            },
        };
        match step {
            Ok(()) => {},
            Err(e) => {
                return Err(e);
            },
        }
        i = i + 1;
    }
    let ghost ops_end = operators@;
    let ghost out_end = output@;
    loop
        invariant_except_break
            out_end + ops_end.reverse() == output@ + operators@.reverse(),
        ensures
            output@ == out_end + ops_end.reverse(),
        decreases operators@.len(),
    {
        match operators.pop() {
            Some(t) => {
                let ghost ops_pre = operators@.push(t@);
                let ghost out_pre = output@;
                output.push(t);
                proof {
                    assert(out_pre + ops_pre.reverse() =~= output@ + operators@.reverse());
                }
            },
            None => {
                proof {
                    assert(output@ + operators@.reverse() =~= output@);
                }
                break ;
            },
        }
    }
    Ok(output)
}

} // verus!
