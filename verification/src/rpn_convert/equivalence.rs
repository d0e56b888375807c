//! The two conversion algorithms agree: on every token stream the grammar
//! parses completely, the shunting yard emits exactly the post-order of the
//! parse tree.

use vstd::prelude::*;

use super::ast_tree::{
    spec_at_least, spec_branch, spec_parse_expo, spec_parse_expo_loop, spec_parse_expression,
    spec_parse_expression_loop, spec_parse_factor, spec_parse_term, spec_parse_term_loop,
    spec_postorder, spec_remaining, TreeView,
};
use super::shunting_yard::{
    spec_close_paren, spec_pop_ge, spec_shunt_token, spec_shunt_tokens,
};
use super::{
    spec_is_operator, spec_precedence, spec_strip, spec_tokenize, spec_validate,
    ConvError, TokenView,
};

verus! {

/// Whether one stacked token is popped by an arriving operator of priority
/// `p`: it must be an operator binding at least as tight.
spec fn spec_pops(t: TokenView, p: u8) -> bool {
    match t {
        TokenView::Op(c) => spec_is_operator(c) && spec_precedence(c).unwrap() <= p,
        _ => false,
    }
}

/// Whether an arriving operator of priority `p` pops nothing off this stack:
/// it is empty, or its top is no operator binding at least as tight.
spec fn spec_stops(ops: Seq<TokenView>, p: u8) -> bool {
    ops.len() == 0 || !spec_pops(ops.last(), p)
}

/// Runs the shunting-yard step over the segment `ts[i..j]` only.
spec fn spec_shunt_seg(
    ts: Seq<TokenView>,
    i: int,
    j: int,
    ops: Seq<TokenView>,
    out: Seq<TokenView>,
) -> Result<(Seq<TokenView>, Seq<TokenView>), ConvError>
    decreases j - i,
{
    if i >= j || i < 0 || i >= ts.len() {
        Ok((ops, out))
    } else {
        match spec_shunt_token(ts[i], ops, out) {
            Err(e) => Err(e),
            Ok((ops2, out2)) => spec_shunt_seg(ts, i + 1, j, ops2, out2),
        }
    }
}

/// Processing a segment one split at a time: the tokens up to `k`, then the
/// rest from the state they left behind.
proof fn lemma_seg_split(
    ts: Seq<TokenView>,
    i: int,
    k: int,
    j: int,
    ops: Seq<TokenView>,
    out: Seq<TokenView>,
)
    requires
        0 <= i <= k <= j,
    ensures
        spec_shunt_seg(ts, i, j, ops, out) == match spec_shunt_seg(ts, i, k, ops, out) {
            Err(e) => Err::<(Seq<TokenView>, Seq<TokenView>), ConvError>(e),
            Ok((ops2, out2)) => spec_shunt_seg(ts, k, j, ops2, out2),
        },
    decreases k - i,
{
    if i < k && 0 <= i < ts.len() {
        match spec_shunt_token(ts[i], ops, out) {
            Err(_) => {},
            Ok((ops2, out2)) => {
                lemma_seg_split(ts, i + 1, k, j, ops2, out2);
            },
        }
    }
}

/// Processing a segment to the end of the stream is the whole conversion run.
proof fn lemma_seg_to_end(ts: Seq<TokenView>, i: int, ops: Seq<TokenView>, out: Seq<TokenView>)
    ensures
        spec_shunt_tokens(ts, i, ops, out) == spec_shunt_seg(ts, i, ts.len() as int, ops, out),
    decreases ts.len() - i,
{
    if 0 <= i < ts.len() {
        match spec_shunt_token(ts[i], ops, out) {
            Err(_) => {},
            Ok((ops2, out2)) => {
                lemma_seg_to_end(ts, i + 1, ops2, out2);
            },
        }
    }
}

/// Popping at priority `p` first and then at a looser `q` is the same as
/// popping at `q` at once.
proof fn lemma_pop_ge_compose(ops: Seq<TokenView>, p: u8, q: u8, out: Seq<TokenView>)
    requires
        p <= q,
    ensures
        spec_pop_ge(ops, q, out) == {
            let (ops2, out2) = spec_pop_ge(ops, p, out);
            spec_pop_ge(ops2, q, out2)
        },
    decreases ops.len(),
{
    if ops.len() > 0 && spec_pops(ops.last(), p) {
        lemma_pop_ge_compose(ops.drop_last(), p, q, out.push(ops.last()));
    }
}

/// A pop run that empties the stack has moved it, reversed, onto the output.
proof fn lemma_pop_ge_all(ops: Seq<TokenView>, p: u8, out: Seq<TokenView>)
    requires
        spec_pop_ge(ops, p, out).0 == Seq::<TokenView>::empty(),
    ensures
        spec_pop_ge(ops, p, out).1 == out + ops.reverse(),
    decreases ops.len(),
{
    if ops.len() == 0 {
        assert(out + ops.reverse() =~= out);
    } else if spec_pops(ops.last(), p) {
        lemma_pop_ge_all(ops.drop_last(), p, out.push(ops.last()));
        assert(out.push(ops.last()) + ops.drop_last().reverse() =~= out + ops.reverse());
    }
}

/// When every operator above a parenthesis has been popped at the loosest
/// priority, closing the parenthesis pops the same operators and discards it.
proof fn lemma_close_after_pops(ops: Seq<TokenView>, out: Seq<TokenView>)
    requires
        spec_pop_ge(ops, 2, out).0.len() > 0,
        spec_pop_ge(ops, 2, out).0.last() == TokenView::Op('('),
    ensures
        spec_close_paren(ops, out) == (
            spec_pop_ge(ops, 2, out).0.drop_last(),
            spec_pop_ge(ops, 2, out).1,
        ),
    decreases ops.len(),
{
    if ops.len() > 0 && spec_pops(ops.last(), 2) {
        lemma_close_after_pops(ops.drop_last(), out.push(ops.last()));
    }
}

/// A parsed factor consumes at least one token and stays inside the stream.
proof fn lemma_bounds_factor(ts: Seq<TokenView>, i: int)
    ensures
        spec_parse_factor(ts, i) matches Some((n, j)) ==> i < j <= ts.len(),
    decreases spec_remaining(ts, i), 0int,
{
    if 0 <= i < ts.len() && (ts[i] matches TokenView::Op(c) && c == '(') {
        lemma_bounds_expression(ts, i + 1);
    }
}

/// A parsed exponent chain consumes at least one token and stays inside the
/// stream.
proof fn lemma_bounds_expo(ts: Seq<TokenView>, i: int)
    ensures
        spec_parse_expo(ts, i) matches Some((n, j)) ==> i < j <= ts.len(),
    decreases spec_remaining(ts, i), 2int,
{
    lemma_bounds_factor(ts, i);
    match spec_parse_factor(ts, i) {
        Some((n, j)) => {
            lemma_bounds_expo_loop(ts, n, spec_at_least(j, i));
        },
        None => {},
    }
}

/// The exponent fold only moves forward, and never past the end.
proof fn lemma_bounds_expo_loop(ts: Seq<TokenView>, node: TreeView, i: int)
    requires
        0 <= i <= ts.len(),
    ensures
        spec_parse_expo_loop(ts, node, i) matches Some((n, j)) ==> i <= j <= ts.len(),
    decreases spec_remaining(ts, i), 1int,
{
    if 0 <= i < ts.len() && ts[i] == TokenView::Op('^') {
        lemma_bounds_factor(ts, i + 1);
        match spec_parse_factor(ts, i + 1) {
            Some((n2, j)) => {
                lemma_bounds_expo_loop(ts, spec_branch(ts[i], node, n2), spec_at_least(j, i + 1));
            },
            None => {},
        }
    }
}

/// A parsed term consumes at least one token and stays inside the stream.
proof fn lemma_bounds_term(ts: Seq<TokenView>, i: int)
    ensures
        spec_parse_term(ts, i) matches Some((n, j)) ==> i < j <= ts.len(),
    decreases spec_remaining(ts, i), 4int,
{
    lemma_bounds_expo(ts, i);
    match spec_parse_expo(ts, i) {
        Some((n, j)) => {
            lemma_bounds_term_loop(ts, n, spec_at_least(j, i));
        },
        None => {},
    }
}

/// The term fold only moves forward, and never past the end.
proof fn lemma_bounds_term_loop(ts: Seq<TokenView>, node: TreeView, i: int)
    requires
        0 <= i <= ts.len(),
    ensures
        spec_parse_term_loop(ts, node, i) matches Some((n, j)) ==> i <= j <= ts.len(),
    decreases spec_remaining(ts, i), 3int,
{
    if 0 <= i < ts.len() && (ts[i] == TokenView::Op('*') || ts[i] == TokenView::Op('/')) {
        lemma_bounds_expo(ts, i + 1);
        match spec_parse_expo(ts, i + 1) {
            Some((n2, j)) => {
                lemma_bounds_term_loop(ts, spec_branch(ts[i], node, n2), spec_at_least(j, i + 1));
            },
            None => {},
        }
    }
}

/// A parsed expression consumes at least one token and stays inside the
/// stream.
proof fn lemma_bounds_expression(ts: Seq<TokenView>, i: int)
    ensures
        spec_parse_expression(ts, i) matches Some((n, j)) ==> i < j <= ts.len(),
    decreases spec_remaining(ts, i), 6int,
{
    lemma_bounds_term(ts, i);
    match spec_parse_term(ts, i) {
        Some((n, j)) => {
            lemma_bounds_expression_loop(ts, n, spec_at_least(j, i));
        },
        None => {},
    }
}

/// The expression fold only moves forward, and never past the end.
proof fn lemma_bounds_expression_loop(ts: Seq<TokenView>, node: TreeView, i: int)
    requires
        0 <= i <= ts.len(),
    ensures
        spec_parse_expression_loop(ts, node, i) matches Some((n, j)) ==> i <= j <= ts.len(),
    decreases spec_remaining(ts, i), 5int,
{
    if 0 <= i < ts.len() && (ts[i] == TokenView::Op('+') || ts[i] == TokenView::Op('-')) {
        lemma_bounds_term(ts, i + 1);
        match spec_parse_term(ts, i + 1) {
            Some((n2, j)) => {
                lemma_bounds_expression_loop(ts, spec_branch(ts[i], node, n2), spec_at_least(j, i + 1));
            },
            None => {},
        }
    }
}


/// Shunting a parsed factor from any stack appends exactly its post-order to
/// the output and leaves the stack as it was.
proof fn lemma_shunt_factor(ts: Seq<TokenView>, i: int, ops: Seq<TokenView>, out: Seq<TokenView>)
    requires
        spec_parse_factor(ts, i) is Some,
    ensures
        ({
            let (n, j) = spec_parse_factor(ts, i).unwrap();
            spec_shunt_seg(ts, i, j, ops, out) == Ok::<(Seq<TokenView>, Seq<TokenView>), ConvError>(
                (ops, out + spec_postorder(n)),
            )
        }),
    decreases spec_remaining(ts, i), 0int,
{
    let (n, j) = spec_parse_factor(ts, i).unwrap();
    if ts[i] matches TokenView::Op(c) && c == '(' {
        let (n1, j1) = spec_parse_expression(ts, i + 1).unwrap();
        lemma_bounds_expression(ts, i + 1);
        let ops1 = ops.push(TokenView::Op('('));
        assert(spec_shunt_token(ts[i], ops, out) == Ok::<(Seq<TokenView>, Seq<TokenView>),
            ConvError,
        >((ops1, out)));
        assert(spec_shunt_seg(ts, i + 1, i + 1, ops1, out) == Ok::<(Seq<TokenView>, Seq<TokenView>),
            ConvError,
        >((ops1, out)));
        assert(spec_shunt_seg(ts, i, i + 1, ops, out) == Ok::<(Seq<TokenView>, Seq<TokenView>),
            ConvError,
        >((ops1, out)));
        assert(spec_stops(ops1, 2));
        lemma_shunt_expression(ts, i + 1, ops1, out);
        let (o2, u2) = spec_shunt_seg(ts, i + 1, j1, ops1, out).unwrap();
        assert(spec_pop_ge(o2, 2, u2) == (ops1, out + spec_postorder(n1)));
        lemma_close_after_pops(o2, u2);
        assert(ops1.drop_last() =~= ops);
        assert(spec_shunt_token(ts[j1], o2, u2) == Ok::<(Seq<TokenView>, Seq<TokenView>),
            ConvError,
        >((ops, out + spec_postorder(n1))));
        assert(spec_shunt_seg(ts, j1, j, o2, u2) == Ok::<(Seq<TokenView>, Seq<TokenView>),
            ConvError,
        >((ops, out + spec_postorder(n1))));
        lemma_seg_split(ts, i, i + 1, j, ops, out);
        lemma_seg_split(ts, i + 1, j1, j, ops1, out);
    } else {
        assert(spec_postorder(n) =~= seq![ts[i]]);
        assert(out + spec_postorder(n) =~= out.push(ts[i]));
        assert(spec_shunt_seg(ts, i + 1, j, ops, out.push(ts[i])) == Ok::<
            (Seq<TokenView>, Seq<TokenView>),
            ConvError,
        >((ops, out.push(ts[i]))));
    }
}

/// Shunting a parsed exponent chain from a stack that an arriving priority-0
/// operator would not pop: the stack gains only the chain of pending
/// operators, and popping them back at priority 0 recovers the stack with
/// the full post-order on the output.
proof fn lemma_shunt_expo(ts: Seq<TokenView>, i: int, ops: Seq<TokenView>, out: Seq<TokenView>)
    requires
        spec_parse_expo(ts, i) is Some,
        spec_stops(ops, 0),
    ensures
        ({
            let (n, j) = spec_parse_expo(ts, i).unwrap();
            match spec_shunt_seg(ts, i, j, ops, out) {
                Ok((o3, u3)) => spec_pop_ge(o3, 0, u3) == (ops, out + spec_postorder(n)),
                Err(_) => false,
            }
        }),
    decreases spec_remaining(ts, i), 2int,
{
    let (n1, j1raw) = spec_parse_factor(ts, i).unwrap();
    lemma_bounds_factor(ts, i);
    let j1 = spec_at_least(j1raw, i);
    lemma_shunt_factor(ts, i, ops, out);
    let (o2, u2) = spec_shunt_seg(ts, i, j1, ops, out).unwrap();
    assert(spec_pop_ge(o2, 0, u2) == (ops, out + spec_postorder(n1)));
    lemma_shunt_expo_loop(ts, n1, j1, ops, o2, u2, out);
    let (n, j) = spec_parse_expo(ts, i).unwrap();
    lemma_bounds_expo_loop(ts, n1, j1);
    lemma_seg_split(ts, i, j1, j, ops, out);
}

/// One fold step of the exponent chain chain: the arriving operator pops the
/// pending chain, goes on the stack, and the next factor follows it.
proof fn lemma_shunt_expo_loop(
    ts: Seq<TokenView>,
    node: TreeView,
    i: int,
    base: Seq<TokenView>,
    cur_ops: Seq<TokenView>,
    cur_out: Seq<TokenView>,
    prefix: Seq<TokenView>,
)
    requires
        spec_parse_expo_loop(ts, node, i) is Some,
        0 <= i <= ts.len(),
        spec_stops(base, 0),
        spec_pop_ge(cur_ops, 0, cur_out) == (base, prefix + spec_postorder(node)),
    ensures
        ({
            let (n, j) = spec_parse_expo_loop(ts, node, i).unwrap();
            match spec_shunt_seg(ts, i, j, cur_ops, cur_out) {
                Ok((o3, u3)) => spec_pop_ge(o3, 0, u3) == (base, prefix + spec_postorder(n)),
                Err(_) => false,
            }
        }),
    decreases spec_remaining(ts, i), 1int,
{
    if 0 <= i < ts.len() && (ts[i] == TokenView::Op('^')) {
        let (n2, j2raw) = spec_parse_factor(ts, i + 1).unwrap();
        lemma_bounds_factor(ts, i + 1);
        let j2 = spec_at_least(j2raw, i + 1);
        let out1 = prefix + spec_postorder(node);
        let ops1 = base.push(ts[i]);
        assert(spec_shunt_token(ts[i], cur_ops, cur_out) == Ok::<(Seq<TokenView>, Seq<TokenView>),
            ConvError,
        >((ops1, out1)));
        assert(spec_shunt_seg(ts, i + 1, i + 1, ops1, out1) == Ok::<
            (Seq<TokenView>, Seq<TokenView>),
            ConvError,
        >((ops1, out1)));
        assert(spec_shunt_seg(ts, i, i + 1, cur_ops, cur_out) == Ok::<
            (Seq<TokenView>, Seq<TokenView>),
            ConvError,
        >((ops1, out1)));
        lemma_shunt_factor(ts, i + 1, ops1, out1);
        let out2 = out1 + spec_postorder(n2);
        let (o2, u2) = spec_shunt_seg(ts, i + 1, j2, ops1, out1).unwrap();
        assert((o2, u2) == (ops1, out2));
        let node2 = spec_branch(ts[i], node, n2);
        assert(spec_postorder(node2) =~= spec_postorder(node) + spec_postorder(n2) + seq![ts[i]]);
        assert(ops1.drop_last() =~= base);
        assert(out2.push(ts[i]) =~= prefix + spec_postorder(node2));
        assert(spec_pop_ge(base, 0, out2.push(ts[i])) == (
            base,
            out2.push(ts[i]),
        ));
        assert(spec_pop_ge(o2, 0, u2) == (base, prefix + spec_postorder(node2)));
        lemma_shunt_expo_loop(ts, node2, j2, base, o2, u2, prefix);
        let (n, j) = spec_parse_expo_loop(ts, node, i).unwrap();
        lemma_bounds_expo_loop(ts, node2, j2);
        lemma_seg_split(ts, i, i + 1, j, cur_ops, cur_out);
        lemma_seg_split(ts, i + 1, j2, j, ops1, out1);
    }
}

/// Shunting a parsed term from a stack that an arriving priority-1
/// operator would not pop: the stack gains only the chain of pending
/// operators, and popping them back at priority 1 recovers the stack with
/// the full post-order on the output.
proof fn lemma_shunt_term(ts: Seq<TokenView>, i: int, ops: Seq<TokenView>, out: Seq<TokenView>)
    requires
        spec_parse_term(ts, i) is Some,
        spec_stops(ops, 1),
    ensures
        ({
            let (n, j) = spec_parse_term(ts, i).unwrap();
            match spec_shunt_seg(ts, i, j, ops, out) {
                Ok((o3, u3)) => spec_pop_ge(o3, 1, u3) == (ops, out + spec_postorder(n)),
                Err(_) => false,
            }
        }),
    decreases spec_remaining(ts, i), 4int,
{
    let (n1, j1raw) = spec_parse_expo(ts, i).unwrap();
    lemma_bounds_expo(ts, i);
    let j1 = spec_at_least(j1raw, i);
    assert(spec_stops(ops, 0));
    lemma_shunt_expo(ts, i, ops, out);
    let (o2, u2) = spec_shunt_seg(ts, i, j1, ops, out).unwrap();
    lemma_pop_ge_compose(o2, 0, 1, u2);
    assert(spec_pop_ge(ops, 1, out + spec_postorder(n1)) == (ops, out + spec_postorder(n1)));
    assert(spec_pop_ge(o2, 1, u2) == (ops, out + spec_postorder(n1)));
    lemma_shunt_term_loop(ts, n1, j1, ops, o2, u2, out);
    let (n, j) = spec_parse_term(ts, i).unwrap();
    lemma_bounds_term_loop(ts, n1, j1);
    lemma_seg_split(ts, i, j1, j, ops, out);
}

/// One fold step of the term chain: the arriving operator pops the
/// pending chain, goes on the stack, and the next exponent chain follows it.
proof fn lemma_shunt_term_loop(
    ts: Seq<TokenView>,
    node: TreeView,
    i: int,
    base: Seq<TokenView>,
    cur_ops: Seq<TokenView>,
    cur_out: Seq<TokenView>,
    prefix: Seq<TokenView>,
)
    requires
        spec_parse_term_loop(ts, node, i) is Some,
        0 <= i <= ts.len(),
        spec_stops(base, 1),
        spec_pop_ge(cur_ops, 1, cur_out) == (base, prefix + spec_postorder(node)),
    ensures
        ({
            let (n, j) = spec_parse_term_loop(ts, node, i).unwrap();
            match spec_shunt_seg(ts, i, j, cur_ops, cur_out) {
                Ok((o3, u3)) => spec_pop_ge(o3, 1, u3) == (base, prefix + spec_postorder(n)),
                Err(_) => false,
            }
        }),
    decreases spec_remaining(ts, i), 3int,
{
    if 0 <= i < ts.len() && (ts[i] == TokenView::Op('*') || ts[i] == TokenView::Op('/')) {
        let (n2, j2raw) = spec_parse_expo(ts, i + 1).unwrap();
        lemma_bounds_expo(ts, i + 1);
        let j2 = spec_at_least(j2raw, i + 1);
        let out1 = prefix + spec_postorder(node);
        let ops1 = base.push(ts[i]);
        assert(spec_shunt_token(ts[i], cur_ops, cur_out) == Ok::<(Seq<TokenView>, Seq<TokenView>),
            ConvError,
        >((ops1, out1)));
        assert(spec_shunt_seg(ts, i + 1, i + 1, ops1, out1) == Ok::<
            (Seq<TokenView>, Seq<TokenView>),
            ConvError,
        >((ops1, out1)));
        assert(spec_shunt_seg(ts, i, i + 1, cur_ops, cur_out) == Ok::<
            (Seq<TokenView>, Seq<TokenView>),
            ConvError,
        >((ops1, out1)));
        assert(spec_stops(ops1, 0));
        lemma_shunt_expo(ts, i + 1, ops1, out1);
        let out2 = out1 + spec_postorder(n2);
        let (o2, u2) = spec_shunt_seg(ts, i + 1, j2, ops1, out1).unwrap();
        assert(spec_pop_ge(o2, 0, u2) == (ops1, out2));
        let node2 = spec_branch(ts[i], node, n2);
        assert(spec_postorder(node2) =~= spec_postorder(node) + spec_postorder(n2) + seq![ts[i]]);
        assert(ops1.drop_last() =~= base);
        assert(out2.push(ts[i]) =~= prefix + spec_postorder(node2));
        lemma_pop_ge_compose(o2, 0, 1, u2);
        assert(spec_pop_ge(base, 1, out2.push(ts[i])) == (
            base,
            out2.push(ts[i]),
        ));
        assert(spec_pop_ge(ops1, 1, out2) == (base, prefix + spec_postorder(node2)));
        assert(spec_pop_ge(o2, 1, u2) == (base, prefix + spec_postorder(node2)));
        lemma_shunt_term_loop(ts, node2, j2, base, o2, u2, prefix);
        let (n, j) = spec_parse_term_loop(ts, node, i).unwrap();
        lemma_bounds_term_loop(ts, node2, j2);
        lemma_seg_split(ts, i, i + 1, j, cur_ops, cur_out);
        lemma_seg_split(ts, i + 1, j2, j, ops1, out1);
    }
}

/// Shunting a parsed expression from a stack that an arriving priority-2
/// operator would not pop: the stack gains only the chain of pending
/// operators, and popping them back at priority 2 recovers the stack with
/// the full post-order on the output.
proof fn lemma_shunt_expression(ts: Seq<TokenView>, i: int, ops: Seq<TokenView>, out: Seq<TokenView>)
    requires
        spec_parse_expression(ts, i) is Some,
        spec_stops(ops, 2),
    ensures
        ({
            let (n, j) = spec_parse_expression(ts, i).unwrap();
            match spec_shunt_seg(ts, i, j, ops, out) {
                Ok((o3, u3)) => spec_pop_ge(o3, 2, u3) == (ops, out + spec_postorder(n)),
                Err(_) => false,
            }
        }),
    decreases spec_remaining(ts, i), 6int,
{
    let (n1, j1raw) = spec_parse_term(ts, i).unwrap();
    lemma_bounds_term(ts, i);
    let j1 = spec_at_least(j1raw, i);
    assert(spec_stops(ops, 1));
    lemma_shunt_term(ts, i, ops, out);
    let (o2, u2) = spec_shunt_seg(ts, i, j1, ops, out).unwrap();
    lemma_pop_ge_compose(o2, 1, 2, u2);
    assert(spec_pop_ge(ops, 2, out + spec_postorder(n1)) == (ops, out + spec_postorder(n1)));
    assert(spec_pop_ge(o2, 2, u2) == (ops, out + spec_postorder(n1)));
    lemma_shunt_expression_loop(ts, n1, j1, ops, o2, u2, out);
    let (n, j) = spec_parse_expression(ts, i).unwrap();
    lemma_bounds_expression_loop(ts, n1, j1);
    lemma_seg_split(ts, i, j1, j, ops, out);
}

/// One fold step of the expression chain: the arriving operator pops the
/// pending chain, goes on the stack, and the next term follows it.
proof fn lemma_shunt_expression_loop(
    ts: Seq<TokenView>,
    node: TreeView,
    i: int,
    base: Seq<TokenView>,
    cur_ops: Seq<TokenView>,
    cur_out: Seq<TokenView>,
    prefix: Seq<TokenView>,
)
    requires
        spec_parse_expression_loop(ts, node, i) is Some,
        0 <= i <= ts.len(),
        spec_stops(base, 2),
        spec_pop_ge(cur_ops, 2, cur_out) == (base, prefix + spec_postorder(node)),
    ensures
        ({
            let (n, j) = spec_parse_expression_loop(ts, node, i).unwrap();
            match spec_shunt_seg(ts, i, j, cur_ops, cur_out) {
                Ok((o3, u3)) => spec_pop_ge(o3, 2, u3) == (base, prefix + spec_postorder(n)),
                Err(_) => false,
            }
        }),
    decreases spec_remaining(ts, i), 5int,
{
    if 0 <= i < ts.len() && (ts[i] == TokenView::Op('+') || ts[i] == TokenView::Op('-')) {
        let (n2, j2raw) = spec_parse_term(ts, i + 1).unwrap();
        lemma_bounds_term(ts, i + 1);
        let j2 = spec_at_least(j2raw, i + 1);
        let out1 = prefix + spec_postorder(node);
        let ops1 = base.push(ts[i]);
        assert(spec_shunt_token(ts[i], cur_ops, cur_out) == Ok::<(Seq<TokenView>, Seq<TokenView>),
            ConvError,
        >((ops1, out1)));
        assert(spec_shunt_seg(ts, i + 1, i + 1, ops1, out1) == Ok::<
            (Seq<TokenView>, Seq<TokenView>),
            ConvError,
        >((ops1, out1)));
        assert(spec_shunt_seg(ts, i, i + 1, cur_ops, cur_out) == Ok::<
            (Seq<TokenView>, Seq<TokenView>),
            ConvError,
        >((ops1, out1)));
        assert(spec_stops(ops1, 1));
        lemma_shunt_term(ts, i + 1, ops1, out1);
        let out2 = out1 + spec_postorder(n2);
        let (o2, u2) = spec_shunt_seg(ts, i + 1, j2, ops1, out1).unwrap();
        assert(spec_pop_ge(o2, 1, u2) == (ops1, out2));
        let node2 = spec_branch(ts[i], node, n2);
        assert(spec_postorder(node2) =~= spec_postorder(node) + spec_postorder(n2) + seq![ts[i]]);
        assert(ops1.drop_last() =~= base);
        assert(out2.push(ts[i]) =~= prefix + spec_postorder(node2));
        lemma_pop_ge_compose(o2, 1, 2, u2);
        assert(spec_pop_ge(base, 2, out2.push(ts[i])) == (
            base,
            out2.push(ts[i]),
        ));
        assert(spec_pop_ge(ops1, 2, out2) == (base, prefix + spec_postorder(node2)));
        assert(spec_pop_ge(o2, 2, u2) == (base, prefix + spec_postorder(node2)));
        lemma_shunt_expression_loop(ts, node2, j2, base, o2, u2, prefix);
        let (n, j) = spec_parse_expression_loop(ts, node, i).unwrap();
        lemma_bounds_expression_loop(ts, node2, j2);
        lemma_seg_split(ts, i, i + 1, j, cur_ops, cur_out);
        lemma_seg_split(ts, i + 1, j2, j, ops1, out1);
    }
}

/// On a token stream the grammar parses completely, the shunting-yard run
/// succeeds, and flushing its final stack onto its output gives exactly the
/// parse tree's post-order.
pub proof fn lemma_converters_agree_on_tokens(ts: Seq<TokenView>)
    requires
        spec_parse_expression(ts, 0) matches Some((tree, j)) && j == ts.len(),
    ensures
        ({
            let (tree, j) = spec_parse_expression(ts, 0).unwrap();
            match spec_shunt_tokens(ts, 0, Seq::empty(), Seq::empty()) {
                Ok((ops, out)) => out + ops.reverse() == spec_postorder(tree),
                Err(_) => false,
            }
        }),
{
    let empty = Seq::<TokenView>::empty();
    let (tree, j) = spec_parse_expression(ts, 0).unwrap();
    assert(spec_stops(empty, 2));
    lemma_shunt_expression(ts, 0, empty, empty);
    let (o2, u2) = spec_shunt_seg(ts, 0, j, empty, empty).unwrap();
    assert(spec_pop_ge(o2, 2, u2) == (empty, empty + spec_postorder(tree)));
    lemma_pop_ge_all(o2, 2, u2);
    lemma_seg_to_end(ts, 0, empty, empty);
    assert(empty + spec_postorder(tree) =~= spec_postorder(tree));
}

/// Algorithm equivalence: on every syntactically valid input — one the
/// validator accepts, the tokenizer scans, and the grammar parses as one
/// complete expression — converting by shunting yard and converting through
/// the expression tree return the same postfix string.
pub proof fn lemma_algorithm_equivalence(s: Seq<char>)
    requires
        spec_validate(s) is None,
        spec_tokenize(spec_strip(s)) is Some,
        ({
            let ts = spec_tokenize(spec_strip(s)).unwrap();
            spec_parse_expression(ts, 0) matches Some((tree, j)) && j == ts.len()
        }),
    ensures
        crate::spec_get_rpn_yard(s) == crate::spec_get_rpn_tree(s),
        crate::spec_get_rpn_yard(s) is Ok,
{
    let ts = spec_tokenize(spec_strip(s)).unwrap();
    lemma_converters_agree_on_tokens(ts);
}

} // verus!
