//! Recursive-descent parsing into an expression tree, linearized to postfix
//! order by post-order traversal.

use vstd::prelude::*;

use super::{
    spec_strip, spec_tokenize, spec_validate, strip_spaces, ConvError, MathValue, Stack, TokenView,
};

verus! {

/// The mathematical image of an expression tree node: one token, and an
/// optional left and right subtree, each exclusively owned.
pub struct TreeView {
    /// The node's token.
    pub data: TokenView,
    /// The left subtree, built from what was parsed before the operator.
    pub left: Option<Box<TreeView>>,
    /// The right subtree, built from what follows the operator.
    pub right: Option<Box<TreeView>>,
}

/// Post-order linearization: left subtree first, then the right subtree, then
/// the node's own token. A leaf emits its token at once.
pub open spec fn spec_postorder(t: TreeView) -> Seq<TokenView>
    decreases t,
{
    (match t.left {
        Some(l) => spec_postorder(*l),
        None => Seq::empty(),
    }) + (match t.right {
        Some(r) => spec_postorder(*r),
        None => Seq::empty(),
    }) + seq![t.data]
}

/// `j`, but never below `lo`. The parse functions consume at least one token,
/// so the bound never bites; it keeps the recursion visibly well-founded.
pub open spec fn spec_at_least(j: int, lo: int) -> int {
    if j < lo {
        lo
    } else {
        j
    }
}

/// How many tokens are left from `i` on; the measure the parse recursion
/// shrinks.
pub open spec fn spec_remaining(ts: Seq<TokenView>, i: int) -> int {
    if i < 0 {
        ts.len() as int
    } else if i > ts.len() {
        0
    } else {
        ts.len() - i
    }
}

/// A leaf holding one token.
pub open spec fn spec_leaf(t: TokenView) -> TreeView {
    TreeView { data: t, left: None, right: None }
}

/// An internal node combining two subtrees under an operator token.
pub open spec fn spec_branch(t: TokenView, l: TreeView, r: TreeView) -> TreeView {
    TreeView { data: t, left: Some(Box::new(l)), right: Some(Box::new(r)) }
}

/// Parses a factor at `i`: a parenthesized expression or a single operand
/// token. Anything else is a malformed token stream.
pub open spec fn spec_parse_factor(ts: Seq<TokenView>, i: int) -> Option<(TreeView, int)>
    decreases spec_remaining(ts, i), 0int,
{
    if i < 0 || i >= ts.len() {
        None
    } else {
        match ts[i] {
            TokenView::Op(c) => if c == '(' {
                match spec_parse_expression(ts, i + 1) {
                    None => None,
                    Some((n, j)) => if 0 <= j < ts.len() && ts[j] == TokenView::Op(')') {
                        Some((n, j + 1))
                    } else {
                        None
                    },
                }
            } else {
                None
            },
            _ => Some((spec_leaf(ts[i]), i + 1)),
        }
    }
}

/// Parses an exponent chain at `i`: a factor, folded left-associatively with
/// every following `^` factor.
pub open spec fn spec_parse_expo(ts: Seq<TokenView>, i: int) -> Option<(TreeView, int)>
    decreases spec_remaining(ts, i), 2int,
{
    match spec_parse_factor(ts, i) {
        None => None,
        Some((n, j)) => spec_parse_expo_loop(ts, n, spec_at_least(j, i)),
    }
}

/// Folds `^` factors onto `node`, left-associatively.
pub open spec fn spec_parse_expo_loop(ts: Seq<TokenView>, node: TreeView, i: int) -> Option<
    (TreeView, int),
>
    decreases spec_remaining(ts, i), 1int,
{
    if 0 <= i < ts.len() && ts[i] == TokenView::Op('^') {
        match spec_parse_factor(ts, i + 1) {
            None => None,
            Some((n2, j)) => spec_parse_expo_loop(
                ts,
                spec_branch(ts[i], node, n2),
                spec_at_least(j, i + 1),
            ),
        }
    } else {
        Some((node, i))
    }
}

/// Parses a term at `i`: an exponent chain, folded left-associatively with
/// every following `*` or `/` exponent chain.
pub open spec fn spec_parse_term(ts: Seq<TokenView>, i: int) -> Option<(TreeView, int)>
    decreases spec_remaining(ts, i), 4int,
{
    match spec_parse_expo(ts, i) {
        None => None,
        Some((n, j)) => spec_parse_term_loop(ts, n, spec_at_least(j, i)),
    }
}

/// Folds `*` and `/` exponent chains onto `node`, left-associatively.
pub open spec fn spec_parse_term_loop(ts: Seq<TokenView>, node: TreeView, i: int) -> Option<
    (TreeView, int),
>
    decreases spec_remaining(ts, i), 3int,
{
    if 0 <= i < ts.len() && (ts[i] == TokenView::Op('*') || ts[i] == TokenView::Op('/')) {
        match spec_parse_expo(ts, i + 1) {
            None => None,
            Some((n2, j)) => spec_parse_term_loop(
                ts,
                spec_branch(ts[i], node, n2),
                spec_at_least(j, i + 1),
            ),
        }
    } else {
        Some((node, i))
    }
}

/// Parses an expression at `i`: a term, folded left-associatively with every
/// following `+` or `-` term.
pub open spec fn spec_parse_expression(ts: Seq<TokenView>, i: int) -> Option<(TreeView, int)>
    decreases spec_remaining(ts, i), 6int,
{
    match spec_parse_term(ts, i) {
        None => None,
        Some((n, j)) => spec_parse_expression_loop(ts, n, spec_at_least(j, i)),
    }
}

/// Folds `+` and `-` terms onto `node`, left-associatively.
pub open spec fn spec_parse_expression_loop(ts: Seq<TokenView>, node: TreeView, i: int) -> Option<
    (TreeView, int),
>
    decreases spec_remaining(ts, i), 5int,
{
    if 0 <= i < ts.len() && (ts[i] == TokenView::Op('+') || ts[i] == TokenView::Op('-')) {
        match spec_parse_term(ts, i + 1) {
            None => None,
            Some((n2, j)) => spec_parse_expression_loop(
                ts,
                spec_branch(ts[i], node, n2),
                spec_at_least(j, i + 1),
            ),
        }
    } else {
        Some((node, i))
    }
}

/// The whole conversion through the tree: strip spaces, validate, tokenize,
/// parse an expression, and read the tree back in post-order. A token stream
/// the grammar cannot parse is reported as `InsufficientOperands`; tokens
/// after the parsed expression are ignored, as the iterative converter never
/// produces any for grammatical input.
pub open spec fn spec_convert_tree(s: Seq<char>) -> Result<Seq<TokenView>, ConvError> {
    match spec_validate(s) {
        Some(e) => Err(e),
        None => match spec_tokenize(spec_strip(s)) {
            None => Err(ConvError::MalformedNumber),
            Some(ts) => match spec_parse_expression(ts, 0) {
                None => Err(ConvError::InsufficientOperands),
                Some((tree, _)) => Ok(spec_postorder(tree)),
            },
        },
    }
}

/// One expression tree node with exclusively owned children.
struct Node {
    data: MathValue,
    left: Option<Box<Node>>,
    right: Option<Box<Node>>,
}

/// The mathematical image of a node: the tree of its tokens.
spec fn spec_node_view(n: Node) -> TreeView
    decreases n,
{
    TreeView {
        data: n.data@,
        left: match n.left {
            Some(b) => Some(Box::new(spec_node_view(*b))),
            None => None,
        },
        right: match n.right {
            Some(b) => Some(Box::new(spec_node_view(*b))),
            None => None,
        },
    }
}

impl View for Node {
    type V = TreeView;

    closed spec fn view(&self) -> TreeView {
        spec_node_view(*self)
    }
}

impl Node {
    /// Builds a node from a token and optional subtrees.
    fn new(data: MathValue, left: Option<Node>, right: Option<Node>) -> (r: Node)
        ensures
            r@.data == data@,
            r@.left == match left {
                Some(n) => Some(Box::new(n@)),
                None => None::<Box<TreeView>>,
            },
            r@.right == match right {
                Some(n) => Some(Box::new(n@)),
                None => None::<Box<TreeView>>,
            },
    {
        Node {
            data,
            left: match left {
                Some(n) => Some(Box::new(n)),
                None => None,
            },
            right: match right {
                Some(n) => Some(Box::new(n)),
                None => None,
            },
        }
    }
}

/// Walks the token stream while the tree grows.
struct Parser {
    tokens: Vec<MathValue>,
    current_token_index: usize,
}

impl Parser {
    /// The mathematical image of the token stream.
    spec fn toks(&self) -> Seq<TokenView> {
        self.tokens@.map_values(|m: MathValue| m@)
    }

    /// Validates and tokenizes the space-stripped input, and stands at the
    /// first token.
    fn try_from(input: &str) -> (r: Result<Parser, ConvError>)
        ensures
            match spec_validate(input@) {
                Some(e) => r == Err::<Parser, ConvError>(e),
                None => match spec_tokenize(spec_strip(input@)) {
                    None => r == Err::<Parser, ConvError>(ConvError::MalformedNumber),
                    Some(ts) => r matches Ok(p) && p.toks() == ts && p.current_token_index == 0,
                },
            },
    {
        // Clean Input
        let cleaned = strip_spaces(input);
        proof {
            super::lemma_strip_idempotent(input@);
        }
        let tokens_stack = match Stack::try_from(cleaned.as_str()) {
            Ok(st) => st,
            Err(e) => {
                return Err(e);
            },
        };
        let tokens = tokens_stack.into_elements();
        let p = Parser { tokens, current_token_index: 0 };
        proof {
            match spec_tokenize(spec_strip(input@)) {
                Some(ts) => {
                    assert(p.toks() =~= ts);
                },
                None => {},
            }
        }
        Ok(p)
    }

    /// Steps past the current token.
    fn advance(&mut self)
        requires
            old(self).current_token_index < old(self).tokens@.len(),
        ensures
            final(self).tokens == old(self).tokens,
            final(self).current_token_index == old(self).current_token_index + 1,
    {
        let n = self.tokens.len();
        if self.current_token_index < n {
            self.current_token_index = self.current_token_index + 1;
        }
    }

    /// The token under the cursor.
    fn current_token(&self) -> (r: &MathValue)
        requires
            self.current_token_index < self.tokens@.len(),
        ensures
            r@ == self.toks()[self.current_token_index as int],
    {
        &self.tokens[self.current_token_index]
    }

    /// Steps past the current token when it is the given operator character.
    fn match_token(&mut self, token_type: char) -> (r: bool)
        ensures
            final(self).tokens == old(self).tokens,
            r == (old(self).current_token_index < old(self).tokens@.len() && old(self).toks()[old(
                self,
            ).current_token_index as int] == TokenView::Op(token_type)),
            r ==> final(self).current_token_index == old(self).current_token_index + 1,
            !r ==> final(self).current_token_index == old(self).current_token_index,
    {
        if self.current_token_index < self.tokens.len() {
            let matched = match self.current_token() {
                MathValue::Op(op) => *op == token_type,
                _ => false,
            };
            if matched {
                self.advance();
                return true;
            }
        }
        false
    }

    /// Parses an expression: a term, then every following `+` or `-` term
    /// folded in left-associatively.
    fn parse_expression(&mut self) -> (r: Result<Node, ConvError>)
        requires
            old(self).current_token_index <= old(self).tokens@.len(),
        ensures
            final(self).tokens == old(self).tokens,
            final(self).current_token_index <= final(self).tokens@.len(),
            r is Ok ==> old(self).current_token_index < final(self).current_token_index,
            match spec_parse_expression(old(self).toks(), old(self).current_token_index as int) {
                None => r == Err::<Node, ConvError>(ConvError::InsufficientOperands),
                Some((tv, j)) => r matches Ok(n) && n@ == tv && final(self).current_token_index
                    == j,
            },
        decreases spec_remaining(self.toks(), self.current_token_index as int), 6int,
    {
        let ghost ts = self.toks();
        let ghost i0 = self.current_token_index as int;
        let ghost toks_vec = self.tokens;
        let mut node = match self.parse_term() {
            Ok(n) => n,
            Err(e) => {
                return Err(e);
            },
        };
        loop
            invariant_except_break
                self.tokens == toks_vec,
                toks_vec == old(self).tokens,
                self.toks() == ts,
                ts == old(self).toks(),
                i0 == old(self).current_token_index as int,
                i0 < self.current_token_index <= self.tokens@.len(),
                spec_parse_expression(ts, i0) == spec_parse_expression_loop(
                    ts,
                    node@,
                    self.current_token_index as int,
                ),
            ensures
                self.tokens == toks_vec,
                spec_parse_expression(ts, i0) == Some(
                    (node@, self.current_token_index as int),
                ),
                i0 < self.current_token_index <= self.tokens@.len(),
            decreases spec_remaining(ts, self.current_token_index as int), 5int,
        {
            let go = if self.current_token_index < self.tokens.len() {
                match self.current_token() {
                    MathValue::Op(op) => *op == '+' || *op == '-',
                    _ => false,
                }
            } else {
                false
            };
            if !go {
                break ;
            }
            let token = self.current_token().dup();
            self.advance();
            let rhs = match self.parse_term() {
                Ok(n) => n,
                Err(e) => {
                    return Err(e);
                },
            };
            node = Node::new(token, Some(node), Some(rhs));
        }
        Ok(node)
    }

    /// Parses a term: an exponent chain, then every following `*` or `/`
    /// exponent chain folded in left-associatively.
    fn parse_term(&mut self) -> (r: Result<Node, ConvError>)
        requires
            old(self).current_token_index <= old(self).tokens@.len(),
        ensures
            final(self).tokens == old(self).tokens,
            final(self).current_token_index <= final(self).tokens@.len(),
            r is Ok ==> old(self).current_token_index < final(self).current_token_index,
            match spec_parse_term(old(self).toks(), old(self).current_token_index as int) {
                None => r == Err::<Node, ConvError>(ConvError::InsufficientOperands),
                Some((tv, j)) => r matches Ok(n) && n@ == tv && final(self).current_token_index
                    == j,
            },
        decreases spec_remaining(self.toks(), self.current_token_index as int), 4int,
    {
        let ghost ts = self.toks();
        let ghost i0 = self.current_token_index as int;
        let ghost toks_vec = self.tokens;
        let mut node = match self.parse_expo() {
            Ok(n) => n,
            Err(e) => {
                return Err(e);
            },
        };
        loop
            invariant_except_break
                self.tokens == toks_vec,
                toks_vec == old(self).tokens,
                self.toks() == ts,
                ts == old(self).toks(),
                i0 == old(self).current_token_index as int,
                i0 < self.current_token_index <= self.tokens@.len(),
                spec_parse_term(ts, i0) == spec_parse_term_loop(
                    ts,
                    node@,
                    self.current_token_index as int,
                ),
            ensures
                self.tokens == toks_vec,
                spec_parse_term(ts, i0) == Some((node@, self.current_token_index as int)),
                i0 < self.current_token_index <= self.tokens@.len(),
            decreases spec_remaining(ts, self.current_token_index as int), 3int,
        {
            let go = if self.current_token_index < self.tokens.len() {
                match self.current_token() {
                    MathValue::Op(op) => *op == '*' || *op == '/',
                    _ => false,
                }
            } else {
                false
            };
            if !go {
                break ;
            }
            let token = self.current_token().dup();
            self.advance();
            let rhs = match self.parse_expo() {
                Ok(n) => n,
                Err(e) => {
                    return Err(e);
                },
            };
            node = Node::new(token, Some(node), Some(rhs));
        }
        Ok(node)
    }

    /// Parses an exponent chain: a factor, then every following `^` factor
    /// folded in left-associatively.
    fn parse_expo(&mut self) -> (r: Result<Node, ConvError>)
        requires
            old(self).current_token_index <= old(self).tokens@.len(),
        ensures
            final(self).tokens == old(self).tokens,
            final(self).current_token_index <= final(self).tokens@.len(),
            r is Ok ==> old(self).current_token_index < final(self).current_token_index,
            match spec_parse_expo(old(self).toks(), old(self).current_token_index as int) {
                None => r == Err::<Node, ConvError>(ConvError::InsufficientOperands),
                Some((tv, j)) => r matches Ok(n) && n@ == tv && final(self).current_token_index
                    == j,
            },
        decreases spec_remaining(self.toks(), self.current_token_index as int), 2int,
    {
        let ghost ts = self.toks();
        let ghost i0 = self.current_token_index as int;
        let ghost toks_vec = self.tokens;
        let mut node = match self.parse_factor() {
            Ok(n) => n,
            Err(e) => {
                return Err(e);
            },
        };
        loop
            invariant_except_break
                self.tokens == toks_vec,
                toks_vec == old(self).tokens,
                self.toks() == ts,
                ts == old(self).toks(),
                i0 == old(self).current_token_index as int,
                i0 < self.current_token_index <= self.tokens@.len(),
                spec_parse_expo(ts, i0) == spec_parse_expo_loop(
                    ts,
                    node@,
                    self.current_token_index as int,
                ),
            ensures
                self.tokens == toks_vec,
                spec_parse_expo(ts, i0) == Some((node@, self.current_token_index as int)),
                i0 < self.current_token_index <= self.tokens@.len(),
            decreases spec_remaining(ts, self.current_token_index as int), 1int,
        {
            let go = if self.current_token_index < self.tokens.len() {
                match self.current_token() {
                    MathValue::Op(op) => *op == '^',
                    _ => false,
                }
            } else {
                false
            };
            if !go {
                break ;
            }
            let token = self.current_token().dup();
            self.advance();
            let rhs = match self.parse_factor() {
                Ok(n) => n,
                Err(e) => {
                    return Err(e);
                },
            };
            node = Node::new(token, Some(node), Some(rhs));
        }
        Ok(node)
    }

    /// Parses a factor: a parenthesized expression, whose closing parenthesis
    /// must follow, or a single operand token. Anything else means the token
    /// stream does not form an expression.
    fn parse_factor(&mut self) -> (r: Result<Node, ConvError>)
        requires
            old(self).current_token_index <= old(self).tokens@.len(),
        ensures
            final(self).tokens == old(self).tokens,
            final(self).current_token_index <= final(self).tokens@.len(),
            r is Ok ==> old(self).current_token_index < final(self).current_token_index,
            match spec_parse_factor(old(self).toks(), old(self).current_token_index as int) {
                None => r == Err::<Node, ConvError>(ConvError::InsufficientOperands),
                Some((tv, j)) => r matches Ok(n) && n@ == tv && final(self).current_token_index
                    == j,
            },
        decreases spec_remaining(self.toks(), self.current_token_index as int), 0int,
    {
        if self.match_token('(') {
            let node = match self.parse_expression() {
                Ok(n) => n,
                Err(e) => {
                    return Err(e);
                },
            };
            if self.match_token(')') {
                Ok(node)
            } else {
                Err(ConvError::InsufficientOperands)
            }
        } else if self.current_token_index < self.tokens.len() {
            let leaf = match self.current_token() {
                MathValue::Op(_) => None,
                other => Some(other.dup()),
            };
            match leaf {
                Some(token) => {
                    self.advance();
                    Ok(Node::new(token, None, None))
                },
                None => Err(ConvError::InsufficientOperands),
            }
        } else {
            Err(ConvError::InsufficientOperands)
        }
    }
}

/// Appends the tree's tokens to `stack` in post-order: left subtree, right
/// subtree, then the node's own token.
fn traverse_tree(node: &Node, stack: &mut Stack)
    ensures
        final(stack)@ == old(stack)@ + spec_postorder(node@),
    decreases *node,
{
    let ghost out0 = stack@;
    match &node.left {
        Some(n) => traverse_tree(&*n, stack),
        None => {},
    }
    match &node.right {
        Some(n) => traverse_tree(&*n, stack),
        None => {},
    }
    stack.push(node.data.dup());
    proof {
        assert(stack@ =~= out0 + spec_postorder(node@));
    }
}

/// Converts an infix expression to postfix order by building an expression
/// tree with recursive descent and reading it back in post-order.
pub fn convert_in_to_post_fix(input: &str) -> (r: Result<Stack, ConvError>)
    ensures
        match spec_convert_tree(input@) {
            Ok(ts) => r matches Ok(st) && st@ == ts,
            Err(e) => r == Err::<Stack, ConvError>(e),
        },
{
    let mut parser = match Parser::try_from(input) {
        Ok(p) => p,
        Err(e) => {
            return Err(e);
        },
    };
    let ast = match parser.parse_expression() {
        Ok(n) => n,
        Err(e) => {
            return Err(e);
        },
    };
    let mut rpn = Stack::new();
    traverse_tree(&ast, &mut rpn);
    proof {
        assert(Seq::<TokenView>::empty() + spec_postorder(ast@) =~= spec_postorder(ast@));
    }
    Ok(rpn)
}

} // verus!
