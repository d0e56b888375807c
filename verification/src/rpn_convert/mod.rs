//! Token model, input validation and the shared tokenizer.

use vstd::prelude::*;

pub mod ast_tree;
pub mod equivalence;
pub mod shunting_yard;

verus! {

/// One lexical value of an expression: a numeric literal kept as its text, a
/// symbolic (algebraic) run kept as its raw text, or an operator character.
#[derive(Debug, Clone)]
pub enum MathValue {
    Num(String),
    Alge(String),
    Op(char),
}

/// The mathematical image of a `MathValue`: texts become character sequences.
pub enum TokenView {
    Num(Seq<char>),
    Alge(Seq<char>),
    Op(char),
}

impl View for MathValue {
    type V = TokenView;

    open spec fn view(&self) -> TokenView {
        match self {
            MathValue::Num(s) => TokenView::Num(s@),
            MathValue::Alge(s) => TokenView::Alge(s@),
            MathValue::Op(c) => TokenView::Op(*c),
        }
    }
}

impl MathValue {
    /// A copy of the token that provably carries the same view.
    pub fn dup(&self) -> (r: MathValue)
        ensures
            r@ == self@,
    {
        match self {
            MathValue::Num(s) => MathValue::Num(s.clone()),
            MathValue::Alge(s) => MathValue::Alge(s.clone()),
            MathValue::Op(c) => MathValue::Op(*c),
        }
    }
}

/// Priority of a binary operator; a lower value binds tighter. Parentheses
/// have no priority and are handled structurally by the converters.
pub open spec fn spec_precedence(c: char) -> Option<u8> {
    if c == '^' {
        Some(0u8)
    } else if c == '*' || c == '/' {
        Some(1u8)
    } else if c == '+' || c == '-' {
        Some(2u8)
    } else {
        None
    }
}

/// Whether `c` is one of the five binary operator characters.
pub open spec fn spec_is_operator(c: char) -> bool {
    spec_precedence(c) is Some
}

/// Looks an operator up in the precedence table.
pub(crate) fn precedence_of(c: char) -> (r: Option<u8>)
    ensures
        r == spec_precedence(c),
{
    if c == '^' {
        Some(0u8)
    } else if c == '*' || c == '/' {
        Some(1u8)
    } else if c == '+' || c == '-' {
        Some(2u8)
    } else {
        None
    }
}

/// Everything that can go wrong while validating, tokenizing, converting or
/// preparing an expression for evaluation.
#[derive(Debug, Clone, Copy, PartialEq, Eq, Structural)]
pub enum ConvError {
    /// The space-stripped input holds fewer than three characters.
    TooShort,
    /// A character outside the accepted set occurs in the input.
    InvalidCharacter,
    /// Two binary operators stand directly next to each other.
    AdjacentOperators,
    /// A `)` without a matching `(`, or an unclosed `(`.
    UnbalancedParentheses,
    /// A numeric-mode operand is not a well-formed decimal literal.
    MalformedNumber,
    /// A character reached the converter that is neither an operator nor a
    /// parenthesis.
    InvalidOperator(char),
    /// The token stream is too short for the structure it claims to have.
    InsufficientOperands,
}

/// Relies on `String::push`: appends the given character to the end of the
/// string.
pub assume_specification[ String::push ](s: &mut String, c: char)
    ensures
        final(s)@ == old(s)@.push(c),
;

/// The input with every space character removed, as the validator and the
/// converters see it.
pub open spec fn spec_strip(s: Seq<char>) -> Seq<char>
    decreases s.len(),
{
    if s.len() == 0 {
        Seq::empty()
    } else if s.last() == ' ' {
        spec_strip(s.drop_last())
    } else {
        spec_strip(s.drop_last()).push(s.last())
    }
}

/// Removes every space character from the input.
pub(crate) fn strip_spaces(input: &str) -> (r: String)
    ensures
        r@ == spec_strip(input@),
{
    let n = input.unicode_len();
    let mut r = String::new();
    let mut i: usize = 0;
    while i < n
        invariant
            i <= n,
            n == input@.len(),
            r@ == spec_strip(input@.take(i as int)),
        decreases n - i,
    {
        let c = input.get_char(i);
        proof {
            assert(input@.take(i + 1).drop_last() =~= input@.take(i as int));
            assert(input@.take(i + 1).last() == input@[i as int]);
        }
        if c != ' ' {
            r.push(c);
        }
        i = i + 1;
    }
    proof {
        assert(input@.take(n as int) =~= input@);
    }
    r
}

/// Stripping spaces never leaves a space behind, so stripping twice is the
/// same as stripping once.
pub proof fn lemma_strip_idempotent(s: Seq<char>)
    ensures
        spec_strip(spec_strip(s)) == spec_strip(s),
    decreases s.len(),
{
    if s.len() > 0 {
        lemma_strip_idempotent(s.drop_last());
        if s.last() != ' ' {
            let t = spec_strip(s.drop_last()).push(s.last());
            assert(t.drop_last() =~= spec_strip(s.drop_last()));
        }
    }
}

/// Whether `c` is an ASCII letter. Only ASCII input is accepted, so letters
/// outside ASCII never classify as alphabetic.
pub open spec fn spec_is_alpha(c: char) -> bool {
    ('a' <= c && c <= 'z') || ('A' <= c && c <= 'Z')
}

/// Whether `c` is an ASCII digit.
pub open spec fn spec_is_digit(c: char) -> bool {
    '0' <= c && c <= '9'
}

/// The characters an expression may contain: letters, digits, `.`, the
/// negation marker `!`, parentheses, and the five operators.
pub open spec fn spec_is_valid_char(c: char) -> bool {
    spec_is_alpha(c) || spec_is_digit(c) || c == '(' || c == ')' || c == '.' || c == '!'
        || spec_is_operator(c)
}

/// Whether the parentheses of `s[i..]` balance, given `depth` parentheses
/// already open.
pub open spec fn spec_parens_ok(s: Seq<char>, i: int, depth: int) -> bool
    decreases s.len() - i,
{
    if i < 0 || i >= s.len() {
        depth == 0
    } else if s[i] == '(' {
        spec_parens_ok(s, i + 1, depth + 1)
    } else if s[i] == ')' {
        depth > 0 && spec_parens_ok(s, i + 1, depth - 1)
    } else {
        spec_parens_ok(s, i + 1, depth)
    }
}

/// The first failed validation check on the space-stripped input, or `None`
/// when the input passes all four checks.
pub open spec fn spec_validate(s: Seq<char>) -> Option<ConvError> {
    let t = spec_strip(s);
    if t.len() < 3 {
        Some(ConvError::TooShort)
    } else if !(forall|i: int| 0 <= i < t.len() ==> spec_is_valid_char(#[trigger] t[i])) {
        Some(ConvError::InvalidCharacter)
    } else if exists|i: int|
        0 <= i < t.len() - 1 && spec_is_operator(#[trigger] t[i]) && spec_is_operator(t[i + 1]) {
        Some(ConvError::AdjacentOperators)
    } else if !spec_parens_ok(t, 0, 0) {
        Some(ConvError::UnbalancedParentheses)
    } else {
        None
    }
}

/// Validation is a pure predicate over the space-stripped input: stripping
/// first changes nothing, and equal inputs always validate alike.
pub proof fn lemma_validate_space_insensitive(s: Seq<char>)
    ensures
        spec_validate(s) == spec_validate(spec_strip(s)),
{
    lemma_strip_idempotent(s);
}

/// Whether any character of the input is alphabetic. One letter anywhere
/// switches the whole expression into symbolic mode.
pub open spec fn spec_symbolic(s: Seq<char>) -> bool {
    exists|i: int| 0 <= i < s.len() && spec_is_alpha(#[trigger] s[i])
}

/// Whether `c` accumulates into a pending operand token: a digit, a decimal
/// point, a lowercase letter, or the negation marker `!`.
pub open spec fn spec_is_accum(c: char) -> bool {
    spec_is_digit(c) || c == '.' || ('a' <= c && c <= 'z') || c == '!'
}

/// The character appended to the pending operand for `c`: the negation marker
/// becomes a literal minus sign, everything else is kept as it is.
pub open spec fn spec_accum_char(c: char) -> char {
    if c == '!' {
        '-'
    } else {
        c
    }
}

/// How many decimal points a pending operand holds.
pub open spec fn spec_dot_count(s: Seq<char>) -> int
    decreases s.len(),
{
    if s.len() == 0 {
        0
    } else {
        spec_dot_count(s.drop_last()) + if s.last() == '.' { 1int } else { 0int }
    }
}

/// A pending operand without its optional leading minus sign.
pub open spec fn spec_number_body(s: Seq<char>) -> Seq<char> {
    if s.len() > 0 && s[0] == '-' {
        s.drop_first()
    } else {
        s
    }
}

/// Whether a pending operand is a well-formed decimal literal: an optional
/// leading minus sign, at least one digit, at most one decimal point, and
/// nothing else.
pub open spec fn spec_is_valid_number(s: Seq<char>) -> bool {
    let body = spec_number_body(s);
    body.len() > 0 && (forall|i: int|
        0 <= i < body.len() ==> spec_is_digit(#[trigger] body[i]) || body[i] == '.')
        && spec_dot_count(body) <= 1 && (exists|i: int|
        0 <= i < body.len() && spec_is_digit(#[trigger] body[i]))
}

/// Whether the text of this value is a well-formed decimal literal.
pub(crate) fn is_valid_number(s: &str) -> (r: bool)
    ensures
        r == spec_is_valid_number(s@),
{
    let n = s.unicode_len();
    let start: usize = if n > 0 && s.get_char(0) == '-' {
        1
    } else {
        0
    };
    proof {
        if start == 1 {
            assert(s@.drop_first() =~= s@.subrange(1, s@.len() as int));
        } else {
            assert(s@ =~= s@.subrange(0, s@.len() as int));
        }
    }
    if n == start {
        return false;
    }
    let ghost body = s@.subrange(start as int, n as int);
    proof {
        assert(body =~= spec_number_body(s@));
    }
    let mut dots: usize = 0;
    let mut digit_seen = false;
    let mut i: usize = start;
    while i < n
        invariant
            start <= i <= n,
            n == s@.len(),
            body == s@.subrange(start as int, n as int),
            body == spec_number_body(s@),
            dots == spec_dot_count(body.take(i - start)),
            dots <= i,
            digit_seen == (exists|j: int| 0 <= j < i - start && spec_is_digit(#[trigger] body[j])),
            forall|j: int| 0 <= j < i - start ==> spec_is_digit(#[trigger] body[j]) || body[j] == '.',
        decreases n - i,
    {
        let c = s.get_char(i);
        proof {
            assert(body[i - start] == s@[i as int]);
            assert(body.take(i - start + 1).drop_last() =~= body.take(i - start));
        }
        if c == '.' {
            dots = dots + 1;
        } else if '0' <= c && c <= '9' {
            digit_seen = true;
        } else {
            return false;
        }
        i = i + 1;
    }
    proof {
        assert(body.take(n - start) =~= body);
    }
    dots <= 1 && digit_seen
}

/// Index of the first decimal point, or the length when there is none.
pub open spec fn spec_first_dot(s: Seq<char>) -> int
    decreases s.len(),
{
    if s.len() == 0 {
        0
    } else if s[0] == '.' {
        0
    } else {
        1 + spec_first_dot(s.drop_first())
    }
}

/// The sequence without its leading zero characters.
pub open spec fn spec_strip_leading_zeros(s: Seq<char>) -> Seq<char>
    decreases s.len(),
{
    if s.len() > 0 && s[0] == '0' {
        spec_strip_leading_zeros(s.drop_first())
    } else {
        s
    }
}

/// The sequence without its trailing zero characters.
pub open spec fn spec_strip_trailing_zeros(s: Seq<char>) -> Seq<char>
    decreases s.len(),
{
    if s.len() > 0 && s.last() == '0' {
        spec_strip_trailing_zeros(s.drop_last())
    } else {
        s
    }
}

/// The canonical decimal rendering of a numeric literal: redundant leading
/// zeros of the integer part and trailing zeros of the fraction disappear, an
/// empty integer part becomes `0`, and an empty fraction loses its point, so
/// `4.0` renders as `4` and `.5` as `0.5`. A leading minus sign stays.
pub open spec fn spec_canonical_number(s: Seq<char>) -> Seq<char> {
    let neg = s.len() > 0 && s[0] == '-';
    let body = spec_number_body(s);
    let d = spec_first_dot(body);
    let ip = body.take(d);
    let fp = if d < body.len() {
        body.skip(d + 1)
    } else {
        Seq::empty()
    };
    let iz = spec_strip_leading_zeros(ip);
    let ip2 = if iz.len() == 0 {
        seq!['0']
    } else {
        iz
    };
    let fp2 = spec_strip_trailing_zeros(fp);
    (if neg {
        seq!['-']
    } else {
        Seq::empty()
    }) + ip2 + (if fp2.len() > 0 {
        seq!['.'] + fp2
    } else {
        Seq::empty()
    })
}

/// The first decimal point of `s` stands at `k`: before it there is none, and
/// either `k` is past the end or a point stands there.
proof fn lemma_first_dot_at(s: Seq<char>, k: int)
    requires
        0 <= k <= s.len(),
        forall|j: int| 0 <= j < k ==> s[j] != '.',
        k == s.len() || s[k] == '.',
    ensures
        spec_first_dot(s) == k,
    decreases s.len(),
{
    if s.len() > 0 && k > 0 {
        lemma_first_dot_at(s.drop_first(), k - 1);
    }
}

/// Dropping the leading zeros of `s` is the same as skipping to `k`, the
/// first position without one.
proof fn lemma_strip_leading_zeros_at(s: Seq<char>, k: int)
    requires
        0 <= k <= s.len(),
        forall|j: int| 0 <= j < k ==> s[j] == '0',
        k == s.len() || s[k] != '0',
    ensures
        spec_strip_leading_zeros(s) == s.skip(k),
    decreases s.len(),
{
    if k == 0 {
        assert(s.skip(0) =~= s);
    } else {
        lemma_strip_leading_zeros_at(s.drop_first(), k - 1);
        assert(s.drop_first().skip(k - 1) =~= s.skip(k));
    }
}

/// Dropping the trailing zeros of `s` is the same as keeping the first `k`
/// characters, where everything from `k` on is a zero.
proof fn lemma_strip_trailing_zeros_at(s: Seq<char>, k: int)
    requires
        0 <= k <= s.len(),
        forall|j: int| k <= j < s.len() ==> s[j] == '0',
        k == 0 || s[k - 1] != '0',
    ensures
        spec_strip_trailing_zeros(s) == s.take(k),
    decreases s.len(),
{
    if k == s.len() {
        if k > 0 {
            assert(s.take(k) =~= s);
        } else {
            assert(s.take(0) =~= s);
        }
    } else {
        lemma_strip_trailing_zeros_at(s.drop_last(), k);
        assert(s.drop_last().take(k) =~= s.take(k));
    }
}

/// The canonical text assembled from the scanned boundaries: `d` is the first
/// decimal point (or `n`), `ip_start` the integer part without its leading
/// zeros, `fp_end` the fraction without its trailing zeros.
spec fn spec_assembled(s: Seq<char>, neg: bool, ip_start: int, d: int, fp_end: int, n: int) -> Seq<
    char,
> {
    let pre: Seq<char> = if neg {
        seq!['-']
    } else {
        Seq::empty()
    };
    let ip2: Seq<char> = if ip_start == d {
        seq!['0']
    } else {
        s.subrange(ip_start, d)
    };
    let tail: Seq<char> = if d < n && fp_end > d + 1 {
        seq!['.'] + s.subrange(d + 1, fp_end)
    } else {
        Seq::empty()
    };
    pre + ip2 + tail
}

/// Copies the scanned pieces of the literal into one string.
fn assemble_number(s: &str, neg: bool, ip_start: usize, d: usize, fp_end: usize) -> (r: String)
    requires
        ip_start <= d <= s@.len(),
        d < fp_end ==> fp_end <= s@.len(),
    ensures
        r@ == spec_assembled(s@, neg, ip_start as int, d as int, fp_end as int, s@.len() as int),
{
    let n = s.unicode_len();
    let ghost pre: Seq<char> = if neg {
        seq!['-']
    } else {
        Seq::empty()
    };
    let mut r = String::new();
    if neg {
        r.push('-');
    }
    proof {
        assert(r@ =~= pre);
    }
    if ip_start == d {
        r.push('0');
    } else {
        let mut i = ip_start;
        while i < d
            invariant
                ip_start <= i <= d <= n,
                n == s@.len(),
                r@ == pre + s@.subrange(ip_start as int, i as int),
            decreases d - i,
        {
            let c = s.get_char(i);
            r.push(c);
            proof {
                assert(s@.subrange(ip_start as int, i + 1) =~= s@.subrange(
                    ip_start as int,
                    i as int,
                ).push(s@[i as int]));
            }
            i = i + 1;
        }
    }
    let ghost ip2: Seq<char> = if ip_start == d {
        seq!['0']
    } else {
        s@.subrange(ip_start as int, d as int)
    };
    proof {
        assert(r@ =~= pre + ip2);
    }
    if d < n && fp_end > d + 1 {
        r.push('.');
        let ghost before = r@;
        let mut i = d + 1;
        while i < fp_end
            invariant
                d + 1 <= i <= fp_end <= n,
                n == s@.len(),
                r@ == before + s@.subrange(d + 1, i as int),
            decreases fp_end - i,
        {
            let c = s.get_char(i);
            r.push(c);
            proof {
                assert(s@.subrange(d + 1, i + 1) =~= s@.subrange(d + 1, i as int).push(
                    s@[i as int],
                ));
            }
            i = i + 1;
        }
        proof {
            assert(r@ =~= pre + ip2 + (seq!['.'] + s@.subrange(d + 1, fp_end as int)));
        }
    } else {
        proof {
            assert(r@ =~= pre + ip2 + Seq::<char>::empty());
        }
    }
    r
}

/// The scanned boundaries describe the canonical form: once the first point,
/// the leading zeros and the trailing zeros are located, assembling the
/// pieces gives exactly the canonical rendering.
proof fn lemma_canonical_parts(s: Seq<char>, start: int, ip_start: int, d: int, fp_end: int, n: int)
    requires
        n == s.len(),
        start == if s.len() > 0 && s[0] == '-' { 1int } else { 0int },
        start <= ip_start <= d <= n,
        forall|j: int| start <= j < d ==> s[j] != '.',
        d == n || s[d] == '.',
        forall|j: int| start <= j < ip_start ==> s[j] == '0',
        ip_start == d || s[ip_start] != '0',
        d < n ==> d + 1 <= fp_end <= n,
        d < n ==> (forall|j: int| fp_end <= j < n ==> s[j] == '0'),
        d < n ==> (fp_end == d + 1 || s[fp_end - 1] != '0'),
        d == n ==> fp_end == n,
    ensures
        spec_canonical_number(s) == spec_assembled(s, start == 1, ip_start, d, fp_end, n),
{
    let body = spec_number_body(s);
    assert(body =~= s.subrange(start, n));
    lemma_first_dot_at(body, d - start);
    assert(body.take(d - start) =~= s.subrange(start, d));
    lemma_strip_leading_zeros_at(body.take(d - start), ip_start - start);
    assert(body.take(d - start).skip(ip_start - start) =~= s.subrange(ip_start, d));
    if d < n {
        let fp = body.skip(d - start + 1);
        assert(fp =~= s.subrange(d + 1, n));
        lemma_strip_trailing_zeros_at(fp, fp_end - d - 1);
        assert(fp.take(fp_end - d - 1) =~= s.subrange(d + 1, fp_end));
    }
    assert(spec_canonical_number(s) == spec_assembled(s, start == 1, ip_start, d, fp_end, n));
}

/// Renders a numeric literal in canonical decimal form.
pub(crate) fn canonical_number(s: &str) -> (r: String)
    ensures
        r@ == spec_canonical_number(s@),
{
    let n = s.unicode_len();
    let start: usize = if n > 0 && s.get_char(0) == '-' {
        1
    } else {
        0
    };
    // Find the first decimal point.
    let mut d: usize = start;
    while d < n && s.get_char(d) != '.'
        invariant
            start <= d <= n,
            n == s@.len(),
            forall|j: int| start <= j < d ==> s@[j] != '.',
        decreases n - d,
    {
        d = d + 1;
    }
    // Find the first character of the integer part that is not a zero.
    let mut ip_start: usize = start;
    while ip_start < d && s.get_char(ip_start) == '0'
        invariant
            start <= ip_start <= d <= n,
            n == s@.len(),
            forall|j: int| start <= j < ip_start ==> s@[j] == '0',
        decreases d - ip_start,
    {
        ip_start = ip_start + 1;
    }
    // Find the end of the fraction once its trailing zeros are gone.
    let mut fp_end: usize = n;
    if d < n {
        while fp_end > d + 1 && s.get_char(fp_end - 1) == '0'
            invariant
                d + 1 <= fp_end <= n,
                n == s@.len(),
                d < n,
                forall|j: int| fp_end <= j < n ==> s@[j] == '0',
            decreases fp_end,
        {
            fp_end = fp_end - 1;
        }
    }
    proof {
        lemma_canonical_parts(s@, start as int, ip_start as int, d as int, fp_end as int, n as int);
    }
    assemble_number(s, start == 1, ip_start, d, fp_end)
}

/// Feeds one character to the pending-operand buffer. Digits, `.` and
/// lowercase letters accumulate as themselves; the negation marker `!`
/// accumulates as a literal `-`. Returns whether the character was consumed;
/// any other character leaves the buffer untouched for operator handling.
pub fn handle_non_op_token(token: &char, digit_tracker: &mut bool, number_as_string: &mut String) -> (r:
    bool)
    ensures
        r == spec_is_accum(*token),
        spec_is_accum(*token) ==> *final(digit_tracker) && final(number_as_string)@ == old(
            number_as_string
        )@.push(spec_accum_char(*token)),
        !spec_is_accum(*token) ==> *final(digit_tracker) == *old(digit_tracker) && final(
            number_as_string
        )@ == old(number_as_string)@,
{
    let c = *token;
    if ('0' <= c && c <= '9') || c == '.' || ('a' <= c && c <= 'z') {
        number_as_string.push(c);
        *digit_tracker = true;
        true
    } else if c == '!' {
        number_as_string.push('-');
        *digit_tracker = true;
        true
    } else {
        false
    }
}

/// An ordered sequence of tokens: scratch stack during conversion, ordered
/// postfix output afterwards.
#[derive(Debug)]
pub struct Stack {
    elements: Vec<MathValue>,
}

impl View for Stack {
    type V = Seq<TokenView>;

    closed spec fn view(&self) -> Seq<TokenView> {
        self.elements@.map_values(|m: MathValue| m@)
    }
}

impl Stack {
    /// An empty token sequence.
    pub(crate) fn new() -> (s: Stack)
        ensures
            s@ == Seq::<TokenView>::empty(),
    {
        let s = Stack { elements: Vec::new() };
        proof {
            assert(s@ =~= Seq::<TokenView>::empty());
        }
        s
    }

    /// Appends a token at the end.
    pub(crate) fn push(&mut self, token: MathValue)
        ensures
            final(self)@ == old(self)@.push(token@),
    {
        let ghost t = token@;
        self.elements.push(token);
        proof {
            assert(self@ =~= old(self)@.push(t));
        }
    }

    /// Removes and returns the last token, if any.
    pub(crate) fn pop(&mut self) -> (r: Option<MathValue>)
        ensures
            old(self)@.len() == 0 ==> r is None && final(self)@ == old(self)@,
            old(self)@.len() > 0 ==> match r {
                Some(t) => t@ == old(self)@.last() && final(self)@ == old(self)@.drop_last(),
                None => false,
            },
    {
        let r = self.elements.pop();
        proof {
            if old(self)@.len() > 0 {
                assert(self@ =~= old(self)@.drop_last());
            } else {
                assert(self@ =~= old(self)@);
            }
        }
        r
    }

    /// Shows the last token without removing it.
    pub(crate) fn peak(&self) -> (r: Option<&MathValue>)
        ensures
            self@.len() == 0 ==> r is None,
            self@.len() > 0 ==> match r {
                Some(t) => t@ == self@.last(),
                None => false,
            },
    {
        if self.elements.len() == 0 {
            None
        } else {
            Some(&self.elements[self.elements.len() - 1])
        }
    }

    /// How many tokens the sequence holds.
    pub fn len(self) -> (r: usize)
        ensures
            r == self@.len(),
    {
        self.elements.len()
    }

    /// Gives the tokens up as a plain vector.
    pub(crate) fn into_elements(self) -> (r: Vec<MathValue>)
        ensures
            r@.map_values(|m: MathValue| m@) == self@,
    {
        self.elements
    }

    /// An iterator over the tokens, front to back.
    pub fn iter(&self) -> (r: StackIter<'_>)
        ensures
            r.stack@ == self@,
            r.index == 0,
    {
        StackIter { stack: self, index: 0 }
    }
}

/// Walks a `Stack` front to back.
pub struct StackIter<'a> {
    /// The sequence being walked.
    pub stack: &'a Stack,
    /// The position of the next token to hand out.
    pub index: usize,
}

impl<'a> StackIter<'a> {
    /// Hands out the next token, or `None` past the end.
    pub fn next(&mut self) -> (r: Option<&'a MathValue>)
        ensures
            final(self).stack == old(self).stack,
            old(self).index < old(self).stack@.len() ==> match r {
                Some(t) => t@ == old(self).stack@[old(self).index as int] && final(self).index
                    == old(self).index + 1,
                None => false,
            },
            old(self).index >= old(self).stack@.len() ==> r is None && final(self).index == old(
                self,
            ).index,
    {
        if self.index < self.stack.elements.len() {
            let result = Some(&self.stack.elements[self.index]);
            self.index = self.index + 1;
            result
        } else {
            None
        }
    }
}

/// Validates raw input before tokenization runs.
pub struct Validate;

impl Validate {
    /// Whether `ch` occurs in `haystack`.
    pub fn char_contained_in(ch: char, haystack: &str) -> (r: bool)
        ensures
            r == haystack@.contains(ch),
    {
        let n = haystack.unicode_len();
        let mut i: usize = 0;
        while i < n
            invariant
                i <= n,
                n == haystack@.len(),
                forall|j: int| 0 <= j < i ==> haystack@[j] != ch,
            decreases n - i,
        {
            if haystack.get_char(i) == ch {
                return true;
            }
            i = i + 1;
        }
        false
    }

    /// Whether the space-stripped input holds at least three characters.
    pub fn validate_len(input: &str) -> (r: bool)
        ensures
            r == (spec_strip(input@).len() >= 3),
    {
        let stripped = strip_spaces(input);
        stripped.as_str().unicode_len() >= 3
    }

    /// Whether every character of the input is accepted: alphabetic, a digit,
    /// one of `( ) . !`, or a key of the precedence table.
    pub fn validate_chars(input: &str) -> (r: bool)
        ensures
            r == (forall|i: int| 0 <= i < input@.len() ==> spec_is_valid_char(#[trigger] input@[i])),
    {
        let n = input.unicode_len();
        let mut i: usize = 0;
        while i < n
            invariant
                i <= n,
                n == input@.len(),
                forall|j: int| 0 <= j < i ==> spec_is_valid_char(#[trigger] input@[j]),
            decreases n - i,
        {
            let c = input.get_char(i);
            let alpha = ('a' <= c && c <= 'z') || ('A' <= c && c <= 'Z');
            let digit = '0' <= c && c <= '9';
            let listed = c == '(' || c == ')' || c == '.' || c == '!';
            if !(alpha || digit || listed || precedence_of(c).is_some()) {
                return false;
            }
            i = i + 1;
        }
        true
    }

    /// Whether no two binary operators stand directly next to each other.
    pub fn validate_sandwich_operators(input: &str) -> (r: bool)
        ensures
            r == !(exists|i: int|
                0 <= i < input@.len() - 1 && spec_is_operator(#[trigger] input@[i])
                    && spec_is_operator(input@[i + 1])),
    {
        let n = input.unicode_len();
        if n == 0 {
            return true;
        }
        let mut i: usize = 0;
        while i < n - 1
            invariant
                i <= n,
                n == input@.len(),
                n >= 1,
                forall|j: int|
                    0 <= j < i ==> !(spec_is_operator(#[trigger] input@[j]) && spec_is_operator(
                        input@[j + 1],
                    )),
            decreases n - i,
        {
            let first = input.get_char(i);
            let second = input.get_char(i + 1);
            if precedence_of(first).is_some() && precedence_of(second).is_some() {
                return false;
            }
            i = i + 1;
        }
        true
    }

    /// Whether the parentheses of the input balance: every `)` closes an open
    /// `(`, and none stays open at the end.
    pub fn validate_parentheses(input: &str) -> (r: bool)
        ensures
            r == spec_parens_ok(input@, 0, 0),
    {
        let n = input.unicode_len();
        let mut i: usize = 0;
        let mut depth: usize = 0;
        while i < n
            invariant
                i <= n,
                n == input@.len(),
                depth <= i,
                spec_parens_ok(input@, 0, 0) == spec_parens_ok(input@, i as int, depth as int),
            decreases n - i,
        {
            let c = input.get_char(i);
            if c == '(' {
                depth = depth + 1;
            } else if c == ')' {
                if depth == 0 {
                    return false;
                }
                depth = depth - 1;
            }
            i = i + 1;
        }
        depth == 0
    }

    /// Applies the four validation checks, in order, to the space-stripped
    /// input; reports the first failure as a message, or `"Is_valid"`.
    pub fn validate_input(input: &str) -> (r: (bool, &str))
        ensures
            r.0 == (spec_validate(input@) is None),
            match spec_validate(input@) {
                None => r.1@ == "Is_valid"@,
                Some(ConvError::TooShort) => r.1@ == "Enter at least 3 elements"@,
                Some(ConvError::InvalidCharacter) => r.1@ == "Invalid Char"@,
                Some(ConvError::AdjacentOperators) => r.1@ == "Invalid order of operators"@,
                Some(ConvError::UnbalancedParentheses) => r.1@
                    == "Invalid order of parentheses"@,
                _ => false,
            },
    {
        let stripped = strip_spaces(input);
        let s = stripped.as_str();
        proof {
            lemma_strip_idempotent(input@);
        }
        if !Self::validate_len(s) {
            return (false, "Enter at least 3 elements");
        }
        if !Self::validate_chars(s) {
            return (false, "Invalid Char");
        }
        if !Self::validate_sandwich_operators(s) {
            return (false, "Invalid order of operators");
        }
        if !Self::validate_parentheses(s) {
            return (false, "Invalid order of parentheses");
        }
        (true, "Is_valid")
    }
}

/// The token a pending operand flushes to: in symbolic mode its raw text, in
/// numeric mode a numeric literal, which must be well formed.
pub open spec fn spec_flush(buf: Seq<char>, symbolic: bool) -> Option<TokenView> {
    if symbolic {
        Some(TokenView::Alge(buf))
    } else if spec_is_valid_number(buf) {
        Some(TokenView::Num(buf))
    } else {
        None
    }
}

/// The tokens of `s[i..]`, with `buf` already accumulated: operand characters
/// extend the pending buffer, anything else flushes it and becomes an
/// operator token. `None` means a numeric-mode operand was malformed.
pub open spec fn spec_tokenize_from(
    s: Seq<char>,
    i: int,
    buf: Seq<char>,
    symbolic: bool,
) -> Option<Seq<TokenView>>
    decreases s.len() - i,
{
    if i < 0 || i >= s.len() {
        if buf.len() == 0 {
            Some(Seq::empty())
        } else {
            match spec_flush(buf, symbolic) {
                Some(t) => Some(seq![t]),
                None => None,
            }
        }
    } else if spec_is_accum(s[i]) {
        spec_tokenize_from(s, i + 1, buf.push(spec_accum_char(s[i])), symbolic)
    } else {
        match spec_tokenize_from(s, i + 1, Seq::empty(), symbolic) {
            None => None,
            Some(rest) => if buf.len() == 0 {
                Some(seq![TokenView::Op(s[i])] + rest)
            } else {
                match spec_flush(buf, symbolic) {
                    Some(t) => Some(seq![t, TokenView::Op(s[i])] + rest),
                    None => None,
                }
            },
        }
    }
}

/// The tokens of the whole input, classified once for the whole expression:
/// symbolic as soon as any character is alphabetic.
pub open spec fn spec_tokenize(s: Seq<char>) -> Option<Seq<TokenView>> {
    spec_tokenize_from(s, 0, Seq::empty(), spec_symbolic(s))
}

/// Prefixing already-emitted tokens onto the outcome for the rest.
pub open spec fn spec_tok_result(
    done: Seq<TokenView>,
    rest: Option<Seq<TokenView>>,
) -> Option<Seq<TokenView>> {
    match rest {
        None => None,
        Some(ts) => Some(done + ts),
    }
}

/// Whether any character of the input is alphabetic.
pub(crate) fn has_alpha(s: &str) -> (r: bool)
    ensures
        r == spec_symbolic(s@),
{
    let n = s.unicode_len();
    let mut i: usize = 0;
    while i < n
        invariant
            i <= n,
            n == s@.len(),
            forall|j: int| 0 <= j < i ==> !spec_is_alpha(#[trigger] s@[j]),
        decreases n - i,
    {
        let c = s.get_char(i);
        if ('a' <= c && c <= 'z') || ('A' <= c && c <= 'Z') {
            return true;
        }
        i = i + 1;
    }
    false
}

/// Emits a flushed operand onto `target`: raw text in symbolic mode, a
/// checked numeric literal otherwise.
pub(crate) fn push_conversion_type(target: &mut Stack, value: String, conversion_type: bool) -> (r: Result<
    (),
    ConvError,
>)
    ensures
        match spec_flush(value@, conversion_type) {
            Some(t) => r is Ok && final(target)@ == old(target)@.push(t),
            None => r == Err::<(), ConvError>(ConvError::MalformedNumber) && final(target)@ == old(
                target,
            )@,
        },
{
    if conversion_type {
        target.push(MathValue::Alge(value));
        Ok(())
    } else if is_valid_number(value.as_str()) {
        target.push(MathValue::Num(value));
        Ok(())
    } else {
        Err(ConvError::MalformedNumber)
    }
}

/// The typed validation failure for an input the validator rejects.
pub(crate) fn validation_error(input: &str) -> (r: ConvError)
    ensures
        spec_validate(input@) matches Some(e) ==> r == e,
{
    let stripped = strip_spaces(input);
    let s = stripped.as_str();
    proof {
        lemma_strip_idempotent(input@);
    }
    if !Validate::validate_len(s) {
        ConvError::TooShort
    } else if !Validate::validate_chars(s) {
        ConvError::InvalidCharacter
    } else if !Validate::validate_sandwich_operators(s) {
        ConvError::AdjacentOperators
    } else {
        ConvError::UnbalancedParentheses
    }
}

impl Stack {
    /// Validates the input, then scans it into tokens: maximal runs of
    /// digits, points, lowercase letters and negation markers become operand
    /// tokens, every other character an operator token.
    pub fn try_from(input: &str) -> (r: Result<Stack, ConvError>)
        ensures
            match spec_validate(input@) {
                Some(e) => r == Err::<Stack, ConvError>(e),
                None => match spec_tokenize(input@) {
                    None => r == Err::<Stack, ConvError>(ConvError::MalformedNumber),
                    Some(ts) => r matches Ok(st) && st@ == ts,
                },
            },
    {
        let (is_valid, _msg) = Validate::validate_input(input);
        if !is_valid {
            return Err(validation_error(input));
        }
        tokenize(input)
    }
}

/// Scans the input into tokens without validating it first: maximal runs of
/// digits, points, lowercase letters and negation markers become operand
/// tokens, every other character an operator token.
pub(crate) fn tokenize(input: &str) -> (r: Result<Stack, ConvError>)
    ensures
        match spec_tokenize(input@) {
            None => r == Err::<Stack, ConvError>(ConvError::MalformedNumber),
            Some(ts) => r matches Ok(st) && st@ == ts,
        },
{
    let ghost sym = spec_symbolic(input@);
    let mut stack = Stack::new();
    let mut number_as_string = String::new();
    let mut digit_tracker = false;

    // True for alge, else false
    let conversion_type_is_alge = has_alpha(input);

    let n = input.unicode_len();
    let mut i: usize = 0;
    proof {
        match spec_tokenize(input@) {
            Some(ts) => {
                assert(Seq::<TokenView>::empty() + ts =~= ts);
            },
            None => {},
        }
    }
    while i < n
        invariant
            i <= n,
            n == input@.len(),
            sym == spec_symbolic(input@),
            conversion_type_is_alge == sym,
            digit_tracker == (number_as_string@.len() > 0),
            spec_tok_result(
                stack@,
                spec_tokenize_from(input@, i as int, number_as_string@, sym),
            ) == spec_tokenize(input@),
        decreases n - i,
    {
        let token = input.get_char(i);
        let ghost pre = stack@;
        let ghost buf0 = number_as_string@;
        if handle_non_op_token(&token, &mut digit_tracker, &mut number_as_string) {
            proof {
                assert(number_as_string@ == buf0.push(spec_accum_char(input@[i as int])));
                assert(spec_tokenize_from(input@, i as int, buf0, sym)
                    == spec_tokenize_from(input@, i + 1, number_as_string@, sym));
            }
            i = i + 1;
            continue ;
        }
        if digit_tracker {
            let flushed = number_as_string;
            match push_conversion_type(&mut stack, flushed, conversion_type_is_alge) {
                Ok(()) => {},
                Err(e) => {
                    return Err(e);
                },
            }
            digit_tracker = false;
            number_as_string = String::new();
        }
        stack.push(MathValue::Op(token));
        proof {
            assert(number_as_string@ =~= Seq::<char>::empty());
            match spec_tokenize_from(input@, i + 1, Seq::<char>::empty(), sym) {
                Some(ts) => {
                    if buf0.len() == 0 {
                        assert(pre + (seq![TokenView::Op(input@[i as int])] + ts) =~= stack@
                            + ts);
                    } else {
                        let t = spec_flush(buf0, sym).unwrap();
                        assert(pre + (seq![t, TokenView::Op(input@[i as int])] + ts) =~= stack@
                            + ts);
                    }
                },
                None => {},
            }
        }
        i = i + 1;
    }
    if digit_tracker {
        match push_conversion_type(&mut stack, number_as_string, conversion_type_is_alge) {
            Ok(()) => {},
            Err(e) => {
                return Err(e);
            },
        }
    }
    Ok(stack)
}

/// A pending operand is kept from its first character on: whatever the
/// tokenizer still accumulates, the first operand token it emits starts with
/// the character the buffer already starts with.
proof fn lemma_first_token_keeps_buffer_head(s: Seq<char>, i: int, buf: Seq<char>, sym: bool)
    requires
        buf.len() > 0,
    ensures
        match spec_tokenize_from(s, i, buf, sym) {
            Some(ts) => ts.len() > 0 && match ts[0] {
                TokenView::Num(x) => x.len() > 0 && x[0] == buf[0],
                TokenView::Alge(x) => x.len() > 0 && x[0] == buf[0],
                TokenView::Op(_) => false,
            },
            None => true,
        },
    decreases s.len() - i,
{
    if 0 <= i < s.len() && spec_is_accum(s[i]) {
        lemma_first_token_keeps_buffer_head(s, i + 1, buf.push(spec_accum_char(s[i])), sym);
    }
}

/// Negation encoding: the marker `!` standing where an operand run begins
/// produces an operand token whose text begins with a minus sign.
pub proof fn lemma_negation_encoding(s: Seq<char>, i: int, sym: bool)
    requires
        0 <= i < s.len(),
        s[i] == '!',
    ensures
        match spec_tokenize_from(s, i, Seq::empty(), sym) {
            Some(ts) => ts.len() > 0 && match ts[0] {
                TokenView::Num(x) => x.len() > 0 && x[0] == '-',
                TokenView::Alge(x) => x.len() > 0 && x[0] == '-',
                TokenView::Op(_) => false,
            },
            None => true,
        },
{
    lemma_first_token_keeps_buffer_head(s, i + 1, Seq::empty().push('-'), sym);
}

/// The text of one token: numeric literals in canonical decimal form,
/// symbolic runs and operators as they are.
pub open spec fn spec_render_token(t: TokenView) -> Seq<char> {
    match t {
        TokenView::Num(s) => spec_canonical_number(s),
        TokenView::Alge(s) => s,
        TokenView::Op(c) => seq![c],
    }
}

/// The texts of the tokens joined by single spaces.
pub open spec fn spec_render(ts: Seq<TokenView>) -> Seq<char>
    decreases ts.len(),
{
    if ts.len() == 0 {
        Seq::empty()
    } else if ts.len() == 1 {
        spec_render_token(ts[0])
    } else {
        spec_render_token(ts[0]) + seq![' '] + spec_render(ts.drop_first())
    }
}

/// Rendering grows token by token: one more token appends one space and its
/// text, except for the very first.
proof fn lemma_render_push(ts: Seq<TokenView>, t: TokenView)
    ensures
        spec_render(ts.push(t)) == if ts.len() == 0 {
            spec_render_token(t)
        } else {
            spec_render(ts) + seq![' '] + spec_render_token(t)
        },
    decreases ts.len(),
{
    let p = ts.push(t);
    if ts.len() == 0 {
        assert(p.len() == 1 && p[0] == t);
    } else {
        lemma_render_push(ts.drop_first(), t);
        assert(p.drop_first() =~= ts.drop_first().push(t));
        if ts.len() == 1 {
            assert(spec_render(p) == spec_render_token(ts[0]) + seq![' '] + spec_render_token(t));
        }
    }
}

impl Stack {
    /// Renders the token sequence as one space-joined string.
    pub fn as_string(&self) -> (r: String)
        ensures
            r@ == spec_render(self@),
    {
        let mut r = String::new();
        let n = self.elements.len();
        let mut i: usize = 0;
        while i < n
            invariant
                i <= n,
                n == self.elements@.len(),
                n == self@.len(),
                r@ == spec_render(self@.take(i as int)),
            decreases n - i,
        {
            let rendered: String = match &self.elements[i] {
                MathValue::Num(text) => canonical_number(text.as_str()),
                MathValue::Alge(text) => text.clone(),
                MathValue::Op(c) => {
                    let mut op = String::new();
                    op.push(*c);
                    proof {
                        assert(op@ =~= seq![*c]);
                    }
                    op
                },
            };
            if i > 0 {
                r.push(' ');
            }
            r.append(rendered.as_str());
            proof {
                assert(self.elements@[i as int]@ == self@[i as int]);
                lemma_render_push(self@.take(i as int), self@[i as int]);
                assert(self@.take(i + 1) =~= self@.take(i as int).push(self@[i as int]));
            }
            i = i + 1;
        }
        proof {
            assert(self@.take(n as int) =~= self@);
        }
        r
    }
}


} // verus!
