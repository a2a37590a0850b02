use vstd::prelude::*;

verus! {

/// A binary arithmetic operator.
#[derive(PartialEq, Eq, Structural, Clone, Copy, Debug)]
pub enum Operator {
    Plus,
    Minus,
    Multiply,
    Divide,
}

/// Binding strength of an operator: additive operators bind weaker than
/// multiplicative ones.
pub open spec fn precedence_of(op: Operator) -> int {
    match op {
        Operator::Plus | Operator::Minus => 1,
        Operator::Multiply | Operator::Divide => 2,
    }
}

impl Operator {
    pub fn precedence(&self) -> (r: i32)
        ensures
            r as int == precedence_of(*self),
    {
        match self {
            Operator::Plus | Operator::Minus => 1,
            Operator::Multiply | Operator::Divide => 2,
        }
    }
}

/// One token of an infix or postfix expression.
#[derive(PartialEq, Clone, Debug)]
pub enum ExpressionToken {
    /// A decimal literal, grown one character at a time while it is typed.
    Operand(String),
    Operator(Operator),
    OpenParen,
    CloseParen,
}

/// The mathematical content of a token: an operand is its text.
pub enum TokenView {
    Operand(Seq<char>),
    Operator(Operator),
    OpenParen,
    CloseParen,
}

impl View for ExpressionToken {
    type V = TokenView;

    open spec fn view(&self) -> TokenView {
        match self {
            ExpressionToken::Operand(x) => TokenView::Operand(x@),
            ExpressionToken::Operator(op) => TokenView::Operator(*op),
            ExpressionToken::OpenParen => TokenView::OpenParen,
            ExpressionToken::CloseParen => TokenView::CloseParen,
        }
    }
}

/// The views of a sequence of tokens.
pub open spec fn views(s: Seq<ExpressionToken>) -> Seq<TokenView> {
    s.map_values(|t: ExpressionToken| t@)
}

/// Number of open parentheses in `s`.
pub open spec fn count_open(s: Seq<TokenView>) -> nat
    decreases s.len(),
{
    if s.len() == 0 {
        0
    } else {
        count_open(s.drop_last()) + if s.last() is OpenParen { 1nat } else { 0nat }
    }
}

/// Number of close parentheses in `s`.
pub open spec fn count_close(s: Seq<TokenView>) -> nat
    decreases s.len(),
{
    if s.len() == 0 {
        0
    } else {
        count_close(s.drop_last()) + if s.last() is CloseParen { 1nat } else { 0nat }
    }
}

/// The placeholder that stands for "start or continue a number".
pub open spec fn operand_placeholder() -> TokenView {
    TokenView::Operand(Seq::empty())
}

/// The placeholder that stands for "any operator".
pub open spec fn operator_placeholder() -> TokenView {
    TokenView::Operator(Operator::Plus)
}

/// The categories of token that may legally follow `s`, each given by a
/// representative placeholder.
pub open spec fn next_tokens(s: Seq<TokenView>) -> Seq<TokenView> {
    if s.len() == 0 {
        seq![operand_placeholder(), TokenView::OpenParen]
    } else {
        match s.last() {
            TokenView::Operator(_) | TokenView::OpenParen => seq![
                operand_placeholder(),
                TokenView::OpenParen,
            ],
            TokenView::Operand(_) | TokenView::CloseParen => if count_open(s) > count_close(s) {
                seq![operator_placeholder(), TokenView::CloseParen]
            } else {
                seq![operator_placeholder()]
            },
        }
    }
}

proof fn lemma_counts_bounded(s: Seq<TokenView>)
    ensures
        count_open(s) <= s.len(),
        count_close(s) <= s.len(),
    decreases s.len(),
{
    if s.len() > 0 {
        lemma_counts_bounded(s.drop_last());
    }
}

/// Counts the open and the close parentheses among `expressions`.
fn count_parens(expressions: &[ExpressionToken]) -> (r: (usize, usize))
    ensures
        r.0 == count_open(views(expressions@)),
        r.1 == count_close(views(expressions@)),
{
    let ghost all = views(expressions@);
    let mut open: usize = 0;
    let mut close: usize = 0;
    let mut i: usize = 0;
    while i < expressions.len()
        invariant
            0 <= i <= expressions.len(),
            all == views(expressions@),
            open == count_open(all.subrange(0, i as int)),
            close == count_close(all.subrange(0, i as int)),
        decreases expressions.len() - i,
    {
        proof {
            let pre = all.subrange(0, i as int);
            let next = all.subrange(0, i as int + 1);
            assert(next.drop_last() =~= pre);
            lemma_counts_bounded(pre);
        }
        match &expressions[i] {
            ExpressionToken::OpenParen => open = open + 1,
            ExpressionToken::CloseParen => close = close + 1,
            _ => {},
        }
        i = i + 1;
    }
    assert(all.subrange(0, i as int) =~= all);
    (open, close)
}

/// The placeholders of every token category that may legally be appended
/// to `expressions`.
pub fn possible_next_expressions(expressions: &[ExpressionToken]) -> (r: Vec<ExpressionToken>)
    ensures
        views(r@) == next_tokens(views(expressions@)),
{
    let ghost s = views(expressions@);
    let mut possible_next: Vec<ExpressionToken> = Vec::new();
    if expressions.len() == 0 {
        possible_next.push(ExpressionToken::Operand(String::new()));
        possible_next.push(ExpressionToken::OpenParen);
        assert(views(possible_next@) =~= next_tokens(s));
        return possible_next;
    }
    assert(s.last() == expressions@[expressions.len() - 1]@);
    match &expressions[expressions.len() - 1] {
        ExpressionToken::Operator(_) | ExpressionToken::OpenParen => {
            possible_next.push(ExpressionToken::Operand(String::new()));
            possible_next.push(ExpressionToken::OpenParen);
        },
        ExpressionToken::Operand(_) | ExpressionToken::CloseParen => {
            possible_next.push(ExpressionToken::Operator(Operator::Plus));
            let (open, close) = count_parens(expressions);
            if open > close {
                possible_next.push(ExpressionToken::CloseParen);
            }
        },
    }
    assert(views(possible_next@) =~= next_tokens(s));
    possible_next
}

/// The character that writes an operator.
pub open spec fn symbol_of(op: Operator) -> Seq<char> {
    match op {
        Operator::Plus => seq!['+'],
        Operator::Minus => seq!['-'],
        Operator::Multiply => seq!['*'],
        Operator::Divide => seq!['/'],
    }
}

/// The text that writes a token: an operand's literal, an operator's
/// symbol, or a parenthesis.
pub open spec fn text_of(t: TokenView) -> Seq<char> {
    match t {
        TokenView::Operand(x) => x,
        TokenView::Operator(op) => symbol_of(op),
        TokenView::OpenParen => seq!['('],
        TokenView::CloseParen => seq![')'],
    }
}

/// The texts of the tokens of `s`, separated by single spaces.
pub open spec fn display_of(s: Seq<TokenView>) -> Seq<char>
    decreases s.len(),
{
    if s.len() == 0 {
        Seq::empty()
    } else if s.len() == 1 {
        text_of(s[0])
    } else {
        display_of(s.drop_last()) + seq![' '] + text_of(s.last())
    }
}

impl Operator {
    /// The operator's symbol.
    pub fn to_string(&self) -> (r: String)
        ensures
            r@ == symbol_of(*self),
    {
        match self {
            Operator::Plus => {
                proof { reveal_strlit("+"); }
                String::from_str("+")
            },
            Operator::Minus => {
                proof { reveal_strlit("-"); }
                String::from_str("-")
            },
            Operator::Multiply => {
                proof { reveal_strlit("*"); }
                String::from_str("*")
            },
            Operator::Divide => {
                proof { reveal_strlit("/"); }
                String::from_str("/")
            },
        }
    }
}

impl ExpressionToken {
    /// The token's text.
    pub fn to_string(&self) -> (r: String)
        ensures
            r@ == text_of(self@),
    {
        match self {
            ExpressionToken::Operand(x) => x.clone(),
            ExpressionToken::Operator(op) => op.to_string(),
            ExpressionToken::OpenParen => {
                proof { reveal_strlit("("); }
                String::from_str("(")
            },
            ExpressionToken::CloseParen => {
                proof { reveal_strlit(")"); }
                String::from_str(")")
            },
        }
    }
}

/// Writes `expressions` as text: each token's text, separated by single
/// spaces.
pub fn display_expressions(expressions: &[ExpressionToken]) -> (r: String)
    ensures
        r@ == display_of(views(expressions@)),
{
    let ghost all = views(expressions@);
    let mut text = String::new();
    let mut i: usize = 0;
    proof { reveal_strlit(" "); }
    while i < expressions.len()
        invariant
            0 <= i <= expressions.len(),
            all == views(expressions@),
            text@ == display_of(all.subrange(0, i as int)),
            " "@ == seq![' '],
        decreases expressions.len() - i,
    {
        let ghost pre = all.subrange(0, i as int);
        let ghost next = all.subrange(0, i as int + 1);
        assert(next.drop_last() =~= pre);
        assert(next.last() == expressions@[i as int]@);
        if i > 0 {
            text.append(" ");
        }
        let t = expressions[i].to_string();
        text.append(t.as_str());
        proof {
            if i == 0 {
                assert(text@ =~= text_of(next[0]));
            } else {
                assert(text@ =~= display_of(pre) + seq![' '] + text_of(next.last()));
            }
        }
        i = i + 1;
    }
    assert(all.subrange(0, i as int) =~= all);
    text
}

/// `a` and `b` are tokens of the same category.
pub open spec fn same_kind(a: TokenView, b: TokenView) -> bool {
    match (a, b) {
        (TokenView::Operand(_), TokenView::Operand(_)) => true,
        (TokenView::Operator(_), TokenView::Operator(_)) => true,
        (TokenView::OpenParen, TokenView::OpenParen) => true,
        (TokenView::CloseParen, TokenView::CloseParen) => true,
        _ => false,
    }
}

/// The validator allows `t` to be appended to `s`.
pub open spec fn approved_append(s: Seq<TokenView>, t: TokenView) -> bool {
    exists|i: int| 0 <= i < next_tokens(s).len() && same_kind(#[trigger] next_tokens(s)[i], t)
}

/// `s` was built from the empty sequence by appends that the validator
/// allowed, one token at a time.
pub open spec fn built_by_approved_appends(s: Seq<TokenView>) -> bool
    decreases s.len(),
{
    s.len() == 0 || (built_by_approved_appends(s.drop_last()) && approved_append(
        s.drop_last(),
        s.last(),
    ))
}

/// In a sequence built only through appends that the validator allowed, no
/// two neighbouring tokens are both operands or both operators.
pub proof fn lemma_approved_no_repeated_kind(s: Seq<TokenView>)
    requires
        built_by_approved_appends(s),
    ensures
        forall|i: int|
            0 <= i < s.len() - 1 ==> !(#[trigger] s[i] is Operand && s[i + 1] is Operand) && !(
            s[i] is Operator && s[i + 1] is Operator),
    decreases s.len(),
{
    if s.len() > 0 {
        let d = s.drop_last();
        lemma_approved_no_repeated_kind(d);
        let i = choose|i: int| 0 <= i < next_tokens(d).len() && same_kind(#[trigger] next_tokens(d)[i], s.last());
        assert forall|j: int| 0 <= j < s.len() - 1 implies !(#[trigger] s[j] is Operand && s[j + 1] is Operand) && !(
            s[j] is Operator && s[j + 1] is Operator) by {
            if j < s.len() - 2 {
                assert(s[j] == d[j] && s[j + 1] == d[j + 1]);
            } else {
                assert(s[j] == d.last());
            }
        }
    }
}


#[derive(PartialEq, Eq, Structural, Clone, Copy, Debug)]
pub enum OperatorStackToken {
    Operator(Operator),
    OpenParen,
}

/// The ways in which working on an expression can fail.
#[derive(PartialEq, Eq, Structural, Clone, Copy, Debug)]
pub enum CalcError {
    /// An operand's text is not a number.
    InvalidOperand,
    /// An operator found fewer than two values to work on.
    NotEnoughOperands,
    /// A division whose right-hand operand is zero.
    DivideByZero,
    /// A close parenthesis without an open one, or an open one left unclosed.
    UnmatchedParentheses,
    /// A parenthesis reached the evaluator.
    InvalidToken,
    /// The evaluation did not leave exactly one value.
    InvalidExpression,
}

/// Moves operators from the top of `stack` to `out` while their precedence
/// is at least `p`; stops at an open-parenthesis marker.
pub open spec fn pop_at_least(out: Seq<TokenView>, stack: Seq<OperatorStackToken>, p: int) -> (
    Seq<TokenView>,
    Seq<OperatorStackToken>,
)
    decreases stack.len(),
{
    if stack.len() == 0 {
        (out, stack)
    } else {
        match stack.last() {
            OperatorStackToken::Operator(top) => if precedence_of(top) >= p {
                pop_at_least(out.push(TokenView::Operator(top)), stack.drop_last(), p)
            } else {
                (out, stack)
            },
            OperatorStackToken::OpenParen => (out, stack),
        }
    }
}

/// Moves operators from the top of `stack` to `out` down to the nearest
/// open-parenthesis marker, which is dropped; `None` when there is none.
pub open spec fn pop_to_open(out: Seq<TokenView>, stack: Seq<OperatorStackToken>) -> Option<
    (Seq<TokenView>, Seq<OperatorStackToken>),
>
    decreases stack.len(),
{
    if stack.len() == 0 {
        None
    } else {
        match stack.last() {
            OperatorStackToken::Operator(top) => pop_to_open(
                out.push(TokenView::Operator(top)),
                stack.drop_last(),
            ),
            OperatorStackToken::OpenParen => Some((out, stack.drop_last())),
        }
    }
}

/// Moves the whole stack to `out`, top first; `None` when it holds an
/// open-parenthesis marker.
pub open spec fn drain(out: Seq<TokenView>, stack: Seq<OperatorStackToken>) -> Option<Seq<TokenView>>
    decreases stack.len(),
{
    if stack.len() == 0 {
        Some(out)
    } else {
        match stack.last() {
            OperatorStackToken::Operator(top) => drain(
                out.push(TokenView::Operator(top)),
                stack.drop_last(),
            ),
            OperatorStackToken::OpenParen => None,
        }
    }
}

/// One step of the shunting-yard algorithm on the state (output, stack).
pub open spec fn shunt_step(
    out: Seq<TokenView>,
    stack: Seq<OperatorStackToken>,
    t: TokenView,
) -> Option<(Seq<TokenView>, Seq<OperatorStackToken>)> {
    match t {
        TokenView::Operand(x) => Some((out.push(TokenView::Operand(x)), stack)),
        TokenView::Operator(op) => {
            let (o, st) = pop_at_least(out, stack, precedence_of(op));
            Some((o, st.push(OperatorStackToken::Operator(op))))
        },
        TokenView::OpenParen => Some((out, stack.push(OperatorStackToken::OpenParen))),
        TokenView::CloseParen => pop_to_open(out, stack),
    }
}

/// The state of the shunting-yard algorithm after the tokens of `s`, or
/// `None` when a close parenthesis found no open one.
pub open spec fn shunt(s: Seq<TokenView>) -> Option<(Seq<TokenView>, Seq<OperatorStackToken>)>
    decreases s.len(),
{
    if s.len() == 0 {
        Some((Seq::empty(), Seq::empty()))
    } else {
        match shunt(s.drop_last()) {
            Some((out, stack)) => shunt_step(out, stack, s.last()),
            None => None,
        }
    }
}

/// The postfix form of the infix tokens `s`, or `None` when its parentheses
/// do not match.
pub open spec fn postfix_of(s: Seq<TokenView>) -> Option<Seq<TokenView>> {
    match shunt(s) {
        Some((out, stack)) => drain(out, stack),
        None => None,
    }
}

/// The literals of the operands of `s`, in order.
pub open spec fn operands_of(s: Seq<TokenView>) -> Seq<Seq<char>>
    decreases s.len(),
{
    if s.len() == 0 {
        Seq::empty()
    } else {
        match s.last() {
            TokenView::Operand(x) => operands_of(s.drop_last()).push(x),
            _ => operands_of(s.drop_last()),
        }
    }
}

/// `s` holds no parenthesis.
pub open spec fn paren_free(s: Seq<TokenView>) -> bool {
    forall|i: int| 0 <= i < s.len() ==> !(#[trigger] s[i] is OpenParen) && !(s[i] is CloseParen)
}

/// Pops operators whose precedence is at least `p` from `stack` onto `output`.
fn pop_operators_at_least(
    output: &mut Vec<ExpressionToken>,
    stack: &mut Vec<OperatorStackToken>,
    p: i32,
)
    requires
        paren_free(views(old(output)@)),
    ensures
        (views(final(output)@), final(stack)@) == pop_at_least(
            views(old(output)@),
            old(stack)@,
            p as int,
        ),
        paren_free(views(final(output)@)),
        operands_of(views(final(output)@)) == operands_of(views(old(output)@)),
{
    let ghost goal = pop_at_least(views(output@), stack@, p as int);
    while stack.len() > 0
        invariant
            pop_at_least(views(output@), stack@, p as int) == goal,
            goal == pop_at_least(views(old(output)@), old(stack)@, p as int),
            paren_free(views(output@)),
            operands_of(views(output@)) == operands_of(views(old(output)@)),
        decreases stack.len(),
    {
        match stack[stack.len() - 1] {
            OperatorStackToken::Operator(top) => {
                if top.precedence() >= p {
                    let ghost before = views(output@);
                    output.push(ExpressionToken::Operator(top));
                    stack.pop();
                    assert(views(output@) =~= before.push(TokenView::Operator(top)));
                    assert(before.push(TokenView::Operator(top)).drop_last() =~= before);
                } else {
                    return;
                }
            },
            OperatorStackToken::OpenParen => {
                return;
            },
        }
    }
}

/// Pops operators from `stack` onto `output` down to the nearest open
/// parenthesis, which is dropped; false when there is none.
fn pop_to_open_paren(output: &mut Vec<ExpressionToken>, stack: &mut Vec<OperatorStackToken>) -> (found: bool)
    requires
        paren_free(views(old(output)@)),
    ensures
        found == pop_to_open(views(old(output)@), old(stack)@) is Some,
        found ==> (views(final(output)@), final(stack)@) == pop_to_open(
            views(old(output)@),
            old(stack)@,
        )->Some_0,
        paren_free(views(final(output)@)),
        operands_of(views(final(output)@)) == operands_of(views(old(output)@)),
{
    let ghost goal = pop_to_open(views(output@), stack@);
    while stack.len() > 0
        invariant
            pop_to_open(views(output@), stack@) == goal,
            goal == pop_to_open(views(old(output)@), old(stack)@),
            paren_free(views(output@)),
            operands_of(views(output@)) == operands_of(views(old(output)@)),
        decreases stack.len(),
    {
        match stack.pop().unwrap() {
            OperatorStackToken::Operator(top) => {
                let ghost before = views(output@);
                output.push(ExpressionToken::Operator(top));
                assert(views(output@) =~= before.push(TokenView::Operator(top)));
                assert(before.push(TokenView::Operator(top)).drop_last() =~= before);
            },
            OperatorStackToken::OpenParen => {
                return true;
            },
        }
    }
    false
}

/// Converts the infix tokens `expressions` to postfix order with the
/// shunting-yard algorithm.
pub fn infix_to_postfix(expressions: &[ExpressionToken]) -> (r: Result<Vec<ExpressionToken>, CalcError>)
    ensures
        r is Ok <==> postfix_of(views(expressions@)) is Some,
        r is Ok ==> postfix_of(views(expressions@)) == Some(views(r->Ok_0@)),
        r is Err <==> !balanced(views(expressions@)),
        r is Err ==> r->Err_0 == CalcError::UnmatchedParentheses,
        r is Ok ==> paren_free(views(r->Ok_0@)),
        r is Ok ==> operands_of(views(r->Ok_0@)) == operands_of(views(expressions@)),
{
    let ghost all = views(expressions@);
    proof {
        lemma_postfix_fails_iff_unbalanced(all);
    }
    let mut output: Vec<ExpressionToken> = Vec::new();
    let mut stack: Vec<OperatorStackToken> = Vec::new();
    let mut i: usize = 0;
    assert(views(output@) =~= Seq::<TokenView>::empty());
    while i < expressions.len()
        invariant
            0 <= i <= expressions.len(),
            all == views(expressions@),
            postfix_of(all) is None <==> !balanced(all),
            shunt(all.subrange(0, i as int)) == Some((views(output@), stack@)),
            paren_free(views(output@)),
            operands_of(views(output@)) == operands_of(all.subrange(0, i as int)),
        decreases expressions.len() - i,
    {
        let ghost next = all.subrange(0, i as int + 1);
        assert(next.drop_last() =~= all.subrange(0, i as int));
        assert(next.last() == expressions@[i as int]@);
        match &expressions[i] {
            ExpressionToken::Operand(x) => {
                let ghost before = views(output@);
                output.push(ExpressionToken::Operand(x.clone()));
                assert(views(output@) =~= before.push(TokenView::Operand(x@)));
                assert(before.push(TokenView::Operand(x@)).drop_last() =~= before);
            },
            ExpressionToken::Operator(op) => {
                pop_operators_at_least(&mut output, &mut stack, op.precedence());
                stack.push(OperatorStackToken::Operator(*op));
            },
            ExpressionToken::OpenParen => {
                stack.push(OperatorStackToken::OpenParen);
            },
            ExpressionToken::CloseParen => {
                let found = pop_to_open_paren(&mut output, &mut stack);
                if !found {
                    proof { lemma_shunt_failure_sticks(all, i as int + 1); }
                    return Err(CalcError::UnmatchedParentheses);
                }
            },
        }
        i = i + 1;
    }
    assert(all.subrange(0, i as int) =~= all);
    let ghost goal = drain(views(output@), stack@);
    let ghost old_output = output@;
    let ghost old_stack = stack@;
    while stack.len() > 0
        invariant
            drain(views(output@), stack@) == goal,
            goal == postfix_of(all),
            all == views(expressions@),
            postfix_of(all) is None <==> !balanced(all),
            shunt(all) == Some((views(old_output), old_stack)),
            paren_free(views(output@)),
            operands_of(views(output@)) == operands_of(all),
        decreases stack.len(),
    {
        let ghost st = stack@;
        match stack.pop().unwrap() {
            OperatorStackToken::Operator(top) => {
                let ghost before = views(output@);
                output.push(ExpressionToken::Operator(top));
                assert(views(output@) =~= before.push(TokenView::Operator(top)));
                assert(before.push(TokenView::Operator(top)).drop_last() =~= before);
            },
            OperatorStackToken::OpenParen => {
                assert(st.last() is OpenParen);
                return Err(CalcError::UnmatchedParentheses);
            },
        }
    }
    Ok(output)
}

/// Once the converter has failed on a prefix, it fails on every longer one.
proof fn lemma_shunt_failure_sticks(s: Seq<TokenView>, k: int)
    requires
        0 <= k <= s.len(),
        shunt(s.subrange(0, k)) is None,
    ensures
        shunt(s) is None,
    decreases s.len() - k,
{
    if k < s.len() {
        let next = s.subrange(0, k + 1);
        assert(next.drop_last() =~= s.subrange(0, k));
        lemma_shunt_failure_sticks(s, k + 1);
    } else {
        assert(s.subrange(0, k) =~= s);
    }
}

/// Number of open-parenthesis markers on an operator stack.
pub open spec fn open_markers(stack: Seq<OperatorStackToken>) -> nat
    decreases stack.len(),
{
    if stack.len() == 0 {
        0
    } else {
        open_markers(stack.drop_last()) + if stack.last() is OpenParen { 1nat } else { 0nat }
    }
}

/// No prefix of `s` closes more parentheses than it opens.
pub open spec fn never_over_closed(s: Seq<TokenView>) -> bool {
    forall|k: int|
        0 <= k <= s.len() ==> count_close(#[trigger] s.subrange(0, k)) <= count_open(s.subrange(0, k))
}

/// Every parenthesis of `s` is matched: no prefix closes more than it
/// opens, and the whole opens as many as it closes.
pub open spec fn balanced(s: Seq<TokenView>) -> bool {
    never_over_closed(s) && count_open(s) == count_close(s)
}

proof fn lemma_pop_at_least_markers(out: Seq<TokenView>, stack: Seq<OperatorStackToken>, p: int)
    ensures
        open_markers(pop_at_least(out, stack, p).1) == open_markers(stack),
    decreases stack.len(),
{
    if stack.len() > 0 {
        if let OperatorStackToken::Operator(top) = stack.last() {
            if precedence_of(top) >= p {
                lemma_pop_at_least_markers(out.push(TokenView::Operator(top)), stack.drop_last(), p);
            }
        }
    }
}

proof fn lemma_pop_to_open_markers(out: Seq<TokenView>, stack: Seq<OperatorStackToken>)
    ensures
        pop_to_open(out, stack) is None <==> open_markers(stack) == 0,
        pop_to_open(out, stack) is Some ==> open_markers(pop_to_open(out, stack)->Some_0.1) + 1
            == open_markers(stack),
    decreases stack.len(),
{
    if stack.len() > 0 {
        if let OperatorStackToken::Operator(top) = stack.last() {
            lemma_pop_to_open_markers(out.push(TokenView::Operator(top)), stack.drop_last());
        }
    }
}

proof fn lemma_drain_markers(out: Seq<TokenView>, stack: Seq<OperatorStackToken>)
    ensures
        drain(out, stack) is None <==> open_markers(stack) > 0,
    decreases stack.len(),
{
    if stack.len() > 0 {
        if let OperatorStackToken::Operator(top) = stack.last() {
            lemma_drain_markers(out.push(TokenView::Operator(top)), stack.drop_last());
        }
    }
}

proof fn lemma_never_over_closed_step(s: Seq<TokenView>)
    requires
        s.len() > 0,
    ensures
        never_over_closed(s) <==> never_over_closed(s.drop_last()) && count_close(s) <= count_open(s),
{
    let d = s.drop_last();
    assert(s.subrange(0, s.len() as int) =~= s);
    assert forall|k: int| 0 <= k <= d.len() implies #[trigger] s.subrange(0, k) == d.subrange(0, k) by {
        assert(s.subrange(0, k) =~= d.subrange(0, k));
    }
    if never_over_closed(s) {
        assert forall|k: int| 0 <= k <= d.len() implies count_close(#[trigger] d.subrange(0, k))
            <= count_open(d.subrange(0, k)) by {
            assert(s.subrange(0, k) == d.subrange(0, k));
        }
    }
    if never_over_closed(d) && count_close(s) <= count_open(s) {
        assert forall|k: int| 0 <= k <= s.len() implies count_close(#[trigger] s.subrange(0, k))
            <= count_open(s.subrange(0, k)) by {
            if k < s.len() {
                assert(s.subrange(0, k) == d.subrange(0, k));
            }
        }
    }
}

proof fn lemma_shunt_markers(s: Seq<TokenView>)
    ensures
        shunt(s) is Some <==> never_over_closed(s),
        shunt(s) is Some ==> open_markers(shunt(s)->Some_0.1) + count_close(s) == count_open(s),
    decreases s.len(),
{
    if s.len() == 0 {
        assert forall|k: int| 0 <= k <= s.len() implies count_close(#[trigger] s.subrange(0, k))
            <= count_open(s.subrange(0, k)) by {
            assert(s.subrange(0, k).len() == 0);
        }
    } else {
        let d = s.drop_last();
        lemma_shunt_markers(d);
        lemma_never_over_closed_step(s);
        if let Some((out, stack)) = shunt(d) {
            match s.last() {
                TokenView::Operator(op) => {
                    lemma_pop_at_least_markers(out, stack, precedence_of(op));
                    let st = pop_at_least(out, stack, precedence_of(op)).1;
                    assert(st.push(OperatorStackToken::Operator(op)).drop_last() == st);
                },
                TokenView::OpenParen => {
                    assert(stack.push(OperatorStackToken::OpenParen).drop_last() == stack);
                },
                TokenView::CloseParen => {
                    lemma_pop_to_open_markers(out, stack);
                },
                TokenView::Operand(_) => {},
            }
        }
    }
}

/// The converter fails exactly on the token sequences whose parentheses are
/// unbalanced: a close parenthesis with no open one before it, or an open
/// one that is never closed.
pub proof fn lemma_postfix_fails_iff_unbalanced(s: Seq<TokenView>)
    ensures
        postfix_of(s) is None <==> !balanced(s),
{
    lemma_shunt_markers(s);
    if let Some((out, stack)) = shunt(s) {
        lemma_drain_markers(out, stack);
    }
}

} // verus!
