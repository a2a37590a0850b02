use calculator::evaluate::{evaluation_plan, EvalPlan, EvalStep};
use calculator::expression::{
    display_expressions, infix_to_postfix, possible_next_expressions, CalcError, ExpressionToken,
    Operator,
};

fn num(x: &str) -> ExpressionToken {
    ExpressionToken::Operand(x.to_string())
}

fn op(o: Operator) -> ExpressionToken {
    ExpressionToken::Operator(o)
}

fn apply(o: Operator, left: f64, right: f64) -> Result<f64, CalcError> {
    match o {
        Operator::Plus => Ok(left + right),
        Operator::Minus => Ok(left - right),
        Operator::Multiply => Ok(left * right),
        Operator::Divide => {
            if right == 0.0 {
                Err(CalcError::DivideByZero)
            } else {
                Ok(left / right)
            }
        }
    }
}

/// Carries out a plan on a stack of floats.
fn run(plan: &EvalPlan) -> Result<f64, CalcError> {
    let mut stack: Vec<f64> = Vec::new();
    for step in &plan.steps {
        match step {
            EvalStep::Push(x) => match x.parse::<f64>() {
                Ok(v) => stack.push(v),
                Err(_) => return Err(CalcError::InvalidOperand),
            },
            EvalStep::Apply(o) => {
                let right = stack.pop().unwrap();
                let left = stack.pop().unwrap();
                stack.push(apply(*o, left, right)?);
            }
        }
    }
    plan.outcome?;
    Ok(stack[0])
}

fn evaluate(infix: &[ExpressionToken]) -> Result<f64, CalcError> {
    let postfix = infix_to_postfix(infix)?;
    run(&evaluation_plan(&postfix))
}

#[test]
fn precedence_orders_operators() {
    assert_eq!(Operator::Plus.precedence(), 1);
    assert_eq!(Operator::Minus.precedence(), 1);
    assert_eq!(Operator::Multiply.precedence(), 2);
    assert_eq!(Operator::Divide.precedence(), 2);
}

#[test]
fn next_after_empty() {
    assert_eq!(
        possible_next_expressions(&[]),
        vec![num(""), ExpressionToken::OpenParen]
    );
}

#[test]
fn next_after_operand_without_open_paren() {
    assert_eq!(possible_next_expressions(&[num("12")]), vec![op(Operator::Plus)]);
}

#[test]
fn next_after_operand_inside_paren() {
    let s = [ExpressionToken::OpenParen, num("1")];
    assert_eq!(
        possible_next_expressions(&s),
        vec![op(Operator::Plus), ExpressionToken::CloseParen]
    );
}

#[test]
fn next_after_operator_and_open_paren() {
    let expected = vec![num(""), ExpressionToken::OpenParen];
    assert_eq!(possible_next_expressions(&[num("1"), op(Operator::Divide)]), expected);
    assert_eq!(possible_next_expressions(&[ExpressionToken::OpenParen]), expected);
}

#[test]
fn next_after_close_paren() {
    let closed = [
        ExpressionToken::OpenParen,
        num("1"),
        ExpressionToken::CloseParen,
    ];
    assert_eq!(possible_next_expressions(&closed), vec![op(Operator::Plus)]);
    let nested = [
        ExpressionToken::OpenParen,
        ExpressionToken::OpenParen,
        num("1"),
        ExpressionToken::CloseParen,
    ];
    assert_eq!(
        possible_next_expressions(&nested),
        vec![op(Operator::Plus), ExpressionToken::CloseParen]
    );
}

fn same_kind(a: &ExpressionToken, b: &ExpressionToken) -> bool {
    matches!(
        (a, b),
        (ExpressionToken::Operand(_), ExpressionToken::Operand(_))
            | (ExpressionToken::Operator(_), ExpressionToken::Operator(_))
            | (ExpressionToken::OpenParen, ExpressionToken::OpenParen)
            | (ExpressionToken::CloseParen, ExpressionToken::CloseParen)
    )
}

#[test]
fn approved_appends_never_repeat_operand_or_operator() {
    let wanted = [
        num("1"),
        num("2"),
        op(Operator::Plus),
        op(Operator::Minus),
        ExpressionToken::OpenParen,
        num("3"),
        ExpressionToken::CloseParen,
        ExpressionToken::CloseParen,
        op(Operator::Multiply),
        num("4"),
        num("5"),
    ];
    let mut seq: Vec<ExpressionToken> = Vec::new();
    for t in wanted {
        let allowed = possible_next_expressions(&seq);
        if allowed.iter().any(|a| same_kind(a, &t)) {
            seq.push(t);
        }
    }
    assert_eq!(
        seq,
        vec![
            num("1"),
            op(Operator::Plus),
            ExpressionToken::OpenParen,
            num("3"),
            ExpressionToken::CloseParen,
            op(Operator::Multiply),
            num("4"),
        ]
    );
    for w in seq.windows(2) {
        assert!(!(matches!(w[0], ExpressionToken::Operand(_)) && matches!(w[1], ExpressionToken::Operand(_))));
        assert!(!(matches!(w[0], ExpressionToken::Operator(_)) && matches!(w[1], ExpressionToken::Operator(_))));
    }
}

#[test]
fn postfix_has_no_parentheses() {
    let infix = [
        ExpressionToken::OpenParen,
        ExpressionToken::OpenParen,
        num("1"),
        op(Operator::Minus),
        num("2"),
        ExpressionToken::CloseParen,
        op(Operator::Divide),
        num("3"),
        ExpressionToken::CloseParen,
    ];
    let postfix = infix_to_postfix(&infix).unwrap();
    assert!(postfix
        .iter()
        .all(|t| !matches!(t, ExpressionToken::OpenParen | ExpressionToken::CloseParen)));
    assert_eq!(
        postfix,
        vec![num("1"), num("2"), op(Operator::Minus), num("3"), op(Operator::Divide)]
    );
}

#[test]
fn multiplication_binds_tighter() {
    let infix = [num("2"), op(Operator::Plus), num("3"), op(Operator::Multiply), num("4")];
    let postfix = infix_to_postfix(&infix).unwrap();
    assert_eq!(
        postfix,
        vec![num("2"), num("3"), num("4"), op(Operator::Multiply), op(Operator::Plus)]
    );
    assert_eq!(evaluate(&infix), Ok(14.0));
}

#[test]
fn parentheses_group_first() {
    let infix = [
        ExpressionToken::OpenParen,
        num("2"),
        op(Operator::Plus),
        num("3"),
        ExpressionToken::CloseParen,
        op(Operator::Multiply),
        num("4"),
    ];
    let postfix = infix_to_postfix(&infix).unwrap();
    assert_eq!(
        postfix,
        vec![num("2"), num("3"), op(Operator::Plus), num("4"), op(Operator::Multiply)]
    );
    assert_eq!(evaluate(&infix), Ok(20.0));
}

#[test]
fn equal_precedence_is_left_associative() {
    let infix = [num("1"), op(Operator::Plus), num("2"), op(Operator::Plus), num("3")];
    let postfix = infix_to_postfix(&infix).unwrap();
    assert_eq!(
        postfix,
        vec![num("1"), num("2"), op(Operator::Plus), num("3"), op(Operator::Plus)]
    );
    assert_eq!(evaluate(&infix), Ok(6.0));
    let minus = [num("10"), op(Operator::Minus), num("4"), op(Operator::Minus), num("3")];
    assert_eq!(evaluate(&minus), Ok(3.0));
}

#[test]
fn divide_by_zero_converts_then_fails() {
    let infix = [num("10"), op(Operator::Divide), num("0")];
    let postfix = infix_to_postfix(&infix).unwrap();
    assert_eq!(postfix, vec![num("10"), num("0"), op(Operator::Divide)]);
    let plan = evaluation_plan(&postfix);
    assert_eq!(
        plan.steps,
        vec![
            EvalStep::Push("10".to_string()),
            EvalStep::Push("0".to_string()),
            EvalStep::Apply(Operator::Divide)
        ]
    );
    assert_eq!(plan.outcome, Ok(()));
    assert_eq!(run(&plan), Err(CalcError::DivideByZero));
}

#[test]
fn unclosed_open_paren_fails() {
    let infix = [ExpressionToken::OpenParen, num("1"), op(Operator::Plus), num("2")];
    assert_eq!(infix_to_postfix(&infix), Err(CalcError::UnmatchedParentheses));
}

#[test]
fn close_without_open_fails() {
    let infix = [ExpressionToken::CloseParen, num("1"), op(Operator::Plus), num("2")];
    assert_eq!(infix_to_postfix(&infix), Err(CalcError::UnmatchedParentheses));
    let later = [
        num("1"),
        ExpressionToken::CloseParen,
        ExpressionToken::OpenParen,
        num("2"),
    ];
    assert_eq!(infix_to_postfix(&later), Err(CalcError::UnmatchedParentheses));
}

#[test]
fn empty_input_converts_to_empty_postfix() {
    assert_eq!(infix_to_postfix(&[]), Ok(vec![]));
    let plan = evaluation_plan(&[]);
    assert!(plan.steps.is_empty());
    assert_eq!(plan.outcome, Err(CalcError::InvalidExpression));
}

#[test]
fn evaluation_is_repeatable() {
    let infix = [
        num("7.5"),
        op(Operator::Divide),
        ExpressionToken::OpenParen,
        num("1"),
        op(Operator::Minus),
        num("4"),
        ExpressionToken::CloseParen,
    ];
    let first = evaluate(&infix);
    let second = evaluate(&infix);
    assert_eq!(first, Ok(-2.5));
    assert_eq!(first, second);
    let postfix = infix_to_postfix(&infix).unwrap();
    assert_eq!(evaluation_plan(&postfix).steps, evaluation_plan(&postfix).steps);
}

#[test]
fn plan_reports_missing_operand() {
    let plan = evaluation_plan(&[num("1"), op(Operator::Plus), num("2")]);
    assert_eq!(plan.steps, vec![EvalStep::Push("1".to_string())]);
    assert_eq!(plan.outcome, Err(CalcError::NotEnoughOperands));
}

#[test]
fn plan_rejects_parenthesis() {
    let plan = evaluation_plan(&[num("1"), ExpressionToken::OpenParen, num("2")]);
    assert_eq!(plan.steps, vec![EvalStep::Push("1".to_string())]);
    assert_eq!(plan.outcome, Err(CalcError::InvalidToken));
}

#[test]
fn plan_rejects_leftover_values() {
    let plan = evaluation_plan(&[num("1"), num("2")]);
    assert_eq!(plan.steps.len(), 2);
    assert_eq!(plan.outcome, Err(CalcError::InvalidExpression));
}

#[test]
fn bad_literal_is_invalid_operand() {
    let infix = [num("1.2.3"), op(Operator::Plus), num("1")];
    assert_eq!(evaluate(&infix), Err(CalcError::InvalidOperand));
}

#[test]
fn tokens_render_with_spaces() {
    let infix = [
        ExpressionToken::OpenParen,
        num("2"),
        op(Operator::Plus),
        num("3.5"),
        ExpressionToken::CloseParen,
        op(Operator::Multiply),
        num("4"),
    ];
    assert_eq!(display_expressions(&infix), "( 2 + 3.5 ) * 4");
    assert_eq!(display_expressions(&[]), "");
    assert_eq!(Operator::Divide.to_string(), "/");
    assert_eq!(Operator::Minus.to_string(), "-");
    assert_eq!(ExpressionToken::CloseParen.to_string(), ")");
    assert_eq!(num("42").to_string(), "42");
}
