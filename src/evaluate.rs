use vstd::prelude::*;

use crate::expression::{views, CalcError, ExpressionToken, Operator, TokenView};

verus! {

/// One action on the value stack of a postfix evaluation.
#[derive(PartialEq, Clone, Debug)]
pub enum EvalStep {
    /// Parse the literal and push its value.
    Push(String),
    /// Pop the right operand, then the left one, and push the operator's result.
    Apply(Operator),
}

/// The mathematical content of a step.
pub enum StepView {
    Push(Seq<char>),
    Apply(Operator),
}

impl View for EvalStep {
    type V = StepView;

    open spec fn view(&self) -> StepView {
        match self {
            EvalStep::Push(x) => StepView::Push(x@),
            EvalStep::Apply(op) => StepView::Apply(*op),
        }
    }
}

/// The views of a sequence of steps.
pub open spec fn step_views(s: Seq<EvalStep>) -> Seq<StepView> {
    s.map_values(|t: EvalStep| t@)
}

/// How a postfix sequence is to be evaluated: run `steps` in order, stopping
/// at the first operand that does not parse or the first failed operation;
/// if none fails, `outcome` says whether the single value left is the result
/// or which error the sequence itself carries.
pub struct EvalPlan {
    pub steps: Vec<EvalStep>,
    pub outcome: Result<(), CalcError>,
}

/// Number of values on the stack after `steps`, starting from an empty one.
pub open spec fn stack_depth(steps: Seq<StepView>) -> int
    decreases steps.len(),
{
    if steps.len() == 0 {
        0
    } else {
        stack_depth(steps.drop_last()) + match steps.last() {
            StepView::Push(_) => 1int,
            StepView::Apply(_) => -1int,
        }
    }
}

/// Every operation in `steps` finds at least two values on the stack.
pub open spec fn applies_safe(steps: Seq<StepView>) -> bool {
    forall|i: int|
        0 <= i < steps.len() && #[trigger] steps[i] is Apply ==> stack_depth(steps.take(i)) >= 2
}

/// The evaluation of the postfix tokens `s` as far as it can be told without
/// computing a value: the steps up to the first structural error, the depth
/// of the value stack after them, and that error.
pub open spec fn plan_prefix(s: Seq<TokenView>) -> (Seq<StepView>, int, Option<CalcError>)
    decreases s.len(),
{
    if s.len() == 0 {
        (Seq::empty(), 0, None)
    } else {
        let (steps, depth, err) = plan_prefix(s.drop_last());
        if err is Some {
            (steps, depth, err)
        } else {
            match s.last() {
                TokenView::Operand(x) => (steps.push(StepView::Push(x)), depth + 1, None),
                TokenView::Operator(op) => if depth < 2 {
                    (steps, depth, Some(CalcError::NotEnoughOperands))
                } else {
                    (steps.push(StepView::Apply(op)), depth - 1, None)
                },
                TokenView::OpenParen | TokenView::CloseParen => (
                    steps,
                    depth,
                    Some(CalcError::InvalidToken),
                ),
            }
        }
    }
}

/// What the postfix tokens `s` yield once every step has succeeded: the one
/// value left, or the structural error.
pub open spec fn plan_outcome(s: Seq<TokenView>) -> Result<(), CalcError> {
    let (_, depth, err) = plan_prefix(s);
    match err {
        Some(e) => Err(e),
        None => if depth == 1 {
            Ok(())
        } else {
            Err(CalcError::InvalidExpression)
        },
    }
}

proof fn lemma_plan_error_sticks(s: Seq<TokenView>, k: int)
    requires
        0 <= k <= s.len(),
        plan_prefix(s.subrange(0, k)).2 is Some,
    ensures
        plan_prefix(s) == plan_prefix(s.subrange(0, k)),
    decreases s.len() - k,
{
    if k < s.len() {
        let next = s.subrange(0, k + 1);
        assert(next.drop_last() =~= s.subrange(0, k));
        lemma_plan_error_sticks(s, k + 1);
    } else {
        assert(s.subrange(0, k) =~= s);
    }
}

/// Plans the evaluation of the postfix tokens `postfix`.
pub fn evaluation_plan(postfix: &[ExpressionToken]) -> (r: EvalPlan)
    ensures
        step_views(r.steps@) == plan_prefix(views(postfix@)).0,
        r.outcome == plan_outcome(views(postfix@)),
        applies_safe(step_views(r.steps@)),
        r.outcome is Ok ==> stack_depth(step_views(r.steps@)) == 1,
{
    let ghost all = views(postfix@);
    let mut steps: Vec<EvalStep> = Vec::new();
    let mut depth: usize = 0;
    let mut i: usize = 0;
    assert(step_views(steps@) =~= Seq::<StepView>::empty());
    while i < postfix.len()
        invariant
            0 <= i <= postfix.len(),
            all == views(postfix@),
            plan_prefix(all.subrange(0, i as int)) == (step_views(steps@), depth as int, None::<CalcError>),
            stack_depth(step_views(steps@)) == depth,
            applies_safe(step_views(steps@)),
            depth <= i,
        decreases postfix.len() - i,
    {
        let ghost next = all.subrange(0, i as int + 1);
        let ghost before = step_views(steps@);
        assert(next.drop_last() =~= all.subrange(0, i as int));
        assert(next.last() == postfix@[i as int]@);
        let step = match &postfix[i] {
            ExpressionToken::Operand(x) => EvalStep::Push(x.clone()),
            ExpressionToken::Operator(op) => {
                if depth < 2 {
                    proof { lemma_plan_error_sticks(all, i as int + 1); }
                    return EvalPlan { steps, outcome: Err(CalcError::NotEnoughOperands) };
                }
                EvalStep::Apply(*op)
            },
            ExpressionToken::OpenParen | ExpressionToken::CloseParen => {
                proof { lemma_plan_error_sticks(all, i as int + 1); }
                return EvalPlan { steps, outcome: Err(CalcError::InvalidToken) };
            },
        };
        match step {
            EvalStep::Push(_) => depth = depth + 1,
            EvalStep::Apply(_) => depth = depth - 1,
        }
        steps.push(step);
        proof {
            let now = step_views(steps@);
            assert(now =~= before.push(step@));
            assert(now.drop_last() =~= before);
            assert forall|j: int| 0 <= j < now.len() && #[trigger] now[j] is Apply implies stack_depth(now.take(j)) >= 2 by {
                if j < before.len() {
                    assert(now.take(j) =~= before.take(j));
                    assert(now[j] == before[j]);
                } else {
                    assert(now.take(j) =~= before);
                }
            }
        }
        i = i + 1;
    }
    assert(all.subrange(0, i as int) =~= all);
    if depth == 1 {
        EvalPlan { steps, outcome: Ok(()) }
    } else {
        EvalPlan { steps, outcome: Err(CalcError::InvalidExpression) }
    }
}

} // verus!
