//! Working out the value of a tree of operations, one operation at a time.
//!
//! The calculator decides which operation is due and what becomes of its
//! result. The arithmetic itself, on the numbers that the operand texts
//! stand for, is done by whoever drives the evaluation: [`Evaluation::step`]
//! names the operation, [`Evaluation::supply`] takes its result.
//! [`Evaluation::run`] does both in turn, with a function that is handed to
//! it.

use vstd::prelude::*;

use crate::error::EvalError;
use crate::token::Operator;
use crate::tree::{Block, BlockView, Value, ValueView};

verus! {

/// What an evaluation asks for next, or what it has come to.
#[derive(Debug, PartialEq, Eq)]
pub enum Step {
    /// The operation that is due: `operator` on the numbers written `lhs`
    /// and `rhs`.
    Apply { operator: Operator, lhs: String, rhs: String },
    /// Nothing is left to do: the text of the value.
    Done(String),
    /// The evaluation has failed.
    Failed(EvalError),
}

/// The mathematical value of a [`Step`].
pub ghost enum StepView {
    Apply { operator: Operator, lhs: Seq<char>, rhs: Seq<char> },
    Done(Seq<char>),
    Failed(EvalError),
}

impl View for Step {
    type V = StepView;

    open spec fn view(&self) -> StepView {
        match self {
            Step::Apply { operator, lhs, rhs } => StepView::Apply {
                operator: *operator,
                lhs: lhs@,
                rhs: rhs@,
            },
            Step::Done(text) => StepView::Done(text@),
            Step::Failed(e) => StepView::Failed(*e),
        }
    }
}

/// An arithmetic: what each operator makes of the texts of two numbers, or
/// `None` where one of the texts is not a number.
pub type Arithmetic = spec_fn(Operator, Seq<char>, Seq<char>) -> Option<Seq<char>>;

impl BlockView {
    /// The operation that is due in this block: the first one, operands from
    /// left to right and the innermost first, whose two operands are numbers
    /// already. An operator in an operand's place, or something else in the
    /// operator's place, is a failure when its turn comes.
    pub open spec fn next_step(self) -> StepView
        decreases self,
    {
        match self.lhs {
            ValueView::Block(inner) => inner.next_step(),
            ValueView::Op(_) => StepView::Failed(EvalError::ExpectedOperand),
            ValueView::Val(lhs) => match self.rhs {
                ValueView::Block(inner) => inner.next_step(),
                ValueView::Op(_) => StepView::Failed(EvalError::ExpectedOperand),
                ValueView::Val(rhs) => match self.operator {
                    ValueView::Op(operator) => StepView::Apply { operator, lhs, rhs },
                    _ => StepView::Failed(EvalError::ExpectedOperator),
                },
            },
        }
    }

    /// This block once the operation that is due has given `value`: the
    /// operation is replaced by the number.
    pub open spec fn resolved(self, value: Seq<char>) -> ValueView
        decreases self,
    {
        match self.lhs {
            ValueView::Block(inner) => ValueView::Block(
                Box::new(
                    BlockView { lhs: inner.resolved(value), rhs: self.rhs, operator: self.operator },
                ),
            ),
            ValueView::Op(_) => ValueView::Block(Box::new(self)),
            ValueView::Val(_) => match self.rhs {
                ValueView::Block(inner) => ValueView::Block(
                    Box::new(
                        BlockView {
                            lhs: self.lhs,
                            rhs: inner.resolved(value),
                            operator: self.operator,
                        },
                    ),
                ),
                ValueView::Op(_) => ValueView::Block(Box::new(self)),
                ValueView::Val(_) => ValueView::Val(value),
            },
        }
    }

    /// The value of this block under `arithmetic`: the operator applied to
    /// the values of the two operands, the left one worked out first.
    pub open spec fn value(self, arithmetic: Arithmetic) -> Result<Seq<char>, EvalError>
        decreases self,
    {
        match self.lhs.value(arithmetic) {
            Err(e) => Err(e),
            Ok(lhs) => match self.rhs.value(arithmetic) {
                Err(e) => Err(e),
                Ok(rhs) => match self.operator {
                    ValueView::Op(operator) => match arithmetic(operator, lhs, rhs) {
                        Some(value) => Ok(value),
                        None => Err(EvalError::InvalidNumber),
                    },
                    _ => Err(EvalError::ExpectedOperator),
                },
            },
        }
    }
}

impl ValueView {
    /// What is due in this value: nothing for a number, the block's next
    /// operation for a block.
    pub open spec fn next_step(self) -> StepView {
        match self {
            ValueView::Val(text) => StepView::Done(text),
            ValueView::Op(_) => StepView::Failed(EvalError::ExpectedOperand),
            ValueView::Block(block) => block.next_step(),
        }
    }

    /// This value once the operation that is due has given `value`.
    pub open spec fn resolved(self, value: Seq<char>) -> ValueView {
        match self {
            ValueView::Block(block) => block.resolved(value),
            _ => self,
        }
    }

    /// The value of this operand under `arithmetic`: a number's own text, a
    /// block's value.
    pub open spec fn value(self, arithmetic: Arithmetic) -> Result<Seq<char>, EvalError>
        decreases self,
    {
        match self {
            ValueView::Val(text) => Ok(text),
            ValueView::Op(_) => Err(EvalError::ExpectedOperand),
            ValueView::Block(block) => block.value(arithmetic),
        }
    }
}

/// An evaluation under way.
#[derive(Debug, PartialEq, Eq)]
pub enum Evaluation {
    /// What is left to work out.
    Running(Value),
    /// The evaluation has failed.
    Failed(EvalError),
}

/// The mathematical value of an [`Evaluation`].
pub ghost enum EvaluationView {
    Running(ValueView),
    Failed(EvalError),
}

impl View for Evaluation {
    type V = EvaluationView;

    open spec fn view(&self) -> EvaluationView {
        match self {
            Evaluation::Running(value) => EvaluationView::Running(value@),
            Evaluation::Failed(e) => EvaluationView::Failed(*e),
        }
    }
}

impl EvaluationView {
    /// What the evaluation asks for next, or what it has come to.
    pub open spec fn next_step(self) -> StepView {
        match self {
            EvaluationView::Running(value) => value.next_step(),
            EvaluationView::Failed(e) => StepView::Failed(e),
        }
    }

    /// The evaluation after `outcome` was supplied for the operation that is
    /// due: the result takes the operation's place, and `None`, an operand
    /// that is no number, fails the evaluation. Where no operation is due,
    /// nothing changes.
    pub open spec fn supplied(self, outcome: Option<Seq<char>>) -> EvaluationView {
        match self {
            EvaluationView::Running(value) if self.next_step() is Apply => match outcome {
                Some(text) => EvaluationView::Running(value.resolved(text)),
                None => EvaluationView::Failed(EvalError::InvalidNumber),
            },
            _ => self,
        }
    }

    /// Whether what is left to work out is a number or a well-formed
    /// operation.
    pub open spec fn well_formed(self) -> bool {
        match self {
            EvaluationView::Running(value) => value.is_operand(),
            EvaluationView::Failed(_) => true,
        }
    }

    /// How many operations are left to do.
    pub open spec fn pending(self) -> nat {
        match self {
            EvaluationView::Running(value) => value.operations(),
            EvaluationView::Failed(_) => 0,
        }
    }

    /// What the evaluation comes to under `arithmetic`.
    pub open spec fn value(self, arithmetic: Arithmetic) -> Result<Seq<char>, EvalError> {
        match self {
            EvaluationView::Running(value) => value.value(arithmetic),
            EvaluationView::Failed(e) => Err(e),
        }
    }

    /// What driving the evaluation comes to, where every operation asked for
    /// is answered by `arithmetic`.
    pub open spec fn run(self, arithmetic: Arithmetic) -> Result<Seq<char>, EvalError>
        decreases self.pending(),
    {
        match self.next_step() {
            StepView::Done(text) => Ok(text),
            StepView::Failed(e) => Err(e),
            StepView::Apply { operator, lhs, rhs } => {
                proof {
                    lemma_supply_makes_progress(self, arithmetic(operator, lhs, rhs));
                }
                self.supplied(arithmetic(operator, lhs, rhs)).run(arithmetic)
            },
        }
    }
}

/// A block always has something left to do.
proof fn lemma_block_not_done(block: BlockView)
    ensures
        !(block.next_step() is Done),
    decreases block,
{
    match block.lhs {
        ValueView::Block(inner) => {
            lemma_block_not_done(*inner);
        },
        ValueView::Op(_) => {},
        ValueView::Val(_) => match block.rhs {
            ValueView::Block(inner) => {
                lemma_block_not_done(*inner);
            },
            _ => {},
        },
    }
}

proof fn lemma_resolved_block(block: BlockView, value: Seq<char>, arithmetic: Arithmetic)
    requires
        block.next_step() is Apply,
    ensures
        block.resolved(value).operations() + 1 == block.operations(),
        block.well_formed() ==> block.resolved(value).is_operand(),
        arithmetic(
            block.next_step()->operator,
            block.next_step()->lhs,
            block.next_step()->rhs,
        ) == Some(value) ==> block.resolved(value).value(arithmetic) == block.value(arithmetic),
        arithmetic(
            block.next_step()->operator,
            block.next_step()->lhs,
            block.next_step()->rhs,
        ) is None ==> block.value(arithmetic) == Err::<Seq<char>, EvalError>(
            EvalError::InvalidNumber,
        ),
    decreases block,
{
    match block.lhs {
        ValueView::Block(inner) => {
            lemma_resolved_block(*inner, value, arithmetic);
        },
        ValueView::Op(_) => {},
        ValueView::Val(_) => match block.rhs {
            ValueView::Block(inner) => {
                lemma_resolved_block(*inner, value, arithmetic);
            },
            _ => {},
        },
    }
}

proof fn lemma_failed_block(block: BlockView, arithmetic: Arithmetic)
    requires
        block.next_step() is Failed,
    ensures
        block.value(arithmetic) == Err::<Seq<char>, EvalError>(block.next_step()->Failed_0),
        !block.well_formed(),
    decreases block,
{
    match block.lhs {
        ValueView::Block(inner) => {
            lemma_failed_block(*inner, arithmetic);
        },
        ValueView::Op(_) => {},
        ValueView::Val(_) => match block.rhs {
            ValueView::Block(inner) => {
                lemma_failed_block(*inner, arithmetic);
            },
            _ => {},
        },
    }
}

/// Every answer to the operation that is due takes the evaluation further:
/// a result leaves one operation less to do, and a refusal ends it.
pub proof fn lemma_supply_makes_progress(evaluation: EvaluationView, outcome: Option<Seq<char>>)
    requires
        evaluation.next_step() is Apply,
    ensures
        evaluation.supplied(outcome).pending() < evaluation.pending(),
        outcome is Some ==> evaluation.supplied(outcome).pending() + 1 == evaluation.pending(),
        outcome is None ==> evaluation.supplied(outcome).next_step() == StepView::Failed(
            EvalError::InvalidNumber,
        ),
{
    let arithmetic: Arithmetic = |operator: Operator, lhs: Seq<char>, rhs: Seq<char>| outcome;
    match evaluation {
        EvaluationView::Running(ValueView::Block(block)) => {
            lemma_resolved_block(*block, arbitrary(), arithmetic);
            if outcome is Some {
                lemma_resolved_block(*block, outcome->Some_0, arithmetic);
            }
        },
        _ => {},
    }
}

/// One step of an evaluation keeps what it comes to. Under any arithmetic,
/// the value of the evaluation is: the text, where it is done; the failure,
/// where it has failed; and otherwise the value of the evaluation that comes
/// of supplying what the arithmetic makes of the operation that is due.
pub proof fn lemma_step_keeps_value(evaluation: EvaluationView, arithmetic: Arithmetic)
    ensures
        evaluation.value(arithmetic) == match evaluation.next_step() {
            StepView::Done(text) => Ok(text),
            StepView::Failed(e) => Err(e),
            StepView::Apply { operator, lhs, rhs } => evaluation.supplied(
                arithmetic(operator, lhs, rhs),
            ).value(arithmetic),
        },
{
    match evaluation {
        EvaluationView::Running(ValueView::Block(block)) => {
            assert(evaluation.value(arithmetic) == block.value(arithmetic));
            match block.next_step() {
                StepView::Apply { operator, lhs, rhs } => {
                    match arithmetic(operator, lhs, rhs) {
                        Some(value) => {
                            lemma_resolved_block(*block, value, arithmetic);
                            assert(evaluation.supplied(Some(value)) == EvaluationView::Running(
                                block.resolved(value),
                            ));
                        },
                        None => {
                            lemma_resolved_block(*block, arbitrary(), arithmetic);
                            assert(evaluation.supplied(None) == EvaluationView::Failed(
                                EvalError::InvalidNumber,
                            ));
                        },
                    }
                },
                StepView::Failed(_) => {
                    lemma_failed_block(*block, arithmetic);
                },
                StepView::Done(_) => {
                    lemma_block_not_done(*block);
                },
            }
        },
        EvaluationView::Running(ValueView::Val(text)) => {
            assert(evaluation.value(arithmetic) == Ok::<Seq<char>, EvalError>(text));
        },
        EvaluationView::Running(ValueView::Op(_)) => {
            assert(evaluation.value(arithmetic) == Err::<Seq<char>, EvalError>(
                EvalError::ExpectedOperand,
            ));
        },
        EvaluationView::Failed(_) => {},
    }
}

/// Driving an evaluation step by step, every operation answered by one
/// arithmetic, comes to the value that the tree has under that arithmetic.
pub proof fn lemma_run_gives_value(evaluation: EvaluationView, arithmetic: Arithmetic)
    ensures
        evaluation.run(arithmetic) == evaluation.value(arithmetic),
    decreases evaluation.pending(),
{
    lemma_step_keeps_value(evaluation, arithmetic);
    match evaluation.next_step() {
        StepView::Apply { operator, lhs, rhs } => {
            let outcome = arithmetic(operator, lhs, rhs);
            lemma_supply_makes_progress(evaluation, outcome);
            lemma_run_gives_value(evaluation.supplied(outcome), arithmetic);
        },
        _ => {},
    }
}

/// A well-formed block is ready: an operation is due in it.
proof fn lemma_well_formed_ready(block: BlockView)
    requires
        block.well_formed(),
    ensures
        block.next_step() is Apply,
{
    lemma_block_not_done(block);
    if block.next_step() is Failed {
        let arithmetic: Arithmetic = |operator: Operator, lhs: Seq<char>, rhs: Seq<char>| None;
        lemma_failed_block(block, arithmetic);
    }
}

/// An evaluation of a well-formed tree stays one of a well-formed tree, and
/// fails only where an operand is no number: no step of it is a failure
/// before `None` was supplied.
pub proof fn lemma_well_formed_runs(evaluation: EvaluationView, outcome: Option<Seq<char>>)
    requires
        evaluation.well_formed(),
    ensures
        evaluation.next_step() is Failed ==> evaluation is Failed,
        evaluation.supplied(outcome).well_formed(),
        evaluation is Running && evaluation.supplied(outcome) is Failed ==> outcome is None
            && evaluation.supplied(outcome) == EvaluationView::Failed(EvalError::InvalidNumber),
{
    let arithmetic: Arithmetic = |operator: Operator, lhs: Seq<char>, rhs: Seq<char>| outcome;
    match evaluation {
        EvaluationView::Running(ValueView::Block(block)) => {
            lemma_well_formed_ready(*block);
            if outcome is Some {
                lemma_resolved_block(*block, outcome->Some_0, arithmetic);
            }
        },
        _ => {},
    }
}

/// The view of an answer to an operation.
pub open spec fn outcome_view(outcome: Option<String>) -> Option<Seq<char>> {
    match outcome {
        Some(text) => Some(text@),
        None => None,
    }
}

impl Block {
    /// Finds the operation that is due in this block.
    ///
    /// Goes to the left operand first, then to the right one, and into a
    /// block before the operation that holds it. Returns the first operation
    /// whose operands are both numbers, as [`Step::Apply`] with copies of
    /// their texts, or [`Step::Failed`] where an operator stands in an
    /// operand's place (`ExpectedOperand`) or the operator's place holds
    /// something else (`ExpectedOperator`).
    pub fn execute(&self) -> (step: Step)
        ensures
            step@ == self@.next_step(),
        decreases self,
    {
        match &self.lhs {
            Value::Block(inner) => inner.execute(),
            Value::Op(_) => Step::Failed(EvalError::ExpectedOperand),
            Value::Val(lhs) => match &self.rhs {
                Value::Block(inner) => inner.execute(),
                Value::Op(_) => Step::Failed(EvalError::ExpectedOperand),
                Value::Val(rhs) => match &self.operator {
                    Value::Op(operator) => Step::Apply {
                        operator: *operator,
                        lhs: lhs.clone(),
                        rhs: rhs.clone(),
                    },
                    _ => Step::Failed(EvalError::ExpectedOperator),
                },
            },
        }
    }

    /// Whether an operation is due in this block, rather than a failure.
    pub fn ready(&self) -> (yes: bool)
        ensures
            yes == (self@.next_step() is Apply),
        decreases self,
    {
        match &self.lhs {
            Value::Block(inner) => inner.ready(),
            Value::Op(_) => false,
            Value::Val(_) => match &self.rhs {
                Value::Block(inner) => inner.ready(),
                Value::Op(_) => false,
                Value::Val(_) => match &self.operator {
                    Value::Op(_) => true,
                    _ => false,
                },
            },
        }
    }

    /// Puts `value` in the place of the operation that is due.
    ///
    /// Returns the block with that operation replaced by the number, which
    /// is the number itself where the operation was the whole block. What
    /// comes of a well-formed block is well formed.
    pub fn resolve(self, value: String) -> (after: Value)
        ensures
            after@ == self@.resolved(value@),
            self@.well_formed() ==> after@.is_operand(),
        decreases self,
    {
        proof {
            if self@.well_formed() {
                lemma_well_formed_ready(self@);
                lemma_resolved_block(
                    self@,
                    value@,
                    |operator: Operator, lhs: Seq<char>, rhs: Seq<char>| None,
                );
            }
        }
        let Block { lhs, rhs, operator } = self;
        match lhs {
            Value::Block(inner) => {
                let lhs = (*inner).resolve(value);
                Value::Block(Box::new(Block { lhs, rhs, operator }))
            },
            Value::Op(first) => Value::Block(Box::new(Block { lhs: Value::Op(first), rhs, operator })),
            Value::Val(first) => match rhs {
                Value::Block(inner) => {
                    let rhs = (*inner).resolve(value);
                    Value::Block(Box::new(Block { lhs: Value::Val(first), rhs, operator }))
                },
                Value::Op(second) => Value::Block(
                    Box::new(Block { lhs: Value::Val(first), rhs: Value::Op(second), operator }),
                ),
                Value::Val(_) => Value::Val(value),
            },
        }
    }
}

impl Evaluation {
    /// The evaluation of `block`, nothing done yet.
    pub fn begin(block: Block) -> (evaluation: Evaluation)
        ensures
            evaluation@ == EvaluationView::Running(ValueView::Block(Box::new(block@))),
            evaluation@.well_formed() <==> block@.well_formed(),
    {
        Evaluation::Running(Value::Block(Box::new(block)))
    }

    /// What the evaluation asks for next, or what it has come to.
    ///
    /// [`Step::Apply`] names the operation that is due; its result goes to
    /// [`Evaluation::supply`]. [`Step::Done`] holds the value and
    /// [`Step::Failed`] the failure; after either nothing changes any more.
    /// A well-formed evaluation fails only once [`Evaluation::supply`] was
    /// given `None`.
    pub fn step(&self) -> (step: Step)
        ensures
            step@ == self@.next_step(),
            self@.well_formed() && step is Failed ==> self is Failed,
    {
        proof {
            if self@.well_formed() {
                lemma_well_formed_runs(self@, None);
            }
        }
        match self {
            Evaluation::Running(Value::Val(text)) => Step::Done(text.clone()),
            Evaluation::Running(Value::Op(_)) => Step::Failed(EvalError::ExpectedOperand),
            Evaluation::Running(Value::Block(block)) => block.execute(),
            Evaluation::Failed(e) => Step::Failed(*e),
        }
    }

    /// Takes the answer to the operation that is due.
    ///
    /// `Some` holds the text of the operation's result, which takes the
    /// operation's place. `None` says that an operand is not the text of a
    /// number: the evaluation fails with `InvalidNumber`. Where no operation
    /// is due, the evaluation is returned as it is. Every answer to an
    /// operation leaves fewer operations to do, and a well-formed evaluation
    /// well formed.
    pub fn supply(self, outcome: Option<String>) -> (after: Evaluation)
        ensures
            after@ == self@.supplied(outcome_view(outcome)),
            self@.well_formed() ==> after@.well_formed(),
            self@.next_step() is Apply ==> after@.pending() < self@.pending(),
    {
        proof {
            if self@.well_formed() {
                lemma_well_formed_runs(self@, outcome_view(outcome));
            }
            if self@.next_step() is Apply {
                lemma_supply_makes_progress(self@, outcome_view(outcome));
            }
        }
        match self {
            Evaluation::Running(Value::Block(block)) => {
                if block.ready() {
                    match outcome {
                        Some(text) => Evaluation::Running((*block).resolve(text)),
                        None => Evaluation::Failed(EvalError::InvalidNumber),
                    }
                } else {
                    Evaluation::Running(Value::Block(block))
                }
            },
            other => other,
        }
    }
}

/// Whether `arithmetic`, a function that can be called, computes `model`:
/// whatever it returns for an operator and two texts is what `model` makes
/// of them.
pub open spec fn computes<F: Fn(Operator, &str, &str) -> Option<String>>(
    arithmetic: F,
    model: Arithmetic,
) -> bool {
    forall|operator: Operator, lhs: &str, rhs: &str, outcome: Option<String>|
        #[trigger] call_ensures(arithmetic, (operator, lhs, rhs), outcome) ==> outcome_view(outcome)
            == model(operator, lhs@, rhs@)
}

/// The view of what an evaluation has come to.
pub open spec fn end_view(end: Result<String, EvalError>) -> Result<Seq<char>, EvalError> {
    match end {
        Ok(text) => Ok(text@),
        Err(e) => Err(e),
    }
}

impl Evaluation {
    /// Drives the evaluation to its end, every operation worked out by
    /// `arithmetic`.
    ///
    /// Asks for one step after the other and supplies what `arithmetic`
    /// returns for each operation. Returns the text of the value, or the
    /// failure. Where `arithmetic` computes a model, this is the value of
    /// the evaluation under that model.
    pub fn run<F: Fn(Operator, &str, &str) -> Option<String>>(self, arithmetic: F) -> (end: Result<
        String,
        EvalError,
    >)
        requires
            forall|operator: Operator, lhs: &str, rhs: &str|
                call_requires(arithmetic, (operator, lhs, rhs)),
        ensures
            forall|model: Arithmetic|
                computes(arithmetic, model) ==> end_view(end) == #[trigger] self@.value(model),
    {
        let ghost begin = self@;
        let mut evaluation = self;
        loop
            invariant
                begin == self@,
                forall|operator: Operator, lhs: &str, rhs: &str|
                    call_requires(arithmetic, (operator, lhs, rhs)),
                forall|model: Arithmetic|
                    computes(arithmetic, model) ==> #[trigger] evaluation@.value(model)
                        == begin.value(model),
            decreases evaluation@.pending(),
        {
            let ghost before = evaluation@;
            match evaluation.step() {
                Step::Done(text) => {
                    proof {
                        assert forall|model: Arithmetic| computes(arithmetic, model) implies Ok::<
                            Seq<char>,
                            EvalError,
                        >(text@) == #[trigger] begin.value(model) by {
                            lemma_step_keeps_value(before, model);
                        }
                    }
                    return Ok(text);
                },
                Step::Failed(e) => {
                    proof {
                        assert forall|model: Arithmetic| computes(arithmetic, model) implies Err::<
                            Seq<char>,
                            EvalError,
                        >(e) == #[trigger] begin.value(model) by {
                            lemma_step_keeps_value(before, model);
                        }
                    }
                    return Err(e);
                },
                Step::Apply { operator, lhs, rhs } => {
                    let outcome = arithmetic(operator, lhs.as_str(), rhs.as_str());
                    evaluation = evaluation.supply(outcome);
                    proof {
                        assert forall|model: Arithmetic|
                            computes(arithmetic, model) implies #[trigger] evaluation@.value(model)
                            == begin.value(model) by {
                            lemma_step_keeps_value(before, model);
                        }
                    }
                },
            }
        }
    }
}

} // verus!
