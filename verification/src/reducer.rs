//! Building the tree of operations from tokens, going from left to right.
//!
//! The reducer knows no precedence: it takes every operator as it comes, and
//! a group in brackets as one operand. The whole tree is built before any
//! operation is worked out, so an error in the tokens is found whatever the
//! numbers are.

use vstd::prelude::*;
use vstd::string::StringExecFns;

use crate::error::EvalError;
use crate::token::{token_views, Brackets, Operator, Token, TokenView};
use crate::tree::{Block, BlockView, Value, ValueView};

verus! {

/// Where the group ends that is `depth` brackets deep at position `from`:
/// the position of the closing bracket that matches, or the number of tokens
/// where none does.
pub open spec fn group_end(tokens: Seq<TokenView>, from: int, depth: nat) -> int
    decreases tokens.len() - from,
{
    if from < 0 || from >= tokens.len() {
        tokens.len() as int
    } else {
        match tokens[from] {
            TokenView::Brackets(Brackets::Start) => group_end(tokens, from + 1, depth + 1),
            TokenView::Brackets(Brackets::End) => if depth == 0 {
                from
            } else {
                group_end(tokens, from + 1, (depth - 1) as nat)
            },
            _ => group_end(tokens, from + 1, depth),
        }
    }
}

/// A group ends at or after the position it is looked for from, and within
/// the tokens.
pub proof fn lemma_group_end(tokens: Seq<TokenView>, from: int, depth: nat)
    requires
        0 <= from <= tokens.len(),
    ensures
        from <= group_end(tokens, from, depth) <= tokens.len(),
    decreases tokens.len() - from,
{
    if from < tokens.len() {
        lemma_group_end(tokens, from + 1, depth + 1);
        lemma_group_end(tokens, from + 1, depth);
        if depth > 0 {
            lemma_group_end(tokens, from + 1, (depth - 1) as nat);
        }
    }
}

/// The tokens inside the group whose opening bracket stands at `at`: those
/// between it and the closing bracket that matches, or all that follow it
/// where none matches.
pub open spec fn group_tokens(tokens: Seq<TokenView>, at: int) -> Seq<TokenView> {
    tokens.subrange(at + 1, group_end(tokens, at + 1, 0))
}

/// The position after the group whose opening bracket stands at `at`: the
/// one after its closing bracket, or the number of tokens where the group is
/// not closed.
pub open spec fn after_group(tokens: Seq<TokenView>, at: int) -> int {
    let close = group_end(tokens, at + 1, 0);
    if close < tokens.len() {
        close + 1
    } else {
        tokens.len() as int
    }
}

/// The text of a number with a minus sign in front.
pub open spec fn negated(text: Seq<char>) -> Seq<char> {
    seq!['-'] + text
}

/// The operand that the group at `at` stands for, and the position after it:
/// the tree of the tokens inside the group.
pub open spec fn group_operand(tokens: Seq<TokenView>, at: int) -> Result<
    (ValueView, int),
    EvalError,
>
    decreases tokens.len(), 0int, 0int,
{
    if 0 <= at < tokens.len() {
        proof {
            lemma_group_end(tokens, at + 1, 0);
        }
        match reduce_from(group_tokens(tokens, at), 0, None) {
            Ok(block) => Ok((ValueView::Block(Box::new(block)), after_group(tokens, at))),
            Err(e) => Err(e),
        }
    } else {
        Err(EvalError::ExpectedOperand)
    }
}

/// The left operand that starts at `at`, and the position after it: a number
/// or a group.
pub open spec fn left_operand(tokens: Seq<TokenView>, at: int) -> Result<
    (ValueView, int),
    EvalError,
>
    decreases tokens.len(), 1int, 0int,
{
    if 0 <= at < tokens.len() {
        match tokens[at] {
            TokenView::Value(text) => Ok((ValueView::Val(text), at + 1)),
            TokenView::Brackets(Brackets::Start) => group_operand(tokens, at),
            TokenView::Brackets(Brackets::End) => Err(EvalError::UnexpectedClosingBracket),
            TokenView::Operator(_) => Err(EvalError::ExpectedOperand),
        }
    } else {
        Err(EvalError::ExpectedOperand)
    }
}

/// The right operand that starts at `at`, and the position after it: a
/// number, a number with a sign in front, or a group. `+` in front of a
/// number changes nothing; `-` becomes part of the number's text.
pub open spec fn right_operand(tokens: Seq<TokenView>, at: int) -> Result<
    (ValueView, int),
    EvalError,
>
    decreases tokens.len(), 1int, 0int,
{
    if 0 <= at < tokens.len() {
        match tokens[at] {
            TokenView::Value(text) => Ok((ValueView::Val(text), at + 1)),
            TokenView::Operator(Operator::Plus) => if at + 1 < tokens.len() {
                match tokens[at + 1] {
                    TokenView::Value(text) => Ok((ValueView::Val(text), at + 2)),
                    _ => Err(EvalError::ExpectedOperand),
                }
            } else {
                Err(EvalError::ExpectedOperand)
            },
            TokenView::Operator(Operator::Minus) => if at + 1 < tokens.len() {
                match tokens[at + 1] {
                    TokenView::Value(text) => Ok((ValueView::Val(negated(text)), at + 2)),
                    _ => Err(EvalError::ExpectedOperand),
                }
            } else {
                Err(EvalError::ExpectedOperand)
            },
            TokenView::Operator(_) => Err(EvalError::ExpectedOperand),
            TokenView::Brackets(Brackets::Start) => group_operand(tokens, at),
            TokenView::Brackets(Brackets::End) => Err(EvalError::UnexpectedClosingBracket),
        }
    } else {
        Err(EvalError::ExpectedOperand)
    }
}

/// The tree of the tokens from position `index` on, where `done` is the
/// tree of the tokens before it, if there are any.
///
/// At the end of the tokens the tree is `done`; without it there is no
/// operand. Before the end, an operation is read: its left operand is `done`
/// or, without it, the operand that starts at `index`; then comes an
/// operator; then the right operand. That operation is the tree of what has
/// been read by then.
///
/// The operator is missing where the tokens end after the left operand. That
/// the right operand ends after the operator and within the tokens always
/// holds ([`lemma_operand_ends`]); it is asked here so that the definition
/// is seen to end.
pub open spec fn reduce_from(tokens: Seq<TokenView>, index: int, done: Option<BlockView>) -> Result<
    BlockView,
    EvalError,
>
    decreases tokens.len(), 2int, tokens.len() - index,
{
    if index < 0 || index >= tokens.len() {
        match done {
            Some(block) => Ok(block),
            None => Err(EvalError::ExpectedOperand),
        }
    } else {
        let left = match done {
            Some(block) => Ok((ValueView::Block(Box::new(block)), index)),
            None => left_operand(tokens, index),
        };
        match left {
            Err(e) => Err(e),
            Ok((lhs, at)) => if index <= at < tokens.len() {
                match tokens[at] {
                    TokenView::Operator(operator) => match right_operand(tokens, at + 1) {
                        Err(e) => Err(e),
                        Ok((rhs, next)) => if at < next <= tokens.len() {
                            reduce_from(
                                tokens,
                                next,
                                Some(BlockView { lhs, rhs, operator: ValueView::Op(operator) }),
                            )
                        } else {
                            Err(EvalError::ExpectedOperand)
                        },
                    },
                    _ => Err(EvalError::ExpectedOperator),
                }
            } else {
                Err(EvalError::ExpectedOperator)
            },
        }
    }
}

/// The tree of operations that `tokens` stand for, read from left to right,
/// or the first error met.
pub open spec fn reduce(tokens: Seq<TokenView>) -> Result<BlockView, EvalError> {
    reduce_from(tokens, 0, None)
}

/// The view of the tree built so far, if any.
pub open spec fn done_view(done: Option<Block>) -> Option<BlockView> {
    match done {
        Some(block) => Some(block@),
        None => None,
    }
}

fn minus(text: &String) -> (signed: String)
    ensures
        signed@ == negated(text@),
{
    proof {
        reveal_strlit("-");
    }
    let mut signed = String::from_str("-");
    signed.append(text.as_str());
    assert(signed@ =~= negated(text@));
    signed
}

/// Reads the group whose opening bracket stands at `index`.
///
/// Copies the tokens inside the group, up to the closing bracket that
/// matches or to the end where none does, and builds their tree with
/// [`parse_token`]. Returns that tree as an operand, with the position after
/// the group, or the error met inside the group. Where `index` is no
/// position of `target`, there is no operand: `ExpectedOperand`.
pub fn parse_inner_brackets(target: &[Token], index: usize) -> (result: Result<
    (Value, usize),
    EvalError,
>)
    ensures
        match result {
            Ok((value, next)) => group_operand(token_views(target@), index as int) == Ok::<
                (ValueView, int),
                EvalError,
            >((value@, next as int)),
            Err(e) => group_operand(token_views(target@), index as int) == Err::<
                (ValueView, int),
                EvalError,
            >(e),
        },
    decreases target.len(), 0int,
{
    if index >= target.len() {
        return Err(EvalError::ExpectedOperand);
    }
    let ghost tokens = token_views(target@);
    let mut expression: Vec<Token> = Vec::new();
    let mut depth: usize = 0;
    let mut at: usize = index + 1;
    let mut closed = false;
    proof {
        assert(token_views(expression@) =~= tokens.subrange(index + 1, at as int));
    }
    while at < target.len() && !closed
        invariant
            tokens == token_views(target@),
            index < at <= target.len(),
            depth <= at - index - 1,
            !closed ==> group_end(tokens, index + 1, 0) == group_end(tokens, at as int, depth as nat),
            !closed ==> token_views(expression@) == tokens.subrange(index + 1, at as int),
            closed ==> at - 1 == group_end(tokens, index + 1, 0),
            closed ==> token_views(expression@) == tokens.subrange(index + 1, at - 1),
        decreases target.len() - at,
    {
        let ghost copied = token_views(expression@);
        let ghost here = tokens[at as int];
        assert(here == target[at as int]@);
        match &target[at] {
            Token::Value(text) => {
                expression.push(Token::Value(text.clone()));
            },
            Token::Operator(operator) => {
                expression.push(Token::Operator(*operator));
            },
            Token::Brackets(Brackets::Start) => {
                depth += 1;
                expression.push(Token::Brackets(Brackets::Start));
            },
            Token::Brackets(Brackets::End) => {
                if depth == 0 {
                    closed = true;
                } else {
                    depth -= 1;
                    expression.push(Token::Brackets(Brackets::End));
                }
            },
        }
        at += 1;
        proof {
            if !closed {
                assert(token_views(expression@) =~= copied.push(here));
                assert(copied.push(here) =~= tokens.subrange(index + 1, at as int));
            }
        }
    }
    proof {
        lemma_group_end(tokens, index + 1, 0);
        assert(token_views(expression@) == group_tokens(tokens, index as int));
        assert(at == after_group(tokens, index as int));
    }
    match parse_token(expression.as_slice()) {
        Ok(block) => Ok((Value::Block(Box::new(block)), at)),
        Err(e) => Err(e),
    }
}

/// Reads the left operand that starts at `index`: a number or a group.
fn left_of(target: &[Token], index: usize) -> (result: Result<(Value, usize), EvalError>)
    requires
        index < target.len(),
    ensures
        match result {
            Ok((value, next)) => left_operand(token_views(target@), index as int) == Ok::<
                (ValueView, int),
                EvalError,
            >((value@, next as int)),
            Err(e) => left_operand(token_views(target@), index as int) == Err::<
                (ValueView, int),
                EvalError,
            >(e),
        },
    decreases target.len(), 1int,
{
    assert(token_views(target@)[index as int] == target[index as int]@);
    match &target[index] {
        Token::Value(text) => Ok((Value::Val(text.clone()), index + 1)),
        Token::Brackets(Brackets::Start) => parse_inner_brackets(target, index),
        Token::Brackets(Brackets::End) => Err(EvalError::UnexpectedClosingBracket),
        Token::Operator(_) => Err(EvalError::ExpectedOperand),
    }
}

/// Reads the right operand that starts at `index`: a number, a number with
/// a sign in front, or a group.
fn right_of(target: &[Token], index: usize) -> (result: Result<(Value, usize), EvalError>)
    requires
        index <= target.len(),
    ensures
        match result {
            Ok((value, next)) => right_operand(token_views(target@), index as int) == Ok::<
                (ValueView, int),
                EvalError,
            >((value@, next as int)),
            Err(e) => right_operand(token_views(target@), index as int) == Err::<
                (ValueView, int),
                EvalError,
            >(e),
        },
    decreases target.len(), 1int,
{
    if index >= target.len() {
        return Err(EvalError::ExpectedOperand);
    }
    assert(token_views(target@)[index as int] == target[index as int]@);
    match &target[index] {
        Token::Value(text) => Ok((Value::Val(text.clone()), index + 1)),
        Token::Operator(Operator::Plus) => {
            if index + 1 >= target.len() {
                return Err(EvalError::ExpectedOperand);
            }
            assert(token_views(target@)[index + 1] == target[index + 1]@);
            match &target[index + 1] {
                Token::Value(text) => Ok((Value::Val(text.clone()), index + 2)),
                _ => Err(EvalError::ExpectedOperand),
            }
        },
        Token::Operator(Operator::Minus) => {
            if index + 1 >= target.len() {
                return Err(EvalError::ExpectedOperand);
            }
            assert(token_views(target@)[index + 1] == target[index + 1]@);
            match &target[index + 1] {
                Token::Value(text) => Ok((Value::Val(minus(text)), index + 2)),
                _ => Err(EvalError::ExpectedOperand),
            }
        },
        Token::Operator(_) => Err(EvalError::ExpectedOperand),
        Token::Brackets(Brackets::Start) => parse_inner_brackets(target, index),
        Token::Brackets(Brackets::End) => Err(EvalError::UnexpectedClosingBracket),
    }
}

/// An operand that was read ends after the position it starts at, and
/// within the tokens.
pub proof fn lemma_operand_ends(tokens: Seq<TokenView>, at: int)
    ensures
        left_operand(tokens, at) matches Ok((_, next)) ==> at < next <= tokens.len(),
        right_operand(tokens, at) matches Ok((_, next)) ==> at < next <= tokens.len(),
{
    if 0 <= at < tokens.len() {
        lemma_group_end(tokens, at + 1, 0);
    }
}

/// Every tree that is built is well formed: operators stand in the
/// operators' places only, here and in every operation below.
pub proof fn lemma_reduce_well_formed(tokens: Seq<TokenView>)
    ensures
        reduce(tokens) matches Ok(block) ==> block.well_formed(),
{
    lemma_well_formed_from(tokens, 0, None);
}

proof fn lemma_well_formed_from(tokens: Seq<TokenView>, index: int, done: Option<BlockView>)
    requires
        done matches Some(block) ==> block.well_formed(),
    ensures
        reduce_from(tokens, index, done) matches Ok(block) ==> block.well_formed(),
    decreases tokens.len(), tokens.len() - index,
{
    if 0 <= index < tokens.len() {
        let left = match done {
            Some(block) => Ok((ValueView::Block(Box::new(block)), index)),
            None => left_operand(tokens, index),
        };
        if let Ok((lhs, at)) = left {
            if done is None && tokens[index] == TokenView::Brackets(Brackets::Start) {
                lemma_group_end(tokens, index + 1, 0);
                lemma_well_formed_from(group_tokens(tokens, index), 0, None);
            }
            assert(lhs.is_operand());
            if index <= at < tokens.len() {
                if let TokenView::Operator(operator) = tokens[at] {
                    if let Ok((rhs, next)) = right_operand(tokens, at + 1) {
                        if tokens[at + 1] == TokenView::Brackets(Brackets::Start) {
                            lemma_group_end(tokens, at + 2, 0);
                            lemma_well_formed_from(group_tokens(tokens, at + 1), 0, None);
                        }
                        assert(rhs.is_operand());
                        if at < next <= tokens.len() {
                            lemma_well_formed_from(
                                tokens,
                                next,
                                Some(BlockView { lhs, rhs, operator: ValueView::Op(operator) }),
                            );
                        }
                    }
                }
            }
        }
    }
}

/// Builds the tree of operations that `target` stands for.
///
/// Goes through the tokens from left to right and reads one operation
/// after the other: the left operand (the operation read before, or else a
/// number or a group), the operator, the right operand (a number, a signed
/// number or a group). The last operation read is the tree; its left operand
/// holds the one before, and so on.
///
/// Returns the tree of [`reduce`], or the first error that [`reduce`] meets:
/// `ExpectedOperand` where an operand is missing (also where there are no
/// tokens at all), `ExpectedOperator` where an operator is missing, and
/// `UnexpectedClosingBracket` where a closing bracket stands in an operand's
/// place. A tree that is returned is well formed.
pub fn parse_token(target: &[Token]) -> (result: Result<Block, EvalError>)
    ensures
        match result {
            Ok(block) => reduce(token_views(target@)) == Ok::<BlockView, EvalError>(block@),
            Err(e) => reduce(token_views(target@)) == Err::<BlockView, EvalError>(e),
        },
        result matches Ok(block) ==> block@.well_formed(),
    decreases target.len(), 2int,
{
    let ghost tokens = token_views(target@);
    let mut stack: Option<Block> = None;
    let mut index: usize = 0;
    while index < target.len()
        invariant
            tokens == token_views(target@),
            index <= target.len(),
            reduce(tokens) == reduce_from(tokens, index as int, done_view(stack)),
        decreases target.len() - index,
    {
        let ghost start = index as int;
        proof {
            lemma_operand_ends(tokens, start);
        }
        // The left operand: the operation read before, or a number or a group.
        let lhs = match stack {
            Some(block) => Value::Block(Box::new(block)),
            None => match left_of(target, index) {
                Ok((value, next)) => {
                    index = next;
                    value
                },
                Err(e) => {
                    return Err(e);
                },
            },
        };
        // The operator.
        if index >= target.len() {
            return Err(EvalError::ExpectedOperator);
        }
        let ghost at = index as int;
        assert(tokens[at] == target[at]@);
        let operator = match &target[index] {
            Token::Operator(operator) => *operator,
            _ => {
                return Err(EvalError::ExpectedOperator);
            },
        };
        // The right operand: a number, a signed number or a group.
        proof {
            lemma_operand_ends(tokens, at + 1);
        }
        let rhs = match right_of(target, index + 1) {
            Ok((value, next)) => {
                index = next;
                value
            },
            Err(e) => {
                return Err(e);
            },
        };
        stack = Some(Block::new(lhs, rhs, Value::Op(operator)));
    }
    proof {
        lemma_reduce_well_formed(tokens);
    }
    match stack {
        Some(block) => Ok(block),
        None => Err(EvalError::ExpectedOperand),
    }
}

} // verus!
