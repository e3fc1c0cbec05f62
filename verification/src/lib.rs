//! A calculator for arithmetic expressions written as text: numbers, the
//! operators `+ - * /`, brackets, and a sign in front of a right operand.
//!
//! An expression goes through three stages. [`tokenize`] splits the text
//! into tokens, [`adjust_brackets`] puts every product in brackets, and
//! [`parse_token`] builds the tree of operations, reading from left to
//! right. [`calculation`] runs the three and hands back an [`Evaluation`] of
//! the tree.
//!
//! The arithmetic on the numbers is the caller's: an evaluation names one
//! operation after the other and takes each result, or is driven to its end
//! by [`Evaluation::run`] with a function that works the operations out.
//! See the module [`evaluation`].

use vstd::prelude::*;

pub mod error;
pub mod evaluation;
pub mod lexer;
pub mod normalizer;
pub mod precedence;
pub mod reducer;
pub mod text;
pub mod token;
pub mod tree;

pub use error::{EvalError, LexError};
pub use evaluation::{Evaluation, EvaluationView, Step, StepView};
pub use lexer::tokenize;
pub use normalizer::adjust_brackets;
pub use reducer::{parse_inner_brackets, parse_token};
pub use token::{Brackets, Operator, Token, TokenView};
pub use tree::{Block, BlockView, Value, ValueView};

verus! {

/// The tree of operations that the text of an expression stands for, or the
/// message of the first error: that of the lexer where the text cannot be
/// split into tokens, else that of the reducer on the tokens with their
/// products in brackets.
pub open spec fn expression(text: Seq<char>) -> Result<BlockView, Seq<char>> {
    match lexer::lex(text) {
        Err(e) => Err(e.message_text()),
        Ok(tokens) => match reducer::reduce(normalizer::normalize(tokens)) {
            Err(e) => Err(e.message_text()),
            Ok(block) => Ok(block),
        },
    }
}

/// Reads the expression `target` and begins its evaluation.
///
/// Returns the evaluation of the tree that [`expression`] gives for the
/// text, with nothing done yet, or the message of the error that
/// [`expression`] gives. The tree is well formed, so the evaluation can fail
/// only where an operand turns out to be no number.
pub fn calculation(target: &str) -> (result: Result<Evaluation, String>)
    ensures
        match result {
            Ok(evaluation) => expression(target@) matches Ok(block) && evaluation@
                == EvaluationView::Running(ValueView::Block(Box::new(block))),
            Err(message) => expression(target@) == Err::<BlockView, Seq<char>>(message@),
        },
        result matches Ok(evaluation) ==> evaluation@.well_formed(),
{
    let tokens = match tokenize(target) {
        Ok(tokens) => tokens,
        Err(e) => {
            return Err(e.message());
        },
    };
    let tokens = adjust_brackets(tokens.as_slice());
    match parse_token(tokens.as_slice()) {
        Ok(block) => Ok(Evaluation::begin(block)),
        Err(e) => Err(e.message()),
    }
}

} // verus!
