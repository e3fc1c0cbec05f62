//! The ways in which an expression can be rejected.

use vstd::prelude::*;
use vstd::string::StringExecFns;

use crate::text::push_char;

verus! {

/// Why a text could not be split into tokens.
#[derive(Debug, Clone, Copy, PartialEq, Eq, Structural)]
pub enum LexError {
    /// A number holds a second `.`.
    ConsecutiveDecimalPoint,
    /// A character that belongs to no token, and where it stands.
    UnexpectedCharacter(char),
}

/// Why a sequence of tokens could not be evaluated.
#[derive(Debug, Clone, Copy, PartialEq, Eq, Structural)]
pub enum EvalError {
    /// An operator or the end of the tokens stands where a number or an
    /// opening bracket is needed.
    ExpectedOperand,
    /// Something other than an operator stands where an operator is needed.
    ExpectedOperator,
    /// A closing bracket stands where an operand is needed.
    UnexpectedClosingBracket,
    /// An operand of an operation is not the text of a number.
    InvalidNumber,
}

impl LexError {
    /// The message shown for this error.
    pub open spec fn message_text(self) -> Seq<char> {
        match self {
            LexError::ConsecutiveDecimalPoint => "「.」が連続して出現しました。"@,
            LexError::UnexpectedCharacter(c) => "予期せぬ文字が出現しました。「"@.push(c) + "」"@,
        }
    }

    /// The message shown for this error.
    pub fn message(&self) -> (text: String)
        ensures
            text@ == self.message_text(),
    {
        match *self {
            LexError::ConsecutiveDecimalPoint => String::from_str("「.」が連続して出現しました。"),
            LexError::UnexpectedCharacter(c) => {
                let mut text = String::from_str("予期せぬ文字が出現しました。「");
                push_char(&mut text, c);
                text.append("」");
                text
            },
        }
    }
}

impl EvalError {
    /// The message shown for this error.
    pub open spec fn message_text(self) -> Seq<char> {
        match self {
            EvalError::ExpectedOperand => "数値を期待していましたが、数値以外が出現しました。"@,
            EvalError::ExpectedOperator => "演算子を期待していましたが、演算子以外が出現しました。"@,
            EvalError::UnexpectedClosingBracket => "想定外の終了かっこが出現しました。"@,
            EvalError::InvalidNumber => "数値として解釈できない値が出現しました。"@,
        }
    }

    /// The message shown for this error.
    pub fn message(&self) -> (text: String)
        ensures
            text@ == self.message_text(),
    {
        match *self {
            EvalError::ExpectedOperand => String::from_str(
                "数値を期待していましたが、数値以外が出現しました。",
            ),
            EvalError::ExpectedOperator => String::from_str(
                "演算子を期待していましたが、演算子以外が出現しました。",
            ),
            EvalError::UnexpectedClosingBracket => String::from_str(
                "想定外の終了かっこが出現しました。",
            ),
            EvalError::InvalidNumber => String::from_str("数値として解釈できない値が出現しました。"),
        }
    }
}

} // verus!
