//! The lexical units of an arithmetic expression.

use vstd::prelude::*;

verus! {

/// One of the four binary operators.
#[derive(Debug, Clone, Copy, PartialEq, Eq, Structural)]
pub enum Operator {
    Plus,
    Minus,
    Multiply,
    Divide,
}

/// A parenthesis: the start or the end of a group.
#[derive(Debug, Clone, Copy, PartialEq, Eq, Structural)]
pub enum Brackets {
    Start,
    End,
}

/// A lexical unit. A number keeps the text it was written with.
#[derive(Debug, Clone, PartialEq, Eq)]
pub enum Token {
    Value(String),
    Operator(Operator),
    Brackets(Brackets),
}

/// The mathematical value of a [`Token`]: the same unit, a number's text as a
/// sequence of characters.
pub ghost enum TokenView {
    Value(Seq<char>),
    Operator(Operator),
    Brackets(Brackets),
}

impl View for Token {
    type V = TokenView;

    open spec fn view(&self) -> TokenView {
        match *self {
            Token::Value(text) => TokenView::Value(text@),
            Token::Operator(operator) => TokenView::Operator(operator),
            Token::Brackets(brackets) => TokenView::Brackets(brackets),
        }
    }
}

/// The views of a sequence of tokens, in order.
pub open spec fn token_views(tokens: Seq<Token>) -> Seq<TokenView> {
    Seq::new(tokens.len(), |i: int| tokens[i]@)
}

impl Operator {
    /// `*` and `/` bind tighter than `+` and `-`.
    pub open spec fn is_product(self) -> bool {
        self == Operator::Multiply || self == Operator::Divide
    }

    /// The character the operator is written with.
    pub open spec fn symbol(self) -> char {
        match self {
            Operator::Plus => '+',
            Operator::Minus => '-',
            Operator::Multiply => '*',
            Operator::Divide => '/',
        }
    }
}

impl Brackets {
    /// The character the bracket is written with.
    pub open spec fn symbol(self) -> char {
        match self {
            Brackets::Start => '(',
            Brackets::End => ')',
        }
    }
}

impl TokenView {
    /// The text the token is written with.
    pub open spec fn text(self) -> Seq<char> {
        match self {
            TokenView::Value(text) => text,
            TokenView::Operator(operator) => seq![operator.symbol()],
            TokenView::Brackets(brackets) => seq![brackets.symbol()],
        }
    }

    /// Whether the token is `*` or `/`.
    pub open spec fn is_product(self) -> bool {
        self matches TokenView::Operator(operator) && operator.is_product()
    }
}

} // verus!
