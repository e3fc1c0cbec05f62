//! The tree of operations that an expression stands for.

use vstd::prelude::*;

use crate::token::Operator;

verus! {

/// What can stand in one of the three places of a [`Block`].
#[derive(Debug, PartialEq, Eq)]
pub enum Value {
    /// The text of a number.
    Val(String),
    /// An operator.
    Op(Operator),
    /// An operation whose result is the value.
    Block(Box<Block>),
}

/// One binary operation: its two operands and its operator.
///
/// A block is well formed when its operator is an operator and neither
/// operand is one; see [`BlockView::well_formed`].
#[derive(Debug, PartialEq, Eq)]
pub struct Block {
    pub lhs: Value,
    pub rhs: Value,
    pub operator: Value,
}

/// The mathematical value of a [`Value`].
pub ghost enum ValueView {
    Val(Seq<char>),
    Op(Operator),
    Block(Box<BlockView>),
}

/// The mathematical value of a [`Block`].
pub ghost struct BlockView {
    pub lhs: ValueView,
    pub rhs: ValueView,
    pub operator: ValueView,
}

/// The mathematical value of `value`: the same tree, each number's text as a
/// sequence of characters.
pub open spec fn value_view(value: &Value) -> ValueView
    decreases value,
{
    match value {
        Value::Val(text) => ValueView::Val(text@),
        Value::Op(operator) => ValueView::Op(*operator),
        Value::Block(block) => ValueView::Block(Box::new(block_view(block))),
    }
}

/// The mathematical value of `block`.
pub open spec fn block_view(block: &Block) -> BlockView
    decreases block,
{
    BlockView {
        lhs: value_view(&block.lhs),
        rhs: value_view(&block.rhs),
        operator: value_view(&block.operator),
    }
}

impl View for Value {
    type V = ValueView;

    open spec fn view(&self) -> ValueView {
        value_view(self)
    }
}

impl View for Block {
    type V = BlockView;

    open spec fn view(&self) -> BlockView {
        block_view(self)
    }
}

impl ValueView {
    /// Whether the value can be an operand: a number, or a well-formed
    /// operation.
    pub open spec fn is_operand(self) -> bool
        decreases self,
    {
        match self {
            ValueView::Val(_) => true,
            ValueView::Op(_) => false,
            ValueView::Block(block) => block.well_formed(),
        }
    }

    /// How many operations the value holds.
    pub open spec fn operations(self) -> nat
        decreases self,
    {
        match self {
            ValueView::Val(_) => 0,
            ValueView::Op(_) => 0,
            ValueView::Block(block) => block.operations(),
        }
    }
}

impl BlockView {
    /// Whether the operator is an operator and both operands are operands,
    /// here and in every operation below.
    pub open spec fn well_formed(self) -> bool
        decreases self,
    {
        &&& self.lhs.is_operand()
        &&& self.rhs.is_operand()
        &&& self.operator is Op
    }

    /// How many operations the block holds, itself included.
    pub open spec fn operations(self) -> nat
        decreases self,
    {
        1 + self.lhs.operations() + self.rhs.operations()
    }
}

impl Block {
    /// A block of the three given parts. It is well formed exactly where
    /// `lhs` and `rhs` are operands and `operator` is an operator.
    pub fn new(lhs: Value, rhs: Value, operator: Value) -> (block: Block)
        ensures
            block.lhs == lhs,
            block.rhs == rhs,
            block.operator == operator,
            block@ == (BlockView { lhs: lhs@, rhs: rhs@, operator: operator@ }),
            block@.well_formed() <==> lhs@.is_operand() && rhs@.is_operand() && operator@ is Op,
    {
        Block { lhs, rhs, operator }
    }
}

} // verus!
