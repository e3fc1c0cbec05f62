//! Precedence: what the calculator makes of operators in a row. Products
//! are worked out before sums, and operators of one rank from left to right.
//!
//! The first part states this of three numbers and two operators, the
//! second of every expression without brackets and signs.

use vstd::prelude::*;

use crate::error::{EvalError, LexError};
use crate::evaluation::Arithmetic;
use crate::expression;
use crate::lexer::{lemma_spelling_reads_back, lex, number_text, spelling};
use crate::normalizer::{followed_by_product, group_closes, normalize, normalize_from};
use crate::reducer::{
    group_end, group_operand, group_tokens, left_operand, lemma_operand_ends, reduce, reduce_from,
    right_operand,
};
use crate::token::{Brackets, Operator, TokenView};
use crate::tree::{BlockView, ValueView};

verus! {

/// The operation `operator` on the operands `lhs` and `rhs`.
pub open spec fn operation(lhs: ValueView, operator: Operator, rhs: ValueView) -> BlockView {
    BlockView { lhs, rhs, operator: ValueView::Op(operator) }
}

/// An operation as an operand.
pub open spec fn nested(block: BlockView) -> ValueView {
    ValueView::Block(Box::new(block))
}

/// The tokens of `a first b second c`, the three being numbers.
pub open spec fn chain(
    a: Seq<char>,
    first: Operator,
    b: Seq<char>,
    second: Operator,
    c: Seq<char>,
) -> Seq<TokenView> {
    seq![
        TokenView::Value(a),
        TokenView::Operator(first),
        TokenView::Value(b),
        TokenView::Operator(second),
        TokenView::Value(c),
    ]
}

/// The tokens of `(a first b) second c`.
pub open spec fn left_grouped(
    a: Seq<char>,
    first: Operator,
    b: Seq<char>,
    second: Operator,
    c: Seq<char>,
) -> Seq<TokenView> {
    seq![
        TokenView::Brackets(Brackets::Start),
        TokenView::Value(a),
        TokenView::Operator(first),
        TokenView::Value(b),
        TokenView::Brackets(Brackets::End),
        TokenView::Operator(second),
        TokenView::Value(c),
    ]
}

/// The tokens of `a first (b second c)`.
pub open spec fn right_grouped(
    a: Seq<char>,
    first: Operator,
    b: Seq<char>,
    second: Operator,
    c: Seq<char>,
) -> Seq<TokenView> {
    seq![
        TokenView::Value(a),
        TokenView::Operator(first),
        TokenView::Brackets(Brackets::Start),
        TokenView::Value(b),
        TokenView::Operator(second),
        TokenView::Value(c),
        TokenView::Brackets(Brackets::End),
    ]
}

/// The tree in which `a first b` is worked out and then `second` with `c`.
pub open spec fn left_tree(
    a: Seq<char>,
    first: Operator,
    b: Seq<char>,
    second: Operator,
    c: Seq<char>,
) -> BlockView {
    operation(
        nested(operation(ValueView::Val(a), first, ValueView::Val(b))),
        second,
        ValueView::Val(c),
    )
}

/// The tree in which `b second c` is worked out and then `first` with `a`
/// on its left.
pub open spec fn right_tree(
    a: Seq<char>,
    first: Operator,
    b: Seq<char>,
    second: Operator,
    c: Seq<char>,
) -> BlockView {
    operation(
        ValueView::Val(a),
        first,
        nested(operation(ValueView::Val(b), second, ValueView::Val(c))),
    )
}

/// The reducer knows no precedence: it takes two operators in a row from
/// left to right, whatever they are.
pub proof fn lemma_reduce_from_left(
    a: Seq<char>,
    first: Operator,
    b: Seq<char>,
    second: Operator,
    c: Seq<char>,
)
    ensures
        reduce(chain(a, first, b, second, c)) == Ok::<BlockView, EvalError>(
            left_tree(a, first, b, second, c),
        ),
{
    reveal_with_fuel(reduce_from, 4);
    reveal_with_fuel(left_operand, 2);
    reveal_with_fuel(right_operand, 2);
}

/// Brackets around the first two operands give the tree that works them out
/// first.
pub proof fn lemma_reduce_left_grouped(
    a: Seq<char>,
    first: Operator,
    b: Seq<char>,
    second: Operator,
    c: Seq<char>,
)
    ensures
        reduce(left_grouped(a, first, b, second, c)) == Ok::<BlockView, EvalError>(
            left_tree(a, first, b, second, c),
        ),
{
    let tokens = left_grouped(a, first, b, second, c);
    reveal_with_fuel(group_end, 6);
    assert(group_end(tokens, 1, 0) == 4);
    let inner = tokens.subrange(1, 4);
    assert(inner =~= seq![
        TokenView::Value(a),
        TokenView::Operator(first),
        TokenView::Value(b),
    ]);
    assert(reduce_from(inner, 0, None) == Ok::<BlockView, EvalError>(
        operation(ValueView::Val(a), first, ValueView::Val(b)),
    )) by {
        reveal_with_fuel(reduce_from, 3);
        reveal_with_fuel(left_operand, 2);
        reveal_with_fuel(right_operand, 2);
    }
    assert(group_operand(tokens, 0) == Ok::<(ValueView, int), EvalError>(
        (nested(operation(ValueView::Val(a), first, ValueView::Val(b))), 5),
    ));
    reveal_with_fuel(reduce_from, 3);
    reveal_with_fuel(left_operand, 2);
    reveal_with_fuel(right_operand, 2);
}

/// Brackets around the last two operands give the tree that works them out
/// first.
pub proof fn lemma_reduce_right_grouped(
    a: Seq<char>,
    first: Operator,
    b: Seq<char>,
    second: Operator,
    c: Seq<char>,
)
    ensures
        reduce(right_grouped(a, first, b, second, c)) == Ok::<BlockView, EvalError>(
            right_tree(a, first, b, second, c),
        ),
{
    let tokens = right_grouped(a, first, b, second, c);
    reveal_with_fuel(group_end, 6);
    assert(group_end(tokens, 3, 0) == 6);
    let inner = tokens.subrange(3, 6);
    assert(inner =~= seq![
        TokenView::Value(b),
        TokenView::Operator(second),
        TokenView::Value(c),
    ]);
    assert(reduce_from(inner, 0, None) == Ok::<BlockView, EvalError>(
        operation(ValueView::Val(b), second, ValueView::Val(c)),
    )) by {
        reveal_with_fuel(reduce_from, 3);
        reveal_with_fuel(left_operand, 2);
        reveal_with_fuel(right_operand, 2);
    }
    assert(group_operand(tokens, 2) == Ok::<(ValueView, int), EvalError>(
        (nested(operation(ValueView::Val(b), second, ValueView::Val(c))), 7),
    ));
    reveal_with_fuel(reduce_from, 3);
    reveal_with_fuel(left_operand, 2);
    reveal_with_fuel(right_operand, 2);
}

/// A product before a sum is worked out first: `a * b + c`, and the same
/// with `/` and with `-`, has the tree of `(a * b) + c`. Normalizing writes
/// those brackets, and the reducer reads them.
pub proof fn lemma_product_then_sum(
    a: Seq<char>,
    first: Operator,
    b: Seq<char>,
    second: Operator,
    c: Seq<char>,
)
    requires
        first.is_product(),
        !second.is_product(),
    ensures
        normalize(chain(a, first, b, second, c)) == left_grouped(a, first, b, second, c),
        reduce(normalize(chain(a, first, b, second, c))) == reduce(
            left_grouped(a, first, b, second, c),
        ),
        reduce(normalize(chain(a, first, b, second, c))) == Ok::<BlockView, EvalError>(
            left_tree(a, first, b, second, c),
        ),
{
    let tokens = chain(a, first, b, second, c);
    assert(normalize(tokens) =~= left_grouped(a, first, b, second, c)) by {
        reveal_with_fuel(normalize_from, 7);
        reveal_with_fuel(group_closes, 7);
    }
    lemma_reduce_left_grouped(a, first, b, second, c);
}

/// A product after a sum is worked out first: `a + b * c`, and the same
/// with `-` and with `/`, has the tree of `a + (b * c)`.
pub proof fn lemma_sum_then_product(
    a: Seq<char>,
    first: Operator,
    b: Seq<char>,
    second: Operator,
    c: Seq<char>,
)
    requires
        !first.is_product(),
        second.is_product(),
    ensures
        normalize(chain(a, first, b, second, c)) == right_grouped(a, first, b, second, c),
        reduce(normalize(chain(a, first, b, second, c))) == reduce(
            right_grouped(a, first, b, second, c),
        ),
        reduce(normalize(chain(a, first, b, second, c))) == Ok::<BlockView, EvalError>(
            right_tree(a, first, b, second, c),
        ),
{
    let tokens = chain(a, first, b, second, c);
    assert(normalize(tokens) =~= right_grouped(a, first, b, second, c)) by {
        reveal_with_fuel(normalize_from, 7);
        reveal_with_fuel(group_closes, 7);
    }
    lemma_reduce_right_grouped(a, first, b, second, c);
}

/// Sums are worked out from left to right: `a - b + c`, and the same with
/// any two of `+` and `-`, has the tree of `(a - b) + c`, which is not the
/// tree of `a - (b + c)`.
pub proof fn lemma_sums_from_left(
    a: Seq<char>,
    first: Operator,
    b: Seq<char>,
    second: Operator,
    c: Seq<char>,
)
    requires
        !first.is_product(),
        !second.is_product(),
    ensures
        normalize(chain(a, first, b, second, c)) == chain(a, first, b, second, c),
        reduce(normalize(chain(a, first, b, second, c))) == reduce(
            left_grouped(a, first, b, second, c),
        ),
        reduce(normalize(chain(a, first, b, second, c))) == Ok::<BlockView, EvalError>(
            left_tree(a, first, b, second, c),
        ),
        left_tree(a, first, b, second, c) != right_tree(a, first, b, second, c),
{
    let tokens = chain(a, first, b, second, c);
    assert(normalize(tokens) =~= tokens) by {
        reveal_with_fuel(normalize_from, 7);
        reveal_with_fuel(group_closes, 7);
    }
    lemma_reduce_from_left(a, first, b, second, c);
    lemma_reduce_left_grouped(a, first, b, second, c);
}

/// What `(a first b) second c` comes to under `arithmetic`: `first` on `a`
/// and `b`, then `second` on the result and `c`.
pub open spec fn left_value(
    a: Seq<char>,
    first: Operator,
    b: Seq<char>,
    second: Operator,
    c: Seq<char>,
    arithmetic: Arithmetic,
) -> Result<Seq<char>, EvalError> {
    match arithmetic(first, a, b) {
        None => Err(EvalError::InvalidNumber),
        Some(inner) => match arithmetic(second, inner, c) {
            None => Err(EvalError::InvalidNumber),
            Some(value) => Ok(value),
        },
    }
}

/// What `a first (b second c)` comes to under `arithmetic`: `second` on `b`
/// and `c`, then `first` on `a` and the result.
pub open spec fn right_value(
    a: Seq<char>,
    first: Operator,
    b: Seq<char>,
    second: Operator,
    c: Seq<char>,
    arithmetic: Arithmetic,
) -> Result<Seq<char>, EvalError> {
    match arithmetic(second, b, c) {
        None => Err(EvalError::InvalidNumber),
        Some(inner) => match arithmetic(first, a, inner) {
            None => Err(EvalError::InvalidNumber),
            Some(value) => Ok(value),
        },
    }
}

/// The two trees have the values that their names say, under any
/// arithmetic.
pub proof fn lemma_tree_values(
    a: Seq<char>,
    first: Operator,
    b: Seq<char>,
    second: Operator,
    c: Seq<char>,
    arithmetic: Arithmetic,
)
    ensures
        left_tree(a, first, b, second, c).value(arithmetic) == left_value(
            a,
            first,
            b,
            second,
            c,
            arithmetic,
        ),
        right_tree(a, first, b, second, c).value(arithmetic) == right_value(
            a,
            first,
            b,
            second,
            c,
            arithmetic,
        ),
{
    reveal_with_fuel(BlockView::value, 3);
    reveal_with_fuel(ValueView::value, 3);
}

/// A run of products with nothing around it becomes one group with nothing
/// around it, and a group alone is no operation: the reducer misses its
/// operator.
pub proof fn lemma_products_alone(
    a: Seq<char>,
    first: Operator,
    b: Seq<char>,
    second: Operator,
    c: Seq<char>,
)
    requires
        first.is_product(),
        second.is_product(),
    ensures
        normalize(chain(a, first, b, second, c)) == seq![TokenView::Brackets(Brackets::Start)]
            + chain(a, first, b, second, c) + seq![TokenView::Brackets(Brackets::End)],
        reduce(normalize(chain(a, first, b, second, c))) == Err::<BlockView, EvalError>(
            EvalError::ExpectedOperator,
        ),
{
    let tokens = chain(a, first, b, second, c);
    let grouped = seq![TokenView::Brackets(Brackets::Start)] + tokens + seq![
        TokenView::Brackets(Brackets::End),
    ];
    assert(normalize(tokens) =~= grouped) by {
        reveal_with_fuel(normalize_from, 7);
        reveal_with_fuel(group_closes, 7);
    }
    reveal_with_fuel(group_end, 8);
    assert(group_end(grouped, 1, 0) == 6);
    assert(grouped.subrange(1, 6) =~= tokens);
    lemma_reduce_from_left(a, first, b, second, c);
    assert(group_operand(grouped, 0) == Ok::<(ValueView, int), EvalError>(
        (nested(left_tree(a, first, b, second, c)), 7),
    ));
    reveal_with_fuel(reduce_from, 2);
    reveal_with_fuel(left_operand, 2);
}

/// Precedence, for every text of three numbers and two operators, however
/// it is spaced.
///
/// Where the tokens of `text` are `a first b second c` and the two
/// operators are not both products, the text stands for the tree that works
/// the product out first, and two sums from left to right: the tree of
/// `a first (b second c)` where only `second` is a product, and the tree of
/// `(a first b) second c` otherwise. Under any arithmetic the tree has the
/// value that these brackets say.
pub proof fn lemma_expression_precedence(
    text: Seq<char>,
    a: Seq<char>,
    first: Operator,
    b: Seq<char>,
    second: Operator,
    c: Seq<char>,
    arithmetic: Arithmetic,
)
    requires
        lex(text) == Ok::<Seq<TokenView>, LexError>(chain(a, first, b, second, c)),
        !(first.is_product() && second.is_product()),
    ensures
        !first.is_product() && second.is_product() ==> {
            &&& expression(text) == Ok::<BlockView, Seq<char>>(right_tree(a, first, b, second, c))
            &&& expression(text)->Ok_0.value(arithmetic) == right_value(
                a,
                first,
                b,
                second,
                c,
                arithmetic,
            )
        },
        !second.is_product() ==> {
            &&& expression(text) == Ok::<BlockView, Seq<char>>(left_tree(a, first, b, second, c))
            &&& expression(text)->Ok_0.value(arithmetic) == left_value(
                a,
                first,
                b,
                second,
                c,
                arithmetic,
            )
        },
{
    lemma_tree_values(a, first, b, second, c, arithmetic);
    if !second.is_product() {
        if first.is_product() {
            lemma_product_then_sum(a, first, b, second, c);
        } else {
            lemma_sums_from_left(a, first, b, second, c);
        }
    } else {
        lemma_sum_then_product(a, first, b, second, c);
    }
}

/// Where a group ends depends on the tokens from its start on only: with
/// tokens put in front, it ends as many positions later.
proof fn lemma_group_end_after(before: Seq<TokenView>, tokens: Seq<TokenView>, from: int, depth: nat)
    requires
        0 <= from <= tokens.len(),
    ensures
        group_end(before + tokens, before.len() + from, depth) == before.len() + group_end(
            tokens,
            from,
            depth,
        ),
    decreases tokens.len() - from,
{
    let all = before + tokens;
    if from < tokens.len() {
        assert(all[before.len() + from] == tokens[from]);
        lemma_group_end_after(before, tokens, from + 1, depth + 1);
        lemma_group_end_after(before, tokens, from + 1, depth);
        if depth > 0 {
            lemma_group_end_after(before, tokens, from + 1, (depth - 1) as nat);
        }
    }
}

/// An operand and the position after it, the position moved on by `by`.
spec fn moved(operand: Result<(ValueView, int), EvalError>, by: int) -> Result<
    (ValueView, int),
    EvalError,
> {
    match operand {
        Ok((value, next)) => Ok((value, next + by)),
        Err(e) => Err(e),
    }
}

/// What an operand is depends on the tokens from its start on only.
proof fn lemma_operand_after(before: Seq<TokenView>, tokens: Seq<TokenView>, at: int)
    requires
        0 <= at < tokens.len(),
    ensures
        left_operand(before + tokens, before.len() + at) == moved(
            left_operand(tokens, at),
            before.len() as int,
        ),
        right_operand(before + tokens, before.len() + at) == moved(
            right_operand(tokens, at),
            before.len() as int,
        ),
{
    let all = before + tokens;
    let place = before.len() + at;
    assert(all[place] == tokens[at]);
    if at + 1 < tokens.len() {
        assert(all[place + 1] == tokens[at + 1]);
    }
    if tokens[at] == TokenView::Brackets(Brackets::Start) {
        lemma_group_end_after(before, tokens, at + 1, 0);
        crate::reducer::lemma_group_end(tokens, at + 1, 0);
        assert(group_tokens(all, place) =~= group_tokens(tokens, at));
        assert(group_operand(all, place) == moved(group_operand(tokens, at), before.len() as int));
    }
}

/// What the reducer makes of the tokens from a position on depends on those
/// tokens only, and on what was read before.
proof fn lemma_reduce_after(
    before: Seq<TokenView>,
    tokens: Seq<TokenView>,
    index: int,
    done: Option<BlockView>,
)
    requires
        0 <= index <= tokens.len(),
    ensures
        reduce_from(before + tokens, before.len() + index, done) == reduce_from(
            tokens,
            index,
            done,
        ),
    decreases tokens.len() - index,
{
    let all = before + tokens;
    let shift = before.len() as int;
    if index < tokens.len() {
        assert(all[shift + index] == tokens[index]);
        lemma_operand_after(before, tokens, index);
        lemma_operand_ends(tokens, index);
        let left = match done {
            Some(block) => Ok((nested(block), index)),
            None => left_operand(tokens, index),
        };
        if let Ok((lhs, at)) = left {
            if index <= at < tokens.len() {
                assert(all[shift + at] == tokens[at]);
                if let TokenView::Operator(operator) = tokens[at] {
                    if at + 1 < tokens.len() {
                        lemma_operand_after(before, tokens, at + 1);
                    }
                    lemma_operand_ends(tokens, at + 1);
                    if let Ok((rhs, next)) = right_operand(tokens, at + 1) {
                        lemma_reduce_after(
                            before,
                            tokens,
                            next,
                            Some(operation(lhs, operator, rhs)),
                        );
                    }
                }
            }
        }
    }
}

/// Whether `tokens` are numbers and operators in turn, a number first and
/// last: an expression without brackets and without signs.
pub open spec fn flat(tokens: Seq<TokenView>) -> bool {
    &&& tokens.len() % 2 == 1
    &&& forall|i: int|
        #![trigger tokens[i]]
        0 <= i < tokens.len() ==> if i % 2 == 0 {
            tokens[i] is Value
        } else {
            tokens[i] is Operator
        }
}

/// The number at position `at`, as an operand.
pub open spec fn number_at(tokens: Seq<TokenView>, at: int) -> ValueView {
    ValueView::Val(tokens[at]->Value_0)
}

/// The operator at position `at`.
pub open spec fn operator_at(tokens: Seq<TokenView>, at: int) -> Operator {
    tokens[at]->Operator_0
}

/// What the numbers from position `from` to position `to` come to when
/// every operator between them is taken in turn, from left to right: the
/// number itself where `to` is `from`, else the last operator on what comes
/// before it and the last number.
pub open spec fn left_chain(tokens: Seq<TokenView>, from: int, to: int) -> ValueView
    decreases to - from,
{
    if to < from + 2 {
        number_at(tokens, from)
    } else {
        nested(
            operation(
                left_chain(tokens, from, to - 2),
                operator_at(tokens, to - 1),
                number_at(tokens, to),
            ),
        )
    }
}

/// A chain is made of the tokens between its ends only.
proof fn lemma_left_chain_within(
    tokens: Seq<TokenView>,
    part: Seq<TokenView>,
    start: int,
    from: int,
    to: int,
)
    requires
        0 <= start,
        0 <= from <= to < part.len(),
        start + part.len() <= tokens.len(),
        part == tokens.subrange(start, start + part.len()),
    ensures
        left_chain(part, from, to) == left_chain(tokens, start + from, start + to),
    decreases to - from,
{
    assert(part[from] == tokens[start + from]);
    if to >= from + 2 {
        assert(part[to] == tokens[start + to]);
        assert(part[to - 1] == tokens[start + to - 1]);
        lemma_left_chain_within(tokens, part, start, from, to - 2);
    }
}

/// Once the reducer has read a flat expression up to an operator, it goes
/// on as it began: from left to right.
proof fn lemma_reduce_flat_from(tokens: Seq<TokenView>, index: int, done: BlockView)
    requires
        flat(tokens),
        3 <= index <= tokens.len(),
        index % 2 == 1,
        nested(done) == left_chain(tokens, 0, index - 1),
    ensures
        reduce_from(tokens, index, Some(done)) matches Ok(block) && nested(block) == left_chain(
            tokens,
            0,
            tokens.len() - 1,
        ),
    decreases tokens.len() - index,
{
    if index < tokens.len() {
        assert(tokens[index] is Operator);
        assert(tokens[index + 1] is Value);
        let next = operation(nested(done), operator_at(tokens, index), number_at(tokens, index + 1));
        assert(nested(next) == left_chain(tokens, 0, index + 1));
        assert(right_operand(tokens, index + 1) == Ok::<(ValueView, int), EvalError>(
            (number_at(tokens, index + 1), index + 2),
        ));
        assert(reduce_from(tokens, index, Some(done)) == reduce_from(
            tokens,
            index + 2,
            Some(next),
        ));
        lemma_reduce_flat_from(tokens, index + 2, next);
    } else {
        assert(reduce_from(tokens, index, Some(done)) == Ok::<BlockView, EvalError>(done));
    }
}

/// The reducer takes a flat expression from left to right, whatever its
/// operators are: what it builds of three tokens or more is the chain of
/// all of them.
pub proof fn lemma_reduce_flat(tokens: Seq<TokenView>)
    requires
        flat(tokens),
        tokens.len() >= 3,
    ensures
        reduce(tokens) matches Ok(block) && nested(block) == left_chain(
            tokens,
            0,
            tokens.len() - 1,
        ),
{
    assert(tokens[0] is Value);
    assert(tokens[1] is Operator);
    assert(tokens[2] is Value);
    let first = operation(number_at(tokens, 0), operator_at(tokens, 1), number_at(tokens, 2));
    assert(left_chain(tokens, 0, 2) == nested(first)) by {
        reveal_with_fuel(left_chain, 2);
    }
    assert(left_operand(tokens, 0) == Ok::<(ValueView, int), EvalError>(
        (number_at(tokens, 0), 1),
    ));
    assert(right_operand(tokens, 2) == Ok::<(ValueView, int), EvalError>(
        (number_at(tokens, 2), 3),
    ));
    assert(reduce_from(tokens, 0, None) == reduce_from(tokens, 3, Some(first)));
    lemma_reduce_flat_from(tokens, 3, first);
}

/// Where the product ends that starts with the number at position `at`: the
/// position of its last number, the first one from `at` on that no `*` or
/// `/` with a number behind it follows.
pub open spec fn product_end(tokens: Seq<TokenView>, at: int) -> int
    decreases tokens.len() - at,
{
    if followed_by_product(tokens, at) && at + 2 < tokens.len() {
        product_end(tokens, at + 2)
    } else {
        at
    }
}

/// What is left of a sum from position `at` on, where `done` is what stands
/// before: at the end `done` itself, else the operator at `at` on `done` and
/// the product that follows, and then the rest in the same way.
pub open spec fn sum_from(tokens: Seq<TokenView>, at: int, done: ValueView) -> ValueView
    decreases tokens.len() - at,
{
    if at < 0 || at + 1 >= tokens.len() {
        done
    } else {
        let end = product_end(tokens, at + 1);
        proof {
            lemma_product_end_bounds(tokens, at + 1);
        }
        sum_from(
            tokens,
            end + 1,
            nested(operation(done, operator_at(tokens, at), left_chain(tokens, at + 1, end))),
        )
    }
}

/// What a flat expression stands for by the rules of arithmetic: a sum of
/// products, every product worked out from left to right and before the
/// sum, and the sum from left to right.
pub open spec fn precedence_tree(tokens: Seq<TokenView>) -> ValueView {
    let end = product_end(tokens, 0);
    sum_from(tokens, end + 1, left_chain(tokens, 0, end))
}

/// A product ends at or after its start and, where it starts within the
/// tokens, within them.
pub proof fn lemma_product_end_bounds(tokens: Seq<TokenView>, at: int)
    ensures
        at <= product_end(tokens, at),
        at < tokens.len() ==> product_end(tokens, at) < tokens.len(),
    decreases tokens.len() - at,
{
    if followed_by_product(tokens, at) && at + 2 < tokens.len() {
        lemma_product_end_bounds(tokens, at + 2);
    }
}

/// In a flat expression a product ends at a number, which no `*` or `/`
/// follows, and holds no `+` and no `-`.
proof fn lemma_product_end_flat(tokens: Seq<TokenView>, at: int)
    requires
        flat(tokens),
        0 <= at < tokens.len(),
        at % 2 == 0,
    ensures
        at <= product_end(tokens, at) < tokens.len(),
        product_end(tokens, at) % 2 == 0,
        !followed_by_product(tokens, product_end(tokens, at)),
        forall|i: int|
            at <= i < product_end(tokens, at) && i % 2 == 1 ==> (#[trigger] tokens[i]).is_product(),
    decreases tokens.len() - at,
{
    if followed_by_product(tokens, at) {
        assert(tokens[at + 1] is Operator);
        lemma_product_end_flat(tokens, at + 2);
    }
}

/// The tokens that a product of a flat expression becomes: the number
/// itself where the product is one number, else the product in brackets.
spec fn item(tokens: Seq<TokenView>, at: int) -> Seq<TokenView> {
    let end = product_end(tokens, at);
    if end == at {
        seq![tokens[at]]
    } else {
        seq![TokenView::Brackets(Brackets::Start)] + tokens.subrange(at, end + 1) + seq![
            TokenView::Brackets(Brackets::End),
        ]
    }
}

/// A flat expression holds no bracket, so every group in it gets closed.
proof fn lemma_flat_closes(tokens: Seq<TokenView>, from: int)
    requires
        flat(tokens),
        0 <= from,
    ensures
        group_closes(tokens, from),
    decreases tokens.len() - from,
{
    if from < tokens.len() {
        assert(!(tokens[from] is Brackets));
        lemma_flat_closes(tokens, from + 1);
    }
}

/// Inside a group, normalizing a flat expression copies the rest of the
/// product and closes the group after it.
proof fn lemma_normalize_product(tokens: Seq<TokenView>, at: int)
    requires
        flat(tokens),
        0 <= at < tokens.len(),
        at % 2 == 0,
    ensures
        normalize_from(tokens, at, true) == tokens.subrange(at, product_end(tokens, at) + 1)
            + seq![TokenView::Brackets(Brackets::End)] + normalize_from(
            tokens,
            product_end(tokens, at) + 1,
            false,
        ),
    decreases tokens.len() - at,
{
    let end = product_end(tokens, at);
    let close = seq![TokenView::Brackets(Brackets::End)];
    let rest = normalize_from(tokens, end + 1, false);
    lemma_product_end_flat(tokens, at);
    assert(tokens[at] is Value);
    if followed_by_product(tokens, at) {
        assert(tokens[at + 1] is Operator);
        lemma_normalize_product(tokens, at + 2);
        assert(normalize_from(tokens, at + 1, true) == seq![tokens[at + 1]] + normalize_from(
            tokens,
            at + 2,
            true,
        ));
        assert(seq![tokens[at]] + (seq![tokens[at + 1]] + (tokens.subrange(at + 2, end + 1) + close
            + rest)) =~= tokens.subrange(at, end + 1) + close + rest);
    } else {
        assert(seq![tokens[at], TokenView::Brackets(Brackets::End)] + rest =~= tokens.subrange(
            at,
            end + 1,
        ) + close + rest);
    }
}

/// Outside a group, normalizing a flat expression turns the product that
/// starts at `at` into its item and goes on after it.
proof fn lemma_normalize_item(tokens: Seq<TokenView>, at: int)
    requires
        flat(tokens),
        0 <= at < tokens.len(),
        at % 2 == 0,
    ensures
        normalize_from(tokens, at, false) == item(tokens, at) + normalize_from(
            tokens,
            product_end(tokens, at) + 1,
            false,
        ),
{
    let end = product_end(tokens, at);
    let open = seq![TokenView::Brackets(Brackets::Start)];
    let close = seq![TokenView::Brackets(Brackets::End)];
    let rest = normalize_from(tokens, end + 1, false);
    lemma_product_end_flat(tokens, at);
    assert(tokens[at] is Value);
    if followed_by_product(tokens, at) {
        assert(tokens[at + 1] is Operator);
        lemma_flat_closes(tokens, at + 1);
        lemma_normalize_product(tokens, at + 2);
        lemma_product_end_bounds(tokens, at + 2);
        assert(normalize_from(tokens, at + 1, true) == seq![tokens[at + 1]] + normalize_from(
            tokens,
            at + 2,
            true,
        ));
        assert(seq![TokenView::Brackets(Brackets::Start), tokens[at]] + (seq![tokens[at + 1]] + (
        tokens.subrange(at + 2, end + 1) + close + rest)) =~= open + tokens.subrange(at, end + 1)
            + close + rest);
    }
}

/// Behind its opening bracket, a product of a flat expression ends at its
/// closing bracket.
proof fn lemma_item_end(run: Seq<TokenView>, rest: Seq<TokenView>, from: int)
    requires
        forall|i: int| 0 <= i < run.len() ==> !(#[trigger] run[i] is Brackets),
        0 <= from <= run.len(),
    ensures
        group_end(
            seq![TokenView::Brackets(Brackets::Start)] + run + seq![
                TokenView::Brackets(Brackets::End),
            ] + rest,
            1 + from,
            0,
        ) == run.len() + 1,
    decreases run.len() - from,
{
    let all = seq![TokenView::Brackets(Brackets::Start)] + run + seq![
        TokenView::Brackets(Brackets::End),
    ] + rest;
    if from < run.len() {
        assert(all[1 + from] == run[from]);
        lemma_item_end(run, rest, from + 1);
    } else {
        assert(all[1 + from] == TokenView::Brackets(Brackets::End));
    }
}

/// The item of a product is read as one operand: the product worked out
/// from left to right.
proof fn lemma_item_operand(tokens: Seq<TokenView>, at: int, rest: Seq<TokenView>)
    requires
        flat(tokens),
        0 <= at < tokens.len(),
        at % 2 == 0,
    ensures
        left_operand(item(tokens, at) + rest, 0) == Ok::<(ValueView, int), EvalError>(
            (left_chain(tokens, at, product_end(tokens, at)), item(tokens, at).len() as int),
        ),
        right_operand(item(tokens, at) + rest, 0) == left_operand(item(tokens, at) + rest, 0),
{
    let end = product_end(tokens, at);
    let all = item(tokens, at) + rest;
    lemma_product_end_flat(tokens, at);
    assert(tokens[at] is Value);
    if end == at {
        assert(all[0] == tokens[at]);
    } else {
        let run = tokens.subrange(at, end + 1);
        assert(all[0] == TokenView::Brackets(Brackets::Start));
        assert(all =~= seq![TokenView::Brackets(Brackets::Start)] + run + seq![
            TokenView::Brackets(Brackets::End),
        ] + rest);
        assert forall|i: int| 0 <= i < run.len() implies !(#[trigger] run[i] is Brackets) by {
            assert(run[i] == tokens[at + i]);
        }
        lemma_item_end(run, rest, 0);
        assert(group_tokens(all, 0) =~= run);
        assert(flat(run)) by {
            assert forall|i: int| 0 <= i < run.len() implies if i % 2 == 0 {
                #[trigger] run[i] is Value
            } else {
                run[i] is Operator
            } by {
                assert(run[i] == tokens[at + i]);
            }
        }
        lemma_reduce_flat(run);
        lemma_left_chain_within(tokens, run, at, 0, end - at);
        assert(group_operand(all, 0) == Ok::<(ValueView, int), EvalError>(
            (left_chain(tokens, at, end), (run.len() + 2) as int),
        ));
    }
}

/// Reading goes on after an operation: behind what was read, an operator
/// and an operand make the next operation, whose left operand is what was
/// read, and reading goes on behind them.
proof fn lemma_read_next(
    operator: Operator,
    second: Seq<TokenView>,
    tail: Seq<TokenView>,
    done: BlockView,
    right: ValueView,
)
    requires
        second.len() > 0,
        right_operand(second + tail, 0) == Ok::<(ValueView, int), EvalError>(
            (right, second.len() as int),
        ),
    ensures
        reduce_from(seq![TokenView::Operator(operator)] + (second + tail), 0, Some(done))
            == reduce_from(tail, 0, Some(operation(nested(done), operator, right))),
{
    let sign = seq![TokenView::Operator(operator)];
    let all = sign + (second + tail);
    let next = operation(nested(done), operator, right);
    assert(all[0] == TokenView::Operator(operator));
    lemma_operand_after(sign, second + tail, 0);
    assert(right_operand(all, 1) == Ok::<(ValueView, int), EvalError>(
        (right, 1 + second.len() as int),
    ));
    assert(reduce_from(all, 0, Some(done)) == reduce_from(
        all,
        1 + second.len() as int,
        Some(next),
    ));
    assert(all =~= (sign + second) + tail);
    lemma_reduce_after(sign + second, tail, 0, Some(next));
}

/// Reading begins with an operation: an operand, an operator and an operand
/// make the first operation, and reading goes on behind them.
proof fn lemma_read_first(
    first: Seq<TokenView>,
    operator: Operator,
    second: Seq<TokenView>,
    tail: Seq<TokenView>,
    left: ValueView,
    right: ValueView,
)
    requires
        first.len() > 0,
        second.len() > 0,
        left_operand(first + (seq![TokenView::Operator(operator)] + (second + tail)), 0) == Ok::<
            (ValueView, int),
            EvalError,
        >((left, first.len() as int)),
        right_operand(second + tail, 0) == Ok::<(ValueView, int), EvalError>(
            (right, second.len() as int),
        ),
    ensures
        reduce_from(first + (seq![TokenView::Operator(operator)] + (second + tail)), 0, None)
            == reduce_from(tail, 0, Some(operation(left, operator, right))),
{
    let sign = seq![TokenView::Operator(operator)];
    let all = first + (sign + (second + tail));
    let begun = operation(left, operator, right);
    let second_at = first.len() as int + 1;
    let tail_at = second_at + second.len() as int;
    assert(all[first.len() as int] == TokenView::Operator(operator));
    assert(all =~= (first + sign) + (second + tail));
    lemma_operand_after(first + sign, second + tail, 0);
    assert(right_operand(all, second_at) == Ok::<(ValueView, int), EvalError>((right, tail_at)));
    assert(reduce_from(all, 0, None) == reduce_from(all, tail_at, Some(begun)));
    assert(all =~= (first + sign + second) + tail);
    lemma_reduce_after(first + sign + second, tail, 0, Some(begun));
}

/// What normalizing makes of a flat expression from an operator between two
/// products on: the operator, the item of the product behind it, and the
/// rest.
proof fn lemma_normalize_sum(tokens: Seq<TokenView>, at: int)
    requires
        flat(tokens),
        0 < at < tokens.len(),
        at % 2 == 1,
    ensures
        normalize_from(tokens, at, false) == seq![TokenView::Operator(operator_at(tokens, at))] + (
        item(tokens, at + 1) + normalize_from(tokens, product_end(tokens, at + 1) + 1, false)),
        item(tokens, at + 1).len() > 0,
{
    assert(tokens[at] is Operator);
    lemma_normalize_item(tokens, at + 1);
}

/// The operator behind a product of a flat expression is `+` or `-`, or
/// the expression ends there.
proof fn lemma_sum_follows(tokens: Seq<TokenView>, at: int)
    requires
        flat(tokens),
        0 <= at < tokens.len(),
        at % 2 == 0,
    ensures
        product_end(tokens, at) + 1 < tokens.len() ==> tokens[product_end(tokens, at) + 1]
            is Operator && !tokens[product_end(tokens, at) + 1].is_product(),
        product_end(tokens, at) % 2 == 0,
        at <= product_end(tokens, at) < tokens.len(),
{
    let end = product_end(tokens, at);
    lemma_product_end_flat(tokens, at);
    if end + 1 < tokens.len() {
        assert(tokens[end + 1] is Operator);
        assert(followed_by_product(tokens, end) == tokens[end + 1].is_product());
    }
}

/// After the first operation of a flat expression, the reducer reads the
/// normalized rest as the rest of the sum.
proof fn lemma_reduce_sum(tokens: Seq<TokenView>, at: int, done: BlockView)
    requires
        flat(tokens),
        0 < at <= tokens.len(),
        at % 2 == 1,
        at < tokens.len() ==> !tokens[at].is_product(),
    ensures
        reduce_from(normalize_from(tokens, at, false), 0, Some(done)) matches Ok(block) && nested(
            block,
        ) == sum_from(tokens, at, nested(done)),
    decreases tokens.len() - at,
{
    if at < tokens.len() {
        let operator = operator_at(tokens, at);
        let end = product_end(tokens, at + 1);
        let product = item(tokens, at + 1);
        let rest = normalize_from(tokens, end + 1, false);
        let operand = left_chain(tokens, at + 1, end);
        lemma_normalize_sum(tokens, at);
        lemma_item_operand(tokens, at + 1, rest);
        lemma_read_next(operator, product, rest, done, operand);
        lemma_sum_follows(tokens, at + 1);
        lemma_reduce_sum(tokens, end + 1, operation(nested(done), operator, operand));
    } else {
        assert(normalize_from(tokens, at, false) =~= Seq::<TokenView>::empty());
    }
}

/// A flat expression that is one product, or one number, becomes one
/// operand, after which the reducer misses an operator.
proof fn lemma_reduce_alone(tokens: Seq<TokenView>)
    requires
        flat(tokens),
        product_end(tokens, 0) + 1 >= tokens.len(),
    ensures
        reduce(normalize(tokens)) == Err::<BlockView, EvalError>(EvalError::ExpectedOperator),
{
    let all = normalize(tokens);
    let end = product_end(tokens, 0);
    let first = item(tokens, 0);
    let rest = normalize_from(tokens, end + 1, false);
    lemma_product_end_flat(tokens, 0);
    lemma_normalize_item(tokens, 0);
    assert(rest =~= Seq::<TokenView>::empty());
    assert(all =~= first + rest);
    lemma_item_operand(tokens, 0, rest);
    assert(first.len() > 0);
    assert(all.len() == first.len());
}

/// The first operation of a flat expression with a sum in it is read off
/// the first two products, and the rest is read as the rest of the sum.
proof fn lemma_reduce_begun(tokens: Seq<TokenView>)
    requires
        flat(tokens),
        product_end(tokens, 0) + 1 < tokens.len(),
    ensures
        reduce(normalize(tokens)) matches Ok(block) && nested(block) == precedence_tree(tokens),
{
    let end = product_end(tokens, 0);
    let at = end + 1;
    let second_end = product_end(tokens, at + 1);
    let operator = operator_at(tokens, at);
    let first = item(tokens, 0);
    let second = item(tokens, at + 1);
    let tail = normalize_from(tokens, second_end + 1, false);
    let left = left_chain(tokens, 0, end);
    let right = left_chain(tokens, at + 1, second_end);
    lemma_sum_follows(tokens, 0);
    lemma_normalize_item(tokens, 0);
    lemma_normalize_sum(tokens, at);
    let rest = seq![TokenView::Operator(operator)] + (second + tail);
    assert(normalize(tokens) == first + rest);
    lemma_item_operand(tokens, 0, rest);
    lemma_item_operand(tokens, at + 1, tail);
    assert(first.len() > 0);
    lemma_read_first(first, operator, second, tail, left, right);
    lemma_sum_follows(tokens, at + 1);
    lemma_reduce_sum(tokens, second_end + 1, operation(left, operator, right));
}

/// Precedence, for every flat expression.
///
/// Where `tokens` are numbers and operators in turn, normalizing and
/// reducing give the tree that the rules of arithmetic ask for: products
/// before sums, and each from left to right. The one exception is an
/// expression that is one product, or one number, and nothing else: it
/// becomes one operand, and the reducer misses an operator.
pub proof fn lemma_flat_precedence(tokens: Seq<TokenView>)
    requires
        flat(tokens),
    ensures
        product_end(tokens, 0) + 1 >= tokens.len() ==> reduce(normalize(tokens)) == Err::<
            BlockView,
            EvalError,
        >(EvalError::ExpectedOperator),
        product_end(tokens, 0) + 1 < tokens.len() ==> (reduce(normalize(tokens)) matches Ok(block)
            && nested(block) == precedence_tree(tokens)),
{
    if product_end(tokens, 0) + 1 >= tokens.len() {
        lemma_reduce_alone(tokens);
    } else {
        lemma_reduce_begun(tokens);
    }
}

/// Precedence, for every text without brackets and signs, however it is
/// spaced: where the tokens of `text` are numbers and operators in turn and
/// not one product alone, the text stands for the tree that the rules of
/// arithmetic ask for.
pub proof fn lemma_expression_flat(text: Seq<char>, tokens: Seq<TokenView>)
    requires
        lex(text) == Ok::<Seq<TokenView>, LexError>(tokens),
        flat(tokens),
    ensures
        product_end(tokens, 0) + 1 >= tokens.len() ==> expression(text) == Err::<
            BlockView,
            Seq<char>,
        >(EvalError::ExpectedOperator.message_text()),
        product_end(tokens, 0) + 1 < tokens.len() ==> (expression(text) matches Ok(block)
            && nested(block) == precedence_tree(tokens)),
{
    lemma_flat_precedence(tokens);
}

/// The text `a first b second c`, written without spaces.
pub open spec fn written(
    a: Seq<char>,
    first: Operator,
    b: Seq<char>,
    second: Operator,
    c: Seq<char>,
) -> Seq<char> {
    a + seq![first.symbol()] + b + seq![second.symbol()] + c
}

/// Three numbers with two operators between them, written out, are read as
/// these five tokens.
pub proof fn lemma_written_tokens(
    a: Seq<char>,
    first: Operator,
    b: Seq<char>,
    second: Operator,
    c: Seq<char>,
)
    requires
        number_text(a),
        number_text(b),
        number_text(c),
    ensures
        lex(written(a, first, b, second, c)) == Ok::<Seq<TokenView>, LexError>(
            chain(a, first, b, second, c),
        ),
{
    let tokens = chain(a, first, b, second, c);
    reveal_with_fuel(spelling, 6);
    assert(tokens.drop_first().drop_first().drop_first().drop_first().drop_first()
        =~= Seq::<TokenView>::empty());
    assert(spelling(tokens) =~= written(a, first, b, second, c));
    lemma_spelling_reads_back(tokens);
}

/// Precedence, for every text `a first b second c` of three numbers and two
/// operators that are not both products: the text stands for the tree of
/// `a first (b second c)` where only `second` is a product, and for the tree
/// of `(a first b) second c` otherwise.
pub proof fn lemma_written_precedence(
    a: Seq<char>,
    first: Operator,
    b: Seq<char>,
    second: Operator,
    c: Seq<char>,
)
    requires
        number_text(a),
        number_text(b),
        number_text(c),
        !(first.is_product() && second.is_product()),
    ensures
        expression(written(a, first, b, second, c)) == Ok::<BlockView, Seq<char>>(
            if second.is_product() {
                right_tree(a, first, b, second, c)
            } else {
                left_tree(a, first, b, second, c)
            },
        ),
{
    lemma_written_tokens(a, first, b, second, c);
    lemma_expression_precedence(
        written(a, first, b, second, c),
        a,
        first,
        b,
        second,
        c,
        |operator: Operator, lhs: Seq<char>, rhs: Seq<char>| None,
    );
}

} // verus!
