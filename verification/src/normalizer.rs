//! Making precedence explicit: every product is put in brackets, so that a
//! reader who goes from left to right and knows nothing of precedence still
//! multiplies and divides before it adds and subtracts.

use vstd::prelude::*;

use crate::token::{token_views, Brackets, Operator, Token, TokenView};

verus! {

/// Whether the token after position `at` is `*` or `/`.
pub open spec fn followed_by_product(tokens: Seq<TokenView>, at: int) -> bool {
    0 <= at + 1 < tokens.len() && tokens[at + 1].is_product()
}

/// Whether a group that is open at position `from` gets closed: going on
/// from there, the group's last number (the first one that no `*` or `/`
/// follows) or the end of the tokens comes before any bracket.
pub open spec fn group_closes(tokens: Seq<TokenView>, from: int) -> bool
    decreases tokens.len() - from,
{
    if from < 0 || from >= tokens.len() {
        true
    } else {
        match tokens[from] {
            TokenView::Brackets(_) => false,
            TokenView::Operator(_) => group_closes(tokens, from + 1),
            TokenView::Value(_) => !followed_by_product(tokens, from) || group_closes(
                tokens,
                from + 1,
            ),
        }
    }
}

/// Whether the number at position `at` starts a product that gets its own
/// brackets: `*` or `/` follows it, and the group so opened gets closed.
pub open spec fn opens_group(tokens: Seq<TokenView>, at: int) -> bool {
    &&& 0 <= at < tokens.len()
    &&& tokens[at] is Value
    &&& followed_by_product(tokens, at)
    &&& group_closes(tokens, at + 1)
}

/// The tokens from position `from` on with every product in brackets;
/// `open` says whether a group has been opened and not yet closed.
///
/// Outside a group, a number that `*` or `/` follows opens one, unless a
/// bracket comes before the group could close: brackets that are written
/// already do the grouping. Inside a group, the first number that no `*` or
/// `/` follows closes it, and so does the end of the tokens. Every token is
/// copied as it is.
pub open spec fn normalize_from(tokens: Seq<TokenView>, from: int, open: bool) -> Seq<TokenView>
    decreases tokens.len() - from,
{
    if from < 0 || from >= tokens.len() {
        if open {
            seq![TokenView::Brackets(Brackets::End)]
        } else {
            Seq::empty()
        }
    } else {
        let token = tokens[from];
        match token {
            TokenView::Value(_) => if open {
                if followed_by_product(tokens, from) {
                    seq![token] + normalize_from(tokens, from + 1, true)
                } else {
                    seq![token, TokenView::Brackets(Brackets::End)] + normalize_from(
                        tokens,
                        from + 1,
                        false,
                    )
                }
            } else if opens_group(tokens, from) {
                seq![TokenView::Brackets(Brackets::Start), token] + normalize_from(
                    tokens,
                    from + 1,
                    true,
                )
            } else {
                seq![token] + normalize_from(tokens, from + 1, false)
            },
            TokenView::Operator(_) => seq![token] + normalize_from(tokens, from + 1, open),
            TokenView::Brackets(_) => seq![token] + normalize_from(tokens, from + 1, false),
        }
    }
}

/// The tokens with every product in brackets.
pub open spec fn normalize(tokens: Seq<TokenView>) -> Seq<TokenView> {
    normalize_from(tokens, 0, false)
}

/// Normalizing never drops a token: from any position on, it gives at least
/// as many tokens as it reads.
proof fn lemma_normalize_length(tokens: Seq<TokenView>, from: int, open: bool)
    requires
        0 <= from <= tokens.len(),
    ensures
        normalize_from(tokens, from, open).len() >= tokens.len() - from,
    decreases tokens.len() - from,
{
    if from < tokens.len() {
        lemma_normalize_length(tokens, from + 1, true);
        lemma_normalize_length(tokens, from + 1, false);
    }
}

/// A group that gets closed gets its closing bracket.
proof fn lemma_closing_adds(tokens: Seq<TokenView>, from: int)
    requires
        0 <= from <= tokens.len(),
        group_closes(tokens, from),
    ensures
        normalize_from(tokens, from, true).len() > tokens.len() - from,
    decreases tokens.len() - from,
{
    if from < tokens.len() {
        match tokens[from] {
            TokenView::Value(_) => {
                if followed_by_product(tokens, from) {
                    lemma_closing_adds(tokens, from + 1);
                } else {
                    lemma_normalize_length(tokens, from + 1, false);
                }
            },
            TokenView::Operator(_) => {
                lemma_closing_adds(tokens, from + 1);
            },
            TokenView::Brackets(_) => {},
        }
    }
}

/// A number that opens a group makes the result longer than what was read.
proof fn lemma_group_adds(tokens: Seq<TokenView>, from: int, open: bool, at: int)
    requires
        0 <= from <= at,
        opens_group(tokens, at),
    ensures
        normalize_from(tokens, from, open).len() > tokens.len() - from,
    decreases at - from,
{
    if from == at {
        if open {
            lemma_closing_adds(tokens, at + 1);
        } else {
            lemma_normalize_length(tokens, at + 1, true);
        }
    } else {
        lemma_group_adds(tokens, from + 1, true, at);
        lemma_group_adds(tokens, from + 1, false, at);
    }
}

/// Where no number opens a group from `from` on, the tokens are copied.
proof fn lemma_copied(tokens: Seq<TokenView>, from: int)
    requires
        0 <= from <= tokens.len(),
        forall|i: int| from <= i ==> !opens_group(tokens, i),
    ensures
        normalize_from(tokens, from, false) == tokens.subrange(from, tokens.len() as int),
    decreases tokens.len() - from,
{
    let tail = tokens.subrange(from, tokens.len() as int);
    if from < tokens.len() {
        lemma_copied(tokens, from + 1);
        assert(!opens_group(tokens, from));
        assert(tail =~= seq![tokens[from]] + tokens.subrange(from + 1, tokens.len() as int));
    } else {
        assert(tail =~= Seq::<TokenView>::empty());
    }
}

/// Normalizing gives the tokens back unchanged exactly where no number opens
/// a group: wherever `*` or `/` follows a number, a bracket comes before the
/// group could close.
pub proof fn lemma_unchanged_iff_no_group(tokens: Seq<TokenView>)
    ensures
        normalize(tokens) == tokens <==> forall|i: int| !opens_group(tokens, i),
{
    if forall|i: int| !opens_group(tokens, i) {
        lemma_copied(tokens, 0);
        assert(tokens.subrange(0, tokens.len() as int) =~= tokens);
    } else {
        let at = choose|i: int| opens_group(tokens, i);
        lemma_group_adds(tokens, 0, false, at);
    }
}

/// Whether every `*` and every `/` of `tokens` has brackets on its left: no
/// number stands directly before one.
pub open spec fn products_in_brackets(tokens: Seq<TokenView>) -> bool {
    forall|i: int|
        0 <= i < tokens.len() && #[trigger] tokens[i] is Value ==> !followed_by_product(tokens, i)
}

/// Where every product is in brackets already, normalizing adds none: the
/// tokens come back unchanged.
pub proof fn lemma_bracketed_products_unchanged(tokens: Seq<TokenView>)
    requires
        products_in_brackets(tokens),
    ensures
        normalize(tokens) == tokens,
{
    assert forall|i: int| !opens_group(tokens, i) by {
        if 0 <= i < tokens.len() && tokens[i] is Value {
            assert(!followed_by_product(tokens, i));
        }
    }
    lemma_unchanged_iff_no_group(tokens);
}

/// The tokens of `tokens` that are no brackets, in order.
pub open spec fn without_brackets(tokens: Seq<TokenView>) -> Seq<TokenView> {
    tokens.filter(|token: TokenView| !(token is Brackets))
}

/// Normalizing changes brackets only: taking every bracket out of the result
/// and out of the tokens gives the same numbers and operators, in the same
/// order.
pub proof fn lemma_normalize_keeps_tokens(tokens: Seq<TokenView>)
    ensures
        without_brackets(normalize(tokens)) == without_brackets(tokens),
{
    lemma_keeps_from(tokens, 0, false);
    assert(tokens.subrange(0, tokens.len() as int) =~= tokens);
}

proof fn lemma_without_brackets_single(token: TokenView)
    ensures
        without_brackets(seq![token]) == if token is Brackets {
            Seq::<TokenView>::empty()
        } else {
            seq![token]
        },
{
    reveal_with_fuel(Seq::filter, 2);
    assert(seq![token].drop_last() =~= Seq::<TokenView>::empty());
    assert(Seq::<TokenView>::empty().push(token) =~= seq![token]);
}

proof fn lemma_keeps_from(tokens: Seq<TokenView>, from: int, open: bool)
    requires
        0 <= from <= tokens.len(),
    ensures
        without_brackets(normalize_from(tokens, from, open)) == without_brackets(
            tokens.subrange(from, tokens.len() as int),
        ),
    decreases tokens.len() - from,
{
    let keep = |token: TokenView| !(token is Brackets);
    let tail = tokens.subrange(from, tokens.len() as int);
    let start = TokenView::Brackets(Brackets::Start);
    let end = TokenView::Brackets(Brackets::End);
    lemma_without_brackets_single(start);
    lemma_without_brackets_single(end);
    if from < tokens.len() {
        let token = tokens[from];
        let after = tokens.subrange(from + 1, tokens.len() as int);
        lemma_keeps_from(tokens, from + 1, true);
        lemma_keeps_from(tokens, from + 1, false);
        lemma_without_brackets_single(token);
        assert(tail =~= seq![token] + after);
        Seq::filter_distributes_over_add(seq![token], after, keep);
        let rest_open = normalize_from(tokens, from + 1, true);
        let rest_shut = normalize_from(tokens, from + 1, false);
        Seq::filter_distributes_over_add(seq![token], rest_open, keep);
        Seq::filter_distributes_over_add(seq![token], rest_shut, keep);
        assert(seq![token, end] =~= seq![token] + seq![end]);
        assert(seq![start, token] =~= seq![start] + seq![token]);
        Seq::filter_distributes_over_add(seq![token], seq![end], keep);
        Seq::filter_distributes_over_add(seq![start], seq![token], keep);
        Seq::filter_distributes_over_add(seq![token, end], rest_shut, keep);
        Seq::filter_distributes_over_add(seq![start, token], rest_open, keep);
        assert(without_brackets(seq![token]) + Seq::<TokenView>::empty() =~= without_brackets(
            seq![token],
        ));
        assert(Seq::<TokenView>::empty() + without_brackets(seq![token]) =~= without_brackets(
            seq![token],
        ));
        assert(Seq::<TokenView>::empty() + without_brackets(after) =~= without_brackets(after));
    } else {
        assert(tail =~= Seq::<TokenView>::empty());
        reveal_with_fuel(Seq::filter, 1);
    }
}

proof fn lemma_views_push(tokens: Seq<Token>, token: Token)
    ensures
        token_views(tokens.push(token)) == token_views(tokens).push(token@),
{
    assert(token_views(tokens.push(token)) =~= token_views(tokens).push(token@));
}

proof fn lemma_views_insert(tokens: Seq<Token>, at: int, token: Token)
    requires
        0 <= at <= tokens.len(),
    ensures
        token_views(tokens.insert(at, token)) == token_views(tokens).insert(at, token@),
{
    assert(token_views(tokens.insert(at, token)) =~= token_views(tokens).insert(at, token@));
}

proof fn lemma_views_remove(tokens: Seq<Token>, at: int)
    requires
        0 <= at < tokens.len(),
    ensures
        token_views(tokens.remove(at)) == token_views(tokens).remove(at),
{
    assert(token_views(tokens.remove(at)) =~= token_views(tokens).remove(at));
}

/// What holds between the tokens written so far and the tokens still to be
/// read, in [`adjust_brackets`].
///
/// `done` is what has been written, `index` the next position to read and
/// `open` the place in `done` of the opening bracket of a group that is not
/// closed yet.
spec fn on_track(
    tokens: Seq<TokenView>,
    done: Seq<TokenView>,
    index: int,
    open: Option<int>,
) -> bool {
    &&& 0 <= index <= tokens.len()
    &&& index == 0 ==> done.len() == 0
    &&& index > 0 && followed_by_product(tokens, index - 1) ==> done.len() > 0 && done.last()
        == tokens[index - 1]
    &&& match open {
        Some(place) => {
            &&& 0 <= place < done.len()
            &&& normalize(tokens) == if group_closes(tokens, index) {
                done + normalize_from(tokens, index, true)
            } else {
                done.remove(place) + normalize_from(tokens, index, false)
            }
        },
        None => if index > 0 && tokens[index - 1] is Value && followed_by_product(
            tokens,
            index - 1,
        ) {
            normalize(tokens) == done.drop_last() + normalize_from(tokens, index - 1, false)
        } else {
            normalize(tokens) == done + normalize_from(tokens, index, false)
        },
    }
}

/// Reading a number keeps the work on track: the number is written, and
/// behind it the closing bracket of a pending group that ends with it.
proof fn lemma_track_number(
    tokens: Seq<TokenView>,
    done: Seq<TokenView>,
    index: int,
    open: Option<int>,
)
    requires
        on_track(tokens, done, index, open),
        index < tokens.len(),
        tokens[index] is Value,
    ensures
        open is Some && !followed_by_product(tokens, index) ==> on_track(
            tokens,
            done.push(tokens[index]).push(TokenView::Brackets(Brackets::End)),
            index + 1,
            None,
        ),
        open is None || followed_by_product(tokens, index) ==> on_track(
            tokens,
            done.push(tokens[index]),
            index + 1,
            open,
        ),
{
    let here = tokens[index];
    let close = TokenView::Brackets(Brackets::End);
    let shut = normalize_from(tokens, index + 1, false);
    let pending = normalize_from(tokens, index + 1, true);
    match open {
        Some(place) => {
            if followed_by_product(tokens, index) {
                assert(done + (seq![here] + pending) =~= done.push(here) + pending);
                assert(done.remove(place) + (seq![here] + shut) =~= done.push(here).remove(place)
                    + shut);
            } else {
                assert(done + (seq![here, close] + shut) =~= done.push(here).push(close) + shut);
            }
        },
        None => {
            assert(done.push(here).drop_last() =~= done);
            assert(done + (seq![here] + shut) =~= done.push(here) + shut);
        },
    }
}

/// Reading a bracket keeps the work on track: the opening bracket of a
/// pending group is taken away, and the bracket is written.
proof fn lemma_track_bracket(
    tokens: Seq<TokenView>,
    done: Seq<TokenView>,
    index: int,
    open: Option<int>,
)
    requires
        on_track(tokens, done, index, open),
        index < tokens.len(),
        tokens[index] is Brackets,
    ensures
        on_track(
            tokens,
            match open {
                Some(place) => done.remove(place),
                None => done,
            }.push(tokens[index]),
            index + 1,
            None,
        ),
{
    let here = tokens[index];
    let kept = match open {
        Some(place) => done.remove(place),
        None => done,
    };
    let shut = normalize_from(tokens, index + 1, false);
    assert(kept + (seq![here] + shut) =~= kept.push(here) + shut);
}

/// Reading `*` or `/` behind a number outside any group keeps the work on
/// track: an opening bracket is put before the number, the operator is
/// written, and the group is pending.
proof fn lemma_track_opening(tokens: Seq<TokenView>, done: Seq<TokenView>, index: int)
    requires
        on_track(tokens, done, index, None),
        index < tokens.len(),
        tokens[index].is_product(),
        done.len() > 0,
        done.last() is Value,
    ensures
        on_track(
            tokens,
            done.insert(done.len() - 1, TokenView::Brackets(Brackets::Start)).push(tokens[index]),
            index + 1,
            Some(done.len() - 1),
        ),
{
    let here = tokens[index];
    let start = TokenView::Brackets(Brackets::Start);
    let place = done.len() - 1;
    let number = done.last();
    let before = done.drop_last();
    let grouped = done.insert(place, start);
    let shut = normalize_from(tokens, index + 1, false);
    let pending = normalize_from(tokens, index + 1, true);
    assert(number == tokens[index - 1]);
    assert(normalize_from(tokens, index, true) == seq![here] + pending);
    assert(normalize_from(tokens, index, false) == seq![here] + shut);
    assert(group_closes(tokens, index) == group_closes(tokens, index + 1));
    assert(grouped =~= before + seq![start, number]);
    assert(before + (seq![start, number] + (seq![here] + pending)) =~= grouped.push(here)
        + pending);
    assert(before + (seq![number] + (seq![here] + shut)) =~= grouped.push(here).remove(place)
        + shut);
}

/// Reading any other operator keeps the work on track: it is written.
proof fn lemma_track_operator(
    tokens: Seq<TokenView>,
    done: Seq<TokenView>,
    index: int,
    open: Option<int>,
)
    requires
        on_track(tokens, done, index, open),
        index < tokens.len(),
        tokens[index] is Operator,
        !(tokens[index].is_product() && open is None && done.len() > 0 && done.last() is Value),
    ensures
        on_track(tokens, done.push(tokens[index]), index + 1, open),
{
    let here = tokens[index];
    let shut = normalize_from(tokens, index + 1, false);
    let pending = normalize_from(tokens, index + 1, true);
    assert(done + (seq![here] + pending) =~= done.push(here) + pending);
    assert(done + (seq![here] + shut) =~= done.push(here) + shut);
    if let Some(place) = open {
        assert(done.remove(place) + (seq![here] + shut) =~= done.push(here).remove(place) + shut);
    }
}

/// The place of a pending group's opening bracket, as a mathematical integer.
spec fn place_of(open: Option<usize>) -> Option<int> {
    match open {
        Some(place) => Some(place as int),
        None => None,
    }
}

fn is_product(token: &Token) -> (yes: bool)
    ensures
        yes == token@.is_product(),
{
    match token {
        Token::Operator(Operator::Multiply) => true,
        Token::Operator(Operator::Divide) => true,
        _ => false,
    }
}

fn is_value(token: &Token) -> (yes: bool)
    ensures
        yes == (token@ is Value),
{
    match token {
        Token::Value(_) => true,
        _ => false,
    }
}

/// Puts every product of `target` in brackets.
///
/// Goes through the tokens once and copies each. At `*` or `/` that follows
/// a number outside any pending group, an opening bracket is put before that
/// number and the group is pending. A number that no `*` or `/` follows
/// closes the pending group, and so does the end of the tokens. A bracket
/// that comes while a group is pending takes the group's opening bracket
/// away again. The result is [`normalize`] of the tokens; where every
/// product is in brackets already, it is the tokens unchanged.
pub fn adjust_brackets(target: &[Token]) -> (result: Vec<Token>)
    ensures
        token_views(result@) == normalize(token_views(target@)),
        products_in_brackets(token_views(target@)) ==> token_views(result@) == token_views(
            target@,
        ),
{
    proof {
        if products_in_brackets(token_views(target@)) {
            lemma_bracketed_products_unchanged(token_views(target@));
        }
    }
    let mut result: Vec<Token> = Vec::new();
    let mut open: Option<usize> = None;
    let mut index: usize = 0;
    let ghost tokens = token_views(target@);
    proof {
        assert(Seq::<TokenView>::empty() + normalize_from(tokens, 0, false) =~= normalize(tokens));
        assert(token_views(result@) =~= Seq::<TokenView>::empty());
    }
    while index < target.len()
        invariant
            tokens == token_views(target@),
            tokens.len() == target.len(),
            on_track(tokens, token_views(result@), index as int, place_of(open)),
        decreases target.len() - index,
    {
        let ghost done = token_views(result@);
        assert(tokens[index as int] == target[index as int]@);
        match &target[index] {
            Token::Value(text) => {
                let token = Token::Value(text.clone());
                proof {
                    lemma_track_number(tokens, done, index as int, place_of(open));
                    lemma_views_push(result@, token);
                }
                result.push(token);
                let followed = index + 1 < target.len() && is_product(&target[index + 1]);
                if open.is_some() && !followed {
                    proof {
                        lemma_views_push(result@, Token::Brackets(Brackets::End));
                    }
                    result.push(Token::Brackets(Brackets::End));
                    open = None;
                }
            },
            Token::Brackets(brackets) => {
                proof {
                    lemma_track_bracket(tokens, done, index as int, place_of(open));
                }
                if let Some(place) = open {
                    proof {
                        lemma_views_remove(result@, place as int);
                    }
                    result.remove(place);
                    open = None;
                }
                let token = Token::Brackets(*brackets);
                proof {
                    lemma_views_push(result@, token);
                }
                result.push(token);
            },
            Token::Operator(operator) => {
                let product = match operator {
                    Operator::Multiply => true,
                    Operator::Divide => true,
                    _ => false,
                };
                if product && open.is_none() && result.len() > 0 && is_value(
                    &result[result.len() - 1],
                ) {
                    let place: usize = result.len() - 1;
                    let bracket = Token::Brackets(Brackets::Start);
                    proof {
                        lemma_track_opening(tokens, done, index as int);
                        lemma_views_insert(result@, place as int, bracket);
                    }
                    result.insert(place, bracket);
                    open = Some(place);
                } else {
                    proof {
                        lemma_track_operator(tokens, done, index as int, place_of(open));
                    }
                }
                let token = Token::Operator(*operator);
                proof {
                    lemma_views_push(result@, token);
                }
                result.push(token);
            },
        }
        index += 1;
    }
    if open.is_some() {
        proof {
            lemma_views_push(result@, Token::Brackets(Brackets::End));
            assert(token_views(result@) + seq![TokenView::Brackets(Brackets::End)]
                =~= token_views(result@).push(TokenView::Brackets(Brackets::End)));
        }
        result.push(Token::Brackets(Brackets::End));
    } else {
        proof {
            assert(token_views(result@) + Seq::<TokenView>::empty() =~= token_views(result@));
        }
    }
    result
}

} // verus!
