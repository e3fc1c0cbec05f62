//! Splitting the text of an expression into tokens.

use vstd::prelude::*;

use crate::error::LexError;
use crate::text::{characters, push_char};
use crate::token::{token_views, Brackets, Operator, Token, TokenView};

verus! {

/// Whether `c` is one of the ten decimal digits.
pub open spec fn is_digit(c: char) -> bool {
    c == '0' || c == '1' || c == '2' || c == '3' || c == '4' || c == '5' || c == '6' || c == '7'
        || c == '8' || c == '9'
}

/// The token that `c` is by itself, if it is an operator or a bracket.
pub open spec fn symbol_token(c: char) -> Option<TokenView> {
    if c == '(' {
        Some(TokenView::Brackets(Brackets::Start))
    } else if c == ')' {
        Some(TokenView::Brackets(Brackets::End))
    } else if c == '+' {
        Some(TokenView::Operator(Operator::Plus))
    } else if c == '-' {
        Some(TokenView::Operator(Operator::Minus))
    } else if c == '*' {
        Some(TokenView::Operator(Operator::Multiply))
    } else if c == '/' {
        Some(TokenView::Operator(Operator::Divide))
    } else {
        None
    }
}

/// Where the run of digits and points that holds position `from` ends: the
/// first position at or after `from` that holds neither.
pub open spec fn number_end(s: Seq<char>, from: int) -> int
    decreases s.len() - from,
{
    if 0 <= from < s.len() && (is_digit(s[from]) || s[from] == '.') {
        number_end(s, from + 1)
    } else {
        from
    }
}

/// Whether two different positions in `from..to` hold a point.
pub open spec fn two_points(s: Seq<char>, from: int, to: int) -> bool {
    exists|i: int, j: int| from <= i < j < to && s[i] == '.' && s[j] == '.'
}

/// `first` in front of the tokens of `rest`, or the error of `rest`.
pub open spec fn prepend(first: TokenView, rest: Result<Seq<TokenView>, LexError>) -> Result<
    Seq<TokenView>,
    LexError,
> {
    match rest {
        Ok(tokens) => Ok(seq![first] + tokens),
        Err(e) => Err(e),
    }
}

/// The tokens of `s` from position `from` on, or the first error met.
///
/// A space gives no token. A digit starts a number, which runs as far as
/// digits and points go and is rejected if it holds two points. An operator
/// or a bracket is a token by itself. Any other character is rejected.
pub open spec fn lex_from(s: Seq<char>, from: int) -> Result<Seq<TokenView>, LexError>
    decreases s.len() - from,
{
    if from < 0 || from >= s.len() {
        Ok(Seq::empty())
    } else if s[from] == ' ' {
        lex_from(s, from + 1)
    } else if is_digit(s[from]) {
        let end = number_end(s, from + 1);
        if two_points(s, from, end) {
            Err(LexError::ConsecutiveDecimalPoint)
        } else {
            proof {
                lemma_number_end(s, from + 1);
            }
            prepend(TokenView::Value(s.subrange(from, end)), lex_from(s, end))
        }
    } else {
        match symbol_token(s[from]) {
            Some(token) => prepend(token, lex_from(s, from + 1)),
            None => Err(LexError::UnexpectedCharacter(s[from])),
        }
    }
}

/// The tokens of the text `s`, or the first error met in it.
pub open spec fn lex(s: Seq<char>) -> Result<Seq<TokenView>, LexError> {
    lex_from(s, 0)
}

/// The run that starts at `from` ends at or after `from`, inside `s`, and
/// holds digits and points only; what follows it is neither.
pub proof fn lemma_number_end(s: Seq<char>, from: int)
    requires
        0 <= from <= s.len(),
    ensures
        from <= number_end(s, from) <= s.len(),
        forall|i: int|
            from <= i < number_end(s, from) ==> is_digit(#[trigger] s[i]) || s[i] == '.',
        number_end(s, from) < s.len() ==> !is_digit(s[number_end(s, from)]) && s[number_end(
            s,
            from,
        )] != '.',
    decreases s.len() - from,
{
    if from < s.len() && (is_digit(s[from]) || s[from] == '.') {
        lemma_number_end(s, from + 1);
    }
}

/// A run that has reached `at` ends where the run from `at` ends.
proof fn lemma_number_end_continues(s: Seq<char>, from: int, at: int)
    requires
        0 <= from <= at <= s.len(),
        forall|i: int| from <= i < at ==> is_digit(#[trigger] s[i]) || s[i] == '.',
    ensures
        number_end(s, from) == number_end(s, at),
    decreases at - from,
{
    if from < at {
        lemma_number_end_continues(s, from + 1, at);
    }
}

/// The text that `tokens` are written with, one after the other and with
/// nothing between them.
pub open spec fn spelling(tokens: Seq<TokenView>) -> Seq<char>
    decreases tokens.len(),
{
    if tokens.len() == 0 {
        Seq::empty()
    } else {
        tokens[0].text() + spelling(tokens.drop_first())
    }
}

/// The characters of `s` other than spaces, in order.
pub open spec fn without_spaces(s: Seq<char>) -> Seq<char> {
    s.filter(|c: char| c != ' ')
}

proof fn lemma_spelling_prepend(first: TokenView, rest: Seq<TokenView>)
    ensures
        spelling(seq![first] + rest) == first.text() + spelling(rest),
{
    assert((seq![first] + rest).drop_first() =~= rest);
}

proof fn lemma_without_spaces_single(c: char)
    ensures
        without_spaces(seq![c]) == if c == ' ' {
            Seq::<char>::empty()
        } else {
            seq![c]
        },
{
    reveal_with_fuel(Seq::filter, 2);
    assert(seq![c].drop_last() =~= Seq::<char>::empty());
    assert(Seq::<char>::empty().push(c) =~= seq![c]);
}

proof fn lemma_without_spaces_keeps(run: Seq<char>)
    requires
        forall|i: int| 0 <= i < run.len() ==> #[trigger] run[i] != ' ',
    ensures
        without_spaces(run) == run,
    decreases run.len(),
{
    reveal_with_fuel(Seq::filter, 1);
    if run.len() > 0 {
        lemma_without_spaces_keeps(run.drop_last());
        assert(run.drop_last().push(run.last()) =~= run);
    }
}

proof fn lemma_spelling_from(s: Seq<char>, from: int)
    requires
        0 <= from <= s.len(),
    ensures
        lex_from(s, from) matches Ok(tokens) ==> spelling(tokens) == without_spaces(
            s.subrange(from, s.len() as int),
        ),
    decreases s.len() - from,
{
    let tail = s.subrange(from, s.len() as int);
    if from >= s.len() {
        reveal_with_fuel(Seq::filter, 1);
        assert(tail =~= Seq::<char>::empty());
    } else if lex_from(s, from) is Ok {
        let c = s[from];
        if is_digit(c) {
            let end = number_end(s, from + 1);
            lemma_number_end(s, from + 1);
            lemma_spelling_from(s, end);
            let run = s.subrange(from, end);
            let rest = lex_from(s, end)->Ok_0;
            lemma_spelling_prepend(TokenView::Value(run), rest);
            lemma_without_spaces_keeps(run);
            assert(tail =~= run + s.subrange(end, s.len() as int));
            Seq::filter_distributes_over_add(
                run,
                s.subrange(end, s.len() as int),
                |c: char| c != ' ',
            );
        } else {
            lemma_spelling_from(s, from + 1);
            let after = s.subrange(from + 1, s.len() as int);
            assert(tail =~= seq![c] + after);
            Seq::filter_distributes_over_add(seq![c], after, |c: char| c != ' ');
            lemma_without_spaces_single(c);
            if c == ' ' {
                assert(Seq::<char>::empty() + without_spaces(after) =~= without_spaces(after));
            } else {
                let token = symbol_token(c)->Some_0;
                lemma_spelling_prepend(token, lex_from(s, from + 1)->Ok_0);
            }
        }
    }
}

/// Tokenizing loses nothing but spaces: where a text has tokens, writing
/// them out one after the other gives the text again, its spaces left out.
pub proof fn lemma_tokens_spell_text(s: Seq<char>)
    ensures
        lex(s) matches Ok(tokens) ==> spelling(tokens) == without_spaces(s),
{
    lemma_spelling_from(s, 0);
    assert(s.subrange(0, s.len() as int) =~= s);
}

/// Whether `text` is the text of a number: it starts with a digit and
/// holds, after it, digits and one point at most.
pub open spec fn number_text(text: Seq<char>) -> bool {
    &&& text.len() > 0
    &&& is_digit(text[0])
    &&& forall|i: int| 0 <= i < text.len() ==> is_digit(#[trigger] text[i]) || text[i] == '.'
    &&& !two_points(text, 0, text.len() as int)
}

/// Whether `tokens` can be written out and read again: every number in
/// them is the text of a number, and no number is followed by a number at
/// once.
pub open spec fn spellable(tokens: Seq<TokenView>) -> bool {
    forall|i: int|
        0 <= i < tokens.len() ==> ((#[trigger] tokens[i]) matches TokenView::Value(text)
            ==> number_text(text) && (i + 1 < tokens.len() ==> !(tokens[i + 1] is Value)))
}

/// Where a run of digits and points ends depends on the text from its start
/// on only.
proof fn lemma_number_end_after(before: Seq<char>, s: Seq<char>, from: int)
    requires
        0 <= from <= s.len(),
    ensures
        number_end(before + s, before.len() + from) == before.len() + number_end(s, from),
    decreases s.len() - from,
{
    if from < s.len() {
        assert((before + s)[before.len() + from] == s[from]);
        lemma_number_end_after(before, s, from + 1);
    }
}

/// Whether a stretch of text holds two points depends on that stretch only.
proof fn lemma_two_points_after(before: Seq<char>, s: Seq<char>, from: int, to: int)
    requires
        0 <= from <= to <= s.len(),
    ensures
        two_points(before + s, before.len() + from, before.len() + to) == two_points(s, from, to),
{
    let all = before + s;
    let shift = before.len() as int;
    if two_points(s, from, to) {
        let (i, j) = choose|i: int, j: int| from <= i < j < to && s[i] == '.' && s[j] == '.';
        assert(all[shift + i] == '.' && all[shift + j] == '.');
    }
    if two_points(all, shift + from, shift + to) {
        let (i, j) = choose|i: int, j: int|
            shift + from <= i < j < shift + to && all[i] == '.' && all[j] == '.';
        assert(s[i - shift] == '.' && s[j - shift] == '.');
    }
}

/// What the tokens of a text are from a position on depends on the text
/// from there on only.
proof fn lemma_lex_after(before: Seq<char>, s: Seq<char>, from: int)
    requires
        0 <= from <= s.len(),
    ensures
        lex_from(before + s, before.len() + from) == lex_from(s, from),
    decreases s.len() - from,
{
    let all = before + s;
    let shift = before.len() as int;
    if from < s.len() {
        assert(all[shift + from] == s[from]);
        if s[from] == ' ' {
            lemma_lex_after(before, s, from + 1);
        } else if is_digit(s[from]) {
            let end = number_end(s, from + 1);
            lemma_number_end(s, from + 1);
            lemma_number_end_after(before, s, from + 1);
            lemma_two_points_after(before, s, from, end);
            assert(all.subrange(shift + from, shift + end) =~= s.subrange(from, end));
            lemma_lex_after(before, s, end);
        } else {
            lemma_lex_after(before, s, from + 1);
        }
    }
}

/// The characters that numbers are made of are no tokens by themselves, and
/// no spaces.
proof fn lemma_symbols_apart(token: TokenView)
    requires
        !(token is Value),
    ensures
        token.text().len() == 1,
        symbol_token(token.text()[0]) == Some(token),
        !is_digit(token.text()[0]),
        token.text()[0] != '.',
        token.text()[0] != ' ',
{
}

/// Tokens that are written out one after the other are read again as they
/// were: where `tokens` are spellable, the text that spells them has
/// exactly these tokens.
pub proof fn lemma_spelling_reads_back(tokens: Seq<TokenView>)
    requires
        spellable(tokens),
    ensures
        lex(spelling(tokens)) == Ok::<Seq<TokenView>, LexError>(tokens),
    decreases tokens.len(),
{
    if tokens.len() == 0 {
        assert(tokens =~= Seq::<TokenView>::empty());
    } else {
        let first = tokens[0];
        let rest = tokens.drop_first();
        let written = spelling(rest);
        let text = spelling(tokens);
        assert(text == first.text() + written);
        assert(spellable(rest)) by {
            assert forall|i: int| 0 <= i < rest.len() implies ((#[trigger] rest[i])
                matches TokenView::Value(number) ==> number_text(number) && (i + 1 < rest.len()
                ==> !(rest[i + 1] is Value))) by {
                assert(rest[i] == tokens[i + 1]);
                if i + 1 < rest.len() {
                    assert(rest[i + 1] == tokens[i + 2]);
                }
            }
        }
        lemma_spelling_reads_back(rest);
        assert(seq![first] + rest =~= tokens);
        match first {
            TokenView::Value(number) => {
                let end = number.len() as int;
                assert(number_text(number));
                assert forall|i: int| 0 <= i < end implies text[i] == number[i] by {}
                // The number runs to its end and no further.
                lemma_number_end_continues(text, 1, end);
                if rest.len() > 0 {
                    assert(rest[0] == tokens[1]);
                    lemma_symbols_apart(rest[0]);
                    assert(written == rest[0].text() + spelling(rest.drop_first()));
                    assert(text[end] == rest[0].text()[0]);
                } else {
                    assert(written =~= Seq::<char>::empty());
                    assert(text.len() == end);
                }
                assert(number_end(text, 1) == end);
                // It holds one point at most, and is the token's text.
                assert(text =~= Seq::<char>::empty() + text);
                assert(!two_points(text, 0, end)) by {
                    if two_points(text, 0, end) {
                        let (i, j) = choose|i: int, j: int|
                            0 <= i < j < end && text[i] == '.' && text[j] == '.';
                        assert(number[i] == '.' && number[j] == '.');
                    }
                }
                assert(text.subrange(0, end) =~= number);
                // What follows is read as if it stood alone.
                lemma_lex_after(number, written, 0);
            },
            _ => {
                lemma_symbols_apart(first);
                assert(text[0] == first.text()[0]);
                lemma_lex_after(first.text(), written, 0);
            },
        }
    }
}

/// Every number among the tokens of a text is the text of a number.
pub proof fn lemma_tokens_hold_numbers(s: Seq<char>)
    ensures
        lex(s) matches Ok(tokens) ==> forall|i: int|
            0 <= i < tokens.len() ==> ((#[trigger] tokens[i]) matches TokenView::Value(text)
                ==> number_text(text)),
{
    lemma_numbers_from(s, 0);
}

proof fn lemma_numbers_from(s: Seq<char>, from: int)
    requires
        0 <= from <= s.len(),
    ensures
        lex_from(s, from) matches Ok(tokens) ==> forall|i: int|
            0 <= i < tokens.len() ==> ((#[trigger] tokens[i]) matches TokenView::Value(text)
                ==> number_text(text)),
    decreases s.len() - from,
{
    if from < s.len() && lex_from(s, from) is Ok {
        let tokens = lex_from(s, from)->Ok_0;
        if s[from] == ' ' {
            lemma_numbers_from(s, from + 1);
        } else if is_digit(s[from]) {
            let end = number_end(s, from + 1);
            lemma_number_end(s, from + 1);
            lemma_numbers_from(s, end);
            let number = s.subrange(from, end);
            let rest = lex_from(s, end)->Ok_0;
            assert(number_text(number)) by {
                assert(number[0] == s[from]);
                assert forall|i: int| 0 <= i < number.len() implies is_digit(#[trigger] number[i])
                    || number[i] == '.' by {
                    assert(number[i] == s[from + i]);
                }
                if two_points(number, 0, number.len() as int) {
                    let (i, j) = choose|i: int, j: int|
                        0 <= i < j < number.len() && number[i] == '.' && number[j] == '.';
                    assert(s[from + i] == '.' && s[from + j] == '.');
                    assert(two_points(s, from, end));
                }
            }
            assert forall|i: int| 0 <= i < tokens.len() implies ((#[trigger] tokens[i])
                matches TokenView::Value(text) ==> number_text(text)) by {
                if i > 0 {
                    assert(tokens[i] == rest[i - 1]);
                }
            }
        } else {
            lemma_numbers_from(s, from + 1);
            let rest = lex_from(s, from + 1)->Ok_0;
            assert forall|i: int| 0 <= i < tokens.len() implies ((#[trigger] tokens[i])
                matches TokenView::Value(text) ==> number_text(text)) by {
                if i > 0 {
                    assert(tokens[i] == rest[i - 1]);
                }
            }
        }
    }
}

fn digit(c: char) -> (yes: bool)
    ensures
        yes == is_digit(c),
{
    c == '0' || c == '1' || c == '2' || c == '3' || c == '4' || c == '5' || c == '6' || c == '7'
        || c == '8' || c == '9'
}

fn symbol(c: char) -> (token: Option<Token>)
    ensures
        match token {
            Some(t) => symbol_token(c) == Some(t@),
            None => symbol_token(c) is None,
        },
{
    if c == '(' {
        Some(Token::Brackets(Brackets::Start))
    } else if c == ')' {
        Some(Token::Brackets(Brackets::End))
    } else if c == '+' {
        Some(Token::Operator(Operator::Plus))
    } else if c == '-' {
        Some(Token::Operator(Operator::Minus))
    } else if c == '*' {
        Some(Token::Operator(Operator::Multiply))
    } else if c == '/' {
        Some(Token::Operator(Operator::Divide))
    } else {
        None
    }
}

/// Reads the number that starts at `start`. Returns its text and the position
/// after it, or `None` at its second point.
fn number(chars: &Vec<char>, start: usize) -> (found: Option<(String, usize)>)
    requires
        start < chars.len(),
        is_digit(chars[start as int]),
    ensures
        match found {
            Some((text, end)) => {
                &&& end == number_end(chars@, start + 1)
                &&& start < end <= chars.len()
                &&& text@ == chars@.subrange(start as int, end as int)
                &&& !two_points(chars@, start as int, end as int)
            },
            None => two_points(chars@, start as int, number_end(chars@, start + 1)),
        },
{
    let mut text = String::new();
    push_char(&mut text, chars[start]);
    let mut index: usize = start + 1;
    let mut point: Option<usize> = None;
    while index < chars.len()
        invariant
            start < index <= chars.len(),
            text@ == chars@.subrange(start as int, index as int),
            forall|i: int| start <= i < index ==> is_digit(#[trigger] chars[i]) || chars[i] == '.',
            match point {
                Some(p) => start < p < index && chars[p as int] == '.' && forall|i: int|
                    start <= i < index && chars[i] == '.' ==> i == p,
                None => forall|i: int| start <= i < index ==> chars[i] != '.',
            },
        ensures
            index as int == number_end(chars@, index as int),
        decreases chars.len() - index,
    {
        let c = chars[index];
        if digit(c) {
        } else if c == '.' {
            if let Some(p) = point {
                proof {
                    lemma_number_end_continues(chars@, start + 1, index + 1);
                    lemma_number_end(chars@, index + 1);
                }
                return None;
            }
            point = Some(index);
        } else {
            break ;
        }
        push_char(&mut text, c);
        index += 1;
        assert(text@ == chars@.subrange(start as int, index as int));
    }
    proof {
        lemma_number_end_continues(chars@, start + 1, index as int);
    }
    Some((text, index))
}

/// Splits `target` into tokens.
///
/// Returns the tokens of [`lex`], in the order of the text, or the first
/// error that [`lex`] meets. The tokens spell the text, its spaces left out.
pub fn tokenize(target: &str) -> (result: Result<Vec<Token>, LexError>)
    ensures
        match result {
            Ok(tokens) => lex(target@) == Ok::<Seq<TokenView>, LexError>(token_views(tokens@)),
            Err(e) => lex(target@) == Err::<Seq<TokenView>, LexError>(e),
        },
        result matches Ok(tokens) ==> spelling(token_views(tokens@)) == without_spaces(target@),
{
    proof {
        lemma_tokens_spell_text(target@);
    }
    let chars = characters(target);
    let mut tokens: Vec<Token> = Vec::new();
    let mut index: usize = 0;
    while index < chars.len()
        invariant
            index <= chars.len(),
            chars@ == target@,
            lex(chars@) == match lex_from(chars@, index as int) {
                Ok(rest) => Ok::<Seq<TokenView>, LexError>(token_views(tokens@) + rest),
                Err(e) => Err(e),
            },
        decreases chars.len() - index,
    {
        let c = chars[index];
        if c == ' ' {
            index += 1;
        } else if digit(c) {
            match number(&chars, index) {
                Some((text, end)) => {
                    let ghost before = token_views(tokens@);
                    tokens.push(Token::Value(text));
                    proof {
                        let token = TokenView::Value(text@);
                        assert(token_views(tokens@) =~= before.push(token));
                        assert forall|rest: Seq<TokenView>|
                            before + (seq![token] + rest) == #[trigger] (before.push(token)
                                + rest) by {
                            assert(before + (seq![token] + rest) =~= before.push(token) + rest);
                        }
                    }
                    index = end;
                },
                None => {
                    return Err(LexError::ConsecutiveDecimalPoint);
                },
            }
        } else {
            match symbol(c) {
                Some(token) => {
                    let ghost before = token_views(tokens@);
                    let ghost view = token@;
                    tokens.push(token);
                    proof {
                        assert(token_views(tokens@) =~= before.push(view));
                        assert forall|rest: Seq<TokenView>|
                            before + (seq![view] + rest) == #[trigger] (before.push(view)
                                + rest) by {
                            assert(before + (seq![view] + rest) =~= before.push(view) + rest);
                        }
                    }
                    index += 1;
                },
                None => {
                    return Err(LexError::UnexpectedCharacter(c));
                },
            }
        }
    }
    proof {
        assert(token_views(tokens@) + Seq::<TokenView>::empty() =~= token_views(tokens@));
    }
    Ok(tokens)
}

} // verus!
