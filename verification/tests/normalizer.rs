use calculator::{adjust_brackets, tokenize, Brackets, Operator, Token};

fn normalized(text: &str) -> Vec<Token> {
    adjust_brackets(&tokenize(text).unwrap())
}

#[test]
fn adjust_brackets_test1() {
    let tokens = tokenize("2 * 2 + 1").unwrap();
    let adjust_tokens = adjust_brackets(&tokens);

    let expect = vec![
        Token::Brackets(Brackets::Start),
        Token::Value(String::from("2")),
        Token::Operator(Operator::Multiply),
        Token::Value(String::from("2")),
        Token::Brackets(Brackets::End),
        Token::Operator(Operator::Plus),
        Token::Value(String::from("1")),
    ];

    assert_eq!(expect, adjust_tokens);
}

#[test]
fn adjust_brackets_test2() {
    let tokens = tokenize("2 + 2 / 1").unwrap();
    let adjust_tokens = adjust_brackets(&tokens);

    let expect = vec![
        Token::Value(String::from("2")),
        Token::Operator(Operator::Plus),
        Token::Brackets(Brackets::Start),
        Token::Value(String::from("2")),
        Token::Operator(Operator::Divide),
        Token::Value(String::from("1")),
        Token::Brackets(Brackets::End),
    ];

    assert_eq!(expect, adjust_tokens);
}

#[test]
fn adjust_brackets_test3() {
    let tokens = tokenize("1 * 2 + 3 / 4").unwrap();
    let adjust_tokens = adjust_brackets(&tokens);

    let expect = vec![
        Token::Brackets(Brackets::Start),
        Token::Value(String::from("1")),
        Token::Operator(Operator::Multiply),
        Token::Value(String::from("2")),
        Token::Brackets(Brackets::End),
        Token::Operator(Operator::Plus),
        Token::Brackets(Brackets::Start),
        Token::Value(String::from("3")),
        Token::Operator(Operator::Divide),
        Token::Value(String::from("4")),
        Token::Brackets(Brackets::End),
    ];

    assert_eq!(expect, adjust_tokens);
}

#[test]
fn adjust_brackets_test4() {
    let tokens = tokenize("(0 + 1 * 2) - 4 / 2").unwrap();
    let adjust_tokens = adjust_brackets(&tokens);

    let expect = vec![
        Token::Brackets(Brackets::Start),
        Token::Value(String::from("0")),
        Token::Operator(Operator::Plus),
        Token::Brackets(Brackets::Start),
        Token::Value(String::from("1")),
        Token::Operator(Operator::Multiply),
        Token::Value(String::from("2")),
        Token::Brackets(Brackets::End),
        Token::Brackets(Brackets::End),
        Token::Operator(Operator::Minus),
        Token::Brackets(Brackets::Start),
        Token::Value(String::from("4")),
        Token::Operator(Operator::Divide),
        Token::Value(String::from("2")),
        Token::Brackets(Brackets::End),
    ];

    assert_eq!(expect, adjust_tokens);
}

#[test]
fn adjust_brackets_test5() {
    let tokens = tokenize("1 * (2 + 3) / 4").unwrap();
    let adjust_tokens = adjust_brackets(&tokens);

    let expect = vec![
        Token::Value(String::from("1")),
        Token::Operator(Operator::Multiply),
        Token::Brackets(Brackets::Start),
        Token::Value(String::from("2")),
        Token::Operator(Operator::Plus),
        Token::Value(String::from("3")),
        Token::Brackets(Brackets::End),
        Token::Operator(Operator::Divide),
        Token::Value(String::from("4")),
    ];

    assert_eq!(expect, adjust_tokens);
}

#[test]
fn adjust_brackets_two_products() {
    assert_eq!(tokenize("(2 * 3) + (4 / 5)").unwrap(), normalized("2 * 3 + 4 / 5"));
}

#[test]
fn adjust_brackets_no_tokens() {
    assert_eq!(Vec::<Token>::new(), adjust_brackets(&[]));
}

#[test]
fn adjust_brackets_sums_only() {
    assert_eq!(tokenize("1 + 2 - 3").unwrap(), normalized("1 + 2 - 3"));
}

#[test]
fn adjust_brackets_whole_run_of_products() {
    assert_eq!(tokenize("1 + (2 * 3 / 4) - 5").unwrap(), normalized("1 + 2 * 3 / 4 - 5"));
    assert_eq!(tokenize("(2 * 3 * 4)").unwrap(), normalized("2 * 3 * 4"));
}

#[test]
fn adjust_brackets_signed_operand_in_a_product() {
    assert_eq!(tokenize("(2 * -3) + 1").unwrap(), normalized("2 * -3 + 1"));
}

#[test]
fn adjust_brackets_group_closed_at_the_end() {
    assert_eq!(tokenize("(2 *)").unwrap(), normalized("2 *"));
    assert_eq!(tokenize("1 + (2 / 3)").unwrap(), normalized("1 + 2 / 3"));
}

#[test]
fn adjust_brackets_operator_first() {
    assert_eq!(tokenize("* 2").unwrap(), normalized("* 2"));
    assert_eq!(tokenize("/ (2 * 3)").unwrap(), normalized("/ 2 * 3"));
}

#[test]
fn adjust_brackets_bracket_takes_a_pending_group_away() {
    assert_eq!(tokenize("2 * (1 + 1)").unwrap(), normalized("2 * (1 + 1)"));
    assert_eq!(tokenize("2 * 3 * (4)").unwrap(), normalized("2 * 3 * (4)"));
    assert_eq!(tokenize("2 * - (3)").unwrap(), normalized("2 * - (3)"));
    assert_eq!(tokenize("2 * )").unwrap(), normalized("2 * )"));
}

#[test]
fn adjust_brackets_product_inside_written_brackets() {
    assert_eq!(tokenize("((2 * 3))").unwrap(), normalized("(2 * 3)"));
}

#[test]
fn adjust_brackets_products_in_brackets_unchanged() {
    for text in ["(2) * (3)", "(1 + 2) * (3 - 4) / (5)", "(1 + 2) / 3", "1 * (2 + 3) / 4"] {
        assert_eq!(tokenize(text).unwrap(), normalized(text));
    }
}

#[test]
fn adjust_brackets_keeps_numbers_and_operators() {
    for text in ["1 * 2 + 3 / 4", "(0 + 1 * 2) - 4 / 2", "2 * (3", "* / 2 * 3 )"] {
        let kept = |tokens: Vec<Token>| -> Vec<Token> {
            tokens.into_iter().filter(|token| !matches!(token, Token::Brackets(_))).collect()
        };
        assert_eq!(kept(tokenize(text).unwrap()), kept(normalized(text)));
    }
}
