use calculator::{tokenize, Brackets, LexError, Operator, Token};

fn number(text: &str) -> Token {
    Token::Value(String::from(text))
}

fn spelled(tokens: &[Token]) -> String {
    let mut text = String::new();
    for token in tokens {
        match token {
            Token::Value(value) => text.push_str(value),
            Token::Operator(Operator::Plus) => text.push('+'),
            Token::Operator(Operator::Minus) => text.push('-'),
            Token::Operator(Operator::Multiply) => text.push('*'),
            Token::Operator(Operator::Divide) => text.push('/'),
            Token::Brackets(Brackets::Start) => text.push('('),
            Token::Brackets(Brackets::End) => text.push(')'),
        }
    }
    text
}

#[test]
fn tokenize_test1() {
    let expect = vec![
        Token::Value(String::from("1")),
        Token::Operator(Operator::Plus),
        Token::Value(String::from("2")),
        Token::Operator(Operator::Minus),
        Token::Value(String::from("3")),
    ];

    let formula = String::from("1+2 - 3");
    let tokens = tokenize(&formula).unwrap();

    assert_eq!(expect, tokens);
}

#[test]
fn tokenize_test2() {
    let expect = vec![
        Token::Value(String::from("100")),
        Token::Operator(Operator::Multiply),
        Token::Value(String::from("20")),
        Token::Operator(Operator::Divide),
        Token::Value(String::from("1505")),
    ];

    let formula = String::from("100 *20 /1505");
    let tokens = tokenize(&formula).unwrap();

    assert_eq!(expect, tokens);
}

#[test]
fn tokenize_test3() {
    let expect = vec![
        Token::Value(String::from("12.34")),
        Token::Operator(Operator::Minus),
        Token::Value(String::from("5.678")),
    ];

    let formula = String::from("12.34-5.678");
    let tokens = tokenize(&formula).unwrap();

    assert_eq!(expect, tokens);
}

#[test]
fn tokenize_test4() {
    let expect = vec![
        Token::Brackets(Brackets::Start),
        Token::Value(String::from("2")),
        Token::Operator(Operator::Multiply),
        Token::Value(String::from("2")),
        Token::Brackets(Brackets::End),
        Token::Operator(Operator::Plus),
        Token::Value(String::from("30")),
    ];

    let formula = String::from("(2 * 2) + 30");
    let tokens = tokenize(&formula).unwrap();

    assert_eq!(expect, tokens);
}

#[test]
fn tokenize_err_test1() {
    let formula = String::from("23.5 + 10..45");
    let tokens = tokenize(&formula);

    match tokens {
        Ok(_) => {
            panic!("エラーが発生しませんでした。")
        }
        Err(value) => assert_eq!("「.」が連続して出現しました。", value.message()),
    }
}

#[test]
fn tokenize_err_test2() {
    let formula = String::from("1 + あ");
    let tokens = tokenize(&formula);

    match tokens {
        Ok(_) => {
            panic!("エラーが発生しませんでした。")
        }
        Err(value) => {
            assert_eq!("予期せぬ文字が出現しました。「あ」", value.message())
        }
    }
}

#[test]
fn tokenize_empty_text_has_no_tokens() {
    assert_eq!(Vec::<Token>::new(), tokenize("").unwrap());
    assert_eq!(Vec::<Token>::new(), tokenize("    ").unwrap());
}

#[test]
fn tokenize_every_symbol() {
    let expect = vec![
        Token::Brackets(Brackets::Start),
        Token::Brackets(Brackets::End),
        Token::Operator(Operator::Plus),
        Token::Operator(Operator::Minus),
        Token::Operator(Operator::Multiply),
        Token::Operator(Operator::Divide),
    ];
    assert_eq!(expect, tokenize("()+-*/").unwrap());
}

#[test]
fn tokenize_spaces_part_numbers() {
    assert_eq!(vec![number("1"), number("2")], tokenize("1 2").unwrap());
    assert_eq!(vec![number("12")], tokenize("12").unwrap());
}

#[test]
fn tokenize_point_at_the_end_of_a_number() {
    assert_eq!(
        vec![number("7."), Token::Operator(Operator::Plus), number("0.5")],
        tokenize("7.+0.5").unwrap()
    );
}

#[test]
fn tokenize_second_point_anywhere_in_a_number() {
    assert_eq!(Err(LexError::ConsecutiveDecimalPoint), tokenize("1.2.3"));
    assert_eq!(Err(LexError::ConsecutiveDecimalPoint), tokenize("1.."));
    assert_eq!(Err(LexError::ConsecutiveDecimalPoint), tokenize("0.5 + 1.2.3 + x"));
}

#[test]
fn tokenize_two_numbers_with_one_point_each() {
    assert_eq!(vec![number("1.5"), number("2.5")], tokenize("1.5 2.5").unwrap());
}

#[test]
fn tokenize_point_outside_a_number() {
    assert_eq!(Err(LexError::UnexpectedCharacter('.')), tokenize(".5"));
    assert_eq!(Err(LexError::UnexpectedCharacter('.')), tokenize("1 + ."));
}

#[test]
fn tokenize_first_error_wins() {
    assert_eq!(Err(LexError::UnexpectedCharacter('x')), tokenize("x + 1..2"));
    assert_eq!(Err(LexError::ConsecutiveDecimalPoint), tokenize("1..2 + x"));
    assert_eq!(Err(LexError::UnexpectedCharacter('\t')), tokenize("1\t+ 2"));
}

#[test]
fn tokenize_unexpected_character_is_named() {
    assert_eq!(Err(LexError::UnexpectedCharacter('ろ')), tokenize("ろ + 3..5"));
    assert_eq!(
        "予期せぬ文字が出現しました。「a」",
        LexError::UnexpectedCharacter('a').message()
    );
}

#[test]
fn tokens_spell_the_text_without_spaces() {
    for text in ["1+2 - 3", " ( 12.5*3 )/ 4 - -2", "", "  7  ", "((1))", "1 2 3"] {
        let tokens = tokenize(text).unwrap();
        let expect: String = text.chars().filter(|c| *c != ' ').collect();
        assert_eq!(expect, spelled(&tokens));
    }
}

#[test]
fn spelled_tokens_are_read_back() {
    let lists = vec![
        vec![number("1"), Token::Operator(Operator::Plus), number("2.5")],
        vec![
            Token::Brackets(Brackets::Start),
            number("10."),
            Token::Operator(Operator::Divide),
            Token::Operator(Operator::Minus),
            number("0.25"),
            Token::Brackets(Brackets::End),
            Token::Brackets(Brackets::End),
            Token::Operator(Operator::Multiply),
        ],
        vec![number("007")],
        vec![],
    ];
    for tokens in lists {
        assert_eq!(Ok(tokens.clone()), tokenize(&spelled(&tokens)));
    }
}

#[test]
fn spelled_numbers_side_by_side_run_together() {
    let tokens = vec![number("1"), number("2")];
    assert_eq!(Ok(vec![number("12")]), tokenize(&spelled(&tokens)));
}

#[test]
fn tokens_hold_numbers() {
    let tokens = tokenize("12.5 + 3. * (4 - 0.001) / 7").unwrap();
    for token in tokens {
        if let Token::Value(text) = token {
            assert!(text.starts_with(|c: char| c.is_ascii_digit()));
            assert!(text.chars().all(|c| c.is_ascii_digit() || c == '.'));
            assert!(text.chars().filter(|c| *c == '.').count() <= 1);
        }
    }
}
