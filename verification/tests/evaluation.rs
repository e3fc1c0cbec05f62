use calculator::{
    calculation, parse_inner_brackets, parse_token, tokenize, Block, Brackets, EvalError,
    Evaluation, Operator, Step, Token, Value,
};

/// The arithmetic of the tests: the operands read as `f64`, the result
/// written as `f64` is.
fn arithmetic(operator: Operator, lhs: &str, rhs: &str) -> Option<String> {
    let lhs = lhs.parse::<f64>().ok()?;
    let rhs = rhs.parse::<f64>().ok()?;
    let value = match operator {
        Operator::Plus => lhs + rhs,
        Operator::Minus => lhs - rhs,
        Operator::Multiply => lhs * rhs,
        Operator::Divide => lhs / rhs,
    };
    Some(value.to_string())
}

/// Drives `evaluation` to its end and counts the operations.
fn run_counting(mut evaluation: Evaluation) -> (Result<String, String>, usize) {
    let mut operations = 0;
    loop {
        match evaluation.step() {
            Step::Apply { operator, lhs, rhs } => {
                operations += 1;
                evaluation = evaluation.supply(arithmetic(operator, &lhs, &rhs));
            }
            Step::Done(text) => return (Ok(text), operations),
            Step::Failed(e) => return (Err(e.message()), operations),
        }
    }
}

fn run(evaluation: Evaluation) -> Result<String, String> {
    evaluation.run(arithmetic).map_err(|e| e.message())
}

fn execute(block: Block) -> Result<String, String> {
    run(Evaluation::begin(block))
}

fn finish(tree: Result<Block, EvalError>) -> Result<String, String> {
    match tree {
        Ok(block) => execute(block),
        Err(e) => Err(e.message()),
    }
}

fn calculate(target: &str) -> Result<String, String> {
    run(calculation(target)?)
}

fn number(text: &str) -> Value {
    Value::Val(String::from(text))
}

fn node(lhs: Value, operator: Operator, rhs: Value) -> Value {
    Value::Block(Box::new(Block::new(lhs, rhs, Value::Op(operator))))
}

fn tree(text: &str) -> Result<Block, EvalError> {
    parse_token(&tokenize(text).unwrap())
}

//----- parse_token test ---------------------------------------------------
#[test]
fn parse_token_test1() {
    let formula = String::from("1 + 1");
    let tokens = tokenize(&formula);
    let result = finish(parse_token(&tokens.unwrap()));

    assert_eq!(String::from("2"), result.unwrap());
}

#[test]
fn parse_token_test2() {
    let formula = String::from("5 - 2 + 10");
    let tokens = tokenize(&formula);
    let result = finish(parse_token(&tokens.unwrap()));

    assert_eq!(String::from("13"), result.unwrap());
}

#[test]
fn parse_token_test3() {
    let formula = String::from("10 + 5 + 3 - 2");
    let tokens = tokenize(&formula);
    let result = finish(parse_token(&tokens.unwrap()));

    assert_eq!(String::from("16"), result.unwrap());
}

#[test]
fn parse_token_test4() {
    let formula = String::from("10 - -2");
    let tokens = tokenize(&formula);
    let result = finish(parse_token(&tokens.unwrap()));

    assert_eq!(String::from("12"), result.unwrap());
}

#[test]
fn parse_token_test5() {
    let formula = String::from("10.5 + -2.2");
    let tokens = tokenize(&formula);
    let result = finish(parse_token(&tokens.unwrap()));

    assert_eq!(String::from("8.3"), result.unwrap());
}

#[test]
fn parse_token_test6() {
    let formula = String::from("(2 + 2) * (3 + 3)");
    let tokens = tokenize(&formula);
    let result = finish(parse_token(&tokens.unwrap()));

    assert_eq!(String::from("24"), result.unwrap());
}

#[test]
fn parse_token_test7() {
    let formula = String::from("5 * (4 + 4)");
    let tokens = tokenize(&formula);
    let result = finish(parse_token(&tokens.unwrap()));

    assert_eq!(String::from("40"), result.unwrap());
}

#[test]
fn parse_token_test8() {
    let formula = String::from("(6 - 2) / 2");
    let tokens = tokenize(&formula);
    let result = finish(parse_token(&tokens.unwrap()));

    assert_eq!(String::from("2"), result.unwrap());
}

#[test]
fn parse_token_test9() {
    let formula = String::from("((2 + 2) * (5 + 5)) / 2");
    let tokens = tokenize(&formula);
    let result = finish(parse_token(&tokens.unwrap()));

    assert_eq!(String::from("20"), result.unwrap());
}

#[test]
fn parse_token_test10() {
    let formula = String::from("3 * (((5 + 5) * 2) + 10) / 2");
    let tokens = tokenize(&formula);
    let result = finish(parse_token(&tokens.unwrap()));

    assert_eq!(String::from("45"), result.unwrap());
}

#[test]
fn parse_token_test11() {
    let formula = String::from("10 * (((1 + 1) / 2) - 9)");
    let tokens = tokenize(&formula);
    let result = finish(parse_token(&tokens.unwrap()));

    assert_eq!(String::from("-80"), result.unwrap());
}

//----- Block execute test -------------------------------------------------
// 1 + 2
#[test]
fn block_execute_plus_test() {
    let block = Block::new(
        Value::Val(String::from("1")),
        Value::Val(String::from("2")),
        Value::Op(Operator::Plus),
    );

    assert_eq!("3", execute(block).unwrap().as_str());
}

// 1 - 2
#[test]
fn block_execute_minus_test() {
    let block = Block::new(
        Value::Val(String::from("1")),
        Value::Val(String::from("2")),
        Value::Op(Operator::Minus),
    );

    assert_eq!("-1", execute(block).unwrap().as_str());
}

// 2 * 3
#[test]
fn block_execute_multiply_test() {
    let block = Block::new(
        Value::Val(String::from("2")),
        Value::Val(String::from("3")),
        Value::Op(Operator::Multiply),
    );

    assert_eq!("6", execute(block).unwrap().as_str());
}

// 10 / 5
#[test]
fn block_execute_divide_test() {
    let block = Block::new(
        Value::Val(String::from("10")),
        Value::Val(String::from("5")),
        Value::Op(Operator::Divide),
    );

    assert_eq!("2", execute(block).unwrap().as_str());
}

// 4 * 4 - 6
#[test]
fn block_execute_inner_block_left_test() {
    let block = Block::new(
        Value::Val(String::from("4")),
        Value::Val(String::from("4")),
        Value::Op(Operator::Multiply),
    );

    let block = Block::new(
        Value::Block(Box::new(block)),
        Value::Val(String::from("6")),
        Value::Op(Operator::Minus),
    );

    assert_eq!("10", execute(block).unwrap().as_str());
}

// (5 + 5) / 2
#[test]
fn block_execute_inner_block_right_test() {
    let block = Block::new(
        Value::Val(String::from("5")),
        Value::Val(String::from("5")),
        Value::Op(Operator::Plus),
    );

    let block = Block::new(
        Value::Val(String::from("2")),
        Value::Block(Box::new(block)),
        Value::Op(Operator::Divide),
    );

    assert_eq!("0.2", execute(block).unwrap().as_str());
}

// (3 + 7) * (6 + 4)
#[test]
fn block_execute_inner_block_left_right_test() {
    let block_l = Block::new(
        Value::Val(String::from("3")),
        Value::Val(String::from("7")),
        Value::Op(Operator::Plus),
    );

    let block_r = Block::new(
        Value::Val(String::from("6")),
        Value::Val(String::from("4")),
        Value::Op(Operator::Plus),
    );

    let block = Block::new(
        Value::Block(Box::new(block_l)),
        Value::Block(Box::new(block_r)),
        Value::Op(Operator::Multiply),
    );

    assert_eq!("100", execute(block).unwrap().as_str());
}

// 24 / (2 * 2 + 4)
#[test]
fn block_execute_inner_block_double_test() {
    let block = Block::new(
        Value::Val(String::from("2")),
        Value::Val(String::from("2")),
        Value::Op(Operator::Multiply),
    );

    let block = Block::new(
        Value::Block(Box::new(block)),
        Value::Val(String::from("4")),
        Value::Op(Operator::Plus),
    );

    let block = Block::new(
        Value::Val(String::from("24")),
        Value::Block(Box::new(block)),
        Value::Op(Operator::Divide),
    );

    assert_eq!("3", execute(block).unwrap().as_str());
}

//----- calculation test ---------------------------------------------------
#[test]
fn calculation_test1() {
    let result = run(calculation("10 * 2 + 1").unwrap()).unwrap();
    assert_eq!(String::from("21"), result);
}

#[test]
fn calculation_test2() {
    let result = run(calculation("10 * 2 + 1 - 2 + 10 / 2").unwrap()).unwrap();
    assert_eq!(String::from("24"), result);
}

#[test]
fn calculation_test3() {
    let result = run(calculation("(2.5 + 1.3) * 2").unwrap()).unwrap();
    assert_eq!(String::from("7.6"), result);
}

#[test]
fn calculation_test4() {
    let result = run(calculation("(3 - 4 * 2) / (9 / 3 - 1)").unwrap()).unwrap();
    assert_eq!(String::from("-2.5"), result);
}

#[test]
fn calculation_test5() {
    let result = run(calculation("((2 * (1 + 1)) + 3) / 2").unwrap()).unwrap();
    assert_eq!(String::from("3.5"), result);
}

#[test]
fn calculation_error_test1() {
    match calculation("2.5 + 3..5") {
        Ok(_) => panic!("エラーが発生しませんでした。"),
        Err(value) => assert_eq!("「.」が連続して出現しました。", value),
    }
}

#[test]
fn calculation_error_test2() {
    match calculation("ろ + 3..5") {
        Ok(_) => panic!("エラーが発生しませんでした。"),
        Err(value) => assert_eq!("予期せぬ文字が出現しました。「ろ」", value),
    }
}

//----- more on the reducer ------------------------------------------------
#[test]
fn calculation_signed_right_operand() {
    assert_eq!(Ok(String::from("12")), calculate("10 - -2"));
    assert_eq!(Ok(String::from("8")), calculate("10 - +2"));
    assert_eq!(Ok(String::from("-20")), calculate("10 * -2 + 0"));
}

#[test]
fn parse_token_builds_the_tree_from_left_to_right() {
    let expect = Block::new(
        node(number("5"), Operator::Minus, number("2")),
        number("10"),
        Value::Op(Operator::Plus),
    );
    assert_eq!(Ok(expect), tree("5 - 2 + 10"));
}

#[test]
fn parse_token_knows_no_precedence() {
    let expect = Block::new(
        node(number("1"), Operator::Plus, number("2")),
        number("3"),
        Value::Op(Operator::Multiply),
    );
    assert_eq!(Ok(expect), tree("1 + 2 * 3"));
}

#[test]
fn parse_token_sign_becomes_part_of_the_number() {
    let expect = Block::new(number("10"), number("-2.5"), Value::Op(Operator::Minus));
    assert_eq!(Ok(expect), tree("10 - -2.5"));
    let expect = Block::new(number("10"), number("2.5"), Value::Op(Operator::Divide));
    assert_eq!(Ok(expect), tree("10 / +2.5"));
}

#[test]
fn parse_token_group_is_an_operand() {
    let expect = Block::new(
        number("5"),
        node(number("4"), Operator::Plus, number("3")),
        Value::Op(Operator::Multiply),
    );
    assert_eq!(Ok(expect), tree("5 * (4 + 3)"));
    let expect = Block::new(
        node(number("4"), Operator::Plus, number("3")),
        number("5"),
        Value::Op(Operator::Multiply),
    );
    assert_eq!(Ok(expect), tree("(4 + 3) * 5"));
}

#[test]
fn parse_token_group_without_its_end() {
    let expect = Block::new(
        number("1"),
        node(number("2"), Operator::Plus, number("3")),
        Value::Op(Operator::Plus),
    );
    assert_eq!(Ok(expect), tree("1 + (2 + 3"));
}

#[test]
fn parse_token_expected_operand() {
    assert_eq!(Err(EvalError::ExpectedOperand), tree(""));
    assert_eq!(Err(EvalError::ExpectedOperand), tree("+ 1"));
    assert_eq!(Err(EvalError::ExpectedOperand), tree("1 +"));
    assert_eq!(Err(EvalError::ExpectedOperand), tree("1 + * 2"));
    assert_eq!(Err(EvalError::ExpectedOperand), tree("1 + - +"));
    assert_eq!(Err(EvalError::ExpectedOperand), tree("1 - -"));
    assert_eq!(Err(EvalError::ExpectedOperand), tree("1 - -(2 + 3)"));
    assert_eq!(Err(EvalError::ExpectedOperand), tree("()"));
    assert_eq!(Err(EvalError::ExpectedOperand), tree("1 + (2 - )"));
}

#[test]
fn parse_token_expected_operator() {
    assert_eq!(Err(EvalError::ExpectedOperator), tree("5"));
    assert_eq!(Err(EvalError::ExpectedOperator), tree("1 2"));
    assert_eq!(Err(EvalError::ExpectedOperator), tree("1 (2 + 3)"));
    assert_eq!(Err(EvalError::ExpectedOperator), tree("1 + 2 )"));
    assert_eq!(Err(EvalError::ExpectedOperator), tree("(1 + 2)"));
    assert_eq!(Err(EvalError::ExpectedOperator), tree("1 + (2)"));
}

#[test]
fn parse_token_unexpected_closing_bracket() {
    assert_eq!(Err(EvalError::UnexpectedClosingBracket), tree(") + 1"));
    assert_eq!(Err(EvalError::UnexpectedClosingBracket), tree("1 + )"));
}

#[test]
fn parse_token_first_error_wins() {
    assert_eq!(Err(EvalError::ExpectedOperand), tree("(1 + ) + )"));
    assert_eq!(Err(EvalError::UnexpectedClosingBracket), tree("(1 + 2) + ) +"));
}

#[test]
fn parse_inner_brackets_reads_one_group() {
    let tokens = tokenize("(1 + (2 - 3)) * 4").unwrap();
    let expect = node(
        number("1"),
        Operator::Plus,
        node(number("2"), Operator::Minus, number("3")),
    );
    assert_eq!(Ok((expect, 9)), parse_inner_brackets(&tokens, 0));
    let expect = node(number("2"), Operator::Minus, number("3"));
    assert_eq!(Ok((expect, 8)), parse_inner_brackets(&tokens, 3));
}

#[test]
fn parse_inner_brackets_group_without_its_end() {
    let tokens = vec![
        Token::Brackets(Brackets::Start),
        Token::Value(String::from("1")),
        Token::Operator(Operator::Plus),
        Token::Value(String::from("2")),
    ];
    assert_eq!(
        Ok((node(number("1"), Operator::Plus, number("2")), 4)),
        parse_inner_brackets(&tokens, 0)
    );
    assert_eq!(Err(EvalError::ExpectedOperand), parse_inner_brackets(&tokens, 3));
    assert_eq!(Err(EvalError::ExpectedOperand), parse_inner_brackets(&tokens, 4));
    assert_eq!(Err(EvalError::ExpectedOperand), parse_inner_brackets(&tokens, usize::MAX));
}

//----- more on the evaluation ---------------------------------------------
#[test]
fn block_execute_names_the_operation_that_is_due() {
    let inner = Block::new(number("4"), number("5"), Value::Op(Operator::Multiply));
    let block = Block::new(number("6"), Value::Block(Box::new(inner)), Value::Op(Operator::Minus));
    assert_eq!(
        Step::Apply { operator: Operator::Multiply, lhs: String::from("4"), rhs: String::from("5") },
        block.execute()
    );
    assert!(block.ready());
    let block = match block.resolve(String::from("20")) {
        Value::Block(block) => *block,
        other => panic!("{:?}", other),
    };
    assert_eq!(Block::new(number("6"), number("20"), Value::Op(Operator::Minus)), block);
    assert_eq!(
        Step::Apply { operator: Operator::Minus, lhs: String::from("6"), rhs: String::from("20") },
        block.execute()
    );
    assert_eq!(number("-14"), block.resolve(String::from("-14")));
}

#[test]
fn block_execute_left_operand_first() {
    let left = Block::new(number("1"), number("2"), Value::Op(Operator::Plus));
    let right = Block::new(number("3"), number("4"), Value::Op(Operator::Divide));
    let block = Block::new(
        Value::Block(Box::new(left)),
        Value::Block(Box::new(right)),
        Value::Op(Operator::Minus),
    );
    assert_eq!(
        Step::Apply { operator: Operator::Plus, lhs: String::from("1"), rhs: String::from("2") },
        block.execute()
    );
}

#[test]
fn block_execute_operator_in_an_operand_place() {
    let block = Block::new(Value::Op(Operator::Plus), number("2"), Value::Op(Operator::Plus));
    assert_eq!(Step::Failed(EvalError::ExpectedOperand), block.execute());
    assert!(!block.ready());
    assert_eq!(Err(EvalError::ExpectedOperand.message()), execute(block));
    let block = Block::new(number("2"), Value::Op(Operator::Plus), Value::Op(Operator::Plus));
    assert_eq!(Step::Failed(EvalError::ExpectedOperand), block.execute());
}

#[test]
fn block_execute_operand_in_the_operator_place() {
    let block = Block::new(number("1"), number("2"), number("3"));
    assert_eq!(Step::Failed(EvalError::ExpectedOperator), block.execute());
    let inner = Block::new(number("1"), number("2"), Value::Op(Operator::Plus));
    let block = Block::new(number("1"), number("2"), Value::Block(Box::new(inner)));
    assert_eq!(Err(EvalError::ExpectedOperator.message()), execute(block));
}

#[test]
fn block_execute_failure_after_the_operations_before_it() {
    let left = Block::new(number("1"), number("2"), Value::Op(Operator::Plus));
    let block =
        Block::new(Value::Block(Box::new(left)), Value::Op(Operator::Plus), Value::Op(Operator::Plus));
    let (result, operations) = run_counting(Evaluation::begin(block));
    assert_eq!(Err(EvalError::ExpectedOperand.message()), result);
    assert_eq!(1, operations);
}

#[test]
fn evaluation_invalid_number() {
    let block = Block::new(number("abc"), number("2"), Value::Op(Operator::Plus));
    let evaluation = Evaluation::begin(block).supply(None);
    assert_eq!(Evaluation::Failed(EvalError::InvalidNumber), evaluation);
    assert_eq!(Step::Failed(EvalError::InvalidNumber), evaluation.step());
    let tokens = vec![
        Token::Value(String::from("1")),
        Token::Operator(Operator::Plus),
        Token::Value(String::from("1.2.3")),
    ];
    assert_eq!(Err(EvalError::InvalidNumber.message()), finish(parse_token(&tokens)));
}

#[test]
fn evaluation_supply_where_nothing_is_due() {
    let done = Evaluation::Running(number("7"));
    assert_eq!(Step::Done(String::from("7")), done.step());
    assert_eq!(Evaluation::Running(number("7")), done.supply(Some(String::from("8"))));
    let failed = Evaluation::Failed(EvalError::ExpectedOperator);
    assert_eq!(Evaluation::Failed(EvalError::ExpectedOperator), failed.supply(None));
    let operator = Evaluation::Running(Value::Op(Operator::Plus));
    assert_eq!(Step::Failed(EvalError::ExpectedOperand), operator.step());
    let block = Block::new(number("1"), number("2"), number("3"));
    assert_eq!(
        Evaluation::begin(Block::new(number("1"), number("2"), number("3"))),
        Evaluation::begin(block).supply(Some(String::from("8")))
    );
}

#[test]
fn evaluation_run_and_steps_by_hand_agree() {
    for text in ["10 * 2 + 1 - 2 + 10 / 2", "(3 - 4 * 2) / (9 / 3 - 1)", "1 + 1 / 0", "7 - -7"] {
        let by_hand = run_counting(calculation(text).unwrap()).0;
        assert_eq!(by_hand, run(calculation(text).unwrap()));
    }
}

#[test]
fn evaluation_run_with_another_arithmetic() {
    let spelled = |operator: Operator, lhs: &str, rhs: &str| -> Option<String> {
        if lhs.is_empty() || rhs.is_empty() {
            return None;
        }
        let sign = match operator {
            Operator::Plus => '+',
            Operator::Minus => '-',
            Operator::Multiply => '*',
            Operator::Divide => '/',
        };
        Some(format!("[{lhs}{sign}{rhs}]"))
    };
    assert_eq!(
        Ok(String::from("[[1+[[2*3]/4]]-5]")),
        calculation("1 + 2 * 3 / 4 - 5").unwrap().run(spelled)
    );
    let block = Block::new(number(""), number("1"), Value::Op(Operator::Plus));
    assert_eq!(Err(EvalError::InvalidNumber), Evaluation::begin(block).run(spelled));
    assert_eq!(
        Err(EvalError::ExpectedOperator),
        Evaluation::Failed(EvalError::ExpectedOperator).run(spelled)
    );
    assert_eq!(Ok(String::from("7")), Evaluation::Running(number("7")).run(spelled));
}

#[test]
fn evaluation_one_operation_less_with_each_result() {
    let (result, operations) = run_counting(calculation("10 * 2 + 1 - 2 + 10 / 2").unwrap());
    assert_eq!(Ok(String::from("24")), result);
    assert_eq!(5, operations);
}

#[test]
fn eval_error_messages() {
    assert_eq!("数値を期待していましたが、数値以外が出現しました。", EvalError::ExpectedOperand.message());
    assert_eq!(
        "演算子を期待していましたが、演算子以外が出現しました。",
        EvalError::ExpectedOperator.message()
    );
    assert_eq!("想定外の終了かっこが出現しました。", EvalError::UnexpectedClosingBracket.message());
    assert_eq!("数値として解釈できない値が出現しました。", EvalError::InvalidNumber.message());
}

//----- more on the whole --------------------------------------------------
#[test]
fn calculation_product_before_sum() {
    assert_eq!(Ok(String::from("10")), calculate("2 * 3 + 4"));
    assert_eq!(Ok(String::from("-2.5")), calculate("3 / 2 - 4"));
    assert_eq!(finish(parse_token(&tokenize("(2 * 3) + 4").unwrap())), calculate("2 * 3 + 4"));
}

#[test]
fn calculation_product_after_sum() {
    assert_eq!(Ok(String::from("14")), calculate("2 + 3 * 4"));
    assert_eq!(Ok(String::from("1.25")), calculate("2 - 3 / 4"));
    assert_eq!(finish(parse_token(&tokenize("2 + (3 * 4)").unwrap())), calculate("2 + 3 * 4"));
}

#[test]
fn calculation_sums_from_left_to_right() {
    assert_eq!(Ok(String::from("9")), calculate("10 - 4 + 3"));
    assert_eq!(Ok(String::from("3")), calculate("10 - 4 - 3"));
    assert_eq!(calculate("(10 - 4) + 3"), calculate("10 - 4 + 3"));
}

#[test]
fn calculation_run_of_products_inside_a_sum() {
    assert_eq!(Ok(String::from("25")), calculate("1 + 2 * 3 * 4"));
    assert_eq!(Ok(String::from("7")), calculate("2 * 9 / 3 + 1"));
}

#[test]
fn calculation_sum_of_products() {
    assert_eq!(Ok(String::from("8")), calculate("1 + 2 * 3 - 8 / 4 * 3 + 7"));
    assert_eq!(Ok(String::from("-2")), calculate("6 / 3 / 2 - 3"));
    assert_eq!(Ok(String::from("5")), calculate("6 - 3 + 4 / 2"));
}

#[test]
fn calculation_division_by_zero() {
    assert_eq!(Ok(String::from("inf")), calculate("1 + 1 / 0"));
    assert_eq!(Ok(String::from("-inf")), calculate("0 - 1 / 0"));
    assert_eq!(Ok(String::from("NaN")), calculate("0 / 0 + 1"));
}

#[test]
fn calculation_reducer_errors() {
    assert_eq!(Err(EvalError::ExpectedOperand.message()), calculate(""));
    assert_eq!(Err(EvalError::ExpectedOperand.message()), calculate("1 +"));
    assert_eq!(Err(EvalError::ExpectedOperator.message()), calculate("1 2"));
    assert_eq!(Err(EvalError::ExpectedOperator.message()), calculate("7"));
    assert_eq!(Err(EvalError::UnexpectedClosingBracket.message()), calculate("1 + )"));
}

#[test]
fn calculation_product_alone_is_a_group_alone() {
    assert_eq!(Err(EvalError::ExpectedOperator.message()), calculate("2 * 3"));
    assert_eq!(Err(EvalError::ExpectedOperator.message()), calculate("(2 * 3) + 4"));
}

#[test]
fn calculation_lexer_error_before_reducer_error() {
    assert_eq!(Err(String::from("「.」が連続して出現しました。")), calculate("+ 1..2"));
}
