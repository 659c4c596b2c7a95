use rpn_engine::{parse, Command, EngineError, Evaluator, Operator, Value};

fn ieee(operator: Operator, acc: f64, x: f64) -> f64 {
    match operator {
        Operator::Add => acc + x,
        Operator::Subtract => acc - x,
        Operator::Multiply => acc * x,
        Operator::Divide => acc / x,
        Operator::Power => acc.powf(x),
        Operator::Modulo => acc % x,
    }
}

fn float(token: &str) -> f64 {
    token.parse::<f64>().unwrap()
}

fn run(script: &str) -> Result<Value<f64>, EngineError> {
    rpn_engine::run(script, &float, &ieee)
}

#[test]
fn running_a_script_is_parsing_and_then_evaluating() {
    for script in [
        "",
        "1 2 +",
        "1 2 +\n= x\nx x *",
        "1 2 +\n= x",
        "= x",
        "1 y +",
        "1 2 foo",
        "y +\n1 2 foo",
        "1 +\n=\ny +",
    ] {
        let by_hand = match parse(script, &float) {
            Ok(commands) => Evaluator::new().evaluate(&commands, &ieee),
            Err(error) => Err(error),
        };
        assert_eq!(run(script), by_hand, "{:?}", script);
    }
    assert_eq!(run("1 2 +\n= x\nx x *"), Ok(Value::Operand(9.0)));
    assert_eq!(
        run("y +\n1 2 foo"),
        Err(EngineError::UnknownCommand(String::from("foo")))
    );
}

#[test]
fn single_line_is_a_left_fold_of_its_operands() {
    assert_eq!(run("1 2 3 +"), Ok(Value::Operand(6.0)));
    assert_eq!(run("10 2 3 -"), Ok(Value::Operand(5.0)));
    assert_eq!(run("2 3 4 *"), Ok(Value::Operand(24.0)));
    assert_eq!(run("64 4 2 /"), Ok(Value::Operand(8.0)));
    assert_eq!(run("2 3 2 ^"), Ok(Value::Operand(64.0)));
    assert_eq!(run("29 17 5 %"), Ok(Value::Operand(2.0)));
}

#[test]
fn single_operand_line_is_that_operand() {
    assert_eq!(run("7 +"), Ok(Value::Operand(7.0)));
    assert_eq!(run("7 /"), Ok(Value::Operand(7.0)));
}

#[test]
fn consecutive_lines_chain_through_the_accumulator() {
    assert_eq!(run("1 2 +\n3 -"), Ok(Value::Operand(0.0)));
    assert_eq!(run("1 2 +\n3 -\n4 5 *"), Ok(Value::Operand(0.0)));
    assert_eq!(run("8 2 -\n3 /"), Ok(Value::Operand(2.0)));
}

#[test]
fn running_in_two_parts_is_running_at_once() {
    let first = parse("1 2 +\n= a\n4 a *", &float).unwrap();
    let second = parse("a 3 -\n2 ^", &float).unwrap();
    let mut whole = first.clone();
    whole.extend(second.clone());

    let mut stepwise: Evaluator<f64> = Evaluator::new();
    for command in first.iter().chain(second.iter()) {
        stepwise.execute(command, &ieee).unwrap();
    }

    let at_once = Evaluator::new().evaluate(&whole, &ieee);
    assert_eq!(at_once, Ok(stepwise.answer()));
    assert_eq!(at_once, Ok(Value::Operand(36.0)));
}

#[test]
fn operator_aliases_are_equivalent() {
    let families: Vec<(Vec<&str>, f64)> = vec![
        (vec!["+", "plus", "add"], 15.0),
        (vec!["-", "minus", "subtract"], 9.0),
        (vec!["x", "*", "times", "multiply"], 36.0),
        (vec!["/", "div", "divide"], 4.0),
        (vec!["**", "^", "power"], 1728.0),
        (vec!["%", "mod", "modulus", "modulo"], 0.0),
    ];
    for (words, expected) in families {
        let first = parse(&format!("12 3 {}", words[0]), &float).unwrap();
        for word in words {
            let script = format!("12 3 {}", word);
            assert_eq!(parse(&script, &float).unwrap(), first);
            assert_eq!(run(&script), Ok(Value::Operand(expected)));
        }
    }
}

#[test]
fn operator_words_are_case_sensitive() {
    assert_eq!(
        run("1 2 Plus"),
        Err(EngineError::UnknownCommand(String::from("Plus")))
    );
    assert_eq!(run("1 2 X"), Err(EngineError::UnknownCommand(String::from("X"))));
}

#[test]
fn an_operator_word_after_the_marker_is_a_name() {
    assert_eq!(
        parse("= plus", &float),
        Ok(vec![Command::<f64>::SetVar(String::from("plus"))])
    );
    assert_eq!(
        parse("= add", &float),
        Ok(vec![Command::<f64>::SetVar(String::from("add"))])
    );
}

#[test]
fn comment_lines_never_affect_the_result() {
    assert_eq!(run("#5 5 +\n3 2 +"), Ok(Value::Operand(5.0)));
    assert_eq!(run("3 2 +\n# 5 5 +"), Ok(Value::Operand(5.0)));
    assert_eq!(run("3 2 +\n#\n4 *"), Ok(Value::Operand(20.0)));
    assert_eq!(run("  \t# 1 2 foo\n3 2 +"), Ok(Value::Operand(5.0)));
    assert_eq!(
        parse("3 2 +\n# note\n4 *", &float),
        parse("3 2 +\n4 *", &float)
    );
}

#[test]
fn blank_lines_never_affect_the_result() {
    assert_eq!(run("\n\n3 2 +\n\n \t \n4 *\n\n"), Ok(Value::Operand(20.0)));
    assert_eq!(parse("\n3 2 +\n\n", &float), parse("3 2 +", &float));
    assert_eq!(parse("", &float), Ok(Vec::<Command<f64>>::new()));
}

#[test]
fn variable_round_trip() {
    assert_eq!(run("5 5 +\n= x\n2 2 +\n5 x add"), Ok(Value::Operand(19.0)));
}

#[test]
fn assignment_overwrites_an_earlier_value() {
    assert_eq!(run("1 +\n= x\n2 +\n= x\nx x +"), Ok(Value::Operand(4.0)));
}

#[test]
fn missing_variable_reference_fails() {
    assert_eq!(
        run("5 y +"),
        Err(EngineError::MissingVariable(String::from("y")))
    );
}

#[test]
fn the_first_missing_variable_is_reported() {
    assert_eq!(
        run("1 +\n= b\na b c +"),
        Err(EngineError::MissingVariable(String::from("a")))
    );
    assert_eq!(
        run("1 +\n= a\na b c +"),
        Err(EngineError::MissingVariable(String::from("b")))
    );
}

#[test]
fn a_line_of_unset_names_alone_fails_with_the_name() {
    assert_eq!(
        run("y +"),
        Err(EngineError::MissingVariable(String::from("y")))
    );
}

#[test]
fn assignment_with_empty_accumulator_fails() {
    assert_eq!(run("= x"), Err(EngineError::NoValuesInQueue));
    assert_eq!(run("1 +\n= x\n= y"), Err(EngineError::NoValuesInQueue));
}

#[test]
fn unknown_trailing_token_fails_fast() {
    assert_eq!(
        run("1 2 foo"),
        Err(EngineError::UnknownCommand(String::from("foo")))
    );
    assert_eq!(
        parse("1 2 +\n1 2 foo\n= a b\n3 bar", &float),
        Err(EngineError::UnknownCommand(String::from("foo")))
    );
}

#[test]
fn division_and_modulo_follow_floating_semantics() {
    assert_eq!(run("1 0 /"), Ok(Value::Operand(f64::INFINITY)));
    assert_eq!(run("-1 0 /"), Ok(Value::Operand(f64::NEG_INFINITY)));
    match run("0 0 /") {
        Ok(Value::Operand(number)) => assert!(number.is_nan()),
        other => panic!("{:?}", other),
    }
    match run("1 0 %") {
        Ok(Value::Operand(number)) => assert!(number.is_nan()),
        other => panic!("{:?}", other),
    }
    assert_eq!(run("-7 3 %"), Ok(Value::Operand(-1.0)));
    assert_eq!(run("7 -3 %"), Ok(Value::Operand(1.0)));
    assert_eq!(run("7.5 2 %"), Ok(Value::Operand(1.5)));
}

#[test]
fn power_follows_floating_semantics() {
    assert_eq!(run("4 0.5 ^"), Ok(Value::Operand(2.0)));
    assert_eq!(run("2 -1 ^"), Ok(Value::Operand(0.5)));
    match run("-8 0.5 ^") {
        Ok(Value::Operand(number)) => assert!(number.is_nan()),
        other => panic!("{:?}", other),
    }
}

#[test]
fn parsing_twice_gives_the_same_commands() {
    let script = "1 2 3 +\n# note\n= total\n\n4 total x\n2.5 -1e3 inf power";
    let once = parse(script, &float);
    let again = parse(script, &float);
    assert!(once.is_ok());
    assert_eq!(once, again);

    let broken = "1 2 +\n= a b\n3 foo";
    assert_eq!(parse(broken, &float), parse(broken, &float));
    assert_eq!(parse(broken, &float), Err(EngineError::TooManyVariableNames));
}

#[test]
fn a_script_that_ends_in_an_assignment_has_no_answer() {
    assert_eq!(run("1 2 +\n= x"), Ok(Value::Nothing));
    assert_eq!(run(""), Ok(Value::Nothing));
    assert_eq!(run("# nothing here\n\n"), Ok(Value::Nothing));
}

#[test]
fn faults_do_not_depend_on_the_arithmetic() {
    let zero = |_: Operator, _: f64, _: f64| 0.0;
    let scripts = [
        "1 2 +\n= x\n= y",
        "1 2 +\nx 3 *",
        "1 2 +\n= x\nx y z %",
        "1 2 +\n= x\nx 2 -",
    ];
    for script in scripts {
        let commands = parse(script, &float).unwrap();
        let with_ieee = Evaluator::new().evaluate(&commands, &ieee);
        let with_zero = Evaluator::new().evaluate(&commands, &zero);
        assert_eq!(with_ieee.is_err(), with_zero.is_err());
        if with_ieee.is_err() {
            assert_eq!(with_ieee, with_zero);
        }
    }
}

#[test]
fn a_line_cut_in_two_computes_the_same() {
    assert_eq!(run("1 2 3 4 +"), run("1 2 +\n3 4 +"));
    assert_eq!(run("100 5 2 3 -"), run("100 5 -\n2 3 -"));
    assert_eq!(run("100 5 2 /"), run("100 /\n5 2 /"));
    assert_eq!(run("2 3 2 ^"), run("2 3 ^\n2 ^"));
    assert_eq!(run("2 3 2 ^"), Ok(Value::Operand(64.0)));
}

#[test]
fn white_space_at_the_end_of_a_line_changes_nothing() {
    assert_eq!(parse("1 2 +\r", &float), parse("1 2 +", &float));
    assert_eq!(parse("= x \t\u{a0}", &float), parse("= x", &float));
    assert_eq!(parse("1 2 foo\r", &float), parse("1 2 foo", &float));
}
