use rpn_engine::{parse, Command, EngineError, Evaluator, Operator, Value};

fn ieee(operator: Operator, acc: f64, x: f64) -> f64 {
    match operator {
        Operator::Add => acc + x,
        Operator::Subtract => acc - x,
        Operator::Multiply => acc * x,
        Operator::Divide => acc / x,
        Operator::Power => acc.powf(x),
        Operator::Modulo => acc % x,
    }
}

fn float(token: &str) -> f64 {
    token.parse::<f64>().unwrap()
}

#[test]
fn test_eval_add() -> Result<(), EngineError> {
    let commands = vec![
        Command::Add(vec![Value::Operand(1.0), Value::Operand(2.0)]),
        Command::Add(vec![Value::Operand(3.0), Value::Operand(4.0), Value::Operand(5.0)]),
    ];

    let evaluator = Evaluator::new();

    let result = evaluator.evaluate(&commands, &ieee)?;

    assert_eq!(result, Value::Operand(15.0));

    Ok(())
}

#[test]
fn test_eval_variables() -> Result<(), EngineError> {
    let commands = vec![
        Command::Add(vec![Value::Operand(5.0), Value::Operand(5.0)]),
        Command::SetVar(String::from("derp")),
        Command::Add(vec![Value::Operand(2.0), Value::Operand(2.0)]),
        Command::SetVar(String::from("blorp")),
        Command::Add(vec![Value::Operand(5.0), Value::Variable(String::from("derp"))]),
    ];

    let evaluator = Evaluator::new();

    let result = evaluator.evaluate(&commands, &ieee)?;

    assert_eq!(result, Value::Operand(15.0));

    Ok(())
}

#[test]
fn test_parse_add() -> Result<(), EngineError> {
    let input = "1 2 3 +\n4 5 +";

    let commands = parse(input, &float)?;

    let evaluator = Evaluator::new();

    let result = evaluator.evaluate(&commands, &ieee)?;

    assert_eq!(result, Value::Operand(15.0));

    Ok(())
}

#[test]
fn test_parse_add_plus() -> Result<(), EngineError> {
    let input = "1 2 3 +\n4 5 plus";

    let commands = parse(input, &float)?;

    let evaluator = Evaluator::new();

    let result = evaluator.evaluate(&commands, &ieee)?;

    assert_eq!(result, Value::Operand(15.0));

    Ok(())
}

#[test]
fn test_parse_add_plus_add() -> Result<(), EngineError> {
    let input = "1 2 3 +\n4 5 plus\n 6 add";

    let commands = parse(input, &float)?;

    let evaluator = Evaluator::new();

    let result = evaluator.evaluate(&commands, &ieee)?;

    assert_eq!(result, Value::Operand(21.0));

    Ok(())
}

#[test]
fn test_parse_subtract() -> Result<(), EngineError> {
    let input = "20 2 -\n3 5 minus\n1 subtract";

    let commands = parse(input, &float)?;

    let evaluator = Evaluator::new();

    let result = evaluator.evaluate(&commands, &ieee)?;

    assert_eq!(result, Value::Operand(9.0));

    Ok(())
}

#[test]
fn test_parse_add_subtract() -> Result<(), EngineError> {
    let input = "20 5 +\n3 4 -";

    let commands = parse(input, &float)?;

    let evaluator = Evaluator::new();

    let result = evaluator.evaluate(&commands, &ieee)?;

    assert_eq!(result, Value::Operand(18.0));

    Ok(())
}

#[test]
fn test_parse_multiply() -> Result<(), EngineError> {
    let input = "2 5 x\n3 4 *\n5 times\n6 multiply";

    let commands = parse(input, &float)?;

    let evaluator = Evaluator::new();

    let result = evaluator.evaluate(&commands, &ieee)?;

    assert_eq!(result, Value::Operand(3600.0));

    Ok(())
}

#[test]
fn test_parse_divide() -> Result<(), EngineError> {
    let input = "100 2 /\n5 divide\n2 div";

    let commands = parse(input, &float)?;

    let evaluator = Evaluator::new();

    let result = evaluator.evaluate(&commands, &ieee)?;

    assert_eq!(result, Value::Operand(5.0));

    Ok(())
}

#[test]
fn test_parse_power() -> Result<(), EngineError> {
    let input = "2 1 **\n3 ^\n2 2 power";

    let commands = parse(input, &float)?;

    let evaluator = Evaluator::new();

    let result = evaluator.evaluate(&commands, &ieee)?;

    assert_eq!(result, Value::Operand(4096.0));

    Ok(())
}

#[test]
fn test_parse_comment() -> Result<(), EngineError> {
    let input = "#2 2\n# 2 1 +\n3 2 +\n4 5 plus";

    let commands = parse(input, &float)?;

    let evaluator = Evaluator::new();

    let result = evaluator.evaluate(&commands, &ieee)?;

    assert_eq!(result, Value::Operand(14.0));

    Ok(())
}

#[test]
fn test_parse_modulus() -> Result<(), EngineError> {
    let input = "29 17 %\n7 mod\n3 modulus\n3 modulo";

    let commands = parse(input, &float)?;

    let evaluator = Evaluator::new();

    let result = evaluator.evaluate(&commands, &ieee)?;

    assert_eq!(result, Value::Operand(2.0));

    Ok(())
}

#[test]
fn test_parse_variables() -> Result<(), EngineError> {
    let input = "5 5 +\n= derp\n2 2 +\n= blorp\n5 derp add";

    let commands = parse(input, &float)?;

    let evaluator = Evaluator::new();

    let result = evaluator.evaluate(&commands, &ieee)?;

    assert_eq!(result, Value::Operand(15.0));

    Ok(())
}

#[test]
fn test_parse_negatives() -> Result<(), EngineError> {
    let input = "5 -5 +";

    let commands = parse(input, &float)?;

    let evaluator = Evaluator::new();

    let result = evaluator.evaluate(&commands, &ieee)?;

    assert_eq!(result, Value::Operand(0.0));

    Ok(())
}
