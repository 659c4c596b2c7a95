//! The data the parser produces and the evaluator consumes, with the
//! mathematical model of each type.

use vstd::prelude::*;

verus! {

/// The six binary operations of the language.
#[derive(Clone, Copy, PartialEq, Eq, Debug, Hash)]
pub enum Operator {
    Add,
    Subtract,
    Multiply,
    Divide,
    Power,
    Modulo,
}

/// An operand of a command, or a result of evaluation.
///
/// `Nothing` stands for "no result yet", `Variable` for a name that is looked
/// up when the command runs. A result of evaluation is never a `Variable`.
#[derive(Clone, PartialEq, Debug)]
pub enum Value<N> {
    Nothing,
    Operand(N),
    Variable(String),
}

/// One parsed line of a script.
#[derive(Clone, PartialEq, Debug)]
pub enum Command<N> {
    SetVar(String),
    Add(Vec<Value<N>>),
    Subtract(Vec<Value<N>>),
    Multiply(Vec<Value<N>>),
    Divide(Vec<Value<N>>),
    Power(Vec<Value<N>>),
    Modulo(Vec<Value<N>>),
}

/// Why parsing or evaluation stopped.
#[derive(Clone, PartialEq, Eq, Debug)]
pub enum EngineError {
    TooManyVariableNames,
    MissingVariableName,
    MissingOperands,
    UnknownCommand(String),
    MissingVariable(String),
    EvaluatorAnswerShouldNotBeValueVariable,
    NoValuesInQueue,
}

/// The model of a [`Value`]: names are sequences of characters.
pub enum Term<N> {
    Nothing,
    Number(N),
    Name(Seq<char>),
}

/// The model of a [`Command`]: the six arithmetic commands differ only in
/// their operator.
pub enum Instruction<N> {
    SetVar(Seq<char>),
    Apply(Operator, Seq<Term<N>>),
}

/// The model of an [`EngineError`].
pub enum Fault {
    TooManyVariableNames,
    MissingVariableName,
    MissingOperands,
    UnknownCommand(Seq<char>),
    MissingVariable(Seq<char>),
    EvaluatorAnswerShouldNotBeValueVariable,
    NoValuesInQueue,
}

impl<N> View for Value<N> {
    type V = Term<N>;

    open spec fn view(&self) -> Term<N> {
        match *self {
            Value::Nothing => Term::Nothing,
            Value::Operand(number) => Term::Number(number),
            Value::Variable(name) => Term::Name(name@),
        }
    }
}

/// The models of a sequence of values, in order.
pub open spec fn terms<N>(values: Seq<Value<N>>) -> Seq<Term<N>> {
    Seq::new(values.len(), |i: int| values[i]@)
}

impl<N> View for Command<N> {
    type V = Instruction<N>;

    open spec fn view(&self) -> Instruction<N> {
        match *self {
            Command::SetVar(name) => Instruction::SetVar(name@),
            Command::Add(operands) => Instruction::Apply(Operator::Add, terms(operands@)),
            Command::Subtract(operands) => Instruction::Apply(Operator::Subtract, terms(operands@)),
            Command::Multiply(operands) => Instruction::Apply(Operator::Multiply, terms(operands@)),
            Command::Divide(operands) => Instruction::Apply(Operator::Divide, terms(operands@)),
            Command::Power(operands) => Instruction::Apply(Operator::Power, terms(operands@)),
            Command::Modulo(operands) => Instruction::Apply(Operator::Modulo, terms(operands@)),
        }
    }
}

/// The models of a sequence of commands, in order.
pub open spec fn instructions<N>(commands: Seq<Command<N>>) -> Seq<Instruction<N>> {
    Seq::new(commands.len(), |i: int| commands[i]@)
}

impl View for EngineError {
    type V = Fault;

    open spec fn view(&self) -> Fault {
        match *self {
            EngineError::TooManyVariableNames => Fault::TooManyVariableNames,
            EngineError::MissingVariableName => Fault::MissingVariableName,
            EngineError::MissingOperands => Fault::MissingOperands,
            EngineError::UnknownCommand(token) => Fault::UnknownCommand(token@),
            EngineError::MissingVariable(name) => Fault::MissingVariable(name@),
            EngineError::EvaluatorAnswerShouldNotBeValueVariable => {
                Fault::EvaluatorAnswerShouldNotBeValueVariable
            },
            EngineError::NoValuesInQueue => Fault::NoValuesInQueue,
        }
    }
}

impl<N> Command<N> {
    /// The arithmetic command for `operator` over `operands`.
    pub fn arithmetic(operator: Operator, operands: Vec<Value<N>>) -> (command: Self)
        ensures
            command@ == Instruction::Apply(operator, terms(operands@)),
    {
        match operator {
            Operator::Add => Command::Add(operands),
            Operator::Subtract => Command::Subtract(operands),
            Operator::Multiply => Command::Multiply(operands),
            Operator::Divide => Command::Divide(operands),
            Operator::Power => Command::Power(operands),
            Operator::Modulo => Command::Modulo(operands),
        }
    }
}

} // verus!
