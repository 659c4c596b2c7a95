//! From script text to commands.
//!
//! What a script says is fixed by its text alone: [`script`] gives, for
//! every text, either its statements or the first fault in it. A statement
//! still holds its operands as written. Which operands are numbers is fixed
//! by the text too; what number a literal stands for is the work of the
//! caller's converter. So the parsing functions promise commands that
//! *realize* the statements: the same operations, on variables where the
//! statement has names and on the converter's numbers where it has number
//! literals.

use vstd::prelude::*;
use crate::literal::{is_number, is_number_literal};
use crate::text::{lines, same_text, split_lines, split_words, texts, words};
use crate::values::{
    instructions, terms, Command, EngineError, Fault, Instruction, Operator, Term, Value,
};

verus! {

/// One line of a script as written: what to do, with the operands still text.
pub enum Statement {
    /// `= name`
    Assign(Seq<char>),
    /// `operand ... operator`
    Apply(Operator, Seq<Seq<char>>),
}

/// The operator that `token` selects, if it is one of the operator words.
/// The match is exact and case-sensitive.
pub open spec fn operator_of(token: Seq<char>) -> Option<Operator> {
    if token == "+"@ || token == "plus"@ || token == "add"@ {
        Some(Operator::Add)
    } else if token == "-"@ || token == "minus"@ || token == "subtract"@ {
        Some(Operator::Subtract)
    } else if token == "x"@ || token == "*"@ || token == "times"@ || token == "multiply"@ {
        Some(Operator::Multiply)
    } else if token == "/"@ || token == "div"@ || token == "divide"@ {
        Some(Operator::Divide)
    } else if token == "**"@ || token == "^"@ || token == "power"@ {
        Some(Operator::Power)
    } else if token == "%"@ || token == "mod"@ || token == "modulus"@ || token == "modulo"@ {
        Some(Operator::Modulo)
    } else {
        None
    }
}

/// Whether a line that starts with `token` is a comment.
pub open spec fn is_comment(token: Seq<char>) -> bool {
    token.len() > 0 && token[0] == '#'
}

/// Whether a line that starts with `token` is an assignment.
pub open spec fn is_assignment(token: Seq<char>) -> bool {
    token == "="@
}

/// What an assignment line says: exactly one name follows the marker.
pub open spec fn assignment(tokens: Seq<Seq<char>>) -> Result<Statement, Fault> {
    if tokens.len() <= 1 {
        Err(Fault::MissingVariableName)
    } else if tokens.len() >= 3 {
        Err(Fault::TooManyVariableNames)
    } else {
        Ok(Statement::Assign(tokens[1]))
    }
}

/// What an operation line says: all tokens but the last are operands, and
/// there is at least one.
pub open spec fn application(operator: Operator, tokens: Seq<Seq<char>>) -> Result<
    Statement,
    Fault,
> {
    if tokens.len() <= 1 {
        Err(Fault::MissingOperands)
    } else {
        Ok(Statement::Apply(operator, tokens.drop_last()))
    }
}

/// What the line with these words says: nothing (a blank line or a comment),
/// a statement, or a fault.
pub open spec fn line_statement(tokens: Seq<Seq<char>>) -> Result<Option<Statement>, Fault> {
    if tokens.len() == 0 || is_comment(tokens[0]) {
        Ok(None)
    } else if is_assignment(tokens[0]) {
        match assignment(tokens) {
            Ok(statement) => Ok(Some(statement)),
            Err(fault) => Err(fault),
        }
    } else {
        match operator_of(tokens.last()) {
            Some(operator) => match application(operator, tokens) {
                Ok(statement) => Ok(Some(statement)),
                Err(fault) => Err(fault),
            },
            None => Err(Fault::UnknownCommand(tokens.last())),
        }
    }
}

/// What these lines say, in order: the statements of the lines that say
/// something, or the fault of the first line that has one.
pub open spec fn statements(lines: Seq<Seq<char>>) -> Result<Seq<Statement>, Fault>
    decreases lines.len(),
{
    if lines.len() == 0 {
        Ok(seq![])
    } else {
        match line_statement(words(lines[0])) {
            Err(fault) => Err(fault),
            Ok(first) => match statements(lines.drop_first()) {
                Err(fault) => Err(fault),
                Ok(rest) => Ok(
                    match first {
                        Some(statement) => seq![statement] + rest,
                        None => rest,
                    },
                ),
            },
        }
    }
}

/// What a script says.
pub open spec fn script(text: Seq<char>) -> Result<Seq<Statement>, Fault> {
    statements(lines(text))
}

/// The converter can be called on every number literal.
pub open spec fn converts_all<N, C: Fn(&str) -> N>(convert: &C) -> bool {
    forall|token: &str| is_number(token@) ==> call_requires(*convert, (token,))
}

/// `number` is something the converter may return for a token with this
/// text.
pub open spec fn converts<N, C: Fn(&str) -> N>(convert: &C, token: Seq<char>, number: N) -> bool {
    exists|s: &str| s@ == token && #[trigger] call_ensures(*convert, (s,), number)
}

/// `operand` is what `token` stands for: where the token is a number
/// literal, a number that the converter made of it; else the variable of
/// that name.
pub open spec fn reads_as<N, C: Fn(&str) -> N>(
    convert: &C,
    token: Seq<char>,
    operand: Term<N>,
) -> bool {
    if is_number(token) {
        operand is Number && converts(convert, token, operand->Number_0)
    } else {
        operand == Term::<N>::Name(token)
    }
}

/// Token by token, `operands` is what `tokens` stand for.
pub open spec fn reads_all<N, C: Fn(&str) -> N>(
    convert: &C,
    tokens: Seq<Seq<char>>,
    operands: Seq<Term<N>>,
) -> bool {
    &&& operands.len() == tokens.len()
    &&& forall|i: int|
        0 <= i < tokens.len() ==> reads_as(convert, tokens[i], #[trigger] operands[i])
}

/// `instruction` does what `statement` says: the same operation on what
/// the operands stand for.
pub open spec fn realizes<N, C: Fn(&str) -> N>(
    convert: &C,
    statement: Statement,
    instruction: Instruction<N>,
) -> bool {
    match statement {
        Statement::Assign(name) => instruction == Instruction::<N>::SetVar(name),
        Statement::Apply(operator, tokens) => {
            &&& instruction is Apply
            &&& instruction->Apply_0 == operator
            &&& reads_all(convert, tokens, instruction->Apply_1)
        },
    }
}

/// Statement by statement, `program` does what `statements` say.
pub open spec fn realizes_all<N, C: Fn(&str) -> N>(
    convert: &C,
    statements: Seq<Statement>,
    program: Seq<Instruction<N>>,
) -> bool {
    &&& program.len() == statements.len()
    &&& forall|i: int|
        0 <= i < statements.len() ==> realizes(convert, statements[i], #[trigger] program[i])
}

/// `outcome` is an outcome of parsing `text`: the fault of the script if it
/// has one, else a program that does what its statements say.
pub open spec fn parses_to<N, C: Fn(&str) -> N>(
    convert: &C,
    text: Seq<char>,
    outcome: Result<Seq<Instruction<N>>, Fault>,
) -> bool {
    match script(text) {
        Ok(statements) => outcome is Ok && realizes_all(convert, statements, outcome->Ok_0),
        Err(fault) => outcome == Err::<Seq<Instruction<N>>, Fault>(fault),
    }
}

/// The model of what [`parse`] returns.
pub open spec fn parsed<N>(result: Result<Vec<Command<N>>, EngineError>) -> Result<
    Seq<Instruction<N>>,
    Fault,
> {
    match result {
        Ok(commands) => Ok(instructions(commands@)),
        Err(error) => Err(error@),
    }
}

/// `got` is the outcome that `expected` calls for.
pub open spec fn parsed_as<N, C: Fn(&str) -> N>(
    convert: &C,
    expected: Result<Statement, Fault>,
    got: Result<Command<N>, EngineError>,
) -> bool {
    match expected {
        Ok(statement) => got is Ok && realizes(convert, statement, got->Ok_0@),
        Err(fault) => got is Err && got->Err_0@ == fault,
    }
}

/// The operator that `token` selects, if any.
pub fn recognize_operator(token: &str) -> (r: Option<Operator>)
    ensures
        r == operator_of(token@),
{
    if same_text(token, "+") || same_text(token, "plus") || same_text(token, "add") {
        Some(Operator::Add)
    } else if same_text(token, "-") || same_text(token, "minus") || same_text(token, "subtract") {
        Some(Operator::Subtract)
    } else if same_text(token, "x") || same_text(token, "*") || same_text(token, "times")
        || same_text(token, "multiply") {
        Some(Operator::Multiply)
    } else if same_text(token, "/") || same_text(token, "div") || same_text(token, "divide") {
        Some(Operator::Divide)
    } else if same_text(token, "**") || same_text(token, "^") || same_text(token, "power") {
        Some(Operator::Power)
    } else if same_text(token, "%") || same_text(token, "mod") || same_text(token, "modulus")
        || same_text(token, "modulo") {
        Some(Operator::Modulo)
    } else {
        None
    }
}

/// Reads one operand: a number where the token is a number literal, else a
/// variable of that name. Never fails.
pub fn parse_float<N, C: Fn(&str) -> N>(input: &str, convert: &C) -> (r: Result<
    Value<N>,
    EngineError,
>)
    requires
        converts_all(convert),
    ensures
        r is Ok,
        reads_as(convert, input@, r->Ok_0@),
{
    if is_number_literal(input) {
        Ok(Value::Operand(convert(input)))
    } else {
        Ok(Value::Variable(input.to_owned()))
    }
}

/// Reads the operands of a line, one by one and in order. Never fails.
pub fn parse_operands<N, C: Fn(&str) -> N>(operand_strings: &[&str], convert: &C) -> (r:
    Result<Vec<Value<N>>, EngineError>)
    requires
        converts_all(convert),
    ensures
        r is Ok,
        reads_all(convert, texts(operand_strings@), terms(r->Ok_0@)),
{
    let mut operands: Vec<Value<N>> = Vec::new();
    let mut i: usize = 0;
    while i < operand_strings.len()
        invariant
            converts_all(convert),
            i <= operand_strings.len(),
            operands.len() == i,
            forall|j: int|
                0 <= j < i ==> reads_as(convert, operand_strings@[j]@, #[trigger] operands@[j]@),
        decreases operand_strings.len() - i,
    {
        match parse_float(operand_strings[i], convert) {
            Ok(operand) => {
                operands.push(operand);
            },
            Err(error) => {
                return Err(error);
            },
        }
        i += 1;
    }
    Ok(operands)
}

/// The name of a variable is its token as written.
pub fn parse_var_name(var_name: &str) -> (r: Result<String, EngineError>)
    ensures
        r is Ok,
        r->Ok_0@ == var_name@,
{
    Ok(var_name.to_owned())
}

/// Parses the words of an assignment line, the marker included.
pub fn parse_set_var<N>(input: &[&str]) -> (r: Result<Command<N>, EngineError>)
    ensures
        match assignment(texts(input@)) {
            Ok(statement) => r is Ok && r->Ok_0@ == Instruction::<N>::SetVar(
                statement->Assign_0,
            ),
            Err(fault) => r is Err && r->Err_0@ == fault,
        },
{
    if input.len() <= 1 {
        return Err(EngineError::MissingVariableName);
    }
    if input.len() >= 3 {
        return Err(EngineError::TooManyVariableNames);
    }
    match parse_var_name(input[1]) {
        Ok(var_name) => Ok(Command::SetVar(var_name)),
        Err(error) => Err(error),
    }
}

/// Parses the words of an operation line for `operator`, its last word (the
/// operator word) included.
pub fn parse_operation<N, C: Fn(&str) -> N>(
    operator: Operator,
    input: &[&str],
    convert: &C,
) -> (r: Result<Command<N>, EngineError>)
    requires
        converts_all(convert),
    ensures
        parsed_as(convert, application(operator, texts(input@)), r),
{
    if input.len() <= 1 {
        return Err(EngineError::MissingOperands);
    }
    let (operand_strings, _) = input.split_at(input.len() - 1);
    proof {
        assert(texts(operand_strings@) =~= texts(input@).drop_last());
    }
    match parse_operands(operand_strings, convert) {
        Ok(operands) => Ok(Command::arithmetic(operator, operands)),
        Err(error) => Err(error),
    }
}

/// Parses the words of an addition line.
pub fn parse_add<N, C: Fn(&str) -> N>(input: &[&str], convert: &C) -> (r: Result<
    Command<N>,
    EngineError,
>)
    requires
        converts_all(convert),
    ensures
        parsed_as(convert, application(Operator::Add, texts(input@)), r),
{
    parse_operation(Operator::Add, input, convert)
}

/// Parses the words of a subtraction line.
pub fn parse_subtract<N, C: Fn(&str) -> N>(input: &[&str], convert: &C) -> (r: Result<
    Command<N>,
    EngineError,
>)
    requires
        converts_all(convert),
    ensures
        parsed_as(convert, application(Operator::Subtract, texts(input@)), r),
{
    parse_operation(Operator::Subtract, input, convert)
}

/// Parses the words of a multiplication line.
pub fn parse_multiply<N, C: Fn(&str) -> N>(input: &[&str], convert: &C) -> (r: Result<
    Command<N>,
    EngineError,
>)
    requires
        converts_all(convert),
    ensures
        parsed_as(convert, application(Operator::Multiply, texts(input@)), r),
{
    parse_operation(Operator::Multiply, input, convert)
}

/// Parses the words of a division line.
pub fn parse_divide<N, C: Fn(&str) -> N>(input: &[&str], convert: &C) -> (r: Result<
    Command<N>,
    EngineError,
>)
    requires
        converts_all(convert),
    ensures
        parsed_as(convert, application(Operator::Divide, texts(input@)), r),
{
    parse_operation(Operator::Divide, input, convert)
}

/// Parses the words of an exponentiation line.
pub fn parse_power<N, C: Fn(&str) -> N>(input: &[&str], convert: &C) -> (r: Result<
    Command<N>,
    EngineError,
>)
    requires
        converts_all(convert),
    ensures
        parsed_as(convert, application(Operator::Power, texts(input@)), r),
{
    parse_operation(Operator::Power, input, convert)
}

/// Parses the words of a remainder line.
pub fn parse_modulo<N, C: Fn(&str) -> N>(input: &[&str], convert: &C) -> (r: Result<
    Command<N>,
    EngineError,
>)
    requires
        converts_all(convert),
    ensures
        parsed_as(convert, application(Operator::Modulo, texts(input@)), r),
{
    parse_operation(Operator::Modulo, input, convert)
}

/// Whether a line that starts with `token` is a comment.
pub fn starts_comment(token: &str) -> (r: bool)
    ensures
        r == is_comment(token@),
{
    !token.is_empty() && token.get_char(0) == '#'
}

/// Parses the words of one line: no command for a blank line or a comment,
/// else the line's command or its fault.
pub fn parse_line<N, C: Fn(&str) -> N>(tokens: &[&str], convert: &C) -> (r: Result<
    Option<Command<N>>,
    EngineError,
>)
    requires
        converts_all(convert),
    ensures
        match line_statement(texts(tokens@)) {
            Ok(None) => r is Ok && r->Ok_0 is None,
            Ok(Some(statement)) => r is Ok && r->Ok_0 is Some && realizes(
                convert,
                statement,
                r->Ok_0->Some_0@,
            ),
            Err(fault) => r is Err && r->Err_0@ == fault,
        },
{
    if tokens.len() == 0 {
        return Ok(None);
    }
    let first = tokens[0];
    if starts_comment(first) {
        return Ok(None);
    }
    if same_text(first, "=") {
        return match parse_set_var(tokens) {
            Ok(command) => Ok(Some(command)),
            Err(error) => Err(error),
        };
    }
    let last = tokens[tokens.len() - 1];
    let parsed = match recognize_operator(last) {
        Some(Operator::Add) => parse_add(tokens, convert),
        Some(Operator::Subtract) => parse_subtract(tokens, convert),
        Some(Operator::Multiply) => parse_multiply(tokens, convert),
        Some(Operator::Divide) => parse_divide(tokens, convert),
        Some(Operator::Power) => parse_power(tokens, convert),
        Some(Operator::Modulo) => parse_modulo(tokens, convert),
        None => Err(EngineError::UnknownCommand(last.to_owned())),
    };
    match parsed {
        Ok(command) => Ok(Some(command)),
        Err(error) => Err(error),
    }
}

/// The statements `done` of the lines read so far, followed by the outcome
/// `rest` of the lines that remain.
pub open spec fn continued(done: Seq<Statement>, rest: Result<Seq<Statement>, Fault>) -> Result<
    Seq<Statement>,
    Fault,
> {
    match rest {
        Ok(more) => Ok(done + more),
        Err(fault) => Err(fault),
    }
}

/// Parses a script: the commands of its lines in order, or the fault of the
/// first line that has one. Whether and how parsing fails does not depend on
/// the converter.
pub fn parse<N, C: Fn(&str) -> N>(input: &str, convert: &C) -> (r: Result<
    Vec<Command<N>>,
    EngineError,
>)
    requires
        converts_all(convert),
    ensures
        parses_to(convert, input@, parsed(r)),
{
    let all = split_lines(input);
    let mut output: Vec<Command<N>> = Vec::new();
    let ghost mut done: Seq<Statement> = seq![];
    let mut i: usize = 0;
    proof {
        assert(texts(all@).skip(0) =~= texts(all@));
        assert(done + statements(texts(all@))->Ok_0 =~= statements(texts(all@))->Ok_0);
    }
    while i < all.len()
        invariant
            converts_all(convert),
            texts(all@) == lines(input@),
            i <= all.len(),
            script(input@) == continued(done, statements(texts(all@).skip(i as int))),
            realizes_all(convert, done, instructions(output@)),
        decreases all.len() - i,
    {
        let tokens = split_words(all[i]);
        let ghost rest = texts(all@).skip(i as int);
        proof {
            assert(rest[0] == all@[i as int]@);
            assert(rest.drop_first() =~= texts(all@).skip(i + 1));
        }
        match parse_line(tokens.as_slice(), convert) {
            Err(error) => {
                return Err(error);
            },
            Ok(None) => {},
            Ok(Some(command)) => {
                proof {
                    let statement = line_statement(words(rest[0]))->Ok_0->Some_0;
                    let tail = statements(rest.drop_first());
                    if tail is Ok {
                        assert(done.push(statement) + tail->Ok_0 =~= done + (seq![statement]
                            + tail->Ok_0));
                    }
                    assert(instructions(output@.push(command)) =~= instructions(output@).push(
                        command@,
                    ));
                    done = done.push(statement);
                }
                output.push(command);
            },
        }
        i += 1;
    }
    proof {
        assert(texts(all@).skip(i as int) =~= Seq::<Seq<char>>::empty());
        assert(done + Seq::<Statement>::empty() =~= done);
    }
    Ok(output)
}

} // verus!
