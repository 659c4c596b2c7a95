//! Running commands.
//!
//! An evaluator holds a running result (the accumulator), the variables set
//! so far, and the history of results. The arithmetic itself is the
//! caller's: a function from an operator and two numbers to a number. The
//! contracts therefore relate states: [`steps`] says which states one
//! instruction may lead to, [`runs`] the same for a program, and each names
//! the results of the arithmetic only through what the arithmetic returned.
//! Whether a command fails, and how, does not depend on the arithmetic.

use vstd::prelude::*;
use vstd::hash_map::StringHashMap;
use crate::values::{
    instructions, terms, Command, EngineError, Fault, Instruction, Operator, Term, Value,
};

verus! {

/// The model of an [`Evaluator`].
pub struct Machine<N> {
    /// The running result; `None` before the first operation and after an
    /// assignment.
    pub accumulator: Option<N>,
    /// The variables set so far.
    pub variables: Map<Seq<char>, N>,
    /// The accumulator after each command so far, oldest first.
    pub history: Seq<Option<N>>,
}

/// The state of a new evaluator.
pub open spec fn fresh<N>() -> Machine<N> {
    Machine { accumulator: None, variables: Map::empty(), history: Seq::empty() }
}

/// An accumulator as a value: a number, or nothing.
pub open spec fn term_of<N>(accumulator: Option<N>) -> Term<N> {
    match accumulator {
        Some(number) => Term::Number(number),
        None => Term::Nothing,
    }
}

/// The arithmetic can be called on every operator and pair of numbers.
pub open spec fn computes_all<N, F: Fn(Operator, N, N) -> N>(arithmetic: &F) -> bool {
    forall|operator: Operator, acc: N, x: N| call_requires(*arithmetic, (operator, acc, x))
}

/// What decides whether a command fails: whether there is an accumulator,
/// and which variables are set. No number is part of it.
pub struct Shape {
    pub loaded: bool,
    pub known: Set<Seq<char>>,
}

/// The shape of a state.
pub open spec fn shape_of<N>(machine: Machine<N>) -> Shape {
    Shape { loaded: machine.accumulator is Some, known: machine.variables.dom() }
}

/// Whether `operand` names a variable that is not set.
pub open spec fn is_missing<N>(known: Set<Seq<char>>, operand: Term<N>) -> bool {
    operand is Name && !known.contains(operand->Name_0)
}

/// The first name among `operands` that is not set, if there is one.
pub open spec fn first_missing<N>(known: Set<Seq<char>>, operands: Seq<Term<N>>) -> Option<
    Seq<char>,
>
    decreases operands.len(),
{
    if operands.len() == 0 {
        None
    } else if is_missing(known, operands[0]) {
        Some(operands[0]->Name_0)
    } else {
        first_missing(known, operands.drop_first())
    }
}

/// Whether an operation on `operands` has nothing to fold: there is no
/// accumulator and every operand is `Nothing`.
pub open spec fn nothing_to_fold<N>(shape: Shape, operands: Seq<Term<N>>) -> bool {
    !shape.loaded && forall|i: int| 0 <= i < operands.len() ==> (#[trigger] operands[i]) is Nothing
}

/// The fault of an operation on `operands`, if it has one: the first name
/// that is not set; else, with nothing to fold, `MissingOperands`.
pub open spec fn operation_fault<N>(shape: Shape, operands: Seq<Term<N>>) -> Option<Fault> {
    match first_missing(shape.known, operands) {
        Some(name) => Some(Fault::MissingVariable(name)),
        None => if nothing_to_fold(shape, operands) {
            Some(Fault::MissingOperands)
        } else {
            None
        },
    }
}

/// The fault of one instruction, if it has one. An assignment fails where
/// there is no accumulator to store.
pub open spec fn step_fault<N>(shape: Shape, instruction: Instruction<N>) -> Option<Fault> {
    match instruction {
        Instruction::SetVar(_) => if shape.loaded {
            None
        } else {
            Some(Fault::NoValuesInQueue)
        },
        Instruction::Apply(_, operands) => operation_fault(shape, operands),
    }
}

/// The shape after an instruction that did not fail: an assignment empties
/// the accumulator and sets its variable, an operation fills the
/// accumulator.
pub open spec fn shape_after<N>(shape: Shape, instruction: Instruction<N>) -> Shape {
    match instruction {
        Instruction::SetVar(name) => Shape { loaded: false, known: shape.known.insert(name) },
        Instruction::Apply(_, _) => Shape { loaded: true, known: shape.known },
    }
}

/// The fault that ends a run of `program`, if one does: that of the first
/// instruction that fails.
pub open spec fn first_fault<N>(shape: Shape, program: Seq<Instruction<N>>) -> Option<Fault>
    decreases program.len(),
{
    if program.len() == 0 {
        None
    } else {
        match step_fault(shape, program[0]) {
            Some(fault) => Some(fault),
            None => first_fault(shape_after(shape, program[0]), program.drop_first()),
        }
    }
}

/// The numbers that `operands` stand for, in order: a number for itself, a
/// name for the variable's value; `Nothing` contributes no number.
pub open spec fn numbers<N>(variables: Map<Seq<char>, N>, operands: Seq<Term<N>>) -> Seq<N>
    decreases operands.len(),
{
    if operands.len() == 0 {
        seq![]
    } else {
        let rest = numbers(variables, operands.drop_first());
        match operands[0] {
            Term::Nothing => rest,
            Term::Number(number) => seq![number] + rest,
            Term::Name(name) => seq![variables[name]] + rest,
        }
    }
}

/// The numbers an operation folds: the accumulator, if there is one, then
/// the numbers of the operands.
pub open spec fn working_list<N>(machine: Machine<N>, operands: Seq<Term<N>>) -> Seq<N> {
    match machine.accumulator {
        Some(number) => seq![number] + numbers(machine.variables, operands),
        None => numbers(machine.variables, operands),
    }
}

/// `out` is a result of folding `list` from the left: start with the first
/// number and combine the result so far with each further number in turn.
/// An empty list has no result.
pub open spec fn folds<N, F: Fn(Operator, N, N) -> N>(
    arithmetic: &F,
    operator: Operator,
    list: Seq<N>,
    out: N,
) -> bool
    decreases list.len(),
{
    if list.len() == 0 {
        false
    } else if list.len() == 1 {
        out == list[0]
    } else {
        exists|acc: N|
            #![trigger call_ensures(*arithmetic, (operator, acc, list.last()), out)]
            folds(arithmetic, operator, list.drop_last(), acc) && call_ensures(
                *arithmetic,
                (operator, acc, list.last()),
                out,
            )
    }
}

/// Folding one more number: a result for `list` combined with `x` is a
/// result for `list` extended by `x`.
pub proof fn lemma_folds_push<N, F: Fn(Operator, N, N) -> N>(
    arithmetic: &F,
    operator: Operator,
    list: Seq<N>,
    acc: N,
    x: N,
    out: N,
)
    requires
        folds(arithmetic, operator, list, acc),
        call_ensures(*arithmetic, (operator, acc, x), out),
    ensures
        folds(arithmetic, operator, list.push(x), out),
{
    assert(list.push(x).drop_last() =~= list);
}

/// `outcome` is an outcome of applying `operator` to `operands` in state
/// `machine`: the operation's fault if it has one, else a fold of the
/// working list.
pub open spec fn operates<N, F: Fn(Operator, N, N) -> N>(
    arithmetic: &F,
    operator: Operator,
    machine: Machine<N>,
    operands: Seq<Term<N>>,
    outcome: Result<N, Fault>,
) -> bool {
    match operation_fault(shape_of(machine), operands) {
        Some(fault) => outcome == Err::<N, Fault>(fault),
        None => outcome is Ok && folds(
            arithmetic,
            operator,
            working_list(machine, operands),
            outcome->Ok_0,
        ),
    }
}

/// Without a missing name, the working list is empty exactly where there is
/// nothing to fold.
pub proof fn lemma_nothing_to_fold<N>(machine: Machine<N>, operands: Seq<Term<N>>)
    ensures
        working_list(machine, operands).len() == 0 <==> nothing_to_fold(
            shape_of(machine),
            operands,
        ),
{
    lemma_numbers_empty(machine.variables, operands);
}

/// Operands stand for no number exactly where each of them is `Nothing`.
pub proof fn lemma_numbers_empty<N>(variables: Map<Seq<char>, N>, operands: Seq<Term<N>>)
    ensures
        numbers(variables, operands).len() == 0 <==> forall|i: int|
            0 <= i < operands.len() ==> (#[trigger] operands[i]) is Nothing,
    decreases operands.len(),
{
    if operands.len() > 0 {
        let rest = operands.drop_first();
        lemma_numbers_empty(variables, rest);
        if numbers(variables, operands).len() == 0 {
            assert forall|i: int| 0 <= i < operands.len() implies (#[trigger] operands[i])
                is Nothing by {
                if i > 0 {
                    assert(operands[i] == rest[i - 1]);
                }
            }
        } else {
            if forall|i: int| 0 <= i < operands.len() ==> (#[trigger] operands[i]) is Nothing {
                assert(operands[0] is Nothing);
                assert forall|i: int| 0 <= i < rest.len() implies (#[trigger] rest[i])
                    is Nothing by {
                    assert(rest[i] == operands[i + 1]);
                }
            }
        }
    }
}

/// The state after an operation has produced `number`.
pub open spec fn after_result<N>(machine: Machine<N>, number: N) -> Machine<N> {
    Machine {
        accumulator: Some(number),
        variables: machine.variables,
        history: machine.history.push(Some(number)),
    }
}

/// The state after the accumulator `number` has been stored under `name`.
pub open spec fn after_assignment<N>(machine: Machine<N>, name: Seq<char>, number: N) -> Machine<
    N,
> {
    Machine {
        accumulator: None,
        variables: machine.variables.insert(name, number),
        history: machine.history.push(None),
    }
}

/// `outcome` is an outcome of one instruction in state `machine`.
///
/// An assignment needs an accumulator; it stores it and empties it. An
/// operation leaves its result as the accumulator. Every command that
/// succeeds appends the new accumulator to the history.
pub open spec fn steps<N, F: Fn(Operator, N, N) -> N>(
    arithmetic: &F,
    machine: Machine<N>,
    instruction: Instruction<N>,
    outcome: Result<Machine<N>, Fault>,
) -> bool {
    match instruction {
        Instruction::SetVar(name) => match machine.accumulator {
            None => outcome == Err::<Machine<N>, Fault>(Fault::NoValuesInQueue),
            Some(number) => outcome == Ok::<Machine<N>, Fault>(
                after_assignment(machine, name, number),
            ),
        },
        Instruction::Apply(operator, operands) => match outcome {
            Err(fault) => operates(arithmetic, operator, machine, operands, Err(fault)),
            Ok(next) => {
                &&& next.accumulator is Some
                &&& next == after_result(machine, next.accumulator->Some_0)
                &&& operates(
                    arithmetic,
                    operator,
                    machine,
                    operands,
                    Ok(next.accumulator->Some_0),
                )
            },
        },
    }
}

/// `outcome` is an outcome of running `program` from state `machine`: the
/// instructions run in order, each from the state the one before left, and
/// the first fault ends the run.
pub open spec fn runs<N, F: Fn(Operator, N, N) -> N>(
    arithmetic: &F,
    machine: Machine<N>,
    program: Seq<Instruction<N>>,
    outcome: Result<Machine<N>, Fault>,
) -> bool
    decreases program.len(),
{
    if program.len() == 0 {
        outcome == Ok::<Machine<N>, Fault>(machine)
    } else {
        ||| outcome is Err && steps(arithmetic, machine, program[0], outcome)
        ||| exists|next: Machine<N>| #[trigger]
            steps(arithmetic, machine, program[0], Ok(next)) && runs(
                arithmetic,
                next,
                program.drop_first(),
                outcome,
            )
    }
}

/// Whether a run fails, and with which fault, is decided by the shape of the
/// state it starts from and by the program: every outcome of the run is that
/// fault, or a state where there is none.
pub proof fn lemma_fault_is_decided<N, F: Fn(Operator, N, N) -> N>(
    arithmetic: &F,
    machine: Machine<N>,
    program: Seq<Instruction<N>>,
    outcome: Result<Machine<N>, Fault>,
)
    requires
        runs(arithmetic, machine, program, outcome),
    ensures
        match first_fault(shape_of(machine), program) {
            Some(fault) => outcome == Err::<Machine<N>, Fault>(fault),
            None => outcome is Ok,
        },
    decreases program.len(),
{
    if program.len() > 0 {
        if outcome is Err && steps(arithmetic, machine, program[0], outcome) {
        } else {
            let next = choose|next: Machine<N>| #[trigger]
                steps(arithmetic, machine, program[0], Ok(next)) && runs(
                    arithmetic,
                    next,
                    program.drop_first(),
                    outcome,
                );
            lemma_shape_after(arithmetic, machine, program[0], next);
            lemma_fault_is_decided(arithmetic, next, program.drop_first(), outcome);
        }
    }
}

/// A step that succeeds had no fault, and leaves the shape that
/// [`shape_after`] gives.
pub proof fn lemma_shape_after<N, F: Fn(Operator, N, N) -> N>(
    arithmetic: &F,
    machine: Machine<N>,
    instruction: Instruction<N>,
    next: Machine<N>,
)
    requires
        steps(arithmetic, machine, instruction, Ok(next)),
    ensures
        step_fault(shape_of(machine), instruction) is None,
        shape_of(next) == shape_after(shape_of(machine), instruction),
{
    match instruction {
        Instruction::SetVar(name) => {
            assert(shape_of(next).known =~= shape_of(machine).known.insert(name));
        },
        Instruction::Apply(_, _) => {},
    }
}

/// The state of one evaluation: the accumulator, the variables and the
/// history of results. One evaluator serves one script.
#[verifier::reject_recursive_types(N)]
pub struct Evaluator<N> {
    vars: StringHashMap<N>,
    answers: Vec<Option<N>>,
    answer: Option<N>,
}

impl<N> View for Evaluator<N> {
    type V = Machine<N>;

    closed spec fn view(&self) -> Machine<N> {
        Machine { accumulator: self.answer, variables: self.vars@, history: self.answers@ }
    }
}

impl<N: Copy> Evaluator<N> {
    /// A new evaluator: no accumulator, no variables, no history.
    pub fn new() -> (evaluator: Evaluator<N>)
        ensures
            evaluator@ == fresh::<N>(),
    {
        Self { vars: StringHashMap::new(), answers: Vec::new(), answer: None }
    }

    /// The accumulator: `Nothing` or an `Operand`, never a `Variable`.
    pub fn answer(&self) -> (value: Value<N>)
        ensures
            value@ == term_of(self@.accumulator),
    {
        match self.answer {
            Some(number) => Value::Operand(number),
            None => Value::Nothing,
        }
    }

    /// The accumulator after each command so far, oldest first.
    pub fn answers(&self) -> (values: Vec<Value<N>>)
        ensures
            values.len() == self@.history.len(),
            forall|i: int|
                0 <= i < values.len() ==> (#[trigger] values[i])@ == term_of(self@.history[i]),
    {
        let mut values: Vec<Value<N>> = Vec::new();
        let mut i: usize = 0;
        while i < self.answers.len()
            invariant
                i <= self.answers.len(),
                values.len() == i,
                forall|j: int|
                    0 <= j < i ==> (#[trigger] values[j])@ == term_of(self.answers@[j]),
            decreases self.answers.len() - i,
        {
            values.push(
                match self.answers[i] {
                    Some(number) => Value::Operand(number),
                    None => Value::Nothing,
                },
            );
            i += 1;
        }
        values
    }

    /// The value of the variable `name`, if it is set.
    pub fn variable(&self, name: &str) -> (value: Option<N>)
        ensures
            value == if self@.variables.contains_key(name@) {
                Some(self@.variables[name@])
            } else {
                None
            },
    {
        match self.vars.get(name) {
            Some(number) => Some(*number),
            None => None,
        }
    }

    /// Applies `operator` to the accumulator and `operands`, without
    /// changing the evaluator.
    ///
    /// The operands are resolved from left to right and the first name that
    /// is not set is the fault, before any arithmetic. With nothing to fold
    /// (no accumulator and no number among the operands) the fault is
    /// `MissingOperands`. Else the result is an `Operand`: the left fold of
    /// the accumulator, if any, and the operands' numbers.
    pub fn operate<F: Fn(Operator, N, N) -> N>(
        &self,
        operands: &[Value<N>],
        operator: Operator,
        arithmetic: &F,
    ) -> (r: Result<Value<N>, EngineError>)
        requires
            computes_all(arithmetic),
        ensures
            match r {
                Ok(value) => value is Operand && operates(
                    arithmetic,
                    operator,
                    self@,
                    terms(operands@),
                    Ok(value->Operand_0),
                ),
                Err(error) => operates(
                    arithmetic,
                    operator,
                    self@,
                    terms(operands@),
                    Err(error@),
                ),
            },
    {
        let ghost all = terms(operands@);
        let mut list: Vec<N> = Vec::new();
        if let Some(number) = self.answer {
            list.push(number);
        }
        proof {
            assert(all.skip(0) =~= all);
            assert(list@ + numbers(self.vars@, all) =~= working_list(self@, all));
        }
        let mut i: usize = 0;
        while i < operands.len()
            invariant
                all == terms(operands@),
                i <= operands.len(),
                first_missing(self.vars@.dom(), all) == first_missing(
                    self.vars@.dom(),
                    all.skip(i as int),
                ),
                list@ + numbers(self.vars@, all.skip(i as int)) == working_list(self@, all),
            decreases operands.len() - i,
        {
            let ghost rest = all.skip(i as int);
            proof {
                assert(rest[0] == operands@[i as int]@);
                assert(rest.drop_first() =~= all.skip(i + 1));
            }
            match &operands[i] {
                Value::Nothing => {},
                Value::Operand(number) => {
                    proof {
                        assert(list@.push(*number) + numbers(self.vars@, rest.drop_first())
                            =~= list@ + numbers(self.vars@, rest));
                    }
                    list.push(*number);
                },
                Value::Variable(name) => {
                    match self.vars.get(name.as_str()) {
                        Some(number) => {
                            proof {
                                assert(list@.push(*number) + numbers(
                                    self.vars@,
                                    rest.drop_first(),
                                ) =~= list@ + numbers(self.vars@, rest));
                            }
                            list.push(*number);
                        },
                        None => {
                            return Err(EngineError::MissingVariable(name.clone()));
                        },
                    }
                },
            }
            i += 1;
        }
        proof {
            assert(all.skip(i as int) =~= Seq::<Term<N>>::empty());
            assert(list@ + Seq::<N>::empty() =~= list@);
            lemma_nothing_to_fold(self@, all);
        }
        if list.len() == 0 {
            return Err(EngineError::MissingOperands);
        }
        let mut acc: N = list[0];
        let mut k: usize = 1;
        while k < list.len()
            invariant
                computes_all(arithmetic),
                1 <= k <= list.len(),
                folds(arithmetic, operator, list@.take(k as int), acc),
            decreases list.len() - k,
        {
            let next = arithmetic(operator, acc, list[k]);
            proof {
                lemma_folds_push(
                    arithmetic,
                    operator,
                    list@.take(k as int),
                    acc,
                    list@[k as int],
                    next,
                );
                assert(list@.take(k as int).push(list@[k as int]) =~= list@.take(k + 1));
            }
            acc = next;
            k += 1;
        }
        proof {
            assert(list@.take(k as int) =~= list@);
        }
        Ok(Value::Operand(acc))
    }

    /// Runs one command. On a fault the evaluator is left as it was.
    pub fn execute<F: Fn(Operator, N, N) -> N>(
        &mut self,
        command: &Command<N>,
        arithmetic: &F,
    ) -> (r: Result<(), EngineError>)
        requires
            computes_all(arithmetic),
        ensures
            match r {
                Ok(_) => steps(arithmetic, old(self)@, command@, Ok(final(self)@)),
                Err(error) => final(self)@ == old(self)@ && steps(
                    arithmetic,
                    old(self)@,
                    command@,
                    Err(error@),
                ),
            },
    {
        let computed = match command {
            Command::SetVar(name) => {
                match self.answer {
                    None => {
                        return Err(EngineError::NoValuesInQueue);
                    },
                    Some(number) => {
                        self.vars.insert(name.clone(), number);
                        self.answer = None;
                        self.answers.push(None);
                        return Ok(());
                    },
                }
            },
            Command::Add(operands) => self.operate(operands.as_slice(), Operator::Add, arithmetic),
            Command::Subtract(operands) => self.operate(
                operands.as_slice(),
                Operator::Subtract,
                arithmetic,
            ),
            Command::Multiply(operands) => self.operate(
                operands.as_slice(),
                Operator::Multiply,
                arithmetic,
            ),
            Command::Divide(operands) => self.operate(
                operands.as_slice(),
                Operator::Divide,
                arithmetic,
            ),
            Command::Power(operands) => self.operate(
                operands.as_slice(),
                Operator::Power,
                arithmetic,
            ),
            Command::Modulo(operands) => self.operate(
                operands.as_slice(),
                Operator::Modulo,
                arithmetic,
            ),
        };
        match computed {
            Ok(Value::Operand(number)) => {
                self.answer = Some(number);
                self.answers.push(Some(number));
                Ok(())
            },
            Ok(_) => Err(EngineError::EvaluatorAnswerShouldNotBeValueVariable),
            Err(error) => Err(error),
        }
    }

    /// Runs `commands` in order and returns the last accumulator: an
    /// `Operand`, or `Nothing` where the last command was an assignment or
    /// there was no command. The first fault ends the run and is returned.
    pub fn evaluate<F: Fn(Operator, N, N) -> N>(
        self,
        commands: &[Command<N>],
        arithmetic: &F,
    ) -> (r: Result<Value<N>, EngineError>)
        requires
            computes_all(arithmetic),
        ensures
            match first_fault(shape_of(self@), instructions(commands@)) {
                Some(fault) => r is Err && r->Err_0@ == fault,
                None => r is Ok && exists|last: Machine<N>| #[trigger]
                    runs(arithmetic, self@, instructions(commands@), Ok(last)) && r->Ok_0@
                        == term_of(last.accumulator),
            },
    {
        let ghost start = self@;
        let ghost program = instructions(commands@);
        let mut state = self;
        let mut i: usize = 0;
        proof {
            assert(program.skip(0) =~= program);
        }
        while i < commands.len()
            invariant
                computes_all(arithmetic),
                start == self@,
                program == instructions(commands@),
                i <= commands.len(),
                forall|outcome: Result<Machine<N>, Fault>| #[trigger]
                    runs(arithmetic, state@, program.skip(i as int), outcome) ==> runs(
                        arithmetic,
                        start,
                        program,
                        outcome,
                    ),
            decreases commands.len() - i,
        {
            let ghost before = state@;
            let ghost rest = program.skip(i as int);
            proof {
                assert(rest[0] == commands@[i as int]@);
                assert(rest.drop_first() =~= program.skip(i + 1));
            }
            match state.execute(&commands[i], arithmetic) {
                Ok(_) => {
                    proof {
                        let after = state@;
                        assert forall|outcome: Result<Machine<N>, Fault>| #[trigger]
                            runs(
                                arithmetic,
                                after,
                                program.skip(i + 1),
                                outcome,
                            ) implies runs(arithmetic, start, program, outcome) by {
                            assert(steps(arithmetic, before, rest[0], Ok(after)));
                            assert(runs(arithmetic, before, rest, outcome));
                        }
                    }
                },
                Err(error) => {
                    proof {
                        assert(runs(arithmetic, before, rest, Err(error@)));
                        lemma_fault_is_decided(arithmetic, start, program, Err(error@));
                    }
                    return Err(error);
                },
            }
            i += 1;
        }
        proof {
            assert(program.skip(i as int) =~= Seq::<Instruction<N>>::empty());
            assert(runs(arithmetic, state@, program.skip(i as int), Ok(state@)));
            lemma_fault_is_decided(arithmetic, start, program, Ok(state@));
        }
        Ok(state.answer())
    }
}

} // verus!
