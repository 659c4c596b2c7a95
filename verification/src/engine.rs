//! From script text to its answer: parse, then evaluate from scratch.

use vstd::prelude::*;
use crate::evaluator::{
    computes_all, first_fault, fresh, runs, shape_of, term_of, Evaluator, Machine,
};
use crate::parser::{converts_all, parse, parses_to};
use crate::values::{EngineError, Fault, Instruction, Operator, Term, Value};

verus! {

/// `outcome` is an outcome of a script with this text: the fault of the
/// text if it has one; else, for a program that does what the text says,
/// the fault that ends its run from a new evaluator, or the accumulator that
/// the run ends with.
pub open spec fn answers_to<N, C: Fn(&str) -> N, F: Fn(Operator, N, N) -> N>(
    convert: &C,
    arithmetic: &F,
    text: Seq<char>,
    outcome: Result<Term<N>, Fault>,
) -> bool {
    ||| outcome is Err && parses_to(
        convert,
        text,
        Err::<Seq<Instruction<N>>, Fault>(outcome->Err_0),
    )
    ||| exists|program: Seq<Instruction<N>>| #[trigger]
        parses_to(convert, text, Ok(program)) && match first_fault(
            shape_of(fresh::<N>()),
            program,
        ) {
            Some(fault) => outcome == Err::<Term<N>, Fault>(fault),
            None => outcome is Ok && exists|last: Machine<N>| #[trigger]
                runs(arithmetic, fresh::<N>(), program, Ok(last)) && outcome->Ok_0 == term_of(
                    last.accumulator,
                ),
        }
}

/// Runs a script: parses all of it, then evaluates its commands with a new
/// evaluator. The answer is the last accumulator, `Nothing` where the script
/// ends in an assignment or says nothing. A fault in the text comes before
/// any fault of evaluation.
pub fn run<N: Copy, C: Fn(&str) -> N, F: Fn(Operator, N, N) -> N>(
    script: &str,
    convert: &C,
    arithmetic: &F,
) -> (r: Result<Value<N>, EngineError>)
    requires
        converts_all(convert),
        computes_all(arithmetic),
    ensures
        answers_to(
            convert,
            arithmetic,
            script@,
            match r {
                Ok(value) => Ok(value@),
                Err(error) => Err(error@),
            },
        ),
{
    match parse(script, convert) {
        Err(error) => Err(error),
        Ok(commands) => {
            let evaluator: Evaluator<N> = Evaluator::new();
            evaluator.evaluate(commands.as_slice(), arithmetic)
        },
    }
}

} // verus!
