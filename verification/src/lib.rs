//! A line-oriented postfix (RPN) script evaluator.
//!
//! A script is plain text with one instruction per line. An operation line
//! lists operands (number literals or variable names) and ends with an
//! operator word; an assignment line `= name` stores the running result in a
//! variable. The running result of one line is the implicit first operand of
//! the next.
//!
//! The crate does no arithmetic of its own. It is generic over the number
//! type `N`, and the two places where numbers are made are the caller's: a
//! converter that gives the number a literal stands for, and an arithmetic
//! that applies an [`Operator`] to two numbers. With double-precision
//! numbers, the standard library's reading of them and the IEEE-754
//! operations it is a floating-point calculator. What a script says, and
//! whether and how it fails, is stated exactly and depends on neither; what
//! it computes is stated in terms of what the two returned.
//!
//! - [`text`] cuts a script into lines and a line into words;
//! - [`literal`] tells number literals from names;
//! - [`parser`] turns script text into [`Command`]s;
//! - [`evaluator`] runs commands;
//! - [`engine`] goes from script text to its answer;
//! - [`laws`] proves what holds of every script;
//! - [`values`] holds the data types and their models;
//! - [`encoding`] relates characters to byte offsets.

pub mod encoding;
pub mod engine;
pub mod evaluator;
pub mod laws;
pub mod literal;
pub mod parser;
pub mod text;
pub mod values;

pub use engine::run;
pub use evaluator::Evaluator;
pub use literal::is_number_literal;
pub use parser::{
    parse, parse_add, parse_divide, parse_float, parse_line, parse_modulo, parse_multiply,
    parse_operands, parse_operation, parse_power, parse_set_var, parse_subtract, parse_var_name,
    recognize_operator,
};
pub use values::{Command, EngineError, Operator, Value};
