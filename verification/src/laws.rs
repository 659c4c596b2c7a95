//! Laws of the language, proved from the definitions that the contracts of
//! the parser and the evaluator use.

use vstd::prelude::*;
use crate::evaluator::{
    after_result, first_missing, folds, is_missing, numbers, runs, steps, working_list, Machine,
};
use crate::literal::{
    is_digit, is_letter, is_number, is_sign, is_special, lemma_digits_len, unsigned,
};
use crate::parser::{
    continued, converts, is_assignment, is_comment, line_statement, operator_of, parses_to,
    reads_as, realizes, script, statements, Statement,
};
use crate::text::{
    is_line_end, is_space, lemma_line_len, lemma_line_len_is, lemma_word_len, lemma_word_len_is,
    line_len, lines, word_len, words,
};
use crate::values::{Fault, Instruction, Operator, Term};

verus! {

// Lines and words

/// A single line feed.
pub open spec fn line_feed() -> Seq<char> {
    seq!['\n']
}

/// The text whose lines are `pieces`: the pieces with a line feed between
/// each two.
pub open spec fn join_lines(pieces: Seq<Seq<char>>) -> Seq<char>
    decreases pieces.len(),
{
    if pieces.len() == 0 {
        seq![]
    } else if pieces.len() == 1 {
        pieces[0]
    } else {
        pieces[0] + line_feed() + join_lines(pieces.drop_first())
    }
}

/// A text is its lines with a line feed between each two, and it has at
/// least one line.
pub proof fn lemma_lines_joined_give_the_text(s: Seq<char>)
    ensures
        lines(s).len() >= 1,
        join_lines(lines(s)) == s,
    decreases s.len(),
{
    let n = line_len(s) as int;
    lemma_line_len(s);
    if n >= s.len() {
    } else {
        let rest = lines(s.skip(n + 1));
        lemma_lines_joined_give_the_text(s.skip(n + 1));
        assert(lines(s) == seq![s.take(n)] + rest);
        assert(lines(s)[0] == s.take(n));
        assert(lines(s).drop_first() =~= rest);
        assert(s.take(n) + line_feed() + s.skip(n + 1) =~= s);
    }
}

/// No line holds a line feed.
pub proof fn lemma_lines_hold_no_line_feed(s: Seq<char>)
    ensures
        forall|i: int, j: int|
            0 <= i < lines(s).len() && 0 <= j < lines(s)[i].len() ==> !is_line_end(
                #[trigger] lines(s)[i][j],
            ),
    decreases s.len(),
{
    let n = line_len(s) as int;
    lemma_line_len(s);
    if n >= s.len() {
    } else {
        lemma_lines_hold_no_line_feed(s.skip(n + 1));
        let rest = lines(s.skip(n + 1));
        assert forall|i: int, j: int|
            0 <= i < lines(s).len() && 0 <= j < lines(s)[i].len() implies !is_line_end(
            #[trigger] lines(s)[i][j],
        ) by {
            if i == 0 {
                assert(lines(s)[0] == s.take(n));
                assert(s.take(n)[j] == s[j]);
            } else {
                assert(lines(s)[i] == rest[i - 1]);
            }
        }
    }
}

/// A line without a line feed is the only line of its text.
pub proof fn lemma_one_line(line: Seq<char>)
    requires
        forall|i: int| 0 <= i < line.len() ==> !is_line_end(#[trigger] line[i]),
    ensures
        lines(line) == seq![line],
{
    lemma_line_len_is(line, line.len() as int);
}

/// The lines of two texts joined by a line feed are the lines of the first
/// followed by the lines of the second.
pub proof fn lemma_lines_joined(a: Seq<char>, b: Seq<char>)
    ensures
        lines(a + line_feed() + b) == lines(a) + lines(b),
    decreases a.len(),
{
    let joined = a + line_feed() + b;
    let n = line_len(a) as int;
    lemma_line_len(a);
    assert forall|i: int| 0 <= i < n implies !is_line_end(#[trigger] joined[i]) by {
        assert(joined[i] == a[i]);
    }
    if n >= a.len() {
        assert(joined[n] == '\n');
        lemma_line_len_is(joined, n);
        assert(joined.take(n) =~= a);
        assert(joined.skip(n + 1) =~= b);
    } else {
        assert(joined[n] == a[n]);
        lemma_line_len_is(joined, n);
        assert(joined.take(n) =~= a.take(n));
        assert(joined.skip(n + 1) =~= a.skip(n + 1) + line_feed() + b);
        lemma_lines_joined(a.skip(n + 1), b);
        assert(seq![a.take(n)] + (lines(a.skip(n + 1)) + lines(b)) =~= (seq![a.take(n)] + lines(
            a.skip(n + 1),
        )) + lines(b));
    }
}

/// Every word has a character, and no word holds white space.
pub proof fn lemma_words_hold_no_space(s: Seq<char>)
    ensures
        forall|i: int| 0 <= i < words(s).len() ==> (#[trigger] words(s)[i]).len() > 0,
        forall|i: int, j: int|
            0 <= i < words(s).len() && 0 <= j < words(s)[i].len() ==> !is_space(
                #[trigger] words(s)[i][j],
            ),
    decreases s.len(),
{
    if s.len() == 0 {
    } else if is_space(s[0]) {
        lemma_words_hold_no_space(s.drop_first());
        assert(words(s) == words(s.drop_first()));
    } else {
        let n = word_len(s) as int;
        lemma_word_len(s);
        lemma_words_hold_no_space(s.skip(n));
        let rest = words(s.skip(n));
        assert(words(s) == seq![s.take(n)] + rest);
        assert forall|i: int| 0 <= i < words(s).len() implies (#[trigger] words(s)[i]).len()
            > 0 by {
            if i == 0 {
                assert(words(s)[0] == s.take(n));
            } else {
                assert(words(s)[i] == rest[i - 1]);
            }
        }
        assert forall|i: int, j: int|
            0 <= i < words(s).len() && 0 <= j < words(s)[i].len() implies !is_space(
            #[trigger] words(s)[i][j],
        ) by {
            if i == 0 {
                assert(words(s)[0] == s.take(n));
                assert(s.take(n)[j] == s[j]);
            } else {
                assert(words(s)[i] == rest[i - 1]);
            }
        }
    }
}

/// White space at the end of a line changes nothing: so a line that ends in
/// a carriage return has the words of the line without it.
pub proof fn lemma_words_ignore_trailing_space(s: Seq<char>, c: char)
    requires
        is_space(c),
    ensures
        words(s.push(c)) == words(s),
    decreases s.len(),
{
    let longer = s.push(c);
    if s.len() == 0 {
        assert(longer.drop_first() =~= s);
        assert(words(longer) == words(longer.drop_first()));
    } else if is_space(s[0]) {
        assert(longer[0] == s[0]);
        assert(longer.drop_first() =~= s.drop_first().push(c));
        lemma_words_ignore_trailing_space(s.drop_first(), c);
        assert(words(longer) == words(longer.drop_first()));
        assert(words(s) == words(s.drop_first()));
    } else {
        let n = word_len(s) as int;
        lemma_word_len(s);
        assert forall|i: int| 0 <= i < n implies !is_space(#[trigger] longer[i]) by {
            assert(longer[i] == s[i]);
        }
        if n < s.len() {
            assert(longer[n] == s[n]);
        }
        lemma_word_len_is(longer, n);
        assert(longer[0] == s[0]);
        assert(longer.take(n) =~= s.take(n));
        assert(longer.skip(n) =~= s.skip(n).push(c));
        lemma_words_ignore_trailing_space(s.skip(n), c);
        assert(words(longer) == seq![longer.take(n)] + words(longer.skip(n)));
        assert(words(s) == seq![s.take(n)] + words(s.skip(n)));
    }
}

// What scripts say

/// An operator word is neither a comment nor the assignment marker.
pub proof fn lemma_operator_words(token: Seq<char>)
    requires
        operator_of(token) is Some,
    ensures
        !is_comment(token),
        !is_assignment(token),
{
    reveal_strlit("+");
    reveal_strlit("plus");
    reveal_strlit("add");
    reveal_strlit("-");
    reveal_strlit("minus");
    reveal_strlit("subtract");
    reveal_strlit("x");
    reveal_strlit("*");
    reveal_strlit("times");
    reveal_strlit("multiply");
    reveal_strlit("/");
    reveal_strlit("div");
    reveal_strlit("divide");
    reveal_strlit("**");
    reveal_strlit("^");
    reveal_strlit("power");
    reveal_strlit("%");
    reveal_strlit("mod");
    reveal_strlit("modulus");
    reveal_strlit("modulo");
    reveal_strlit("=");
    if is_assignment(token) {
        assert(token.len() == 1 && token[0] == '=');
        assert("+"@[0] == '+');
        assert("-"@[0] == '-');
        assert("x"@[0] == 'x');
        assert("*"@[0] == '*');
        assert("/"@[0] == '/');
        assert("^"@[0] == '^');
        assert("%"@[0] == '%');
    }
    if is_comment(token) {
        assert("+"@[0] == '+');
        assert("plus"@[0] == 'p');
        assert("add"@[0] == 'a');
        assert("-"@[0] == '-');
        assert("minus"@[0] == 'm');
        assert("subtract"@[0] == 's');
        assert("x"@[0] == 'x');
        assert("*"@[0] == '*');
        assert("times"@[0] == 't');
        assert("multiply"@[0] == 'm');
        assert("/"@[0] == '/');
        assert("div"@[0] == 'd');
        assert("divide"@[0] == 'd');
        assert("**"@[0] == '*');
        assert("^"@[0] == '^');
        assert("power"@[0] == 'p');
        assert("%"@[0] == '%');
        assert("mod"@[0] == 'm');
        assert("modulus"@[0] == 'm');
        assert("modulo"@[0] == 'm');
    }
}

/// How operator words start: with a symbol or a lower-case letter that is
/// neither `i` nor `n`; and the two that are signs are one character long.
proof fn lemma_operator_words_start(token: Seq<char>)
    requires
        operator_of(token) is Some,
    ensures
        token.len() > 0,
        !is_digit(token[0]),
        token[0] != '.',
        !is_letter(token[0], 'i'),
        !is_letter(token[0], 'n'),
        is_sign(token[0]) ==> token.len() == 1,
{
    reveal_strlit("+");
    reveal_strlit("plus");
    reveal_strlit("add");
    reveal_strlit("-");
    reveal_strlit("minus");
    reveal_strlit("subtract");
    reveal_strlit("x");
    reveal_strlit("*");
    reveal_strlit("times");
    reveal_strlit("multiply");
    reveal_strlit("/");
    reveal_strlit("div");
    reveal_strlit("divide");
    reveal_strlit("**");
    reveal_strlit("^");
    reveal_strlit("power");
    reveal_strlit("%");
    reveal_strlit("mod");
    reveal_strlit("modulus");
    reveal_strlit("modulo");
    assert("+"@[0] == '+');
    assert("plus"@[0] == 'p');
    assert("add"@[0] == 'a');
    assert("-"@[0] == '-');
    assert("minus"@[0] == 'm');
    assert("subtract"@[0] == 's');
    assert("x"@[0] == 'x');
    assert("*"@[0] == '*');
    assert("times"@[0] == 't');
    assert("multiply"@[0] == 'm');
    assert("/"@[0] == '/');
    assert("div"@[0] == 'd');
    assert("divide"@[0] == 'd');
    assert("**"@[0] == '*');
    assert("^"@[0] == '^');
    assert("power"@[0] == 'p');
    assert("%"@[0] == '%');
    assert("mod"@[0] == 'm');
    assert("modulus"@[0] == 'm');
    assert("modulo"@[0] == 'm');
}

/// A number literal is nothing else: no comment, not the assignment marker,
/// and no operator word.
pub proof fn lemma_number_literals_are_operands(token: Seq<char>)
    requires
        is_number(token),
    ensures
        !is_comment(token),
        !is_assignment(token),
        operator_of(token) is None,
{
    reveal_strlit("inf");
    reveal_strlit("infinity");
    reveal_strlit("nan");
    let body = unsigned(token);
    if is_special(body) {
        assert(body.len() >= 3);
        assert(is_letter(body[0], 'i') || is_letter(body[0], 'n'));
    } else {
        lemma_digits_len(body);
        assert(body.len() > 0);
        assert(is_digit(body[0]) || body[0] == '.');
    }
    assert(token.len() > 0);
    assert(is_sign(token[0]) || is_digit(token[0]) || token[0] == '.' || is_letter(token[0], 'i')
        || is_letter(token[0], 'n'));
    if is_sign(token[0]) {
        assert(token.len() >= 2);
        assert(token[1] == body[0]);
    }
    if operator_of(token) is Some {
        lemma_operator_words_start(token);
    }
    reveal_strlit("=");
}

/// Operator words of one family are interchangeable: two lines with the same
/// operands that end in words for the same operator say the same. The one
/// line left out is the assignment `= word`, where the word is a name.
pub proof fn lemma_aliases_say_the_same(operands: Seq<Seq<char>>, a: Seq<char>, b: Seq<char>)
    requires
        operator_of(a) is Some,
        operator_of(a) == operator_of(b),
        !(operands.len() == 1 && is_assignment(operands[0])),
    ensures
        line_statement(operands.push(a)) == line_statement(operands.push(b)),
{
    lemma_operator_words(a);
    lemma_operator_words(b);
    let with_a = operands.push(a);
    let with_b = operands.push(b);
    assert(with_a.drop_last() =~= operands);
    assert(with_b.drop_last() =~= operands);
    assert(with_a.last() == a);
    assert(with_b.last() == b);
    if operands.len() > 0 {
        assert(with_a[0] == with_b[0]);
    } else {
        assert(with_a[0] == a);
        assert(with_b[0] == b);
    }
}

/// What a script says depends on its lines only through what each line
/// says: two scripts of as many lines, where each line says the same as the
/// line in its place in the other, say the same.
pub proof fn lemma_lines_say_the_same(a: Seq<Seq<char>>, b: Seq<Seq<char>>)
    requires
        a.len() == b.len(),
        forall|i: int|
            0 <= i < a.len() ==> line_statement(words(#[trigger] a[i])) == line_statement(
                words(b[i]),
            ),
    ensures
        statements(a) == statements(b),
    decreases a.len(),
{
    if a.len() > 0 {
        assert(line_statement(words(a[0])) == line_statement(words(b[0])));
        assert forall|i: int| 0 <= i < a.drop_first().len() implies line_statement(
            words(#[trigger] a.drop_first()[i]),
        ) == line_statement(words(b.drop_first()[i])) by {
            assert(a.drop_first()[i] == a[i + 1]);
            assert(b.drop_first()[i] == b[i + 1]);
        }
        lemma_lines_say_the_same(a.drop_first(), b.drop_first());
    }
}

/// What lines say composes: the statements of `first` followed by `second`
/// are those of `first`, then those of `second`, and the first fault wins.
pub proof fn lemma_statements_compose(first: Seq<Seq<char>>, second: Seq<Seq<char>>)
    ensures
        statements(first + second) == match statements(first) {
            Ok(done) => continued(done, statements(second)),
            Err(fault) => Err(fault),
        },
    decreases first.len(),
{
    let whole = first + second;
    if first.len() == 0 {
        assert(whole =~= second);
        if statements(second) is Ok {
            assert(Seq::<Statement>::empty() + statements(second)->Ok_0 =~= statements(
                second,
            )->Ok_0);
        }
    } else {
        assert(whole[0] == first[0]);
        assert(whole.drop_first() =~= first.drop_first() + second);
        lemma_statements_compose(first.drop_first(), second);
        let head = line_statement(words(first[0]));
        let rest = statements(first.drop_first());
        if head is Ok && rest is Ok && statements(second) is Ok {
            let more = statements(second)->Ok_0;
            if head->Ok_0 is Some {
                assert(seq![head->Ok_0->Some_0] + (rest->Ok_0 + more) =~= (seq![
                    head->Ok_0->Some_0,
                ] + rest->Ok_0) + more);
            }
        }
    }
}

/// Comments and blank lines never affect what a script says: a line that
/// says nothing can be put before a script, behind it, or between two of
/// its lines, and the script says the same.
pub proof fn lemma_silent_line_is_ignored(head: Seq<char>, silent: Seq<char>, tail: Seq<char>)
    requires
        forall|i: int| 0 <= i < silent.len() ==> !is_line_end(#[trigger] silent[i]),
        words(silent).len() == 0 || is_comment(words(silent)[0]),
    ensures
        script(silent + line_feed() + tail) == script(tail),
        script(head + line_feed() + silent) == script(head),
        script(head + line_feed() + silent + line_feed() + tail) == script(
            head + line_feed() + tail,
        ),
{
    lemma_one_line(silent);
    let one = seq![silent];
    let nothing = Seq::<Statement>::empty();
    assert(one.drop_first() =~= Seq::<Seq<char>>::empty());
    assert(statements(one.drop_first()) == Ok::<Seq<Statement>, Fault>(nothing));
    assert(statements(one) == Ok::<Seq<Statement>, Fault>(nothing));

    lemma_lines_joined(silent, tail);
    lemma_statements_compose(one, lines(tail));
    if statements(lines(tail)) is Ok {
        assert(nothing + statements(lines(tail))->Ok_0 =~= statements(lines(tail))->Ok_0);
    }

    lemma_lines_joined(head, silent);
    lemma_statements_compose(lines(head), one);
    if statements(lines(head)) is Ok {
        assert(statements(lines(head))->Ok_0 + nothing =~= statements(lines(head))->Ok_0);
    }

    lemma_lines_joined(head + line_feed() + silent, tail);
    lemma_lines_joined(head, tail);
    lemma_statements_compose(lines(head) + one, lines(tail));
    lemma_statements_compose(lines(head), lines(tail));
}

/// The converter gives one number for each token.
pub open spec fn single_valued<N, C: Fn(&str) -> N>(convert: &C) -> bool {
    forall|token: Seq<char>, a: N, b: N|
        #![trigger converts(convert, token, a), converts(convert, token, b)]
        converts(convert, token, a) && converts(convert, token, b) ==> a == b
}

/// With a converter that gives one number for each token, a statement is
/// realized by one instruction only.
pub proof fn lemma_one_realization<N, C: Fn(&str) -> N>(
    convert: &C,
    statement: Statement,
    a: Instruction<N>,
    b: Instruction<N>,
)
    requires
        single_valued(convert),
        realizes(convert, statement, a),
        realizes(convert, statement, b),
    ensures
        a == b,
{
    match statement {
        Statement::Assign(_) => {},
        Statement::Apply(_, tokens) => {
            let x = a->Apply_1;
            let y = b->Apply_1;
            assert forall|i: int| 0 <= i < x.len() implies x[i] == y[i] by {
                assert(reads_as(convert, tokens[i], x[i]));
                assert(reads_as(convert, tokens[i], y[i]));
                if is_number(tokens[i]) {
                    assert(converts(convert, tokens[i], x[i]->Number_0));
                    assert(converts(convert, tokens[i], y[i]->Number_0));
                }
            }
            assert(x =~= y);
        },
    }
}

/// Parsing is a function of the text: with a converter that gives one
/// number for each token, two outcomes of parsing the same text are the
/// same. Whatever the converter, both fail with the same fault or both
/// succeed with programs of the same length.
pub proof fn lemma_parsing_is_idempotent<N, C: Fn(&str) -> N>(
    convert: &C,
    text: Seq<char>,
    once: Result<Seq<Instruction<N>>, Fault>,
    again: Result<Seq<Instruction<N>>, Fault>,
)
    requires
        parses_to(convert, text, once),
        parses_to(convert, text, again),
    ensures
        once is Err ==> once == again,
        once is Ok ==> again is Ok && once->Ok_0.len() == again->Ok_0.len(),
        single_valued(convert) ==> once == again,
{
    if single_valued(convert) && once is Ok {
        let said = script(text)->Ok_0;
        let a = once->Ok_0;
        let b = again->Ok_0;
        assert forall|i: int| 0 <= i < a.len() implies a[i] == b[i] by {
            lemma_one_realization(convert, said[i], a[i], b[i]);
        }
        assert(a =~= b);
    }
}

// What commands compute

/// The operands that stand for the numbers of `list`, in order.
pub open spec fn literals<N>(list: Seq<N>) -> Seq<Term<N>> {
    Seq::new(list.len(), |i: int| Term::Number(list[i]))
}

/// Operands that are all numbers stand for those numbers, and none of them
/// is a missing name.
pub proof fn lemma_literals<N>(variables: Map<Seq<char>, N>, list: Seq<N>)
    ensures
        numbers(variables, literals(list)) == list,
        first_missing(variables.dom(), literals(list)) is None,
    decreases list.len(),
{
    if list.len() == 0 {
        assert(numbers(variables, literals(list)) =~= list);
    } else {
        assert(literals(list).drop_first() =~= literals(list.drop_first()));
        lemma_literals(variables, list.drop_first());
        assert(seq![list[0]] + list.drop_first() =~= list);
    }
}

/// What [`first_missing`] finds is the first: a name that is not set, with
/// no such name before it; and it finds one wherever there is one.
pub proof fn lemma_first_missing<N>(known: Set<Seq<char>>, operands: Seq<Term<N>>)
    ensures
        match first_missing(known, operands) {
            Some(name) => exists|i: int|
                0 <= i < operands.len() && #[trigger] is_missing(known, operands[i])
                    && operands[i] == Term::<N>::Name(name) && forall|j: int|
                    0 <= j < i ==> !is_missing(known, #[trigger] operands[j]),
            None => forall|i: int|
                0 <= i < operands.len() ==> !is_missing(known, #[trigger] operands[i]),
        },
    decreases operands.len(),
{
    if operands.len() == 0 {
    } else if is_missing(known, operands[0]) {
    } else {
        let rest = operands.drop_first();
        lemma_first_missing(known, rest);
        match first_missing(known, rest) {
            Some(name) => {
                let i = choose|i: int|
                    0 <= i < rest.len() && #[trigger] is_missing(known, rest[i]) && rest[i]
                        == Term::<N>::Name(name) && forall|j: int|
                        0 <= j < i ==> !is_missing(known, #[trigger] rest[j]);
                assert(operands[i + 1] == rest[i]);
                assert forall|j: int| 0 <= j < i + 1 implies !is_missing(
                    known,
                    #[trigger] operands[j],
                ) by {
                    if j > 0 {
                        assert(operands[j] == rest[j - 1]);
                    }
                }
                assert(is_missing(known, operands[i + 1]));
            },
            None => {
                assert forall|i: int| 0 <= i < operands.len() implies !is_missing(
                    known,
                    #[trigger] operands[i],
                ) by {
                    if i > 0 {
                        assert(operands[i] == rest[i - 1]);
                    }
                }
            },
        }
    }
}

/// A program of one instruction runs as that instruction steps.
pub proof fn lemma_single_instruction<N, F: Fn(Operator, N, N) -> N>(
    arithmetic: &F,
    machine: Machine<N>,
    instruction: Instruction<N>,
    outcome: Result<Machine<N>, Fault>,
)
    ensures
        runs(arithmetic, machine, seq![instruction], outcome) <==> steps(
            arithmetic,
            machine,
            instruction,
            outcome,
        ),
{
    let program = seq![instruction];
    assert(program[0] == instruction);
    assert(program.drop_first() =~= Seq::<Instruction<N>>::empty());
    if steps(arithmetic, machine, instruction, outcome) && outcome is Ok {
        let next = outcome->Ok_0;
        assert(steps(arithmetic, machine, program[0], Ok(next)));
        assert(runs(arithmetic, next, program.drop_first(), outcome));
    }
    if runs(arithmetic, machine, program, outcome) && !(outcome is Err && steps(
        arithmetic,
        machine,
        program[0],
        outcome,
    )) {
        let next = choose|next: Machine<N>| #[trigger]
            steps(arithmetic, machine, program[0], Ok(next)) && runs(
                arithmetic,
                next,
                program.drop_first(),
                outcome,
            );
        assert(outcome == Ok::<Machine<N>, Fault>(next));
    }
}

/// A first line folds its own operands: with no accumulator, an operation
/// on numbers alone succeeds, and its outcomes are the left folds of just
/// those numbers.
pub proof fn lemma_first_line_folds_its_operands<N, F: Fn(Operator, N, N) -> N>(
    arithmetic: &F,
    operator: Operator,
    machine: Machine<N>,
    list: Seq<N>,
    outcome: Result<Machine<N>, Fault>,
)
    requires
        machine.accumulator is None,
        list.len() > 0,
    ensures
        runs(
            arithmetic,
            machine,
            seq![Instruction::Apply(operator, literals(list))],
            outcome,
        ) <==> {
            &&& outcome is Ok
            &&& outcome->Ok_0.accumulator is Some
            &&& outcome->Ok_0 == after_result(machine, outcome->Ok_0.accumulator->Some_0)
            &&& folds(arithmetic, operator, list, outcome->Ok_0.accumulator->Some_0)
        },
{
    let line = Instruction::Apply(operator, literals(list));
    lemma_single_instruction(arithmetic, machine, line, outcome);
    lemma_literals(machine.variables, list);
    assert(literals(list)[0] is Number);
}

/// A later line folds from the accumulator: with an accumulator, an
/// operation on numbers alone succeeds, and its outcomes are the left folds
/// of the accumulator followed by those numbers.
pub proof fn lemma_next_line_folds_from_accumulator<N, F: Fn(Operator, N, N) -> N>(
    arithmetic: &F,
    operator: Operator,
    machine: Machine<N>,
    list: Seq<N>,
    outcome: Result<Machine<N>, Fault>,
)
    requires
        machine.accumulator is Some,
    ensures
        runs(
            arithmetic,
            machine,
            seq![Instruction::Apply(operator, literals(list))],
            outcome,
        ) <==> {
            &&& outcome is Ok
            &&& outcome->Ok_0.accumulator is Some
            &&& outcome->Ok_0 == after_result(machine, outcome->Ok_0.accumulator->Some_0)
            &&& folds(
                arithmetic,
                operator,
                seq![machine.accumulator->Some_0] + list,
                outcome->Ok_0.accumulator->Some_0,
            )
        },
{
    let line = Instruction::Apply(operator, literals(list));
    lemma_single_instruction(arithmetic, machine, line, outcome);
    lemma_literals(machine.variables, list);
    assert(working_list(machine, literals(list)) == seq![machine.accumulator->Some_0] + list);
}

/// Folding in two parts: a fold of `front` followed by `back` is a fold of
/// `front`, and then a fold of its result followed by `back`. So a line cut
/// in two, with the same operator on both parts, computes as the line whole.
pub proof fn lemma_fold_in_two_parts<N, F: Fn(Operator, N, N) -> N>(
    arithmetic: &F,
    operator: Operator,
    front: Seq<N>,
    back: Seq<N>,
    out: N,
)
    requires
        front.len() > 0,
    ensures
        folds(arithmetic, operator, front + back, out) <==> exists|mid: N|
            folds(arithmetic, operator, front, mid) && #[trigger] folds(
                arithmetic,
                operator,
                seq![mid] + back,
                out,
            ),
    decreases back.len(),
{
    let whole = front + back;
    if back.len() == 0 {
        assert(whole =~= front);
        if folds(arithmetic, operator, whole, out) {
            assert(seq![out] + back =~= seq![out]);
            assert(folds(arithmetic, operator, seq![out] + back, out));
        }
        if exists|mid: N|
            folds(arithmetic, operator, front, mid) && #[trigger] folds(
                arithmetic,
                operator,
                seq![mid] + back,
                out,
            ) {
            let mid = choose|mid: N|
                folds(arithmetic, operator, front, mid) && #[trigger] folds(
                    arithmetic,
                    operator,
                    seq![mid] + back,
                    out,
                );
            assert(seq![mid] + back =~= seq![mid]);
        }
    } else {
        let shorter = back.drop_last();
        let last = back.last();
        assert(whole.drop_last() =~= front + shorter);
        assert(whole.last() == last);
        if folds(arithmetic, operator, whole, out) {
            let acc = choose|acc: N|
                folds(arithmetic, operator, whole.drop_last(), acc) && #[trigger] call_ensures(
                    *arithmetic,
                    (operator, acc, whole.last()),
                    out,
                );
            lemma_fold_in_two_parts(arithmetic, operator, front, shorter, acc);
            let mid = choose|mid: N|
                folds(arithmetic, operator, front, mid) && #[trigger] folds(
                    arithmetic,
                    operator,
                    seq![mid] + shorter,
                    acc,
                );
            let tail = seq![mid] + back;
            assert(tail.drop_last() =~= seq![mid] + shorter);
            assert(tail.last() == last);
            assert(folds(arithmetic, operator, tail, out));
        }
        if exists|mid: N|
            folds(arithmetic, operator, front, mid) && #[trigger] folds(
                arithmetic,
                operator,
                seq![mid] + back,
                out,
            ) {
            let mid = choose|mid: N|
                folds(arithmetic, operator, front, mid) && #[trigger] folds(
                    arithmetic,
                    operator,
                    seq![mid] + back,
                    out,
                );
            let tail = seq![mid] + back;
            assert(tail.drop_last() =~= seq![mid] + shorter);
            assert(tail.last() == last);
            let acc = choose|acc: N|
                folds(arithmetic, operator, tail.drop_last(), acc) && #[trigger] call_ensures(
                    *arithmetic,
                    (operator, acc, tail.last()),
                    out,
                );
            lemma_fold_in_two_parts(arithmetic, operator, front, shorter, acc);
            assert(folds(arithmetic, operator, whole.drop_last(), acc));
            assert(folds(arithmetic, operator, whole, out));
        }
    }
}

/// A variable gives back what was stored in it: after an assignment to
/// `name`, the name is set and stands for the accumulator that was stored.
pub proof fn lemma_variable_round_trip<N, F: Fn(Operator, N, N) -> N>(
    arithmetic: &F,
    machine: Machine<N>,
    name: Seq<char>,
    next: Machine<N>,
)
    requires
        steps(arithmetic, machine, Instruction::SetVar(name), Ok(next)),
    ensures
        machine.accumulator is Some,
        next.accumulator is None,
        first_missing(next.variables.dom(), seq![Term::<N>::Name(name)]) is None,
        numbers(next.variables, seq![Term::<N>::Name(name)]) == seq![
            machine.accumulator->Some_0,
        ],
{
    let one = seq![Term::<N>::Name(name)];
    assert(one.drop_first() =~= Seq::<Term<N>>::empty());
    assert(first_missing(next.variables.dom(), one.drop_first()) is None);
    assert(numbers(next.variables, one.drop_first()) =~= Seq::<N>::empty());
    assert(numbers(next.variables, one) =~= seq![machine.accumulator->Some_0]);
}

/// Consecutive lines compose: a run of `first` followed by `second` is a run
/// of `first` that fails, or a run of `first` to some state followed by a
/// run of `second` from that state.
pub proof fn lemma_runs_compose<N, F: Fn(Operator, N, N) -> N>(
    arithmetic: &F,
    machine: Machine<N>,
    first: Seq<Instruction<N>>,
    second: Seq<Instruction<N>>,
    outcome: Result<Machine<N>, Fault>,
)
    ensures
        runs(arithmetic, machine, first + second, outcome) <==> {
            ||| outcome is Err && runs(arithmetic, machine, first, outcome)
            ||| exists|middle: Machine<N>| #[trigger]
                runs(arithmetic, machine, first, Ok(middle)) && runs(
                    arithmetic,
                    middle,
                    second,
                    outcome,
                )
        },
    decreases first.len(),
{
    let whole = first + second;
    if first.len() == 0 {
        assert(whole =~= second);
        assert(runs(arithmetic, machine, first, Ok(machine)));
    } else {
        assert(whole[0] == first[0]);
        assert(whole.drop_first() =~= first.drop_first() + second);
        if runs(arithmetic, machine, whole, outcome) {
            if outcome is Err && steps(arithmetic, machine, whole[0], outcome) {
                assert(runs(arithmetic, machine, first, outcome));
            } else {
                let next = choose|next: Machine<N>| #[trigger]
                    steps(arithmetic, machine, whole[0], Ok(next)) && runs(
                        arithmetic,
                        next,
                        whole.drop_first(),
                        outcome,
                    );
                lemma_runs_compose(arithmetic, next, first.drop_first(), second, outcome);
                if outcome is Err && runs(arithmetic, next, first.drop_first(), outcome) {
                    assert(runs(arithmetic, machine, first, outcome));
                } else {
                    let middle = choose|middle: Machine<N>| #[trigger]
                        runs(arithmetic, next, first.drop_first(), Ok(middle)) && runs(
                            arithmetic,
                            middle,
                            second,
                            outcome,
                        );
                    assert(runs(arithmetic, machine, first, Ok(middle)));
                }
            }
        }
        if outcome is Err && runs(arithmetic, machine, first, outcome) {
            if steps(arithmetic, machine, first[0], outcome) {
            } else {
                let next = choose|next: Machine<N>| #[trigger]
                    steps(arithmetic, machine, first[0], Ok(next)) && runs(
                        arithmetic,
                        next,
                        first.drop_first(),
                        outcome,
                    );
                lemma_runs_compose(arithmetic, next, first.drop_first(), second, outcome);
                assert(runs(arithmetic, next, whole.drop_first(), outcome));
            }
            assert(runs(arithmetic, machine, whole, outcome));
        }
        if exists|middle: Machine<N>| #[trigger]
            runs(arithmetic, machine, first, Ok(middle)) && runs(
                arithmetic,
                middle,
                second,
                outcome,
            ) {
            let middle = choose|middle: Machine<N>| #[trigger]
                runs(arithmetic, machine, first, Ok(middle)) && runs(
                    arithmetic,
                    middle,
                    second,
                    outcome,
                );
            let next = choose|next: Machine<N>| #[trigger]
                steps(arithmetic, machine, first[0], Ok(next)) && runs(
                    arithmetic,
                    next,
                    first.drop_first(),
                    Ok(middle),
                );
            lemma_runs_compose(arithmetic, next, first.drop_first(), second, outcome);
            assert(runs(arithmetic, next, whole.drop_first(), outcome));
            assert(runs(arithmetic, machine, whole, outcome));
        }
    }
}

/// A run only adds: it keeps every variable that was set and every entry of
/// the history, and appends one entry for each instruction, the last of
/// which is the accumulator it ends with.
pub proof fn lemma_runs_only_add<N, F: Fn(Operator, N, N) -> N>(
    arithmetic: &F,
    machine: Machine<N>,
    program: Seq<Instruction<N>>,
    last: Machine<N>,
)
    requires
        runs(arithmetic, machine, program, Ok(last)),
    ensures
        machine.variables.dom().subset_of(last.variables.dom()),
        last.history.len() == machine.history.len() + program.len(),
        last.history.take(machine.history.len() as int) == machine.history,
        program.len() > 0 ==> last.history.last() == last.accumulator,
    decreases program.len(),
{
    if program.len() == 0 {
        assert(last.history.take(machine.history.len() as int) =~= machine.history);
    } else {
        let next = choose|next: Machine<N>| #[trigger]
            steps(arithmetic, machine, program[0], Ok(next)) && runs(
                arithmetic,
                next,
                program.drop_first(),
                Ok(last),
            );
        lemma_runs_only_add(arithmetic, next, program.drop_first(), last);
        assert(next.history.len() == machine.history.len() + 1);
        assert(next.history.take(machine.history.len() as int) =~= machine.history);
        assert(last.history.take(machine.history.len() as int) =~= last.history.take(
            next.history.len() as int,
        ).take(machine.history.len() as int));
    }
}

// From text to result

/// A numeric first line is a fold of its numbers: where a line holds number
/// literals and an operator word behind them, it says to apply the operator
/// to the literals; a command that realizes it, run with no accumulator,
/// succeeds, and its outcomes are the left folds of the numbers that the
/// literals stand for.
pub proof fn lemma_numeric_line_is_a_fold<N, C: Fn(&str) -> N, F: Fn(Operator, N, N) -> N>(
    convert: &C,
    arithmetic: &F,
    tokens: Seq<Seq<char>>,
    word: Seq<char>,
    instruction: Instruction<N>,
    machine: Machine<N>,
    outcome: Result<Machine<N>, Fault>,
)
    requires
        tokens.len() > 0,
        forall|i: int| 0 <= i < tokens.len() ==> is_number(#[trigger] tokens[i]),
        operator_of(word) is Some,
        realizes(convert, Statement::Apply(operator_of(word)->Some_0, tokens), instruction),
        machine.accumulator is None,
    ensures
        line_statement(tokens.push(word)) == Ok::<Option<Statement>, Fault>(
            Some(Statement::Apply(operator_of(word)->Some_0, tokens)),
        ),
        instruction is Apply,
        instruction->Apply_1.len() == tokens.len(),
        forall|i: int|
            0 <= i < tokens.len() ==> (#[trigger] instruction->Apply_1[i]) is Number && converts(
                convert,
                tokens[i],
                instruction->Apply_1[i]->Number_0,
            ),
        runs(arithmetic, machine, seq![instruction], outcome) <==> {
            &&& outcome is Ok
            &&& outcome->Ok_0.accumulator is Some
            &&& outcome->Ok_0 == after_result(machine, outcome->Ok_0.accumulator->Some_0)
            &&& folds(
                arithmetic,
                operator_of(word)->Some_0,
                Seq::new(tokens.len(), |i: int| instruction->Apply_1[i]->Number_0),
                outcome->Ok_0.accumulator->Some_0,
            )
        },
{
    let line = tokens.push(word);
    let operator = operator_of(word)->Some_0;
    lemma_number_literals_are_operands(tokens[0]);
    assert(line[0] == tokens[0]);
    assert(line.last() == word);
    assert(line.drop_last() =~= tokens);
    assert(line_statement(line) == Ok::<Option<Statement>, Fault>(
        Some(Statement::Apply(operator, tokens)),
    ));
    let operands = instruction->Apply_1;
    assert forall|i: int| 0 <= i < tokens.len() implies (#[trigger] operands[i]) is Number
        && converts(convert, tokens[i], operands[i]->Number_0) by {
        assert(reads_as(convert, tokens[i], operands[i]));
    }
    let list = Seq::new(tokens.len(), |i: int| operands[i]->Number_0);
    assert(operands =~= literals(list));
    lemma_first_line_folds_its_operands(arithmetic, operator, machine, list, outcome);
}

} // verus!
