use rpn_engine::is_number_literal;

fn reads(token: &str) -> bool {
    token.parse::<f64>().is_ok()
}

#[test]
fn number_literals_in_their_plain_forms() {
    for token in [
        "0", "5", "-5", "+5", "3.14", "-3.14", "5.", ".5", "-.5", "+5.", "007", "1e3", "1E3",
        "2.5e10", "2.5E-10", "1e+5", ".5e1", "5.e1", "123456789012345678901234567890",
        "0.000000000000000000000000000001", "1e400", "1e-400",
    ] {
        assert!(is_number_literal(token), "{:?}", token);
    }
}

#[test]
fn number_literals_with_names() {
    for token in [
        "inf", "-inf", "+inf", "INF", "Inf", "infinity", "-infinity", "+Infinity", "iNfInItY",
        "nan", "NaN", "-nan", "+NAN",
    ] {
        assert!(is_number_literal(token), "{:?}", token);
    }
}

#[test]
fn tokens_that_are_names() {
    for token in [
        "", "+", "-", ".", "+.", "-.", "e", "e5", "E5", ".e5", "1e", "1e+", "1e-", "1e5.5",
        "1.2.3", "--5", "+-5", "5-", "5+", "1_000", "0x10", "1f", "5x", "x5", "derp", "in",
        "infinit", "infinityy", "na", "nann", "i", "n", "1 ", " 1", "1,5", "\u{661}\u{662}",
        "\u{ff11}", "1\u{e9}", "\u{212a}", "\u{130}nf", "inf\u{131}nity", "1e\u{b2}",
        "++inf", "inf.", ".inf", "nan0", "0nan", "1e1e1", "1..", "..1", "1.e", "e.1",
    ] {
        assert!(!is_number_literal(token), "{:?}", token);
        assert!(!reads(token), "{:?}", token);
    }
}

#[test]
fn number_literals_are_what_the_standard_library_reads() {
    let alphabet = [
        '+', '-', '.', 'e', 'E', '0', '7', 'i', 'n', 'f', 'I', 'N', 'a', 't', 'y', 'x', ' ',
    ];
    let mut tested: u64 = 0;
    let mut stack: Vec<String> = vec![String::new()];
    while let Some(token) = stack.pop() {
        assert_eq!(is_number_literal(&token), reads(&token), "{:?}", token);
        tested += 1;
        if token.chars().count() < 5 {
            for c in alphabet {
                let mut longer = token.clone();
                longer.push(c);
                stack.push(longer);
            }
        }
    }
    assert_eq!(tested, 1 + 17 + 289 + 4913 + 83521 + 1419857);
}

#[test]
fn longer_number_literals_are_what_the_standard_library_reads() {
    let pieces = [
        "", "+", "-", "1", "23", ".", "e", "E", "e+", "e-", "inf", "Infinity", "nan", "infinit",
        "y", "0", ".5", "5.",
    ];
    for a in pieces {
        for b in pieces {
            for c in pieces {
                for d in pieces {
                    let token = format!("{}{}{}{}", a, b, c, d);
                    assert_eq!(is_number_literal(&token), reads(&token), "{:?}", token);
                }
            }
        }
    }
}

#[test]
fn no_operator_word_or_marker_is_a_number_literal() {
    for token in [
        "+", "plus", "add", "-", "minus", "subtract", "x", "*", "times", "multiply", "/", "div",
        "divide", "**", "^", "power", "%", "mod", "modulus", "modulo", "=", "#", "#1", "#inf",
    ] {
        assert!(!is_number_literal(token), "{:?}", token);
    }
}
