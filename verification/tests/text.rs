use rpn_engine::encoding::width_of;
use rpn_engine::text::{is_whitespace, same_text, split_lines, split_words};

#[test]
fn is_whitespace_is_the_unicode_property() {
    let mut code: u32 = 0;
    while code <= 0x10FFFF {
        if let Some(c) = char::from_u32(code) {
            assert_eq!(is_whitespace(c), c.is_whitespace(), "U+{:04X}", code);
        }
        code += 1;
    }
}

#[test]
fn is_whitespace_on_named_characters() {
    for c in [' ', '\t', '\n', '\r', '\u{b}', '\u{c}', '\u{85}', '\u{a0}', '\u{3000}'] {
        assert!(is_whitespace(c), "{:?}", c);
    }
    for c in ['a', '0', '#', '=', '\u{200b}', '\u{180e}', '\u{feff}', '\0'] {
        assert!(!is_whitespace(c), "{:?}", c);
    }
}

#[test]
fn same_text_compares_characters() {
    assert!(same_text("", ""));
    assert!(same_text("plus", "plus"));
    assert!(same_text("\u{e9}t\u{e9}", "\u{e9}t\u{e9}"));
    assert!(!same_text("plus", "plu"));
    assert!(!same_text("plu", "plus"));
    assert!(!same_text("plus", "pluz"));
    assert!(!same_text("", "x"));
    assert!(!same_text("\u{e9}", "e"));
    assert!(!same_text("\u{e9}", "\u{e8}"));
}

#[test]
fn split_lines_cuts_at_line_feeds() {
    assert_eq!(split_lines("a\nb\nc"), vec!["a", "b", "c"]);
    assert_eq!(split_lines("1 2 +\n3 -"), vec!["1 2 +", "3 -"]);
    assert_eq!(split_lines("no line feed"), vec!["no line feed"]);
}

#[test]
fn split_lines_keeps_empty_lines() {
    assert_eq!(split_lines(""), vec![""]);
    assert_eq!(split_lines("\n"), vec!["", ""]);
    assert_eq!(split_lines("a\n"), vec!["a", ""]);
    assert_eq!(split_lines("\na"), vec!["", "a"]);
    assert_eq!(split_lines("a\n\n\nb"), vec!["a", "", "", "b"]);
}

#[test]
fn split_lines_leaves_carriage_returns_in_place() {
    assert_eq!(split_lines("a\r\nb\r"), vec!["a\r", "b\r"]);
}

#[test]
fn split_lines_counts_characters_not_bytes() {
    assert_eq!(
        split_lines("\u{e9}\u{e9}\n\u{1f600}\n\u{3000}x"),
        vec!["\u{e9}\u{e9}", "\u{1f600}", "\u{3000}x"]
    );
}

#[test]
fn split_lines_joined_by_line_feeds_is_the_text() {
    for text in ["", "\n", "a", "a\nb", "\n\na\n\nb\n", "x\r\ny", "\u{e9}\n\u{e8}\n"] {
        assert_eq!(split_lines(text).join("\n"), text);
    }
}

#[test]
fn split_words_cuts_at_white_space() {
    assert_eq!(split_words("1 2 +"), vec!["1", "2", "+"]);
    assert_eq!(split_words("  1\t\t2   plus  "), vec!["1", "2", "plus"]);
    assert_eq!(split_words("one"), vec!["one"]);
    assert_eq!(split_words(""), Vec::<&str>::new());
    assert_eq!(split_words(" \t\r "), Vec::<&str>::new());
    assert_eq!(split_words("= x\r"), vec!["=", "x"]);
}

#[test]
fn split_words_knows_unicode_white_space() {
    assert_eq!(
        split_words("a\u{a0}b\u{2003}c\u{3000}d\u{85}e\u{2028}f\u{1680}g"),
        vec!["a", "b", "c", "d", "e", "f", "g"]
    );
    assert_eq!(split_words("a\u{200b}b"), vec!["a\u{200b}b"]);
    assert_eq!(split_words("\u{e9}t\u{e9} \u{1f600}"), vec!["\u{e9}t\u{e9}", "\u{1f600}"]);
}

#[test]
fn split_words_agrees_with_the_standard_library() {
    for line in [
        "",
        " ",
        "a",
        " a",
        "a ",
        "a b",
        "  a   b  ",
        "1 2 3 +",
        "\t=\u{b}x\u{c}",
        "\u{2000}\u{2001}x\u{200a}\u{202f}y\u{205f}",
        "\u{e9}\u{a0}\u{e8}",
        "# a comment, with words",
    ] {
        let expected: Vec<&str> = line.split_whitespace().collect();
        assert_eq!(split_words(line), expected, "{:?}", line);
    }
}

#[test]
fn words_of_lines_agree_with_the_standard_library() {
    for text in [
        "1 2 +\n3 -",
        "1 2 +\r\n3 -\r\n",
        "\r\n\r\n",
        "a\rb\nc",
        "a\n\rb",
        "x\r",
        "\n",
        "",
    ] {
        let ours: Vec<Vec<&str>> = split_lines(text)
            .into_iter()
            .map(split_words)
            .filter(|words| !words.is_empty())
            .collect();
        let theirs: Vec<Vec<&str>> = text
            .lines()
            .map(|line| line.split_whitespace().collect::<Vec<&str>>())
            .filter(|words| !words.is_empty())
            .collect();
        assert_eq!(ours, theirs, "{:?}", text);
    }
}

#[test]
fn width_of_is_the_length_of_the_encoding() {
    let mut code: u32 = 0;
    while code <= 0x10FFFF {
        if let Some(c) = char::from_u32(code) {
            assert_eq!(width_of(c), c.len_utf8(), "U+{:04X}", code);
        }
        code += 1;
    }
    assert_eq!(width_of('a'), 1);
    assert_eq!(width_of('\u{e9}'), 2);
    assert_eq!(width_of('\u{3000}'), 3);
    assert_eq!(width_of('\u{1f600}'), 4);
}

#[test]
fn long_scripts_are_split_in_one_pass() {
    let mut text = String::new();
    let mut expected: Vec<String> = Vec::new();
    for i in 0..20000 {
        let line = format!("{} \u{e9}{} +", i, i);
        text.push_str(&line);
        text.push('\n');
        expected.push(line);
    }
    expected.push(String::new());
    let lines = split_lines(&text);
    assert_eq!(lines.len(), expected.len());
    for (line, wanted) in lines.iter().zip(expected.iter()) {
        assert_eq!(line, wanted);
    }
    assert_eq!(split_words(&text).len(), 60000);
}
