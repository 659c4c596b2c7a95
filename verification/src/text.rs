//! Cutting a script into lines and a line into words.
//!
//! A line ends at a line feed. A word is a maximal run of characters that
//! are not white space; white space is what Unicode gives the property
//! `White_Space`. A carriage return is white space, so a line that ends in
//! one has the same words as the line without it.

use vstd::prelude::*;
use vstd::utf8::encode_utf8;
use crate::encoding::{cut, lemma_encoding_is_injective, lemma_offset, offset, width_of};

verus! {

/// The character that ends a line.
pub open spec fn is_line_end(c: char) -> bool {
    c == '\n'
}

/// Whether `c` has the Unicode property `White_Space`.
pub open spec fn is_space(c: char) -> bool {
    let code = c as u32;
    ||| 0x09 <= code <= 0x0D
    ||| code == 0x20
    ||| code == 0x85
    ||| code == 0xA0
    ||| code == 0x1680
    ||| 0x2000 <= code <= 0x200A
    ||| code == 0x2028
    ||| code == 0x2029
    ||| code == 0x202F
    ||| code == 0x205F
    ||| code == 0x3000
}

/// The number of characters before the first line feed of `s`, or the length
/// of `s` if it holds none.
pub open spec fn line_len(s: Seq<char>) -> nat
    decreases s.len(),
{
    if s.len() == 0 || is_line_end(s[0]) {
        0
    } else {
        1 + line_len(s.drop_first())
    }
}

/// The lines of `s`: the pieces between its line feeds. There is always at
/// least one line; the text after the last line feed is a line even when it
/// is empty.
pub open spec fn lines(s: Seq<char>) -> Seq<Seq<char>>
    decreases s.len(),
{
    let n = line_len(s) as int;
    if n >= s.len() {
        seq![s]
    } else {
        seq![s.take(n)] + lines(s.skip(n + 1))
    }
}

/// The number of characters before the first white space of `s`, or the
/// length of `s` if it holds none.
pub open spec fn word_len(s: Seq<char>) -> nat
    decreases s.len(),
{
    if s.len() == 0 || is_space(s[0]) {
        0
    } else {
        1 + word_len(s.drop_first())
    }
}

/// The words of `s`: its maximal runs of characters that are not white
/// space, from left to right.
pub open spec fn words(s: Seq<char>) -> Seq<Seq<char>>
    decreases s.len(),
{
    if s.len() == 0 {
        seq![]
    } else if is_space(s[0]) {
        words(s.drop_first())
    } else {
        let n = word_len(s) as int;
        proof {
            lemma_word_len(s);
        }
        seq![s.take(n)] + words(s.skip(n))
    }
}

/// The texts of a sequence of string slices, in order.
pub open spec fn texts(slices: Seq<&str>) -> Seq<Seq<char>> {
    Seq::new(slices.len(), |i: int| slices[i]@)
}

/// `line_len` stops at the first line feed and nowhere before it.
pub proof fn lemma_line_len(s: Seq<char>)
    ensures
        line_len(s) <= s.len(),
        forall|i: int| 0 <= i < line_len(s) ==> !is_line_end(#[trigger] s[i]),
        line_len(s) < s.len() ==> is_line_end(s[line_len(s) as int]),
    decreases s.len(),
{
    if s.len() == 0 || is_line_end(s[0]) {
    } else {
        let rest = s.drop_first();
        lemma_line_len(rest);
        assert forall|i: int| 0 <= i < line_len(s) implies !is_line_end(#[trigger] s[i]) by {
            if i > 0 {
                assert(s[i] == rest[i - 1]);
            }
        }
        if line_len(s) < s.len() {
            assert(s[line_len(s) as int] == rest[line_len(rest) as int]);
        }
    }
}

/// A position with a line feed (or the end) and no line feed before it is
/// where `line_len` stops.
pub proof fn lemma_line_len_is(s: Seq<char>, n: int)
    requires
        0 <= n <= s.len(),
        forall|i: int| 0 <= i < n ==> !is_line_end(#[trigger] s[i]),
        n < s.len() ==> is_line_end(s[n]),
    ensures
        line_len(s) == n,
    decreases s.len(),
{
    if n == 0 {
    } else {
        let rest = s.drop_first();
        assert(!is_line_end(s[0]));
        assert forall|i: int| 0 <= i < n - 1 implies !is_line_end(#[trigger] rest[i]) by {
            assert(rest[i] == s[i + 1]);
        }
        lemma_line_len_is(rest, n - 1);
    }
}

/// `word_len` stops at the first white space and nowhere before it.
pub proof fn lemma_word_len(s: Seq<char>)
    ensures
        word_len(s) <= s.len(),
        forall|i: int| 0 <= i < word_len(s) ==> !is_space(#[trigger] s[i]),
        word_len(s) < s.len() ==> is_space(s[word_len(s) as int]),
        s.len() > 0 && !is_space(s[0]) ==> word_len(s) > 0,
    decreases s.len(),
{
    if s.len() == 0 || is_space(s[0]) {
    } else {
        let rest = s.drop_first();
        lemma_word_len(rest);
        assert forall|i: int| 0 <= i < word_len(s) implies !is_space(#[trigger] s[i]) by {
            if i > 0 {
                assert(s[i] == rest[i - 1]);
            }
        }
        if word_len(s) < s.len() {
            assert(s[word_len(s) as int] == rest[word_len(rest) as int]);
        }
    }
}

/// A position with white space (or the end) and no white space before it is
/// where `word_len` stops.
pub proof fn lemma_word_len_is(s: Seq<char>, n: int)
    requires
        0 <= n <= s.len(),
        forall|i: int| 0 <= i < n ==> !is_space(#[trigger] s[i]),
        n < s.len() ==> is_space(s[n]),
    ensures
        word_len(s) == n,
    decreases s.len(),
{
    if n == 0 {
    } else {
        let rest = s.drop_first();
        assert(!is_space(s[0]));
        assert forall|i: int| 0 <= i < n - 1 implies !is_space(#[trigger] rest[i]) by {
            assert(rest[i] == s[i + 1]);
        }
        lemma_word_len_is(rest, n - 1);
    }
}

/// Whether `c` is white space.
pub fn is_whitespace(c: char) -> (r: bool)
    ensures
        r == is_space(c),
{
    let code: u32 = c as u32;
    (0x09 <= code && code <= 0x0D) || code == 0x20 || code == 0x85 || code == 0xA0 || code
        == 0x1680 || (0x2000 <= code && code <= 0x200A) || code == 0x2028 || code == 0x2029
        || code == 0x202F || code == 0x205F || code == 0x3000
}

/// Whether `a` and `b` hold the same characters.
pub fn same_text(a: &str, b: &str) -> (r: bool)
    ensures
        r == (a@ == b@),
{
    let x = a.as_bytes();
    let y = b.as_bytes();
    proof {
        if x@ == y@ {
            lemma_encoding_is_injective(a@, b@);
        }
    }
    if x.len() != y.len() {
        return false;
    }
    let mut i: usize = 0;
    while i < x.len()
        invariant
            i <= x.len(),
            x.len() == y.len(),
            a@ == b@ <==> x@ == y@,
            forall|j: int| 0 <= j < i ==> x@[j] == y@[j],
        decreases x.len() - i,
    {
        if x[i] != y[i] {
            return false;
        }
        i += 1;
    }
    assert(x@ =~= y@);
    true
}

/// The lines of `text`, as slices of it.
pub fn split_lines<'a>(text: &'a str) -> (out: Vec<&'a str>)
    ensures
        texts(out@) == lines(text@),
{
    // No offset below exceeds the length in bytes, which fits a `usize`.
    let total: usize = text.as_bytes().len();
    let mut out: Vec<&'a str> = Vec::new();
    // The line being read starts at the character `begin`, at byte `start`;
    // the character being read is at byte `at`.
    let mut start: usize = 0;
    let mut at: usize = 0;
    let ghost mut begin: int = 0;
    proof {
        lemma_offset(text@, 0);
        assert(text@.skip(0) =~= text@);
        assert(texts(out@) + lines(text@) =~= lines(text@));
    }
    for c in it: text.chars()
        invariant
            it.seq() == text@,
            total == encode_utf8(text@).len(),
            0 <= begin <= it.index(),
            start == offset(text@, begin),
            at == offset(text@, it.index() as int),
            forall|j: int| begin <= j < it.index() ==> !is_line_end(#[trigger] text@[j]),
            texts(out@) + lines(text@.skip(begin)) == lines(text@),
    {
        let ghost index = it.index() as int;
        proof {
            lemma_offset(text@, index);
            lemma_offset(text@, index + 1);
        }
        let next: usize = at + width_of(c);
        if c == '\n' {
            let line = cut(text, start, at, Ghost(begin), Ghost(index));
            proof {
                let rest = text@.skip(begin);
                lemma_line_len_is(rest, index - begin);
                assert(rest.take(index - begin) =~= text@.subrange(begin, index));
                assert(rest.skip(index - begin + 1) =~= text@.skip(index + 1));
                assert(texts(out@.push(line)) =~= texts(out@) + seq![line@]);
                begin = index + 1;
            }
            out.push(line);
            start = next;
        }
        at = next;
    }
    let ghost end = text@.len() as int;
    let line = cut(text, start, at, Ghost(begin), Ghost(end));
    proof {
        let rest = text@.skip(begin);
        lemma_line_len_is(rest, end - begin);
        assert(rest =~= text@.subrange(begin, end));
        assert(texts(out@.push(line)) =~= texts(out@) + seq![line@]);
    }
    out.push(line);
    out
}

/// The words of `line`, as slices of it.
pub fn split_words<'a>(line: &'a str) -> (out: Vec<&'a str>)
    ensures
        texts(out@) == words(line@),
{
    // No offset below exceeds the length in bytes, which fits a `usize`.
    let total: usize = line.as_bytes().len();
    let mut out: Vec<&'a str> = Vec::new();
    // Inside a word, the word starts at the character `begin`, at byte
    // `start`; outside, they are where the character being read is, at byte
    // `at`.
    let mut inside = false;
    let mut start: usize = 0;
    let mut at: usize = 0;
    let ghost mut begin: int = 0;
    proof {
        lemma_offset(line@, 0);
        assert(line@.skip(0) =~= line@);
        assert(texts(out@) + words(line@) =~= words(line@));
    }
    for c in it: line.chars()
        invariant
            it.seq() == line@,
            total == encode_utf8(line@).len(),
            0 <= begin <= it.index(),
            inside <==> begin < it.index(),
            start == offset(line@, begin),
            at == offset(line@, it.index() as int),
            forall|j: int| begin <= j < it.index() ==> !is_space(#[trigger] line@[j]),
            texts(out@) + words(line@.skip(begin)) == words(line@),
    {
        let ghost index = it.index() as int;
        proof {
            lemma_offset(line@, index);
            lemma_offset(line@, index + 1);
        }
        let next: usize = at + width_of(c);
        if is_whitespace(c) {
            if inside {
                let word = cut(line, start, at, Ghost(begin), Ghost(index));
                proof {
                    let rest = line@.skip(begin);
                    lemma_word_len_is(rest, index - begin);
                    assert(rest.take(index - begin) =~= line@.subrange(begin, index));
                    assert(rest.skip(index - begin) =~= line@.skip(index));
                    assert(texts(out@.push(word)) + words(line@.skip(index)) =~= texts(out@)
                        + words(rest));
                }
                out.push(word);
                inside = false;
            }
            proof {
                assert(line@.skip(index)[0] == c);
                assert(line@.skip(index).drop_first() =~= line@.skip(index + 1));
                begin = index + 1;
            }
            start = next;
        } else {
            inside = true;
        }
        at = next;
    }
    let ghost end = line@.len() as int;
    if inside {
        let word = cut(line, start, at, Ghost(begin), Ghost(end));
        proof {
            let rest = line@.skip(begin);
            lemma_word_len_is(rest, end - begin);
            assert(rest.take(end - begin) =~= line@.subrange(begin, end));
            assert(rest.skip(end - begin) =~= Seq::<char>::empty());
            assert(rest[0] == line@[begin]);
            assert(words(rest.skip(end - begin)) =~= Seq::<Seq<char>>::empty());
            assert(texts(out@.push(word)) =~= texts(out@) + words(rest));
        }
        out.push(word);
    } else {
        proof {
            assert(line@.skip(begin) =~= Seq::<char>::empty());
            assert(texts(out@) + words(line@.skip(begin)) =~= texts(out@));
        }
    }
    out
}

} // verus!
