//! Where the characters of a string lie among its bytes.
//!
//! A string slice is cut at byte offsets, while the language is defined over
//! characters. This module relates the two: the offset of the `i`-th
//! character is the length of the UTF-8 encoding of the characters before it,
//! it is a character boundary, and cutting the bytes there cuts the
//! characters at `i`.

use vstd::prelude::*;
use vstd::utf8::{
    char_is_scalar, encode_scalar, encode_utf8, encode_utf8_decode_utf8,
    encode_utf8_first_scalar, encode_utf8_valid_utf8, is_char_boundary, pop_first_scalar,
};

verus! {

/// The number of bytes that encode `c`.
pub open spec fn width(c: char) -> nat {
    encode_scalar(c as u32).len()
}

/// The number of bytes that encode the first `i` characters of `s`: the
/// byte offset of its `i`-th character.
pub open spec fn offset(s: Seq<char>, i: int) -> nat {
    encode_utf8(s.take(i)).len()
}

/// The encoding of a concatenation is the concatenation of the encodings.
pub proof fn lemma_encode_join(a: Seq<char>, b: Seq<char>)
    ensures
        encode_utf8(a + b) == encode_utf8(a) + encode_utf8(b),
    decreases a.len(),
{
    if a.len() == 0 {
        assert(a + b =~= b);
        assert(encode_utf8(a) + encode_utf8(b) =~= encode_utf8(b));
    } else {
        assert((a + b)[0] == a[0]);
        assert((a + b).drop_first() =~= a.drop_first() + b);
        lemma_encode_join(a.drop_first(), b);
        let first = encode_scalar(a[0] as u32);
        assert(first + (encode_utf8(a.drop_first()) + encode_utf8(b)) =~= (first + encode_utf8(
            a.drop_first(),
        )) + encode_utf8(b));
    }
}

/// The end of the encoding of `a` is a character boundary in the encoding of
/// `a + b`.
pub proof fn lemma_join_is_boundary(a: Seq<char>, b: Seq<char>)
    ensures
        is_char_boundary(encode_utf8(a + b), encode_utf8(a).len() as int),
    decreases a.len(),
{
    let chars = a + b;
    let bytes = encode_utf8(chars);
    encode_utf8_valid_utf8(chars);
    if a.len() > 0 {
        assert(chars[0] == a[0]);
        assert(chars.drop_first() =~= a.drop_first() + b);
        encode_utf8_first_scalar(chars);
        assert(pop_first_scalar(bytes) =~= encode_utf8(chars.drop_first()));
        lemma_join_is_boundary(a.drop_first(), b);
        lemma_encode_join(a, b);
        lemma_width(a[0]);
    }
}

/// A character takes one to four bytes.
pub proof fn lemma_width(c: char)
    ensures
        1 <= width(c) <= 4,
{
}

/// Offsets grow character by character, from nothing to the length of the
/// encoding.
pub proof fn lemma_offset(s: Seq<char>, i: int)
    requires
        0 <= i <= s.len(),
    ensures
        offset(s, 0) == 0,
        offset(s, i) <= encode_utf8(s).len(),
        offset(s, s.len() as int) == encode_utf8(s).len(),
        i < s.len() ==> offset(s, i + 1) == offset(s, i) + width(s[i]),
{
    assert(s.take(0) =~= Seq::<char>::empty());
    assert(s.take(s.len() as int) =~= s);
    assert(s.take(i) + s.skip(i) =~= s);
    lemma_encode_join(s.take(i), s.skip(i));
    if i < s.len() {
        let one = seq![s[i]];
        assert(s.take(i + 1) =~= s.take(i) + one);
        lemma_encode_join(s.take(i), one);
        assert(one.drop_first() =~= Seq::<char>::empty());
        assert(encode_utf8(one.drop_first()) =~= Seq::<u8>::empty());
        assert(one[0] == s[i]);
        assert(encode_utf8(one) =~= encode_scalar(s[i] as u32));
    }
}

/// The offset of a character is a character boundary, and the bytes before
/// and behind it encode the characters before and behind it.
pub proof fn lemma_cut(s: Seq<char>, i: int)
    requires
        0 <= i <= s.len(),
    ensures
        is_char_boundary(encode_utf8(s), offset(s, i) as int),
        encode_utf8(s).subrange(0, offset(s, i) as int) == encode_utf8(s.take(i)),
        encode_utf8(s).subrange(offset(s, i) as int, encode_utf8(s).len() as int) == encode_utf8(
            s.skip(i),
        ),
{
    let before = s.take(i);
    let behind = s.skip(i);
    assert(before + behind =~= s);
    lemma_encode_join(before, behind);
    lemma_join_is_boundary(before, behind);
    let bytes = encode_utf8(s);
    assert(bytes.subrange(0, offset(s, i) as int) =~= encode_utf8(before));
    assert(bytes.subrange(offset(s, i) as int, bytes.len() as int) =~= encode_utf8(behind));
}

/// Characters are what their encoding says: two sequences with the same
/// encoding are the same.
pub proof fn lemma_encoding_is_injective(a: Seq<char>, b: Seq<char>)
    requires
        encode_utf8(a) == encode_utf8(b),
    ensures
        a == b,
{
    encode_utf8_decode_utf8(a);
    encode_utf8_decode_utf8(b);
}

/// The number of bytes that encode `c`.
pub fn width_of(c: char) -> (n: usize)
    ensures
        n == width(c),
        1 <= n <= 4,
{
    proof {
        char_is_scalar(c);
    }
    let code: u32 = c as u32;
    if code <= 0x7F {
        1
    } else if code <= 0x7FF {
        2
    } else if code <= 0xFFFF {
        3
    } else {
        4
    }
}

/// The piece of `text` from its `i`-th character up to its `j`-th, given
/// the byte offsets of the two.
pub(crate) fn cut<'a>(
    text: &'a str,
    from: usize,
    to: usize,
    Ghost(i): Ghost<int>,
    Ghost(j): Ghost<int>,
) -> (piece: &'a str)
    requires
        0 <= i <= j <= text@.len(),
        from == offset(text@, i),
        to == offset(text@, j),
    ensures
        piece@ == text@.subrange(i, j),
{
    proof {
        lemma_cut(text@, j);
    }
    let (head, _) = text.split_at(to);
    proof {
        lemma_encoding_is_injective(head@, text@.take(j));
        assert(head@.take(i) =~= text@.take(i));
        lemma_cut(head@, i);
    }
    let (_, piece) = head.split_at(from);
    proof {
        lemma_encoding_is_injective(piece@, head@.skip(i));
        assert(head@.skip(i) =~= text@.subrange(i, j));
    }
    piece
}

} // verus!
