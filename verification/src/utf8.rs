//! Facts about UTF-8 that the round trip of a file rests on: text can be cut
//! next to any ASCII byte, and encoding goes piece by piece.

use vstd::prelude::*;
use vstd::utf8::{
    encode_utf8, is_char_boundary_iff_not_is_continuation_byte, valid_utf8, valid_utf8_concat,
    valid_utf8_split,
};

verus! {

/// A place where valid UTF-8 can be cut in two without cutting a character:
/// either end, and both sides of any ASCII byte.
pub open spec fn is_cut(s: Seq<u8>, i: int) -> bool {
    &&& 0 <= i <= s.len()
    &&& (i == 0 || i == s.len() || s[i] <= 0x7f || s[i - 1] <= 0x7f)
}

/// The encoding of two texts, one behind the other, is the encoding of the
/// first followed by that of the second.
pub proof fn lemma_encode_concat(a: Seq<char>, b: Seq<char>)
    ensures
        encode_utf8(a + b) == encode_utf8(a) + encode_utf8(b),
    decreases a.len(),
{
    if a.len() == 0 {
        assert(a + b =~= b);
        assert(encode_utf8(a) + encode_utf8(b) =~= encode_utf8(b));
    } else {
        lemma_encode_concat(a.drop_first(), b);
        assert((a + b).drop_first() =~= a.drop_first() + b);
        assert((a + b)[0] == a[0]);
        let head = vstd::utf8::encode_scalar(a[0] as u32);
        assert(head + (encode_utf8(a.drop_first()) + encode_utf8(b)) =~= (head + encode_utf8(
            a.drop_first(),
        )) + encode_utf8(b));
    }
}

/// One ASCII byte is valid UTF-8.
pub proof fn lemma_ascii_byte_valid(b: u8)
    requires
        b <= 0x7f,
    ensures
        valid_utf8(seq![b]),
{
    reveal_with_fuel(valid_utf8, 2);
    let s = seq![b];
    assert(vstd::utf8::pop_first_scalar(s).len() == 0);
}

/// Both parts of valid UTF-8 that is cut at a cut are valid UTF-8.
pub proof fn lemma_cut_valid(s: Seq<u8>, i: int)
    requires
        valid_utf8(s),
        is_cut(s, i),
    ensures
        valid_utf8(s.subrange(0, i)),
        valid_utf8(s.subrange(i, s.len() as int)),
{
    let n = s.len() as int;
    if i == 0 {
        assert(s.subrange(0, n) =~= s);
    } else if i == n {
        assert(s.subrange(0, n) =~= s);
    } else if s[i] <= 0x7f {
        is_char_boundary_iff_not_is_continuation_byte(s, i);
        valid_utf8_split(s, i);
    } else {
        is_char_boundary_iff_not_is_continuation_byte(s, i - 1);
        valid_utf8_split(s, i - 1);
        let left = s.subrange(0, i - 1);
        let right = s.subrange(i - 1, n);
        assert(right[0] == s[i - 1]);
        assert(vstd::utf8::pop_first_scalar(right) =~= s.subrange(i, n));
        lemma_ascii_byte_valid(s[i - 1]);
        valid_utf8_concat(left, seq![s[i - 1]]);
        assert(left + seq![s[i - 1]] =~= s.subrange(0, i));
    }
}

/// The stretch between two cuts of valid UTF-8 is valid UTF-8.
pub proof fn lemma_piece_valid(s: Seq<u8>, i: int, j: int)
    requires
        valid_utf8(s),
        is_cut(s, i),
        is_cut(s, j),
        i <= j,
    ensures
        valid_utf8(s.subrange(i, j)),
{
    lemma_cut_valid(s, j);
    let head = s.subrange(0, j);
    if i == j {
        assert(s.subrange(i, j) =~= Seq::<u8>::empty());
    } else {
        assert(i > 0 ==> head[i - 1] == s[i - 1]);
        assert(head[i] == s[i]);
        assert(is_cut(head, i));
        lemma_cut_valid(head, i);
        assert(head.subrange(i, j) =~= s.subrange(i, j));
    }
}

} // verus!
