//! Reading a file and writing it back changes nothing but a missing line
//! feed at its end.

use vstd::prelude::*;
use vstd::utf8::{decode_utf8_encode_utf8, encode_utf8, valid_utf8};
use crate::grammar::{is_line_byte, is_plain_byte, lemma_run_end, lemma_value_end, piece_end};
use crate::lines::{
    behind_line_feed, document, document_text, first_line, first_line_len, lemma_first_line_len,
    lemma_statement_shape, line_text, opaque_text_end, statement_shape, LineView,
};
use crate::text::lossy_text;
use crate::utf8::{is_cut, lemma_cut_valid, lemma_encode_concat, lemma_piece_valid};

verus! {

/// Where the text of the first line of `s` ends: at its line feed, or at the
/// end of `s`.
pub open spec fn first_line_text_end(s: Seq<u8>) -> int {
    match statement_shape(s) {
        Ok(shape) => shape.text_end,
        Err(_) => opaque_text_end(s),
    }
}

/// Whether the last line of `s` has no line feed of its own.
pub open spec fn lacks_final_line_feed(s: Seq<u8>) -> bool
    decreases s.len(),
{
    let n = first_line_len(s);
    if s.len() == 0 {
        false
    } else if 0 < n < s.len() {
        lacks_final_line_feed(s.skip(n))
    } else {
        first_line_text_end(s) == s.len()
    }
}

/// The bytes of `s` as a file that ends with a line feed.
pub open spec fn with_final_line_feed(s: Seq<u8>) -> Seq<u8> {
    if lacks_final_line_feed(s) {
        s.push(0x0A)
    } else {
        s
    }
}

/// The text of a document is the text of its first line followed by the
/// text of the rest.
pub proof fn lemma_document_text_first(line: LineView, rest: Seq<LineView>)
    ensures
        document_text(seq![line] + rest) == line_text(line) + document_text(rest),
    decreases rest.len(),
{
    let all = seq![line] + rest;
    if rest.len() == 0 {
        assert(all.drop_last() =~= Seq::<LineView>::empty());
        assert(document_text(all.drop_last()) =~= Seq::<char>::empty());
        assert(all.last() == line);
        assert(document_text(all) =~= line_text(line) + document_text(rest));
    } else {
        lemma_document_text_first(line, rest.drop_last());
        assert(all.drop_last() =~= seq![line] + rest.drop_last());
        assert(all.last() == rest.last());
        assert(document_text(all) =~= line_text(line) + document_text(rest));
    }
}

/// The encoding of the text read from a valid stretch is the stretch.
proof fn lemma_piece_text(s: Seq<u8>, i: int, j: int)
    requires
        valid_utf8(s),
        is_cut(s, i),
        is_cut(s, j),
        i <= j,
    ensures
        encode_utf8(lossy_text(s.subrange(i, j))) == s.subrange(i, j),
{
    lemma_piece_valid(s, i, j);
    decode_utf8_encode_utf8(s.subrange(i, j));
}

/// The encoding of one ASCII character is its byte.
proof fn lemma_encode_ascii(c: char, b: u8)
    requires
        b <= 0x7f,
        c as u32 == b as u32,
    ensures
        encode_utf8(seq![c]) == seq![b],
{
    let s = seq![c];
    assert(s.drop_first() =~= Seq::<char>::empty());
    assert(encode_utf8(s.drop_first()) =~= Seq::<u8>::empty());
    let v = c as u32;
    assert(vstd::utf8::leading_byte_width_1(v) == b) by (bit_vector)
        requires
            v == b as u32,
            b <= 0x7f,
            vstd::utf8::leading_byte_width_1(v) == (v & 0x7F) as u8,
    ;
    assert(encode_utf8(s) =~= seq![b]);
}

/// The first line of valid UTF-8, written back, is the bytes it was read
/// from, up to its line feed and with a line feed; what follows the line is
/// valid UTF-8 again.
pub proof fn lemma_first_line_round_trip(s: Seq<u8>)
    requires
        valid_utf8(s),
        s.len() > 0,
    ensures
        encode_utf8(line_text(first_line(s))) == s.subrange(0, first_line_text_end(s)).push(0x0A),
        0 <= first_line_text_end(s) <= s.len(),
        first_line_len(s) == behind_line_feed(s, first_line_text_end(s)),
        first_line_text_end(s) < s.len() ==> s[first_line_text_end(s)] == 0x0A,
        valid_utf8(s.skip(first_line_len(s))),
{
    let n = s.len() as int;
    lemma_statement_shape(s);
    lemma_first_line_len(s);
    lemma_encode_ascii('\n', 0x0A);
    match statement_shape(s) {
        Ok(shape) => {
            lemma_value_end(s, shape.name_end + 1);
            lemma_run_end(s, shape.name_start, |b: u8| crate::grammar::is_name_byte(b));
            assert(crate::grammar::is_name_byte(s[shape.name_start]));
            assert(is_cut(s, shape.name_start));
            assert(is_cut(s, shape.name_end));
            assert(is_cut(s, shape.name_end + 1));
            assert(is_cut(s, shape.value_end)) by {
                if shape.value_end < n && shape.value_end > 0 {
                    assert(piece_end(s, shape.value_end) == shape.value_end);
                    assert(!is_plain_byte(s[shape.value_end]));
                }
            }
            assert(is_cut(s, shape.text_end));
            assert(is_cut(s, shape.next));
            let leading = s.subrange(0, shape.name_start);
            let key = s.subrange(shape.name_start, shape.name_end);
            let value = s.subrange(shape.name_end + 1, shape.value_end);
            let trailing = s.subrange(shape.value_end, shape.text_end);
            assert(is_cut(s, 0));
            lemma_piece_text(s, 0, shape.name_start);
            lemma_piece_text(s, shape.name_start, shape.name_end);
            lemma_piece_text(s, shape.name_end + 1, shape.value_end);
            lemma_piece_text(s, shape.value_end, shape.text_end);
            lemma_encode_ascii('=', 0x3D);
            let a = lossy_text(leading);
            let b = lossy_text(key);
            let c = lossy_text(value);
            let d = lossy_text(trailing);
            lemma_encode_concat(a, b);
            lemma_encode_concat(a + b, seq!['=']);
            lemma_encode_concat(a + b + seq!['='], c);
            lemma_encode_concat(a + b + seq!['='] + c, d);
            lemma_encode_concat(a + b + seq!['='] + c + d, seq!['\n']);
            assert(leading + key + seq![0x3Du8] + value + trailing + seq![0x0Au8] =~= s.subrange(
                0,
                shape.text_end,
            ).push(0x0A));
            lemma_cut_valid(s, shape.next);
        },
        Err(_) => {
            let end = opaque_text_end(s);
            lemma_run_end(s, 0, |b: u8| is_line_byte(b));
            assert(is_cut(s, 0));
            assert(is_cut(s, end));
            assert(is_cut(s, behind_line_feed(s, end)));
            lemma_piece_text(s, 0, end);
            let text = lossy_text(s.subrange(0, end));
            assert(text.push('\n') =~= text + seq!['\n']);
            lemma_encode_concat(text, seq!['\n']);
            assert(s.subrange(0, end) + seq![0x0Au8] =~= s.subrange(0, end).push(0x0A));
            lemma_cut_valid(s, behind_line_feed(s, end));
        },
    }
}

/// Round trip: a file of valid UTF-8 that is read and written back comes out
/// byte for byte as it was, but for a line feed that is added where the last
/// line had none.
pub proof fn lemma_round_trip(s: Seq<u8>)
    requires
        valid_utf8(s),
    ensures
        encode_utf8(document_text(document(s))) == with_final_line_feed(s),
    decreases s.len(),
{
    if s.len() == 0 {
        assert(document_text(document(s)) =~= Seq::<char>::empty());
    } else {
        let n = first_line_len(s);
        let end = first_line_text_end(s);
        lemma_first_line_len(s);
        lemma_first_line_round_trip(s);
        let rest = s.skip(n);
        lemma_document_text_first(first_line(s), document(rest));
        lemma_encode_concat(line_text(first_line(s)), document_text(document(rest)));
        lemma_round_trip(rest);
        if n < s.len() {
            assert(s.subrange(0, end).push(0x0A) =~= s.subrange(0, n));
            if lacks_final_line_feed(rest) {
                assert(s.subrange(0, n) + rest.push(0x0A) =~= s.push(0x0A));
            } else {
                assert(s.subrange(0, n) + rest =~= s);
            }
        } else {
            assert(rest =~= Seq::<u8>::empty());
            assert(document(rest) =~= Seq::<LineView>::empty());
            assert(document_text(document(rest)) =~= Seq::<char>::empty());
            assert(encode_utf8(document_text(document(rest))) =~= Seq::<u8>::empty());
            assert(document(s) =~= seq![first_line(s)] + document(rest));
            if end == s.len() {
                assert(s.subrange(0, end) =~= s);
            } else {
                assert(s.subrange(0, end).push(0x0A) =~= s);
            }
        }
    }
}

/// A file whose last byte is no line feed lacks the final line feed, and
/// an empty file lacks nothing.
pub proof fn lemma_lacks_final_line_feed(s: Seq<u8>)
    ensures
        s.len() > 0 && s.last() != 0x0A ==> lacks_final_line_feed(s),
        s.len() == 0 ==> !lacks_final_line_feed(s),
    decreases s.len(),
{
    if s.len() > 0 {
        let n = first_line_len(s);
        lemma_first_line_len(s);
        lemma_statement_shape(s);
        lemma_run_end(s, 0, |b: u8| is_line_byte(b));
        if n < s.len() {
            lemma_lacks_final_line_feed(s.skip(n));
            assert(s.skip(n).last() == s.last());
        }
    }
}

} // verus!
