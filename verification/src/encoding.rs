//! Facts about the UTF-8 bytes of a text.
//!
//! The functions of this crate scan the bytes of a `str` and cut it at byte
//! offsets, while their contracts speak of its characters. The lemmas here carry
//! a fact about the bytes over to the characters.

use crate::lines::first_newline;
use vstd::prelude::*;
use vstd::utf8::*;

verus! {

/// The byte of the line feed character.
pub const LINE_FEED: u8 = 0x0A;

/// The byte of the carriage return character.
pub const CARRIAGE_RETURN: u8 = 0x0D;

proof fn lemma_low_bits(b: u8)
    by (bit_vector)
    requires
        b <= 0x7f,
    ensures
        b & 0x7f == b,
{
}

/// The bytes that encode the first character of a text: a single byte equal to
/// the character where it is ASCII, and otherwise a leading byte and one to three
/// continuation bytes, none of them in the ASCII range.
pub proof fn lemma_first_char_bytes(text: Seq<char>)
    requires
        text.len() > 0,
    ensures
        ({
            let bytes = encode_utf8(text);
            let width = encode_scalar(text[0] as u32).len() as int;
            &&& 1 <= width <= 4
            &&& width <= bytes.len()
            &&& bytes.subrange(width, bytes.len() as int) == encode_utf8(text.drop_first())
            &&& !is_continuation_byte(bytes[0])
            &&& forall|i: int| 1 <= i < width ==> is_continuation_byte(bytes[i])
            &&& (text[0] as u32) <= 0x7f ==> width == 1 && bytes[0] as u32 == text[0] as u32
            &&& (text[0] as u32) > 0x7f ==> forall|i: int| 0 <= i < width ==> bytes[i] >= 0x80
        }),
{
    encode_utf8_first_scalar(text);
    if (text[0] as u32) <= 0x7f {
        lemma_low_bits(encode_utf8(text)[0]);
    }
}

/// Encoding never yields fewer bytes than there are characters.
pub proof fn lemma_encoding_len(text: Seq<char>)
    ensures
        text.len() <= encode_utf8(text).len(),
    decreases text.len(),
{
    if text.len() > 0 {
        lemma_first_char_bytes(text);
        lemma_encoding_len(text.drop_first());
    }
}

/// The bytes of two texts joined are the bytes of the first and then those of the second.
pub proof fn lemma_encoding_concat(a: Seq<char>, b: Seq<char>)
    ensures
        encode_utf8(a + b) == encode_utf8(a) + encode_utf8(b),
    decreases a.len(),
{
    if a.len() > 0 {
        lemma_encoding_concat(a.drop_first(), b);
        assert((a + b).drop_first() =~= a.drop_first() + b);
        let first = encode_scalar(a[0] as u32);
        assert(first + (encode_utf8(a.drop_first()) + encode_utf8(b)) =~= (first + encode_utf8(
            a.drop_first(),
        )) + encode_utf8(b));
    }
}

/// A line feed is encoded by its one byte.
pub proof fn lemma_line_feed_bytes()
    ensures
        encode_utf8(seq!['\n']) == seq![LINE_FEED],
{
    lemma_first_char_bytes(seq!['\n']);
}

/// Two texts with the same bytes are the same text.
pub proof fn lemma_encoding_injective(a: Seq<char>, b: Seq<char>)
    requires
        encode_utf8(a) == encode_utf8(b),
    ensures
        a == b,
{
    encode_utf8_decode_utf8(a);
    encode_utf8_decode_utf8(b);
}

/// Where the first line feed byte stands at offset `at` of the bytes (or there
/// is none and `at` is their length), the characters before the first line feed
/// character are encoded by the bytes before `at`, and the characters after it by
/// the bytes after `at`.
pub proof fn lemma_first_newline_bytes(text: Seq<char>, at: int)
    requires
        0 <= at <= encode_utf8(text).len(),
        forall|j: int| 0 <= j < at ==> encode_utf8(text)[j] != LINE_FEED,
        at < encode_utf8(text).len() ==> encode_utf8(text)[at] == LINE_FEED,
    ensures
        ({
            let bytes = encode_utf8(text);
            let k = first_newline(text);
            &&& 0 <= k <= text.len()
            &&& k < text.len() <==> at < bytes.len()
            &&& encode_utf8(text.take(k)) == bytes.take(at)
            &&& k < text.len() ==> encode_utf8(text.skip(k + 1)) == bytes.skip(at + 1)
        }),
    decreases text.len(),
{
    if text.len() > 0 {
        lemma_first_char_bytes(text);
        if text[0] != '\n' {
            // No byte of the first character is a line feed: the search goes on behind it.
            assert(text[0] as u32 != '\n' as u32) by {
                char_u32_cast(text[0], text[0] as u32);
                char_u32_cast('\n', '\n' as u32);
            }
            let rest = text.drop_first();
            let width = encode_scalar(text[0] as u32).len() as int;
            lemma_first_newline_bytes(rest, at - width);
            let k = first_newline(text);
            assert(text.take(k).drop_first() =~= rest.take(k - 1));
            if k < text.len() {
                assert(text.skip(k + 1) =~= rest.skip(k));
            }
        }
    }
}

/// A text ends with a carriage return exactly when its bytes end with the byte
/// of one, and then the bytes before that byte encode the text before that character.
pub proof fn lemma_trailing_carriage_return(text: Seq<char>)
    ensures
        ({
            let bytes = encode_utf8(text);
            &&& (text.len() > 0 && text.last() == '\r') <==> (bytes.len() > 0 && bytes.last()
                == CARRIAGE_RETURN)
            &&& text.len() > 0 && text.last() == '\r' ==> encode_utf8(text.drop_last())
                == bytes.drop_last()
        }),
    decreases text.len(),
{
    if text.len() > 0 {
        lemma_first_char_bytes(text);
        let rest = text.drop_first();
        if rest.len() == 0 {
            if text[0] != '\r' {
                assert(text[0] as u32 != '\r' as u32) by {
                    char_u32_cast(text[0], text[0] as u32);
                    char_u32_cast('\r', '\r' as u32);
                }
            }
        } else {
            lemma_encoding_len(rest);
            lemma_trailing_carriage_return(rest);
            if text.last() == '\r' {
                assert(text.drop_last().drop_first() =~= rest.drop_last());
            }
        }
    }
}

/// The offset at which the bytes of one text end and those of the next begin is
/// a character boundary of the bytes of both.
pub proof fn lemma_boundary_between(before: Seq<char>, after: Seq<char>, bytes: Seq<u8>)
    requires
        valid_utf8(bytes),
        bytes == encode_utf8(before) + encode_utf8(after),
    ensures
        is_char_boundary(bytes, encode_utf8(before).len() as int),
{
    let at = encode_utf8(before).len() as int;
    if at == bytes.len() {
        is_char_boundary_start_end_of_seq(bytes);
    } else {
        lemma_first_char_bytes(after);
        is_char_boundary_iff_not_is_continuation_byte(bytes, at);
    }
}

/// A text whose bytes begin the bytes of another text begins that text.
pub proof fn lemma_prefix_of_bytes(start: Seq<char>, text: Seq<char>)
    requires
        encode_utf8(start).len() <= encode_utf8(text).len(),
        encode_utf8(text).take(encode_utf8(start).len() as int) == encode_utf8(start),
    ensures
        start.len() <= text.len(),
        text.take(start.len() as int) == start,
    decreases start.len(),
{
    if start.len() > 0 {
        lemma_encoding_len(start);
        lemma_first_char_bytes(start);
        lemma_first_char_bytes(text);
        encode_utf8_first_scalar(start);
        encode_utf8_first_scalar(text);
        // The first characters have the same bytes, so they are the same character.
        assert(start[0] == text[0]) by {
            char_u32_cast(start[0], start[0] as u32);
            char_u32_cast(text[0], text[0] as u32);
        }
        let some_rest = encode_utf8(start.drop_first());
        let all_rest = encode_utf8(text.drop_first());
        assert(all_rest.take(some_rest.len() as int) =~= some_rest);
        lemma_prefix_of_bytes(start.drop_first(), text.drop_first());
        assert(text.take(start.len() as int) =~= start) by {
            assert forall|i: int| 0 <= i < start.len() implies text[i] == start[i] by {
                if i > 0 {
                    assert(text.drop_first().take(start.len() - 1)[i - 1] == start.drop_first()[i
                        - 1]);
                }
            }
        }
    }
}

} // verus!
