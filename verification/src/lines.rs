//! The lines of a text.

use crate::encoding::{
    lemma_boundary_between, lemma_encoding_concat, lemma_encoding_injective, lemma_encoding_len,
    lemma_first_newline_bytes, lemma_line_feed_bytes, lemma_trailing_carriage_return,
    CARRIAGE_RETURN, LINE_FEED,
};
use vstd::prelude::*;
use vstd::string::StringSliceAdditionalSpecFns;
use vstd::utf8::{encode_utf8, encode_utf8_valid_utf8};

verus! {

/// The index of the first line feed in `text`, or the length of `text` if it has none.
pub open spec fn first_newline(text: Seq<char>) -> int
    decreases text.len(),
{
    if text.len() == 0 || text[0] == '\n' {
        0
    } else {
        1 + first_newline(text.drop_first())
    }
}

/// `line` without the carriage return at its end, if it has one.
pub open spec fn without_carriage_return(line: Seq<char>) -> Seq<char> {
    if line.len() > 0 && line.last() == '\r' {
        line.drop_last()
    } else {
        line
    }
}

/// The first line of a text that is not empty.
///
/// A line ends at a line feed; a carriage return directly before that line feed
/// belongs to the line ending, not to the line. Where the text has no line feed,
/// all of it is the line, a carriage return at its end included.
pub open spec fn first_line(text: Seq<char>) -> Seq<char> {
    let at = first_newline(text);
    if 0 <= at < text.len() {
        without_carriage_return(text.take(at))
    } else {
        text
    }
}

/// What follows the first line of a text and its line ending.
pub open spec fn after_first_line(text: Seq<char>) -> Seq<char> {
    let at = first_newline(text);
    if 0 <= at < text.len() {
        text.skip(at + 1)
    } else {
        Seq::empty()
    }
}

/// The lines of a text, in order. The empty text has no line, and a text that
/// ends with a line ending has no empty line after it.
pub open spec fn lines_of(text: Seq<char>) -> Seq<Seq<char>>
    decreases text.len(),
{
    if text.len() == 0 {
        Seq::empty()
    } else {
        seq![first_line(text)] + lines_of(after_first_line(text))
    }
}

/// [`first_newline`] is the least index that holds a line feed.
proof fn lemma_first_newline(text: Seq<char>)
    ensures
        0 <= first_newline(text) <= text.len(),
        forall|j: int| 0 <= j < first_newline(text) ==> text[j] != '\n',
        first_newline(text) < text.len() ==> text[first_newline(text)] == '\n',
    decreases text.len(),
{
    if text.len() != 0 && text[0] != '\n' {
        let rest = text.drop_first();
        lemma_first_newline(rest);
        assert forall|j: int| 0 <= j < first_newline(text) implies text[j] != '\n' by {
            if j > 0 {
                assert(text[j] == rest[j - 1]);
            }
        }
    }
}

/// Cuts the first line off a text: `None` for the empty text, otherwise the
/// first line, without its line ending, and what follows that line ending, which
/// is shorter than the text. Both are slices of `text`.
///
/// The last clause holds of every text: its characters are no more than a
/// `usize` counts, so that lines can be numbered without overflow.
pub fn split_first_line<'a>(text: &'a str) -> (parts: Option<(&'a str, &'a str)>)
    ensures
        text@.len() == 0 <==> parts is None,
        parts matches Some((line, rest)) ==> line@ == first_line(text@) && rest@
            == after_first_line(text@) && rest@.len() < text@.len(),
        text@.len() <= usize::MAX,
{
    let bytes = text.as_bytes();
    let len = bytes.len();
    proof {
        lemma_encoding_len(text@);
        encode_utf8_valid_utf8(text@);
    }
    if len == 0 {
        return None;
    }
    let mut at: usize = 0;
    while at < len && bytes[at] != LINE_FEED
        invariant
            at <= len,
            len == bytes@.len(),
            forall|j: int| 0 <= j < at ==> bytes@[j] != LINE_FEED,
        decreases len - at,
    {
        at += 1;
    }
    let ghost k = first_newline(text@);
    proof {
        lemma_first_newline(text@);
        lemma_first_newline_bytes(text@, at as int);
    }
    if at == len {
        assert(text@.take(k) =~= text@);
        proof {
            lemma_boundary_between(text@, Seq::empty(), bytes@);
        }
        let (line, rest) = text.split_at(at);
        proof {
            lemma_encoding_injective(line@, text@);
            lemma_encoding_len(rest@);
        }
        Some((line, rest))
    } else {
        let ghost head = text@.take(k);
        let ghost tail = text@.skip(k + 1);
        let ghost front_text = head + seq!['\n'];
        let ghost line_text = without_carriage_return(head);
        let end: usize = if at > 0 && bytes[at - 1] == CARRIAGE_RETURN {
            at - 1
        } else {
            at
        };
        proof {
            lemma_line_feed_bytes();
            lemma_encoding_concat(head, seq!['\n']);
            assert(encode_utf8(front_text) =~= bytes@.take(at + 1));
            assert(encode_utf8(front_text) + encode_utf8(tail) =~= bytes@);
            lemma_boundary_between(front_text, tail, bytes@);
        }
        let (front, rest) = text.split_at(at + 1);
        proof {
            lemma_encoding_injective(rest@, tail);
            lemma_encoding_injective(front@, front_text);
            lemma_trailing_carriage_return(head);
            assert(bytes@.take(at as int).len() > 0 ==> bytes@.take(at as int).last() == bytes@[at
                - 1]);
            let ending = front_text.skip(line_text.len() as int);
            assert(line_text + ending =~= front_text);
            lemma_encoding_concat(line_text, ending);
            encode_utf8_valid_utf8(front_text);
            lemma_boundary_between(line_text, ending, front.spec_bytes());
        }
        let (line, _) = front.split_at(end);
        proof {
            assert(line.spec_bytes() =~= encode_utf8(line_text));
            lemma_encoding_injective(line@, line_text);
        }
        Some((line, rest))
    }
}

} // verus!
