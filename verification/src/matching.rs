//! Substring containment, the test that decides whether a line matches.

use crate::encoding::{
    lemma_encoding_concat, lemma_encoding_len, lemma_first_char_bytes, lemma_prefix_of_bytes,
};
use vstd::prelude::*;
use vstd::string::StringSliceAdditionalSpecFns;
use vstd::utf8::encode_utf8;

verus! {

/// Whether `needle` stands in `hay` at index `at`, element for element.
pub open spec fn occurs_at<T>(hay: Seq<T>, needle: Seq<T>, at: int) -> bool {
    &&& 0 <= at
    &&& at + needle.len() <= hay.len()
    &&& hay.subrange(at, at + needle.len()) == needle
}

/// Whether `needle` stands somewhere in `hay` as one contiguous run. The empty
/// sequence stands in every sequence.
pub open spec fn has_substring<T>(hay: Seq<T>, needle: Seq<T>) -> bool {
    exists|at: int| occurs_at(hay, needle, at)
}

/// Where the bytes of `needle` stand in the bytes of `hay`, `needle` stands in `hay`.
proof fn lemma_occurrence_from_bytes(hay: Seq<char>, needle: Seq<char>, offset: int) -> (at: int)
    requires
        occurs_at(encode_utf8(hay), encode_utf8(needle), offset),
    ensures
        occurs_at(hay, needle, at),
    decreases hay.len(),
{
    let hay_bytes = encode_utf8(hay);
    let needle_bytes = encode_utf8(needle);
    let found = hay_bytes.subrange(offset, offset + needle_bytes.len());
    if needle.len() == 0 {
        assert(hay.subrange(0, 0) =~= needle);
        0
    } else if offset == 0 {
        lemma_prefix_of_bytes(needle, hay);
        0
    } else {
        lemma_encoding_len(needle);
        lemma_first_char_bytes(needle);
        lemma_first_char_bytes(hay);
        let width = hay_bytes.len() - encode_utf8(hay.drop_first()).len();
        let rest = hay.drop_first();
        assert(encode_utf8(rest).subrange(offset - width, offset - width + needle_bytes.len())
            =~= found);
        let at = lemma_occurrence_from_bytes(rest, needle, offset - width);
        assert(hay.subrange(at + 1, at + 1 + needle.len()) =~= rest.subrange(
            at,
            at + needle.len(),
        ));
        at + 1
    }
}

/// Where `needle` stands in `hay`, its bytes stand in the bytes of `hay`.
proof fn lemma_occurrence_to_bytes(hay: Seq<char>, needle: Seq<char>, at: int)
    requires
        occurs_at(hay, needle, at),
    ensures
        occurs_at(encode_utf8(hay), encode_utf8(needle), encode_utf8(hay.take(at)).len() as int),
{
    let before = hay.take(at);
    let after = hay.skip(at + needle.len());
    assert(hay =~= before + needle + after);
    lemma_encoding_concat(before, needle);
    lemma_encoding_concat(before + needle, after);
    let offset = encode_utf8(before).len() as int;
    assert(encode_utf8(hay).subrange(offset, offset + encode_utf8(needle).len()) =~= encode_utf8(
        needle,
    ));
}

/// A text contains another exactly when its bytes contain the bytes of the other.
pub proof fn lemma_substring_of_bytes(hay: Seq<char>, needle: Seq<char>)
    ensures
        has_substring(encode_utf8(hay), encode_utf8(needle)) == has_substring(hay, needle),
{
    if has_substring(encode_utf8(hay), encode_utf8(needle)) {
        let offset = choose|offset: int| occurs_at(encode_utf8(hay), encode_utf8(needle), offset);
        let at = lemma_occurrence_from_bytes(hay, needle, offset);
    }
    if has_substring(hay, needle) {
        let at = choose|at: int| occurs_at(hay, needle, at);
        lemma_occurrence_to_bytes(hay, needle, at);
    }
}

/// Whether `needle` stands in `hay` at index `at`.
fn occurs_here(hay: &[u8], needle: &[u8], at: usize) -> (here: bool)
    requires
        at + needle.len() <= hay.len(),
    ensures
        here == occurs_at(hay@, needle@, at as int),
{
    let ghost window = hay@.subrange(at as int, at + needle.len());
    let mut j: usize = 0;
    while j < needle.len()
        invariant
            j <= needle.len(),
            at + needle.len() <= hay.len(),
            window == hay@.subrange(at as int, at + needle.len()),
            forall|x: int| 0 <= x < j ==> window[x] == needle@[x],
        decreases needle.len() - j,
    {
        if hay[at + j] != needle[j] {
            return false;
        }
        j += 1;
    }
    assert(window =~= needle@);
    true
}

/// Whether `needle` stands somewhere in `hay`.
pub fn slice_contains(hay: &[u8], needle: &[u8]) -> (found: bool)
    ensures
        found == has_substring(hay@, needle@),
{
    if needle.len() == 0 {
        assert(occurs_at(hay@, needle@, 0)) by {
            assert(hay@.subrange(0, 0) =~= needle@);
        }
        return true;
    }
    if needle.len() > hay.len() {
        return false;
    }
    let stop: usize = hay.len() - needle.len() + 1;
    let mut at: usize = 0;
    while at < stop
        invariant
            at <= stop,
            stop == hay.len() - needle.len() + 1,
            needle.len() <= hay.len(),
            forall|a: int| 0 <= a < at ==> !occurs_at(hay@, needle@, a),
        decreases stop - at,
    {
        if occurs_here(hay, needle, at) {
            return true;
        }
        at += 1;
    }
    false
}

/// Whether the text `hay` contains the text `needle`: plain containment, with no
/// pattern syntax. The empty text is contained in every text.
pub fn text_contains(hay: &str, needle: &str) -> (found: bool)
    ensures
        found == has_substring(hay@, needle@),
{
    proof {
        lemma_substring_of_bytes(hay@, needle@);
    }
    slice_contains(hay.as_bytes(), needle.as_bytes())
}

} // verus!
