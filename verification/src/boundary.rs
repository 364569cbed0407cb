//! Character boundaries of UTF-8 text: why an occurrence of one valid text in
//! another never splits a character, and how encoding goes with
//! concatenation.

use crate::occurrence::occurs_at;
use std::ops::Range;
use vstd::prelude::*;
use vstd::string::StringSliceAdditionalSpecFns;
use vstd::utf8::*;

verus! {

/// `range` lies inside `text`, its start not after its end, and both its
/// ends are character boundaries.
pub open spec fn on_boundaries(text: Seq<u8>, range: Range<usize>) -> bool {
    &&& range.start <= range.end <= text.len()
    &&& is_char_boundary(text, range.start as int)
    &&& is_char_boundary(text, range.end as int)
}

/// From a character boundary before the end of the text, the bytes that
/// follow begin with a whole character, and the offset just after it is a
/// boundary again.
pub proof fn lemma_boundary_after_scalar(bytes: Seq<u8>, at: int)
    requires
        valid_utf8(bytes),
        is_char_boundary(bytes, at),
        0 <= at < bytes.len(),
    ensures
        valid_first_scalar(bytes.subrange(at, bytes.len() as int)),
        at + length_of_first_scalar(bytes.subrange(at, bytes.len() as int)) <= bytes.len(),
        is_char_boundary(
            bytes,
            at + length_of_first_scalar(bytes.subrange(at, bytes.len() as int)),
        ),
    decreases bytes.len(),
{
    let rest = pop_first_scalar(bytes);
    let width = length_of_first_scalar(bytes);
    if at == 0 {
        // The first character of the text itself.
        assert(bytes.subrange(0, bytes.len() as int) =~= bytes);
        assert(is_char_boundary(rest, 0));
    } else {
        // The same character, seen from behind the first one.
        reveal_with_fuel(is_char_boundary, 2);
        assert(is_char_boundary(rest, at - width));
        lemma_boundary_after_scalar(rest, at - width);
        assert(rest.subrange(at - width, rest.len() as int) =~= bytes.subrange(
            at,
            bytes.len() as int,
        ));
    }
}

/// Where a valid text stands in another, starting at a character boundary of
/// the other, it also ends at one.
pub proof fn lemma_boundary_after_copy(text: Seq<u8>, part: Seq<u8>, at: int)
    requires
        valid_utf8(text),
        valid_utf8(part),
        is_char_boundary(text, at),
        occurs_at(part, text, at),
    ensures
        is_char_boundary(text, at + part.len()),
    decreases part.len(),
{
    if part.len() > 0 {
        // The text has at `at` the first character of `part`, and after it
        // the rest of `part`.
        let tail = text.subrange(at, text.len() as int);
        let width = length_of_first_scalar(part);
        let rest = pop_first_scalar(part);
        lemma_boundary_after_scalar(text, at);
        assert forall|k: int| 0 <= k < part.len() implies tail[k] == part[k] by {
            assert(text.subrange(at, at + part.len())[k] == text[at + k]);
        }
        assert(length_of_first_scalar(tail) == width);
        assert(text.subrange(at + width, at + width + rest.len()) =~= rest);
        lemma_boundary_after_copy(text, rest, at + width);
    }
}

/// An occurrence of a valid, non-empty query in a valid text starts and ends
/// at character boundaries of the text.
pub proof fn lemma_occurrence_on_boundaries(query: Seq<u8>, text: Seq<u8>, at: int)
    requires
        valid_utf8(query),
        valid_utf8(text),
        0 < query.len(),
        occurs_at(query, text, at),
    ensures
        is_char_boundary(text, at),
        is_char_boundary(text, at + query.len()),
{
    // The query starts with the first byte of a character, and the text has
    // that byte at `at`.
    is_char_boundary_iff_not_is_continuation_byte(query, 0);
    assert(text.subrange(at, at + query.len())[0] == text[at]);
    is_char_boundary_iff_not_is_continuation_byte(text, at);
    lemma_boundary_after_copy(text, query, at);
}

/// Encoding a concatenation gives the concatenation of the encodings.
pub proof fn lemma_encode_concat(front: Seq<char>, back: Seq<char>)
    ensures
        encode_utf8(front + back) == encode_utf8(front) + encode_utf8(back),
    decreases front.len(),
{
    if front.len() == 0 {
        assert(front + back =~= back);
    } else {
        lemma_encode_concat(front.drop_first(), back);
        assert((front + back).drop_first() =~= front.drop_first() + back);
    }
}

/// The part of `content` that the bytes from `start` to `end` make up.
pub fn segment<'a>(content: &'a str, start: usize, end: usize) -> (part: &'a str)
    requires
        on_boundaries(content.spec_bytes(), Range { start, end }),
    ensures
        part.spec_bytes() == content.spec_bytes().subrange(start as int, end as int),
        part@ == decode_utf8(content.spec_bytes().subrange(start as int, end as int)),
{
    broadcast use encode_utf8_valid_utf8;

    let (front, _) = content.split_at(end);
    proof {
        if start < end {
            is_char_boundary_iff_not_is_continuation_byte(content.spec_bytes(), start as int);
            is_char_boundary_iff_not_is_continuation_byte(front.spec_bytes(), start as int);
        } else {
            is_char_boundary_start_end_of_seq(front.spec_bytes());
        }
    }
    let (_, part) = front.split_at(start);
    proof {
        assert(part.spec_bytes() =~= content.spec_bytes().subrange(start as int, end as int));
        encode_utf8_decode_utf8(part@);
    }
    part
}

} // verus!
