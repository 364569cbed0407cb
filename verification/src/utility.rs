//! Helpers on byte ranges and texts: finding the first occurrence of a query,
//! shifting a range with overflow detection, checking a range against a text,
//! and title-casing.

use crate::occurrence::{
    first_occurrence, lemma_search_bounds, lemma_search_finds_first, occurs_at, search_from,
    span_of_found,
};
use std::ops::Range;
use vstd::prelude::*;
use vstd::string::StringSliceAdditionalSpecFns;

verus! {

/// The upper-case form of a text, as `str::to_uppercase` gives it.
pub uninterp spec fn uppercase_of(text: Seq<char>) -> Seq<char>;

/// The lower-case form of a text, as `str::to_lowercase` gives it.
pub uninterp spec fn lowercase_of(text: Seq<char>) -> Seq<char>;

/// `str::to_uppercase`: a new string that holds the upper-case form of the
/// text. The contract only names that form.
#[verifier::external_body]
fn to_uppercase(text: &str) -> (upper: String)
    ensures
        upper@ == uppercase_of(text@),
{
    text.to_uppercase()
}

/// `str::to_lowercase`: a new string that holds the lower-case form of the
/// text. The contract only names that form.
#[verifier::external_body]
fn to_lowercase(text: &str) -> (lower: String)
    ensures
        lower@ == lowercase_of(text@),
{
    text.to_lowercase()
}

/// `num::CheckedAdd::checked_add` on `usize`: the sum of the two numbers, or
/// `None` when the sum does not fit in a `usize`.
#[verifier::external_body]
fn checked_add(number: usize, amount: usize) -> (sum: Option<usize>)
    ensures
        sum == if number + amount <= usize::MAX {
            Some((number + amount) as usize)
        } else {
            None
        },
{
    num::CheckedAdd::checked_add(&number, &amount)
}

/// `num::CheckedSub::checked_sub` on `usize`: the first number less the
/// second, or `None` when the second is the greater.
#[verifier::external_body]
fn checked_sub(number: usize, amount: usize) -> (difference: Option<usize>)
    ensures
        difference == if amount <= number {
            Some((number - amount) as usize)
        } else {
            None
        },
{
    num::CheckedSub::checked_sub(&number, &amount)
}

/// `num::ToPrimitive::to_usize` on `usize`: the number itself, always.
#[verifier::external_body]
fn to_usize(number: usize) -> (converted: Option<usize>)
    ensures
        converted == Some(number),
{
    num::ToPrimitive::to_usize(&number)
}

/// The length of a text in bytes.
pub(crate) fn byte_len(text: &str) -> (len: usize)
    ensures
        len == text.spec_bytes().len(),
{
    text.as_bytes().len()
}

/// Converts a string to title case: the first character in upper case and all
/// the rest in lower case.
pub fn to_title_case(content: &str) -> (title: String)
    ensures
        title@ == if content@.len() > 1 {
            uppercase_of(content@.subrange(0, 1)) + lowercase_of(
                content@.subrange(1, content@.len() as int),
            )
        } else if content@.len() == 1 {
            uppercase_of(content@)
        } else {
            Seq::<char>::empty()
        },
{
    let count = content.unicode_len();
    if count > 1 {
        let head = to_uppercase(content.substring_char(0, 1));
        let tail = to_lowercase(content.substring_char(1, count));
        head.concat(tail.as_str())
    } else if count == 1 {
        assert(content@.subrange(0, 1) =~= content@);
        to_uppercase(content.substring_char(0, 1))
    } else {
        String::new()
    }
}

/// Whether `query` stands in `text` at offset `at`.
fn occurs(query: &[u8], text: &[u8], at: usize) -> (yes: bool)
    requires
        at + query@.len() <= text@.len() <= usize::MAX,
    ensures
        yes == occurs_at(query@, text@, at as int),
{
    let width = query.len();
    let mut k: usize = 0;
    while k < width
        invariant
            k <= width,
            width == query@.len(),
            at + width <= text@.len() <= usize::MAX,
            forall|j: int| 0 <= j < k ==> text@[at + j] == query@[j],
        decreases width - k,
    {
        if text[at + k] != query[k] {
            assert(text@.subrange(at as int, at + width)[k as int] != query@[k as int]);
            return false;
        }
        k += 1;
    }
    assert(text@.subrange(at as int, at + width) =~= query@);
    true
}

/// The offset of the first occurrence of `query` in `text`. An empty query
/// is never found.
fn find_first(query: &[u8], text: &[u8]) -> (found: Option<usize>)
    ensures
        match found {
            Some(at) => search_from(query@, text@, 0) == Some(at as int),
            None => search_from(query@, text@, 0) is None,
        },
{
    let width = query.len();
    let len = text.len();
    if width == 0 || width > len {
        return None;
    }
    let last = len - width;
    let mut at: usize = 0;
    while at <= last
        invariant
            0 < width <= len,
            width == query@.len(),
            len == text@.len(),
            last == len - width,
            at <= last + 1,
            search_from(query@, text@, 0) == search_from(query@, text@, at as int),
        decreases last + 1 - at,
    {
        if occurs(query, text, at) {
            return Some(at);
        }
        at += 1;
    }
    None
}

/// Gets the range of the first occurrence of `query` in `content`, byte for
/// byte, or `None` where there is none.
///
/// An empty query is never found.
pub fn get_range(query: &str, content: &str) -> (found: Option<Range<usize>>)
    ensures
        span_of_found(found) == first_occurrence(query.spec_bytes(), content.spec_bytes()),
        match found {
            Some(range) => {
                &&& 0 < query.spec_bytes().len()
                &&& range.end == range.start + query.spec_bytes().len()
                &&& occurs_at(query.spec_bytes(), content.spec_bytes(), range.start as int)
                &&& forall|at: int|
                    0 <= at < range.start ==> !occurs_at(
                        query.spec_bytes(),
                        content.spec_bytes(),
                        at,
                    )
            },
            None => query.spec_bytes().len() == 0 || forall|at: int|
                !occurs_at(query.spec_bytes(), content.spec_bytes(), at),
        },
{
    proof {
        lemma_search_bounds(query.spec_bytes(), content.spec_bytes(), 0);
        lemma_search_finds_first(query.spec_bytes(), content.spec_bytes(), 0);
    }
    let len = byte_len(content);
    let possible_start = find_first(query.as_bytes(), content.as_bytes());
    if let Some(start) = possible_start {
        let end: usize = start + byte_len(query);
        // The search leaves room for the whole query, so this guard never
        // fires; it stays as a check on the bounds of what is returned.
        if end > len {
            None
        } else {
            Some(start..end)
        }
    } else {
        None
    }
}

/// The direction of a shift, up or down, with its amount.
pub enum Shift {
    /// Shifts a number or a range up by the amount.
    Up(usize),
    /// Shifts a number or a range down by the amount.
    Down(usize),
}

impl Shift {
    /// Where the shift takes `number`, in the integers.
    pub open spec fn moved(self, number: int) -> int {
        match self {
            Shift::Up(amount) => number + amount,
            Shift::Down(amount) => number - amount,
        }
    }

    /// Whether the shift takes `number` to a number that a `usize` holds.
    pub open spec fn fits(self, number: int) -> bool {
        0 <= self.moved(number) <= usize::MAX
    }

    /// Where the shift takes `range`: both ends moved, or `None` when either
    /// end leaves what a `usize` holds.
    pub open spec fn moved_range(self, range: Range<usize>) -> Option<Range<usize>> {
        if self.fits(range.start as int) && self.fits(range.end as int) {
            Some(
                Range {
                    start: self.moved(range.start as int) as usize,
                    end: self.moved(range.end as int) as usize,
                },
            )
        } else {
            None
        }
    }

    /// Applies the shift to a number. Returns `None` on overflow or underflow.
    pub fn apply_to_number(&self, number: usize) -> (shifted: Option<usize>)
        ensures
            shifted == if self.fits(number as int) {
                Some(self.moved(number as int) as usize)
            } else {
                None
            },
    {
        match self {
            Shift::Up(amount) => checked_add(number, *amount),
            Shift::Down(amount) => checked_sub(number, *amount),
        }
    }

    /// Applies the shift to both ends of a range. Returns `None` if either
    /// end overflows or underflows.
    pub fn apply_to_range(&self, range: Range<usize>) -> (shifted: Option<Range<usize>>)
        ensures
            shifted == self.moved_range(range),
    {
        let Range { start, end } = range;
        let (new_start, new_end) = match self {
            Shift::Up(amount) => (checked_add(start, *amount), checked_add(end, *amount)),
            Shift::Down(amount) => (checked_sub(start, *amount), checked_sub(end, *amount)),
        };
        if let (Some(new_start), Some(new_end)) = (new_start, new_end) {
            Some(new_start..new_end)
        } else {
            None
        }
    }
}

/// Creates a new range with the start and the end shifted by the given
/// amount, or `None` if either would overflow or underflow.
pub fn shift_range(range: Range<usize>, shift: Shift) -> (shifted: Option<Range<usize>>)
    ensures
        shifted == shift.moved_range(range),
{
    shift.apply_to_range(range)
}

/// Shifts a range as `shift_range` does and checks that the new range ends
/// inside the given content. If it does not, `None` is returned.
pub fn shift_range_in_content(range: Range<usize>, shift: Shift, content: &str) -> (shifted: Option<
    Range<usize>,
>)
    ensures
        shifted == match shift.moved_range(range) {
            Some(moved) => if moved.end <= content.spec_bytes().len() {
                Some(moved)
            } else {
                None
            },
            None => None,
        },
{
    let new_range = shift_range(range, shift);
    if let Some(new_range) = new_range {
        if is_within(content, &new_range) {
            Some(new_range)
        } else {
            None
        }
    } else {
        None
    }
}

/// Checks that a range ends inside the given content.
pub fn is_within(content: &str, range: &Range<usize>) -> (within: bool)
    ensures
        within == (range.end <= content.spec_bytes().len()),
{
    let range_end = to_usize(range.end);
    if let Some(range_end) = range_end {
        if range_end > byte_len(content) {
            false
        } else {
            true
        }
    } else {
        false
    }
}

} // verus!
