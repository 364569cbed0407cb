//! The iterator over the occurrences of a query in a text, or over the gaps
//! between them.

use crate::boundary::{lemma_occurrence_on_boundaries, on_boundaries, segment};
use crate::occurrence::{
    gaps_from, lemma_search_bounds, lemma_search_finds_first, lemma_search_in_window,
    matches_from, range_of, ranges_of, search_from, slice_of, span_of, span_of_found, Span,
};
use crate::utility::{byte_len, get_range, is_within, shift_range, shift_range_in_content, Shift};
use std::ops::Range;
use vstd::prelude::*;
use vstd::std_specs::iter::IteratorSpecImpl;
use vstd::string::StringSliceAdditionalSpecFns;
use vstd::utf8::{decode_utf8, is_char_boundary, is_char_boundary_start_end_of_seq};

verus! {

broadcast use vstd::utf8::encode_utf8_valid_utf8;

/// Iterates the ranges at which a query is found in a content, or, inverted,
/// the ranges of the content between them.
///
/// All ranges are byte offsets into the whole content. The iterator keeps
/// the part of the content that it has not searched yet, its window, and
/// the number of bytes that lie before the window.
pub struct QueryRangeItr<'a> {
    inverted: bool,
    query: &'a str,
    current_content: &'a str,
    full_content: &'a str,
    removed_count: usize,
}

impl<'a> QueryRangeItr<'a> {
    #[verifier::type_invariant]
    spec fn well_formed(self) -> bool {
        let text = self.full_content.spec_bytes();
        &&& self.removed_count <= text.len() <= usize::MAX
        &&& self.current_content.spec_bytes() == text.subrange(
            self.removed_count as int,
            text.len() as int,
        )
        &&& is_char_boundary(text, self.removed_count as int)
    }

    /// The bytes of the query.
    pub closed spec fn query(self) -> Seq<u8> {
        self.query.spec_bytes()
    }

    /// The bytes of the whole content.
    pub closed spec fn text(self) -> Seq<u8> {
        self.full_content.spec_bytes()
    }

    /// The bytes of the window: what is left to search.
    pub closed spec fn window(self) -> Seq<u8> {
        self.current_content.spec_bytes()
    }

    /// How many bytes of the content lie before the window.
    pub closed spec fn consumed(self) -> int {
        self.removed_count as int
    }

    /// Whether the iterator yields the gaps rather than the occurrences.
    pub closed spec fn inverted(self) -> bool {
        self.inverted
    }

    /// The window is the rest of the content after the consumed bytes, and it
    /// starts at a character boundary.
    pub open spec fn coherent(self) -> bool {
        &&& 0 <= self.consumed() <= self.text().len()
        &&& self.consumed() + self.window().len() == self.text().len()
        &&& self.window() == self.text().subrange(self.consumed(), self.text().len() as int)
        &&& is_char_boundary(self.text(), self.consumed())
    }

    /// The spans that are still to come, in the order in which they come.
    pub open spec fn pending(self) -> Seq<Span> {
        if self.inverted() {
            gaps_from(self.query(), self.text(), self.consumed())
        } else {
            matches_from(self.query(), self.text(), self.consumed())
        }
    }

    /// How many bytes lie before the window once the next span has been
    /// yielded: all up to the end of the next occurrence; where there is
    /// none, the whole content for the gaps, and no more than now for the
    /// occurrences.
    pub open spec fn consumed_after_next(self) -> int {
        match search_from(self.query(), self.text(), self.consumed()) {
            Some(at) => at + self.query().len(),
            None => if self.inverted() && self.consumed() < self.text().len() {
                self.text().len() as int
            } else {
                self.consumed()
            },
        }
    }

    /// How many bytes lie before the window once every span has been
    /// yielded: all up to the end of the last occurrence for the occurrences,
    /// the whole content for the gaps, and no more than now where nothing is
    /// left to yield.
    pub open spec fn consumed_at_end(self) -> int {
        if self.pending().len() == 0 {
            self.consumed()
        } else if self.inverted() {
            self.text().len() as int
        } else {
            self.pending().last().end
        }
    }

    pub(crate) fn new_base(query: &'a str, content: &'a str, inverted: bool) -> (it: Self)
        ensures
            it.query() == query.spec_bytes(),
            it.text() == content.spec_bytes(),
            it.inverted() == inverted,
            it.consumed() == 0,
            it.window() == content.spec_bytes(),
            it.coherent(),
    {
        let len = byte_len(content);
        proof {
            assert(content.spec_bytes().subrange(0, len as int) =~= content.spec_bytes());
        }
        Self {
            inverted,
            query,
            current_content: content,
            full_content: content,
            removed_count: 0,
        }
    }

    /// Creates an iterator over the ranges at which `query` is found in
    /// `content`.
    pub fn new(query: &'a str, content: &'a str) -> (it: Self)
        ensures
            it.query() == query.spec_bytes(),
            it.text() == content.spec_bytes(),
            !it.inverted(),
            it.consumed() == 0,
            it.window() == content.spec_bytes(),
            it.coherent(),
            it.pending() == matches_from(query.spec_bytes(), content.spec_bytes(), 0),
    {
        Self::new_base(query, content, false)
    }

    /// Creates an iterator over the ranges of `content` that lie between the
    /// occurrences of `query`.
    pub fn new_inverted(query: &'a str, content: &'a str) -> (it: Self)
        ensures
            it.query() == query.spec_bytes(),
            it.text() == content.spec_bytes(),
            it.inverted(),
            it.consumed() == 0,
            it.window() == content.spec_bytes(),
            it.coherent(),
            it.pending() == gaps_from(query.spec_bytes(), content.spec_bytes(), 0),
    {
        Self::new_base(query, content, true)
    }

    /// Collects the ranges that are still to come and returns, for each, a
    /// string that holds the content at that range.
    pub fn collect_strings(&mut self) -> (strings: Vec<String>)
        ensures
            strings@.len() == old(self).pending().len(),
            forall|i: int|
                0 <= i < strings@.len() ==> (#[trigger] strings@[i])@ == decode_utf8(
                    slice_of(old(self).text(), old(self).pending()[i]),
                ),
            final(self).pending().len() == 0,
            final(self).query() == old(self).query(),
            final(self).text() == old(self).text(),
            final(self).inverted() == old(self).inverted(),
            final(self).consumed() == old(self).consumed_at_end(),
            final(self).coherent(),
    {
        proof {
            use_type_invariant(&*self);
        }
        let content = self.full_content;
        let ghost all = self.pending();
        let mut strings: Vec<String> = Vec::new();
        proof {
            assert(all.skip(0) =~= all);
        }
        loop
            invariant
                self.text() == content.spec_bytes(),
                self.text() == old(self).text(),
                self.query() == old(self).query(),
                self.inverted() == old(self).inverted(),
                self.coherent(),
                self.consumed_at_end() == old(self).consumed_at_end(),
                strings@.len() <= all.len(),
                self.pending() == all.skip(strings@.len() as int),
                forall|i: int|
                    0 <= i < strings@.len() ==> (#[trigger] strings@[i])@ == decode_utf8(
                        slice_of(content.spec_bytes(), all[i]),
                    ),
            ensures
                strings@.len() == all.len(),
                self.pending().len() == 0,
            decreases self.pending().len(),
        {
            let ghost before = self.pending();
            proof {
                lemma_search_bounds(self.query(), self.text(), self.consumed());
                if before.len() > 1 {
                    assert(before.drop_first().last() == before.last());
                }
            }
            match self.next() {
                Some(range) => {
                    let part = segment(content, range.start, range.end);
                    proof {
                        assert(before[0] == all[strings@.len() as int]);
                        assert(before.drop_first() =~= all.skip(strings@.len() as int + 1));
                    }
                    strings.push(String::from_str(part));
                },
                None => {
                    break ;
                },
            }
        }
        strings
    }

    /// What a step leaves unchanged, and what it yields and leaves behind.
    pub open spec fn steps_to(self, next: Self, item: Option<Range<usize>>) -> bool {
        &&& next.query() == self.query()
        &&& next.text() == self.text()
        &&& next.inverted() == self.inverted()
        &&& next.coherent()
        &&& self.consumed() <= next.consumed() == self.consumed_after_next()
        &&& if self.pending().len() > 0 {
            &&& span_of_found(item) == Some(self.pending()[0])
            &&& on_boundaries(self.text(), item->0)
            &&& next.pending() == self.pending().drop_first()
        } else {
            &&& item is None
            &&& next.consumed() == self.consumed()
            &&& next.pending() == self.pending()
        }
    }

    /// Gets the next range at which the query is found.
    fn next_standard(&mut self) -> (item: Option<Range<usize>>)
        requires
            !old(self).inverted(),
        ensures
            old(self).steps_to(*final(self), item),
    {
        proof {
            use_type_invariant(&*self);
        }
        let ghost query = self.query.spec_bytes();
        let ghost text = self.full_content.spec_bytes();
        let ghost window = self.current_content.spec_bytes();
        let ghost consumed = self.removed_count as int;
        proof {
            lemma_search_in_window(query, text, consumed);
            lemma_search_bounds(query, window, 0);
            lemma_search_finds_first(query, window, 0);
            lemma_search_bounds(query, text, consumed);
            lemma_search_finds_first(query, text, consumed);
        }
        let current_content = self.current_content;
        let possible_range = get_range(self.query, current_content);
        if let Some(range) = possible_range {
            if is_within(current_content, &range) {
                let next_start = range.end;
                let ghost local = span_of(range);
                let possible_range = shift_range_in_content(
                    range,
                    Shift::Up(self.removed_count),
                    self.full_content,
                );
                if let Some(range) = possible_range {
                    proof {
                        lemma_occurrence_on_boundaries(query, window, local.start);
                        lemma_occurrence_on_boundaries(query, text, consumed + local.start);
                    }
                    let start_len = byte_len(current_content);
                    let (_, rest) = current_content.split_at(next_start);
                    let removed = self.removed_count + (start_len - byte_len(rest));
                    proof {
                        assert(rest.spec_bytes() =~= text.subrange(
                            removed as int,
                            text.len() as int,
                        ));
                    }
                    *self = QueryRangeItr {
                        inverted: self.inverted,
                        query: self.query,
                        current_content: rest,
                        full_content: self.full_content,
                        removed_count: removed,
                    };
                    proof {
                        assert(old(self).pending().drop_first() =~= self.pending());
                    }
                    Some(range)
                } else {
                    None
                }
            } else {
                None
            }
        } else {
            None
        }
    }

    /// Gets the next range that lies between two occurrences of the query,
    /// before the first or after the last.
    fn next_inverted(&mut self) -> (item: Option<Range<usize>>)
        requires
            old(self).inverted(),
        ensures
            old(self).steps_to(*final(self), item),
    {
        proof {
            use_type_invariant(&*self);
        }
        let ghost query = self.query.spec_bytes();
        let ghost text = self.full_content.spec_bytes();
        let ghost window = self.current_content.spec_bytes();
        let ghost consumed = self.removed_count as int;
        proof {
            lemma_search_in_window(query, text, consumed);
            lemma_search_bounds(query, window, 0);
            lemma_search_finds_first(query, window, 0);
            lemma_search_bounds(query, text, consumed);
            lemma_search_finds_first(query, text, consumed);
            is_char_boundary_start_end_of_seq(window);
            is_char_boundary_start_end_of_seq(text);
        }
        let current_content = self.current_content;
        let start_index: usize = 0;
        let len = byte_len(current_content);
        let range = match get_range(self.query, current_content) {
            Some(range) => {
                proof {
                    lemma_occurrence_on_boundaries(query, window, range.start as int);
                    lemma_occurrence_on_boundaries(query, text, consumed + range.start);
                }
                range
            },
            None => len..len,
        };
        let end_index = range.start;
        let next_start: usize = if range.end < len {
            range.end
        } else {
            len
        };
        let possible_range = shift_range(start_index..end_index, Shift::Up(self.removed_count));
        let (_, rest) = current_content.split_at(next_start);
        let start_length = len;
        let removed = self.removed_count + (start_length - byte_len(rest));
        proof {
            assert(rest.spec_bytes() =~= text.subrange(removed as int, text.len() as int));
        }
        *self = QueryRangeItr {
            inverted: self.inverted,
            query: self.query,
            current_content: rest,
            full_content: self.full_content,
            removed_count: removed,
        };
        proof {
            if len > 0 {
                assert(old(self).pending().drop_first() =~= self.pending());
            }
        }
        if len > 0 {
            possible_range
        } else {
            None
        }
    }
}

impl<'a> Iterator for QueryRangeItr<'a> {
    type Item = Range<usize>;

    /// Gets the next range: of the query in the content, or, inverted, of
    /// the content between two occurrences.
    fn next(&mut self) -> (item: Option<Range<usize>>)
        ensures
            old(self).steps_to(*final(self), item),
    {
        let item = if self.inverted {
            self.next_inverted()
        } else {
            self.next_standard()
        };
        proof {
            if old(self).pending().len() > 0 {
                assert(ranges_of(old(self).pending()).drop_first() =~= ranges_of(self.pending()));
            }
        }
        item
    }
}

impl<'a> IteratorSpecImpl for QueryRangeItr<'a> {
    open spec fn obeys_prophetic_iter_laws(&self) -> bool {
        true
    }

    open spec fn remaining(&self) -> Seq<Range<usize>> {
        ranges_of(self.pending())
    }

    open spec fn will_return_none(&self) -> bool {
        true
    }

    open spec fn decrease(&self) -> Option<nat> {
        Some(self.pending().len())
    }

    open spec fn initial_value_relation(&self, init: &Self) -> bool {
        init == self
    }

    open spec fn peek(&self, index: int) -> Option<Range<usize>> {
        if 0 <= index < self.pending().len() {
            Some(range_of(self.pending()[index]))
        } else {
            None
        }
    }
}

} // verus!
