//! The mathematical model: where a query occurs in a text, the sequence of
//! its non-overlapping occurrences, and the gaps between them.
//!
//! Texts and queries are sequences of bytes here, and positions are
//! mathematical integers.

use std::ops::Range;
use vstd::prelude::*;

verus! {

/// A half-open interval `[start, end)` of byte offsets into a text.
pub struct Span {
    pub start: int,
    pub end: int,
}

/// The span that a range of offsets stands for.
pub open spec fn span_of(range: Range<usize>) -> Span {
    Span { start: range.start as int, end: range.end as int }
}

/// The span that a range stands for, where there is one.
pub open spec fn span_of_found(found: Option<Range<usize>>) -> Option<Span> {
    match found {
        Some(range) => Some(span_of(range)),
        None => None,
    }
}

/// The range of offsets that stands for a span.
pub open spec fn range_of(span: Span) -> Range<usize> {
    Range { start: span.start as usize, end: span.end as usize }
}

/// The ranges that stand for a sequence of spans.
pub open spec fn ranges_of(spans: Seq<Span>) -> Seq<Range<usize>> {
    spans.map_values(|span: Span| range_of(span))
}

/// The bytes of `text` that `span` covers.
pub open spec fn slice_of(text: Seq<u8>, span: Span) -> Seq<u8> {
    text.subrange(span.start, span.end)
}

/// `query` stands in `text`, byte for byte, starting at offset `at`.
pub open spec fn occurs_at(query: Seq<u8>, text: Seq<u8>, at: int) -> bool {
    &&& 0 <= at
    &&& at + query.len() <= text.len()
    &&& text.subrange(at, at + query.len()) == query
}

/// The start of the first occurrence of `query` in `text` at or after `from`.
///
/// An empty query is never found.
pub open spec fn search_from(query: Seq<u8>, text: Seq<u8>, from: int) -> Option<int>
    decreases text.len() - from,
{
    if query.len() == 0 || from < 0 || from + query.len() > text.len() {
        None
    } else if occurs_at(query, text, from) {
        Some(from)
    } else {
        search_from(query, text, from + 1)
    }
}

/// The first occurrence of `query` in `text`, as a span.
pub open spec fn first_occurrence(query: Seq<u8>, text: Seq<u8>) -> Option<Span> {
    match search_from(query, text, 0) {
        Some(at) => Some(Span { start: at, end: at + query.len() }),
        None => None,
    }
}

/// A successful search lands inside the text, not before `from`, and the
/// query it found is not empty.
pub proof fn lemma_search_bounds(query: Seq<u8>, text: Seq<u8>, from: int)
    ensures
        search_from(query, text, from) matches Some(at) ==> {
            &&& 0 <= from <= at
            &&& 0 < query.len()
            &&& at + query.len() <= text.len()
        },
    decreases text.len() - from,
{
    if query.len() == 0 || from < 0 || from + query.len() > text.len() {
    } else if occurs_at(query, text, from) {
    } else {
        lemma_search_bounds(query, text, from + 1);
    }
}

/// `search_from` finds the least offset at or after `from` where the query
/// occurs, and finds nothing exactly when the query is empty or occurs nowhere
/// from there on.
pub proof fn lemma_search_finds_first(query: Seq<u8>, text: Seq<u8>, from: int)
    requires
        0 <= from,
    ensures
        match search_from(query, text, from) {
            Some(at) => {
                &&& 0 < query.len()
                &&& from <= at
                &&& occurs_at(query, text, at)
                &&& forall|j: int| from <= j < at ==> !occurs_at(query, text, j)
            },
            None => query.len() == 0 || forall|j: int| from <= j ==> !occurs_at(query, text, j),
        },
    decreases text.len() - from,
{
    if query.len() == 0 || from + query.len() > text.len() {
    } else if occurs_at(query, text, from) {
    } else {
        lemma_search_finds_first(query, text, from + 1);
    }
}

/// Searching a window, the suffix of the text that starts at `from`, finds
/// what searching the whole text from `from` finds, `from` bytes earlier.
pub proof fn lemma_search_in_window(query: Seq<u8>, text: Seq<u8>, from: int)
    requires
        0 <= from <= text.len(),
    ensures
        search_from(query, text, from) == match search_from(
            query,
            text.subrange(from, text.len() as int),
            0,
        ) {
            Some(at) => Some(from + at),
            None => None,
        },
{
    lemma_search_in_window_at(query, text, from, 0);
}

proof fn lemma_search_in_window_at(query: Seq<u8>, text: Seq<u8>, from: int, local: int)
    requires
        0 <= from <= text.len(),
        0 <= local,
    ensures
        search_from(query, text, from + local) == match search_from(
            query,
            text.subrange(from, text.len() as int),
            local,
        ) {
            Some(at) => Some(from + at),
            None => None,
        },
    decreases text.len() - from - local,
{
    let window = text.subrange(from, text.len() as int);
    if query.len() == 0 || local + query.len() > window.len() {
    } else {
        assert(window.subrange(local, local + query.len()) =~= text.subrange(
            from + local,
            from + local + query.len(),
        ));
        if occurs_at(query, window, local) {
        } else {
            lemma_search_in_window_at(query, text, from, local + 1);
        }
    }
}

/// The occurrences of `query` in `text` at or after `from`, found from left to
/// right, each search starting where the previous occurrence ended.
pub open spec fn matches_from(query: Seq<u8>, text: Seq<u8>, from: int) -> Seq<Span>
    decreases text.len() - from,
{
    match search_from(query, text, from) {
        Some(at) => {
            proof {
                lemma_search_bounds(query, text, from);
            }
            seq![Span { start: at, end: at + query.len() }] + matches_from(
                query,
                text,
                at + query.len(),
            )
        },
        None => Seq::empty(),
    }
}

/// The stretches of `text` at or after `from` that lie between the occurrences
/// of `query`: before the first, between two neighbours, and after the last.
///
/// A gap may be empty. Once the text is used up there is no further gap, so a
/// text that ends in an occurrence has no gap after it.
pub open spec fn gaps_from(query: Seq<u8>, text: Seq<u8>, from: int) -> Seq<Span>
    decreases text.len() - from,
{
    if from >= text.len() {
        Seq::empty()
    } else {
        match search_from(query, text, from) {
            Some(at) => {
                proof {
                    lemma_search_bounds(query, text, from);
                }
                seq![Span { start: from, end: at }] + gaps_from(query, text, at + query.len())
            },
            None => seq![Span { start: from, end: text.len() as int }],
        }
    }
}

/// The sequence `first[0], second[0], first[1], second[1], ...`: the two
/// sequences taken in turn, starting with `first`.
///
/// It is meant for a `second` that is as long as `first` or one shorter.
pub open spec fn alternate<T>(first: Seq<T>, second: Seq<T>) -> Seq<T> {
    Seq::new(
        first.len() + second.len(),
        |i: int|
            if i % 2 == 0 {
                first[i / 2]
            } else {
                second[i / 2]
            },
    )
}

/// `gaps` and `matches` lie in `text` from `from` on as gaps and occurrences
/// do: they take turns, a gap first, each starts where the one before it
/// ended, and together they reach the end of the text.
pub open spec fn interlocked(
    gaps: Seq<Span>,
    matches: Seq<Span>,
    text: Seq<u8>,
    from: int,
) -> bool {
    &&& matches.len() <= gaps.len() <= matches.len() + 1
    &&& gaps.len() > 0 ==> gaps[0].start == from
    &&& forall|i: int|
        0 <= i < gaps.len() ==> {
            &&& from <= (#[trigger] gaps[i]).start <= gaps[i].end <= text.len()
            &&& gaps[i].start < text.len()
        }
    &&& forall|i: int| 0 <= i < matches.len() ==> (#[trigger] gaps[i]).end == matches[i].start
    &&& forall|i: int|
        0 <= i < matches.len() && i + 1 < gaps.len() ==> (#[trigger] matches[i]).end == gaps[i
            + 1].start
    &&& gaps.len() == matches.len() + 1 ==> gaps.last().end == text.len()
    &&& gaps.len() == matches.len() ==> if matches.len() == 0 {
        from == text.len()
    } else {
        matches.last().end == text.len()
    }
}

/// Every span of `matches_from` is an occurrence of the query, not empty and
/// inside the text, and each starts at or after the end of the one before it:
/// they are strictly increasing and do not overlap.
pub proof fn lemma_matches_are_occurrences(query: Seq<u8>, text: Seq<u8>, from: int)
    requires
        0 <= from,
    ensures
        forall|i: int|
            0 <= i < matches_from(query, text, from).len() ==> {
                let found = #[trigger] matches_from(query, text, from)[i];
                &&& from <= found.start < found.end <= text.len()
                &&& found.end == found.start + query.len()
                &&& occurs_at(query, text, found.start)
                &&& slice_of(text, found) == query
            },
        forall|i: int, j: int|
            0 <= i < j < matches_from(query, text, from).len() ==> (#[trigger] matches_from(
                query,
                text,
                from,
            )[i]).end <= (#[trigger] matches_from(query, text, from)[j]).start,
    decreases text.len() - from,
{
    let all = matches_from(query, text, from);
    lemma_search_finds_first(query, text, from);
    lemma_search_bounds(query, text, from);
    match search_from(query, text, from) {
        Some(at) => {
            let next = at + query.len();
            let rest = matches_from(query, text, next);
            lemma_matches_are_occurrences(query, text, next);
            assert forall|i: int| 0 <= i < all.len() implies {
                let found = #[trigger] all[i];
                &&& from <= found.start < found.end <= text.len()
                &&& found.end == found.start + query.len()
                &&& occurs_at(query, text, found.start)
                &&& slice_of(text, found) == query
            } by {
                if i > 0 {
                    assert(all[i] == rest[i - 1]);
                }
            }
            assert forall|i: int, j: int| 0 <= i < j < all.len() implies (#[trigger] all[i]).end
                <= (#[trigger] all[j]).start by {
                assert(all[j] == rest[j - 1]);
                if i > 0 {
                    assert(all[i] == rest[i - 1]);
                }
            }
        },
        None => {},
    }
}

/// No occurrence is passed over: an occurrence of the query that starts at or
/// after `from` starts inside one of the spans of `matches_from`, whose index
/// is returned.
pub proof fn lemma_matches_leave_none_out(
    query: Seq<u8>,
    text: Seq<u8>,
    from: int,
    at: int,
) -> (i: int)
    requires
        0 <= from <= at,
        0 < query.len(),
        occurs_at(query, text, at),
    ensures
        0 <= i < matches_from(query, text, from).len(),
        matches_from(query, text, from)[i].start <= at < matches_from(query, text, from)[i].end,
    decreases text.len() - from,
{
    lemma_search_finds_first(query, text, from);
    lemma_search_bounds(query, text, from);
    let first = search_from(query, text, from)->0;
    let next = first + query.len();
    if at < next {
        0
    } else {
        let rest = matches_from(query, text, next);
        let k = lemma_matches_leave_none_out(query, text, next, at);
        assert(matches_from(query, text, from)[k + 1] == rest[k]);
        k + 1
    }
}

/// The gaps and the occurrences from `from` on take turns and leave nothing
/// of the text out.
///
/// There is one gap more than there are occurrences, unless nothing of the
/// text is left after the last occurrence (or at `from`, where there is
/// none): then there are as many gaps as occurrences.
pub proof fn lemma_gaps_interlock_matches(query: Seq<u8>, text: Seq<u8>, from: int)
    requires
        0 <= from <= text.len(),
    ensures
        interlocked(gaps_from(query, text, from), matches_from(query, text, from), text, from),
    decreases text.len() - from,
{
    let gaps = gaps_from(query, text, from);
    let matches = matches_from(query, text, from);
    lemma_search_bounds(query, text, from);
    if from >= text.len() {
    } else {
        match search_from(query, text, from) {
            Some(at) => {
                let next = at + query.len();
                let later_gaps = gaps_from(query, text, next);
                let later_matches = matches_from(query, text, next);
                lemma_gaps_interlock_matches(query, text, next);
                assert forall|i: int| 0 <= i < gaps.len() implies {
                    &&& from <= (#[trigger] gaps[i]).start <= gaps[i].end <= text.len()
                    &&& gaps[i].start < text.len()
                } by {
                    if i > 0 {
                        assert(gaps[i] == later_gaps[i - 1]);
                    }
                }
                assert forall|i: int| 0 <= i < matches.len() implies (#[trigger] gaps[i]).end
                    == matches[i].start by {
                    if i > 0 {
                        assert(gaps[i] == later_gaps[i - 1]);
                        assert(matches[i] == later_matches[i - 1]);
                    }
                }
                assert forall|i: int| 0 <= i < matches.len() && i + 1 < gaps.len() implies (
                #[trigger] matches[i]).end == gaps[i + 1].start by {
                    assert(gaps[i + 1] == later_gaps[i]);
                    if i > 0 {
                        assert(matches[i] == later_matches[i - 1]);
                    }
                }
                if gaps.len() == matches.len() + 1 {
                    assert(gaps.last() == later_gaps.last());
                }
                if gaps.len() == matches.len() && later_matches.len() > 0 {
                    assert(matches.last() == later_matches.last());
                }
            },
            None => {},
        }
    }
}

/// The text ends in one of the occurrences that `matches_from` finds from
/// its start.
pub open spec fn ends_in_match(query: Seq<u8>, text: Seq<u8>) -> bool {
    let matches = matches_from(query, text, 0);
    matches.len() > 0 && matches.last().end == text.len()
}

/// There is exactly one gap more than there are occurrences, unless the text
/// is empty or ends in an occurrence: then there are as many gaps as
/// occurrences.
pub proof fn lemma_gap_count(query: Seq<u8>, text: Seq<u8>)
    ensures
        gaps_from(query, text, 0).len() == matches_from(query, text, 0).len() + if text.len() == 0
            || ends_in_match(query, text) {
            0int
        } else {
            1int
        },
{
    lemma_gaps_interlock_matches(query, text, 0);
    lemma_matches_are_occurrences(query, text, 0);
    let gaps = gaps_from(query, text, 0);
    let matches = matches_from(query, text, 0);
    if gaps.len() == matches.len() + 1 && matches.len() > 0 {
        assert(matches[matches.len() - 1].end == gaps[matches.len() as int].start);
    }
}

/// The gaps and the occurrences of `query` in `text`, in the order in which
/// they lie in the text: a gap, an occurrence, a gap, and so on.
pub open spec fn segments(query: Seq<u8>, text: Seq<u8>) -> Seq<Span> {
    alternate(gaps_from(query, text, 0), matches_from(query, text, 0))
}

/// The bytes that `spans` cover in `text`, one span after the other.
pub open spec fn joined(text: Seq<u8>, spans: Seq<Span>) -> Seq<u8> {
    spans.map_values(|span: Span| slice_of(text, span)).flatten()
}

/// Joining distributes over concatenation.
pub proof fn lemma_joined_concat(text: Seq<u8>, front: Seq<Span>, back: Seq<Span>)
    ensures
        joined(text, front + back) == joined(text, front) + joined(text, back),
{
    let slice = |span: Span| slice_of(text, span);
    assert((front + back).map_values(slice) =~= front.map_values(slice) + back.map_values(slice));
    vstd::seq_lib::lemma_flatten_concat(front.map_values(slice), back.map_values(slice));
}

/// Taking two sequences in turn starts with the head of each and goes on with
/// their tails.
pub proof fn lemma_alternate_unfold<T>(first: Seq<T>, second: Seq<T>)
    requires
        0 < second.len() <= first.len() <= second.len() + 1,
    ensures
        alternate(first, second) == seq![first[0], second[0]] + alternate(
            first.drop_first(),
            second.drop_first(),
        ),
{
    let whole = alternate(first, second);
    let tail = alternate(first.drop_first(), second.drop_first());
    let unfolded = seq![first[0], second[0]] + tail;
    assert forall|i: int| 0 <= i < whole.len() implies whole[i] == unfolded[i] by {
        if i >= 2 {
            assert(unfolded[i] == tail[i - 2]);
            assert((i - 2) / 2 == i / 2 - 1);
            assert((i - 2) % 2 == i % 2);
        }
    }
    assert(whole =~= unfolded);
}

/// The gaps and the occurrences from `from` on, taken in turn, cover the text
/// from `from` to its end, byte for byte and in order.
pub proof fn lemma_segments_cover_from(query: Seq<u8>, text: Seq<u8>, from: int)
    requires
        0 <= from <= text.len(),
    ensures
        joined(text, alternate(gaps_from(query, text, from), matches_from(query, text, from)))
            == text.subrange(from, text.len() as int),
    decreases text.len() - from,
{
    let gaps = gaps_from(query, text, from);
    let matches = matches_from(query, text, from);
    let slice = |span: Span| slice_of(text, span);
    lemma_search_bounds(query, text, from);
    if from >= text.len() {
        assert(alternate(gaps, matches) =~= Seq::<Span>::empty());
        assert(joined(text, alternate(gaps, matches)) =~= text.subrange(from, text.len() as int));
    } else {
        match search_from(query, text, from) {
            Some(at) => {
                // A gap and an occurrence first, then what comes after them.
                let next = at + query.len();
                let head = seq![gaps[0], matches[0]];
                let tail = alternate(gaps_from(query, text, next), matches_from(query, text, next));
                lemma_gaps_interlock_matches(query, text, from);
                lemma_alternate_unfold(gaps, matches);
                assert(gaps.drop_first() =~= gaps_from(query, text, next));
                assert(matches.drop_first() =~= matches_from(query, text, next));
                lemma_joined_concat(text, head, tail);
                lemma_segments_cover_from(query, text, next);
                assert(joined(text, head) =~= text.subrange(from, next)) by {
                    reveal_with_fuel(Seq::flatten, 3);
                    assert(head.map_values(slice)[0] == text.subrange(from, at));
                    assert(head.map_values(slice)[1] == text.subrange(at, next));
                    assert(head.map_values(slice).drop_first().drop_first().len() == 0);
                }
                assert(text.subrange(from, next) + text.subrange(next, text.len() as int)
                    =~= text.subrange(from, text.len() as int));
            },
            None => {
                // The rest of the text is one gap.
                let rest = text.subrange(from, text.len() as int);
                let only = alternate(gaps, matches);
                assert(only =~= seq![Span { start: from, end: text.len() as int }]);
                assert(joined(text, only) =~= rest) by {
                    reveal_with_fuel(Seq::flatten, 2);
                    assert(only.map_values(slice)[0] == rest);
                    assert(only.map_values(slice).drop_first().len() == 0);
                }
            },
        }
    }
}

/// Taken in the order in which they lie in the text, the gaps and the
/// occurrences of a query put the text together again exactly.
pub proof fn lemma_segments_rebuild_text(query: Seq<u8>, text: Seq<u8>)
    ensures
        joined(text, segments(query, text)) == text,
{
    lemma_segments_cover_from(query, text, 0);
    assert(text.subrange(0, text.len() as int) =~= text);
}

/// A query that is empty or occurs nowhere in the text has no occurrence to
/// yield, and the text, unless it is empty, is exactly one gap.
pub proof fn lemma_absent_query(query: Seq<u8>, text: Seq<u8>)
    requires
        query.len() == 0 || forall|at: int| !occurs_at(query, text, at),
    ensures
        matches_from(query, text, 0) == Seq::<Span>::empty(),
        text.len() > 0 ==> gaps_from(query, text, 0) == seq![
            Span { start: 0, end: text.len() as int },
        ],
{
    lemma_search_finds_first(query, text, 0);
}

/// An empty text has neither occurrences nor gaps, whatever the query.
pub proof fn lemma_empty_text(query: Seq<u8>, text: Seq<u8>)
    requires
        text.len() == 0,
    ensures
        matches_from(query, text, 0) == Seq::<Span>::empty(),
        gaps_from(query, text, 0) == Seq::<Span>::empty(),
{
    lemma_search_bounds(query, text, 0);
}

} // verus!
