//! Rewriting a content: the occurrences of a query, the gaps between them, or
//! both are handed to a transform, and the pieces are put together again in
//! the order in which their segments lie in the content.

use crate::boundary::{lemma_encode_concat, segment};
use crate::occurrence::{
    lemma_gaps_interlock_matches, lemma_matches_are_occurrences, lemma_segments_rebuild_text,
    segments, slice_of, Span,
};
use crate::query_range_iterator::QueryRangeItr;
use crate::reassembly::{concat_runs, lemma_merged_alternates, merge_runs, texts, TaggedRun};
use vstd::prelude::*;
use vstd::string::StringSliceAdditionalSpecFns;
use vstd::utf8::{decode_utf8, encode_utf8, encode_utf8_decode_utf8};

verus! {

/// The transform can be called on every text.
pub open spec fn total<T: Fn(&str) -> String>(transform: T) -> bool {
    forall|part: &str| call_requires(transform, (part,))
}

/// The transform returns the text that it was given.
pub open spec fn identity<T: Fn(&str) -> String>(transform: T) -> bool {
    forall|part: &str, made: String| call_ensures(transform, (part,), made) ==> made@ == part@
}

/// `made` is a text that the transform may return when it is given a text
/// whose bytes are `given`.
pub open spec fn produced_by<T: Fn(&str) -> String>(
    transform: T,
    given: Seq<u8>,
    made: Seq<char>,
) -> bool {
    exists|part: &str, output: String|
        part.spec_bytes() == given && output@ == made && call_ensures(
            transform,
            (part,),
            output,
        )
}

/// Whether the segment at `index` of a content goes through the transform.
/// The segments at even indices are the gaps, those at odd indices the
/// occurrences; inverted, the gaps are transformed, else the occurrences.
pub open spec fn is_selected(index: int, invert: bool) -> bool {
    (index % 2 == 0) == invert
}

/// `pieces` holds one text for each segment of the content, in order: for a
/// selected segment a text that the transform may return for it, for any
/// other the segment itself.
pub open spec fn pieces_of<T: Fn(&str) -> String>(
    transform: T,
    invert: bool,
    query: Seq<u8>,
    text: Seq<u8>,
    pieces: Seq<Seq<char>>,
) -> bool {
    &&& pieces.len() == segments(query, text).len()
    &&& forall|i: int|
        0 <= i < pieces.len() ==> if is_selected(i, invert) {
            produced_by(transform, slice_of(text, segments(query, text)[i]), #[trigger] pieces[i])
        } else {
            encode_utf8(pieces[i]) == slice_of(text, segments(query, text)[i])
        }
}

/// `whole` is the content rewritten: its segments, the selected ones
/// transformed, put together in their order.
pub open spec fn rewrites_to<T: Fn(&str) -> String>(
    transform: T,
    invert: bool,
    query: Seq<u8>,
    text: Seq<u8>,
    whole: Seq<char>,
) -> bool {
    exists|pieces: Seq<Seq<char>>|
        #[trigger] pieces_of(transform, invert, query, text, pieces) && whole == pieces.flatten()
}

/// `whole` is the content rewritten in two passes. The first rewrites the
/// occurrences of the query with the first transform. The second takes what
/// the first transform makes of the query as its query, and rewrites what
/// lies between the occurrences of that in the result of the first pass with
/// the second transform.
pub open spec fn rewrites_twice_to<TQ: Fn(&str) -> String, TNQ: Fn(&str) -> String>(
    transform_query: TQ,
    transform_non_query: TNQ,
    query: Seq<u8>,
    text: Seq<u8>,
    whole: Seq<char>,
) -> bool {
    exists|middle: Seq<char>, key: Seq<char>|
        {
            &&& #[trigger] rewrites_to(transform_query, false, query, text, middle)
            &&& #[trigger] produced_by(transform_query, query, key)
            &&& rewrites_to(transform_non_query, true, encode_utf8(key), encode_utf8(middle), whole)
        }
}

/// Encoding a sequence of texts put together gives their encodings put
/// together.
pub proof fn lemma_encode_flatten(pieces: Seq<Seq<char>>)
    ensures
        encode_utf8(pieces.flatten()) == pieces.map_values(
            |piece: Seq<char>| encode_utf8(piece),
        ).flatten(),
    decreases pieces.len(),
{
    let encode = |piece: Seq<char>| encode_utf8(piece);
    if pieces.len() == 0 {
        assert(encode_utf8(pieces.flatten()) =~= pieces.map_values(encode).flatten());
    } else {
        lemma_encode_flatten(pieces.drop_first());
        lemma_encode_concat(pieces.first(), pieces.drop_first().flatten());
        assert(pieces.map_values(encode).drop_first() =~= pieces.drop_first().map_values(encode));
    }
}

/// Rewriting with a transform that returns what it is given leaves the
/// content as it is, whatever the query and whichever segments are selected.
pub proof fn lemma_identity_rewrites_nothing<T: Fn(&str) -> String>(
    transform: T,
    invert: bool,
    query: Seq<u8>,
    text: Seq<u8>,
    whole: Seq<char>,
)
    requires
        identity(transform),
        rewrites_to(transform, invert, query, text, whole),
    ensures
        encode_utf8(whole) == text,
{
    let pieces = choose|pieces: Seq<Seq<char>>|
        #[trigger] pieces_of(transform, invert, query, text, pieces) && whole == pieces.flatten();
    let parts = segments(query, text);
    let encode = |piece: Seq<char>| encode_utf8(piece);
    let slice = |span: Span| slice_of(text, span);
    assert forall|i: int| 0 <= i < pieces.len() implies pieces.map_values(encode)[i]
        == parts.map_values(slice)[i] by {
        assert(encode_utf8(pieces[i]) == slice_of(text, parts[i]));
    }
    assert(pieces.map_values(encode) =~= parts.map_values(slice));
    lemma_encode_flatten(pieces);
    lemma_segments_rebuild_text(query, text);
}

/// The transform returns, for every text, what `function` gives for it.
pub open spec fn computes<T: Fn(&str) -> String>(
    transform: T,
    function: spec_fn(Seq<char>) -> Seq<char>,
) -> bool {
    forall|part: &str, made: String|
        call_ensures(transform, (part,), made) ==> made@ == function(part@)
}

/// The content with `function` applied to each selected segment, the other
/// segments as they are, all put together in their order.
pub open spec fn rewritten_by(
    function: spec_fn(Seq<char>) -> Seq<char>,
    invert: bool,
    query: Seq<u8>,
    text: Seq<u8>,
) -> Seq<char> {
    Seq::new(
        segments(query, text).len(),
        |i: int|
            if is_selected(i, invert) {
                function(decode_utf8(slice_of(text, segments(query, text)[i])))
            } else {
                decode_utf8(slice_of(text, segments(query, text)[i]))
            },
    ).flatten()
}

/// Rewriting with a transform that computes a function gives one result
/// only: the content with that function applied to each selected segment.
pub proof fn lemma_rewrite_by_function<T: Fn(&str) -> String>(
    transform: T,
    function: spec_fn(Seq<char>) -> Seq<char>,
    invert: bool,
    query: Seq<u8>,
    text: Seq<u8>,
    whole: Seq<char>,
)
    requires
        computes(transform, function),
        rewrites_to(transform, invert, query, text, whole),
    ensures
        whole == rewritten_by(function, invert, query, text),
{
    let pieces = choose|pieces: Seq<Seq<char>>|
        #[trigger] pieces_of(transform, invert, query, text, pieces) && whole == pieces.flatten();
    let parts = segments(query, text);
    let expected = Seq::new(
        parts.len(),
        |i: int|
            if is_selected(i, invert) {
                function(decode_utf8(slice_of(text, parts[i])))
            } else {
                decode_utf8(slice_of(text, parts[i]))
            },
    );
    assert forall|i: int| 0 <= i < pieces.len() implies pieces[i] == expected[i] by {
        if is_selected(i, invert) {
            let (part, output) = choose|part: &str, output: String|
                part.spec_bytes() == slice_of(text, parts[i]) && output@ == pieces[i]
                    && call_ensures(transform, (part,), output);
            encode_utf8_decode_utf8(part@);
        } else {
            encode_utf8_decode_utf8(pieces[i]);
        }
    }
    assert(pieces =~= expected);
}

/// Drains `ranges`: each range that it yields becomes a run, whose text is
/// what the transform makes of the content at that range and whose tag is
/// the start of the range.
fn tagged_runs<'a, T>(ranges: &mut QueryRangeItr<'a>, content: &'a str, transform: &T) -> (runs:
    Vec<TaggedRun>) where T: Fn(&str) -> String
    requires
        total(*transform),
        old(ranges).text() == content.spec_bytes(),
    ensures
        runs@.len() == old(ranges).pending().len(),
        forall|i: int|
            0 <= i < runs@.len() ==> {
                &&& (#[trigger] runs@[i]).start == old(ranges).pending()[i].start
                &&& produced_by(
                    *transform,
                    slice_of(content.spec_bytes(), old(ranges).pending()[i]),
                    runs@[i].text@,
                )
            },
{
    let ghost all = ranges.pending();
    let mut runs: Vec<TaggedRun> = Vec::new();
    proof {
        assert(all.skip(0) =~= all);
    }
    loop
        invariant
            total(*transform),
            ranges.text() == content.spec_bytes(),
            runs@.len() <= all.len(),
            ranges.pending() == all.skip(runs@.len() as int),
            forall|i: int|
                0 <= i < runs@.len() ==> {
                    &&& (#[trigger] runs@[i]).start == all[i].start
                    &&& produced_by(
                        *transform,
                        slice_of(content.spec_bytes(), all[i]),
                        runs@[i].text@,
                    )
                },
        ensures
            runs@.len() == all.len(),
        decreases ranges.pending().len(),
    {
        let ghost before = ranges.pending();
        match ranges.next() {
            Some(range) => {
                let start = range.start;
                let part = segment(content, range.start, range.end);
                let value = transform(part);
                proof {
                    assert(before[0] == all[runs@.len() as int]);
                    assert(before.drop_first() =~= all.skip(runs@.len() as int + 1));
                }
                runs.push(TaggedRun { text: value, start });
            },
            None => {
                break ;
            },
        }
    }
    runs
}

/// Rewrites `content`: the segments that `invert` selects go through the
/// transform, the others are copied, and all are put together in their
/// order.
fn reassemble<T>(query: &str, content: &str, transform: &T, invert: bool) -> (rewritten:
    String) where T: Fn(&str) -> String
    requires
        total(*transform),
    ensures
        rewrites_to(*transform, invert, query.spec_bytes(), content.spec_bytes(), rewritten@),
        identity(*transform) ==> rewritten@ == content@,
{
    let ghost sought = query.spec_bytes();
    let ghost text = content.spec_bytes();
    let mut selects = QueryRangeItr::new_base(query, content, invert);
    let mut non_selects = QueryRangeItr::new_base(query, content, !invert);
    let transform_rest = |part: &str| -> (value: String)
        ensures
            value@ == part@,
        { String::from_str(part) };
    let selected_subs = tagged_runs(&mut selects, content, transform);
    let non_selected_subs = tagged_runs(&mut non_selects, content, &transform_rest);
    let ghost gap_runs = if invert {
        selected_subs@
    } else {
        non_selected_subs@
    };
    let ghost match_runs = if invert {
        non_selected_subs@
    } else {
        selected_subs@
    };
    proof {
        lemma_gaps_interlock_matches(sought, text, 0);
        lemma_matches_are_occurrences(sought, text, 0);
        lemma_merged_alternates(gap_runs, match_runs);
    }
    let merged = if invert {
        merge_runs(&selected_subs, &non_selected_subs)
    } else {
        merge_runs(&non_selected_subs, &selected_subs)
    };
    let rewritten = concat_runs(&merged);
    proof {
        let pieces = texts(merged@);
        assert forall|i: int| 0 <= i < pieces.len() implies if is_selected(i, invert) {
            produced_by(
                *transform,
                slice_of(text, segments(sought, text)[i]),
                #[trigger] pieces[i],
            )
        } else {
            encode_utf8(pieces[i]) == slice_of(text, segments(sought, text)[i])
        } by {
            let given = slice_of(text, segments(sought, text)[i]);
            if !is_selected(i, invert) {
                assert(produced_by(transform_rest, given, pieces[i]));
            }
        }
        assert(pieces_of(*transform, invert, sought, text, pieces));
        if identity(*transform) {
            lemma_identity_rewrites_nothing(*transform, invert, sought, text, rewritten@);
            encode_utf8_decode_utf8(rewritten@);
            encode_utf8_decode_utf8(content@);
        }
    }
    rewritten
}

impl<'a> QueryRangeItr<'a> {
    /// Reassembles the content with the occurrences of the query
    /// transformed, or, where `invert` is set, with what lies between them
    /// transformed.
    pub fn transform<T>(query: &'a str, content: &'a str, transform: T, invert: bool) -> (rewritten:
        String) where T: Fn(&str) -> String
        requires
            total(transform),
        ensures
            rewrites_to(transform, invert, query.spec_bytes(), content.spec_bytes(), rewritten@),
            identity(transform) ==> rewritten@ == content@,
    {
        reassemble(query, content, &transform, invert)
    }

    /// Reassembles the content with the occurrences of the query
    /// transformed.
    pub fn transform_query<T>(query: &'a str, content: &'a str, transform: T) -> (rewritten:
        String) where T: Fn(&str) -> String
        requires
            total(transform),
        ensures
            rewrites_to(transform, false, query.spec_bytes(), content.spec_bytes(), rewritten@),
            identity(transform) ==> rewritten@ == content@,
    {
        Self::transform(query, content, transform, false)
    }

    /// Reassembles the content with what lies between the occurrences of the
    /// query transformed.
    pub fn transform_other<T>(query: &'a str, content: &'a str, transform: T) -> (rewritten:
        String) where T: Fn(&str) -> String
        requires
            total(transform),
        ensures
            rewrites_to(transform, true, query.spec_bytes(), content.spec_bytes(), rewritten@),
            identity(transform) ==> rewritten@ == content@,
    {
        Self::transform(query, content, transform, true)
    }

    /// Reassembles the content with the occurrences of the query transformed
    /// by one transform and what lies between them by another.
    ///
    /// This takes two passes. The first transforms the occurrences. The
    /// second searches the result for the transformed query and transforms
    /// what lies between its occurrences. So the first transform has to make
    /// of every occurrence what it makes of the query itself.
    pub fn transform_all<TQ, TNQ>(
        query: &'a str,
        content: &'a str,
        transform_query: TQ,
        transform_non_query: TNQ,
    ) -> (rewritten: String) where TQ: Fn(&str) -> String, TNQ: Fn(&str) -> String
        requires
            total(transform_query),
            total(transform_non_query),
        ensures
            rewrites_twice_to(
                transform_query,
                transform_non_query,
                query.spec_bytes(),
                content.spec_bytes(),
                rewritten@,
            ),
            identity(transform_query) && identity(transform_non_query) ==> rewritten@ == content@,
    {
        let transformed_content = reassemble(query, content, &transform_query, false);
        let transformed_query = transform_query(query);
        let transformed = reassemble(
            transformed_query.as_str(),
            transformed_content.as_str(),
            &transform_non_query,
            true,
        );
        proof {
            assert(produced_by(transform_query, query.spec_bytes(), transformed_query@));
            assert(rewrites_to(
                transform_non_query,
                true,
                encode_utf8(transformed_query@),
                encode_utf8(transformed_content@),
                transformed@,
            ));
        }
        transformed
    }
}

} // verus!
