//! Tagged runs: pieces of a rewritten content, each with the offset at which
//! the segment that it was made from starts in the content, and how two
//! streams of them are merged by that offset and put together.

use crate::occurrence::alternate;
use vstd::prelude::*;

verus! {

/// A piece of text together with the offset in the content at which the
/// segment that it was made from starts.
pub struct TaggedRun {
    pub text: String,
    pub start: usize,
}

/// Two streams of runs merged by their start offsets. Where two runs start
/// at the same offset, the one of `first` goes first.
pub open spec fn merged(first: Seq<TaggedRun>, second: Seq<TaggedRun>) -> Seq<TaggedRun>
    decreases first.len() + second.len(),
{
    if first.len() == 0 {
        second
    } else if second.len() == 0 {
        first
    } else if first[0].start <= second[0].start {
        seq![first[0]] + merged(first.drop_first(), second)
    } else {
        seq![second[0]] + merged(first, second.drop_first())
    }
}

/// The runs are in ascending order of their start offsets.
pub open spec fn ascending(runs: Seq<TaggedRun>) -> bool {
    forall|i: int, j: int| 0 <= i <= j < runs.len() ==> runs[i].start <= runs[j].start
}

/// The texts of the runs, in order.
pub open spec fn texts(runs: Seq<TaggedRun>) -> Seq<Seq<char>> {
    runs.map_values(|run: TaggedRun| run.text@)
}

/// Merging keeps every run of both streams, each as often as it came.
pub proof fn lemma_merged_keeps_all(first: Seq<TaggedRun>, second: Seq<TaggedRun>)
    ensures
        merged(first, second).len() == first.len() + second.len(),
        merged(first, second).to_multiset() == first.to_multiset().add(second.to_multiset()),
    decreases first.len() + second.len(),
{
    broadcast use vstd::seq_lib::group_to_multiset_ensures;

    if first.len() == 0 || second.len() == 0 {
        assert(merged(first, second).to_multiset() =~= first.to_multiset().add(
            second.to_multiset(),
        ));
    } else if first[0].start <= second[0].start {
        let rest = merged(first.drop_first(), second);
        lemma_merged_keeps_all(first.drop_first(), second);
        vstd::seq_lib::lemma_multiset_commutative(seq![first[0]], rest);
        vstd::seq_lib::lemma_multiset_commutative(seq![first[0]], first.drop_first());
        assert(seq![first[0]] + first.drop_first() =~= first);
        assert(merged(first, second).to_multiset() =~= first.to_multiset().add(
            second.to_multiset(),
        ));
    } else {
        let rest = merged(first, second.drop_first());
        lemma_merged_keeps_all(first, second.drop_first());
        vstd::seq_lib::lemma_multiset_commutative(seq![second[0]], rest);
        vstd::seq_lib::lemma_multiset_commutative(seq![second[0]], second.drop_first());
        assert(seq![second[0]] + second.drop_first() =~= second);
        assert(merged(first, second).to_multiset() =~= first.to_multiset().add(
            second.to_multiset(),
        ));
    }
}

/// Every run starts at or after `bound`.
pub open spec fn starts_from(runs: Seq<TaggedRun>, bound: int) -> bool {
    forall|i: int| 0 <= i < runs.len() ==> bound <= runs[i].start
}

/// What follows the first run of an ascending stream is ascending, and
/// starts at or after the first run.
proof fn lemma_tail_ascending(runs: Seq<TaggedRun>)
    requires
        ascending(runs),
        runs.len() > 0,
    ensures
        ascending(runs.drop_first()),
        starts_from(runs, runs[0].start as int),
        starts_from(runs.drop_first(), runs[0].start as int),
{
    let tail = runs.drop_first();
    assert forall|i: int, j: int| 0 <= i <= j < tail.len() implies tail[i].start
        <= tail[j].start by {
        assert(tail[i] == runs[i + 1]);
        assert(tail[j] == runs[j + 1]);
    }
    assert forall|i: int| 0 <= i < tail.len() implies runs[0].start <= tail[i].start by {
        assert(tail[i] == runs[i + 1]);
    }
}

/// A run put before an ascending stream that starts at or after it gives an
/// ascending stream.
proof fn lemma_ascending_after(head: TaggedRun, tail: Seq<TaggedRun>)
    requires
        ascending(tail),
        starts_from(tail, head.start as int),
    ensures
        ascending(seq![head] + tail),
        starts_from(seq![head] + tail, head.start as int),
{
    let all = seq![head] + tail;
    assert forall|i: int, j: int| 0 <= i <= j < all.len() implies all[i].start
        <= all[j].start by {
        if i > 0 {
            assert(all[i] == tail[i - 1]);
        }
        if j > 0 {
            assert(all[j] == tail[j - 1]);
        }
    }
    assert forall|i: int| 0 <= i < all.len() implies head.start <= all[i].start by {
        if i > 0 {
            assert(all[i] == tail[i - 1]);
        }
    }
}

/// A bound that lies at or below every start offset of both streams lies at
/// or below every start offset of the merged stream.
proof fn lemma_merged_starts_from(first: Seq<TaggedRun>, second: Seq<TaggedRun>, bound: int)
    requires
        starts_from(first, bound),
        starts_from(second, bound),
    ensures
        starts_from(merged(first, second), bound),
    decreases first.len() + second.len(),
{
    let all = merged(first, second);
    if first.len() == 0 || second.len() == 0 {
    } else {
        let from_first = first[0].start <= second[0].start;
        let later_first = if from_first {
            first.drop_first()
        } else {
            first
        };
        let later_second = if from_first {
            second
        } else {
            second.drop_first()
        };
        let rest = merged(later_first, later_second);
        assert forall|i: int| 0 <= i < later_first.len() implies bound
            <= later_first[i].start by {
            if from_first {
                assert(later_first[i] == first[i + 1]);
            }
        }
        assert forall|i: int| 0 <= i < later_second.len() implies bound
            <= later_second[i].start by {
            if !from_first {
                assert(later_second[i] == second[i + 1]);
            }
        }
        lemma_merged_starts_from(later_first, later_second, bound);
        assert forall|i: int| 0 <= i < all.len() implies bound <= all[i].start by {
            if i > 0 {
                assert(all[i] == rest[i - 1]);
            }
        }
    }
}

/// Merging two ascending streams gives an ascending stream.
pub proof fn lemma_merged_ascending(first: Seq<TaggedRun>, second: Seq<TaggedRun>)
    requires
        ascending(first),
        ascending(second),
    ensures
        ascending(merged(first, second)),
    decreases first.len() + second.len(),
{
    if first.len() == 0 || second.len() == 0 {
    } else {
        lemma_tail_ascending(first);
        lemma_tail_ascending(second);
        if first[0].start <= second[0].start {
            let bound = first[0].start as int;
            assert(starts_from(second, bound));
            lemma_merged_ascending(first.drop_first(), second);
            lemma_merged_starts_from(first.drop_first(), second, bound);
            lemma_ascending_after(first[0], merged(first.drop_first(), second));
        } else {
            let bound = second[0].start as int;
            assert(starts_from(first, bound));
            lemma_merged_ascending(first, second.drop_first());
            lemma_merged_starts_from(first, second.drop_first(), bound);
            lemma_ascending_after(second[0], merged(first, second.drop_first()));
        }
    }
}

/// Two streams whose runs take turns in the text, a run of `first` before
/// each run of `second` and each run of `second` before the next of `first`,
/// merge into the two taken in turn.
pub proof fn lemma_merged_alternates(first: Seq<TaggedRun>, second: Seq<TaggedRun>)
    requires
        second.len() <= first.len() <= second.len() + 1,
        forall|i: int| 0 <= i < second.len() ==> first[i].start <= second[i].start,
        forall|i: int|
            0 <= i < second.len() && i + 1 < first.len() ==> second[i].start < first[i + 1].start,
    ensures
        merged(first, second) == alternate(first, second),
    decreases first.len() + second.len(),
{
    if second.len() == 0 {
        assert(merged(first, second) =~= alternate(first, second));
    } else {
        let later_first = first.drop_first();
        let later_second = second.drop_first();
        // The first run of `first` comes first, then the first of `second`.
        assert(merged(first, second) == seq![first[0]] + merged(later_first, second));
        if later_first.len() > 0 {
            assert(later_first[0] == first[1]);
        }
        assert(merged(later_first, second) == seq![second[0]] + merged(later_first, later_second));
        assert forall|i: int| 0 <= i < later_second.len() implies later_first[i].start
            <= later_second[i].start by {
            assert(later_first[i] == first[i + 1]);
            assert(later_second[i] == second[i + 1]);
        }
        assert forall|i: int|
            0 <= i < later_second.len() && i + 1 < later_first.len() implies later_second[i].start
            < later_first[i + 1].start by {
            assert(later_first[i + 1] == first[i + 2]);
            assert(later_second[i] == second[i + 1]);
        }
        lemma_merged_alternates(later_first, later_second);
        crate::occurrence::lemma_alternate_unfold(first, second);
        assert(merged(first, second) =~= seq![first[0], second[0]] + merged(
            later_first,
            later_second,
        ));
    }
}

/// Merges two streams of runs by their start offsets into one. Where a run
/// of each starts at the same offset, the one of `first` goes first.
pub fn merge_runs(first: &Vec<TaggedRun>, second: &Vec<TaggedRun>) -> (all: Vec<TaggedRun>)
    ensures
        all@ == merged(first@, second@),
{
    let mut all: Vec<TaggedRun> = Vec::new();
    let mut i: usize = 0;
    let mut j: usize = 0;
    proof {
        assert(first@.skip(0) =~= first@);
        assert(second@.skip(0) =~= second@);
    }
    while i < first.len() || j < second.len()
        invariant
            i <= first@.len(),
            j <= second@.len(),
            all@ + merged(first@.skip(i as int), second@.skip(j as int)) == merged(
                first@,
                second@,
            ),
        decreases first@.len() - i + second@.len() - j,
    {
        let ghost ahead = merged(first@.skip(i as int), second@.skip(j as int));
        let from_first = if j >= second.len() {
            true
        } else if i >= first.len() {
            false
        } else {
            first[i].start <= second[j].start
        };
        if from_first {
            let run = TaggedRun { text: first[i].text.clone(), start: first[i].start };
            proof {
                assert(first@.skip(i as int).drop_first() =~= first@.skip(i + 1));
                assert(ahead =~= seq![run] + merged(
                    first@.skip(i + 1),
                    second@.skip(j as int),
                ));
                assert(all@.push(run) + merged(first@.skip(i + 1), second@.skip(j as int))
                    =~= all@ + ahead);
            }
            all.push(run);
            i += 1;
        } else {
            let run = TaggedRun { text: second[j].text.clone(), start: second[j].start };
            proof {
                assert(second@.skip(j as int).drop_first() =~= second@.skip(j + 1));
                assert(ahead =~= seq![run] + merged(
                    first@.skip(i as int),
                    second@.skip(j + 1),
                ));
                assert(all@.push(run) + merged(first@.skip(i as int), second@.skip(j + 1))
                    =~= all@ + ahead);
            }
            all.push(run);
            j += 1;
        }
    }
    proof {
        assert(all@ + merged(first@.skip(i as int), second@.skip(j as int)) =~= all@);
    }
    all
}

/// Puts the texts of the runs together, in the order of the runs.
pub fn concat_runs(runs: &Vec<TaggedRun>) -> (whole: String)
    ensures
        whole@ == texts(runs@).flatten(),
{
    let mut whole = String::new();
    let mut i: usize = 0;
    while i < runs.len()
        invariant
            i <= runs@.len(),
            whole@ == texts(runs@.take(i as int)).flatten(),
        decreases runs@.len() - i,
    {
        proof {
            let done = texts(runs@.take(i as int));
            assert(texts(runs@.take(i + 1)) =~= done.push(runs@[i as int].text@));
            done.lemma_flatten_push(runs@[i as int].text@);
        }
        whole.append(runs[i].text.as_str());
        i += 1;
    }
    proof {
        assert(runs@.take(i as int) =~= runs@);
    }
    whole
}

} // verus!
