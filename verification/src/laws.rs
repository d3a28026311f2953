//! The range algebra's laws, stated over the contracts of
//! `divide_into_n`, `merge_parts` and the state map.

use vstd::prelude::*;
use crate::alpha::rank;
use crate::problem::{divide_post, range_size, seq_sum, PartOfAProblem, Problem};
use crate::parts::{
    lemma_contiguous_separated, lemma_contiguous_span, lemma_links_pair, lemma_sorted_min_max,
    max_end_rank, min_start_rank, parts_contiguous, parts_disjoint, parts_separated, parts_sorted,
    parts_wf, sizes_of,
};

verus! {

/// Any output of `divide_into_n` covers the problem's range exactly:
/// the parts are pairwise disjoint, in ascending order, leave no gap,
/// begin at the problem's start and end at its end.
pub proof fn lemma_divide_covers(p: Problem, n: int, parts: Seq<PartOfAProblem>)
    requires
        p.wf(),
        1 <= n,
        range_size(p.alphabet@, p.start@, p.end@) <= usize::MAX,
        divide_post(p, n, parts),
    ensures
        parts.len() >= 1,
        parts_wf(p.alphabet@, parts),
        parts_sorted(p.alphabet@, parts),
        parts_disjoint(p.alphabet@, parts),
        parts_contiguous(p.alphabet@, parts),
        parts[0].start@ == p.start@,
        parts[parts.len() - 1].end@ == p.end@,
{
    let a = p.alphabet@;
    assert(parts_contiguous(a, parts)) by {
        assert forall|i: int, j: int|
            0 <= i < j < parts.len() && j == i + 1 implies rank(a, (#[trigger] parts[i]).end@) + 1
            == rank(a, (#[trigger] parts[j]).start@) by {
            assert(rank(a, parts[i].end@) + 1 == rank(a, parts[i + 1].start@));
        }
    }
    assert(parts_disjoint(a, parts)) by {
        assert forall|i: int, j: int|
            0 <= i < j < parts.len() implies rank(a, (#[trigger] parts[i]).end@) < rank(
            a,
            (#[trigger] parts[j]).start@,
        ) by {
            lemma_links_pair(a, parts, i, j);
        }
    }
    assert(parts_sorted(a, parts)) by {
        assert forall|i: int, j: int|
            0 <= i < j < parts.len() implies rank(a, (#[trigger] parts[i]).start@) <= rank(
            a,
            (#[trigger] parts[j]).start@,
        ) by {
            lemma_links_pair(a, parts, i, j);
            assert(parts[i].wf());
        }
    }
}

/// Dividing and merging round-trip: any output of `divide_into_n` meets
/// the preconditions of `merge_parts`, and the extremes it merges back
/// to are exactly the problem's own start and end, so `merge_parts`'s
/// contract returns the problem's range whole, not yet distributed,
/// with the same alphabet and digest (the strings pinned by rank
/// injectivity).
pub proof fn lemma_divide_merge_round_trip(p: Problem, n: int, parts: Seq<PartOfAProblem>)
    requires
        p.wf(),
        1 <= n,
        range_size(p.alphabet@, p.start@, p.end@) <= usize::MAX,
        divide_post(p, n, parts),
    ensures
        parts.len() >= 1,
        parts_wf(parts[0].alphabet@, parts),
        parts_separated(parts[0].alphabet@, parts),
        forall|i: int| 0 <= i < parts.len() ==> (#[trigger] parts[i]).hash@ == parts[0].hash@,
        seq_sum(sizes_of(parts)) == max_end_rank(parts[0].alphabet@, parts) - min_start_rank(
            parts[0].alphabet@,
            parts,
        ) + 1,
        min_start_rank(parts[0].alphabet@, parts) == rank(p.alphabet@, p.start@),
        max_end_rank(parts[0].alphabet@, parts) == rank(p.alphabet@, p.end@),
        parts[0].alphabet@ == p.alphabet@,
        parts[0].hash@ == p.hash@,
{
    lemma_divide_covers(p, n, parts);
    lemma_contiguous_separated(p.alphabet@, parts);
    lemma_sorted_min_max(p.alphabet@, parts);
    lemma_contiguous_span(p.alphabet@, parts);
}

/// The part sizes add up exactly to the size of the divided range.
pub proof fn lemma_divide_sizes_sum(p: Problem, n: int, parts: Seq<PartOfAProblem>)
    requires
        p.wf(),
        1 <= n,
        range_size(p.alphabet@, p.start@, p.end@) <= usize::MAX,
        divide_post(p, n, parts),
    ensures
        seq_sum(sizes_of(parts)) == range_size(p.alphabet@, p.start@, p.end@),
{
    lemma_divide_covers(p, n, parts);
    lemma_contiguous_span(p.alphabet@, parts);
}

} // verus!
