//! The leader's accounting of parts: sorting, merging, and the state map.
//!
//! A state map is a sorted, pairwise disjoint list of parts over one
//! alphabet. `update_state_of_parts` clips the map against an updated
//! part, relabels the overlap, and coalesces adjacent parts of one state;
//! `merge_parts` collapses a sorted contiguous run of parts into one.

use vstd::prelude::*;
use vstd::string::*;
use vstd::seq_lib::group_to_multiset_ensures;
use crate::alpha::{rank, rank_of_str, str_of_rank};
use crate::problem::{Combinable, PartOfAProblem, PartOfAProblemState};

verus! {

/// The mathematical content of a part: its field views.
pub struct PartView {
    pub start: Seq<char>,
    pub end: Seq<char>,
    pub alphabet: Seq<char>,
    pub hash: Seq<char>,
    pub state: PartOfAProblemState,
}

/// The view of one part.
pub open spec fn pview(p: PartOfAProblem) -> PartView {
    PartView {
        start: p.start@,
        end: p.end@,
        alphabet: p.alphabet@,
        hash: p.hash@,
        state: p.state,
    }
}

/// The views of a list of parts.
pub open spec fn views_of(parts: Seq<PartOfAProblem>) -> Seq<PartView> {
    parts.map_values(|p: PartOfAProblem| pview(p))
}

/// Every part is well formed and shares the alphabet `a`.
pub open spec fn parts_wf(a: Seq<char>, parts: Seq<PartOfAProblem>) -> bool {
    forall|i: int|
        0 <= i < parts.len() ==> (#[trigger] parts[i]).wf() && parts[i].alphabet@ == a
}

/// Parts are in ascending start order.
pub open spec fn parts_sorted(a: Seq<char>, parts: Seq<PartOfAProblem>) -> bool {
    forall|i: int, j: int|
        0 <= i < j < parts.len() ==> rank(a, (#[trigger] parts[i]).start@) <= rank(
            a,
            (#[trigger] parts[j]).start@,
        )
}

/// Parts are in ascending order and pairwise disjoint: every earlier
/// part ends before every later part starts.
pub open spec fn parts_disjoint(a: Seq<char>, parts: Seq<PartOfAProblem>) -> bool {
    forall|i: int, j: int|
        0 <= i < j < parts.len() ==> rank(a, (#[trigger] parts[i]).end@) < rank(
            a,
            (#[trigger] parts[j]).start@,
        )
}

/// Consecutive parts leave no gap: each start is the successor of the
/// previous end.
pub open spec fn parts_contiguous(a: Seq<char>, parts: Seq<PartOfAProblem>) -> bool {
    forall|i: int, j: int|
        0 <= i < j < parts.len() && j == i + 1 ==> rank(a, (#[trigger] parts[i]).end@) + 1 == rank(
            a,
            (#[trigger] parts[j]).start@,
        )
}

/// No two adjacent parts of one state are left separate.
pub open spec fn parts_coalesced(a: Seq<char>, parts: Seq<PartOfAProblem>) -> bool {
    forall|i: int, j: int|
        0 <= i < j < parts.len() && j == i + 1 ==> !(rank(a, (#[trigger] parts[i]).end@) + 1
            == rank(a, (#[trigger] parts[j]).start@) && parts[i].state == parts[j].state)
}

/// Whether the part's range holds the rank `r`.
pub open spec fn covers(a: Seq<char>, p: PartOfAProblem, r: int) -> bool {
    rank(a, p.start@) <= r <= rank(a, p.end@)
}

/// The state of the first part covering rank `r`, if any.
pub open spec fn covered_state(
    a: Seq<char>,
    parts: Seq<PartOfAProblem>,
    r: int,
) -> Option<PartOfAProblemState>
    decreases parts.len(),
{
    if parts.len() == 0 {
        None
    } else if covers(a, parts[0], r) {
        Some(parts[0].state)
    } else {
        covered_state(a, parts.drop_first(), r)
    }
}

/// Coverage looks through a concatenation left to right.
pub proof fn lemma_covered_concat(
    a: Seq<char>,
    s1: Seq<PartOfAProblem>,
    s2: Seq<PartOfAProblem>,
    r: int,
)
    ensures
        covered_state(a, s1 + s2, r) == (if covered_state(a, s1, r).is_some() {
            covered_state(a, s1, r)
        } else {
            covered_state(a, s2, r)
        }),
    decreases s1.len(),
{
    if s1.len() == 0 {
        assert(s1 + s2 =~= s2);
    } else {
        assert((s1 + s2).drop_first() =~= s1.drop_first() + s2);
        assert((s1 + s2)[0] == s1[0]);
        lemma_covered_concat(a, s1.drop_first(), s2, r);
    }
}

/// Coverage of a single part.
pub proof fn lemma_covered_single(a: Seq<char>, p: PartOfAProblem, r: int)
    ensures
        covered_state(a, seq![p], r) == (if covers(a, p, r) {
            Some(p.state)
        } else {
            None::<PartOfAProblemState>
        }),
{
    assert(seq![p][0] == p);
    assert(seq![p].drop_first() =~= Seq::<PartOfAProblem>::empty());
    assert(covered_state(a, Seq::<PartOfAProblem>::empty(), r).is_none());
}

/// Moving the element at `m` from the front pool to the back of the
/// output keeps the combined collection of part views.
proof fn lemma_move_keeps_views(
    out0: Seq<PartOfAProblem>,
    work0: Seq<PartOfAProblem>,
    out1: Seq<PartOfAProblem>,
    work1: Seq<PartOfAProblem>,
    m: int,
)
    requires
        0 <= m < work0.len(),
        out1 == out0.push(work0[m]),
        work1 == work0.remove(m),
    ensures
        (views_of(out1) + views_of(work1)).to_multiset() == (views_of(out0) + views_of(
            work0,
        )).to_multiset(),
{
    broadcast use group_to_multiset_ensures;
    broadcast use vstd::multiset::group_multiset_axioms;

    let vo = views_of(out0);
    let vw = views_of(work0);
    let vp = pview(work0[m]);
    assert(views_of(out1) =~= vo.push(vp));
    assert(views_of(work1) =~= vw.remove(m));
    assert(vw[m] == vp);
    assert(vw.contains(vp));
    vstd::seq_lib::lemma_multiset_commutative(views_of(out1), views_of(work1));
    vstd::seq_lib::lemma_multiset_commutative(vo, vw);
    assert(vo.push(vp).to_multiset() == vo.to_multiset().insert(vp));
    assert(vw.remove(m).to_multiset() == vw.to_multiset().remove(vp));
    assert((views_of(out1) + views_of(work1)).to_multiset() =~= (vo + vw).to_multiset());
}

/// Sorts the parts by ascending start rank; the collection of parts is
/// unchanged.
#[verifier::rlimit(100)]
pub fn sort_vector_of_parts(parts: &mut Vec<PartOfAProblem>)
    requires
        old(parts)@.len() >= 1,
        parts_wf(old(parts)@[0].alphabet@, old(parts)@),
    ensures
        final(parts)@.len() == old(parts)@.len(),
        parts_wf(old(parts)@[0].alphabet@, final(parts)@),
        parts_sorted(old(parts)@[0].alphabet@, final(parts)@),
        views_of(final(parts)@).to_multiset() == views_of(old(parts)@).to_multiset(),
{
    let ghost a = old(parts)@[0].alphabet@;
    let alphabet = parts[0].alphabet.clone();
    let mut work: Vec<PartOfAProblem> = Vec::new();
    core::mem::swap(parts, &mut work);
    proof {
        broadcast use group_to_multiset_ensures;

        assert(views_of(parts@) =~= Seq::<PartView>::empty());
        assert(views_of(parts@) + views_of(work@) =~= views_of(work@));
    }
    while work.len() > 0
        invariant
            a == alphabet@,
            parts_wf(a, work@),
            parts_wf(a, parts@),
            parts_sorted(a, parts@),
            (views_of(parts@) + views_of(work@)).to_multiset() == views_of(
                old(parts)@,
            ).to_multiset(),
            parts@.len() + work@.len() == old(parts)@.len(),
            forall|i: int, j: int|
                0 <= i < parts@.len() && 0 <= j < work@.len() ==> rank(
                    a,
                    (#[trigger] parts@[i]).start@,
                ) <= rank(a, (#[trigger] work@[j]).start@),
        decreases work@.len(),
    {
        let mut min: usize = 0;
        let mut j: usize = 1;
        let mut min_rank = rank_of_str(alphabet.as_str(), work[0].start.as_str());
        while j < work.len()
            invariant
                a == alphabet@,
                parts_wf(a, work@),
                work@.len() > 0,
                j <= work@.len(),
                min < work@.len(),
                min_rank == rank(a, work@[min as int].start@),
                forall|i: int| 0 <= i < j ==> min_rank <= rank(a, (#[trigger] work@[i]).start@),
            decreases work@.len() - j,
        {
            let rj = rank_of_str(alphabet.as_str(), work[j].start.as_str());
            if rj < min_rank {
                min = j;
                min_rank = rj;
            }
            j += 1;
        }
        let ghost old_work = work@;
        let ghost old_out = parts@;
        let p = work.remove(min);
        parts.push(p);
        proof {
            lemma_move_keeps_views(old_out, old_work, parts@, work@, min as int);
        }
    }
    proof {
        assert(views_of(parts@) + views_of(work@) =~= views_of(parts@));
    }
}

/// The sizes of the parts' ranges.
pub open spec fn sizes_of(parts: Seq<PartOfAProblem>) -> Seq<int> {
    parts.map_values(|p: PartOfAProblem| p.spec_size())
}

/// A sorted contiguous run spans one range, and its sizes add up to that
/// range's size.
pub proof fn lemma_contiguous_span(a: Seq<char>, parts: Seq<PartOfAProblem>)
    requires
        parts.len() >= 1,
        parts_wf(a, parts),
        parts_contiguous(a, parts),
    ensures
        rank(a, parts[0].start@) <= rank(a, parts[parts.len() - 1].end@),
        crate::problem::seq_sum(sizes_of(parts)) == rank(a, parts[parts.len() - 1].end@) - rank(
            a,
            parts[0].start@,
        ) + 1,
    decreases parts.len(),
{
    assert(parts[0].wf());
    assert(parts[0].spec_size() == rank(a, parts[0].end@) - rank(a, parts[0].start@) + 1);
    if parts.len() == 1 {
        assert(sizes_of(parts) =~= seq![parts[0].spec_size()]);
        assert(sizes_of(parts).subrange(1, 1) =~= Seq::<int>::empty());
        assert(crate::problem::seq_sum(Seq::<int>::empty()) == 0);
    } else {
        let tail = parts.drop_first();
        assert(parts_wf(a, tail) && parts_contiguous(a, tail)) by {
            assert(forall|i: int| 0 <= i < tail.len() ==> tail[i] == parts[i + 1]);
        }
        lemma_contiguous_span(a, tail);
        assert(sizes_of(parts).subrange(1, parts.len() as int) =~= sizes_of(tail));
        assert(crate::problem::seq_sum(sizes_of(parts)) == parts[0].spec_size()
            + crate::problem::seq_sum(sizes_of(tail)));
        assert(tail[0] == parts[1]);
        assert(tail[tail.len() - 1] == parts[parts.len() - 1]);
    }
}

/// A rank covered by no part has no state.
pub proof fn lemma_covered_none(a: Seq<char>, parts: Seq<PartOfAProblem>, r: int)
    requires
        forall|i: int| 0 <= i < parts.len() ==> !covers(a, #[trigger] parts[i], r),
    ensures
        covered_state(a, parts, r).is_none(),
    decreases parts.len(),
{
    if parts.len() > 0 {
        let tail = parts.drop_first();
        assert(forall|i: int| 0 <= i < tail.len() ==> tail[i] == parts[i + 1]);
        lemma_covered_none(a, tail, r);
    }
}

/// Appending one part to a map extends its coverage on the right.
pub proof fn lemma_covered_push(a: Seq<char>, s: Seq<PartOfAProblem>, p: PartOfAProblem, r: int)
    ensures
        covered_state(a, s.push(p), r) == (if covered_state(a, s, r).is_some() {
            covered_state(a, s, r)
        } else if covers(a, p, r) {
            Some(p.state)
        } else {
            None::<PartOfAProblemState>
        }),
{
    assert(s.push(p) =~= s + seq![p]);
    lemma_covered_concat(a, s, seq![p], r);
    lemma_covered_single(a, p, r);
}

/// The smallest start rank among the parts (0 for an empty list).
pub open spec fn min_start_rank(a: Seq<char>, parts: Seq<PartOfAProblem>) -> int
    decreases parts.len(),
{
    if parts.len() == 0 {
        0
    } else if parts.len() == 1 {
        rank(a, parts[0].start@)
    } else {
        let t = min_start_rank(a, parts.drop_last());
        if rank(a, parts.last().start@) < t {
            rank(a, parts.last().start@)
        } else {
            t
        }
    }
}

/// The largest end rank among the parts (0 for an empty list).
pub open spec fn max_end_rank(a: Seq<char>, parts: Seq<PartOfAProblem>) -> int
    decreases parts.len(),
{
    if parts.len() == 0 {
        0
    } else if parts.len() == 1 {
        rank(a, parts[0].end@)
    } else {
        let t = max_end_rank(a, parts.drop_last());
        if rank(a, parts.last().end@) > t {
            rank(a, parts.last().end@)
        } else {
            t
        }
    }
}

/// No two parts share a rank, in whatever order they stand.
pub open spec fn parts_separated(a: Seq<char>, parts: Seq<PartOfAProblem>) -> bool {
    forall|i: int, j: int|
        0 <= i < parts.len() && 0 <= j < parts.len() && i != j ==> (rank(
            a,
            (#[trigger] parts[i]).end@,
        ) < rank(a, (#[trigger] parts[j]).start@) || rank(a, parts[j].end@) < rank(
            a,
            parts[i].start@,
        ))
}

/// The extremes bound every part, and each is attained by one of them.
pub proof fn lemma_min_max_bounds(a: Seq<char>, parts: Seq<PartOfAProblem>)
    requires
        parts.len() >= 1,
    ensures
        forall|i: int|
            0 <= i < parts.len() ==> min_start_rank(a, parts) <= rank(
                a,
                (#[trigger] parts[i]).start@,
            ) && rank(a, parts[i].end@) <= max_end_rank(a, parts),
        exists|i: int|
            0 <= i < parts.len() && min_start_rank(a, parts) == rank(
                a,
                (#[trigger] parts[i]).start@,
            ),
        exists|i: int|
            0 <= i < parts.len() && max_end_rank(a, parts) == rank(a, (#[trigger] parts[i]).end@),
    decreases parts.len(),
{
    if parts.len() == 1 {
        assert(min_start_rank(a, parts) == rank(a, parts[0].start@));
        assert(max_end_rank(a, parts) == rank(a, parts[0].end@));
    } else {
        let t = parts.drop_last();
        lemma_min_max_bounds(a, t);
        assert(forall|i: int| 0 <= i < t.len() ==> t[i] == parts[i]);
        let wmin = choose|i: int|
            0 <= i < t.len() && min_start_rank(a, t) == rank(a, (#[trigger] t[i]).start@);
        let wmax = choose|i: int|
            0 <= i < t.len() && max_end_rank(a, t) == rank(a, (#[trigger] t[i]).end@);
        if rank(a, parts.last().start@) < min_start_rank(a, t) {
            assert(min_start_rank(a, parts) == rank(a, parts[parts.len() - 1].start@));
        } else {
            assert(min_start_rank(a, parts) == rank(a, parts[wmin].start@));
        }
        if rank(a, parts.last().end@) > max_end_rank(a, t) {
            assert(max_end_rank(a, parts) == rank(a, parts[parts.len() - 1].end@));
        } else {
            assert(max_end_rank(a, parts) == rank(a, parts[wmax].end@));
        }
    }
}

/// In a sorted contiguous run the extremes are the first start and the
/// last end.
pub proof fn lemma_sorted_min_max(a: Seq<char>, parts: Seq<PartOfAProblem>)
    requires
        parts.len() >= 1,
        parts_wf(a, parts),
        parts_contiguous(a, parts),
    ensures
        min_start_rank(a, parts) == rank(a, parts[0].start@),
        max_end_rank(a, parts) == rank(a, parts[parts.len() - 1].end@),
    decreases parts.len(),
{
    if parts.len() > 1 {
        let t = parts.drop_last();
        assert(parts_wf(a, t) && parts_contiguous(a, t)) by {
            assert(forall|i: int| 0 <= i < t.len() ==> t[i] == parts[i]);
        }
        lemma_sorted_min_max(a, t);
        lemma_links_pair(a, parts, 0, parts.len() - 1);
        lemma_links_pair(a, parts, parts.len() - 2, parts.len() - 1);
        assert(parts[0].wf());
        assert(parts[parts.len() - 2].wf());
        assert(t[t.len() - 1] == parts[parts.len() - 2]);
    }
}

/// In a gap-free run of well-formed parts, every earlier part ends
/// before every later part starts.
pub proof fn lemma_links_pair(a: Seq<char>, parts: Seq<PartOfAProblem>, i: int, j: int)
    requires
        parts_wf(a, parts),
        parts_contiguous(a, parts),
        0 <= i < j < parts.len(),
    ensures
        rank(a, parts[i].end@) < rank(a, parts[j].start@),
    decreases j - i,
{
    if j == i + 1 {
        assert(rank(a, parts[i].end@) + 1 == rank(a, parts[j].start@));
    } else {
        lemma_links_pair(a, parts, i, j - 1);
        assert(rank(a, parts[j - 1].end@) + 1 == rank(a, parts[j].start@));
        assert(parts[j - 1].wf());
    }
}

/// A contiguous run is separated in the order-free sense.
pub proof fn lemma_contiguous_separated(a: Seq<char>, parts: Seq<PartOfAProblem>)
    requires
        parts_wf(a, parts),
        parts_contiguous(a, parts),
    ensures
        parts_separated(a, parts),
{
    assert forall|i: int, j: int|
        0 <= i < parts.len() && 0 <= j < parts.len() && i != j implies (rank(
        a,
        (#[trigger] parts[i]).end@,
    ) < rank(a, (#[trigger] parts[j]).start@) || rank(a, parts[j].end@) < rank(
        a,
        parts[i].start@,
    )) by {
        if i < j {
            lemma_links_pair(a, parts, i, j);
        } else {
            lemma_links_pair(a, parts, j, i);
        }
    }
}

/// Collapses parts that together tile one range, in whatever order they
/// stand, into one not-yet-distributed part from the lowest start to
/// the highest end: the sorted run's span. The parts must not overlap,
/// and their sizes must add up to that span, so that no candidate is
/// lost or counted twice.
pub fn merge_parts(parts: &Vec<PartOfAProblem>) -> (merged: PartOfAProblem)
    requires
        parts@.len() >= 1,
        parts_wf(parts@[0].alphabet@, parts@),
        parts_separated(parts@[0].alphabet@, parts@),
        forall|i: int| 0 <= i < parts@.len() ==> (#[trigger] parts@[i]).hash@ == parts@[0].hash@,
        crate::problem::seq_sum(sizes_of(parts@)) == max_end_rank(parts@[0].alphabet@, parts@)
            - min_start_rank(parts@[0].alphabet@, parts@) + 1,
    ensures
        crate::alpha::in_alpha(parts@[0].alphabet@, merged.start@),
        crate::alpha::in_alpha(parts@[0].alphabet@, merged.end@),
        rank(parts@[0].alphabet@, merged.start@) == min_start_rank(parts@[0].alphabet@, parts@),
        rank(parts@[0].alphabet@, merged.end@) == max_end_rank(parts@[0].alphabet@, parts@),
        merged.alphabet@ == parts@[0].alphabet@,
        merged.hash@ == parts@[0].hash@,
        merged.state == PartOfAProblemState::NotDistributed,
        merged.wf(),
        merged.spec_size() == crate::problem::seq_sum(sizes_of(parts@)),
{
    let ghost a = parts@[0].alphabet@;
    let n = parts.len();
    let mut min_i: usize = 0;
    let mut min_r = rank_of_str(parts[0].alphabet.as_str(), parts[0].start.as_str());
    let mut max_i: usize = 0;
    let mut max_r = rank_of_str(parts[0].alphabet.as_str(), parts[0].end.as_str());
    let mut j: usize = 1;
    proof {
        assert(parts@.subrange(0, 1) =~= seq![parts@[0]]);
    }
    while j < n
        invariant
            a == parts@[0].alphabet@,
            n == parts@.len(),
            parts_wf(a, parts@),
            1 <= j <= n,
            min_i < j,
            max_i < j,
            min_r == rank(a, parts@[min_i as int].start@),
            max_r == rank(a, parts@[max_i as int].end@),
            min_r == min_start_rank(a, parts@.subrange(0, j as int)),
            max_r == max_end_rank(a, parts@.subrange(0, j as int)),
        decreases n - j,
    {
        let ghost pre = parts@.subrange(0, j as int);
        let ghost cur = parts@.subrange(0, j + 1);
        proof {
            assert(cur.drop_last() =~= pre);
            assert(cur.last() == parts@[j as int]);
            assert(parts@[j as int].wf());
        }
        let sj = rank_of_str(parts[0].alphabet.as_str(), parts[j].start.as_str());
        let ej = rank_of_str(parts[0].alphabet.as_str(), parts[j].end.as_str());
        proof {
            assert(parts@[j as int].alphabet@ == a);
        }
        if sj < min_r {
            min_i = j;
            min_r = sj;
        }
        if ej > max_r {
            max_i = j;
            max_r = ej;
        }
        j += 1;
    }
    proof {
        assert(parts@.subrange(0, n as int) =~= parts@);
        lemma_min_max_bounds(a, parts@);
        assert(parts@[min_i as int].wf());
        assert(parts@[max_i as int].wf());
    }
    let merged = PartOfAProblem {
        start: parts[min_i].start.clone(),
        end: parts[max_i].end.clone(),
        alphabet: parts[0].alphabet.clone(),
        hash: parts[0].hash.clone(),
        state: PartOfAProblemState::NotDistributed,
    };
    merged
}

/// Whether the part's range shares a rank with `[u_lo, u_hi]`.
pub open spec fn overlaps(a: Seq<char>, p: PartOfAProblem, u_lo: int, u_hi: int) -> bool {
    u_lo <= rank(a, p.end@) && rank(a, p.start@) <= u_hi
}

/// Whether `[u_lo, u_hi]` meets any part of the map.
pub open spec fn intersects_any(
    a: Seq<char>,
    parts: Seq<PartOfAProblem>,
    u_lo: int,
    u_hi: int,
) -> bool {
    exists|i: int| 0 <= i < parts.len() && overlaps(a, #[trigger] parts[i], u_lo, u_hi)
}

/// Coverage of the map clipped against `[u_lo, u_hi]`: where the old map
/// covered a rank inside it, the state becomes `u_state`; elsewhere it
/// is unchanged; ranks inside it the old map never covered stay
/// uncovered.
pub open spec fn clipped_cover(
    a: Seq<char>,
    olds: Seq<PartOfAProblem>,
    u_lo: int,
    u_hi: int,
    u_state: PartOfAProblemState,
    r: int,
) -> Option<PartOfAProblemState> {
    if covered_state(a, olds, r).is_some() {
        if u_lo <= r <= u_hi {
            Some(u_state)
        } else {
            covered_state(a, olds, r)
        }
    } else {
        None
    }
}

/// What the map shows at rank `r` after `update_state_of_parts`: the old
/// map clipped against the updated range; except that when that range
/// met no part at all, it joins the map whole.
pub open spec fn updated_cover(
    a: Seq<char>,
    olds: Seq<PartOfAProblem>,
    u_lo: int,
    u_hi: int,
    u_state: PartOfAProblemState,
    r: int,
) -> Option<PartOfAProblemState> {
    if intersects_any(a, olds, u_lo, u_hi) {
        clipped_cover(a, olds, u_lo, u_hi, u_state, r)
    } else if u_lo <= r <= u_hi {
        Some(u_state)
    } else {
        covered_state(a, olds, r)
    }
}

/// Extending a prefix of the map by one part extends what it may cover.
proof fn lemma_intersects_step(
    a: Seq<char>,
    olds: Seq<PartOfAProblem>,
    u_lo: int,
    u_hi: int,
    i: int,
)
    requires
        0 <= i < olds.len(),
    ensures
        intersects_any(a, olds.subrange(0, i + 1), u_lo, u_hi) == (intersects_any(
            a,
            olds.subrange(0, i),
            u_lo,
            u_hi,
        ) || overlaps(a, olds[i], u_lo, u_hi)),
{
    let s = olds.subrange(0, i);
    let s1 = olds.subrange(0, i + 1);
    if intersects_any(a, s1, u_lo, u_hi) {
        let w = choose|j: int| 0 <= j < s1.len() && overlaps(a, #[trigger] s1[j], u_lo, u_hi);
        if w < i {
            assert(overlaps(a, s[w], u_lo, u_hi));
        } else {
            assert(overlaps(a, olds[i], u_lo, u_hi));
        }
    }
    if intersects_any(a, s, u_lo, u_hi) {
        let w = choose|j: int| 0 <= j < s.len() && overlaps(a, #[trigger] s[j], u_lo, u_hi);
        assert(overlaps(a, s1[w], u_lo, u_hi));
    }
    if overlaps(a, olds[i], u_lo, u_hi) {
        assert(overlaps(a, s1[i], u_lo, u_hi));
    }
}

/// Appends the shards of one part clipped against the updated part's
/// range: what lies left of the overlap keeps the part's state, the
/// overlap takes the updated state, and what lies right keeps the
/// part's state again.
#[verifier::rlimit(100)]
fn clip_one(
    new_parts: &mut Vec<PartOfAProblem>,
    part: PartOfAProblem,
    updated_part: &PartOfAProblem,
    p_lo: usize,
    p_hi: usize,
    u_lo: usize,
    u_hi: usize,
)
    requires
        updated_part.wf(),
        part.wf(),
        part.alphabet@ == updated_part.alphabet@,
        p_lo == rank(part.alphabet@, part.start@),
        p_hi == rank(part.alphabet@, part.end@),
        u_lo == rank(part.alphabet@, updated_part.start@),
        u_hi == rank(part.alphabet@, updated_part.end@),
        u_lo <= p_hi,
        p_lo <= u_hi,
    ensures
        final(new_parts)@.len() > old(new_parts)@.len(),
        final(new_parts)@.subrange(0, old(new_parts)@.len() as int) == old(new_parts)@,
        forall|t: int|
            old(new_parts)@.len() <= t < final(new_parts)@.len() ==> {
                let q = #[trigger] final(new_parts)@[t];
                &&& q.wf()
                &&& q.alphabet@ == part.alphabet@
                &&& p_lo <= rank(part.alphabet@, q.start@)
                &&& rank(part.alphabet@, q.end@) <= p_hi
            },
        forall|t: int, t2: int|
            old(new_parts)@.len() <= t < t2 < final(new_parts)@.len() ==> rank(
                part.alphabet@,
                (#[trigger] final(new_parts)@[t]).end@,
            ) < rank(part.alphabet@, (#[trigger] final(new_parts)@[t2]).start@),
        rank(part.alphabet@, final(new_parts)@[final(new_parts)@.len() - 1].end@) == p_hi,
        forall|r: int|
            #[trigger] covered_state(part.alphabet@, final(new_parts)@, r) == (if covered_state(
                part.alphabet@,
                old(new_parts)@,
                r,
            ).is_some() {
                covered_state(part.alphabet@, old(new_parts)@, r)
            } else if p_lo <= r <= p_hi {
                if u_lo <= r <= u_hi {
                    Some(updated_part.state)
                } else {
                    Some(part.state)
                }
            } else {
                None
            }),
{
    let ghost a = part.alphabet@;
    let ghost pre = new_parts@;
    let ghost mid0 = new_parts@;
    if u_lo > p_lo {
        let left = PartOfAProblem {
            start: part.start.clone(),
            end: str_of_rank(updated_part.alphabet.as_str(), u_lo - 1),
            alphabet: part.alphabet.clone(),
            hash: part.hash.clone(),
            state: part.state,
        };
        new_parts.push(left);
        proof {
            assert(new_parts@.drop_last() =~= mid0);
        }
    }
    let ghost mid1 = new_parts@;
    let m_start = if u_lo > p_lo {
        updated_part.start.clone()
    } else {
        part.start.clone()
    };
    let m_end = if u_hi < p_hi {
        updated_part.end.clone()
    } else {
        part.end.clone()
    };
    let middle = PartOfAProblem {
        start: m_start,
        end: m_end,
        alphabet: part.alphabet.clone(),
        hash: part.hash.clone(),
        state: updated_part.state,
    };
    new_parts.push(middle);
    proof {
        assert(new_parts@.drop_last() =~= mid1);
    }
    let ghost mid2 = new_parts@;
    if u_hi < p_hi {
        let right = PartOfAProblem {
            start: str_of_rank(updated_part.alphabet.as_str(), u_hi + 1),
            end: part.end.clone(),
            alphabet: part.alphabet.clone(),
            hash: part.hash.clone(),
            state: part.state,
        };
        new_parts.push(right);
        proof {
            assert(new_parts@.drop_last() =~= mid2);
        }
    }
    proof {
        assert(new_parts@.subrange(0, pre.len() as int) =~= pre);
        assert forall|r: int|
            #[trigger] covered_state(a, new_parts@, r) == (if covered_state(
                a,
                pre,
                r,
            ).is_some() {
                covered_state(a, pre, r)
            } else if p_lo <= r <= p_hi {
                if u_lo <= r <= u_hi {
                    Some(updated_part.state)
                } else {
                    Some(part.state)
                }
            } else {
                None
            }) by {
            if u_lo > p_lo {
                lemma_covered_push(a, mid0, mid1[mid1.len() - 1], r);
            }
            lemma_covered_push(a, mid1, mid2[mid2.len() - 1], r);
            if u_hi < p_hi {
                lemma_covered_push(a, mid2, new_parts@[new_parts@.len() - 1], r);
            }
        }
    }
}

/// One clipping step where the next part misses the updated range:
/// the part joins the output whole and coverage extends by it.
proof fn lemma_cover_step_nooverlap(
    a: Seq<char>,
    processed: Seq<PartOfAProblem>,
    nxt: PartOfAProblem,
    u_lo: int,
    u_hi: int,
    u_state: PartOfAProblemState,
    pre: Seq<PartOfAProblem>,
    post: Seq<PartOfAProblem>,
)
    requires
        post == pre.push(nxt),
        forall|r: int|
            #[trigger] covered_state(a, pre, r) == clipped_cover(a, processed, u_lo, u_hi, u_state, r),
        !overlaps(a, nxt, u_lo, u_hi),
        nxt.wf(),
        nxt.alphabet@ == a,
    ensures
        forall|r: int|
            #[trigger] covered_state(a, post, r) == clipped_cover(a, processed.push(nxt), u_lo, u_hi, u_state, r),
{
    assert forall|r: int|
        #[trigger] covered_state(a, post, r) == clipped_cover(a, processed.push(nxt), u_lo, u_hi, u_state, r) by {
        lemma_covered_push(a, pre, nxt, r);
        assert(processed.push(nxt) =~= processed + seq![nxt]);
        lemma_covered_concat(a, processed, seq![nxt], r);
        lemma_covered_single(a, nxt, r);
    }
}

/// One clipping step where the next part meets the updated range: the
/// clipped shards extend the output, keep it sorted and disjoint, and
/// coverage extends by the relabelled part.
proof fn lemma_cover_step_overlap(
    a: Seq<char>,
    processed: Seq<PartOfAProblem>,
    nxt: PartOfAProblem,
    u_state: PartOfAProblemState,
    pre: Seq<PartOfAProblem>,
    post: Seq<PartOfAProblem>,
    p_lo: int,
    p_hi: int,
    u_lo: int,
    u_hi: int,
)
    requires
        nxt.wf(),
        nxt.alphabet@ == a,
        p_lo == rank(a, nxt.start@),
        p_hi == rank(a, nxt.end@),
        u_lo <= p_hi,
        p_lo <= u_hi,
        parts_wf(a, pre),
        parts_disjoint(a, pre),
        pre.len() > 0 ==> rank(a, pre[pre.len() - 1].end@) < p_lo,
        forall|r: int|
            #[trigger] covered_state(a, pre, r) == clipped_cover(
                a,
                processed,
                u_lo,
                u_hi,
                u_state,
                r,
            ),
        post.len() > pre.len(),
        post.subrange(0, pre.len() as int) == pre,
        forall|t: int|
            pre.len() <= t < post.len() ==> {
                let q = #[trigger] post[t];
                &&& q.wf()
                &&& q.alphabet@ == a
                &&& p_lo <= rank(a, q.start@)
                &&& rank(a, q.end@) <= p_hi
            },
        forall|t: int, t2: int|
            pre.len() <= t < t2 < post.len() ==> rank(a, (#[trigger] post[t]).end@) < rank(
                a,
                (#[trigger] post[t2]).start@,
            ),
        forall|r: int|
            #[trigger] covered_state(a, post, r) == (if covered_state(a, pre, r).is_some() {
                covered_state(a, pre, r)
            } else if p_lo <= r <= p_hi {
                if u_lo <= r <= u_hi {
                    Some(u_state)
                } else {
                    Some(nxt.state)
                }
            } else {
                None
            }),
    ensures
        parts_wf(a, post),
        parts_disjoint(a, post),
        forall|r: int|
            #[trigger] covered_state(a, post, r) == clipped_cover(
                a,
                processed.push(nxt),
                u_lo,
                u_hi,
                u_state,
                r,
            ),
{
    assert forall|t: int| 0 <= t < pre.len() implies post[t] == pre[t] by {
        assert(post.subrange(0, pre.len() as int)[t] == post[t]);
    }
    assert(parts_wf(a, post));
    assert(parts_disjoint(a, post)) by {
        assert forall|x: int, y: int|
            0 <= x < y < post.len() implies rank(a, (#[trigger] post[x]).end@) < rank(
            a,
            (#[trigger] post[y]).start@,
        ) by {
            if y < pre.len() {
            } else if x < pre.len() {
                if x < pre.len() - 1 {
                    assert(rank(a, pre[x].end@) < rank(a, pre[pre.len() - 1].start@));
                    assert(pre[pre.len() - 1].wf());
                }
            }
        }
    }
    assert forall|r: int|
        #[trigger] covered_state(a, post, r) == clipped_cover(
            a,
            processed.push(nxt),
            u_lo,
            u_hi,
            u_state,
            r,
        ) by {
        assert(processed.push(nxt) =~= processed + seq![nxt]);
        lemma_covered_concat(a, processed, seq![nxt], r);
        lemma_covered_single(a, nxt, r);
    }
}

/// Inserting the updated part whole into a map it meets nowhere keeps
/// the map sorted and disjoint and covers exactly its own range more.
proof fn lemma_insert_whole(
    a: Seq<char>,
    olds: Seq<PartOfAProblem>,
    e: PartOfAProblem,
    pos: int,
    post: Seq<PartOfAProblem>,
    u_lo: int,
    u_hi: int,
)
    requires
        e.wf(),
        e.alphabet@ == a,
        u_lo == rank(a, e.start@),
        u_hi == rank(a, e.end@),
        parts_wf(a, olds),
        parts_disjoint(a, olds),
        !intersects_any(a, olds, u_lo, u_hi),
        0 <= pos <= olds.len(),
        post == olds.insert(pos, e),
        forall|j: int| 0 <= j < pos ==> rank(a, (#[trigger] olds[j]).end@) < u_lo,
        forall|j: int| pos <= j < olds.len() ==> u_hi < rank(a, (#[trigger] olds[j]).start@),
    ensures
        parts_wf(a, post),
        parts_disjoint(a, post),
        forall|r: int|
            #[trigger] covered_state(a, post, r) == updated_cover(a, olds, u_lo, u_hi, e.state, r),
{
    let s1 = olds.subrange(0, pos);
    let s2 = olds.subrange(pos, olds.len() as int);
    olds.insert_ensures(pos, e);
    assert(post =~= s1 + (seq![e] + s2));
    assert(olds =~= s1 + s2);
    assert(parts_wf(a, post)) by {
        assert forall|t: int| 0 <= t < post.len() implies (#[trigger] post[t]).wf()
            && post[t].alphabet@ == a by {
            if t < pos {
                assert(post[t] == olds[t]);
            } else if t > pos {
                assert(post[t] == olds[t - 1]);
            }
        }
    }
    assert(parts_disjoint(a, post)) by {
        assert forall|x: int, y: int|
            0 <= x < y < post.len() implies rank(a, (#[trigger] post[x]).end@) < rank(
            a,
            (#[trigger] post[y]).start@,
        ) by {
            if x < pos {
                assert(post[x] == olds[x]);
            }
            if y < pos {
                assert(post[y] == olds[y]);
            }
            if x > pos {
                assert(post[x] == olds[x - 1]);
                assert(olds[x - 1].wf());
            }
            if y > pos {
                assert(post[y] == olds[y - 1]);
                assert(olds[y - 1].wf());
            }
            if y == pos {
                assert(rank(a, olds[x].end@) < u_lo);
                assert(e.wf());
            }
            if x == pos {
                assert(u_hi < rank(a, olds[y - 1].start@));
            }
            if x < pos && y > pos {
                assert(rank(a, olds[x].end@) < u_lo);
                assert(u_hi < rank(a, olds[y - 1].start@));
                assert(e.wf());
            }
        }
    }
    assert forall|r: int|
        #[trigger] covered_state(a, post, r) == updated_cover(a, olds, u_lo, u_hi, e.state, r) by {
        lemma_covered_concat(a, s1, seq![e] + s2, r);
        lemma_covered_concat(a, seq![e], s2, r);
        lemma_covered_single(a, e, r);
        lemma_covered_concat(a, s1, s2, r);
        if u_lo <= r <= u_hi {
            assert forall|j: int| 0 <= j < s1.len() implies !covers(a, #[trigger] s1[j], r) by {
                assert(s1[j] == olds[j]);
            }
            lemma_covered_none(a, s1, r);
            assert forall|j: int| 0 <= j < s2.len() implies !covers(a, #[trigger] s2[j], r) by {
                assert(s2[j] == olds[pos + j]);
            }
            lemma_covered_none(a, s2, r);
        }
    }
}

/// Clips every part of the sorted map against the updated part's range,
/// relabelling the overlap with the updated state; inserts the updated
/// part whole when it met nothing; then coalesces adjacent parts of one
/// state. The map stays sorted and disjoint, and afterwards shows the
/// updated state exactly on the clipped ranks.
#[verifier::rlimit(100)]
pub fn update_state_of_parts(parts: &mut Vec<PartOfAProblem>, updated_part: &PartOfAProblem)
    requires
        updated_part.wf(),
        parts_wf(updated_part.alphabet@, old(parts)@),
        parts_disjoint(updated_part.alphabet@, old(parts)@),
    ensures
        parts_wf(updated_part.alphabet@, final(parts)@),
        parts_disjoint(updated_part.alphabet@, final(parts)@),
        parts_coalesced(updated_part.alphabet@, final(parts)@),
        forall|r: int|
            #[trigger] covered_state(updated_part.alphabet@, final(parts)@, r) == updated_cover(
                updated_part.alphabet@,
                old(parts)@,
                rank(updated_part.alphabet@, updated_part.start@),
                rank(updated_part.alphabet@, updated_part.end@),
                updated_part.state,
                r,
            ),
{
    let ghost a = updated_part.alphabet@;
    let ghost olds = old(parts)@;
    let ghost u_state = updated_part.state;
    let u_lo = rank_of_str(updated_part.alphabet.as_str(), updated_part.start.as_str());
    let u_hi = rank_of_str(updated_part.alphabet.as_str(), updated_part.end.as_str());
    let n = parts.len();
    let mut work: Vec<PartOfAProblem> = Vec::new();
    core::mem::swap(parts, &mut work);
    let mut new_parts: Vec<PartOfAProblem> = Vec::new();
    let mut updated = false;
    let mut i: usize = 0;
    proof {
        assert(olds.subrange(0, 0) =~= Seq::<PartOfAProblem>::empty());
        assert(work@ == olds.subrange(0, n as int));
    }
    while i < n
        invariant
            a == updated_part.alphabet@,
            u_state == updated_part.state,
            updated_part.wf(),
            u_lo == rank(a, updated_part.start@),
            u_hi == rank(a, updated_part.end@),
            work@ == olds.subrange(i as int, n as int),
            olds == old(parts)@,
            n == olds.len(),
            parts_wf(a, olds),
            parts_disjoint(a, olds),
            i <= n,
            parts_wf(a, new_parts@),
            parts_disjoint(a, new_parts@),
            updated == intersects_any(a, olds.subrange(0, i as int), u_lo as int, u_hi as int),
            forall|r: int|
                #[trigger] covered_state(a, new_parts@, r) == clipped_cover(
                    a,
                    olds.subrange(0, i as int),
                    u_lo as int,
                    u_hi as int,
                    u_state,
                    r,
                ),
            i > 0 ==> new_parts@.len() > 0,
            new_parts@.len() > 0 && i > 0 ==> rank(
                a,
                new_parts@[new_parts@.len() - 1].end@,
            ) <= rank(a, olds[i - 1].end@),
            updated ==> i > 0,
            !updated ==> new_parts@ == olds.subrange(0, i as int),
        decreases n - i,
    {
        let ghost pre = new_parts@;
        let ghost processed = olds.subrange(0, i as int);
        let ghost processed1 = olds.subrange(0, i + 1);
        proof {
            assert(processed1 =~= processed + seq![olds[i as int]]);
            assert(processed1.drop_last() =~= processed);
            assert(olds[i as int].wf());
            assert(work@[0] == olds[i as int]);
            lemma_intersects_step(a, olds, u_lo as int, u_hi as int, i as int);
        }
        let part = work.remove(0);
        proof {
            assert(work@ =~= olds.subrange(i + 1, n as int));
        }
        let p_lo = rank_of_str(updated_part.alphabet.as_str(), part.start.as_str());
        let p_hi = rank_of_str(updated_part.alphabet.as_str(), part.end.as_str());
        if u_hi < p_lo || u_lo > p_hi {
            new_parts.push(part);
            proof {
                assert(!overlaps(a, olds[i as int], u_lo as int, u_hi as int));
                assert(processed1 =~= processed.push(olds[i as int]));
                lemma_cover_step_nooverlap(
                    a,
                    processed,
                    olds[i as int],
                    u_lo as int,
                    u_hi as int,
                    u_state,
                    pre,
                    new_parts@,
                );
                if !updated {
                    assert(new_parts@ =~= processed1);
                }
            }
        } else {
            clip_one(&mut new_parts, part, updated_part, p_lo, p_hi, u_lo, u_hi);
            updated = true;
            proof {
                assert(overlaps(a, olds[i as int], u_lo as int, u_hi as int));
                if pre.len() > 0 {
                    assert(rank(a, olds[i - 1].end@) < rank(a, olds[i as int].start@));
                }
                assert(processed1 =~= processed.push(olds[i as int]));
                lemma_cover_step_overlap(
                    a,
                    processed,
                    olds[i as int],
                    u_state,
                    pre,
                    new_parts@,
                    p_lo as int,
                    p_hi as int,
                    u_lo as int,
                    u_hi as int,
                );
            }
        }
        i += 1;
    }
    proof {
        assert(olds.subrange(0, n as int) =~= olds);
    }
    if !updated {
        let mut pos: usize = 0;
        loop
            invariant
                a == updated_part.alphabet@,
                u_state == updated_part.state,
                updated_part.wf(),
                u_lo == rank(a, updated_part.start@),
                u_hi == rank(a, updated_part.end@),
                new_parts@ == olds,
                parts_wf(a, olds),
                parts_disjoint(a, olds),
                !intersects_any(a, olds, u_lo as int, u_hi as int),
                pos <= olds.len(),
                forall|j: int| 0 <= j < pos ==> rank(a, (#[trigger] olds[j]).end@) < u_lo,
            ensures
                new_parts@ == olds,
                pos <= olds.len(),
                forall|j: int| 0 <= j < pos ==> rank(a, (#[trigger] olds[j]).end@) < u_lo,
                forall|j: int|
                    pos <= j < olds.len() ==> u_hi < rank(a, (#[trigger] olds[j]).start@),
            decreases olds.len() - pos,
        {
            if pos >= new_parts.len() {
                break;
            }
            let e = rank_of_str(updated_part.alphabet.as_str(), new_parts[pos].end.as_str());
            if e >= u_lo {
                proof {
                    assert(!overlaps(a, olds[pos as int], u_lo as int, u_hi as int));
                    assert forall|j: int|
                        pos <= j < olds.len() implies u_hi < rank(
                        a,
                        (#[trigger] olds[j]).start@,
                    ) by {
                        assert(!overlaps(a, olds[j], u_lo as int, u_hi as int));
                        if j > pos {
                            assert(rank(a, olds[pos as int].end@) < rank(a, olds[j].start@));
                        }
                        assert(olds[j].wf());
                    }
                }
                break;
            }
            pos += 1;
        }
        let elem = updated_part.duplicate();
        new_parts.insert(pos, elem);
        proof {
            lemma_insert_whole(
                a,
                olds,
                new_parts@[pos as int],
                pos as int,
                new_parts@,
                u_lo as int,
                u_hi as int,
            );
        }
    }
    let ghost clipped = new_parts@;
    let m = new_parts.len();
    let mut merged: Vec<PartOfAProblem> = Vec::new();
    let mut j: usize = 0;
    proof {
        assert(clipped.subrange(0, 0) =~= Seq::<PartOfAProblem>::empty());
    }
    while j < m
        invariant
            a == updated_part.alphabet@,
            new_parts@ == clipped,
            m == clipped.len(),
            parts_wf(a, clipped),
            parts_disjoint(a, clipped),
            forall|r: int|
                #[trigger] covered_state(a, clipped, r) == updated_cover(
                    a,
                    olds,
                    u_lo as int,
                    u_hi as int,
                    u_state,
                    r,
                ),
            j <= m,
            parts_wf(a, merged@),
            parts_disjoint(a, merged@),
            parts_coalesced(a, merged@),
            j == 0 ==> merged@.len() == 0,
            j > 0 ==> merged@.len() > 0,
            merged@.len() > 0 && j > 0 ==> merged@[merged@.len() - 1].end@ == clipped[j
                - 1].end@ && merged@[merged@.len() - 1].state == clipped[j - 1].state,
            forall|r: int|
                #[trigger] covered_state(a, merged@, r) == covered_state(
                    a,
                    clipped.subrange(0, j as int),
                    r,
                ),
        decreases m - j,
    {
        let ghost prefix = clipped.subrange(0, j as int);
        let ghost prefix1 = clipped.subrange(0, j + 1);
        proof {
            assert(prefix1 =~= prefix + seq![clipped[j as int]]);
            assert(clipped[j as int].wf());
        }
        let cur_lo = rank_of_str(updated_part.alphabet.as_str(), new_parts[j].start.as_str());
        let mut did_merge = false;
        if merged.len() > 0 {
            let li = merged.len() - 1;
            let le = rank_of_str(updated_part.alphabet.as_str(), merged[li].end.as_str());
            let same = merged[li].state == new_parts[j].state;
            if cur_lo > le && cur_lo - le == 1 && same {
                let ghost pre_m = merged@;
                let popped = merged.pop().unwrap();
                let combined = PartOfAProblem {
                    start: popped.start,
                    end: new_parts[j].end.clone(),
                    alphabet: popped.alphabet,
                    hash: popped.hash,
                    state: popped.state,
                };
                merged.push(combined);
                did_merge = true;
                proof {
                    let m0 = pre_m.drop_last();
                    let last = pre_m[pre_m.len() - 1];
                    let comb = merged@[merged@.len() - 1];
                    assert(merged@.drop_last() =~= m0);
                    assert(pre_m =~= m0.push(last));
                    assert forall|r: int|
                        #[trigger] covered_state(a, merged@, r) == covered_state(
                            a,
                            prefix1,
                            r,
                        ) by {
                        lemma_covered_push(a, m0, comb, r);
                        lemma_covered_push(a, m0, last, r);
                        lemma_covered_concat(a, prefix, seq![clipped[j as int]], r);
                        lemma_covered_single(a, clipped[j as int], r);
                        if covers(a, comb, r) {
                            assert forall|x: int| 0 <= x < m0.len() implies !covers(
                                a,
                                #[trigger] m0[x],
                                r,
                            ) by {
                                assert(m0[x] == pre_m[x]);
                                assert(rank(a, pre_m[x].end@) < rank(a, last.start@));
                                assert(pre_m[x].wf());
                            }
                            lemma_covered_none(a, m0, r);
                        }
                    }
                }
            }
        }
        if !did_merge {
            let ghost entry_m = merged@;
            let copy = new_parts[j].duplicate();
            merged.push(copy);
            proof {
                assert(merged@.drop_last() =~= entry_m);
                assert forall|r: int|
                    #[trigger] covered_state(a, merged@, r) == covered_state(a, prefix1, r) by {
                    lemma_covered_push(a, entry_m, merged@[merged@.len() - 1], r);
                    lemma_covered_concat(a, prefix, seq![clipped[j as int]], r);
                    lemma_covered_single(a, clipped[j as int], r);
                }
            }
        }
        j += 1;
    }
    proof {
        assert(clipped.subrange(0, m as int) =~= clipped);
    }
    *parts = merged;
}

} // verus!
