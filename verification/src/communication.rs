//! Protocol decisions: power aggregation, task distribution, result
//! aggregation and cancellation.
//!
//! Every function here is a pure state transition from node state and an
//! incoming event to new state and outgoing messages; opening sockets,
//! spawning search workers and waiting on replies happen outside the
//! library, which hands back each peer's outcome as a plain value.

use vstd::prelude::*;
use vstd::string::*;
use crate::messages::{SolveProblemMessage, SolveResponseMessage, StopMessage};
use crate::problem::{PartOfAProblem, PartOfAProblemState};
use crate::parts::{
    merge_parts, update_state_of_parts, updated_cover, covered_state, parts_wf, parts_disjoint,
    parts_coalesced,
};
use crate::utils::{
    Friend, FriendType, Node, NodeState, friend_index, has_friend, lemma_friend_index,
    lemma_friend_index_found, lemma_has_friend_push, lemma_friend_index_same_addresses,
};
use crate::alpha::rank;

verus! {

/// The power of the children among the first `j` friends.
pub open spec fn sum_child_power(friends: Seq<Friend>, j: int) -> int
    decreases j,
{
    if j <= 0 {
        0
    } else {
        sum_child_power(friends, j - 1) + (if friends[j - 1].friend_type == FriendType::Child {
            friends[j - 1].power as int
        } else {
            0
        })
    }
}

/// Accepts an inbound power-aggregation request on an idle node: the
/// sender becomes a peer if it was none, and this node becomes a worker
/// with the sender as parent. On a busy node nothing changes and the
/// caller only acknowledges.
pub fn accept_calc(node: &mut Node, from: &str) -> (accepted: bool)
    ensures
        accepted == (old(node).state is IDLE),
        final(node).address == old(node).address,
        final(node).communicating == old(node).communicating,
        final(node).power == old(node).power,
        final(node).stop_flag == old(node).stop_flag,
        final(node).solving_part_of_a_problem == old(node).solving_part_of_a_problem,
        !accepted ==> *final(node) == *old(node),
        accepted ==> {
            &&& final(node).state matches NodeState::WORKER { parent } && parent@ == from@
            &&& has_friend(final(node).friends@, from@)
            &&& (crate::utils::unique_addresses(old(node).friends@)
                ==> crate::utils::unique_addresses(final(node).friends@))
            &&& final(node).friends@[friend_index(final(node).friends@, from@)].friend_type
                == FriendType::Parent
            &&& (final(node).friends@.len() == old(node).friends@.len() || final(node).friends@.len()
                == old(node).friends@.len() + 1)
        },
{
    if !node.is_idle() {
        return false;
    }
    let added = node.add_friend(from.to_owned());
    proof {
        if added {
            lemma_has_friend_push(old(node).friends@, node.friends@.last(), from@);
            assert(node.friends@ =~= old(node).friends@.push(node.friends@.last()));
        }
    }
    node.set_state_worker(from.to_owned());
    let ghost before_parent = node.friends@;
    let marked = node.set_parent(from);
    proof {
        assert(marked);
        assert forall|j: int|
            0 <= j < before_parent.len() implies (#[trigger] before_parent[j]).address@
            == node.friends@[j].address@ by {
            let i = friend_index(before_parent, from@);
        }
        lemma_friend_index_same_addresses(before_parent, node.friends@, from@);
        assert(node.friends@[friend_index(before_parent, from@)].friend_type
            == FriendType::Parent);
    }
    true
}

/// Applies one peer's answer to a power query: a positive total marks it
/// as a child contributing that power; no answer drops the peer; a zero
/// answer leaves it as it was.
pub fn apply_calc_outcome(node: &mut Node, address: &str, outcome: Option<u32>)
    ensures
        final(node).address == old(node).address,
        final(node).communicating == old(node).communicating,
        final(node).power == old(node).power,
        final(node).state == old(node).state,
        final(node).stop_flag == old(node).stop_flag,
        final(node).solving_part_of_a_problem == old(node).solving_part_of_a_problem,
        (outcome is None) ==> final(node).friends@ == old(node).friends@.filter(
            crate::utils::keeps(address@),
        ),
        (outcome matches Some(p) && p > 0 && has_friend(old(node).friends@, address@)) ==> ({
            let i = friend_index(old(node).friends@, address@);
            &&& final(node).friends@.len() == old(node).friends@.len()
            &&& (forall|j: int|
                0 <= j < old(node).friends@.len() && j != i ==> final(node).friends@[j] == old(
                    node,
                ).friends@[j])
            &&& final(node).friends@[i].address == old(node).friends@[i].address
            &&& final(node).friends@[i].friend_type == FriendType::Child
            &&& final(node).friends@[i].power == outcome.unwrap()
            &&& final(node).friends@[i].solving_part_of_a_problem == old(
                node,
            ).friends@[i].solving_part_of_a_problem
        }),
        (outcome matches Some(p) && !(p > 0 && has_friend(old(node).friends@, address@)))
            ==> final(node).friends@ == old(node).friends@,
{
    if outcome.is_none() {
        node.remove_friend(address);
        return ;
    }
    let p = outcome.unwrap();
    {
        {
            if p > 0 {
                proof {
                    lemma_friend_index(node.friends@, address@);
                }
                let ghost olds = node.friends@;
                let n = node.friends.len();
                let mut i: usize = 0;
                while i < n
                    invariant
                        outcome == Some(p),
                        p > 0,
                        olds == old(node).friends@,
                        olds == node.friends@,
                        node.address == old(node).address,
                        node.communicating == old(node).communicating,
                        node.power == old(node).power,
                        node.state == old(node).state,
                        node.stop_flag == old(node).stop_flag,
                        node.solving_part_of_a_problem == old(node).solving_part_of_a_problem,
                        n == olds.len(),
                        i <= n,
                        forall|j: int| 0 <= j < i ==> (#[trigger] olds[j]).address@ != address@,
                    decreases n - i,
                {
                    if crate::alpha::str_eq(node.friends[i].address.as_str(), address) {
                        proof {
                            lemma_friend_index_found(olds, address@, i as int);
                        }
                        let f = node.friends.remove(i);
                        let marked = Friend {
                            address: f.address,
                            power: p,
                            friend_type: FriendType::Child,
                            solving_part_of_a_problem: f.solving_part_of_a_problem,
                        };
                        let ghost marked_v = marked;
                        node.friends.insert(i, marked);
                        proof {
                            olds.remove(i as int).insert_ensures(i as int, marked_v);
                            olds.remove_ensures(i as int);
                            assert(node.friends@[i as int] == marked_v);
                            assert forall|j: int|
                                0 <= j < olds.len() && j != i implies node.friends@[j]
                                == olds[j] by {
                                assert(node.friends@ == olds.remove(i as int).insert(
                                    i as int,
                                    node.friends@[i as int],
                                ));
                            }
                            assert(friend_index(old(node).friends@, address@) == i as int);
                        }
                        return ;
                    }
                    i += 1;
                }
                proof {
                    if has_friend(olds, address@) {
                        let w = friend_index(olds, address@);
                        assert(olds[w].address@ == address@);
                    }
                }
            }
        }
    }
}

/// The node's total power: its own plus every child's reported power.
pub fn calculate_total_power(node: &Node) -> (total: u32)
    requires
        node.power + sum_child_power(node.friends@, node.friends@.len() as int) <= u32::MAX,
    ensures
        total == node.power + sum_child_power(node.friends@, node.friends@.len() as int),
{
    let n = node.friends.len();
    let mut total: u32 = node.power;
    let mut i: usize = 0;
    while i < n
        invariant
            n == node.friends@.len(),
            i <= n,
            node.power + sum_child_power(node.friends@, n as int) <= u32::MAX,
            total == node.power + sum_child_power(node.friends@, i as int),
        decreases n - i,
    {
        proof {
            lemma_sum_child_power_prefix(node.friends@, i + 1, n as int);
        }
        match node.friends[i].friend_type {
            FriendType::Child => {
                total = total + node.friends[i].power;
            },
            _ => {},
        }
        i += 1;
    }
    total
}

/// Sums over longer prefixes only grow.
proof fn lemma_sum_child_power_prefix(friends: Seq<Friend>, j: int, m: int)
    requires
        0 <= j <= m <= friends.len(),
    ensures
        sum_child_power(friends, j) <= sum_child_power(friends, m),
    decreases m - j,
{
    if j < m {
        lemma_sum_child_power_prefix(friends, j + 1, m);
    }
}

/// Sets this node's stop flag and addresses a stop message to every
/// child, one per child, in peer order.
pub fn handle_stop(node: &mut Node) -> (msgs: Vec<StopMessage>)
    ensures
        final(node).address == old(node).address,
        final(node).friends == old(node).friends,
        final(node).communicating == old(node).communicating,
        final(node).power == old(node).power,
        final(node).state == old(node).state,
        final(node).solving_part_of_a_problem == old(node).solving_part_of_a_problem,
        final(node).stop_flag == true,
        msgs@.len() == count_children(old(node).friends@, old(node).friends@.len() as int),
        forall|k: int|
            0 <= k < msgs@.len() ==> (#[trigger] msgs@[k]).from@ == old(node).address@,
        forall|k: int|
            0 <= k < old(node).friends@.len() && old(node).friends@[k].friend_type
                == FriendType::Child ==> msgs@[count_children(old(node).friends@, k)].to@ == (
            #[trigger] old(node).friends@[k]).address@,
{
    node.stop_flag = true;
    let n = node.friends.len();
    let mut msgs: Vec<StopMessage> = Vec::new();
    let mut i: usize = 0;
    while i < n
        invariant
            n == node.friends@.len(),
            i <= n,
            msgs@.len() == count_children(node.friends@, i as int),
            forall|k: int| 0 <= k < msgs@.len() ==> (#[trigger] msgs@[k]).from@ == node.address@,
            forall|k: int|
                0 <= k < i && node.friends@[k].friend_type == FriendType::Child ==> msgs@[
                    count_children(node.friends@, k)
                ].to@ == (#[trigger] node.friends@[k]).address@,
        decreases n - i,
    {
        proof {
            lemma_count_children_bound(node.friends@, i as int);
            assert forall|k: int|
                0 <= k < i && node.friends@[k].friend_type == FriendType::Child implies
                count_children(node.friends@, k) < count_children(node.friends@, i as int) by {
                lemma_count_children_mono(node.friends@, k + 1, i as int);
            }
        }
        match node.friends[i].friend_type {
            FriendType::Child => {
                let m = StopMessage {
                    from: node.address.clone(),
                    to: node.friends[i].address.clone(),
                };
                msgs.push(m);
            },
            _ => {},
        }
        proof {
            assert forall|k: int|
                0 <= k < i + 1 && node.friends@[k].friend_type == FriendType::Child implies
                count_children(node.friends@, k) < msgs@.len() && msgs@[count_children(
                node.friends@,
                k,
            )].to@ == node.friends@[k].address@ by {
                lemma_count_children_bound(node.friends@, k);
                lemma_count_children_mono(node.friends@, k + 1, i as int + 1);
            }
        }
        i += 1;
    }
    msgs
}

/// How many of the first `j` friends are children.
pub open spec fn count_children(friends: Seq<Friend>, j: int) -> int
    decreases j,
{
    if j <= 0 {
        0
    } else {
        count_children(friends, j - 1) + (if friends[j - 1].friend_type == FriendType::Child {
            1int
        } else {
            0int
        })
    }
}

proof fn lemma_count_children_bound(friends: Seq<Friend>, j: int)
    requires
        0 <= j <= friends.len(),
    ensures
        0 <= count_children(friends, j) <= j,
    decreases j,
{
    if j > 0 {
        lemma_count_children_bound(friends, j - 1);
    }
}

/// Counts over longer prefixes only grow.
proof fn lemma_count_children_mono(friends: Seq<Friend>, j: int, m: int)
    requires
        0 <= j <= m <= friends.len(),
    ensures
        count_children(friends, j) <= count_children(friends, m),
    decreases m - j,
{
    if j < m {
        lemma_count_children_mono(friends, j + 1, m);
    }
}

/// What handling a search report decides.
pub enum SolveResponseAction {
    /// A worker passes the report on toward the leader.
    Forward(SolveResponseMessage),
    /// The leader saw a solution: stop the whole tree.
    SolutionFound(String),
    /// The leader folded the searched range into its state map.
    Recorded,
    /// The report could not be used in the current role.
    Ignored,
}

/// The alphabet the leader's state map is kept over: its problem's, or
/// empty before a session is defined.
pub open spec fn node_map_alphabet(node: Node) -> Seq<char> {
    match node.state {
        NodeState::LEADER { problem, parts } => match problem {
            Some(p) => p.alphabet@,
            None => Seq::empty(),
        },
        _ => Seq::empty(),
    }
}

/// The reported range can stand in the leader's map: drawn from its
/// alphabet, in order, and within machine bounds.
pub open spec fn synthetic_part_ok(a: Seq<char>, msg: SolveResponseMessage) -> bool {
    &&& crate::alpha::wf_alphabet(a)
    &&& crate::alpha::in_alpha(a, msg.start@)
    &&& crate::alpha::in_alpha(a, msg.end@)
    &&& rank(a, msg.start@) <= rank(a, msg.end@)
    &&& rank(a, msg.end@) <= usize::MAX
}

/// The state a report labels its range with: searched space is done,
/// abandoned space goes back to the pool.
pub open spec fn response_state(msg: SolveResponseMessage) -> PartOfAProblemState {
    if msg.space_searched {
        PartOfAProblemState::SearchedAndNotFound
    } else {
        PartOfAProblemState::NotDistributed
    }
}

/// Reads the leader's session alphabet.
fn leader_map_alphabet(node: &Node) -> (a: String)
    ensures
        a@ == node_map_alphabet(*node),
{
    match &node.state {
        NodeState::LEADER { problem, parts: _ } => match problem {
            Some(p) => p.alphabet.clone(),
            None => String::new(),
        },
        _ => String::new(),
    }
}

/// A worker forwards a report to its parent unchanged (intermediate
/// nodes never merge); the leader either stops everything on a solution
/// or relabels the reported range in its state map: searched space
/// becomes `SearchedAndNotFound`, abandoned space becomes
/// `NotDistributed` again. An idle node, which holds no session, leaves
/// everything as it was and the caller only acknowledges.
pub fn handle_solve_response_message(node: &mut Node, msg: &SolveResponseMessage) -> (act:
    SolveResponseAction)
    requires
        ({
            let a = node_map_alphabet(*old(node));
            (old(node).state is LEADER && msg.solution is None) ==> {
                &&& (old(node).state matches NodeState::LEADER { problem, parts } ==> parts_wf(
                    a,
                    parts@,
                ) && parts_disjoint(a, parts@))
                &&& synthetic_part_ok(a, *msg)
            }
        }),
    ensures
        final(node).address == old(node).address,
        final(node).friends == old(node).friends,
        final(node).communicating == old(node).communicating,
        final(node).power == old(node).power,
        final(node).solving_part_of_a_problem == old(node).solving_part_of_a_problem,
        match act {
            SolveResponseAction::Forward(fwd) => {
                &&& *final(node) == *old(node)
                &&& (old(node).state matches NodeState::WORKER { parent } && fwd.to@ == parent@)
                &&& fwd.from@ == old(node).address@
                &&& fwd.start@ == msg.start@
                &&& fwd.end@ == msg.end@
                &&& (fwd.solution is Some) == (msg.solution is Some)
                &&& (match (fwd.solution, msg.solution) {
                    (Some(x), Some(y)) => x@ == y@,
                    _ => true,
                })
                &&& fwd.space_searched == msg.space_searched
            },
            SolveResponseAction::Ignored => *final(node) == *old(node) && old(node).state is IDLE,
            SolveResponseAction::SolutionFound(s) => {
                &&& old(node).state is LEADER
                &&& (msg.solution matches Some(sol) && s@ == sol@)
                &&& final(node).stop_flag == true
                &&& final(node).state == old(node).state
            },
            SolveResponseAction::Recorded => {
                &&& old(node).state is LEADER
                &&& msg.solution is None
                &&& final(node).stop_flag == old(node).stop_flag
                &&& ({
                    let a = node_map_alphabet(*old(node));
                    &&& (final(node).state matches NodeState::LEADER { problem, parts }
                        && (old(node).state matches NodeState::LEADER {
                        problem: old_problem,
                        parts: old_parts,
                    } && problem == old_problem && parts_wf(a, parts@) && parts_disjoint(
                        a,
                        parts@,
                    ) && parts_coalesced(a, parts@) && (forall|r: int|
                        #[trigger] covered_state(a, parts@, r) == updated_cover(
                            a,
                            old_parts@,
                            rank(a, msg.start@),
                            rank(a, msg.end@),
                            response_state(*msg),
                            r,
                        ))))
                })
            },
        },
{
    if node.is_idle() {
        return SolveResponseAction::Ignored;
    }
    if !node.is_leader() {
        let parent = match &node.state {
            NodeState::WORKER { parent } => parent.clone(),
            _ => String::new(),
        };
        let fwd = SolveResponseMessage {
            from: node.address.clone(),
            to: parent,
            start: msg.start.clone(),
            end: msg.end.clone(),
            solution: match &msg.solution {
                Some(s) => Some(s.clone()),
                None => None,
            },
            space_searched: msg.space_searched,
        };
        return SolveResponseAction::Forward(fwd);
    }
    match &msg.solution {
        Some(s) => {
            let found = s.clone();
            node.stop_flag = true;
            SolveResponseAction::SolutionFound(found)
        },
        None => {
            let alphabet = leader_map_alphabet(node);
            let synthetic = PartOfAProblem {
                start: msg.start.clone(),
                end: msg.end.clone(),
                alphabet,
                hash: String::new(),
                state: if msg.space_searched {
                    PartOfAProblemState::SearchedAndNotFound
                } else {
                    PartOfAProblemState::NotDistributed
                },
            };
            let mut st = NodeState::IDLE;
            core::mem::swap(&mut node.state, &mut st);
            match st {
                NodeState::LEADER { problem, parts } => {
                    let mut map = parts;
                    update_state_of_parts(&mut map, &synthetic);
                    node.state = NodeState::LEADER { problem, parts: map };
                },
                other => {
                    node.state = other;
                },
            }
            SolveResponseAction::Recorded
        },
    }
}

/// A friend that takes part of the work: a child that reported power.
pub open spec fn eligible(f: Friend) -> bool {
    f.friend_type == FriendType::Child && f.power > 0
}

/// Where friend `j`'s block of parts begins; block 0 is the node's own.
pub open spec fn chunk_base(friends: Seq<Friend>, j: int) -> int
    decreases j,
{
    if j <= 0 {
        1
    } else {
        chunk_base(friends, j - 1) + (if eligible(friends[j - 1]) {
            friends[j - 1].power as int
        } else {
            0
        })
    }
}

/// Every eligible friend up to `j` has a block that fits in the parts.
pub open spec fn fits_upto(friends: Seq<Friend>, parts_len: int, j: int) -> bool {
    forall|k: int|
        0 <= k <= j && eligible(#[trigger] friends[k]) ==> chunk_base(friends, k)
            + friends[k].power <= parts_len
}

// helper lemmas for the block accounting
proof fn lemma_fits_extend(olds: Seq<Friend>, plen: int, j: int)
    requires
        0 <= j,
        fits_upto(olds, plen, j - 1),
        eligible(olds[j]) ==> chunk_base(olds, j) + olds[j].power <= plen,
    ensures
        fits_upto(olds, plen, j),
{
    assert forall|k: int|
        0 <= k <= j && eligible(#[trigger] olds[k]) implies chunk_base(olds, k) + olds[k].power
        <= plen by {
        if k < j {
            assert(fits_upto(olds, plen, j - 1));
        }
    }
}

proof fn lemma_unfits_forever(olds: Seq<Friend>, plen: int, j: int, m: int)
    requires
        0 <= j <= m,
        eligible(olds[j]),
        chunk_base(olds, j) + olds[j].power > plen,
    ensures
        !fits_upto(olds, plen, m),
{
    assert(!(chunk_base(olds, j) + olds[j].power <= plen));
}

proof fn lemma_unfits_monotone(olds: Seq<Friend>, plen: int, m1: int, m2: int)
    requires
        m1 <= m2,
        !fits_upto(olds, plen, m1),
    ensures
        !fits_upto(olds, plen, m2),
{
    if fits_upto(olds, plen, m2) {
        assert forall|k: int|
            0 <= k <= m1 && eligible(#[trigger] olds[k]) implies chunk_base(olds, k)
            + olds[k].power <= plen by {
            assert(fits_upto(olds, plen, m2));
        }
    }
}

/// Block bases never move backwards.
proof fn lemma_chunk_base_mono(friends: Seq<Friend>, j: int, m: int)
    requires
        0 <= j <= m,
    ensures
        chunk_base(friends, j) <= chunk_base(friends, m),
        chunk_base(friends, j) >= 1,
    decreases m - j + j,
{
    if j > 0 {
        lemma_chunk_base_mono(friends, j - 1, j - 1);
    }
    if j < m {
        lemma_chunk_base_mono(friends, j, m - 1);
    }
}

/// Merges the block `parts[idx .. idx + p]` into one part.
fn merge_block(parts: &Vec<PartOfAProblem>, idx: usize, p: usize) -> (merged: PartOfAProblem)
    requires
        parts@.len() > 0,
        crate::parts::parts_wf(parts@[0].alphabet@, parts@),
        crate::parts::parts_contiguous(parts@[0].alphabet@, parts@),
        forall|i: int| 0 <= i < parts@.len() ==> (#[trigger] parts@[i]).hash@ == parts@[0].hash@,
        1 <= p,
        idx + p <= parts@.len(),
    ensures
        merged.start@ == parts@[idx as int].start@,
        merged.end@ == parts@[idx + p - 1].end@,
        merged.alphabet@ == parts@[0].alphabet@,
        merged.hash@ == parts@[0].hash@,
        merged.state == PartOfAProblemState::NotDistributed,
{
    let ghost a0 = parts@[0].alphabet@;
    let total = parts.len();
    let mut chunk: Vec<PartOfAProblem> = Vec::new();
    let mut t: usize = 0;
    while t < p
        invariant
            t <= p,
            total == parts@.len(),
            idx + p <= parts@.len(),
            a0 == parts@[0].alphabet@,
            crate::parts::parts_wf(a0, parts@),
            crate::parts::parts_contiguous(a0, parts@),
            forall|i: int| 0 <= i < parts@.len() ==> (#[trigger] parts@[i]).hash@ == parts@[0].hash@,
            chunk@.len() == t,
            forall|q: int| 0 <= q < t ==> (#[trigger] chunk@[q]).same_as(&parts@[idx + q]),
        decreases p - t,
    {
        chunk.push(parts[idx + t].duplicate());
        t += 1;
    }
    proof {
        assert(chunk@.len() >= 1);
        assert(chunk@[0].same_as(&parts@[idx as int]));
        assert(crate::parts::parts_wf(chunk@[0].alphabet@, chunk@)) by {
            assert forall|q: int|
                0 <= q < chunk@.len() implies (#[trigger] chunk@[q]).wf() && chunk@[q].alphabet@
                == chunk@[0].alphabet@ by {
                assert(chunk@[q].same_as(&parts@[idx + q]));
                assert(parts@[idx + q].wf());
            }
        }
        assert(crate::parts::parts_contiguous(chunk@[0].alphabet@, chunk@)) by {
            assert forall|x: int, y: int|
                0 <= x < y < chunk@.len() && y == x + 1 implies rank(
                chunk@[0].alphabet@,
                (#[trigger] chunk@[x]).end@,
            ) + 1 == rank(chunk@[0].alphabet@, (#[trigger] chunk@[y]).start@) by {
                assert(chunk@[x].same_as(&parts@[idx + x]));
                assert(chunk@[y].same_as(&parts@[idx + y]));
                assert(rank(a0, parts@[idx + x].end@) + 1 == rank(a0, parts@[idx + x + 1].start@));
            }
        }
        assert forall|q: int|
            0 <= q < chunk@.len() implies (#[trigger] chunk@[q]).hash@ == chunk@[0].hash@ by {
            assert(chunk@[q].same_as(&parts@[idx + q]));
        }
        crate::parts::lemma_contiguous_separated(chunk@[0].alphabet@, chunk@);
        crate::parts::lemma_sorted_min_max(chunk@[0].alphabet@, chunk@);
        crate::parts::lemma_contiguous_span(chunk@[0].alphabet@, chunk@);
    }
    let merged = merge_parts(&chunk);
    proof {
        let ca = chunk@[0].alphabet@;
        assert(parts@[idx as int].wf());
        assert(parts@[idx + p - 1].wf());
        crate::alpha::lemma_rank_injective(ca, merged.start@, parts@[idx as int].start@);
        crate::alpha::lemma_rank_injective(ca, merged.end@, parts@[idx + p - 1].end@);
    }
    merged
}

/// Keeps the first part for this node, then hands every eligible friend
/// its own block of consecutive parts, merged into one range, walking
/// the peer list in order until the parts run out. A friend that is
/// served receives exactly the block beginning where the blocks of the
/// eligible friends before it end.
#[verifier::rlimit(100)]
pub fn assign_parts_to_self_and_friends(node: &mut Node, parts: Vec<PartOfAProblem>)
    requires
        parts@.len() > 0 ==> {
            let a0 = parts@[0].alphabet@;
            &&& crate::parts::parts_wf(a0, parts@)
            &&& crate::parts::parts_contiguous(a0, parts@)
            &&& (forall|i: int|
                0 <= i < parts@.len() ==> (#[trigger] parts@[i]).hash@ == parts@[0].hash@)
        },
    ensures
        final(node).address == old(node).address,
        final(node).communicating == old(node).communicating,
        final(node).power == old(node).power,
        final(node).state == old(node).state,
        final(node).stop_flag == old(node).stop_flag,
        parts@.len() == 0 ==> *final(node) == *old(node),
        parts@.len() > 0 ==> {
            &&& (final(node).solving_part_of_a_problem matches Some(p) && p.same_as(&parts@[0]))
            &&& final(node).friends@.len() == old(node).friends@.len()
            &&& (forall|j: int|
                0 <= j < old(node).friends@.len() && eligible(#[trigger] old(node).friends@[j])
                    && fits_upto(old(node).friends@, parts@.len() as int, j) ==> served(
                    old(node).friends@,
                    parts@,
                    final(node).friends@[j],
                    j,
                ))
            &&& (forall|j: int|
                0 <= j < old(node).friends@.len() && !(eligible(#[trigger] old(node).friends@[j])
                    && fits_upto(old(node).friends@, parts@.len() as int, j))
                    ==> final(node).friends@[j] == old(node).friends@[j])
        },
{
    if parts.len() == 0 {
        return ;
    }
    let ghost olds = node.friends@;
    let ghost plen = parts@.len() as int;
    let ghost a0 = parts@[0].alphabet@;
    node.solving_part_of_a_problem = Some(parts[0].duplicate());
    let n = node.friends.len();
    let mut idx: usize = 1;
    let mut stopped = false;
    let mut j: usize = 0;
    while j < n
        invariant
            olds == old(node).friends@,
            node.address == old(node).address,
            node.communicating == old(node).communicating,
            node.power == old(node).power,
            node.state == old(node).state,
            node.stop_flag == old(node).stop_flag,
            (node.solving_part_of_a_problem matches Some(p) && p.same_as(&parts@[0])),
            n == olds.len(),
            node.friends@.len() == n,
            j <= n,
            parts@.len() > 0,
            plen == parts@.len() as int,
            a0 == parts@[0].alphabet@,
            crate::parts::parts_wf(a0, parts@),
            crate::parts::parts_contiguous(a0, parts@),
            forall|i: int| 0 <= i < parts@.len() ==> (#[trigger] parts@[i]).hash@ == parts@[0].hash@,
            forall|k: int| j <= k < n ==> (#[trigger] node.friends@[k]) == olds[k],
            !stopped ==> idx == chunk_base(olds, j as int),
            !stopped ==> fits_upto(olds, plen, j as int - 1),
            stopped ==> !fits_upto(olds, plen, j as int - 1),
            forall|k: int|
                0 <= k < j && eligible(#[trigger] olds[k]) && fits_upto(olds, plen, k) ==> served(
                    olds,
                    parts@,
                    node.friends@[k],
                    k,
                ),
            forall|k: int|
                0 <= k < j && !(eligible(#[trigger] olds[k]) && fits_upto(olds, plen, k))
                    ==> node.friends@[k] == olds[k],
        decreases n - j,
    {
        let is_el = match node.friends[j].friend_type {
            FriendType::Child => node.friends[j].power > 0,
            _ => false,
        };
        proof {
            assert(node.friends@[j as int] == olds[j as int]);
            assert(is_el == eligible(olds[j as int]));
            assert(chunk_base(olds, j as int + 1) == chunk_base(olds, j as int) + (if eligible(
                olds[j as int],
            ) {
                olds[j as int].power as int
            } else {
                0
            }));
        }
        let ghost was_stopped = stopped;
        if !stopped && is_el {
            let p = node.friends[j].power as usize;
            if idx > parts.len() || p > parts.len() - idx {
                stopped = true;
                proof {
                    lemma_unfits_forever(olds, plen, j as int, j as int);
                }
            } else {
                let merged = merge_block(&parts, idx, p);
                let ghost cur0 = node.friends@;
                let f = node.friends.remove(j);
                let assigned = Friend {
                    address: f.address,
                    power: f.power,
                    friend_type: f.friend_type,
                    solving_part_of_a_problem: Some(merged),
                };
                let ghost assigned_v = assigned;
                node.friends.insert(j, assigned);
                proof {
                    cur0.remove(j as int).insert_ensures(j as int, assigned_v);
                    cur0.remove_ensures(j as int);
                    assert(node.friends@[j as int] == assigned_v);
                    assert forall|k: int|
                        0 <= k < n && k != j implies node.friends@[k] == cur0[k] by {
                        assert(node.friends@ == cur0.remove(j as int).insert(
                            j as int,
                            assigned_v,
                        ));
                    }
                    lemma_chunk_base_mono(olds, j as int, j as int);
                    assert(served(olds, parts@, assigned_v, j as int));
                    lemma_fits_extend(olds, plen, j as int);
                }
                idx = idx + p;
            }
        }
        proof {
            if was_stopped {
                lemma_unfits_monotone(olds, plen, j as int - 1, j as int);
            } else if !stopped {
                lemma_fits_extend(olds, plen, j as int);
                lemma_chunk_base_mono(olds, j as int, j as int + 1);
            }
        }
        j += 1;
    }
}

/// Friend `j` was handed its canonical block: the consecutive parts
/// beginning where the blocks of the eligible friends before it end,
/// one part per unit of power, merged and not yet distributed.
pub open spec fn served(
    olds: Seq<Friend>,
    parts: Seq<PartOfAProblem>,
    f: Friend,
    j: int,
) -> bool {
    let b = chunk_base(olds, j);
    &&& eligible(olds[j])
    &&& 1 <= b
    &&& b + olds[j].power <= parts.len()
    &&& f.address == olds[j].address
    &&& f.power == olds[j].power
    &&& f.friend_type == olds[j].friend_type
    &&& (f.solving_part_of_a_problem matches Some(m) && m.start@ == parts[b].start@ && m.end@
        == parts[b + olds[j].power - 1].end@ && m.alphabet@ == parts[0].alphabet@ && m.hash@
        == parts[0].hash@ && m.state == PartOfAProblemState::NotDistributed)
}

/// Hands each eligible friend's fresh part out as a solve request,
/// marking it distributed; the messages come back in peer order for the
/// caller to send.
pub fn send_parts_to_friends(node: &mut Node) -> (msgs: Vec<SolveProblemMessage>)
    ensures
        final(node).address == old(node).address,
        final(node).communicating == old(node).communicating,
        final(node).power == old(node).power,
        final(node).state == old(node).state,
        final(node).stop_flag == old(node).stop_flag,
        final(node).solving_part_of_a_problem == old(node).solving_part_of_a_problem,
        final(node).friends@.len() == old(node).friends@.len(),
        forall|j: int|
            0 <= j < old(node).friends@.len() && !pending(#[trigger] old(node).friends@[j])
                ==> final(node).friends@[j] == old(node).friends@[j],
        forall|j: int|
            0 <= j < old(node).friends@.len() && pending(#[trigger] old(node).friends@[j]) ==> {
                let f = final(node).friends@[j];
                &&& f.address == old(node).friends@[j].address
                &&& f.power == old(node).friends@[j].power
                &&& f.friend_type == old(node).friends@[j].friend_type
                &&& (f.solving_part_of_a_problem matches Some(m)
                    && old(node).friends@[j].solving_part_of_a_problem matches Some(m0)
                    && m.same_as_but_state(&m0) && m.state == PartOfAProblemState::Distributed)
            },
        msgs@.len() == count_pending(old(node).friends@, old(node).friends@.len() as int),
        forall|k: int|
            0 <= k < msgs@.len() ==> (#[trigger] msgs@[k]).from@ == old(node).address@,
        forall|j: int|
            0 <= j < old(node).friends@.len() && pending(#[trigger] old(node).friends@[j]) ==> {
                let m = msgs@[count_pending(old(node).friends@, j)];
                &&& m.to@ == old(node).friends@[j].address@
                &&& (old(node).friends@[j].solving_part_of_a_problem matches Some(p)
                    && m.alphabet@ == p.alphabet@ && m.start@ == p.start@ && m.end@ == p.end@
                    && m.hash@ == p.hash@)
            },
{
    let ghost olds = node.friends@;
    let n = node.friends.len();
    let mut msgs: Vec<SolveProblemMessage> = Vec::new();
    let mut j: usize = 0;
    while j < n
        invariant
            olds == old(node).friends@,
            node.address == old(node).address,
            node.communicating == old(node).communicating,
            node.power == old(node).power,
            node.state == old(node).state,
            node.stop_flag == old(node).stop_flag,
            node.solving_part_of_a_problem == old(node).solving_part_of_a_problem,
            n == olds.len(),
            node.friends@.len() == n,
            j <= n,
            forall|k: int| j <= k < n ==> (#[trigger] node.friends@[k]) == olds[k],
            forall|k: int|
                0 <= k < j && !pending(#[trigger] olds[k]) ==> node.friends@[k] == olds[k],
            forall|k: int|
                0 <= k < j && pending(#[trigger] olds[k]) ==> {
                    let f = node.friends@[k];
                    &&& f.address == olds[k].address
                    &&& f.power == olds[k].power
                    &&& f.friend_type == olds[k].friend_type
                    &&& (f.solving_part_of_a_problem matches Some(m)
                        && olds[k].solving_part_of_a_problem matches Some(m0)
                        && m.same_as_but_state(&m0) && m.state
                        == PartOfAProblemState::Distributed)
                },
            msgs@.len() == count_pending(olds, j as int),
            forall|k: int| 0 <= k < msgs@.len() ==> (#[trigger] msgs@[k]).from@ == old(node).address@,
            forall|k: int|
                0 <= k < j && pending(#[trigger] olds[k]) ==> {
                    let m = msgs@[count_pending(olds, k)];
                    &&& m.to@ == olds[k].address@
                    &&& (olds[k].solving_part_of_a_problem matches Some(p) && m.alphabet@
                        == p.alphabet@ && m.start@ == p.start@ && m.end@ == p.end@ && m.hash@
                        == p.hash@)
                },
        decreases n - j,
    {
        proof {
            assert(node.friends@[j as int] == olds[j as int]);
        }
        let is_pending = match node.friends[j].friend_type {
            FriendType::Child => match &node.friends[j].solving_part_of_a_problem {
                Some(part) => match part.state {
                    PartOfAProblemState::NotDistributed => true,
                    _ => false,
                },
                None => false,
            },
            _ => false,
        };
        proof {
            assert(is_pending == pending(olds[j as int]));
        }
        if is_pending {
            let ghost cur0 = node.friends@;
            let f = node.friends.remove(j);
            let part = f.solving_part_of_a_problem.unwrap();
            let m = SolveProblemMessage {
                from: node.address.clone(),
                to: f.address.clone(),
                alphabet: part.alphabet.clone(),
                start: part.start.clone(),
                end: part.end.clone(),
                hash: part.hash.clone(),
            };
            let marked_part = PartOfAProblem {
                start: part.start,
                end: part.end,
                alphabet: part.alphabet,
                hash: part.hash,
                state: PartOfAProblemState::Distributed,
            };
            let updated = Friend {
                address: f.address,
                power: f.power,
                friend_type: f.friend_type,
                solving_part_of_a_problem: Some(marked_part),
            };
            let ghost updated_v = updated;
            node.friends.insert(j, updated);
            msgs.push(m);
            proof {
                cur0.remove(j as int).insert_ensures(j as int, updated_v);
                cur0.remove_ensures(j as int);
                assert(node.friends@[j as int] == updated_v);
                assert forall|k: int|
                    0 <= k < n && k != j implies node.friends@[k] == cur0[k] by {
                    assert(node.friends@ == cur0.remove(j as int).insert(j as int, updated_v));
                }
                assert forall|k: int|
                    0 <= k < j && pending(#[trigger] olds[k]) implies count_pending(olds, k)
                    < count_pending(olds, j as int) by {
                    lemma_count_pending_mono(olds, k + 1, j as int);
                }
            }
        }
        proof {
            lemma_count_pending_bound(olds, j as int);
            assert forall|k: int| 0 <= k < j + 1 && pending(#[trigger] olds[k]) implies 0
                <= count_pending(olds, k) < msgs@.len() && msgs@[count_pending(olds, k)].to@
                == olds[k].address@ && (olds[k].solving_part_of_a_problem matches Some(p)
                && msgs@[count_pending(olds, k)].alphabet@ == p.alphabet@ && msgs@[count_pending(
                olds,
                k,
            )].start@ == p.start@ && msgs@[count_pending(olds, k)].end@ == p.end@
                && msgs@[count_pending(olds, k)].hash@ == p.hash@) by {
                lemma_count_pending_bound(olds, k);
                lemma_count_pending_mono(olds, k + 1, j as int + 1);
                if k < j {
                    lemma_count_pending_mono(olds, k + 1, j as int);
                }
            }
        }
        j += 1;
    }
    msgs
}

/// A friend owed a send: a child holding a not-yet-distributed part.
pub open spec fn pending(f: Friend) -> bool {
    f.friend_type == FriendType::Child && (f.solving_part_of_a_problem matches Some(p) && p.state
        == PartOfAProblemState::NotDistributed)
}

/// How many of the first `j` friends are owed a send.
pub open spec fn count_pending(friends: Seq<Friend>, j: int) -> int
    decreases j,
{
    if j <= 0 {
        0
    } else {
        count_pending(friends, j - 1) + (if pending(friends[j - 1]) {
            1int
        } else {
            0int
        })
    }
}

proof fn lemma_count_pending_bound(friends: Seq<Friend>, j: int)
    requires
        0 <= j,
    ensures
        0 <= count_pending(friends, j) <= j,
    decreases j,
{
    if j > 0 {
        lemma_count_pending_bound(friends, j - 1);
    }
}

proof fn lemma_count_pending_mono(friends: Seq<Friend>, j: int, m: int)
    requires
        0 <= j <= m,
    ensures
        count_pending(friends, j) <= count_pending(friends, m),
    decreases m - j,
{
    if j < m {
        lemma_count_pending_mono(friends, j + 1, m);
    }
}

} // verus!
