//! Nodes, their peers, and the role machine.
//!
//! A node knows its own address, a list of peers ("friends"), whether it
//! is willing to communicate, its local power, its role in the current
//! session, a cooperative stop flag, and the sub-range it is itself
//! searching. The methods here are the pure state transitions; sockets
//! and threads live outside the library.

use vstd::prelude::*;
use vstd::string::*;
use crate::alpha::{str_eq, str_contains_char};
use crate::problem::{PartOfAProblem, Problem};

verus! {

/// How a peer stands to this node in the current session's tree.
#[derive(Debug, Clone, Copy, PartialEq, Eq, Structural)]
pub enum FriendType {
    Parent,
    Child,
    NotSpecified,
}

/// A peer known by address, with the power, tree role and assigned
/// sub-range learned during the current session.
#[derive(Debug)]
pub struct Friend {
    pub address: String,
    pub power: u32,
    pub friend_type: FriendType,
    pub solving_part_of_a_problem: Option<PartOfAProblem>,
}

impl Friend {
    /// A freshly added peer: no power reported yet, no tree role, no
    /// assigned part.
    pub fn new(address: String) -> (f: Friend)
        ensures
            f.address@ == address@,
            f.power == 0,
            f.friend_type == FriendType::NotSpecified,
            f.solving_part_of_a_problem is None,
    {
        Friend {
            address,
            power: 0,
            friend_type: FriendType::NotSpecified,
            solving_part_of_a_problem: None,
        }
    }

    pub fn address(&self) -> (a: &str)
        ensures
            a@ == self.address@,
    {
        self.address.as_str()
    }

    pub fn set_type(&mut self, friend_type: FriendType)
        ensures
            final(self).address == old(self).address,
            final(self).power == old(self).power,
            final(self).solving_part_of_a_problem == old(self).solving_part_of_a_problem,
            final(self).friend_type == friend_type,
    {
        self.friend_type = friend_type;
    }
}

/// The role a node occupies: idle, the leader holding the authoritative
/// state map, or a worker that knows its parent's address.
#[derive(Debug)]
pub enum NodeState {
    IDLE,
    LEADER { problem: Option<Problem>, parts: Vec<PartOfAProblem> },
    WORKER { parent: String },
}

/// One process in the network, as plain state.
#[derive(Debug)]
pub struct Node {
    pub address: String,
    pub friends: Vec<Friend>,
    pub communicating: bool,
    pub power: u32,
    pub state: NodeState,
    pub stop_flag: bool,
    pub solving_part_of_a_problem: Option<PartOfAProblem>,
}

/// Keeping a friend means its address differs from the one dropped.
pub open spec fn keeps(addr: Seq<char>) -> spec_fn(Friend) -> bool {
    |f: Friend| f.address@ != addr
}

/// The position of the first friend with the given address, or -1.
pub open spec fn friend_index(friends: Seq<Friend>, addr: Seq<char>) -> int
    decreases friends.len(),
{
    if friends.len() == 0 {
        -1
    } else if friends[0].address@ == addr {
        0
    } else {
        let t = friend_index(friends.drop_first(), addr);
        if t < 0 {
            -1
        } else {
            t + 1
        }
    }
}

/// Whether some friend has the given address.
pub open spec fn has_friend(friends: Seq<Friend>, addr: Seq<char>) -> bool {
    friend_index(friends, addr) >= 0
}

/// The peers form a set: no two friends share an address.
pub open spec fn unique_addresses(friends: Seq<Friend>) -> bool {
    forall|i: int, j: int|
        0 <= i < j < friends.len() ==> (#[trigger] friends[i]).address@ != (
        #[trigger] friends[j]).address@
}

/// `friend_index` finds exactly the first occurrence.
pub proof fn lemma_friend_index(friends: Seq<Friend>, addr: Seq<char>)
    ensures
        has_friend(friends, addr) ==> {
            let i = friend_index(friends, addr);
            &&& 0 <= i < friends.len()
            &&& friends[i].address@ == addr
            &&& forall|j: int| 0 <= j < i ==> (#[trigger] friends[j]).address@ != addr
        },
        !has_friend(friends, addr) ==> forall|j: int|
            0 <= j < friends.len() ==> (#[trigger] friends[j]).address@ != addr,
    decreases friends.len(),
{
    if friends.len() > 0 {
        let t = friends.drop_first();
        lemma_friend_index(t, addr);
        assert(forall|j: int| 0 <= j < t.len() ==> t[j] == friends[j + 1]);
        if friends[0].address@ == addr {
        } else {
            let ti = friend_index(t, addr);
            if ti >= 0 {
                assert(friend_index(friends, addr) == ti + 1);
                assert(friends[ti + 1].address@ == addr);
                assert forall|j: int| 0 <= j < ti + 1 implies (#[trigger] friends[j]).address@
                    != addr by {
                    if j > 0 {
                        assert(t[j - 1].address@ != addr);
                    }
                }
            } else {
                assert forall|j: int|
                    0 <= j < friends.len() implies (#[trigger] friends[j]).address@ != addr by {
                    if j > 0 {
                        assert(t[j - 1].address@ != addr);
                    }
                }
            }
        }
    }
}

impl Node {
    /// A fresh node: communicating, idle, local power 1, stop flag
    /// cleared, nothing assigned. The initial peers must already form a
    /// set: one friend per address.
    pub fn new(address: String, friends: Vec<Friend>) -> (n: Node)
        requires
            unique_addresses(friends@),
        ensures
            unique_addresses(n.friends@),
            n.address@ == address@,
            n.friends@ == friends@,
            n.communicating == true,
            n.power == 1,
            n.state is IDLE,
            n.stop_flag == false,
            n.solving_part_of_a_problem is None,
    {
        Node {
            address,
            friends,
            communicating: true,
            power: 1,
            state: NodeState::IDLE,
            stop_flag: false,
            solving_part_of_a_problem: None,
        }
    }

    /// Whether the address names one of this node's peers.
    pub fn is_friend(&self, address: &str) -> (r: bool)
        ensures
            r == has_friend(self.friends@, address@),
    {
        proof {
            lemma_friend_index(self.friends@, address@);
        }
        let n = self.friends.len();
        let mut i: usize = 0;
        while i < n
            invariant
                n == self.friends@.len(),
                i <= n,
                forall|j: int| 0 <= j < i ==> (#[trigger] self.friends@[j]).address@ != address@,
            decreases n - i,
        {
            if str_eq(self.friends[i].address.as_str(), address) {
                proof {
                    lemma_friend_index_found(self.friends@, address@, i as int);
                }
                return true;
            }
            i += 1;
        }
        proof {
            if has_friend(self.friends@, address@) {
                lemma_friend_index(self.friends@, address@);
            }
        }
        false
    }

    /// Drops every peer with the given address.
    pub fn remove_friend(&mut self, address: &str)
        ensures
            final(self).address == old(self).address,
            final(self).communicating == old(self).communicating,
            final(self).power == old(self).power,
            final(self).state == old(self).state,
            final(self).stop_flag == old(self).stop_flag,
            final(self).solving_part_of_a_problem == old(self).solving_part_of_a_problem,
            final(self).friends@ == old(self).friends@.filter(keeps(address@)),
    {
        let mut work: Vec<Friend> = Vec::new();
        core::mem::swap(&mut self.friends, &mut work);
        let ghost olds = work@;
        let mut kept: Vec<Friend> = Vec::new();
        let n = work.len();
        let mut i: usize = 0;
        proof {
            reveal(Seq::filter);
            assert(olds.subrange(0, 0) =~= Seq::<Friend>::empty());
        }
        while i < n
            invariant
                n == olds.len(),
                i <= n,
                work@ == olds.subrange(i as int, n as int),
                kept@ == olds.subrange(0, i as int).filter(keeps(address@)),
            decreases n - i,
        {
            let ghost prefix = olds.subrange(0, i as int);
            let ghost prefix1 = olds.subrange(0, i + 1);
            proof {
                reveal(Seq::filter);
                assert(work@[0] == olds[i as int]);
                assert(prefix1.drop_last() =~= prefix);
                assert(prefix1.last() == olds[i as int]);
            }
            let f = work.remove(0);
            proof {
                assert(work@ =~= olds.subrange(i + 1, n as int));
            }
            if !str_eq(f.address.as_str(), address) {
                kept.push(f);
            }
            proof {
                reveal(Seq::filter);
                assert(keeps(address@)(olds[i as int]) == (olds[i as int].address@ != address@));
                assert(kept@ == prefix1.filter(keeps(address@)));
            }
            i += 1;
        }
        proof {
            assert(olds.subrange(0, n as int) =~= olds);
        }
        self.friends = kept;
    }

    /// Adds the address as a new peer, unless it is one already.
    pub fn add_friend(&mut self, address: String) -> (added: bool)
        ensures
            final(self).address == old(self).address,
            final(self).communicating == old(self).communicating,
            final(self).power == old(self).power,
            final(self).state == old(self).state,
            final(self).stop_flag == old(self).stop_flag,
            final(self).solving_part_of_a_problem == old(self).solving_part_of_a_problem,
            added == !has_friend(old(self).friends@, address@),
            has_friend(final(self).friends@, address@),
            unique_addresses(old(self).friends@) ==> unique_addresses(final(self).friends@),
            added ==> {
                &&& final(self).friends@.len() == old(self).friends@.len() + 1
                &&& final(self).friends@.drop_last() == old(self).friends@
                &&& final(self).friends@.last().address@ == address@
                &&& final(self).friends@.last().power == 0
                &&& final(self).friends@.last().friend_type == FriendType::NotSpecified
                &&& final(self).friends@.last().solving_part_of_a_problem is None
            },
            !added ==> final(self).friends@ == old(self).friends@,
    {
        if self.is_friend(address.as_str()) {
            return false;
        }
        let ghost before = self.friends@;
        self.friends.push(Friend::new(address));
        proof {
            assert(self.friends@.drop_last() =~= before);
            lemma_friend_index(before, self.friends@.last().address@);
            lemma_has_friend_push(before, self.friends@.last(), self.friends@.last().address@);
            if unique_addresses(before) {
                assert forall|i: int, j: int|
                    0 <= i < j < self.friends@.len() implies (#[trigger] self.friends@[i]).address@
                    != (#[trigger] self.friends@[j]).address@ by {
                    if j < before.len() {
                        assert(self.friends@[i] == before[i] && self.friends@[j] == before[j]);
                    } else {
                        assert(self.friends@[i] == before[i]);
                    }
                }
            }
        }
        true
    }

    pub fn is_communicating(&self) -> (r: bool)
        ensures
            r == self.communicating,
    {
        self.communicating
    }

    /// Flips the communicating gate.
    pub fn toggle_communicating(&mut self)
        ensures
            final(self).communicating == !old(self).communicating,
            final(self).address == old(self).address,
            final(self).friends == old(self).friends,
            final(self).power == old(self).power,
            final(self).state == old(self).state,
            final(self).stop_flag == old(self).stop_flag,
            final(self).solving_part_of_a_problem == old(self).solving_part_of_a_problem,
    {
        self.communicating = !self.communicating;
    }

    pub fn is_idle(&self) -> (r: bool)
        ensures
            r == (self.state is IDLE),
    {
        match self.state {
            NodeState::IDLE => true,
            _ => false,
        }
    }

    pub fn is_leader(&self) -> (r: bool)
        ensures
            r == (self.state is LEADER),
    {
        match self.state {
            NodeState::LEADER { .. } => true,
            _ => false,
        }
    }

    /// Becomes the leader of a fresh session, with an empty state map.
    pub fn set_state_leader(&mut self)
        ensures
            final(self).address == old(self).address,
            final(self).friends == old(self).friends,
            final(self).communicating == old(self).communicating,
            final(self).power == old(self).power,
            final(self).stop_flag == old(self).stop_flag,
            final(self).solving_part_of_a_problem == old(self).solving_part_of_a_problem,
            final(self).state matches NodeState::LEADER { problem, parts } && problem is None
                && parts@.len() == 0,
    {
        self.state = NodeState::LEADER { problem: None, parts: Vec::new() };
    }

    /// Becomes a worker answering to the given parent.
    pub fn set_state_worker(&mut self, parent: String)
        ensures
            final(self).address == old(self).address,
            final(self).friends == old(self).friends,
            final(self).communicating == old(self).communicating,
            final(self).power == old(self).power,
            final(self).stop_flag == old(self).stop_flag,
            final(self).solving_part_of_a_problem == old(self).solving_part_of_a_problem,
            final(self).state matches NodeState::WORKER { parent: p } && p@ == parent@,
    {
        self.state = NodeState::WORKER { parent };
    }

    /// Marks the first friend with the given address as this node's
    /// parent; reports whether one was found.
    pub fn set_parent(&mut self, address: &str) -> (r: bool)
        ensures
            final(self).address == old(self).address,
            final(self).communicating == old(self).communicating,
            final(self).power == old(self).power,
            final(self).state == old(self).state,
            final(self).stop_flag == old(self).stop_flag,
            final(self).solving_part_of_a_problem == old(self).solving_part_of_a_problem,
            r == has_friend(old(self).friends@, address@),
            final(self).friends@.len() == old(self).friends@.len(),
            unique_addresses(old(self).friends@) ==> unique_addresses(final(self).friends@),
            !r ==> final(self).friends@ == old(self).friends@,
            r ==> {
                let i = friend_index(old(self).friends@, address@);
                &&& (forall|j: int|
                    0 <= j < old(self).friends@.len() && j != i ==> final(self).friends@[j]
                        == old(self).friends@[j])
                &&& final(self).friends@[i].address == old(self).friends@[i].address
                &&& final(self).friends@[i].power == old(self).friends@[i].power
                &&& final(self).friends@[i].solving_part_of_a_problem == old(
                    self,
                ).friends@[i].solving_part_of_a_problem
                &&& final(self).friends@[i].friend_type == FriendType::Parent
            },
    {
        proof {
            lemma_friend_index(self.friends@, address@);
        }
        let ghost olds = self.friends@;
        let n = self.friends.len();
        let mut i: usize = 0;
        while i < n
            invariant
                olds == old(self).friends@,
                olds == self.friends@,
                self.address == old(self).address,
                self.communicating == old(self).communicating,
                self.power == old(self).power,
                self.state == old(self).state,
                self.stop_flag == old(self).stop_flag,
                self.solving_part_of_a_problem == old(self).solving_part_of_a_problem,
                n == olds.len(),
                i <= n,
                forall|j: int| 0 <= j < i ==> (#[trigger] olds[j]).address@ != address@,
            decreases n - i,
        {
            if str_eq(self.friends[i].address.as_str(), address) {
                proof {
                    lemma_friend_index_found(olds, address@, i as int);
                }
                let f = self.friends.remove(i);
                let marked = Friend {
                    address: f.address,
                    power: f.power,
                    friend_type: FriendType::Parent,
                    solving_part_of_a_problem: f.solving_part_of_a_problem,
                };
                self.friends.insert(i, marked);
                proof {
                    olds.remove(i as int).insert_ensures(i as int, self.friends@[i as int]);
                    olds.remove_ensures(i as int);
                    assert forall|j: int|
                        0 <= j < olds.len() && j != i implies self.friends@[j] == olds[j] by {
                        assert(self.friends@ == olds.remove(i as int).insert(
                            i as int,
                            self.friends@[i as int],
                        ));
                    }
                    if unique_addresses(olds) {
                        assert forall|x: int, y: int|
                            0 <= x < y < self.friends@.len() implies (
                        #[trigger] self.friends@[x]).address@ != (
                        #[trigger] self.friends@[y]).address@ by {
                            assert(self.friends@[x].address@ == olds[x].address@);
                            assert(self.friends@[y].address@ == olds[y].address@);
                        }
                    }
                }
                return true;
            }
            i += 1;
        }
        proof {
            if has_friend(olds, address@) {
                let w = friend_index(olds, address@);
                assert(olds[w].address@ == address@);
            }
        }
        false
    }
}

/// A prefix with a hit at `i` and no earlier hit indexes the hit at `i`.
pub proof fn lemma_friend_index_found(friends: Seq<Friend>, addr: Seq<char>, i: int)
    requires
        0 <= i < friends.len(),
        friends[i].address@ == addr,
        forall|j: int| 0 <= j < i ==> (#[trigger] friends[j]).address@ != addr,
    ensures
        friend_index(friends, addr) == i,
    decreases friends.len(),
{
    if i > 0 {
        let t = friends.drop_first();
        assert(forall|j: int| 0 <= j < t.len() ==> t[j] == friends[j + 1]);
        lemma_friend_index_found(t, addr, i - 1);
    }
}

/// Appending a friend with the sought address makes it known.
pub proof fn lemma_has_friend_push(friends: Seq<Friend>, f: Friend, addr: Seq<char>)
    requires
        f.address@ == addr,
    ensures
        has_friend(friends.push(f), addr),
    decreases friends.len(),
{
    let s = friends.push(f);
    if friends.len() == 0 {
        assert(s[0] == f);
    } else if friends[0].address@ == addr {
        assert(s[0] == friends[0]);
    } else {
        assert(s[0] == friends[0]);
        assert(s.drop_first() =~= friends.drop_first().push(f));
        lemma_has_friend_push(friends.drop_first(), f, addr);
    }
}

/// Lists with the same addresses position a sought address alike.
pub proof fn lemma_friend_index_same_addresses(s1: Seq<Friend>, s2: Seq<Friend>, addr: Seq<char>)
    requires
        s1.len() == s2.len(),
        forall|j: int| 0 <= j < s1.len() ==> (#[trigger] s1[j]).address@ == s2[j].address@,
    ensures
        friend_index(s1, addr) == friend_index(s2, addr),
    decreases s1.len(),
{
    if s1.len() > 0 {
        let t1 = s1.drop_first();
        let t2 = s2.drop_first();
        assert(forall|j: int| 0 <= j < t1.len() ==> (#[trigger] t1[j]) == s1[j + 1]);
        assert(forall|j: int| 0 <= j < t2.len() ==> (#[trigger] t2[j]) == s2[j + 1]);
        lemma_friend_index_same_addresses(t1, t2, addr);
    }
}

/// Normalizes an address: a bare port becomes a loopback address.
pub fn parse_address(input: &str) -> (r: String)
    ensures
        input@.contains(':') ==> r@ == input@,
        !input@.contains(':') ==> r@ == "127.0.0.1:"@ + input@,
{
    if str_contains_char(input, ':') {
        input.to_owned()
    } else {
        let mut s = String::from_str("127.0.0.1:");
        s.append(input);
        s
    }
}

} // verus!
