use preimage_search::communication::{
    accept_calc, apply_calc_outcome, assign_parts_to_self_and_friends, calculate_total_power,
    handle_solve_response_message, handle_stop, send_parts_to_friends, SolveResponseAction,
};
use preimage_search::messages::SolveResponseMessage;
use preimage_search::problem::{PartOfAProblemState, Problem};
use preimage_search::utils::{parse_address, Friend, FriendType, Node, NodeState};
use sha2::{Digest, Sha256};

fn sha256_hex(s: &str) -> String {
    let mut hasher = Sha256::new();
    hasher.update(s.as_bytes());
    format!("{:x}", hasher.finalize())
}

fn node(addr: &str, friends: &[&str]) -> Node {
    let friends = friends.iter().map(|a| Friend::new(a.to_string())).collect();
    Node::new(addr.to_string(), friends)
}

const L: &str = "127.0.0.1:1";
const W1: &str = "127.0.0.1:2";
const W2: &str = "127.0.0.1:3";

/// Runs the power aggregation over the three-node chain L - W1 - W2 and
/// returns the three nodes with the leader's total.
fn form_tree() -> (Node, Node, Node, u32) {
    let mut l = node(L, &[W1]);
    let mut w1 = node(W1, &[L, W2]);
    let mut w2 = node(W2, &[W1]);

    // cal on L
    assert!(l.is_idle());
    l.set_state_leader();
    // L queries W1; W1 was idle, becomes a worker under L
    assert!(accept_calc(&mut w1, L));
    // W1 recursively queries its own peers: L first, then W2
    // L is no longer idle, so it only acknowledges: power 0 for W1
    assert!(!accept_calc(&mut l, W1));
    apply_calc_outcome(&mut w1, L, Some(0));
    // W2 was idle, becomes a worker under W1 and reports its own power
    assert!(accept_calc(&mut w2, W1));
    assert!(!accept_calc(&mut w1, W2));
    let w2_total = calculate_total_power(&w2);
    apply_calc_outcome(&mut w1, W2, Some(w2_total));
    let w1_total = calculate_total_power(&w1);
    apply_calc_outcome(&mut l, W1, Some(w1_total));
    let total = calculate_total_power(&l);
    (l, w1, w2, total)
}

#[test]
fn tree_formation() {
    let (l, w1, w2, total) = form_tree();
    assert_eq!(total, 3);
    // L's only child is W1
    assert_eq!(l.friends.len(), 1);
    assert_eq!(l.friends[0].address, W1);
    assert_eq!(l.friends[0].friend_type, FriendType::Child);
    assert_eq!(l.friends[0].power, 2);
    // W1 answers to L and has W2 as its child
    match &w1.state {
        NodeState::WORKER { parent } => assert_eq!(parent, L),
        _ => panic!("W1 should be a worker"),
    }
    let w1_l = w1.friends.iter().find(|f| f.address == L).unwrap();
    assert_eq!(w1_l.friend_type, FriendType::Parent);
    let w1_w2 = w1.friends.iter().find(|f| f.address == W2).unwrap();
    assert_eq!(w1_w2.friend_type, FriendType::Child);
    assert_eq!(w1_w2.power, 1);
    // W2 answers to W1
    match &w2.state {
        NodeState::WORKER { parent } => assert_eq!(parent, W1),
        _ => panic!("W2 should be a worker"),
    }
}

/// Distributes a solve over the formed tree; returns the three nodes'
/// own search tasks as problems.
fn distribute(target: String) -> (Node, Node, Node, Problem, Problem, Problem) {
    let (mut l, mut w1, mut w2, total) = form_tree();
    let problem = Problem::new(
        "abc".to_string(),
        "aa".to_string(),
        "cc".to_string(),
        target,
    );
    let parts = problem.divide_into_n(total as usize);
    assert_eq!(parts.len(), 3);
    l.state = NodeState::LEADER {
        problem: Some(Problem::new(
            "abc".to_string(),
            "aa".to_string(),
            "cc".to_string(),
            problem.hash.clone(),
        )),
        parts: parts.iter().map(|q| q.duplicate()).collect(),
    };
    assign_parts_to_self_and_friends(&mut l, parts);
    let to_w1 = send_parts_to_friends(&mut l);
    assert_eq!(to_w1.len(), 1);
    assert_eq!(to_w1[0].to, W1);
    assert_eq!(to_w1[0].start, "ba");
    assert_eq!(to_w1[0].end, "cc");

    // W1 splits its slice over itself and W2
    let w1_problem = Problem::new_from_solve_message(&to_w1[0]);
    let w1_power = calculate_total_power(&w1);
    assert_eq!(w1_power, 2);
    let w1_parts = w1_problem.divide_into_n(w1_power as usize);
    assert_eq!(w1_parts.len(), 2);
    assign_parts_to_self_and_friends(&mut w1, w1_parts);
    let to_w2 = send_parts_to_friends(&mut w1);
    assert_eq!(to_w2.len(), 1);
    assert_eq!(to_w2[0].to, W2);

    let l_task = Problem::new_from_part(l.solving_part_of_a_problem.as_ref().unwrap());
    let w1_task = Problem::new_from_part(w1.solving_part_of_a_problem.as_ref().unwrap());
    let w2_task = Problem::new_from_solve_message(&to_w2[0]);
    (l, w1, w2, l_task, w1_task, w2_task)
}

#[test]
fn solve_found_on_leaders_slice() {
    let (_l, _w1, _w2, mut l_task, mut w1_task, mut w2_task) = distribute(sha256_hex("ab"));
    assert_eq!(l_task.start, "aa");
    assert_eq!(l_task.end, "ac");
    assert_eq!(l_task.brute_force(), Some("ab".to_string()));
    // the other slices hold no preimage
    assert_eq!(w1_task.brute_force(), None);
    assert_eq!(w2_task.brute_force(), None);
}

#[test]
fn solve_found_on_worker() {
    let (mut l, mut w1, _w2, mut l_task, mut w1_task, mut w2_task) = distribute(sha256_hex("cc"));
    assert_eq!(w2_task.start, "ca");
    assert_eq!(w2_task.end, "cc");
    assert_eq!(l_task.brute_force(), None);
    assert_eq!(w1_task.brute_force(), None);
    let found = w2_task.brute_force();
    assert_eq!(found, Some("cc".to_string()));
    // W2 reports to its parent W1, which forwards to L
    let report = SolveResponseMessage {
        from: W2.to_string(),
        to: W1.to_string(),
        start: w2_task.start.clone(),
        end: w2_task.end.clone(),
        solution: found,
        space_searched: true,
    };
    let forwarded = match handle_solve_response_message(&mut w1, &report) {
        SolveResponseAction::Forward(m) => m,
        _ => panic!("W1 should forward the report"),
    };
    assert_eq!(forwarded.from, W1);
    assert_eq!(forwarded.to, L);
    assert_eq!(forwarded.solution, Some("cc".to_string()));
    match handle_solve_response_message(&mut l, &forwarded) {
        SolveResponseAction::SolutionFound(s) => assert_eq!(s, "cc"),
        _ => panic!("L should see the solution"),
    }
    assert!(l.stop_flag);
    // cancellation fans out to L's children
    let stops = handle_stop(&mut l);
    assert_eq!(stops.len(), 1);
    assert_eq!(stops[0].to, W1);
    let stops = handle_stop(&mut w1);
    assert_eq!(stops.len(), 1);
    assert_eq!(stops[0].to, W2);
}

#[test]
fn exhaustion_coalesces_whole_range() {
    let (mut l, _w1, _w2, mut l_task, mut w1_task, mut w2_task) = distribute(sha256_hex("zz"));
    assert_eq!(l_task.brute_force(), None);
    assert_eq!(w1_task.brute_force(), None);
    assert_eq!(w2_task.brute_force(), None);
    for task in [&l_task, &w1_task, &w2_task] {
        let report = SolveResponseMessage {
            from: W1.to_string(),
            to: L.to_string(),
            start: task.start.clone(),
            end: task.end.clone(),
            solution: None,
            space_searched: true,
        };
        match handle_solve_response_message(&mut l, &report) {
            SolveResponseAction::Recorded => {},
            _ => panic!("L should fold the report into its map"),
        }
    }
    match &l.state {
        NodeState::LEADER { problem: _, parts } => {
            assert_eq!(parts.len(), 1);
            assert_eq!(parts[0].start, "aa");
            assert_eq!(parts[0].end, "cc");
            assert_eq!(parts[0].state, PartOfAProblemState::SearchedAndNotFound);
        },
        _ => panic!("L should still lead"),
    }
    assert!(!l.stop_flag);
}

#[test]
fn peer_drop_on_timeout() {
    let mut l = node(L, &[W1, W2]);
    let mut w1 = node(W1, &[L]);
    l.set_state_leader();
    assert!(accept_calc(&mut w1, L));
    apply_calc_outcome(&mut l, W1, Some(calculate_total_power(&w1)));
    // W2's listener is down: no answer within the timeout
    apply_calc_outcome(&mut l, W2, None);
    assert_eq!(calculate_total_power(&l), 2);
    assert_eq!(l.friends.len(), 1);
    assert_eq!(l.friends[0].address, W1);
}

#[test]
fn communication_gate_drops_silent_peer() {
    let mut l = node(L, &[W1]);
    let mut w1 = node(W1, &[L]);
    w1.toggle_communicating();
    assert!(!w1.is_communicating());
    l.set_state_leader();
    // W1 refuses the connection, so L records no answer and drops it
    if w1.is_communicating() {
        accept_calc(&mut w1, L);
        apply_calc_outcome(&mut l, W1, Some(calculate_total_power(&w1)));
    } else {
        apply_calc_outcome(&mut l, W1, None);
    }
    assert_eq!(calculate_total_power(&l), 1);
    assert_eq!(l.friends.len(), 0);
}

#[test]
fn calc_from_unknown_peer_is_added() {
    let mut w = node(W1, &[]);
    assert!(accept_calc(&mut w, L));
    assert_eq!(w.friends.len(), 1);
    assert_eq!(w.friends[0].address, L);
    assert_eq!(w.friends[0].friend_type, FriendType::Parent);
}

#[test]
fn busy_node_ignores_calc() {
    let mut w = node(W1, &[L]);
    w.set_state_worker(L.to_string());
    assert!(!accept_calc(&mut w, L));
}

#[test]
fn address_normalization() {
    assert_eq!(parse_address("4100"), "127.0.0.1:4100");
    assert_eq!(parse_address("10.0.0.7:4100"), "10.0.0.7:4100");
}

#[test]
fn friends_are_added_once_and_removed() {
    let mut n = node(L, &[]);
    assert!(n.add_friend(W1.to_string()));
    assert!(!n.add_friend(W1.to_string()));
    assert!(n.is_friend(W1));
    assert!(!n.is_friend(W2));
    n.remove_friend(W1);
    assert!(!n.is_friend(W1));
    assert_eq!(n.friends.len(), 0);
}
