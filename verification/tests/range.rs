use preimage_search::alpha::{
    checked_rank, index_to_str, next_str, prev_str, rank_of_str, str_of_rank, str_to_index,
};
use preimage_search::parts::{merge_parts, sort_vector_of_parts, update_state_of_parts};
use preimage_search::problem::{Combinable, PartOfAProblem, PartOfAProblemState, Problem};

fn part(alphabet: &str, start: &str, end: &str, state: PartOfAProblemState) -> PartOfAProblem {
    PartOfAProblem {
        start: start.to_string(),
        end: end.to_string(),
        alphabet: alphabet.to_string(),
        hash: "h".to_string(),
        state,
    }
}

#[test]
fn index_of_strings() {
    assert_eq!(str_to_index("abc", "a"), 0);
    assert_eq!(str_to_index("abc", "aa"), 0);
    assert_eq!(str_to_index("abc", "ab"), 1);
    assert_eq!(str_to_index("abc", "cc"), 8);
    assert_eq!(str_to_index("abc", "bca"), 1 * 9 + 2 * 3 + 0);
}

#[test]
fn index_round_trip() {
    assert_eq!(index_to_str("abc", 0, 2), "aa");
    assert_eq!(index_to_str("abc", 8, 2), "cc");
    assert_eq!(index_to_str("abc", 5, 2), "bc");
    assert_eq!(index_to_str("abc", 5, 4), "aabc");
    for i in 0..27usize {
        let s = index_to_str("abc", i, 3);
        assert_eq!(str_to_index("abc", &s), i);
        assert_eq!(s.chars().count(), 3);
    }
}

#[test]
fn rank_orders_by_length_then_value() {
    // "" < "a" < "b" < "c" < "aa" < ... < "cc" < "aaa"
    assert_eq!(rank_of_str("abc", "a"), 1);
    assert_eq!(rank_of_str("abc", "c"), 3);
    assert_eq!(rank_of_str("abc", "aa"), 4);
    assert_eq!(rank_of_str("abc", "cc"), 12);
    assert_eq!(rank_of_str("abc", "aaa"), 13);
    for r in 0..40usize {
        let s = str_of_rank("abc", r);
        assert_eq!(rank_of_str("abc", &s), r);
    }
}

#[test]
fn successor_and_predecessor_at_fixed_length() {
    assert_eq!(next_str("aa", "abc"), "ab");
    assert_eq!(next_str("ac", "abc"), "ba");
    assert_eq!(next_str("cc", "abc"), "aa");
    assert_eq!(prev_str("ab", "abc"), "aa");
    assert_eq!(prev_str("ba", "abc"), "ac");
    assert_eq!(prev_str("aa", "abc"), "cc");
}

#[test]
fn divide_into_three_balanced_parts() {
    let p = Problem::new(
        "abc".to_string(),
        "aa".to_string(),
        "cc".to_string(),
        "h".to_string(),
    );
    assert_eq!(p.total_combinations(), 9);
    let parts = p.divide_into_n(3);
    assert_eq!(parts.len(), 3);
    assert_eq!(parts[0].start, "aa");
    assert_eq!(parts[0].end, "ac");
    assert_eq!(parts[1].start, "ba");
    assert_eq!(parts[1].end, "bc");
    assert_eq!(parts[2].start, "ca");
    assert_eq!(parts[2].end, "cc");
    for q in &parts {
        assert_eq!(q.state, PartOfAProblemState::NotDistributed);
        assert_eq!(q.alphabet, "abc");
        assert_eq!(q.hash, "h");
    }
}

#[test]
fn divide_caps_at_total_and_sizes_sum() {
    let p = Problem::new(
        "ab".to_string(),
        "aa".to_string(),
        "bb".to_string(),
        "h".to_string(),
    );
    assert_eq!(p.total_combinations(), 4);
    let parts = p.divide_into_n(10);
    assert_eq!(parts.len(), 4);
    let total: usize = parts.iter().map(|q| q.total_combinations()).sum();
    assert_eq!(total, 4);
    let parts2 = p.divide_into_n(3);
    assert_eq!(parts2.len(), 3);
    let total2: usize = parts2.iter().map(|q| q.total_combinations()).sum();
    assert_eq!(total2, 4);
}

#[test]
fn divide_across_length_boundary() {
    // lengths 1 and 2 over "ab": candidates a, b, aa, ab, ba, bb
    let p = Problem::new(
        "ab".to_string(),
        "a".to_string(),
        "bb".to_string(),
        "h".to_string(),
    );
    assert_eq!(p.total_combinations(), 6);
    let parts = p.divide_into_n(2);
    assert_eq!(parts.len(), 2);
    assert_eq!(parts[0].start, "a");
    assert_eq!(parts[0].end, "aa");
    assert_eq!(parts[1].start, "ab");
    assert_eq!(parts[1].end, "bb");
}

#[test]
fn merge_restores_divided_range() {
    let p = Problem::new(
        "abc".to_string(),
        "aa".to_string(),
        "cc".to_string(),
        "h".to_string(),
    );
    let parts = p.divide_into_n(4);
    let merged = merge_parts(&parts);
    assert_eq!(merged.start, "aa");
    assert_eq!(merged.end, "cc");
    assert_eq!(merged.alphabet, "abc");
    assert_eq!(merged.hash, "h");
    assert_eq!(merged.state, PartOfAProblemState::NotDistributed);
}

#[test]
fn merge_accepts_any_order() {
    let shuffled = vec![
        part("abc", "ba", "bc", PartOfAProblemState::NotDistributed),
        part("abc", "ca", "cc", PartOfAProblemState::NotDistributed),
        part("abc", "aa", "ac", PartOfAProblemState::NotDistributed),
    ];
    let merged = merge_parts(&shuffled);
    assert_eq!(merged.start, "aa");
    assert_eq!(merged.end, "cc");
    assert_eq!(merged.state, PartOfAProblemState::NotDistributed);
}

#[test]
fn sort_orders_by_start() {
    let mut parts = vec![
        part("abc", "ca", "cc", PartOfAProblemState::NotDistributed),
        part("abc", "aa", "ac", PartOfAProblemState::NotDistributed),
        part("abc", "ba", "bc", PartOfAProblemState::NotDistributed),
    ];
    sort_vector_of_parts(&mut parts);
    assert_eq!(parts[0].start, "aa");
    assert_eq!(parts[1].start, "ba");
    assert_eq!(parts[2].start, "ca");
}

#[test]
fn update_clips_and_relabels_middle() {
    let mut map = vec![part("abc", "aa", "cc", PartOfAProblemState::Distributed)];
    let done = part("abc", "ba", "bc", PartOfAProblemState::SearchedAndNotFound);
    update_state_of_parts(&mut map, &done);
    assert_eq!(map.len(), 3);
    assert_eq!(map[0].start, "aa");
    assert_eq!(map[0].end, "ac");
    assert_eq!(map[0].state, PartOfAProblemState::Distributed);
    assert_eq!(map[1].start, "ba");
    assert_eq!(map[1].end, "bc");
    assert_eq!(map[1].state, PartOfAProblemState::SearchedAndNotFound);
    assert_eq!(map[2].start, "ca");
    assert_eq!(map[2].end, "cc");
    assert_eq!(map[2].state, PartOfAProblemState::Distributed);
}

#[test]
fn update_coalesces_adjacent_same_state() {
    let mut map = vec![
        part("abc", "aa", "ac", PartOfAProblemState::SearchedAndNotFound),
        part("abc", "ba", "bc", PartOfAProblemState::Distributed),
        part("abc", "ca", "cc", PartOfAProblemState::NotDistributed),
    ];
    let done = part("abc", "ba", "cc", PartOfAProblemState::SearchedAndNotFound);
    update_state_of_parts(&mut map, &done);
    assert_eq!(map.len(), 1);
    assert_eq!(map[0].start, "aa");
    assert_eq!(map[0].end, "cc");
    assert_eq!(map[0].state, PartOfAProblemState::SearchedAndNotFound);
}

#[test]
fn update_inserts_when_disjoint() {
    let mut map = vec![part("abc", "ba", "bc", PartOfAProblemState::Distributed)];
    let extra = part("abc", "aa", "ab", PartOfAProblemState::SearchedAndNotFound);
    update_state_of_parts(&mut map, &extra);
    assert_eq!(map.len(), 2);
    assert_eq!(map[0].start, "aa");
    assert_eq!(map[0].end, "ab");
    assert_eq!(map[1].start, "ba");
}

#[test]
fn update_across_length_boundary() {
    // one part spanning lengths 1 and 2 over "ab"; report the tail searched
    let mut map = vec![part("ab", "a", "bb", PartOfAProblemState::Distributed)];
    let done = part("ab", "aa", "bb", PartOfAProblemState::SearchedAndNotFound);
    update_state_of_parts(&mut map, &done);
    assert_eq!(map.len(), 2);
    assert_eq!(map[0].start, "a");
    assert_eq!(map[0].end, "b");
    assert_eq!(map[0].state, PartOfAProblemState::Distributed);
    assert_eq!(map[1].start, "aa");
    assert_eq!(map[1].end, "bb");
    assert_eq!(map[1].state, PartOfAProblemState::SearchedAndNotFound);
}

#[test]
fn checked_rank_guards_bad_input() {
    assert_eq!(checked_rank("abc", "ba"), Some(7));
    assert_eq!(checked_rank("abc", ""), Some(0));
    assert_eq!(checked_rank("abc", "xy"), None);
    let long = "c".repeat(64);
    assert_eq!(checked_rank("abc", &long), None);
}
