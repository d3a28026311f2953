use preimage_search::problem::{Combinable, Problem};
use sha2::{Digest, Sha256};

fn sha256_hex(s: &str) -> String {
    let mut hasher = Sha256::new();
    hasher.update(s.as_bytes());
    format!("{:x}", hasher.finalize())
}

fn problem(alphabet: &str, start: &str, end: &str, hash: String) -> Problem {
    Problem::new(
        alphabet.to_string(),
        start.to_string(),
        end.to_string(),
        hash,
    )
}

#[test]
fn finds_known_preimage() {
    let mut p = problem("abc", "aa", "cc", sha256_hex("ab"));
    assert_eq!(p.brute_force(), Some("ab".to_string()));
}

#[test]
fn finds_preimage_of_other_length() {
    let mut p = problem("abc", "a", "ccc", sha256_hex("cab"));
    assert_eq!(p.brute_force(), Some("cab".to_string()));
}

#[test]
fn exhausts_without_preimage() {
    let mut p = problem("abc", "aa", "cc", sha256_hex("zz"));
    assert_eq!(p.brute_force(), None);
    assert_eq!(p.current, "cc");
}

#[test]
fn enumerates_exactly_size_candidates() {
    let mut p = problem("abc", "aa", "cc", sha256_hex("zz"));
    let size = p.total_combinations();
    let mut checked = 1usize;
    loop {
        match p.next() {
            Some(_) => checked += 1,
            None => break,
        }
    }
    assert_eq!(checked, size);
}

#[test]
fn cursor_walks_in_rank_order() {
    let mut p = problem("ab", "a", "bb", "00".to_string());
    let mut seen = vec![p.current.clone()];
    while let Some(c) = p.next() {
        seen.push(c);
    }
    assert_eq!(seen, vec!["a", "b", "aa", "ab", "ba", "bb"]);
}

#[test]
fn stop_flag_checked_between_candidates() {
    // the surrounding process runs the cancellable loop: one digest check
    // per iteration, reading its stop flag first
    let mut p = problem("abc", "aa", "cc", sha256_hex("cc"));
    let stop_flag = true;
    let mut iterations = 0usize;
    let result: Option<String> = loop {
        if stop_flag {
            break None;
        }
        iterations += 1;
        let candidate = p.current.clone();
        if p.check_hash(&candidate) {
            break Some(candidate);
        }
        if p.next().is_none() {
            break None;
        }
    };
    assert_eq!(result, None);
    assert_eq!(iterations, 0);
}

#[test]
fn check_hash_matches_digest() {
    let p = problem("abc", "aa", "cc", sha256_hex("ba"));
    assert!(p.check_hash("ba"));
    assert!(!p.check_hash("ab"));
}
