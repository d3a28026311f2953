//! Search problems and their parts.
//!
//! A `Problem` names an alphabet, a candidate range `[start, end]` in
//! length-then-index order, a target digest in lowercase hex, and a cursor.
//! A `PartOfAProblem` is a contiguous sub-range labelled with its search
//! state. Division into balanced parts, the candidate enumerator and the
//! digest check live here.

use vstd::prelude::*;
use vstd::string::*;
use crate::alpha::{
    wf_alphabet, in_alpha, rank, str_index, num_digits, rank_of_str, str_of_rank,
    lemma_rank_bounds, lemma_rank_order, lemma_rank_injective,
};
use crate::messages::SolveProblemMessage;
use sha2::{Digest, Sha256};

verus! {

/// What a part of a problem returns or computes is sized by this trait.
pub trait Combinable {
    /// The number of candidate strings the range holds, as a mathematical
    /// integer.
    spec fn spec_size(&self) -> int;

    /// Whether the range is well formed enough to be counted.
    spec fn countable(&self) -> bool;

    fn total_combinations(&self) -> (n: usize)
        requires
            self.countable(),
            self.spec_size() <= usize::MAX,
        ensures
            n == self.spec_size(),
    ;
}

/// Where a part stands in the search.
#[derive(Debug, Clone, Copy, PartialEq, Eq, Structural)]
pub enum PartOfAProblemState {
    NotDistributed,
    Distributed,
    SearchedAndNotFound,
    Solving,
}

/// A contiguous sub-range of a problem, labelled with its search state.
#[derive(Debug)]
pub struct PartOfAProblem {
    pub start: String,
    pub end: String,
    pub alphabet: String,
    pub hash: String,
    pub state: PartOfAProblemState,
}

/// The number of candidates between two rank bounds, inclusive.
pub open spec fn range_size(a: Seq<char>, s: Seq<char>, e: Seq<char>) -> int {
    if rank(a, e) >= rank(a, s) {
        rank(a, e) - rank(a, s) + 1
    } else {
        0
    }
}

impl PartOfAProblem {
    /// The range is over a usable alphabet, both bounds are drawn from it
    /// and in order, and ranks fit the machine.
    pub open spec fn wf(&self) -> bool {
        &&& wf_alphabet(self.alphabet@)
        &&& in_alpha(self.alphabet@, self.start@)
        &&& in_alpha(self.alphabet@, self.end@)
        &&& rank(self.alphabet@, self.start@) <= rank(self.alphabet@, self.end@)
        &&& rank(self.alphabet@, self.end@) <= usize::MAX
    }

    /// The two parts cover the same range with the same alphabet, digest
    /// and state.
    pub open spec fn same_as(&self, other: &PartOfAProblem) -> bool {
        &&& self.start@ == other.start@
        &&& self.end@ == other.end@
        &&& self.alphabet@ == other.alphabet@
        &&& self.hash@ == other.hash@
        &&& self.state == other.state
    }

    /// The two parts cover the same range with the same alphabet and
    /// digest, whatever their states.
    pub open spec fn same_as_but_state(&self, other: &PartOfAProblem) -> bool {
        &&& self.start@ == other.start@
        &&& self.end@ == other.end@
        &&& self.alphabet@ == other.alphabet@
        &&& self.hash@ == other.hash@
    }

    /// A not-yet-distributed part of `problem` spanning `[start, end]`.
    pub fn new_from_problem(problem: &Problem, start: String, end: String) -> (p: PartOfAProblem)
        ensures
            p.start@ == start@,
            p.end@ == end@,
            p.alphabet@ == problem.alphabet@,
            p.hash@ == problem.hash@,
            p.state == PartOfAProblemState::NotDistributed,
    {
        PartOfAProblem {
            start,
            end,
            alphabet: problem.alphabet.clone(),
            hash: problem.hash.clone(),
            state: PartOfAProblemState::NotDistributed,
        }
    }

    /// A field-by-field copy.
    pub fn duplicate(&self) -> (p: PartOfAProblem)
        ensures
            p.same_as(self),
    {
        PartOfAProblem {
            start: self.start.clone(),
            end: self.end.clone(),
            alphabet: self.alphabet.clone(),
            hash: self.hash.clone(),
            state: self.state,
        }
    }
}

impl Combinable for PartOfAProblem {
    open spec fn spec_size(&self) -> int {
        range_size(self.alphabet@, self.start@, self.end@)
    }

    open spec fn countable(&self) -> bool {
        self.wf()
    }

    fn total_combinations(&self) -> (n: usize)
    {
        let rs = rank_of_str(self.alphabet.as_str(), self.start.as_str());
        let re = rank_of_str(self.alphabet.as_str(), self.end.as_str());
        if re >= rs {
            re - rs + 1
        } else {
            0
        }
    }
}

/// A self-contained search task: a part plus the enumerator's cursor.
#[derive(Debug)]
pub struct Problem {
    pub alphabet: String,
    pub start: String,
    pub end: String,
    pub hash: String,
    pub current: String,
}

impl Combinable for Problem {
    open spec fn spec_size(&self) -> int {
        range_size(self.alphabet@, self.start@, self.end@)
    }

    open spec fn countable(&self) -> bool {
        &&& wf_alphabet(self.alphabet@)
        &&& in_alpha(self.alphabet@, self.start@)
        &&& in_alpha(self.alphabet@, self.end@)
        &&& rank(self.alphabet@, self.start@) <= usize::MAX
        &&& rank(self.alphabet@, self.end@) <= usize::MAX
    }

    fn total_combinations(&self) -> (n: usize)
    {
        let rs = rank_of_str(self.alphabet.as_str(), self.start.as_str());
        let re = rank_of_str(self.alphabet.as_str(), self.end.as_str());
        if re >= rs {
            re - rs + 1
        } else {
            0
        }
    }
}

impl Problem {
    /// The range is well formed and the cursor lies inside it.
    pub open spec fn wf(&self) -> bool {
        &&& wf_alphabet(self.alphabet@)
        &&& in_alpha(self.alphabet@, self.start@)
        &&& in_alpha(self.alphabet@, self.end@)
        &&& in_alpha(self.alphabet@, self.current@)
        &&& rank(self.alphabet@, self.start@) <= rank(self.alphabet@, self.current@)
        &&& rank(self.alphabet@, self.current@) <= rank(self.alphabet@, self.end@)
        &&& rank(self.alphabet@, self.end@) <= usize::MAX
    }

    pub fn new(alphabet: String, start: String, end: String, hash: String) -> (p: Problem)
        ensures
            p.alphabet@ == alphabet@,
            p.start@ == start@,
            p.end@ == end@,
            p.hash@ == hash@,
            p.current@ == start@,
    {
        let current = start.clone();
        Problem { alphabet, start, end, hash, current }
    }

    pub fn new_from_solve_message(message: &SolveProblemMessage) -> (p: Problem)
        ensures
            p.alphabet@ == message.alphabet@,
            p.start@ == message.start@,
            p.end@ == message.end@,
            p.hash@ == message.hash@,
            p.current@ == message.start@,
    {
        Problem {
            alphabet: message.alphabet.clone(),
            start: message.start.clone(),
            end: message.end.clone(),
            hash: message.hash.clone(),
            current: message.start.clone(),
        }
    }

    pub fn new_from_part(part: &PartOfAProblem) -> (p: Problem)
        ensures
            p.alphabet@ == part.alphabet@,
            p.start@ == part.start@,
            p.end@ == part.end@,
            p.hash@ == part.hash@,
            p.current@ == part.start@,
    {
        Problem {
            alphabet: part.alphabet.clone(),
            start: part.start.clone(),
            end: part.end.clone(),
            hash: part.hash.clone(),
            current: part.start.clone(),
        }
    }

    /// The index of `s` among strings of its length over this problem's
    /// alphabet.
    pub fn str_to_index(&self, s: &str) -> (idx: usize)
        requires
            wf_alphabet(self.alphabet@),
            in_alpha(self.alphabet@, s@),
            str_index(self.alphabet@, s@) <= usize::MAX,
        ensures
            idx == str_index(self.alphabet@, s@),
    {
        crate::alpha::str_to_index(self.alphabet.as_str(), s)
    }

    /// The string with the given index over this problem's alphabet,
    /// padded with the first character up to `min_len`.
    pub fn index_to_str(&self, idx: usize, min_len: usize) -> (s: String)
        requires
            wf_alphabet(self.alphabet@),
            self.alphabet@.len() >= 2 || idx == 0,
        ensures
            in_alpha(self.alphabet@, s@),
            str_index(self.alphabet@, s@) == idx,
            s@.len() == vstd::math::max(
                min_len as int,
                num_digits(self.alphabet@.len() as int, idx as int) as int,
            ),
    {
        crate::alpha::index_to_str(self.alphabet.as_str(), idx, min_len)
    }

    /// Steps the cursor to the candidate of the next rank, or reports the
    /// range exhausted when the cursor already sits on `end`.
    pub fn next(&mut self) -> (r: Option<String>)
        requires
            old(self).wf(),
        ensures
            final(self).wf(),
            final(self).alphabet@ == old(self).alphabet@,
            final(self).start@ == old(self).start@,
            final(self).end@ == old(self).end@,
            final(self).hash@ == old(self).hash@,
            match r {
                None => {
                    &&& old(self).current@ == old(self).end@
                    &&& final(self).current@ == old(self).current@
                },
                Some(c) => {
                    &&& old(self).current@ != old(self).end@
                    &&& rank(old(self).alphabet@, final(self).current@) == rank(
                        old(self).alphabet@,
                        old(self).current@,
                    ) + 1
                    &&& c@ == final(self).current@
                },
            },
    {
        let ghost a = self.alphabet@;
        if self.current == self.end {
            return None;
        }
        proof {
            lemma_rank_bounds(a, self.current@);
            if rank(a, self.current@) == rank(a, self.end@) {
                lemma_rank_injective(a, self.current@, self.end@);
            }
        }
        let r = rank_of_str(self.alphabet.as_str(), self.current.as_str());
        let s = str_of_rank(self.alphabet.as_str(), r + 1);
        proof {
            lemma_rank_order(a, self.end@, s@);
        }
        self.current = s;
        Some(self.current.clone())
    }

    /// Splits the range into `min(n, size)` balanced consecutive parts,
    /// covering every candidate of every length in the range exactly once.
    #[verifier::rlimit(100)]
    pub fn divide_into_n(&self, n: usize) -> (parts: Vec<PartOfAProblem>)
        requires
            self.wf(),
            range_size(self.alphabet@, self.start@, self.end@) <= usize::MAX,
        ensures
            divide_post(*self, n as int, parts@),
    {
        let ghost a = self.alphabet@;
        let mut parts: Vec<PartOfAProblem> = Vec::new();
        if n == 0 {
            return parts;
        }
        proof {
            lemma_rank_bounds(a, self.start@);
        }
        let rs = rank_of_str(self.alphabet.as_str(), self.start.as_str());
        let re = rank_of_str(self.alphabet.as_str(), self.end.as_str());
        let total = re - rs + 1;
        let k = if n <= total {
            n
        } else {
            total
        };
        let ghost szs = part_sizes(total as int, k as nat);
        proof {
            lemma_part_sizes(total as int, k as nat);
            assert(szs.subrange(0, k as int) =~= szs);
        }
        let mut cur: usize = rs;
        let mut remaining: usize = total;
        let mut i: usize = 0;
        while i < k
            invariant
                self.wf(),
                a == self.alphabet@,
                1 <= k <= total,
                k <= n,
                total == range_size(a, self.start@, self.end@),
                rank(a, self.end@) == rank(a, self.start@) + total - 1,
                rank(a, self.end@) <= usize::MAX,
                szs == part_sizes(total as int, k as nat),
                szs.len() == k,
                forall|j: int| 0 <= j < k ==> 1 <= #[trigger] szs[j],
                i <= k,
                parts@.len() == i,
                i == 0 ==> remaining == total,
                i < k ==> cur == rank(a, self.start@) + total - remaining,
                i < k ==> remaining as int == seq_sum(szs.subrange(i as int, k as int)),
                i < k ==> part_sizes(remaining as int, (k - i) as nat) == szs.subrange(
                    i as int,
                    k as int,
                ),
                i < k ==> remaining >= k - i,
                forall|j: int| 0 <= j < i ==> (#[trigger] parts@[j]).wf(),
                forall|j: int| 0 <= j < i ==> (#[trigger] parts@[j]).alphabet@ == a,
                forall|j: int| 0 <= j < i ==> (#[trigger] parts@[j]).hash@ == self.hash@,
                forall|j: int|
                    0 <= j < i ==> (#[trigger] parts@[j]).state
                        == PartOfAProblemState::NotDistributed,
                forall|j: int|
                    0 <= j < i ==> (#[trigger] parts@[j]).spec_size() == part_sizes(
                        total as int,
                        k as nat,
                    )[j],
                i > 0 ==> parts@[0].start@ == self.start@,
                i > 0 && i < k ==> rank(a, parts@[i - 1].end@) + 1 == cur,
                i == k ==> rank(a, parts@[i - 1].end@) == rank(a, self.end@),
                forall|j: int|
                    0 <= j < i - 1 ==> rank(a, (#[trigger] parts@[j]).end@) + 1 == rank(
                        a,
                        parts@[j + 1].start@,
                    ),
            decreases k - i,
        {
            let left = k - i;
            let c = if left == 1 {
                remaining
            } else {
                let q = remaining / left;
                proof {
                    vstd::arithmetic::div_mod::lemma_fundamental_div_mod(
                        remaining as int,
                        left as int,
                    );
                    vstd::arithmetic::div_mod::lemma_mod_division_less_than_divisor(
                        remaining as int,
                        left as int,
                    );
                    assert(2 * (q as int) <= remaining as int) by (nonlinear_arith)
                        requires
                            remaining as int == (left as int) * (q as int) + (remaining as int % (
                            left as int)),
                            remaining as int % (left as int) >= 0,
                            left >= 2,
                            q >= 0,
                    ;
                }
                if remaining % left > 0 {
                    q + 1
                } else {
                    q
                }
            };
            proof {
                lemma_part_sizes(remaining as int, left as nat);
                assert(c == part_sizes(remaining as int, left as nat)[0]);
                assert(c == szs[i as int]);
                assert(1 <= c <= remaining - (left - 1));
            }
            let start_s = str_of_rank(self.alphabet.as_str(), cur);
            let end_s = str_of_rank(self.alphabet.as_str(), cur + (c - 1));
            proof {
                if i == 0 {
                    lemma_rank_injective(a, start_s@, self.start@);
                }
            }
            let part = PartOfAProblem {
                start: start_s,
                end: end_s,
                alphabet: self.alphabet.clone(),
                hash: self.hash.clone(),
                state: PartOfAProblemState::NotDistributed,
            };
            parts.push(part);
            proof {
                if left == 1 {
                    assert(szs.subrange(i as int, k as int) =~= seq![remaining as int]);
                    assert(rank(a, parts@[i as int].end@) == rank(a, self.end@));
                } else {
                    let tail = part_sizes((remaining - c) as int, (left - 1) as nat);
                    assert(part_sizes(remaining as int, left as nat) =~= seq![c as int] + tail);
                    assert(szs.subrange(i + 1, k as int) =~= part_sizes(
                        remaining as int,
                        left as nat,
                    ).subrange(1, left as int));
                    assert(part_sizes(remaining as int, left as nat).subrange(1, left as int)
                        =~= tail);
                    lemma_part_sizes((remaining - c) as int, (left - 1) as nat);
                    assert(seq_sum(szs.subrange(i + 1, k as int)) == remaining - c);
                }
            }
            if left > 1 {
                cur = cur + c;
            }
            remaining = remaining - c;
            i = i + 1;
        }
        proof {
            lemma_rank_injective(a, parts@[k - 1].end@, self.end@);
        }
        parts
    }

    /// Whether `candidate`'s digest is this problem's target.
    pub fn check_hash(&self, candidate: &str) -> (r: bool)
        ensures
            r == (sha256_hex_of(candidate@) == self.hash@),
    {
        let digest = sha256_hex(candidate);
        digest == self.hash
    }

    /// Walks the candidates from the cursor to `end` in rank order,
    /// checking each digest; returns the first preimage, or `None` after
    /// the whole remaining range has been enumerated without a match.
    pub fn brute_force(&mut self) -> (r: Option<String>)
        requires
            old(self).wf(),
        ensures
            final(self).wf(),
            final(self).alphabet@ == old(self).alphabet@,
            final(self).start@ == old(self).start@,
            final(self).end@ == old(self).end@,
            final(self).hash@ == old(self).hash@,
            match r {
                Some(c) => {
                    &&& in_alpha(old(self).alphabet@, c@)
                    &&& rank(old(self).alphabet@, old(self).current@) <= rank(
                        old(self).alphabet@,
                        c@,
                    ) <= rank(old(self).alphabet@, old(self).end@)
                    &&& sha256_hex_of(c@) == old(self).hash@
                    &&& no_preimage_between(
                        old(self).alphabet@,
                        old(self).hash@,
                        rank(old(self).alphabet@, old(self).current@),
                        rank(old(self).alphabet@, c@) - 1,
                    )
                    &&& final(self).current@ == c@
                },
                None => {
                    &&& no_preimage_between(
                        old(self).alphabet@,
                        old(self).hash@,
                        rank(old(self).alphabet@, old(self).current@),
                        rank(old(self).alphabet@, old(self).end@),
                    )
                    &&& final(self).current@ == old(self).end@
                },
            },
    {
        let ghost a = self.alphabet@;
        let ghost h = self.hash@;
        let ghost e = self.end@;
        let ghost s0 = self.start@;
        let ghost c0 = self.current@;
        loop
            invariant
                a == old(self).alphabet@,
                h == old(self).hash@,
                e == old(self).end@,
                s0 == old(self).start@,
                c0 == old(self).current@,
                self.wf(),
                self.alphabet@ == a,
                self.hash@ == h,
                self.end@ == e,
                self.start@ == s0,
                rank(a, c0) <= rank(a, self.current@),
                no_preimage_between(a, h, rank(a, c0), rank(a, self.current@) - 1),
            ensures
                self.wf(),
                self.alphabet@ == a,
                self.hash@ == h,
                self.end@ == e,
                self.start@ == s0,
                self.current@ == e,
                no_preimage_between(a, h, rank(a, c0), rank(a, e)),
            decreases rank(a, e) - rank(a, self.current@),
        {
            let candidate = self.current.clone();
            if self.check_hash(candidate.as_str()) {
                return Some(candidate);
            }
            let ghost prev = self.current@;
            match self.next() {
                None => {
                    proof {
                        assert forall|s: Seq<char>|
                            in_alpha(a, s) && rank(a, c0) <= #[trigger] rank(a, s) <= rank(
                                a,
                                e,
                            ) implies sha256_hex_of(s) != h by {
                            if rank(a, s) == rank(a, e) {
                                lemma_rank_injective(a, s, e);
                            }
                        }
                    }
                    break;
                },
                Some(_) => {
                    proof {
                        assert forall|s: Seq<char>|
                            in_alpha(a, s) && rank(a, c0) <= #[trigger] rank(a, s) < rank(
                                a,
                                self.current@,
                            ) implies sha256_hex_of(s) != h by {
                            if rank(a, s) == rank(a, prev) {
                                lemma_rank_injective(a, s, prev);
                            }
                        }
                    }
                },
            }
        }
        None
    }
}

/// The sum of a sequence of integers.
pub open spec fn seq_sum(s: Seq<int>) -> int
    decreases s.len(),
{
    if s.len() == 0 {
        0
    } else {
        s[0] + seq_sum(s.subrange(1, s.len() as int))
    }
}

/// The sizes of `k` balanced consecutive parts of `total` candidates:
/// each part takes the ceiling of what remains over the parts left, and
/// the last part takes exactly the rest.
pub open spec fn part_sizes(total: int, k: nat) -> Seq<int>
    decreases k,
{
    if k == 0 {
        Seq::empty()
    } else if k == 1 {
        seq![total]
    } else {
        let c = total / (k as int) + if total % (k as int) > 0 {
            1int
        } else {
            0int
        };
        seq![c] + part_sizes(total - c, (k - 1) as nat)
    }
}

/// Balanced sizes: `k` of them, each at least 1, the first leaving at
/// least one candidate to every later part, and together exactly `total`.
pub proof fn lemma_part_sizes(total: int, k: nat)
    requires
        1 <= k <= total,
    ensures
        part_sizes(total, k).len() == k,
        forall|i: int| 0 <= i < k ==> 1 <= #[trigger] part_sizes(total, k)[i],
        seq_sum(part_sizes(total, k)) == total,
        1 <= part_sizes(total, k)[0] <= total - (k - 1),
    decreases k,
{
    let whole = part_sizes(total, k);
    if k == 1 {
        assert(whole =~= seq![total]);
        assert(whole.subrange(1, 1) =~= Seq::<int>::empty());
        assert(seq_sum(whole) == total + seq_sum(whole.subrange(1, 1)));
    } else {
        let ki = k as int;
        let q = total / ki;
        let rmd = total % ki;
        let c = q + if rmd > 0 {
            1int
        } else {
            0int
        };
        vstd::arithmetic::div_mod::lemma_fundamental_div_mod(total, ki);
        vstd::arithmetic::div_mod::lemma_mod_division_less_than_divisor(total, ki);
        assert(q >= 1) by (nonlinear_arith)
            requires
                total == ki * q + rmd,
                0 <= rmd < ki,
                total >= ki,
                ki >= 2,
        ;
        if rmd > 0 {
            assert(total - (q + 1) >= ki - 1) by (nonlinear_arith)
                requires
                    total == ki * q + rmd,
                    rmd >= 1,
                    ki >= 2,
                    q >= 1,
            ;
        } else {
            assert(total - q >= ki - 1) by (nonlinear_arith)
                requires
                    total == ki * q + rmd,
                    rmd == 0,
                    ki >= 2,
                    q >= 1,
            ;
        }
        lemma_part_sizes(total - c, (k - 1) as nat);
        let rest = part_sizes(total - c, (k - 1) as nat);
        assert(whole =~= seq![c] + rest);
        assert(whole.subrange(1, whole.len() as int) =~= rest);
        assert(seq_sum(whole) == c + seq_sum(rest));
        assert forall|i: int| 0 <= i < k implies 1 <= whole[i] by {
            if i >= 1 {
                assert(whole[i] == rest[i - 1]);
            }
        }
    }
}

/// What `divide_into_n` returns: `min(n, size)` consecutive parts in
/// ascending rank order, covering `[start, end]` without gap or overlap,
/// each inheriting the alphabet and digest, each not yet distributed,
/// with the balanced sizes of `part_sizes`.
pub open spec fn divide_post(p: Problem, n: int, parts: Seq<PartOfAProblem>) -> bool {
    let a = p.alphabet@;
    let total = range_size(a, p.start@, p.end@);
    let k = if n <= total {
        n
    } else {
        total
    };
    &&& (n == 0 ==> parts.len() == 0)
    &&& (n >= 1 ==> {
        &&& parts.len() == k
        &&& (forall|i: int| 0 <= i < k ==> (#[trigger] parts[i]).wf())
        &&& (forall|i: int| 0 <= i < k ==> (#[trigger] parts[i]).alphabet@ == a)
        &&& (forall|i: int| 0 <= i < k ==> (#[trigger] parts[i]).hash@ == p.hash@)
        &&& (forall|i: int|
            0 <= i < k ==> (#[trigger] parts[i]).state == PartOfAProblemState::NotDistributed)
        &&& parts[0].start@ == p.start@
        &&& parts[k - 1].end@ == p.end@
        &&& (forall|i: int, j: int|
            0 <= i < j < k && j == i + 1 ==> rank(a, (#[trigger] parts[i]).end@) + 1 == rank(
                a,
                (#[trigger] parts[j]).start@,
            ))
        &&& (forall|i: int|
            0 <= i < k ==> (#[trigger] parts[i]).spec_size() == part_sizes(total, k as nat)[i])
    })
}

/// No string with a rank in `[lo, hi]` hashes to `h`.
pub open spec fn no_preimage_between(a: Seq<char>, h: Seq<char>, lo: int, hi: int) -> bool {
    forall|s: Seq<char>|
        in_alpha(a, s) && lo <= #[trigger] rank(a, s) <= hi ==> sha256_hex_of(s) != h
}

/// The lowercase hex SHA-256 digest of a string's UTF-8 bytes; it depends
/// on the characters alone.
pub uninterp spec fn sha256_hex_of(s: Seq<char>) -> Seq<char>;

/// Relies on sha2::Sha256 (via the digest traits' new/update/finalize) and
/// generic-array's LowerHex: the lowercase hex SHA-256 digest of the
/// candidate's UTF-8 bytes, a function of the candidate alone.
#[verifier::external_body]
fn sha256_hex(candidate: &str) -> (r: String)
    ensures
        r@ == sha256_hex_of(candidate@),
{
    let mut hasher = Sha256::new();
    hasher.update(candidate.as_bytes());
    let result = hasher.finalize();
    format!("{:x}", result)
}

} // verus!
