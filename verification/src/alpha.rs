//! Indexing of strings over an ordered alphabet.
//!
//! A string over an alphabet of size `b` is read as a base-`b` number,
//! most significant position first; that is its *index* among the strings
//! of its own length. Ordering strings by length first and index second
//! gives every string a *rank*: a bijection between strings over the
//! alphabet and the naturals, with the empty string at rank 0. The range
//! algebra and the search enumerator both work on ranks.

use vstd::prelude::*;
use vstd::string::*;
use vstd::arithmetic::power::pow;
use vstd::arithmetic::power::lemma_pow_positive;
use vstd::arithmetic::power::lemma_pow_adds;
use vstd::arithmetic::power::lemma_pow0;
use vstd::arithmetic::power::lemma_pow1;

verus! {

/// An alphabet is usable when it is nonempty and its characters are distinct.
pub open spec fn wf_alphabet(a: Seq<char>) -> bool {
    &&& a.len() >= 1
    &&& forall|i: int, j: int| 0 <= i < j < a.len() ==> a[i] != a[j]
}

/// Every character of `s` is drawn from the alphabet.
pub open spec fn in_alpha(a: Seq<char>, s: Seq<char>) -> bool {
    forall|i: int| 0 <= i < s.len() ==> a.contains(#[trigger] s[i])
}

/// The position of `c` within the alphabet; unique when the alphabet is
/// well formed.
pub open spec fn pos_in(a: Seq<char>, c: char) -> int {
    choose|i: int| 0 <= i < a.len() && a[i] == c
}

/// The index of `s` among strings of its own length: `s` read as a
/// base-`|a|` number, most significant position first.
pub open spec fn str_index(a: Seq<char>, s: Seq<char>) -> int
    decreases s.len(),
{
    if s.len() == 0 {
        0
    } else {
        str_index(a, s.drop_last()) * a.len() + pos_in(a, s.last())
    }
}

/// How many strings over an alphabet of size `b` are strictly shorter
/// than `len` (the empty string counted).
pub open spec fn total_shorter(b: int, len: nat) -> int
    decreases len,
{
    if len == 0 {
        0
    } else {
        total_shorter(b, (len - 1) as nat) + pow(b, (len - 1) as nat)
    }
}

/// The rank of `s` in length-then-index order over all strings drawn
/// from the alphabet. The empty string has rank 0.
pub open spec fn rank(a: Seq<char>, s: Seq<char>) -> int {
    total_shorter(a.len() as int, s.len()) + str_index(a, s)
}

/// How many base-`b` digits `idx` takes to write (none for 0).
pub open spec fn num_digits(b: int, idx: int) -> nat
    decreases idx via num_digits_decreases
{
    if b < 2 || idx <= 0 {
        0
    } else {
        1 + num_digits(b, idx / b)
    }
}

#[via_fn]
proof fn num_digits_decreases(b: int, idx: int) {
    if b >= 2 && idx > 0 {
        vstd::arithmetic::div_mod::lemma_div_decreases(idx, b);
        vstd::arithmetic::div_mod::lemma_div_pos_is_pos(idx, b);
    }
}

/// One unfolding step of `str_index` for a nonempty string.
pub proof fn lemma_str_index_step(a: Seq<char>, s: Seq<char>)
    requires
        s.len() > 0,
    ensures
        str_index(a, s) == str_index(a, s.drop_last()) * a.len() + pos_in(a, s.last()),
{
}

pub proof fn lemma_pos_in(a: Seq<char>, c: char)
    requires
        wf_alphabet(a),
        a.contains(c),
    ensures
        0 <= pos_in(a, c) < a.len(),
        a[pos_in(a, c)] == c,
        forall|i: int| 0 <= i < a.len() && a[i] == c ==> i == pos_in(a, c),
{
    let w = choose|i: int| 0 <= i < a.len() && a[i] == c;
    assert(a[w] == c);
}

/// The index of an in-alphabet string lies below `b^len`.
pub proof fn lemma_str_index_bounds(a: Seq<char>, s: Seq<char>)
    requires
        wf_alphabet(a),
        in_alpha(a, s),
    ensures
        0 <= str_index(a, s) < pow(a.len() as int, s.len()),
    decreases s.len(),
{
    let b = a.len() as int;
    if s.len() == 0 {
        lemma_pow0(b);
    } else {
        let t = s.drop_last();
        assert(in_alpha(a, t)) by {
            assert(forall|i: int| 0 <= i < t.len() ==> t[i] == s[i]);
        }
        lemma_str_index_bounds(a, t);
        lemma_pos_in(a, s.last());
        let q = str_index(a, t);
        let p = pow(b, (s.len() - 1) as nat);
        assert(q * b + pos_in(a, s.last()) < p * b) by (nonlinear_arith)
            requires
                0 <= q < p,
                0 <= pos_in(a, s.last()) < b,
        ;
        assert(0 <= q * b) by (nonlinear_arith)
            requires
                0 <= q,
                0 <= b,
        ;
        assert(pow(b, s.len()) == p * b) by {
            lemma_pow1(b);
            lemma_pow_adds(b, (s.len() - 1) as nat, 1);
        }
    }
}

/// Two in-alphabet strings of one length with one index are the same string.
pub proof fn lemma_str_index_injective(a: Seq<char>, s1: Seq<char>, s2: Seq<char>)
    requires
        wf_alphabet(a),
        in_alpha(a, s1),
        in_alpha(a, s2),
        s1.len() == s2.len(),
        str_index(a, s1) == str_index(a, s2),
    ensures
        s1 == s2,
    decreases s1.len(),
{
    let b = a.len() as int;
    if s1.len() == 0 {
        assert(s1 =~= s2);
    } else {
        let t1 = s1.drop_last();
        let t2 = s2.drop_last();
        assert(in_alpha(a, t1)) by {
            assert(forall|i: int| 0 <= i < t1.len() ==> t1[i] == s1[i]);
        }
        assert(in_alpha(a, t2)) by {
            assert(forall|i: int| 0 <= i < t2.len() ==> t2[i] == s2[i]);
        }
        lemma_str_index_bounds(a, t1);
        lemma_str_index_bounds(a, t2);
        lemma_pos_in(a, s1.last());
        lemma_pos_in(a, s2.last());
        let q1 = str_index(a, t1);
        let q2 = str_index(a, t2);
        let r1 = pos_in(a, s1.last());
        let r2 = pos_in(a, s2.last());
        assert(q1 == q2 && r1 == r2) by (nonlinear_arith)
            requires
                q1 * b + r1 == q2 * b + r2,
                0 <= r1 < b,
                0 <= r2 < b,
                0 <= q1,
                0 <= q2,
        ;
        assert(s1.last() == s2.last()) by {
            assert(a[r1] == s1.last());
            assert(a[r2] == s2.last());
        }
        lemma_str_index_injective(a, t1, t2);
        assert(s1 =~= t1.push(s1.last()));
        assert(s2 =~= t2.push(s2.last()));
    }
}

/// Counts of shorter strings grow with the length bound.
pub proof fn lemma_total_shorter_monotone(b: int, l1: nat, l2: nat)
    requires
        b >= 1,
        l1 <= l2,
    ensures
        total_shorter(b, l1) <= total_shorter(b, l2),
    decreases l2,
{
    if l1 < l2 {
        lemma_total_shorter_monotone(b, l1, (l2 - 1) as nat);
        lemma_pow_positive(b, (l2 - 1) as nat);
    }
}

pub proof fn lemma_total_shorter_nonneg(b: int, l: nat)
    requires
        b >= 1,
    ensures
        total_shorter(b, l) >= 0,
{
    lemma_total_shorter_monotone(b, 0, l);
}

/// The ranks of strings of length `l` fill exactly
/// `[total_shorter(l), total_shorter(l + 1))`.
pub proof fn lemma_rank_bounds(a: Seq<char>, s: Seq<char>)
    requires
        wf_alphabet(a),
        in_alpha(a, s),
    ensures
        total_shorter(a.len() as int, s.len()) <= rank(a, s),
        rank(a, s) < total_shorter(a.len() as int, (s.len() + 1) as nat),
        rank(a, s) >= 0,
{
    lemma_str_index_bounds(a, s);
    lemma_total_shorter_nonneg(a.len() as int, s.len());
}

/// Rank respects length-then-index order.
pub proof fn lemma_rank_order(a: Seq<char>, s1: Seq<char>, s2: Seq<char>)
    requires
        wf_alphabet(a),
        in_alpha(a, s1),
        in_alpha(a, s2),
    ensures
        rank(a, s1) < rank(a, s2) <==> (s1.len() < s2.len()
            || (s1.len() == s2.len() && str_index(a, s1) < str_index(a, s2))),
{
    let b = a.len() as int;
    lemma_str_index_bounds(a, s1);
    lemma_str_index_bounds(a, s2);
    if s1.len() < s2.len() {
        lemma_total_shorter_monotone(b, (s1.len() + 1) as nat, s2.len());
    } else if s2.len() < s1.len() {
        lemma_total_shorter_monotone(b, (s2.len() + 1) as nat, s1.len());
    }
}

/// One rank names one string: ranks are injective over in-alphabet strings.
pub proof fn lemma_rank_injective(a: Seq<char>, s1: Seq<char>, s2: Seq<char>)
    requires
        wf_alphabet(a),
        in_alpha(a, s1),
        in_alpha(a, s2),
        rank(a, s1) == rank(a, s2),
    ensures
        s1 == s2,
{
    lemma_rank_order(a, s1, s2);
    lemma_rank_order(a, s2, s1);
    lemma_str_index_injective(a, s1, s2);
}

/// A string of repeated first characters has index 0, and one of repeated
/// last characters has the largest index of its length.
pub proof fn lemma_repeat_index(a: Seq<char>, s: Seq<char>, c: char)
    requires
        wf_alphabet(a),
        a.contains(c),
        forall|i: int| 0 <= i < s.len() ==> s[i] == c,
    ensures
        in_alpha(a, s),
        pos_in(a, c) == 0 ==> str_index(a, s) == 0,
        pos_in(a, c) == a.len() - 1 ==> str_index(a, s) == pow(a.len() as int, s.len()) - 1,
    decreases s.len(),
{
    let b = a.len() as int;
    if s.len() == 0 {
        lemma_pow0(b);
    } else {
        let t = s.drop_last();
        assert(forall|i: int| 0 <= i < t.len() ==> t[i] == c);
        lemma_repeat_index(a, t, c);
        assert(s.last() == c);
        if pos_in(a, c) == a.len() - 1 {
            let p = pow(b, (s.len() - 1) as nat);
            assert(str_index(a, s) == (p - 1) * b + (b - 1));
            assert((p - 1) * b + (b - 1) == p * b - 1) by (nonlinear_arith);
            assert(pow(b, s.len()) == b * pow(b, (s.len() - 1) as nat)) by {
                lemma_pow1(b);
                lemma_pow_adds(b, 1, (s.len() - 1) as nat);
            }
        }
    }
}

/// An index below `b^len` needs at most `len` digits.
pub proof fn lemma_num_digits_le(b: int, idx: int, len: nat)
    requires
        b >= 2,
        0 <= idx < pow(b, len),
    ensures
        num_digits(b, idx) <= len,
    decreases len,
{
    if idx == 0 {
    } else {
        if len == 0 {
            lemma_pow0(b);
        } else {
            lemma_pow_positive(b, (len - 1) as nat);
            assert(pow(b, len) == b * pow(b, (len - 1) as nat)) by {
                lemma_pow1(b);
                lemma_pow_adds(b, 1, (len - 1) as nat);
            }
            assert(idx / b < pow(b, (len - 1) as nat)) by (nonlinear_arith)
                requires
                    b >= 2,
                    0 <= idx,
                    idx < b * pow(b, (len - 1) as nat),
                    pow(b, (len - 1) as nat) >= 1,
            {
            }
            lemma_num_digits_le(b, idx / b, (len - 1) as nat);
        }
    }
}

/// There are at least as many shorter strings as the length bound itself.
pub proof fn lemma_total_shorter_ge_len(b: int, l: nat)
    requires
        b >= 1,
    ensures
        total_shorter(b, l) >= l,
    decreases l,
{
    if l > 0 {
        lemma_total_shorter_ge_len(b, (l - 1) as nat);
        lemma_pow_positive(b, (l - 1) as nat);
    }
}

/// A prefix of a string has an index no larger than the whole string's.
pub proof fn lemma_str_index_prefix(a: Seq<char>, s: Seq<char>, j: int)
    requires
        wf_alphabet(a),
        in_alpha(a, s),
        0 <= j <= s.len(),
    ensures
        0 <= str_index(a, s.subrange(0, j)) <= str_index(a, s),
    decreases s.len() - j,
{
    let b = a.len() as int;
    assert(in_alpha(a, s.subrange(0, j)));
    lemma_str_index_bounds(a, s.subrange(0, j));
    if j == s.len() {
        assert(s.subrange(0, j) =~= s);
    } else {
        let u = s.subrange(0, j);
        let v = s.subrange(0, j + 1);
        assert(v.drop_last() =~= u);
        assert(v.last() == s[j]);
        lemma_pos_in(a, s[j]);
        let q = str_index(a, u);
        assert(q <= q * b) by (nonlinear_arith)
            requires
                0 <= q,
                b >= 1,
        ;
        lemma_str_index_prefix(a, s, j + 1);
    }
}

/// Putting a digit in front multiplies its weight by the base to the
/// length of the rest.
pub proof fn lemma_str_index_prepend(a: Seq<char>, c: char, s: Seq<char>)
    requires
        wf_alphabet(a),
    ensures
        str_index(a, seq![c] + s) == pos_in(a, c) * pow(a.len() as int, s.len()) + str_index(
            a,
            s,
        ),
    decreases s.len(),
{
    let b = a.len() as int;
    if s.len() == 0 {
        assert(seq![c] + s =~= seq![c]);
        assert((seq![c] + s).drop_last() =~= Seq::<char>::empty());
        assert((seq![c] + s).last() == c);
        assert(str_index(a, seq![c] + s) == str_index(a, Seq::<char>::empty()) * b + pos_in(a, c));
        lemma_pow0(b);
    } else {
        let w = seq![c] + s;
        assert(w.drop_last() =~= seq![c] + s.drop_last());
        assert(w.last() == s.last());
        lemma_str_index_prepend(a, c, s.drop_last());
        let p = pow(b, (s.len() - 1) as nat);
        let q = pos_in(a, c);
        let t = str_index(a, s.drop_last());
        assert(pow(b, s.len()) == p * b) by {
            lemma_pow1(b);
            lemma_pow_adds(b, (s.len() - 1) as nat, 1);
        }
        assert((q * p + t) * b == q * (p * b) + t * b) by (nonlinear_arith);
    }
}

/// Relies on String::push: appends one character at the end.
#[verifier::external_body]
pub(crate) fn push_char(s: &mut String, c: char)
    ensures
        final(s)@ == old(s)@.push(c),
{
    s.push(c);
}

/// A string of `n` copies of one character.
pub fn repeat_char(c: char, n: usize) -> (s: String)
    ensures
        s@.len() == n,
        forall|i: int| 0 <= i < n ==> s@[i] == c,
{
    let mut s = String::new();
    let mut i: usize = 0;
    while i < n
        invariant
            i <= n,
            s@.len() == i,
            forall|j: int| 0 <= j < i ==> s@[j] == c,
        decreases n - i,
    {
        push_char(&mut s, c);
        i += 1;
    }
    s
}

/// Looks a character up in the alphabet.
pub fn find_pos(alphabet: &str, c: char) -> (r: Option<usize>)
    ensures
        match r {
            Some(i) => i < alphabet@.len() && alphabet@[i as int] == c,
            None => !alphabet@.contains(c),
        },
{
    let n = alphabet.unicode_len();
    let mut i: usize = 0;
    while i < n
        invariant
            i <= n,
            n == alphabet@.len(),
            forall|j: int| 0 <= j < i ==> alphabet@[j] != c,
        decreases n - i,
    {
        if alphabet.get_char(i) == c {
            return Some(i);
        }
        i += 1;
    }
    None
}

/// Whether every character of `s` is drawn from the alphabet.
pub fn check_in_alpha(alphabet: &str, s: &str) -> (r: bool)
    ensures
        r == in_alpha(alphabet@, s@),
{
    let n = s.unicode_len();
    let mut i: usize = 0;
    while i < n
        invariant
            i <= n,
            n == s@.len(),
            forall|j: int| 0 <= j < i ==> alphabet@.contains(#[trigger] s@[j]),
        decreases n - i,
    {
        let c = s.get_char(i);
        match find_pos(alphabet, c) {
            Some(p) => {
                proof {
                    assert(alphabet@.contains(s@[i as int]));
                }
            },
            None => {
                return false;
            },
        }
        i += 1;
    }
    true
}

/// The index of `s` among strings of its length, computed digit by digit.
pub fn str_to_index(alphabet: &str, s: &str) -> (idx: usize)
    requires
        wf_alphabet(alphabet@),
        in_alpha(alphabet@, s@),
        str_index(alphabet@, s@) <= usize::MAX,
    ensures
        idx == str_index(alphabet@, s@),
{
    let ghost a = alphabet@;
    let ghost b = a.len() as int;
    let n = s.unicode_len();
    let base = alphabet.unicode_len();
    let mut acc: usize = 0;
    let mut i: usize = 0;
    while i < n
        invariant
            i <= n,
            n == s@.len(),
            base == a.len(),
            a == alphabet@,
            b == a.len() as int,
            wf_alphabet(a),
            in_alpha(a, s@),
            str_index(a, s@) <= usize::MAX,
            acc == str_index(a, s@.subrange(0, i as int)),
        decreases n - i,
    {
        let c = s.get_char(i);
        proof {
            assert(a.contains(s@[i as int]));
        }
        let p = find_pos(alphabet, c).unwrap();
        proof {
            lemma_pos_in(a, c);
            assert(a[p as int] == c);
            assert(p == pos_in(a, c));
            let u = s@.subrange(0, i as int);
            let v = s@.subrange(0, i + 1);
            assert(v.drop_last() =~= u);
            assert(v.last() == s@[i as int]);
            lemma_str_index_step(a, v);
            assert(str_index(a, v) == acc * b + p as int);
            lemma_str_index_prefix(a, s@, i + 1);
        }
        acc = acc * base + p;
        i += 1;
    }
    proof {
        assert(s@.subrange(0, n as int) =~= s@);
    }
    acc
}

/// The in-alphabet string with the given index, padded with the
/// alphabet's first character up to `min_len`.
pub fn index_to_str(alphabet: &str, idx: usize, min_len: usize) -> (s: String)
    requires
        wf_alphabet(alphabet@),
        alphabet@.len() >= 2 || idx == 0,
    ensures
        in_alpha(alphabet@, s@),
        str_index(alphabet@, s@) == idx,
        s@.len() == vstd::math::max(min_len as int, num_digits(alphabet@.len() as int, idx as int) as int),
{
    let ghost a = alphabet@;
    let ghost b = a.len() as int;
    let base = alphabet.unicode_len();
    let mut digits: Vec<char> = Vec::new();
    let mut v: usize = idx;
    proof {
        lemma_pow0(b);
    }
    while v > 0
        invariant
            wf_alphabet(a),
            a == alphabet@,
            base == a.len(),
            b == a.len() as int,
            b >= 2 || idx == 0,
            in_alpha(a, digits@.reverse()),
            idx == v * pow(b, digits@.len()) + str_index(a, digits@.reverse()),
            0 <= str_index(a, digits@.reverse()) < pow(b, digits@.len()),
            num_digits(b, idx as int) == digits@.len() + num_digits(b, v as int),
            v <= idx,
        decreases v,
    {
        let d = v % base;
        let c = alphabet.get_char(d);
        let ghost old_digits = digits@;
        let ghost k = old_digits.len();
        digits.push(c);
        proof {
            lemma_pos_in(a, c);
            assert(pos_in(a, c) == d as int);
            assert(digits@.reverse() =~= seq![c] + old_digits.reverse());
            lemma_str_index_prepend(a, c, old_digits.reverse());
            assert(in_alpha(a, digits@.reverse()));
            let pk = pow(b, k);
            assert(pow(b, (k + 1) as nat) == pk * b) by {
                lemma_pow1(b);
                lemma_pow_adds(b, k, 1);
            }
            let r = str_index(a, old_digits.reverse());
            assert(v as int == (v as int / b) * b + d) by {
                vstd::arithmetic::div_mod::lemma_fundamental_div_mod(v as int, b);
            }
            assert(((v as int / b) * b + d) * pk == (v as int / b) * (pk * b) + d * pk)
                by (nonlinear_arith);
            assert(d * pk + r < pk * b) by (nonlinear_arith)
                requires
                    0 <= r < pk,
                    0 <= d < b,
                    pk >= 1,
            ;
            assert(0 <= d * pk) by (nonlinear_arith)
                requires
                    0 <= d,
                    pk >= 1,
            ;
            assert(v as int / b < v) by {
                vstd::arithmetic::div_mod::lemma_div_decreases(v as int, b);
            }
            assert(v as int / b >= 0) by {
                vstd::arithmetic::div_mod::lemma_div_pos_is_pos(v as int, b);
            }
        }
        v = v / base;
    }
    proof {
        assert(v == 0);
        assert(num_digits(b, 0int) == 0);
        assert(pow(b, 0nat) == 1) by {
            lemma_pow0(b);
        }
        assert(idx == str_index(a, digits@.reverse()));
        assert(digits@.len() == num_digits(b, idx as int));
    }
    let first = alphabet.get_char(0);
    while digits.len() < min_len
        invariant
            wf_alphabet(a),
            a == alphabet@,
            first == a[0],
            in_alpha(a, digits@.reverse()),
            idx == str_index(a, digits@.reverse()),
            digits@.len() >= num_digits(b, idx as int),
            digits@.len() <= vstd::math::max(min_len as int, num_digits(b, idx as int) as int),
        decreases min_len - digits@.len(),
    {
        let ghost old_digits = digits@;
        digits.push(first);
        proof {
            lemma_pos_in(a, first);
            assert(a[0] == first && a[pos_in(a, first)] == first);
            assert(pos_in(a, first) == 0);
            assert(digits@.reverse() =~= seq![first] + old_digits.reverse());
            lemma_str_index_prepend(a, first, old_digits.reverse());
        }
    }
    let mut s = String::new();
    let mut i = digits.len();
    while i > 0
        invariant
            i <= digits@.len(),
            s@ =~= digits@.subrange(i as int, digits@.len() as int).reverse(),
        decreases i,
    {
        i -= 1;
        let ghost old_s = s@;
        push_char(&mut s, digits[i]);
        proof {
            let tail = digits@.subrange(i as int, digits@.len() as int);
            assert(tail =~= seq![digits@[i as int]] + digits@.subrange(
                i + 1,
                digits@.len() as int,
            ));
            assert(tail.reverse() =~= digits@.subrange(i + 1, digits@.len() as int).reverse().push(
                digits@[i as int],
            ));
        }
    }
    proof {
        assert(s@ =~= digits@.reverse());
    }
    s
}

/// The rank of `s`: its place among all strings over the alphabet in
/// length-then-index order.
pub fn rank_of_str(alphabet: &str, s: &str) -> (r: usize)
    requires
        wf_alphabet(alphabet@),
        in_alpha(alphabet@, s@),
        rank(alphabet@, s@) <= usize::MAX,
    ensures
        r == rank(alphabet@, s@),
{
    let ghost a = alphabet@;
    let ghost b = a.len() as int;
    proof {
        lemma_str_index_bounds(a, s@);
        lemma_total_shorter_nonneg(b, s@.len());
    }
    let idx = str_to_index(alphabet, s);
    let n = s.unicode_len();
    let base = alphabet.unicode_len();
    let mut t: u128 = 0;
    let mut p: u128 = 1;
    let mut l: usize = 0;
    proof {
        lemma_pow0(b);
    }
    while l < n
        invariant
            l <= n,
            n == s@.len(),
            base == a.len(),
            a == alphabet@,
            b == a.len() as int,
            wf_alphabet(a),
            t == total_shorter(b, l as nat),
            p == pow(b, l as nat),
            total_shorter(b, n as nat) <= usize::MAX,
        decreases n - l,
    {
        proof {
            lemma_total_shorter_monotone(b, (l + 1) as nat, n as nat);
            lemma_total_shorter_nonneg(b, l as nat);
            lemma_pow_positive(b, l as nat);
            assert(pow(b, (l + 1) as nat) == p * b) by {
                lemma_pow1(b);
                lemma_pow_adds(b, l as nat, 1);
            }
            assert(p * b <= (usize::MAX as int) * (usize::MAX as int)) by (nonlinear_arith)
                requires
                    0 <= p <= usize::MAX as int,
                    0 <= b <= usize::MAX as int,
            ;
            assert((usize::MAX as int) * (usize::MAX as int) < (u128::MAX as int))
                by (nonlinear_arith)
                requires
                    (usize::MAX as int) <= (u64::MAX as int),
            ;
        }
        t = t + p;
        p = p * (base as u128);
        l = l + 1;
    }
    (t + idx as u128) as usize
}

/// The unique string over the alphabet with the given rank.
pub fn str_of_rank(alphabet: &str, r: usize) -> (s: String)
    requires
        wf_alphabet(alphabet@),
    ensures
        in_alpha(alphabet@, s@),
        rank(alphabet@, s@) == r,
{
    let ghost a = alphabet@;
    let ghost b = a.len() as int;
    let base = alphabet.unicode_len();
    let mut t: u128 = 0;
    let mut p: u128 = 1;
    let mut l: usize = 0;
    proof {
        lemma_pow0(b);
        assert((usize::MAX as int) * (usize::MAX as int) + (usize::MAX as int) < (u128::MAX as int))
            by (nonlinear_arith)
            requires
                (usize::MAX as int) <= (u64::MAX as int),
        ;
    }
    while t + p <= r as u128
        invariant
            wf_alphabet(a),
            a == alphabet@,
            base == a.len(),
            b == a.len() as int,
            t == total_shorter(b, l as nat),
            p == pow(b, l as nat),
            t <= r as int,
            l <= t,
            1 <= p <= (usize::MAX as int) * (usize::MAX as int),
            (usize::MAX as int) * (usize::MAX as int) + (usize::MAX as int) < (u128::MAX as int),
        decreases r - t,
    {
        proof {
            lemma_pow_positive(b, (l + 1) as nat);
            assert(pow(b, (l + 1) as nat) == p * b) by {
                lemma_pow1(b);
                lemma_pow_adds(b, l as nat, 1);
            }
            assert(p * b <= (usize::MAX as int) * (usize::MAX as int)) by (nonlinear_arith)
                requires
                    0 <= p <= usize::MAX as int,
                    0 <= b <= usize::MAX as int,
            ;
            lemma_total_shorter_ge_len(b, (l + 1) as nat);
        }
        t = t + p;
        p = p * (base as u128);
        l = l + 1;
    }
    let idx = (r as u128 - t) as usize;
    proof {
        if b < 2 {
            assert(p == 1) by {
                vstd::arithmetic::power::lemma1_pow(l as nat);
            }
        } else {
            lemma_num_digits_le(b, idx as int, l as nat);
        }
    }
    let s = index_to_str(alphabet, idx, l);
    proof {
        assert(s@.len() == l);
    }
    s
}

/// The base-`b` successor of `s` at fixed length, with carry; a string
/// of all last characters wraps around to all first characters.
pub fn next_str(s: &str, alphabet: &str) -> (r: String)
    requires
        wf_alphabet(alphabet@),
        in_alpha(alphabet@, s@),
        str_index(alphabet@, s@) + 1 <= usize::MAX,
    ensures
        r@.len() == s@.len(),
        in_alpha(alphabet@, r@),
        str_index(alphabet@, r@) == (if str_index(alphabet@, s@) + 1 < pow(
            alphabet@.len() as int,
            s@.len(),
        ) {
            str_index(alphabet@, s@) + 1
        } else {
            0
        }),
{
    let ghost a = alphabet@;
    let ghost bi = a.len() as int;
    proof {
        lemma_str_index_bounds(a, s@);
    }
    let n = s.unicode_len();
    let b = alphabet.unicode_len();
    let last_char = alphabet.get_char(b - 1);
    let mut k = n;
    while k > 0
        invariant
            a == alphabet@,
            wf_alphabet(a),
            in_alpha(a, s@),
            n == s@.len(),
            last_char == a[a.len() - 1],
            k <= n,
            forall|t: int| k <= t < n ==> s@[t] == a[a.len() - 1],
        ensures
            k <= n,
            forall|t: int| k <= t < n ==> s@[t] == a[a.len() - 1],
            k > 0 ==> s@[k - 1] != a[a.len() - 1],
        decreases k,
    {
        if s.get_char(k - 1) != last_char {
            break;
        }
        k -= 1;
    }
    if k == 0 {
        proof {
            lemma_pos_in(a, last_char);
            lemma_repeat_index(a, s@, last_char);
        }
        let r = repeat_char(alphabet.get_char(0), n);
        proof {
            lemma_pos_in(a, a[0]);
            lemma_repeat_index(a, r@, a[0]);
        }
        r
    } else {
        proof {
            assert(a.contains(s@[k - 1]));
            if a.len() < 2 {
                lemma_pos_in(a, s@[k - 1]);
                assert(s@[k - 1] == a[0]);
            }
            let t = Seq::new(n as nat, |i: int| a[a.len() - 1]);
            lemma_pos_in(a, last_char);
            lemma_repeat_index(a, t, last_char);
            if str_index(a, s@) == pow(bi, n as nat) - 1 {
                lemma_str_index_injective(a, s@, t);
            }
            lemma_num_digits_le(bi, str_index(a, s@) + 1, n as nat);
        }
        let idx = str_to_index(alphabet, s);
        index_to_str(alphabet, idx + 1, n)
    }
}

/// The base-`b` predecessor of `s` at fixed length, with borrow; a
/// string of all first characters wraps around to all last characters.
pub fn prev_str(s: &str, alphabet: &str) -> (r: String)
    requires
        wf_alphabet(alphabet@),
        in_alpha(alphabet@, s@),
        str_index(alphabet@, s@) <= usize::MAX,
    ensures
        r@.len() == s@.len(),
        in_alpha(alphabet@, r@),
        str_index(alphabet@, r@) == (if str_index(alphabet@, s@) > 0 {
            str_index(alphabet@, s@) - 1
        } else {
            pow(alphabet@.len() as int, s@.len()) - 1
        }),
{
    let ghost a = alphabet@;
    let ghost bi = a.len() as int;
    proof {
        lemma_str_index_bounds(a, s@);
    }
    let n = s.unicode_len();
    let first_char = alphabet.get_char(0);
    let mut k = n;
    while k > 0
        invariant
            a == alphabet@,
            wf_alphabet(a),
            in_alpha(a, s@),
            n == s@.len(),
            first_char == a[0],
            k <= n,
            forall|t: int| k <= t < n ==> s@[t] == a[0],
        ensures
            k <= n,
            forall|t: int| k <= t < n ==> s@[t] == a[0],
            k > 0 ==> s@[k - 1] != a[0],
        decreases k,
    {
        if s.get_char(k - 1) != first_char {
            break;
        }
        k -= 1;
    }
    if k == 0 {
        proof {
            lemma_pos_in(a, first_char);
            lemma_repeat_index(a, s@, first_char);
        }
        let b = alphabet.unicode_len();
        let r = repeat_char(alphabet.get_char(b - 1), n);
        proof {
            lemma_pos_in(a, a[a.len() - 1]);
            lemma_repeat_index(a, r@, a[a.len() - 1]);
        }
        r
    } else {
        proof {
            assert(a.contains(s@[k - 1]));
            if a.len() < 2 {
                lemma_pos_in(a, s@[k - 1]);
                assert(s@[k - 1] == a[0]);
            }
            let t = Seq::new(n as nat, |i: int| a[0]);
            lemma_pos_in(a, a[0]);
            lemma_repeat_index(a, t, a[0]);
            if str_index(a, s@) == 0 {
                lemma_str_index_injective(a, s@, t);
            }
            lemma_num_digits_le(bi, str_index(a, s@) - 1, n as nat);
        }
        let idx = str_to_index(alphabet, s);
        index_to_str(alphabet, idx - 1, n)
    }
}

/// The rank of `s`, or nothing when `s` leaves the alphabet or its rank
/// does not fit the machine; safe on any input.
pub fn checked_rank(alphabet: &str, s: &str) -> (r: Option<usize>)
    requires
        wf_alphabet(alphabet@),
    ensures
        match r {
            Some(v) => in_alpha(alphabet@, s@) && rank(alphabet@, s@) == v,
            None => !(in_alpha(alphabet@, s@) && rank(alphabet@, s@) <= usize::MAX),
        },
{
    let ghost a = alphabet@;
    let ghost b = a.len() as int;
    if !check_in_alpha(alphabet, s) {
        return None;
    }
    proof {
        lemma_str_index_bounds(a, s@);
        lemma_total_shorter_nonneg(b, s@.len());
        assert((usize::MAX as int) * (usize::MAX as int) + (usize::MAX as int) < (u128::MAX as int))
            by (nonlinear_arith)
            requires
                (usize::MAX as int) <= (u64::MAX as int),
        ;
    }
    let n = s.unicode_len();
    let base = alphabet.unicode_len();
    let mut acc: u128 = 0;
    let mut i: usize = 0;
    while i < n
        invariant
            i <= n,
            n == s@.len(),
            base == a.len(),
            a == alphabet@,
            b == a.len() as int,
            wf_alphabet(a),
            in_alpha(a, s@),
            acc == str_index(a, s@.subrange(0, i as int)),
            acc <= usize::MAX,
            (usize::MAX as int) * (usize::MAX as int) + (usize::MAX as int) < (u128::MAX as int),
        decreases n - i,
    {
        let c = s.get_char(i);
        proof {
            assert(a.contains(s@[i as int]));
        }
        let p = find_pos(alphabet, c).unwrap();
        proof {
            lemma_pos_in(a, c);
            assert(a[p as int] == c);
            assert(p == pos_in(a, c));
            let u = s@.subrange(0, i as int);
            let v = s@.subrange(0, i + 1);
            assert(v.drop_last() =~= u);
            assert(v.last() == s@[i as int]);
            lemma_str_index_step(a, v);
            assert(acc * b <= (usize::MAX as int) * (usize::MAX as int)) by (nonlinear_arith)
                requires
                    0 <= acc <= (usize::MAX as int),
                    0 <= b <= (usize::MAX as int),
            ;
        }
        acc = acc * (base as u128) + (p as u128);
        if acc > (usize::MAX as u128) {
            proof {
                lemma_str_index_prefix(a, s@, i + 1);
                lemma_total_shorter_nonneg(b, s@.len());
            }
            return None;
        }
        i += 1;
    }
    proof {
        assert(s@.subrange(0, n as int) =~= s@);
    }
    let mut t: u128 = 0;
    let mut p2: u128 = 1;
    let mut l: usize = 0;
    proof {
        lemma_pow0(b);
    }
    while l < n
        invariant
            l <= n,
            n == s@.len(),
            base == a.len(),
            a == alphabet@,
            b == a.len() as int,
            wf_alphabet(a),
            in_alpha(a, s@),
            acc == str_index(a, s@),
            acc <= usize::MAX,
            t == total_shorter(b, l as nat),
            p2 == pow(b, l as nat),
            t <= usize::MAX,
            1 <= p2 <= (usize::MAX as int) * (usize::MAX as int),
            (usize::MAX as int) * (usize::MAX as int) + (usize::MAX as int) < (u128::MAX as int),
        decreases n - l,
    {
        if p2 > (usize::MAX as u128) || t + p2 > (usize::MAX as u128) {
            proof {
                lemma_total_shorter_monotone(b, (l + 1) as nat, n as nat);
                lemma_pow_positive(b, l as nat);
            }
            return None;
        }
        proof {
            lemma_pow_positive(b, l as nat);
            assert(pow(b, (l + 1) as nat) == p2 * b) by {
                lemma_pow1(b);
                lemma_pow_adds(b, l as nat, 1);
            }
            assert(1 <= p2 * b <= (usize::MAX as int) * (usize::MAX as int)) by (nonlinear_arith)
                requires
                    1 <= p2 <= (usize::MAX as int),
                    1 <= b <= (usize::MAX as int),
            ;
        }
        t = t + p2;
        p2 = p2 * (base as u128);
        l += 1;
    }
    if t > (usize::MAX as u128) - (acc as u128) {
        return None;
    }
    Some((t + acc) as usize)
}

/// Character-for-character string equality.
pub fn str_eq(x: &str, y: &str) -> (r: bool)
    ensures
        r == (x@ == y@),
{
    let n = x.unicode_len();
    let m = y.unicode_len();
    if n != m {
        return false;
    }
    let mut i: usize = 0;
    while i < n
        invariant
            i <= n,
            n == x@.len(),
            n == y@.len(),
            forall|j: int| 0 <= j < i ==> x@[j] == y@[j],
        decreases n - i,
    {
        if x.get_char(i) != y.get_char(i) {
            return false;
        }
        i += 1;
    }
    proof {
        assert(x@ =~= y@);
    }
    true
}

/// Whether the string holds the character anywhere.
pub fn str_contains_char(s: &str, c: char) -> (r: bool)
    ensures
        r == s@.contains(c),
{
    let n = s.unicode_len();
    let mut i: usize = 0;
    while i < n
        invariant
            i <= n,
            n == s@.len(),
            forall|j: int| 0 <= j < i ==> s@[j] != c,
        decreases n - i,
    {
        if s.get_char(i) == c {
            return true;
        }
        i += 1;
    }
    false
}

} // verus!
