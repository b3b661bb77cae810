//! Scoring a candidate against a query: exact match, anagram, or a
//! percentage of shared characters.

use vstd::prelude::*;
use crate::alignment::{alignment_shared, shared_count, lemma_shared_count_bounds, lemma_disjoint_shared};
use crate::subsequence::{
    is_lcs_length, lcs_length, is_longest_common_subsequence, is_common_subsequence,
    lemma_disjoint_common_subsequence, picks,
};
use crate::text::{lower_of, normalize};

verus! {

/// How a candidate compares with a query. A percentage is the exact ratio
/// `shared / total * 100`.
#[derive(PartialEq, Eq, Structural, Clone, Copy, Debug)]
pub enum Score {
    Exact,
    Anagram,
    Percentage { shared: usize, total: usize },
}

/// Which way of scoring to use.
#[derive(PartialEq, Eq, Structural, Clone, Copy, Debug)]
pub enum Strategy {
    /// Exact and anagram detection, then the alignment pass.
    Alignment,
    /// The longest common subsequence, relative to the query's length.
    Subsequence,
}

impl Score {
    /// A percentage has a positive total that is at least the shared count.
    pub open spec fn wf(self) -> bool {
        match self {
            Score::Percentage { shared, total } => 0 < total && shared <= total,
            _ => true,
        }
    }
}

/// How often `ch` occurs in `s`.
pub open spec fn char_count(s: Seq<char>, ch: char) -> nat
    decreases s.len(),
{
    if s.len() == 0 {
        0
    } else {
        char_count(s.drop_last(), ch) + if s.last() == ch { 1nat } else { 0nat }
    }
}

/// `q` and `c` hold the same characters, each as often.
pub open spec fn is_anagram(q: Seq<char>, c: Seq<char>) -> bool {
    forall|ch: char| #[trigger] char_count(q, ch) == char_count(c, ch)
}

/// The length of a longest common subsequence of `a` and `b`.
pub open spec fn lcs_len(a: Seq<char>, b: Seq<char>) -> nat {
    choose|n: nat| is_lcs_length(n, a, b)
}

pub open spec fn max_len(a: Seq<char>, b: Seq<char>) -> nat {
    if a.len() >= b.len() { a.len() } else { b.len() }
}

/// The score of normalized candidate `c` against normalized query `q`.
pub open spec fn score_spec(q: Seq<char>, c: Seq<char>, strategy: Strategy) -> Score {
    match strategy {
        Strategy::Alignment => {
            if q == c {
                Score::Exact
            } else if is_anagram(q, c) {
                Score::Anagram
            } else {
                Score::Percentage { shared: shared_count(q, c) as usize, total: max_len(q, c) as usize }
            }
        },
        Strategy::Subsequence => {
            Score::Percentage {
                shared: lcs_len(q, c) as usize,
                total: if q.len() == 0 { 1 } else { q.len() as usize },
            }
        },
    }
}

proof fn lemma_char_count_absent(s: Seq<char>, ch: char)
    requires
        forall|i: int| 0 <= i < s.len() ==> s[i] != ch,
    ensures
        char_count(s, ch) == 0,
    decreases s.len(),
{
    if s.len() > 0 {
        lemma_char_count_absent(s.drop_last(), ch);
    }
}

proof fn lemma_char_count_present(s: Seq<char>, i: int)
    requires
        0 <= i < s.len(),
    ensures
        char_count(s, s[i]) > 0,
    decreases s.len(),
{
    if i < s.len() - 1 {
        lemma_char_count_present(s.drop_last(), i);
    }
}

proof fn lemma_char_count_le(s: Seq<char>, ch: char)
    ensures
        char_count(s, ch) <= s.len(),
    decreases s.len(),
{
    if s.len() > 0 {
        lemma_char_count_le(s.drop_last(), ch);
    }
}

/// How often `ch` occurs in `s`.
pub fn count_char(s: &Vec<char>, ch: char) -> (r: usize)
    ensures
        r == char_count(s@, ch),
{
    let mut n: usize = 0;
    let mut i: usize = 0;
    while i < s.len()
        invariant
            i <= s@.len(),
            n == char_count(s@.take(i as int), ch),
        decreases s@.len() - i,
    {
        proof {
            assert(s@.take(i as int + 1).drop_last() =~= s@.take(i as int));
            lemma_char_count_le(s@.take(i as int), ch);
        }
        if s[i] == ch {
            n = n + 1;
        }
        i = i + 1;
    }
    proof {
        assert(s@.take(s@.len() as int) =~= s@);
    }
    n
}

/// Whether `q` and `c` hold the same characters, each as often.
pub fn anagram_check(q: &Vec<char>, c: &Vec<char>) -> (r: bool)
    ensures
        r == is_anagram(q@, c@),
{
    let mut i: usize = 0;
    while i < q.len()
        invariant
            i <= q@.len(),
            forall|k: int| 0 <= k < i ==> char_count(q@, #[trigger] q@[k]) == char_count(c@, q@[k]),
        decreases q@.len() - i,
    {
        if count_char(q, q[i]) != count_char(c, q[i]) {
            return false;
        }
        i = i + 1;
    }
    let mut j: usize = 0;
    while j < c.len()
        invariant
            j <= c@.len(),
            forall|k: int| 0 <= k < q@.len() ==> char_count(q@, #[trigger] q@[k]) == char_count(c@, q@[k]),
            forall|k: int| 0 <= k < j ==> char_count(q@, #[trigger] c@[k]) == char_count(c@, c@[k]),
        decreases c@.len() - j,
    {
        if count_char(q, c[j]) != count_char(c, c[j]) {
            return false;
        }
        j = j + 1;
    }
    proof {
        assert forall|ch: char| #[trigger] char_count(q@, ch) == char_count(c@, ch) by {
            if exists|k: int| 0 <= k < q@.len() && q@[k] == ch {
                let k = choose|k: int| 0 <= k < q@.len() && q@[k] == ch;
                assert(char_count(q@, q@[k]) == char_count(c@, q@[k]));
            } else if exists|k: int| 0 <= k < c@.len() && c@[k] == ch {
                let k = choose|k: int| 0 <= k < c@.len() && c@[k] == ch;
                assert(char_count(q@, c@[k]) == char_count(c@, c@[k]));
            } else {
                lemma_char_count_absent(q@, ch);
                lemma_char_count_absent(c@, ch);
            }
        }
    }
    true
}

/// Whether `q` and `c` hold the same characters in the same order.
fn same_chars(q: &Vec<char>, c: &Vec<char>) -> (r: bool)
    ensures
        r == (q@ == c@),
{
    if q.len() != c.len() {
        return false;
    }
    let mut i: usize = 0;
    while i < q.len()
        invariant
            i <= q@.len(),
            q@.len() == c@.len(),
            forall|k: int| 0 <= k < i ==> q@[k] == c@[k],
        decreases q@.len() - i,
    {
        if q[i] != c[i] {
            return false;
        }
        i = i + 1;
    }
    proof {
        assert(q@ =~= c@);
    }
    true
}

/// Any two lengths of a longest common subsequence agree.
pub proof fn lemma_lcs_length_unique(n: nat, m: nat, a: Seq<char>, b: Seq<char>)
    requires
        is_lcs_length(n, a, b),
        is_lcs_length(m, a, b),
    ensures
        n == m,
{
    let s = choose|s: Seq<char>| is_longest_common_subsequence(s, a, b) && s.len() == n;
    let t = choose|t: Seq<char>| is_longest_common_subsequence(t, a, b) && t.len() == m;
    assert(is_common_subsequence(t, a, b));
    assert(is_common_subsequence(s, a, b));
}

/// The score of normalized candidate `c` against normalized query `q`.
pub fn score_normalized(q: &Vec<char>, c: &Vec<char>, strategy: Strategy) -> (r: Score)
    ensures
        r == score_spec(q@, c@, strategy),
        r.wf(),
{
    match strategy {
        Strategy::Alignment => {
            if same_chars(q, c) {
                Score::Exact
            } else if anagram_check(q, c) {
                Score::Anagram
            } else {
                let shared = alignment_shared(q, c);
                proof {
                    lemma_shared_count_bounds(q@, c@);
                }
                let total = if q.len() >= c.len() { q.len() } else { c.len() };
                proof {
                    if total == 0 {
                        assert(q@ =~= c@);
                    }
                }
                Score::Percentage { shared, total }
            }
        },
        Strategy::Subsequence => {
            let shared = lcs_length(q, c);
            proof {
                lemma_lcs_length_unique(shared as nat, lcs_len(q@, c@), q@, c@);
            }
            let total = if q.len() == 0 { 1 } else { q.len() };
            Score::Percentage { shared, total }
        },
    }
}

/// The score of `candidate` against `query`, both compared lowercased.
pub fn score(query: &str, candidate: &str, strategy: Strategy) -> (r: Score)
    ensures
        r == score_spec(lower_of(query@), lower_of(candidate@), strategy),
        r.wf(),
{
    let q = normalize(query);
    let c = normalize(candidate);
    score_normalized(&q, &c, strategy)
}

/// Scoring is insensitive to case: two queries with the same lowercase form,
/// scored against two candidates with the same lowercase form, score alike.
pub proof fn lemma_case_invariance(q1: Seq<char>, q2: Seq<char>, c1: Seq<char>, c2: Seq<char>, strategy: Strategy)
    requires
        lower_of(q1) == lower_of(q2),
        lower_of(c1) == lower_of(c2),
    ensures
        score_spec(lower_of(q1), lower_of(c1), strategy) == score_spec(lower_of(q2), lower_of(c2), strategy),
{
}

/// A query and a candidate with no character in common, not both empty,
/// score a percentage of zero under either strategy.
pub proof fn lemma_disjoint_scores_zero(q: Seq<char>, c: Seq<char>, strategy: Strategy)
    requires
        forall|x: int, y: int| 0 <= x < q.len() && 0 <= y < c.len() ==> q[x] != c[y],
        q.len() > 0 || c.len() > 0,
        q.len() <= usize::MAX,
        c.len() <= usize::MAX,
    ensures
        score_spec(q, c, strategy) matches Score::Percentage { shared, total } && shared == 0 && total > 0,
{
    match strategy {
        Strategy::Alignment => {
            lemma_disjoint_shared(q, c, 0, 0);
            if q.len() > 0 {
                lemma_char_count_present(q, 0);
                lemma_char_count_absent(c, q[0]);
                if c.len() > 0 {
                    assert(q[0] != c[0]);
                }
                assert(q != c);
                assert(char_count(q, q[0]) != char_count(c, q[0]));
            } else {
                lemma_char_count_present(c, 0);
                lemma_char_count_absent(q, c[0]);
                assert(q.len() != c.len());
                assert(char_count(q, c[0]) != char_count(c, c[0]));
            }
        },
        Strategy::Subsequence => {
            let empty = Seq::<char>::empty();
            assert(picks(empty, q, Seq::<int>::empty()));
            assert(picks(empty, c, Seq::<int>::empty()));
            assert forall|t: Seq<char>| #[trigger] is_common_subsequence(t, q, c) implies t.len() <= empty.len() by {
                lemma_disjoint_common_subsequence(t, q, c);
            }
            assert(is_longest_common_subsequence(empty, q, c));
            assert(is_lcs_length(0, q, c));
            lemma_lcs_length_unique(0, lcs_len(q, c), q, c);
        },
    }
}

} // verus!
