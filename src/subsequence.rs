//! The alternate strategy: the length of a longest common subsequence of
//! query and candidate, computed by the `lcs` crate.

use vstd::prelude::*;

verus! {

/// `idx` picks the elements of `s` out of `a`, at strictly increasing positions.
pub open spec fn picks(s: Seq<char>, a: Seq<char>, idx: Seq<int>) -> bool {
    &&& idx.len() == s.len()
    &&& forall|k: int| 0 <= k < idx.len() ==> 0 <= #[trigger] idx[k] < a.len() && a[idx[k]] == s[k]
    &&& forall|k: int, l: int| 0 <= k < l < idx.len() ==> #[trigger] idx[k] < #[trigger] idx[l]
}

/// `s` is a subsequence of `a`.
pub open spec fn is_subsequence(s: Seq<char>, a: Seq<char>) -> bool {
    exists|idx: Seq<int>| picks(s, a, idx)
}

/// `s` is a subsequence of both `a` and `b`.
pub open spec fn is_common_subsequence(s: Seq<char>, a: Seq<char>, b: Seq<char>) -> bool {
    is_subsequence(s, a) && is_subsequence(s, b)
}

/// `s` is a common subsequence of `a` and `b` that no other one is longer than.
pub open spec fn is_longest_common_subsequence(s: Seq<char>, a: Seq<char>, b: Seq<char>) -> bool {
    &&& is_common_subsequence(s, a, b)
    &&& forall|t: Seq<char>| #[trigger] is_common_subsequence(t, a, b) ==> t.len() <= s.len()
}

/// `n` is the length of the longest common subsequences of `a` and `b`.
pub open spec fn is_lcs_length(n: nat, a: Seq<char>, b: Seq<char>) -> bool {
    exists|s: Seq<char>| is_longest_common_subsequence(s, a, b) && s.len() == n
}

/// Relies on `lcs::LcsTable::new` and `LcsTable::longest_common_subsequence`:
/// the pairs returned are equal elements of `a` and `b` that form a longest
/// common subsequence; the first element of each pair is kept.
#[verifier::external_body]
fn longest_common_subsequence(a: &Vec<char>, b: &Vec<char>) -> (r: Vec<char>)
    ensures
        is_longest_common_subsequence(r@, a@, b@),
{
    let table = lcs::LcsTable::new(a.as_slice(), b.as_slice());
    table.longest_common_subsequence().into_iter().map(|pair| *pair.0).collect()
}

proof fn lemma_picks_positions(s: Seq<char>, a: Seq<char>, idx: Seq<int>, k: int)
    requires
        picks(s, a, idx),
        0 <= k < idx.len(),
    ensures
        idx[k] >= k,
    decreases k,
{
    if k > 0 {
        lemma_picks_positions(s, a, idx, k - 1);
        assert(idx[k - 1] < idx[k]);
    }
}

/// A subsequence is no longer than the sequence it is taken from.
pub proof fn lemma_subsequence_len(s: Seq<char>, a: Seq<char>)
    requires
        is_subsequence(s, a),
    ensures
        s.len() <= a.len(),
{
    let idx = choose|idx: Seq<int>| picks(s, a, idx);
    if s.len() > 0 {
        lemma_picks_positions(s, a, idx, s.len() - 1);
        assert(idx[s.len() - 1] < a.len());
    }
}

/// A common subsequence of two sequences with no character in common is empty.
pub proof fn lemma_disjoint_common_subsequence(s: Seq<char>, a: Seq<char>, b: Seq<char>)
    requires
        is_common_subsequence(s, a, b),
        forall|x: int, y: int| 0 <= x < a.len() && 0 <= y < b.len() ==> a[x] != b[y],
    ensures
        s.len() == 0,
{
    if s.len() > 0 {
        let ia = choose|idx: Seq<int>| picks(s, a, idx);
        let ib = choose|idx: Seq<int>| picks(s, b, idx);
        assert(a[ia[0]] == s[0] && b[ib[0]] == s[0]);
    }
}

/// The length of a longest common subsequence of `a` and `b`.
pub fn lcs_length(a: &Vec<char>, b: &Vec<char>) -> (r: usize)
    ensures
        is_lcs_length(r as nat, a@, b@),
        r <= a@.len(),
        r <= b@.len(),
{
    let common = longest_common_subsequence(a, b);
    proof {
        lemma_subsequence_len(common@, a@);
        lemma_subsequence_len(common@, b@);
    }
    common.len()
}

} // verus!
