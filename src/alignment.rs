//! The alignment scorer: one forward pass over query and candidate that
//! tolerates characters inserted into the candidate.

use vstd::prelude::*;

verus! {

/// The first position at or after `from` where `c` holds `ch`, or `c.len()`
/// when there is none.
pub open spec fn find_from(c: Seq<char>, from: int, ch: char) -> int
    decreases c.len() - from,
{
    if from >= c.len() {
        c.len() as int
    } else if c[from] == ch {
        from
    } else {
        find_from(c, from + 1, ch)
    }
}

/// The number of shared characters counted from query cursor `i` and
/// candidate cursor `j` on: each query character is looked for at or after
/// the candidate cursor; when found, it counts and the candidate cursor moves
/// past it, otherwise only the query cursor moves.
pub open spec fn shared_from(q: Seq<char>, c: Seq<char>, i: int, j: int) -> nat
    decreases q.len() - i,
{
    if i < 0 || i >= q.len() || j < 0 || j >= c.len() {
        0
    } else {
        let k = find_from(c, j, q[i]);
        if k < c.len() {
            1 + shared_from(q, c, i + 1, k + 1)
        } else {
            shared_from(q, c, i + 1, j)
        }
    }
}

/// The shared count of a whole query against a whole candidate.
pub open spec fn shared_count(q: Seq<char>, c: Seq<char>) -> nat {
    shared_from(q, c, 0, 0)
}

pub proof fn lemma_find_from_bounds(c: Seq<char>, from: int, ch: char)
    requires
        0 <= from <= c.len(),
    ensures
        from <= find_from(c, from, ch) <= c.len(),
        find_from(c, from, ch) < c.len() ==> c[find_from(c, from, ch)] == ch,
        forall|m: int| from <= m < find_from(c, from, ch) ==> c[m] != ch,
    decreases c.len() - from,
{
    if from < c.len() && c[from] != ch {
        lemma_find_from_bounds(c, from + 1, ch);
    }
}

proof fn lemma_shared_from_bounds(q: Seq<char>, c: Seq<char>, i: int, j: int)
    requires
        0 <= i <= q.len(),
        0 <= j <= c.len(),
    ensures
        shared_from(q, c, i, j) <= q.len() - i,
        shared_from(q, c, i, j) <= c.len() - j,
    decreases q.len() - i,
{
    if i < q.len() && j < c.len() {
        let k = find_from(c, j, q[i]);
        lemma_find_from_bounds(c, j, q[i]);
        if k < c.len() {
            lemma_shared_from_bounds(q, c, i + 1, k + 1);
        } else {
            lemma_shared_from_bounds(q, c, i + 1, j);
        }
    }
}

/// The shared count never exceeds the length of either sequence.
pub proof fn lemma_shared_count_bounds(q: Seq<char>, c: Seq<char>)
    ensures
        shared_count(q, c) <= q.len(),
        shared_count(q, c) <= c.len(),
{
    lemma_shared_from_bounds(q, c, 0, 0);
}

/// Where no character of `q` occurs in `c`, nothing is shared.
pub proof fn lemma_disjoint_shared(q: Seq<char>, c: Seq<char>, i: int, j: int)
    requires
        forall|x: int, y: int| 0 <= x < q.len() && 0 <= y < c.len() ==> q[x] != c[y],
        0 <= j <= c.len(),
    ensures
        shared_from(q, c, i, j) == 0,
    decreases q.len() - i,
{
    if 0 <= i < q.len() && j < c.len() {
        lemma_find_from_bounds(c, j, q[i]);
        lemma_disjoint_shared(q, c, i + 1, j);
    }
}

/// The first position at or after `from` that holds `ch`, or `c.len()`.
fn find_char_from(c: &Vec<char>, from: usize, ch: char) -> (r: usize)
    requires
        from <= c@.len(),
    ensures
        r == find_from(c@, from as int, ch),
{
    let mut k: usize = from;
    while k < c.len()
        invariant
            from <= k <= c@.len(),
            find_from(c@, from as int, ch) == find_from(c@, k as int, ch),
        decreases c@.len() - k,
    {
        if c[k] == ch {
            return k;
        }
        k = k + 1;
    }
    k
}

/// Counts the characters of `q` that the alignment pass matches in `c`.
pub fn alignment_shared(q: &Vec<char>, c: &Vec<char>) -> (r: usize)
    ensures
        r == shared_count(q@, c@),
{
    let mut i: usize = 0;
    let mut j: usize = 0;
    let mut shared: usize = 0;
    proof {
        lemma_shared_count_bounds(q@, c@);
    }
    while i < q.len() && j < c.len()
        invariant
            i <= q@.len(),
            j <= c@.len(),
            shared + shared_from(q@, c@, i as int, j as int) == shared_count(q@, c@),
            shared_count(q@, c@) <= q@.len(),
        decreases q@.len() - i,
    {
        let k = find_char_from(c, j, q[i]);
        proof {
            lemma_find_from_bounds(c@, j as int, q@[i as int]);
        }
        if k < c.len() {
            shared = shared + 1;
            j = k + 1;
        }
        i = i + 1;
    }
    shared
}

} // verus!
