//! Ranking scored candidates: exact matches first, then anagrams, then
//! percentages from high to low; equal percentages put the shorter candidate
//! first, and candidates that tie keep their order of arrival.

use vstd::prelude::*;
use crate::score::Score;

verus! {

/// One candidate line: its score, its text as read, and its normalized characters.
pub struct ScoredCandidate {
    pub score: Score,
    pub line: String,
    pub normalized: Vec<char>,
}

/// The category of a score: exact above anagram above any percentage.
pub open spec fn category(s: Score) -> int {
    match s {
        Score::Exact => 2,
        Score::Anagram => 1,
        Score::Percentage { .. } => 0,
    }
}

/// The numerator of a score's ratio (zero for the categorical scores).
pub open spec fn numer(s: Score) -> int {
    match s {
        Score::Percentage { shared, .. } => shared as int,
        _ => 0,
    }
}

/// The denominator of a score's ratio (one for the categorical scores).
pub open spec fn denom(s: Score) -> int {
    match s {
        Score::Percentage { total, .. } => total as int,
        _ => 1,
    }
}

/// `a` is a strictly better score than `b`.
pub open spec fn beats(a: Score, b: Score) -> bool {
    category(a) > category(b) || (category(a) == category(b) && numer(a) * denom(b) > numer(b) * denom(a))
}

/// `a` and `b` are equally good scores.
pub open spec fn same_score(a: Score, b: Score) -> bool {
    category(a) == category(b) && numer(a) * denom(b) == numer(b) * denom(a)
}

/// The length a candidate is ranked by: that of its normalized text.
pub open spec fn cand_len(x: ScoredCandidate) -> nat {
    x.normalized@.len()
}

/// `x` ranks strictly before `y`.
pub open spec fn outranks(x: ScoredCandidate, y: ScoredCandidate) -> bool {
    beats(x.score, y.score) || (same_score(x.score, y.score) && cand_len(x) < cand_len(y))
}

/// Neither of `x` and `y` ranks before the other.
pub open spec fn ties(x: ScoredCandidate, y: ScoredCandidate) -> bool {
    same_score(x.score, y.score) && cand_len(x) == cand_len(y)
}

/// The candidates that tie with `k`.
pub open spec fn tied_with(k: ScoredCandidate) -> spec_fn(ScoredCandidate) -> bool {
    |y: ScoredCandidate| ties(y, k)
}

/// No candidate ranks strictly before one that comes earlier.
pub open spec fn is_ranked(r: Seq<ScoredCandidate>) -> bool {
    forall|i: int, j: int| 0 <= i < j < r.len() ==> !outranks(#[trigger] r[j], #[trigger] r[i])
}

/// Every class of tying candidates appears in `r` as in `s`, in the same order.
pub open spec fn keeps_ties(r: Seq<ScoredCandidate>, s: Seq<ScoredCandidate>) -> bool {
    forall|k: ScoredCandidate| k.score.wf() ==> #[trigger] r.filter(tied_with(k)) == s.filter(tied_with(k))
}

/// Every score in `s` is well formed.
pub open spec fn all_wf(s: Seq<ScoredCandidate>) -> bool {
    forall|i: int| 0 <= i < s.len() ==> (#[trigger] s[i]).score.wf()
}

proof fn lemma_denom_pos(s: Score)
    requires
        s.wf(),
    ensures
        denom(s) > 0,
{
}

proof fn lemma_ratio_gt_gt(a: int, b: int, c: int, d: int, e: int, f: int)
    requires
        b > 0,
        d > 0,
        f > 0,
        a * d > c * b,
        c * f > e * d,
    ensures
        a * f > e * b,
{
    assert(a * d * f > c * b * f) by (nonlinear_arith)
        requires
            a * d > c * b,
            f > 0,
    ;
    assert(c * f * b > e * d * b) by (nonlinear_arith)
        requires
            c * f > e * d,
            b > 0,
    ;
    assert(a * f * d > e * b * d) by (nonlinear_arith)
        requires
            a * d * f > c * b * f,
            c * f * b > e * d * b,
    ;
    assert(a * f > e * b) by (nonlinear_arith)
        requires
            a * f * d > e * b * d,
            d > 0,
    ;
}

proof fn lemma_ratio_eq_gt(a: int, b: int, c: int, d: int, e: int, f: int)
    requires
        b > 0,
        d > 0,
        f > 0,
        a * d == c * b,
        c * f > e * d,
    ensures
        a * f > e * b,
{
    assert(c * f * b > e * d * b) by (nonlinear_arith)
        requires
            c * f > e * d,
            b > 0,
    ;
    assert(a * f * d > e * b * d) by (nonlinear_arith)
        requires
            a * d == c * b,
            c * f * b > e * d * b,
    ;
    assert(a * f > e * b) by (nonlinear_arith)
        requires
            a * f * d > e * b * d,
            d > 0,
    ;
}

proof fn lemma_ratio_gt_eq(a: int, b: int, c: int, d: int, e: int, f: int)
    requires
        b > 0,
        d > 0,
        f > 0,
        a * d > c * b,
        c * f == e * d,
    ensures
        a * f > e * b,
{
    assert(a * d * f > c * b * f) by (nonlinear_arith)
        requires
            a * d > c * b,
            f > 0,
    ;
    assert(a * f * d > e * b * d) by (nonlinear_arith)
        requires
            a * d * f > c * b * f,
            c * f == e * d,
    ;
    assert(a * f > e * b) by (nonlinear_arith)
        requires
            a * f * d > e * b * d,
            d > 0,
    ;
}

proof fn lemma_ratio_eq_eq(a: int, b: int, c: int, d: int, e: int, f: int)
    requires
        b > 0,
        d > 0,
        f > 0,
        a * d == c * b,
        c * f == e * d,
    ensures
        a * f == e * b,
{
    assert(a * f * d == e * b * d) by (nonlinear_arith)
        requires
            a * d == c * b,
            c * f == e * d,
    ;
    assert(a * f == e * b) by (nonlinear_arith)
        requires
            a * f * d == e * b * d,
            d > 0,
    ;
}

/// Ranking before is a strict order that tying candidates share.
proof fn lemma_order_facts(x: ScoredCandidate, y: ScoredCandidate, z: ScoredCandidate)
    requires
        x.score.wf(),
        y.score.wf(),
        z.score.wf(),
    ensures
        outranks(x, y) ==> !outranks(y, x) && !ties(x, y) && !ties(y, x),
        outranks(x, y) && outranks(y, z) ==> outranks(x, z),
        ties(x, y) && outranks(y, z) ==> outranks(x, z),
        ties(x, z) && ties(y, z) ==> ties(x, y),
{
    let (a, b) = (numer(x.score), denom(x.score));
    let (c, d) = (numer(y.score), denom(y.score));
    let (e, f) = (numer(z.score), denom(z.score));
    lemma_denom_pos(x.score);
    lemma_denom_pos(y.score);
    lemma_denom_pos(z.score);
    if a * d > c * b && c * f > e * d {
        lemma_ratio_gt_gt(a, b, c, d, e, f);
    }
    if a * d == c * b && c * f > e * d {
        lemma_ratio_eq_gt(a, b, c, d, e, f);
    }
    if a * d > c * b && c * f == e * d {
        lemma_ratio_gt_eq(a, b, c, d, e, f);
    }
    if a * d == c * b && c * f == e * d {
        lemma_ratio_eq_eq(a, b, c, d, e, f);
    }
    if a * f == e * b && c * f == e * d {
        lemma_ratio_eq_eq(a, b, e, f, c, d);
    }
}

proof fn lemma_filter_none(s: Seq<ScoredCandidate>, pred: spec_fn(ScoredCandidate) -> bool)
    requires
        forall|i: int| 0 <= i < s.len() ==> !pred(#[trigger] s[i]),
    ensures
        s.filter(pred) == Seq::<ScoredCandidate>::empty(),
    decreases s.len(),
{
    reveal(Seq::filter);
    if s.len() > 0 {
        lemma_filter_none(s.drop_last(), pred);
    }
}

/// An exact match ranks before an anagram, and an anagram before any
/// percentage, whatever the lengths.
pub proof fn lemma_category_order(x: ScoredCandidate, y: ScoredCandidate)
    ensures
        x.score == Score::Exact && y.score != Score::Exact ==> outranks(x, y),
        x.score == Score::Anagram && y.score is Percentage ==> outranks(x, y),
{
}

/// In a ranked sequence, of two candidates with equal percentages and
/// different lengths the shorter comes first.
pub proof fn lemma_shorter_first(r: Seq<ScoredCandidate>, i: int, j: int)
    requires
        is_ranked(r),
        0 <= i < r.len(),
        0 <= j < r.len(),
        r[i].score is Percentage,
        r[j].score is Percentage,
        same_score(r[i].score, r[j].score),
        cand_len(r[i]) < cand_len(r[j]),
    ensures
        i < j,
{
    if j < i {
        assert(!outranks(r[i], r[j]));
    }
}

/// When some candidate scored an exact match, ranking puts an exact match first.
pub proof fn lemma_exact_ranks_first(items: Seq<ScoredCandidate>, r: Seq<ScoredCandidate>, e: int)
    requires
        all_wf(items),
        all_wf(r),
        is_ranked(r),
        keeps_ties(r, items),
        0 <= e < items.len(),
        items[e].score == Score::Exact,
    ensures
        r.len() > 0,
        r[0].score == Score::Exact,
{
    let k = items[e];
    let pred = tied_with(k);
    assert(pred(items[e]));
    items.lemma_filter_contains(pred, e);
    assert(r.filter(pred) == items.filter(pred));
    r.lemma_filter_contains_rev(pred, k);
    let m = choose|m: int| 0 <= m < r.len() && r[m] == k;
    if r[0].score != Score::Exact {
        if m > 0 {
            assert(!outranks(r[m], r[0]));
        }
    }
}

fn category_of(s: &Score) -> (r: u8)
    ensures
        r as int == category(*s),
{
    match s {
        Score::Exact => 2,
        Score::Anagram => 1,
        Score::Percentage { .. } => 0,
    }
}

fn ratio_of(s: &Score) -> (r: (u128, u128))
    ensures
        r.0 as int == numer(*s),
        r.1 as int == denom(*s),
        r.0 < 0x1_0000_0000_0000_0000,
        r.1 < 0x1_0000_0000_0000_0000,
{
    match s {
        Score::Percentage { shared, total } => (*shared as u128, *total as u128),
        _ => (0, 1),
    }
}

/// Whether `x` ranks strictly before `y`.
pub fn ranks_before(x: &ScoredCandidate, y: &ScoredCandidate) -> (r: bool)
    ensures
        r == outranks(*x, *y),
{
    let cx = category_of(&x.score);
    let cy = category_of(&y.score);
    if cx != cy {
        return cx > cy;
    }
    let (a, b) = ratio_of(&x.score);
    let (c, d) = ratio_of(&y.score);
    assert(a * d < 0x1_0000_0000_0000_0000_0000_0000_0000_0000) by (nonlinear_arith)
        requires
            a < 0x1_0000_0000_0000_0000,
            d < 0x1_0000_0000_0000_0000,
    ;
    assert(c * b < 0x1_0000_0000_0000_0000_0000_0000_0000_0000) by (nonlinear_arith)
        requires
            c < 0x1_0000_0000_0000_0000,
            b < 0x1_0000_0000_0000_0000,
    ;
    let left = a * d;
    let right = c * b;
    if left != right {
        left > right
    } else {
        x.normalized.len() < y.normalized.len()
    }
}

proof fn lemma_insert_keeps_ties(
    out: Seq<ScoredCandidate>,
    p: int,
    x: ScoredCandidate,
    k: ScoredCandidate,
)
    requires
        0 <= p <= out.len(),
        all_wf(out),
        x.score.wf(),
        k.score.wf(),
        is_ranked(out),
        p < out.len() ==> outranks(x, out[p]),
    ensures
        out.insert(p, x).filter(tied_with(k)) == if ties(x, k) {
            out.filter(tied_with(k)).push(x)
        } else {
            out.filter(tied_with(k))
        },
{
    let pred = tied_with(k);
    let front = out.take(p);
    let back = out.skip(p);
    assert(out =~= front + back);
    assert(out.insert(p, x) =~= front + seq![x] + back);
    Seq::filter_distributes_over_add(front, back, pred);
    Seq::filter_distributes_over_add(front + seq![x], back, pred);
    Seq::filter_distributes_over_add(front, seq![x], pred);
    reveal(Seq::filter);
    assert(seq![x].drop_last() =~= Seq::<ScoredCandidate>::empty());
    assert(Seq::<ScoredCandidate>::empty().filter(pred) =~= Seq::<ScoredCandidate>::empty());
    assert(pred(x) == ties(x, k));
    if ties(x, k) {
        assert(seq![x].filter(pred) =~= seq![x]);
    } else {
        assert(seq![x].filter(pred) =~= Seq::<ScoredCandidate>::empty());
        assert(out.insert(p, x).filter(pred) =~= out.filter(pred));
    }
    if ties(x, k) {
        assert forall|i: int| 0 <= i < back.len() implies !pred(#[trigger] back[i]) by {
            let y = back[i];
            assert(y == out[p + i]);
            lemma_order_facts(y, x, k);
            lemma_order_facts(y, x, out[p]);
            if i > 0 {
                assert(!outranks(out[p + i], out[p]));
            }
            lemma_order_facts(x, out[p], out[p]);
            lemma_order_facts(out[p], x, k);
        }
        lemma_filter_none(back, pred);
        assert(back.filter(pred) =~= Seq::<ScoredCandidate>::empty());
        assert(out.filter(pred) =~= front.filter(pred));
    }
}

/// Orders `items` for display: no candidate comes after one that it ranks
/// before, and candidates that tie keep their order of arrival.
pub fn rank(items: Vec<ScoredCandidate>) -> (r: Vec<ScoredCandidate>)
    requires
        all_wf(items@),
    ensures
        is_ranked(r@),
        keeps_ties(r@, items@),
        r@.len() == items@.len(),
        all_wf(r@),
{
    let ghost orig = items@;
    let mut rest = items;
    let mut out: Vec<ScoredCandidate> = Vec::new();
    let ghost mut taken: int = 0;
    while rest.len() > 0
        invariant
            0 <= taken <= orig.len(),
            rest@ == orig.skip(taken),
            all_wf(orig),
            all_wf(out@),
            is_ranked(out@),
            out@.len() == taken,
            forall|k: ScoredCandidate| k.score.wf() ==> #[trigger] out@.filter(tied_with(k)) == orig.take(taken).filter(tied_with(k)),
        decreases rest@.len(),
    {
        let x = rest.remove(0);
        assert(x == orig[taken]);
        let mut p: usize = 0;
        while p < out.len() && !ranks_before(&x, &out[p])
            invariant
                p <= out@.len(),
                forall|m: int| 0 <= m < p ==> !outranks(x, #[trigger] out@[m]),
            decreases out@.len() - p,
        {
            p = p + 1;
        }
        let ghost prev = out@;
        proof {
            assert forall|k: ScoredCandidate| k.score.wf() implies #[trigger] prev.insert(p as int, x).filter(tied_with(k))
                == orig.take(taken + 1).filter(tied_with(k)) by {
                lemma_insert_keeps_ties(prev, p as int, x, k);
                reveal(Seq::filter);
                assert(orig.take(taken + 1).drop_last() =~= orig.take(taken));
                assert(orig.take(taken + 1).last() == x);
            }
        }
        out.insert(p, x);
        proof {
            assert forall|i: int, j: int| 0 <= i < j < out@.len() implies !outranks(
                #[trigger] out@[j],
                #[trigger] out@[i],
            ) by {
                if j == p {
                } else if i == p {
                    lemma_order_facts(prev[j - 1], x, prev[p as int]);
                    if j - 1 > p {
                        assert(!outranks(prev[j - 1], prev[p as int]));
                    }
                    lemma_order_facts(x, prev[p as int], x);
                } else {
                    let i0 = if i < p { i } else { i - 1 };
                    let j0 = if j < p { j } else { j - 1 };
                    assert(!outranks(prev[j0], prev[i0]));
                }
            }
            taken = taken + 1;
            assert(rest@ =~= orig.skip(taken));
        }
    }
    proof {
        assert(orig.take(taken) =~= orig);
    }
    out
}

} // verus!
