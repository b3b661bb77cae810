//! Choosing which ranked candidates to show: every candidate at or above a
//! fixed cutoff, or the first non-empty bucket of a relaxation that lowers
//! the cutoff ten percentage points at a time from 100 down to 0.

use vstd::prelude::*;
use crate::rank::{ScoredCandidate, all_wf, category, numer, denom};
use crate::score::Score;

verus! {

/// Threshold units per percentage point.
pub const UNITS_PER_PERCENT: u64 = 1_000_000_000;

/// The most candidates that the relaxation shows unless all are asked for.
pub const RELAXED_LIMIT: usize = 7;

/// A percentage cutoff, in billionths of a percentage point.
#[derive(PartialEq, Eq, Structural, Clone, Copy, Debug)]
pub struct Threshold {
    pub units: u64,
}

impl Threshold {
    /// The cutoff lies between 0 and 100 percent.
    pub open spec fn wf(self) -> bool {
        self.units <= 100 * UNITS_PER_PERCENT
    }
}

/// A score reaches a cutoff of `units`: a categorical score always does, a
/// percentage when `shared / total * 100` is at least `units / UNITS_PER_PERCENT`.
pub open spec fn meets(s: Score, units: int) -> bool {
    category(s) > 0 || numer(s) * 100 * UNITS_PER_PERCENT >= units * denom(s)
}

/// The candidates whose score reaches a cutoff of `units`.
pub open spec fn reaching(units: int) -> spec_fn(ScoredCandidate) -> bool {
    |x: ScoredCandidate| meets(x.score, units)
}

/// Some candidate of `s` reaches the cutoff of `10 * d` percent.
pub open spec fn bucket_nonempty(s: Seq<ScoredCandidate>, d: int) -> bool {
    exists|i: int| 0 <= i < s.len() && meets(#[trigger] s[i].score, d * 10 * UNITS_PER_PERCENT)
}

/// What the relaxation shows of a bucket: all of it, or its first few.
pub open spec fn capped(s: Seq<ScoredCandidate>, all: bool) -> Seq<ScoredCandidate> {
    if all || s.len() <= RELAXED_LIMIT {
        s
    } else {
        s.take(RELAXED_LIMIT as int)
    }
}

/// The highest decile `d` at or below `from` whose cutoff of `10 * d`
/// percent some candidate of `s` reaches, or -1 when there is none.
pub open spec fn top_bucket_from(s: Seq<ScoredCandidate>, from: int) -> int
    decreases from + 1,
{
    if from < 0 {
        -1
    } else if bucket_nonempty(s, from) {
        from
    } else {
        top_bucket_from(s, from - 1)
    }
}

/// The decile at which the relaxation stops, or -1 when it finds nothing.
pub open spec fn top_bucket(s: Seq<ScoredCandidate>) -> int {
    top_bucket_from(s, 10)
}

/// What the relaxation shows of `s`.
pub open spec fn select_relaxed_spec(s: Seq<ScoredCandidate>, all: bool) -> Seq<ScoredCandidate> {
    let d = top_bucket(s);
    if d < 0 {
        Seq::empty()
    } else {
        capped(s.filter(reaching(d * 10 * UNITS_PER_PERCENT)), all)
    }
}

proof fn lemma_top_bucket_found(s: Seq<ScoredCandidate>, from: int, m: int)
    requires
        0 <= m <= from,
        bucket_nonempty(s, m),
        forall|e: int| m < e <= from ==> !#[trigger] bucket_nonempty(s, e),
    ensures
        top_bucket_from(s, from) == m,
    decreases from,
{
    if from > m {
        lemma_top_bucket_found(s, from - 1, m);
    }
}

proof fn lemma_top_bucket_none(s: Seq<ScoredCandidate>, from: int)
    requires
        forall|e: int| 0 <= e <= from ==> !#[trigger] bucket_nonempty(s, e),
    ensures
        top_bucket_from(s, from) == -1,
    decreases from + 1,
{
    if from >= 0 {
        lemma_top_bucket_none(s, from - 1);
    }
}

proof fn lemma_relaxed_spec(s: Seq<ScoredCandidate>, all: bool, cutoff: Option<u64>, shown: Seq<ScoredCandidate>)
    requires
        match cutoff {
            Some(m) => {
                &&& m % 10 == 0
                &&& m <= 100
                &&& bucket_nonempty(s, (m / 10) as int)
                &&& forall|e: int| m / 10 < e <= 10 ==> !#[trigger] bucket_nonempty(s, e)
                &&& shown == capped(s.filter(reaching(m * UNITS_PER_PERCENT as int)), all)
            },
            None => {
                &&& forall|e: int| 0 <= e <= 10 ==> !#[trigger] bucket_nonempty(s, e)
                &&& shown.len() == 0
            },
        },
    ensures
        shown == select_relaxed_spec(s, all),
        cutoff == (if top_bucket(s) < 0 { None } else { Some((top_bucket(s) * 10) as u64) }),
{
    match cutoff {
        Some(m) => {
            lemma_top_bucket_found(s, 10, (m / 10) as int);
            assert((m / 10) * 10 * UNITS_PER_PERCENT == m * UNITS_PER_PERCENT);
        },
        None => {
            lemma_top_bucket_none(s, 10);
            assert(shown =~= Seq::<ScoredCandidate>::empty());
        },
    }
}

/// The relaxation finds nothing in an empty set of candidates; in a
/// non-empty one it stops at the 100 percent cutoff when a categorical score
/// is present, and otherwise at the best percentage rounded down to a
/// multiple of ten.
pub proof fn lemma_relaxation_stops_at_best_decile(s: Seq<ScoredCandidate>, best: int)
    requires
        all_wf(s),
        s.len() > 0 ==> 0 <= best < s.len(),
        s.len() > 0 ==> forall|j: int| 0 <= j < s.len() ==> category(#[trigger] s[j].score) == 0
            ==> numer(s[j].score) * denom(s[best].score) <= numer(s[best].score) * denom(s[j].score),
    ensures
        s.len() == 0 ==> top_bucket(s) == -1,
        s.len() > 0 && (exists|j: int| 0 <= j < s.len() && category(#[trigger] s[j].score) > 0)
            ==> top_bucket(s) == 10,
        s.len() > 0 && (forall|j: int| 0 <= j < s.len() ==> category(#[trigger] s[j].score) == 0)
            ==> top_bucket(s) == numer(s[best].score) * 10 / denom(s[best].score),
{
    if s.len() == 0 {
        lemma_top_bucket_none(s, 10);
    } else if exists|j: int| 0 <= j < s.len() && category(#[trigger] s[j].score) > 0 {
        let j = choose|j: int| 0 <= j < s.len() && category(#[trigger] s[j].score) > 0;
        assert(meets(s[j].score, 10 * 10 * UNITS_PER_PERCENT));
        lemma_top_bucket_found(s, 10, 10);
    } else {
        let a = numer(s[best].score);
        let b = denom(s[best].score);
        assert(s[best].score.wf());
        assert(b > 0 && 0 <= a <= b);
        let q = a * 10 / b;
        assert(0 <= q <= 10 && q * b <= a * 10 < (q + 1) * b) by (nonlinear_arith)
            requires
                b > 0,
                0 <= a <= b,
                q == a * 10 / b,
        ;
        assert(meets(s[best].score, q * 10 * UNITS_PER_PERCENT)) by (nonlinear_arith)
            requires
                q * b <= a * 10,
                a == numer(s[best].score),
                b == denom(s[best].score),
                category(s[best].score) == 0,
        ;
        assert forall|e: int| q < e <= 10 implies !#[trigger] bucket_nonempty(s, e) by {
            assert forall|j: int| 0 <= j < s.len() implies !meets(#[trigger] s[j].score, e * 10 * UNITS_PER_PERCENT) by {
                let c = numer(s[j].score);
                let d = denom(s[j].score);
                assert(s[j].score.wf());
                assert(c * 10 < e * d) by (nonlinear_arith)
                    requires
                        c * b <= a * d,
                        a * 10 < (q + 1) * b,
                        q < e,
                        b > 0,
                        d > 0,
                ;
                assert(c * 100 * UNITS_PER_PERCENT < e * 10 * UNITS_PER_PERCENT * d) by (nonlinear_arith)
                    requires
                        c * 10 < e * d,
                ;
            }
        }
        lemma_top_bucket_found(s, 10, q);
    }
}

/// What is shown of ranked candidates `s`: with a fixed cutoff everything
/// that reaches it, otherwise what the relaxation shows.
pub open spec fn shown_spec(s: Seq<ScoredCandidate>, threshold: Option<Threshold>, all: bool) -> Seq<ScoredCandidate> {
    match threshold {
        Some(t) => s.filter(reaching(t.units as int)),
        None => select_relaxed_spec(s, all),
    }
}

/// The outcome of the relaxation: the candidates shown, and the cutoff in
/// whole percent at which it stopped (none when no bucket was non-empty).
pub struct Selection {
    pub shown: Vec<ScoredCandidate>,
    pub cutoff_percent: Option<u64>,
}

/// Whether `s` reaches a cutoff of `units`.
pub fn meets_cutoff(s: &Score, units: u64) -> (r: bool)
    requires
        units <= 100 * UNITS_PER_PERCENT,
    ensures
        r == meets(*s, units as int),
{
    match s {
        Score::Percentage { shared, total } => {
            let a = *shared as u128;
            let t = *total as u128;
            let u = units as u128;
            assert(a * 100_000_000_000 < 0x1_0000_0000_0000_0000_0000_0000_0000_0000) by (nonlinear_arith)
                requires
                    a < 0x1_0000_0000_0000_0000,
            ;
            assert(u * t < 0x1_0000_0000_0000_0000_0000_0000_0000_0000) by (nonlinear_arith)
                requires
                    u <= 100_000_000_000,
                    t < 0x1_0000_0000_0000_0000,
            ;
            a * 100_000_000_000 >= u * t
        },
        _ => true,
    }
}

/// The candidates of `ranked` whose score reaches `units`, in order.
fn keep_reaching(ranked: Vec<ScoredCandidate>, units: u64) -> (r: Vec<ScoredCandidate>)
    requires
        units <= 100 * UNITS_PER_PERCENT,
    ensures
        r@ == ranked@.filter(reaching(units as int)),
{
    let ghost orig = ranked@;
    let mut rest = ranked;
    let mut kept: Vec<ScoredCandidate> = Vec::new();
    let ghost mut taken: int = 0;
    while rest.len() > 0
        invariant
            units <= 100 * UNITS_PER_PERCENT,
            0 <= taken <= orig.len(),
            rest@ == orig.skip(taken),
            kept@ == orig.take(taken).filter(reaching(units as int)),
        decreases rest@.len(),
    {
        let x = rest.remove(0);
        proof {
            reveal(Seq::filter);
            assert(orig.take(taken + 1).drop_last() =~= orig.take(taken));
            assert(orig.take(taken + 1).last() == x);
        }
        if meets_cutoff(&x.score, units) {
            kept.push(x);
        }
        proof {
            taken = taken + 1;
            assert(rest@ =~= orig.skip(taken));
        }
    }
    proof {
        assert(orig.take(taken) =~= orig);
    }
    kept
}

/// Every candidate whose score reaches the fixed cutoff `t`, in ranked
/// order, without a limit on their number.
pub fn select_fixed(ranked: Vec<ScoredCandidate>, t: Threshold) -> (r: Vec<ScoredCandidate>)
    requires
        t.wf(),
    ensures
        r@ == ranked@.filter(reaching(t.units as int)),
{
    keep_reaching(ranked, t.units)
}

/// Whether some candidate reaches the cutoff of `10 * d` percent.
fn bucket_has_any(ranked: &Vec<ScoredCandidate>, d: u64) -> (r: bool)
    requires
        d <= 10,
    ensures
        r == bucket_nonempty(ranked@, d as int),
{
    let units = d * 10 * UNITS_PER_PERCENT;
    let mut i: usize = 0;
    while i < ranked.len()
        invariant
            i <= ranked@.len(),
            units == d * 10 * UNITS_PER_PERCENT,
            d <= 10,
            forall|k: int| 0 <= k < i ==> !meets(#[trigger] ranked@[k].score, units as int),
        decreases ranked@.len() - i,
    {
        if meets_cutoff(&ranked[i].score, units) {
            return true;
        }
        i = i + 1;
    }
    false
}

/// The relaxation: tries the cutoffs 100, 90, ..., 0 percent in turn and
/// stops at the first whose bucket is non-empty, showing that bucket (at
/// most `RELAXED_LIMIT` candidates of it unless `all`); shows nothing when no
/// bucket is non-empty.
pub fn select_relaxed(ranked: Vec<ScoredCandidate>, all: bool) -> (r: Selection)
    ensures
        match r.cutoff_percent {
            Some(m) => {
                &&& m % 10 == 0
                &&& m <= 100
                &&& bucket_nonempty(ranked@, (m / 10) as int)
                &&& forall|e: int| m / 10 < e <= 10 ==> !#[trigger] bucket_nonempty(ranked@, e)
                &&& r.shown@ == capped(ranked@.filter(reaching(m * UNITS_PER_PERCENT as int)), all)
            },
            None => {
                &&& forall|e: int| 0 <= e <= 10 ==> !#[trigger] bucket_nonempty(ranked@, e)
                &&& r.shown@.len() == 0
            },
        },
{
    let mut d: u64 = 10;
    loop
        invariant
            d <= 10,
            forall|e: int| d < e <= 10 ==> !#[trigger] bucket_nonempty(ranked@, e),
        decreases d,
    {
        if bucket_has_any(&ranked, d) {
            let mut shown = keep_reaching(ranked, d * 10 * UNITS_PER_PERCENT);
            if !all && shown.len() > RELAXED_LIMIT {
                shown.truncate(RELAXED_LIMIT);
            }
            proof {
                assert(shown@ =~= capped(ranked@.filter(reaching(d * 10 * UNITS_PER_PERCENT)), all));
            }
            return Selection { shown, cutoff_percent: Some(d * 10) };
        }
        if d == 0 {
            return Selection { shown: Vec::new(), cutoff_percent: None };
        }
        d = d - 1;
    }
}

/// What is shown of `ranked`: with a fixed cutoff everything that reaches
/// it, otherwise what the relaxation shows.
pub fn select(ranked: Vec<ScoredCandidate>, threshold: Option<Threshold>, all: bool) -> (r: Vec<ScoredCandidate>)
    requires
        threshold matches Some(t) ==> t.wf(),
    ensures
        r@ == shown_spec(ranked@, threshold, all),
{
    match threshold {
        Some(t) => select_fixed(ranked, t),
        None => {
            let ghost s = ranked@;
            let sel = select_relaxed(ranked, all);
            proof {
                lemma_relaxed_spec(s, all, sel.cutoff_percent, sel.shown@);
            }
            sel.shown
        },
    }
}

} // verus!
