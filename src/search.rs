//! One search over a word source: every line is scored against the query in
//! turn, until an exact match ends the search.

use vstd::prelude::*;
use crate::rank::{ScoredCandidate, all_wf, is_ranked, keeps_ties, rank};
use crate::select::{Threshold, select, shown_spec};
use crate::score::{Score, Strategy, score_spec, score_normalized};
use crate::text::{lower_of, normalize};

verus! {

/// `x` is line `line` scored against the normalized query `query`.
pub open spec fn scored_as(x: ScoredCandidate, query: Seq<char>, line: Seq<char>, strategy: Strategy) -> bool {
    &&& x.line@ == line
    &&& x.normalized@ == lower_of(line)
    &&& x.score == score_spec(query, lower_of(line), strategy)
}

/// `results` holds the lines of `lines` scored in order, up to and including
/// the first exact match, or all of them when none matches exactly.
pub open spec fn scored_until_exact(
    results: Seq<ScoredCandidate>,
    query: Seq<char>,
    lines: Seq<Seq<char>>,
    strategy: Strategy,
) -> bool {
    &&& results.len() <= lines.len()
    &&& forall|i: int| 0 <= i < results.len() ==> scored_as(#[trigger] results[i], query, lines[i], strategy)
    &&& forall|i: int| 0 <= i < results.len() - 1 ==> (#[trigger] results[i]).score != Score::Exact
    &&& results.len() < lines.len() ==> results.len() > 0 && results.last().score == Score::Exact
}

/// A search in progress: the normalized query, the strategy, the candidates
/// scored so far, and whether an exact match has ended it.
pub struct Search {
    pub query: Vec<char>,
    pub strategy: Strategy,
    pub results: Vec<ScoredCandidate>,
    pub finished: bool,
}

impl Search {
    /// Every result is scored well formed, and the search is finished exactly
    /// when its last result is an exact match.
    pub open spec fn wf(self) -> bool {
        &&& all_wf(self.results@)
        &&& forall|i: int| 0 <= i < self.results@.len() - 1 ==> (#[trigger] self.results@[i]).score
            != Score::Exact
        &&& self.finished == (self.results@.len() > 0 && self.results@.last().score == Score::Exact)
    }

    /// Starts a search for `query`, which is lowercased once here.
    pub fn new(query: &str, strategy: Strategy) -> (r: Search)
        ensures
            r.wf(),
            r.query@ == lower_of(query@),
            r.strategy == strategy,
            r.results@.len() == 0,
            !r.finished,
    {
        Search { query: normalize(query), strategy, results: Vec::new(), finished: false }
    }

    /// Scores one more line. Once an exact match has been found, further
    /// lines are not scored.
    pub fn offer(&mut self, line: String)
        requires
            old(self).wf(),
        ensures
            final(self).wf(),
            final(self).query == old(self).query,
            final(self).strategy == old(self).strategy,
            old(self).finished ==> final(self).results@ == old(self).results@,
            !old(self).finished ==> final(self).results@.len() == old(self).results@.len() + 1
                && final(self).results@.drop_last() == old(self).results@
                && scored_as(final(self).results@.last(), old(self).query@, line@, old(self).strategy),
    {
        if self.finished {
            return;
        }
        let folded = normalize(line.as_str());
        let score = score_normalized(&self.query, &folded, self.strategy);
        self.results.push(ScoredCandidate { score, line, normalized: folded });
        self.finished = match score {
            Score::Exact => true,
            _ => false,
        };
        proof {
            assert(self.results@.drop_last() =~= old(self).results@);
        }
    }

    /// Whether an exact match has ended the search.
    pub fn is_finished(&self) -> (r: bool)
        ensures
            r == self.finished,
    {
        self.finished
    }

    /// The candidates scored so far, in the order of their lines.
    pub fn into_results(self) -> (r: Vec<ScoredCandidate>)
        ensures
            r@ == self.results@,
    {
        self.results
    }
}

/// Scores `lines` against `query` in order, stopping after the first exact match.
pub fn search_lines(query: &str, lines: Vec<String>, strategy: Strategy) -> (r: Vec<ScoredCandidate>)
    ensures
        all_wf(r@),
        scored_until_exact(r@, lower_of(query@), lines@.map_values(|l: String| l@), strategy),
{
    let ghost orig = lines@;
    let ghost views = lines@.map_values(|l: String| l@);
    let mut search = Search::new(query, strategy);
    let mut rest = lines;
    let ghost mut taken: int = 0;
    while rest.len() > 0 && !search.is_finished()
        invariant
            search.wf(),
            search.query@ == lower_of(query@),
            search.strategy == strategy,
            0 <= taken <= orig.len(),
            views == orig.map_values(|l: String| l@),
            rest@ == orig.skip(taken),
            search.results@.len() == taken,
            forall|i: int| 0 <= i < taken ==> scored_as(#[trigger] search.results@[i], lower_of(query@), orig[i]@, strategy),
        decreases rest@.len(),
    {
        let line = rest.remove(0);
        assert(line == orig[taken]);
        let ghost before = search.results@;
        search.offer(line);
        proof {
            assert forall|i: int| 0 <= i < taken + 1 implies scored_as(#[trigger] search.results@[i], lower_of(query@), orig[i]@, strategy) by {
                if i < taken {
                    assert(search.results@[i] == before[i]);
                }
            }
            taken = taken + 1;
            assert(rest@ =~= orig.skip(taken));
        }
    }
    proof {
        assert forall|i: int| 0 <= i < search.results@.len() implies scored_as(#[trigger] search.results@[i], lower_of(query@), views[i], strategy) by {
            assert(views[i] == orig[i]@);
        }
    }
    search.into_results()
}

/// With the alignment strategy, a line equal to the query after lowercasing
/// ends the search: the first such line is the last one scored, and it
/// scores an exact match; no later line is scored.
pub proof fn lemma_exact_ends_search(
    scored: Seq<ScoredCandidate>,
    query: Seq<char>,
    lines: Seq<Seq<char>>,
    e: int,
)
    requires
        scored_until_exact(scored, query, lines, Strategy::Alignment),
        0 <= e < lines.len(),
        lower_of(lines[e]) == query,
        forall|f: int| 0 <= f < e ==> lower_of(#[trigger] lines[f]) != query,
    ensures
        scored.len() == e + 1,
        scored[e].score == Score::Exact,
{
    if scored.len() < e + 1 {
        let n = scored.len() - 1;
        assert(scored_as(scored[n], query, lines[n], Strategy::Alignment));
    }
    if scored.len() > e + 1 {
        assert(scored_as(scored[e], query, lines[e], Strategy::Alignment));
    }
    assert(scored_as(scored[e], query, lines[e], Strategy::Alignment));
}

/// Ranks the candidates of one search and picks those to show.
pub fn present(results: Vec<ScoredCandidate>, threshold: Option<Threshold>, all: bool) -> (r: Vec<ScoredCandidate>)
    requires
        all_wf(results@),
        threshold matches Some(t) ==> t.wf(),
    ensures
        exists|ranked: Seq<ScoredCandidate>|
            {
                &&& is_ranked(ranked)
                &&& keeps_ties(ranked, results@)
                &&& ranked.len() == results@.len()
                &&& r@ == shown_spec(ranked, threshold, all)
            },
{
    let ranked = rank(results);
    let ghost ranked_view = ranked@;
    let r = select(ranked, threshold, all);
    assert(is_ranked(ranked_view) && r@ == shown_spec(ranked_view, threshold, all));
    r
}

/// The whole search of one word source: scores its lines against `query`
/// until an exact match, ranks them, and picks those to show.
pub fn suggest(
    query: &str,
    lines: Vec<String>,
    strategy: Strategy,
    threshold: Option<Threshold>,
    all: bool,
) -> (r: Vec<ScoredCandidate>)
    requires
        threshold matches Some(t) ==> t.wf(),
    ensures
        exists|scored: Seq<ScoredCandidate>, ranked: Seq<ScoredCandidate>|
            {
                &&& scored_until_exact(scored, lower_of(query@), lines@.map_values(|l: String| l@), strategy)
                &&& is_ranked(ranked)
                &&& keeps_ties(ranked, scored)
                &&& ranked.len() == scored.len()
                &&& r@ == shown_spec(ranked, threshold, all)
            },
{
    let scored = search_lines(query, lines, strategy);
    let ghost scored_view = scored@;
    let r = present(scored, threshold, all);
    assert(scored_until_exact(scored_view, lower_of(query@), lines@.map_values(|l: String| l@), strategy));
    r
}

} // verus!
