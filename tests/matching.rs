use spell::alignment::alignment_shared;
use spell::rank::{rank, ranks_before, ScoredCandidate};
use spell::score::{anagram_check, count_char, score, score_normalized, Score, Strategy};
use spell::subsequence::lcs_length;
use spell::text::{chars_of, normalize};

fn cs(s: &str) -> Vec<char> {
    s.chars().collect()
}

fn cand(score: Score, line: &str) -> ScoredCandidate {
    ScoredCandidate { score, line: line.to_string(), normalized: normalize(line) }
}

#[test]
fn anagram_is_detected() {
    assert_eq!(score("tset", "test", Strategy::Alignment), Score::Anagram);
}

#[test]
fn insertion_in_candidate_is_tolerated() {
    assert_eq!(
        score("cde", "code", Strategy::Alignment),
        Score::Percentage { shared: 3, total: 4 }
    );
}

#[test]
fn disjoint_characters_score_zero() {
    assert_eq!(
        score("abc", "xyz", Strategy::Alignment),
        Score::Percentage { shared: 0, total: 3 }
    );
    assert_eq!(
        score("abc", "xyzw", Strategy::Subsequence),
        Score::Percentage { shared: 0, total: 3 }
    );
}

#[test]
fn case_does_not_change_scores() {
    assert_eq!(score("TeSt", "test", Strategy::Alignment), Score::Exact);
    assert_eq!(
        score("CDE", "CoDe", Strategy::Alignment),
        score("cde", "code", Strategy::Alignment)
    );
    assert_eq!(score("TSET", "Test", Strategy::Alignment), Score::Anagram);
}

#[test]
fn equal_strings_are_exact() {
    assert_eq!(score("word", "word", Strategy::Alignment), Score::Exact);
    assert_eq!(score("", "", Strategy::Alignment), Score::Exact);
}

#[test]
fn empty_query_against_word() {
    assert_eq!(
        score("", "abc", Strategy::Alignment),
        Score::Percentage { shared: 0, total: 3 }
    );
    assert_eq!(
        score("", "abc", Strategy::Subsequence),
        Score::Percentage { shared: 0, total: 1 }
    );
}

#[test]
fn unmatched_query_character_keeps_candidate_cursor() {
    // 'x' is not found; 'b' and 'c' still match from the same position.
    assert_eq!(alignment_shared(&cs("xbc"), &cs("abc")), 2);
    // after 'c' is consumed at position 2, 'a' cannot be found again.
    assert_eq!(alignment_shared(&cs("ca"), &cs("abc")), 1);
    assert_eq!(alignment_shared(&cs("abc"), &cs("")), 0);
}

#[test]
fn subsequence_strategy_uses_query_length() {
    assert_eq!(
        score("cde", "code", Strategy::Subsequence),
        Score::Percentage { shared: 3, total: 3 }
    );
    assert_eq!(
        score("test", "test", Strategy::Subsequence),
        Score::Percentage { shared: 4, total: 4 }
    );
}

#[test]
fn longest_common_subsequence_length() {
    assert_eq!(lcs_length(&cs("a--b---c"), &cs("abc")), 3);
    assert_eq!(lcs_length(&cs("gac"), &cs("agcat")), 2);
    assert_eq!(lcs_length(&cs("abc"), &cs("")), 0);
}

#[test]
fn lowercasing_folds_letters() {
    assert_eq!(normalize("ÀbC"), cs("àbc"));
    assert_eq!(chars_of("héllo"), cs("héllo"));
}

#[test]
fn character_counts_and_anagrams() {
    assert_eq!(count_char(&cs("banana"), 'a'), 3);
    assert_eq!(count_char(&cs("banana"), 'z'), 0);
    assert!(anagram_check(&cs("listen"), &cs("silent")));
    assert!(!anagram_check(&cs("aab"), &cs("abb")));
    assert!(!anagram_check(&cs("ab"), &cs("abc")));
}

#[test]
fn normalized_scoring_matches_lowercase_scoring() {
    assert_eq!(
        score_normalized(&cs("cde"), &cs("code"), Strategy::Alignment),
        score("CDE", "CODE", Strategy::Alignment)
    );
}

#[test]
fn categories_rank_in_order() {
    let exact = cand(Score::Exact, "test");
    let anagram = cand(Score::Anagram, "tset");
    let full = cand(Score::Percentage { shared: 3, total: 3 }, "abc");
    assert!(ranks_before(&exact, &anagram));
    assert!(ranks_before(&anagram, &full));
    assert!(!ranks_before(&full, &anagram));
    assert!(!ranks_before(&anagram, &exact));
}

#[test]
fn equal_percentages_put_shorter_first() {
    let long = cand(Score::Percentage { shared: 2, total: 4 }, "abcdef");
    let short = cand(Score::Percentage { shared: 1, total: 2 }, "abc");
    let ranked = rank(vec![long, short]);
    assert_eq!(ranked[0].line, "abc");
    assert_eq!(ranked[1].line, "abcdef");
}

#[test]
fn ranking_orders_and_keeps_arrival_for_ties() {
    let items = vec![
        cand(Score::Percentage { shared: 1, total: 4 }, "wxyz"),
        cand(Score::Percentage { shared: 3, total: 4 }, "code"),
        cand(Score::Anagram, "tset"),
        cand(Score::Percentage { shared: 3, total: 4 }, "cade"),
        cand(Score::Exact, "test"),
    ];
    let ranked = rank(items);
    let lines: Vec<&str> = ranked.iter().map(|c| c.line.as_str()).collect();
    assert_eq!(lines, vec!["test", "tset", "code", "cade", "wxyz"]);
}

#[test]
fn ranking_empty_gives_empty() {
    assert!(rank(Vec::new()).is_empty());
}
