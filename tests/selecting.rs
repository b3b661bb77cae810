use spell::args::{is_threshold_flag, parse_args, parse_threshold, ArgError};
use spell::rank::ScoredCandidate;
use spell::score::{Score, Strategy};
use spell::search::{present, search_lines, suggest, Search};
use spell::select::{meets_cutoff, select, select_fixed, select_relaxed, Threshold};
use spell::text::normalize;

fn cand(score: Score, line: &str) -> ScoredCandidate {
    ScoredCandidate { score, line: line.to_string(), normalized: normalize(line) }
}

fn pct(shared: usize, total: usize, line: &str) -> ScoredCandidate {
    cand(Score::Percentage { shared, total }, line)
}

fn lines_of(v: &[ScoredCandidate]) -> Vec<String> {
    v.iter().map(|c| c.line.clone()).collect()
}

fn strings(v: &[&str]) -> Vec<String> {
    v.iter().map(|s| s.to_string()).collect()
}

fn chars(s: &str) -> Vec<char> {
    s.chars().collect()
}

#[test]
fn relaxation_stops_at_best_decile() {
    // best is 3/4 = 75%, so the 70% cutoff is the first non-empty bucket.
    let ranked = vec![pct(3, 4, "code"), pct(7, 10, "seventy"), pct(2, 4, "half")];
    let sel = select_relaxed(ranked, false);
    assert_eq!(sel.cutoff_percent, Some(70));
    assert_eq!(lines_of(&sel.shown), strings(&["code", "seventy"]));
}

#[test]
fn relaxation_with_categorical_stops_at_full() {
    let ranked = vec![cand(Score::Anagram, "tset"), pct(9, 10, "ninety")];
    let sel = select_relaxed(ranked, false);
    assert_eq!(sel.cutoff_percent, Some(100));
    assert_eq!(lines_of(&sel.shown), strings(&["tset"]));
}

#[test]
fn relaxation_reaches_zero_bucket() {
    let ranked = vec![pct(0, 3, "xyz"), pct(0, 5, "vwxyz")];
    let sel = select_relaxed(ranked, false);
    assert_eq!(sel.cutoff_percent, Some(0));
    assert_eq!(sel.shown.len(), 2);
}

#[test]
fn relaxation_of_empty_set_shows_nothing() {
    let sel = select_relaxed(Vec::new(), false);
    assert_eq!(sel.cutoff_percent, None);
    assert!(sel.shown.is_empty());
}

#[test]
fn relaxation_caps_at_seven_unless_all() {
    let many: Vec<ScoredCandidate> = (0..10).map(|i| pct(1, 2, &format!("w{}", i))).collect();
    let sel = select_relaxed(many, false);
    assert_eq!(sel.cutoff_percent, Some(50));
    assert_eq!(sel.shown.len(), 7);
    let many: Vec<ScoredCandidate> = (0..10).map(|i| pct(1, 2, &format!("w{}", i))).collect();
    let sel = select_relaxed(many, true);
    assert_eq!(sel.shown.len(), 10);
}

#[test]
fn fixed_cutoff_has_no_cap() {
    let many: Vec<ScoredCandidate> = (0..10).map(|i| pct(1, 2, &format!("w{}", i))).collect();
    let mut with_low = many;
    with_low.push(pct(1, 3, "third"));
    let shown = select_fixed(with_low, Threshold { units: 50_000_000_000 });
    assert_eq!(shown.len(), 10);
}

#[test]
fn fixed_cutoff_is_inclusive_and_exact() {
    let ranked = vec![cand(Score::Exact, "a"), pct(1, 3, "third"), pct(1, 4, "quarter")];
    let shown = select(ranked, Some(Threshold { units: 33_333_333_333 }), false);
    assert_eq!(lines_of(&shown), strings(&["a", "third"]));
    assert!(meets_cutoff(&Score::Percentage { shared: 1, total: 2 }, 50_000_000_000));
    assert!(!meets_cutoff(&Score::Percentage { shared: 1, total: 2 }, 50_000_000_001));
    assert!(meets_cutoff(&Score::Anagram, 100_000_000_000));
}

#[test]
fn threshold_fifty_percent() {
    assert_eq!(parse_threshold(&chars("-50%")), Ok(Threshold { units: 50_000_000_000 }));
}

#[test]
fn threshold_above_hundred_is_rejected() {
    assert_eq!(parse_threshold(&chars("-150%")), Err(ArgError::NotAPercentage));
    assert_eq!(parse_threshold(&chars("-100.5%")), Err(ArgError::NotAPercentage));
    assert_eq!(parse_threshold(&chars("-100%")), Ok(Threshold { units: 100_000_000_000 }));
}

#[test]
fn threshold_fractions() {
    assert_eq!(parse_threshold(&chars("-33.5%")), Ok(Threshold { units: 33_500_000_000 }));
    assert_eq!(parse_threshold(&chars("-.5%")), Ok(Threshold { units: 500_000_000 }));
    assert_eq!(parse_threshold(&chars("-7.%")), Ok(Threshold { units: 7_000_000_000 }));
    assert_eq!(parse_threshold(&chars("-0.0000000019%")), Ok(Threshold { units: 1 }));
}

#[test]
fn threshold_that_is_not_a_number() {
    assert_eq!(parse_threshold(&chars("-abc%")), Err(ArgError::NotANumber));
    assert_eq!(parse_threshold(&chars("-.%")), Err(ArgError::NotANumber));
    assert_eq!(parse_threshold(&chars("-1.2.3%")), Err(ArgError::NotANumber));
    assert!(is_threshold_flag(&chars("-5%")));
    assert!(!is_threshold_flag(&chars("-%")));
    assert!(!is_threshold_flag(&chars("5%")));
}

#[test]
fn arguments_with_flags_query_and_files() {
    let inv = parse_args(strings(&["-a", "-v", "-50%", "Word", "one.txt", "two.txt"])).unwrap();
    assert!(inv.all);
    assert!(inv.verbose);
    assert_eq!(inv.threshold, Some(Threshold { units: 50_000_000_000 }));
    assert_eq!(inv.query, "Word");
    assert_eq!(inv.files, strings(&["one.txt", "two.txt"]));
}

#[test]
fn arguments_without_files() {
    let inv = parse_args(strings(&["word"])).unwrap();
    assert!(!inv.all && !inv.verbose);
    assert_eq!(inv.threshold, None);
    assert!(inv.files.is_empty());
}

#[test]
fn arguments_errors() {
    assert_eq!(parse_args(Vec::new()).err(), Some(ArgError::MissingQuery));
    assert_eq!(parse_args(strings(&["-v", "-a"])).err(), Some(ArgError::MissingQuery));
    assert_eq!(parse_args(strings(&["-150%", "word"])).err(), Some(ArgError::NotAPercentage));
    assert_eq!(parse_args(strings(&["-x%", "word"])).err(), Some(ArgError::NotANumber));
}

#[test]
fn search_stops_after_exact_match() {
    let scored = search_lines("Test", strings(&["tset", "TEST", "tester"]), Strategy::Alignment);
    assert_eq!(scored.len(), 2);
    assert_eq!(scored[0].score, Score::Anagram);
    assert_eq!(scored[1].score, Score::Exact);
    assert_eq!(scored[1].line, "TEST");
}

#[test]
fn search_state_ignores_lines_after_exact() {
    let mut search = Search::new("Cat", Strategy::Alignment);
    search.offer("dog".to_string());
    assert!(!search.is_finished());
    search.offer("cat".to_string());
    assert!(search.is_finished());
    search.offer("car".to_string());
    let results = search.into_results();
    assert_eq!(results.len(), 2);
}

#[test]
fn exact_match_is_shown_first() {
    let shown = suggest(
        "test",
        strings(&["tset", "best", "Test", "tested"]),
        Strategy::Alignment,
        None,
        false,
    );
    assert_eq!(lines_of(&shown), strings(&["Test", "tset"]));
}

#[test]
fn suggestions_by_relaxation() {
    let shown = suggest("cde", strings(&["zzzz", "code", "cod", "xcdex"]), Strategy::Alignment, None, false);
    // code: 3/4 = 75%; xcdex: 3/5 = 60%; cod: 2/3 = 66%.
    assert_eq!(lines_of(&shown), strings(&["code"]));
}

#[test]
fn suggestions_with_fixed_cutoff() {
    let shown = suggest(
        "cde",
        strings(&["zzzz", "code", "cod", "xcdex"]),
        Strategy::Alignment,
        Some(Threshold { units: 60_000_000_000 }),
        false,
    );
    assert_eq!(lines_of(&shown), strings(&["code", "cod", "xcdex"]));
}

#[test]
fn searches_are_independent() {
    let first = suggest("cat", strings(&["cat"]), Strategy::Alignment, None, false);
    let second = suggest("cat", strings(&["cart", "dog"]), Strategy::Alignment, None, false);
    assert_eq!(lines_of(&first), strings(&["cat"]));
    assert_eq!(lines_of(&second), strings(&["cart"]));
}

#[test]
fn present_ranks_then_selects() {
    let shown = present(vec![pct(1, 4, "low"), pct(3, 4, "high")], None, false);
    assert_eq!(lines_of(&shown), strings(&["high"]));
}
