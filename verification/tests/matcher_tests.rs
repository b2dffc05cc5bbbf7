use fzfpj::matcher::{chars_of, fuzzy_score, literal_score, score};
use fzfpj::Strategy;

fn q(s: &str) -> Vec<char> {
    s.chars().collect()
}

#[test]
fn fuzzy_matches_ordered_subsequence() {
    assert!(fuzzy_score(&q("alp"), "Alpha").is_some());
    assert!(fuzzy_score(&q("alp"), "Alphabet").is_some());
    assert!(fuzzy_score(&q("alp"), "Beta").is_none());
    assert!(fuzzy_score(&q("axbycz"), "abc").is_none());
    assert!(fuzzy_score(&q("abc"), "axbycz").is_some());
}

#[test]
fn fuzzy_empty_query_matches_everything() {
    assert_eq!(fuzzy_score(&q(""), "anything"), Some(0));
    assert_eq!(fuzzy_score(&q(""), ""), Some(0));
}

#[test]
fn fuzzy_is_case_insensitive() {
    assert!(fuzzy_score(&q("ALP"), "alphabet").is_some());
    assert!(fuzzy_score(&q("alp"), "ALPHABET").is_some());
}

#[test]
fn fuzzy_rewards_tighter_matches() {
    let contiguous = fuzzy_score(&q("alp"), "Alpha").unwrap();
    let scattered = fuzzy_score(&q("alp"), "axxlxxp").unwrap();
    assert!(contiguous > scattered);
}

#[test]
fn literal_contains_case_insensitive() {
    assert_eq!(literal_score(&q("alp"), &chars_of("Alphabet")), Some(0));
    assert_eq!(literal_score(&q("ALP"), &chars_of("alphabet")), Some(0));
    assert_eq!(literal_score(&q("beta"), &chars_of("Alphabet")), None);
}

#[test]
fn literal_requires_contiguous_run() {
    assert_eq!(literal_score(&q("ab"), &chars_of("axb")), None);
    assert_eq!(literal_score(&q("ab"), &chars_of("xabx")), Some(0));
}

#[test]
fn literal_empty_query_matches_everything() {
    assert_eq!(literal_score(&q(""), &chars_of("anything")), Some(0));
    assert_eq!(literal_score(&q(""), &chars_of("")), Some(0));
}

#[test]
fn literal_metacharacter_matches_nothing() {
    assert_eq!(literal_score(&q("a(b"), &chars_of("a(b")), None);
    assert_eq!(literal_score(&q("a.c"), &chars_of("a.c")), None);
    assert_eq!(literal_score(&q("x*"), &chars_of("x*y")), None);
}

#[test]
fn case_folding_is_ascii_only_under_both_strategies() {
    let umlaut_lower = "\u{e4}";
    let umlaut_upper = "\u{c4}rger";
    assert!(fuzzy_score(&q(umlaut_lower), umlaut_upper).is_none());
    assert_eq!(literal_score(&q(umlaut_lower), &chars_of(umlaut_upper)), None);
    assert!(fuzzy_score(&q("\u{c4}"), umlaut_upper).is_some());
    assert_eq!(literal_score(&q("\u{c4}"), &chars_of(umlaut_upper)), Some(0));
}

#[test]
fn score_dispatches_by_strategy() {
    assert!(score(Strategy::Fuzzy, &q("ab"), "axb").is_some());
    assert_eq!(score(Strategy::Literal, &q("ab"), "axb"), None);
    assert_eq!(score(Strategy::Literal, &q("xb"), "axb"), Some(0));
}
