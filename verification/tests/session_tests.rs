use fzfpj::session::{Candidate, Event, Outcome, Session};
use fzfpj::Strategy;

fn cand(name: &str) -> Candidate {
    Candidate {
        name: name.to_string(),
        payload: format!("/data/{}", name),
        tags: Vec::new(),
        enabled: true,
    }
}

fn disabled(name: &str) -> Candidate {
    Candidate { enabled: false, ..cand(name) }
}

fn row_names(s: &Session) -> Vec<String> {
    s.render_plan().rows.iter().map(|r| r.name.clone()).collect()
}

fn type_str(s: &mut Session, text: &str) {
    for c in text.chars() {
        s.apply(Event::TypeChar(c));
    }
}

#[test]
fn scenario_fuzzy_alp_filters_and_keeps_both() {
    let cands = vec![cand("Alpha"), cand("Beta"), cand("Alphabet")];
    let mut s = Session::new(&cands, 10, Strategy::Fuzzy);
    type_str(&mut s, "alp");
    assert_eq!(s.num_matches(), 2);
    let names = row_names(&s);
    assert!(names.contains(&"Alpha".to_string()));
    assert!(names.contains(&"Alphabet".to_string()));
    assert!(!names.contains(&"Beta".to_string()));
}

#[test]
fn scenario_two_page_downs_reach_last_partial_page() {
    let cands = vec![cand("a"), cand("b"), cand("c"), cand("d"), cand("e")];
    let mut s = Session::new(&cands, 2, Strategy::Literal);
    assert_eq!(s.num_matches(), 5);
    s.apply(Event::PageDown);
    s.apply(Event::PageDown);
    assert_eq!(s.page(), 2);
    let plan = s.render_plan();
    assert_eq!(plan.rows.len(), 1);
    assert!(!plan.has_next);
    assert!(plan.has_prev);
}

#[test]
fn scenario_empty_query_literal_keeps_original_order() {
    let cands = vec![cand("Cherry"), cand("Apple"), cand("Banana")];
    let s = Session::new(&cands, 10, Strategy::Literal);
    assert_eq!(row_names(&s), vec!["Cherry", "Apple", "Banana"]);
}

#[test]
fn scenario_commit_on_empty_match_set_is_ignored() {
    let cands = vec![cand("Alpha"), cand("Beta")];
    let mut s = Session::new(&cands, 10, Strategy::Literal);
    type_str(&mut s, "zzq");
    assert_eq!(s.num_matches(), 0);
    s.apply(Event::Commit);
    assert_eq!(s.outcome(), Outcome::Pending);
}

#[test]
fn scenario_backspace_restores_previous_matches() {
    let cands = vec![cand("Alpha"), cand("Beta"), cand("Gamma")];
    let mut s = Session::new(&cands, 10, Strategy::Fuzzy);
    s.apply(Event::TypeChar('a'));
    s.apply(Event::TypeChar('b'));
    s.apply(Event::Backspace);

    let mut reference = Session::new(&cands, 10, Strategy::Fuzzy);
    reference.apply(Event::TypeChar('a'));
    assert_eq!(s.num_matches(), reference.num_matches());
    assert_eq!(row_names(&s), row_names(&reference));

    s.apply(Event::Commit);
    assert!(matches!(s.outcome(), Outcome::Committed(_)));
}

#[test]
fn move_up_at_top_is_a_noop() {
    let cands = vec![cand("a"), cand("b"), cand("c")];
    let mut s = Session::new(&cands, 2, Strategy::Literal);
    assert_eq!(s.cursor(), 0);
    s.apply(Event::MoveUp);
    assert_eq!(s.cursor(), 0);
    assert_eq!(s.page(), 0);
    assert_eq!(row_names(&s), vec!["a", "b"]);
}

#[test]
fn page_up_at_first_page_is_a_noop() {
    let cands = vec![cand("a"), cand("b"), cand("c")];
    let mut s = Session::new(&cands, 2, Strategy::Literal);
    s.apply(Event::MoveDown);
    s.apply(Event::PageUp);
    assert_eq!(s.page(), 0);
    assert_eq!(s.cursor(), 1);
}

#[test]
fn typing_resets_page_and_cursor() {
    let cands = vec![cand("ax"), cand("bx"), cand("cx"), cand("dx"), cand("ex")];
    let mut s = Session::new(&cands, 2, Strategy::Literal);
    s.apply(Event::PageDown);
    s.apply(Event::MoveDown);
    assert_eq!(s.page(), 1);
    s.apply(Event::TypeChar('x'));
    assert_eq!(s.page(), 0);
    assert_eq!(s.cursor(), 0);
    s.apply(Event::PageDown);
    s.apply(Event::Backspace);
    assert_eq!(s.page(), 0);
    assert_eq!(s.cursor(), 0);
}

#[test]
fn move_down_stops_at_page_boundary() {
    let cands = vec![cand("a"), cand("b"), cand("c")];
    let mut s = Session::new(&cands, 2, Strategy::Literal);
    s.apply(Event::MoveDown);
    assert_eq!(s.cursor(), 1);
    s.apply(Event::MoveDown);
    assert_eq!(s.cursor(), 1);
}

#[test]
fn commit_resolves_cursor_candidate() {
    let cands = vec![cand("a"), cand("b"), cand("c"), cand("d"), cand("e")];
    let mut s = Session::new(&cands, 2, Strategy::Literal);
    s.apply(Event::PageDown);
    s.apply(Event::MoveDown);
    s.apply(Event::Commit);
    let chosen = s.selected().expect("a committed session names its candidate");
    assert_eq!(chosen.name, "d");
    assert_eq!(chosen.payload, "/data/d");
}

#[test]
fn cancel_is_terminal_and_freezes_state() {
    let cands = vec![cand("Alpha"), cand("Beta")];
    let mut s = Session::new(&cands, 10, Strategy::Fuzzy);
    s.apply(Event::Cancel);
    assert_eq!(s.outcome(), Outcome::Cancelled);
    s.apply(Event::TypeChar('z'));
    s.apply(Event::Commit);
    assert_eq!(s.outcome(), Outcome::Cancelled);
    assert_eq!(s.num_matches(), 2);
}

#[test]
fn committed_is_terminal() {
    let cands = vec![cand("Alpha")];
    let mut s = Session::new(&cands, 10, Strategy::Fuzzy);
    s.apply(Event::Commit);
    assert_eq!(s.outcome(), Outcome::Committed(0));
    s.apply(Event::Cancel);
    assert_eq!(s.outcome(), Outcome::Committed(0));
}

#[test]
fn disabled_candidates_never_enter_the_working_set() {
    let cands = vec![cand("Alpha"), disabled("Hidden"), cand("Beta")];
    let s = Session::new(&cands, 10, Strategy::Literal);
    assert_eq!(s.num_matches(), 2);
    assert_eq!(row_names(&s), vec!["Alpha", "Beta"]);
}

#[test]
fn fuzzy_ranks_better_matches_first() {
    let cands = vec![cand("axxlxxp"), cand("Alpha")];
    let mut s = Session::new(&cands, 10, Strategy::Fuzzy);
    type_str(&mut s, "alp");
    assert_eq!(row_names(&s), vec!["Alpha", "axxlxxp"]);
}

#[test]
fn render_plan_reports_query_and_selection() {
    let cands = vec![cand("Alpha"), cand("Beta")];
    let mut s = Session::new(&cands, 10, Strategy::Fuzzy);
    type_str(&mut s, "a");
    let plan = s.render_plan();
    let query: String = plan.query.iter().collect();
    assert_eq!(query, "a");
    assert!(plan.rows[0].selected);
    assert!(plan.rows.iter().skip(1).all(|r| !r.selected));
    assert!(!plan.has_prev);
    assert!(!plan.has_next);
}

#[test]
fn invalid_literal_pattern_degrades_to_no_rows() {
    let cands = vec![cand("Alpha"), cand("Beta")];
    let mut s = Session::new(&cands, 10, Strategy::Literal);
    type_str(&mut s, "al(");
    assert_eq!(s.num_matches(), 0);
    assert_eq!(s.render_plan().rows.len(), 0);
    s.apply(Event::Backspace);
    assert_eq!(s.num_matches(), 1);
    assert_eq!(row_names(&s), vec!["Alpha"]);
}
