use chooser::{App, SessionEvent, MAX_RESULTS};

fn texts(v: &[&str]) -> Vec<String> {
    v.iter().map(|s| s.to_string()).collect()
}

#[test]
fn new_session_is_idle() {
    let app = App::new(texts(&["aaa", "bbb"]));
    assert_eq!(app.query(), "");
    assert!(app.results().is_empty());
    assert_eq!(app.selected(), 0);
    assert_eq!(app.choices().len(), 2);
}

#[test]
fn accept_without_results_is_a_no_op() {
    let mut app = App::new(Vec::new());
    app.on_text_input("a");
    assert!(app.results().is_empty());
    assert_eq!(app.on_accept(), None);
    assert_eq!(app.on_event(&SessionEvent::ConfirmSelection), None);
}

#[test]
fn clear_all_empties_query_and_results() {
    let mut app = App::new(texts(&["aaa", "bbb", "abb"]));
    app.on_text_input("ab");
    assert_eq!(app.results().len(), 3);
    app.on_backspace(true);
    assert_eq!(app.query(), "");
    assert!(app.results().is_empty());
}

#[test]
fn backspace_removes_last_char() {
    let mut app = App::new(texts(&["aaa", "bbb", "abb"]));
    app.on_event(&SessionEvent::TextInserted(String::from("bé")));
    app.on_event(&SessionEvent::DeleteBackward);
    assert_eq!(app.query(), "b");
    assert_eq!(app.results(), &[1, 2, 0]);
    app.on_backspace(false);
    assert_eq!(app.query(), "");
    assert!(app.results().is_empty());
    app.on_backspace(false);
    assert_eq!(app.query(), "");
}

#[test]
fn navigation_clamps() {
    let mut app = App::new(texts(&["aaa"]));
    app.on_navigate_up();
    assert_eq!(app.selected(), 0);
    for _ in 0..MAX_RESULTS {
        app.on_navigate_down();
    }
    assert_eq!(app.selected(), MAX_RESULTS);
    app.on_event(&SessionEvent::MoveSelectionDown);
    assert_eq!(app.selected(), MAX_RESULTS);
    app.on_event(&SessionEvent::MoveSelectionUp);
    assert_eq!(app.selected(), MAX_RESULTS - 1);
}

#[test]
fn typing_a_ranks() {
    let mut app = App::new(texts(&["aaa", "bbb", "abb"]));
    app.on_event(&SessionEvent::TextInserted(String::from("a")));
    assert_eq!(app.results(), &[0, 2, 1]);
}

#[test]
fn typing_b_ranks() {
    let mut app = App::new(texts(&["aaa", "bbb", "abb"]));
    app.on_text_input("b");
    assert_eq!(app.results(), &[1, 2, 0]);
}

#[test]
fn typing_b_ranks_cut_to_two() {
    let corpus = texts(&["aaa", "bbb", "abb"]);
    assert_eq!(chooser::find_closest("b", &corpus, 2), vec![1, 2]);
}

#[test]
fn empty_query_has_no_results() {
    let mut app = App::new(texts(&["xray", "yankee"]));
    app.on_text_input("");
    assert!(app.results().is_empty());
    app.on_text_input("x");
    assert_eq!(app.results().len(), 2);
    app.on_event(&SessionEvent::DeleteAllBackward);
    assert!(app.results().is_empty());
}

#[test]
fn accept_yields_first_char() {
    let mut app = App::new(texts(&["yankee", "xray"]));
    app.on_text_input("xray");
    assert_eq!(app.results()[0], 1);
    assert_eq!(app.selected(), 0);
    assert_eq!(app.on_event(&SessionEvent::ConfirmSelection), Some(String::from("x")));
}

#[test]
fn accept_past_results_is_a_no_op() {
    let mut app = App::new(texts(&["xray", "yankee"]));
    app.on_text_input("x");
    app.on_navigate_down();
    app.on_navigate_down();
    assert_eq!(app.selected(), 2);
    assert_eq!(app.on_accept(), None);
    app.on_navigate_up();
    assert_eq!(app.on_accept(), Some(String::from("y")));
}

#[test]
fn cursor_is_kept_when_query_changes() {
    let mut app = App::new(texts(&["aaa", "bbb", "abb"]));
    app.on_text_input("a");
    app.on_navigate_down();
    app.on_text_input("b");
    assert_eq!(app.selected(), 1);
}
