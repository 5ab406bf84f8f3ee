use vstd::prelude::*;
use crate::matcher::{find_closest, is_ranking, scores_of, texts};

verus! {

/// The most results that a session shows, and the furthest the selection
/// cursor moves down.
pub const MAX_RESULTS: usize = 10;

/// An input event, already classified by whatever reads the keyboard.
pub enum SessionEvent {
    /// Text typed at the end of the query.
    TextInserted(String),
    /// Remove the last character of the query.
    DeleteBackward,
    /// Empty the query.
    DeleteAllBackward,
    /// Move the selection one result up.
    MoveSelectionUp,
    /// Move the selection one result down.
    MoveSelectionDown,
    /// Accept the selected result.
    ConfirmSelection,
}

/// The state of a session, as a mathematical value.
pub struct SessionView {
    pub query: Seq<char>,
    pub candidates: Seq<Seq<char>>,
    pub results: Seq<usize>,
    pub cursor: nat,
}

/// The results that a session holds for a query: none for an empty query,
/// else the ranking of the candidates cut to `MAX_RESULTS`.
pub open spec fn results_for(query: Seq<char>, candidates: Seq<Seq<char>>, results: Seq<usize>) -> bool {
    if query.len() == 0 {
        results.len() == 0
    } else {
        is_ranking(scores_of(query, candidates), MAX_RESULTS as nat, results)
    }
}

/// The query after a backspace: empty if `clear_all`, else without its last
/// character (an empty query stays empty).
pub open spec fn backspaced(query: Seq<char>, clear_all: bool) -> Seq<char> {
    if clear_all {
        Seq::empty()
    } else if query.len() == 0 {
        query
    } else {
        query.drop_last()
    }
}

/// The cursor one step up, stopping at the top.
pub open spec fn cursor_up(cursor: nat) -> nat {
    if cursor == 0 {
        0
    } else {
        (cursor - 1) as nat
    }
}

/// The cursor one step down, stopping at `MAX_RESULTS`.
pub open spec fn cursor_down(cursor: nat) -> nat {
    if cursor + 1 > MAX_RESULTS {
        MAX_RESULTS as nat
    } else {
        cursor + 1
    }
}

/// The first character of a text, as a text (empty for an empty text).
pub open spec fn first_char(t: Seq<char>) -> Seq<char> {
    if t.len() == 0 {
        Seq::empty()
    } else {
        t.subrange(0, 1)
    }
}

/// What accepting yields in a state: the first character of the selected
/// candidate, or nothing when the cursor is past the results.
pub open spec fn accepted(v: SessionView) -> Option<Seq<char>> {
    if v.cursor < v.results.len() {
        Some(first_char(v.candidates[v.results[v.cursor as int] as int]))
    } else {
        None
    }
}

/// A chooser session: the query, the fixed candidates, the cached ranking
/// of the candidates for the query, and the selection cursor.
pub struct App {
    box_content: String,
    choices: Vec<String>,
    results_cache: Vec<usize>,
    selected: usize,
}

impl View for App {
    type V = SessionView;

    closed spec fn view(&self) -> SessionView {
        SessionView {
            query: self.box_content@,
            candidates: texts(self.choices@),
            results: self.results_cache@,
            cursor: self.selected as nat,
        }
    }
}

impl App {
    /// The session's invariant: the cursor is at most `MAX_RESULTS`, and the
    /// results are those of the current query.
    pub open spec fn wf(&self) -> bool {
        &&& self@.cursor <= MAX_RESULTS
        &&& results_for(self@.query, self@.candidates, self@.results)
    }

    /// A session over `choices`, with an empty query, no results and the
    /// cursor at the top.
    pub fn new(choices: Vec<String>) -> (r: App)
        ensures
            r.wf(),
            r@.query.len() == 0,
            r@.candidates == texts(choices@),
            r@.results.len() == 0,
            r@.cursor == 0,
    {
        App { box_content: String::new(), choices, results_cache: Vec::new(), selected: 0 }
    }

    fn update_results(&mut self)
        ensures
            final(self)@.query == old(self)@.query,
            final(self)@.candidates == old(self)@.candidates,
            final(self)@.cursor == old(self)@.cursor,
            results_for(final(self)@.query, final(self)@.candidates, final(self)@.results),
    {
        if self.box_content.as_str().unicode_len() == 0 {
            self.results_cache = Vec::new();
        } else {
            self.results_cache = find_closest(
                self.box_content.as_str(),
                self.choices.as_slice(),
                MAX_RESULTS,
            );
        }
    }
    /// Appends `fragment` to the query and ranks the candidates anew; the
    /// cursor stays where it was.
    pub fn on_text_input(&mut self, fragment: &str)
        requires
            old(self).wf(),
        ensures
            final(self).wf(),
            final(self)@.query == old(self)@.query + fragment@,
            final(self)@.candidates == old(self)@.candidates,
            final(self)@.cursor == old(self)@.cursor,
            results_for(final(self)@.query, final(self)@.candidates, final(self)@.results),
    {
        self.box_content.append(fragment);
        self.update_results();
    }

    /// Empties the query if `clear_all`, else removes its last character,
    /// and ranks the candidates anew; the cursor stays where it was.
    pub fn on_backspace(&mut self, clear_all: bool)
        requires
            old(self).wf(),
        ensures
            final(self).wf(),
            final(self)@.query == backspaced(old(self)@.query, clear_all),
            final(self)@.candidates == old(self)@.candidates,
            final(self)@.cursor == old(self)@.cursor,
            results_for(final(self)@.query, final(self)@.candidates, final(self)@.results),
            clear_all ==> final(self)@.query.len() == 0 && final(self)@.results.len() == 0,
    {
        if clear_all {
            self.box_content = String::new();
        } else {
            let len = self.box_content.as_str().unicode_len();
            if len > 0 {
                let shorter = String::from_str(self.box_content.as_str().substring_char(0, len - 1));
                self.box_content = shorter;
            }
        }
        self.update_results();
    }

    /// Moves the cursor one result up, stopping at the top.
    pub fn on_navigate_up(&mut self)
        requires
            old(self).wf(),
        ensures
            final(self).wf(),
            final(self)@.cursor == cursor_up(old(self)@.cursor),
            final(self)@.query == old(self)@.query,
            final(self)@.candidates == old(self)@.candidates,
            final(self)@.results == old(self)@.results,
    {
        if self.selected > 0 {
            self.selected = self.selected - 1;
        }
    }

    /// Moves the cursor one result down, stopping at `MAX_RESULTS` (not at
    /// the number of results held).
    pub fn on_navigate_down(&mut self)
        requires
            old(self).wf(),
        ensures
            final(self).wf(),
            final(self)@.cursor == cursor_down(old(self)@.cursor),
            final(self)@.query == old(self)@.query,
            final(self)@.candidates == old(self)@.candidates,
            final(self)@.results == old(self)@.results,
    {
        if self.selected < MAX_RESULTS {
            self.selected = self.selected + 1;
        }
    }

    /// The first character of the selected candidate, or `None` when the
    /// cursor is past the results; `Some` ends the session.
    pub fn on_accept(&self) -> (r: Option<String>)
        requires
            self.wf(),
        ensures
            r.deep_view() == accepted(self@),
    {
        if self.selected < self.results_cache.len() {
            let idx = self.results_cache[self.selected];
            let text = self.choices[idx].as_str();
            if text.unicode_len() == 0 {
                Some(String::new())
            } else {
                Some(String::from_str(text.substring_char(0, 1)))
            }
        } else {
            None
        }
    }

    /// Applies one event; returns the accepted value when the event ends the
    /// session.
    pub fn on_event(&mut self, event: &SessionEvent) -> (r: Option<String>)
        requires
            old(self).wf(),
        ensures
            final(self).wf(),
            final(self)@.candidates == old(self)@.candidates,
            final(self)@.query == match event {
                SessionEvent::TextInserted(t) => old(self)@.query + t@,
                SessionEvent::DeleteBackward => backspaced(old(self)@.query, false),
                SessionEvent::DeleteAllBackward => backspaced(old(self)@.query, true),
                _ => old(self)@.query,
            },
            final(self)@.cursor == match event {
                SessionEvent::MoveSelectionUp => cursor_up(old(self)@.cursor),
                SessionEvent::MoveSelectionDown => cursor_down(old(self)@.cursor),
                _ => old(self)@.cursor,
            },
            match event {
                SessionEvent::TextInserted(_) | SessionEvent::DeleteBackward
                | SessionEvent::DeleteAllBackward => results_for(
                    final(self)@.query,
                    final(self)@.candidates,
                    final(self)@.results,
                ),
                _ => final(self)@.results == old(self)@.results,
            },
            r.deep_view() == match event {
                SessionEvent::ConfirmSelection => accepted(old(self)@),
                _ => None,
            },
    {
        match event {
            SessionEvent::TextInserted(t) => {
                self.on_text_input(t.as_str());
                None
            },
            SessionEvent::DeleteBackward => {
                self.on_backspace(false);
                None
            },
            SessionEvent::DeleteAllBackward => {
                self.on_backspace(true);
                None
            },
            SessionEvent::MoveSelectionUp => {
                self.on_navigate_up();
                None
            },
            SessionEvent::MoveSelectionDown => {
                self.on_navigate_down();
                None
            },
            SessionEvent::ConfirmSelection => self.on_accept(),
        }
    }

    /// The current query.
    pub fn query(&self) -> (r: &str)
        ensures
            r@ == self@.query,
    {
        self.box_content.as_str()
    }

    /// The candidates.
    pub fn choices(&self) -> (r: &[String])
        ensures
            texts(r@) == self@.candidates,
    {
        self.choices.as_slice()
    }

    /// The cached ranking, as indices into the candidates, best first.
    pub fn results(&self) -> (r: &[usize])
        ensures
            r@ == self@.results,
    {
        self.results_cache.as_slice()
    }

    /// The selection cursor.
    pub fn selected(&self) -> (r: usize)
        ensures
            r == self@.cursor,
    {
        self.selected
    }
}

/// The results of a query are empty exactly when the query is empty or there
/// are no candidates.
pub proof fn lemma_results_empty(query: Seq<char>, candidates: Seq<Seq<char>>, results: Seq<usize>)
    requires
        results_for(query, candidates, results),
    ensures
        results.len() == 0 <==> (query.len() == 0 || candidates.len() == 0),
{
}

/// Typing into a session that had no query and then accepting: when the
/// typing left no results, accepting yields nothing and the session goes on.
pub proof fn lemma_accept_after_first_input(v: SessionView, fragment: Seq<char>, w: SessionView)
    requires
        v.query.len() == 0,
        w.query == v.query + fragment,
        w.candidates == v.candidates,
        w.cursor == v.cursor,
        results_for(w.query, w.candidates, w.results),
        w.results.len() == 0,
    ensures
        accepted(w) is None,
{
}

} // verus!
