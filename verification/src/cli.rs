//! The interactive selection state: the candidate list, the query, the
//! filtered view and the cursor, together with the pure transition rules
//! that the input loop dispatches key events through.

use crate::matcher::{filter_spec, get_matching_branches, lemma_empty_query_all};
use crate::text::{pop_char, push_char};
use vstd::prelude::*;
use vstd::string::StrSliceExecFns;

verus! {

/// One discrete key event, as the input loop hands it in.
#[derive(Clone, Copy, Debug, PartialEq, Eq)]
pub enum Key {
    Up,
    Down,
    Enter,
    BackTab,
    Backspace,
    Char(char),
    CtrlC,
    Other,
}

/// What the caller must do after a key event was dispatched.
#[derive(Debug, PartialEq, Eq)]
pub enum Action {
    /// Nothing changed: the session goes on and the screen is untouched.
    Nothing,
    /// Only the cursor moved; the payload is the row it left. Redraw that
    /// row plain and the new cursor row marked.
    RedrawCursor(usize),
    /// The query or the candidate list changed: redraw the whole list.
    RedrawList,
    /// Invoke the backend switch for this candidate, then end the session.
    Switch(String),
    /// Invoke the backend delete for this candidate; on success reload the
    /// candidates through `apply_delete`, on failure end the session.
    Delete(String),
    /// End the session without touching the backend.
    Quit,
}

/// A candidate line as it is rendered on the cursor row: a selection marker
/// in place of the line's first character slot.
pub open spec fn marked_spec(s: Seq<char>) -> Seq<char> {
    if s.len() == 0 {
        seq!['*']
    } else {
        seq!['*'] + s.skip(1)
    }
}

/// Renders a candidate line for the cursor row.
pub fn marked_line(branch: &String) -> (r: String)
    ensures
        r@ == marked_spec(branch@),
{
    let mut r = String::new();
    push_char(&mut r, '*');
    let n = branch.as_str().unicode_len();
    if n > 0 {
        let mut i: usize = 1;
        while i < n
            invariant
                1 <= i <= n,
                n == branch@.len(),
                r@ == seq!['*'] + branch@.subrange(1, i as int),
            decreases n - i,
        {
            push_char(&mut r, branch.as_str().get_char(i));
            proof {
                assert(seq!['*'] + branch@.subrange(1, i + 1) =~= (seq!['*']
                    + branch@.subrange(1, i as int)).push(branch@[i as int]));
            }
            i += 1;
        }
        proof {
            assert(branch@.subrange(1, n as int) =~= branch@.skip(1));
        }
    } else {
        proof {
            assert(r@ =~= seq!['*']);
        }
    }
    r
}

/// The selection state of one picker session.
pub struct Cli {
    /// Every candidate, in backend enumeration order.
    pub branches: Vec<String>,
    /// The candidates currently shown: always the matcher's output for the
    /// current query over `branches`.
    pub displayed_branches: Vec<String>,
    /// Cursor index into `displayed_branches`.
    pub selected_branch: usize,
    /// The current query.
    pub search: String,
}

impl Cli {
    /// The state invariant: the displayed list is exactly the matcher's
    /// output for the current query, and the cursor stays inside it
    /// (resting at zero when the list is empty).
    pub open spec fn wf(&self) -> bool {
        &&& self.displayed_branches.deep_view() == filter_spec(
            self.search@,
            self.branches.deep_view(),
        )
        &&& self.displayed_branches@.len() == 0 ==> self.selected_branch == 0
        &&& self.displayed_branches@.len() > 0 ==> (self.selected_branch as int)
            < self.displayed_branches@.len()
    }

    /// A fresh session over the given candidates: empty query, every
    /// candidate displayed, cursor on the first row.
    pub fn new(branches: Vec<String>) -> (cli: Cli)
        ensures
            cli.wf(),
            cli.branches == branches,
            cli.displayed_branches@ == branches@,
            cli.search@ == Seq::<char>::empty(),
            cli.selected_branch == 0,
    {
        let displayed_copy = branches.clone();
        proof {
            assert forall|i: int| 0 <= i < branches@.len() implies displayed_copy@[i]
                == branches@[i] by {
                assert(cloned::<String>(branches[i], displayed_copy[i]));
            }
            assert(displayed_copy@ =~= branches@);
            assert(displayed_copy.deep_view() =~= branches.deep_view());
            lemma_empty_query_all(branches.deep_view());
        }
        Cli { branches, displayed_branches: displayed_copy, selected_branch: 0, search: String::new() }
    }

    /// Moves the cursor one row up; at the top row it stays put.
    pub fn move_up(&mut self)
        ensures
            final(self).branches == old(self).branches,
            final(self).displayed_branches == old(self).displayed_branches,
            final(self).search == old(self).search,
            old(self).selected_branch > 0
                ==> final(self).selected_branch == old(self).selected_branch - 1,
            old(self).selected_branch == 0 ==> final(self).selected_branch == 0,
            old(self).wf() ==> final(self).wf(),
    {
        if self.selected_branch > 0 {
            self.selected_branch = self.selected_branch - 1;
        }
    }

    /// Moves the cursor one row down; at the last row it stays put.
    pub fn move_down(&mut self)
        ensures
            final(self).branches == old(self).branches,
            final(self).displayed_branches == old(self).displayed_branches,
            final(self).search == old(self).search,
            old(self).selected_branch + 1 < old(self).displayed_branches@.len()
                ==> final(self).selected_branch == old(self).selected_branch + 1,
            old(self).selected_branch + 1 >= old(self).displayed_branches@.len()
                ==> final(self).selected_branch == old(self).selected_branch,
            old(self).wf() ==> final(self).wf(),
    {
        let len = self.displayed_branches.len();
        if len > 0 && self.selected_branch < len - 1 {
            self.selected_branch = self.selected_branch + 1;
        }
    }

    /// Appends one character to the query, recomputes the displayed list
    /// and rests the cursor on the first row.
    pub fn push_search_char(&mut self, c: char)
        ensures
            final(self).wf(),
            final(self).branches == old(self).branches,
            final(self).search@ == old(self).search@.push(c),
            final(self).displayed_branches.deep_view() == filter_spec(
                old(self).search@.push(c),
                old(self).branches.deep_view(),
            ),
            final(self).selected_branch == 0,
    {
        push_char(&mut self.search, c);
        self.displayed_branches = get_matching_branches(&self.search, &self.branches);
        self.selected_branch = 0;
    }

    /// Removes the last query character, if any, recomputes the displayed
    /// list and rests the cursor on the first row; with an empty query the
    /// state is left untouched.
    pub fn pop_search_char(&mut self)
        ensures
            old(self).search@.len() == 0 ==> *final(self) == *old(self),
            old(self).search@.len() > 0 ==> {
                &&& final(self).wf()
                &&& final(self).branches == old(self).branches
                &&& final(self).search@ == old(self).search@.drop_last()
                &&& final(self).displayed_branches.deep_view() == filter_spec(
                    old(self).search@.drop_last(),
                    old(self).branches.deep_view(),
                )
                &&& final(self).selected_branch == 0
            },
    {
        if !self.search.as_str().is_empty() {
            let _ = pop_char(&mut self.search);
            self.displayed_branches = get_matching_branches(&self.search, &self.branches);
            self.selected_branch = 0;
        }
    }

    /// The candidate under the cursor, if the displayed list is non-empty.
    pub fn selected_candidate(&self) -> (r: Option<&String>)
        ensures
            match r {
                Some(b) => (self.selected_branch as int) < self.displayed_branches@.len() && b
                    == &self.displayed_branches@[self.selected_branch as int],
                None => (self.selected_branch as int) >= self.displayed_branches@.len(),
            },
    {
        if self.selected_branch < self.displayed_branches.len() {
            Some(&self.displayed_branches[self.selected_branch])
        } else {
            None
        }
    }

    /// Replaces the candidate list after a successful backend delete: the
    /// query resets to empty, the displayed list becomes the matcher's
    /// output for the empty query over the new candidates (that is, all of
    /// them), and the cursor rests on the first row.
    pub fn apply_delete(&mut self, new_branches: Vec<String>)
        ensures
            final(self).wf(),
            final(self).branches == new_branches,
            final(self).search@ == Seq::<char>::empty(),
            final(self).selected_branch == 0,
            final(self).displayed_branches.deep_view() == new_branches.deep_view(),
    {
        self.branches = new_branches;
        self.search = String::new();
        self.displayed_branches = get_matching_branches(&self.search, &self.branches);
        self.selected_branch = 0;
        proof {
            lemma_empty_query_all(self.branches.deep_view());
        }
    }

    /// Dispatches one key event: mutates the state as the event demands and
    /// returns what the caller must do next. Cursor moves clamp at the
    /// boundaries; commit and delete on an empty displayed list are no-ops;
    /// the cancel key always ends the session.
    pub fn handle_key(&mut self, key: Key) -> (r: Action)
        ensures
            old(self).wf() ==> final(self).wf(),
            final(self).branches == old(self).branches,
            key == Key::Up ==> {
                &&& final(self).search == old(self).search
                &&& final(self).displayed_branches == old(self).displayed_branches
                &&& old(self).selected_branch > 0
                    ==> final(self).selected_branch == old(self).selected_branch - 1
                &&& old(self).selected_branch == 0 ==> final(self).selected_branch == 0
                &&& r == if old(self).selected_branch > 0 {
                    Action::RedrawCursor(old(self).selected_branch)
                } else {
                    Action::Nothing
                }
            },
            key == Key::Down ==> {
                &&& final(self).search == old(self).search
                &&& final(self).displayed_branches == old(self).displayed_branches
                &&& old(self).selected_branch + 1 < old(self).displayed_branches@.len()
                    ==> final(self).selected_branch == old(self).selected_branch + 1
                &&& old(self).selected_branch + 1 >= old(self).displayed_branches@.len()
                    ==> final(self).selected_branch == old(self).selected_branch
                &&& r == if old(self).selected_branch + 1 < old(self).displayed_branches@.len() {
                    Action::RedrawCursor(old(self).selected_branch)
                } else {
                    Action::Nothing
                }
            },
            key == Key::Enter ==> {
                &&& *final(self) == *old(self)
                &&& r == if (old(self).selected_branch as int) < old(
                    self,
                ).displayed_branches@.len() {
                    Action::Switch(old(self).displayed_branches@[old(self).selected_branch as int])
                } else {
                    Action::Nothing
                }
            },
            key == Key::BackTab ==> {
                &&& *final(self) == *old(self)
                &&& r == if (old(self).selected_branch as int) < old(
                    self,
                ).displayed_branches@.len() {
                    Action::Delete(old(self).displayed_branches@[old(self).selected_branch as int])
                } else {
                    Action::Nothing
                }
            },
            key matches Key::Char(c) ==> {
                &&& final(self).search@ == old(self).search@.push(c)
                &&& final(self).displayed_branches.deep_view() == filter_spec(
                    old(self).search@.push(c),
                    old(self).branches.deep_view(),
                )
                &&& final(self).selected_branch == 0
                &&& r == Action::RedrawList
            },
            key == Key::Backspace ==> {
                &&& old(self).search@.len() == 0 ==> *final(self) == *old(self) && r
                    == Action::Nothing
                &&& old(self).search@.len() > 0 ==> {
                    &&& final(self).search@ == old(self).search@.drop_last()
                    &&& final(self).displayed_branches.deep_view() == filter_spec(
                        old(self).search@.drop_last(),
                        old(self).branches.deep_view(),
                    )
                    &&& final(self).selected_branch == 0
                    &&& r == Action::RedrawList
                }
            },
            key == Key::CtrlC ==> *final(self) == *old(self) && r == Action::Quit,
            key == Key::Other ==> *final(self) == *old(self) && r == Action::Nothing,
    {
        match key {
            Key::Up => {
                let prev = self.selected_branch;
                self.move_up();
                if prev > 0 {
                    Action::RedrawCursor(prev)
                } else {
                    Action::Nothing
                }
            },
            Key::Down => {
                let prev = self.selected_branch;
                self.move_down();
                if self.selected_branch != prev {
                    Action::RedrawCursor(prev)
                } else {
                    Action::Nothing
                }
            },
            Key::Enter => {
                match self.selected_candidate() {
                    Some(b) => Action::Switch(b.clone()),
                    None => Action::Nothing,
                }
            },
            Key::BackTab => {
                match self.selected_candidate() {
                    Some(b) => Action::Delete(b.clone()),
                    None => Action::Nothing,
                }
            },
            Key::Char(c) => {
                self.push_search_char(c);
                Action::RedrawList
            },
            Key::Backspace => {
                if self.search.as_str().is_empty() {
                    Action::Nothing
                } else {
                    self.pop_search_char();
                    Action::RedrawList
                }
            },
            Key::CtrlC => Action::Quit,
            Key::Other => Action::Nothing,
        }
    }

    /// The lines to draw for the displayed list, top to bottom: every row is
    /// the candidate itself, except the cursor row, which carries the
    /// selection marker in its first character slot.
    pub fn rendered_lines(&self) -> (lines: Vec<String>)
        ensures
            lines@.len() == self.displayed_branches@.len(),
            forall|i: int|
                0 <= i < lines@.len() && i != self.selected_branch ==> lines@[i]@
                    == self.displayed_branches@[i]@,
            (self.selected_branch as int) < self.displayed_branches@.len() ==> lines@[self.selected_branch as int]@
                == marked_spec(self.displayed_branches@[self.selected_branch as int]@),
    {
        let n = self.displayed_branches.len();
        let mut lines: Vec<String> = Vec::new();
        let mut i: usize = 0;
        while i < n
            invariant
                i <= n,
                n == self.displayed_branches@.len(),
                lines@.len() == i,
                forall|k: int|
                    0 <= k < i && k != self.selected_branch ==> lines@[k]@
                        == self.displayed_branches@[k]@,
                (self.selected_branch as int) < i ==> lines@[self.selected_branch as int]@
                    == marked_spec(self.displayed_branches@[self.selected_branch as int]@),
            decreases n - i,
        {
            if i == self.selected_branch {
                lines.push(marked_line(&self.displayed_branches[i]));
            } else {
                lines.push(self.displayed_branches[i].clone());
            }
            i += 1;
        }
        lines
    }
}

} // verus!
