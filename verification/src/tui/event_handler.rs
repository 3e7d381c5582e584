//! The controller: what each key press does in each of the two modes.

use crate::tui::app_state::{AppMode, AppView, TuiApp};
use crate::tui::keys::{KeyCode, KeyEvent};
use crate::tui::session::{
    all_deselected, all_selected, collapsed_all, cursor_left, cursor_right, expanded_all,
    expansion_toggled, filter_cancelled, filter_committed, filter_erased, filter_typed,
    lemma_expanding_keeps_rules, lemma_revalidated_keeps_arena, lemma_selecting_keeps_rules, moved,
    obeys_rules, toggled,
};
use vstd::prelude::*;

verus! {

/// What a key press asks for while the controller is in normal mode.
#[derive(Debug, Clone, Copy, PartialEq, Eq, Structural)]
pub enum NormalAction {
    EnterFilter,
    Quit,
    Confirm,
    MoveNext,
    MovePrevious,
    ToggleSelection,
    ToggleExpansion,
    ExpandAll,
    CollapseAll,
    SelectAllVisible,
    DeselectAllVisible,
    Nothing,
}

/// What a key press asks for while the filter is being typed.
#[derive(Debug, Clone, Copy, PartialEq, Eq, Structural)]
pub enum FilterAction {
    Commit,
    Cancel,
    Insert(char),
    Erase,
    CursorLeft,
    CursorRight,
    Nothing,
}

/// The meaning of a key in normal mode.
pub open spec fn spec_normal_action(key: KeyEvent) -> NormalAction {
    match key.code {
        KeyCode::Char(c) => if c == '/' {
            NormalAction::EnterFilter
        } else if c == 'q' {
            NormalAction::Quit
        } else if c == 'y' {
            NormalAction::Confirm
        } else if c == 'j' {
            NormalAction::MoveNext
        } else if c == 'k' {
            NormalAction::MovePrevious
        } else if c == ' ' {
            NormalAction::ToggleSelection
        } else if c == 'o' {
            NormalAction::ToggleExpansion
        } else if c == '*' {
            NormalAction::ExpandAll
        } else if c == '-' {
            NormalAction::CollapseAll
        } else if c == 'a' && (key.modifiers.is_empty() || key.modifiers.is_control()) {
            NormalAction::SelectAllVisible
        } else if c == 'A' && key.modifiers.is_control() {
            NormalAction::SelectAllVisible
        } else if c == 'd' && key.modifiers.is_empty() {
            NormalAction::DeselectAllVisible
        } else {
            NormalAction::Nothing
        },
        KeyCode::Esc => NormalAction::Quit,
        KeyCode::Down => NormalAction::MoveNext,
        KeyCode::Up => NormalAction::MovePrevious,
        KeyCode::Enter => NormalAction::ToggleSelection,
        KeyCode::Tab => NormalAction::ToggleExpansion,
        _ => NormalAction::Nothing,
    }
}

/// The meaning of a key while the filter is being typed.
pub open spec fn spec_filter_action(key: KeyEvent) -> FilterAction {
    match key.code {
        KeyCode::Enter => FilterAction::Commit,
        KeyCode::Esc => FilterAction::Cancel,
        KeyCode::Char(c) => FilterAction::Insert(c),
        KeyCode::Backspace => FilterAction::Erase,
        KeyCode::Left => FilterAction::CursorLeft,
        KeyCode::Right => FilterAction::CursorRight,
        _ => FilterAction::Nothing,
    }
}

/// The session after an action of normal mode.
pub open spec fn after_normal_action(v: AppView, action: NormalAction) -> AppView {
    match action {
        NormalAction::EnterFilter => AppView { mode: AppMode::Filtering, ..v },
        NormalAction::Quit => AppView { quit: true, ..v },
        NormalAction::Confirm => AppView { confirmed: true, quit: true, ..v },
        NormalAction::MoveNext => moved(v, 1),
        NormalAction::MovePrevious => moved(v, -1),
        NormalAction::ToggleSelection => toggled(v),
        NormalAction::ToggleExpansion => expansion_toggled(v),
        NormalAction::ExpandAll => expanded_all(v),
        NormalAction::CollapseAll => collapsed_all(v),
        NormalAction::SelectAllVisible => all_selected(v),
        NormalAction::DeselectAllVisible => all_deselected(v),
        NormalAction::Nothing => v,
    }
}

/// The session after an action of filtering mode.
pub open spec fn after_filter_action(v: AppView, action: FilterAction) -> AppView {
    match action {
        FilterAction::Commit => filter_committed(v),
        FilterAction::Cancel => filter_cancelled(v),
        FilterAction::Insert(c) => filter_typed(v, c),
        FilterAction::Erase => filter_erased(v),
        FilterAction::CursorLeft => cursor_left(v),
        FilterAction::CursorRight => cursor_right(v),
        FilterAction::Nothing => v,
    }
}

/// The session after a key press: the mode decides what the key means.
pub open spec fn after_key(v: AppView, key: KeyEvent) -> AppView {
    match v.mode {
        AppMode::Normal => after_normal_action(v, spec_normal_action(key)),
        AppMode::Filtering => after_filter_action(v, spec_filter_action(key)),
    }
}

/// Whatever key is pressed in whatever mode, the arena goes on obeying the
/// rules of the selection: its links stay sound, every directory with
/// children has the state that they give it, and no file is partially
/// selected.
pub proof fn lemma_key_press_keeps_rules(v: AppView, key: KeyEvent)
    requires
        v.nodes.len() <= usize::MAX,
        obeys_rules(v),
    ensures
        obeys_rules(after_key(v, key)),
        after_key(v, key).nodes.len() == v.nodes.len(),
{
    lemma_selecting_keeps_rules(v);
    lemma_expanding_keeps_rules(v);
    lemma_revalidated_keeps_arena(AppView { mode: AppMode::Normal, ..v });
    lemma_revalidated_keeps_arena(
        AppView { mode: AppMode::Normal, filter: Seq::empty(), cursor: 0, ..v },
    );
    match spec_filter_action(key) {
        FilterAction::Insert(c) => {
            lemma_revalidated_keeps_arena(
                AppView {
                    filter: v.filter.insert(v.cursor as int, c),
                    cursor: (v.cursor + 1) as usize,
                    ..v
                },
            );
        },
        _ => {},
    }
    if v.cursor > 0 {
        lemma_revalidated_keeps_arena(
            AppView { filter: v.filter.remove(v.cursor - 1), cursor: (v.cursor - 1) as usize, ..v },
        );
    }
    crate::tui::session::lemma_key_lengths(v);
}

/// Reads a key press in normal mode.
pub fn normal_action(key: KeyEvent) -> (action: NormalAction)
    ensures
        action == spec_normal_action(key),
{
    match key.code {
        KeyCode::Char(c) => {
            if c == '/' {
                NormalAction::EnterFilter
            } else if c == 'q' {
                NormalAction::Quit
            } else if c == 'y' {
                NormalAction::Confirm
            } else if c == 'j' {
                NormalAction::MoveNext
            } else if c == 'k' {
                NormalAction::MovePrevious
            } else if c == ' ' {
                NormalAction::ToggleSelection
            } else if c == 'o' {
                NormalAction::ToggleExpansion
            } else if c == '*' {
                NormalAction::ExpandAll
            } else if c == '-' {
                NormalAction::CollapseAll
            } else if c == 'a' && (key.modifiers.is_empty() || key.modifiers.is_control()) {
                NormalAction::SelectAllVisible
            } else if c == 'A' && key.modifiers.is_control() {
                NormalAction::SelectAllVisible
            } else if c == 'd' && key.modifiers.is_empty() {
                NormalAction::DeselectAllVisible
            } else {
                NormalAction::Nothing
            }
        },
        KeyCode::Esc => NormalAction::Quit,
        KeyCode::Down => NormalAction::MoveNext,
        KeyCode::Up => NormalAction::MovePrevious,
        KeyCode::Enter => NormalAction::ToggleSelection,
        KeyCode::Tab => NormalAction::ToggleExpansion,
        _ => NormalAction::Nothing,
    }
}

/// Reads a key press while the filter is being typed.
pub fn filter_action(key: KeyEvent) -> (action: FilterAction)
    ensures
        action == spec_filter_action(key),
{
    match key.code {
        KeyCode::Enter => FilterAction::Commit,
        KeyCode::Esc => FilterAction::Cancel,
        KeyCode::Char(c) => FilterAction::Insert(c),
        KeyCode::Backspace => FilterAction::Erase,
        KeyCode::Left => FilterAction::CursorLeft,
        KeyCode::Right => FilterAction::CursorRight,
        _ => FilterAction::Nothing,
    }
}

impl TuiApp {
    /// Leaves filtering mode and keeps the filter text.
    pub fn commit_filter(&mut self)
        ensures
            final(self)@ == filter_committed(old(self)@),
    {
        proof {
            use_type_invariant(&*self);
        }
        self.mode = AppMode::Normal;
        self.ensure_selection_is_valid_after_filter();
    }

    /// Leaves filtering mode and clears the filter text.
    pub fn cancel_filter(&mut self)
        ensures
            final(self)@ == filter_cancelled(old(self)@),
    {
        proof {
            use_type_invariant(&*self);
        }
        self.mode = AppMode::Normal;
        self.filter_cursor_pos = 0;
        self.filter_input = Vec::new();
        self.ensure_selection_is_valid_after_filter();
    }

    /// Puts `c` into the filter text at the cursor and moves the cursor
    /// behind it.
    pub fn insert_filter_char(&mut self, c: char)
        ensures
            final(self)@ == filter_typed(old(self)@, c),
    {
        proof {
            use_type_invariant(&*self);
        }
        // The text is taken out while it is edited; what stays behind is
        // empty, so the cursor waits at its start.
        let at = self.filter_cursor_pos;
        let mut text: Vec<char> = Vec::new();
        self.filter_cursor_pos = 0;
        std::mem::swap(&mut text, &mut self.filter_input);
        text.insert(at, c);
        proof {
            assert(text.len() == text@.len());
        }
        self.filter_input = text;
        self.filter_cursor_pos = at + 1;
        self.ensure_selection_is_valid_after_filter();
    }

    /// Takes the character before the cursor out of the filter text.
    pub fn erase_filter_char(&mut self)
        ensures
            final(self)@ == filter_erased(old(self)@),
    {
        proof {
            use_type_invariant(&*self);
        }
        if self.filter_cursor_pos > 0 && !self.filter_input.is_empty() {
            // Edited outside the session, as in `insert_filter_char`.
            let at = self.filter_cursor_pos - 1;
            let mut text: Vec<char> = Vec::new();
            self.filter_cursor_pos = 0;
            std::mem::swap(&mut text, &mut self.filter_input);
            text.remove(at);
            self.filter_input = text;
            self.filter_cursor_pos = at;
            self.ensure_selection_is_valid_after_filter();
        }
    }

    /// Moves the cursor of the filter one place to the left.
    pub fn move_filter_cursor_left(&mut self)
        ensures
            final(self)@ == cursor_left(old(self)@),
    {
        proof {
            use_type_invariant(&*self);
        }
        if self.filter_cursor_pos > 0 {
            self.filter_cursor_pos -= 1;
        }
    }

    /// Moves the cursor of the filter one place to the right.
    pub fn move_filter_cursor_right(&mut self)
        ensures
            final(self)@ == cursor_right(old(self)@),
    {
        proof {
            use_type_invariant(&*self);
        }
        if self.filter_cursor_pos < self.filter_input.len() {
            self.filter_cursor_pos += 1;
        }
    }

    /// Carries out a key press in normal mode.
    pub fn handle_normal_mode_input(&mut self, key_event: KeyEvent)
        ensures
            final(self)@ == after_normal_action(old(self)@, spec_normal_action(key_event)),
    {
        proof {
            use_type_invariant(&*self);
        }
        match normal_action(key_event) {
            NormalAction::EnterFilter => {
                self.mode = AppMode::Filtering;
            },
            NormalAction::Quit => {
                self.quit = true;
            },
            NormalAction::Confirm => {
                self.confirmed = true;
                self.quit = true;
            },
            NormalAction::MoveNext => self.select_next_visible_item(),
            NormalAction::MovePrevious => self.select_previous_visible_item(),
            NormalAction::ToggleSelection => self.toggle_current_item_selection(),
            NormalAction::ToggleExpansion => self.toggle_expansion_and_adjust_selection(),
            NormalAction::ExpandAll => self.expand_all_directories(),
            NormalAction::CollapseAll => self.collapse_all_directories(),
            NormalAction::SelectAllVisible => self.select_all_visible_items(),
            NormalAction::DeselectAllVisible => self.deselect_all_visible_items(),
            NormalAction::Nothing => {},
        }
    }

    /// Carries out a key press while the filter is being typed.
    pub fn handle_filtering_mode_input(&mut self, key_event: KeyEvent)
        ensures
            final(self)@ == after_filter_action(old(self)@, spec_filter_action(key_event)),
    {
        match filter_action(key_event) {
            FilterAction::Commit => self.commit_filter(),
            FilterAction::Cancel => self.cancel_filter(),
            FilterAction::Insert(c) => self.insert_filter_char(c),
            FilterAction::Erase => self.erase_filter_char(),
            FilterAction::CursorLeft => self.move_filter_cursor_left(),
            FilterAction::CursorRight => self.move_filter_cursor_right(),
            FilterAction::Nothing => {},
        }
    }

    /// Carries out a key press in the mode the controller is in.
    pub fn handle_key_event(&mut self, key_event: KeyEvent)
        ensures
            final(self)@ == after_key(old(self)@, key_event),
    {
        match self.mode {
            AppMode::Normal => self.handle_normal_mode_input(key_event),
            AppMode::Filtering => self.handle_filtering_mode_input(key_event),
        }
    }
}

} // verus!
