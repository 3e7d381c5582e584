//! The items of the selection arena and the modes of the controller.

use crate::tui::forest::well_formed;
use vstd::prelude::*;

verus! {

/// How much of an item is selected.
#[derive(Debug, Clone, Copy, PartialEq, Eq, Structural)]
pub enum SelectionState {
    NotSelected,
    PartiallySelected,
    FullySelected,
}

/// One file or directory of the arena. Links to other items are indices
/// into the arena that holds the item.
#[derive(Debug, Clone)]
pub struct SelectableItem {
    /// The text of the path.
    pub path: String,
    /// The tree-drawn text shown for the item.
    pub display_text: String,
    pub is_dir: bool,
    /// Whether the children of a directory are shown.
    pub is_expanded: bool,
    pub state: SelectionState,
    /// The items directly below, by index and in ascending order.
    pub children_indices: Vec<usize>,
    /// The item directly above, by index.
    pub parent_index: Option<usize>,
}

/// The mathematical value of a [`SelectableItem`].
pub struct Node {
    /// The text of the path.
    pub path: Seq<char>,
    /// The tree-drawn text shown for the item.
    pub label: Seq<char>,
    pub is_dir: bool,
    /// Whether the children of a directory are shown.
    pub expanded: bool,
    pub state: SelectionState,
    /// The items directly below, by index and in ascending order.
    pub children: Seq<usize>,
    /// The item directly above, by index.
    pub parent: Option<usize>,
}

impl View for SelectableItem {
    type V = Node;

    open spec fn view(&self) -> Node {
        Node {
            path: self.path@,
            label: self.display_text@,
            is_dir: self.is_dir,
            expanded: self.is_expanded,
            state: self.state,
            children: self.children_indices@,
            parent: self.parent_index,
        }
    }
}

/// The values of the items of an arena.
pub open spec fn nodes_of(items: Seq<SelectableItem>) -> Seq<Node> {
    Seq::new(items.len(), |i: int| items[i]@)
}

/// Which keys the controller is listening for.
#[derive(Debug, Clone, Copy, PartialEq, Eq, Structural)]
pub enum AppMode {
    Normal,
    Filtering,
}

/// The state of the interactive selection.
#[derive(Debug)]
pub struct TuiApp {
    /// The arena.
    pub(crate) items: Vec<SelectableItem>,
    /// The item the cursor is on, as an index into the arena.
    pub(crate) current_selection_idx: usize,
    /// The row of the visible list at which the window starts.
    pub(crate) scroll_offset: usize,
    /// Whether the session is over.
    pub(crate) quit: bool,
    /// Whether the session ended with the selection accepted.
    pub(crate) confirmed: bool,
    pub(crate) mode: AppMode,
    /// The filter text.
    pub(crate) filter_input: Vec<char>,
    /// Where in the filter text the next character goes.
    pub(crate) filter_cursor_pos: usize,
    /// How many rows of the visible list the window shows.
    pub(crate) list_viewport_height: usize,
}

impl TuiApp {
    /// What holds of every session: its arena is a sound forest, and the
    /// cursor of the filter lies within the filter text.
    #[verifier::type_invariant]
    pub(crate) open(crate) spec fn sound(self) -> bool {
        &&& well_formed(nodes_of(self.items@))
        &&& self.filter_cursor_pos <= self.filter_input@.len()
    }
}

/// The mathematical value of a [`TuiApp`].
pub struct AppView {
    pub nodes: Seq<Node>,
    pub selection: usize,
    pub scroll: usize,
    pub quit: bool,
    pub confirmed: bool,
    pub mode: AppMode,
    pub filter: Seq<char>,
    pub cursor: usize,
    pub height: usize,
}

impl View for TuiApp {
    type V = AppView;

    open(crate) spec fn view(&self) -> AppView {
        AppView {
            nodes: nodes_of(self.items@),
            selection: self.current_selection_idx,
            scroll: self.scroll_offset,
            quit: self.quit,
            confirmed: self.confirmed,
            mode: self.mode,
            filter: self.filter_input@,
            cursor: self.filter_cursor_pos,
            height: self.list_viewport_height,
        }
    }
}

} // verus!
