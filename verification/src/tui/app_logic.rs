//! The rules of the selection: handing a state down a subtree and
//! recomputing the ancestors of a changed item.

use crate::text::text_of;
use crate::tui::app_state::{nodes_of, AppMode, AppView, SelectableItem, SelectionState, TuiApp};
use crate::tui::forest::{
    all_children_are, coerced, consistent, files_binary, in_subtree,
    lemma_apply_down_keeps_files_binary, lemma_apply_down_shape, lemma_same_links_well_formed,
    lemma_same_shape_chain, lemma_same_shape_subtree, lemma_same_shape_well_formed,
    lemma_selection_keeps_files_binary, lemma_selection_stays_consistent,
    lemma_subtree_through_children, links_sound, same_shape, spec_apply_down, spec_recalculate,
    spec_refresh, well_formed, with_state,
};
use crate::tui::session::{
    all_deselected, all_selected, among_rows, collapsed_all, every_dir_collapsed,
    every_dir_expanded, expanded_all, expansion_toggled, files_selected, filter_active,
    filter_hits_of, lemma_files_selected, lemma_rows_deselected, moved, nearest_shown_ancestor,
    rescrolled, resized, revalidated, revalidated_selection, rows_deselected, shown, toggled,
    under_rows, visible_rows, with_expanded,
};
use crate::tui::viewport::{clamp_offset, position_in, scroll_to_show, step_in_list};
use crate::tui::visibility::{
    filter_hits, is_item_visible_recursive, item_matches_filter_or_has_matching_descendant,
    visible_indices,
};
use vstd::prelude::*;

verus! {

/// Applies `new_state` to item `item_idx` and hands it down: a file asked to
/// be partially selected becomes fully selected, and any state but the
/// partial one reaches every item below a directory.
pub fn apply_state_and_propagate_down_vec(
    items: &mut [SelectableItem],
    item_idx: usize,
    new_state: SelectionState,
)
    requires
        well_formed(nodes_of(old(items)@)),
    ensures
        item_idx < old(items)@.len() ==> nodes_of(final(items)@) == spec_apply_down(
            nodes_of(old(items)@),
            item_idx as int,
            new_state,
        ),
        item_idx >= old(items)@.len() ==> nodes_of(final(items)@) == nodes_of(old(items)@),
        same_shape(nodes_of(old(items)@), nodes_of(final(items)@)),
        well_formed(nodes_of(final(items)@)),
        files_binary(nodes_of(old(items)@)) ==> files_binary(nodes_of(final(items)@)),
        item_idx < old(items)@.len() && coerced(
            nodes_of(old(items)@)[item_idx as int],
            new_state,
        ) != SelectionState::PartiallySelected ==> forall|j: int|
            in_subtree(nodes_of(old(items)@), item_idx as int, j) && 0 <= j < old(items)@.len()
                ==> (#[trigger] nodes_of(final(items)@)[j]).state == coerced(
                nodes_of(old(items)@)[item_idx as int],
                new_state,
            ),
    decreases old(items)@.len() - item_idx,
{
    if item_idx >= items.len() {
        return ;
    }
    let ghost before = nodes_of(items@);
    proof {
        lemma_apply_down_shape(before, item_idx as int, new_state);
        if files_binary(before) {
            lemma_apply_down_keeps_files_binary(before, item_idx as int, new_state);
        }
    }
    let actual_new_state = if !items[item_idx].is_dir && new_state
        == SelectionState::PartiallySelected {
        SelectionState::FullySelected
    } else {
        new_state
    };
    items[item_idx].state = actual_new_state;
    assert(nodes_of(items@) =~= before.update(
        item_idx as int,
        with_state(before[item_idx as int], actual_new_state),
    ));
    if items[item_idx].is_dir && actual_new_state != SelectionState::PartiallySelected {
        let count = items[item_idx].children_indices.len();
        let mut k: usize = 0;
        while k < count
            invariant
                k <= count,
                item_idx < items@.len() == before.len(),
                well_formed(before),
                before == nodes_of(old(items)@),
                count == before[item_idx as int].children.len(),
                actual_new_state == coerced(before[item_idx as int], new_state),
                actual_new_state != SelectionState::PartiallySelected,
                same_shape(before, nodes_of(items@)),
                forall|j: int|
                    0 <= j < before.len() ==> (#[trigger] nodes_of(items@)[j]).state == if j
                        == item_idx || exists|m: int|
                        0 <= m < k && in_subtree(
                            before,
                            before[item_idx as int].children[m] as int,
                            j,
                        ) {
                        actual_new_state
                    } else {
                        before[j].state
                    },
            decreases count - k,
        {
            let child_idx = items[item_idx].children_indices[k];
            let ghost mid = nodes_of(items@);
            proof {
                assert(links_sound(before, item_idx as int));
                lemma_same_shape_well_formed(before, mid);
            }
            apply_state_and_propagate_down_vec(items, child_idx, actual_new_state);
            proof {
                let after = nodes_of(items@);
                lemma_same_shape_subtree(before, mid, child_idx as int);
                assert(same_shape(before, after));
                assert forall|j: int| 0 <= j < before.len() implies (#[trigger] after[j]).state
                    == if j == item_idx || exists|m: int|
                    0 <= m < k + 1 && in_subtree(
                        before,
                        before[item_idx as int].children[m] as int,
                        j,
                    ) {
                    actual_new_state
                } else {
                    before[j].state
                } by {
                    if in_subtree(before, child_idx as int, j) {
                        assert(in_subtree(
                            before,
                            before[item_idx as int].children[k as int] as int,
                            j,
                        ));
                    }
                }
            }
            k += 1;
        }
        proof {
            lemma_subtree_through_children(before, item_idx as int);
            assert(nodes_of(items@) =~= spec_apply_down(before, item_idx as int, new_state));
        }
    } else {
        proof {
            if !before[item_idx as int].is_dir && actual_new_state
                != SelectionState::PartiallySelected {
                assert(links_sound(before, item_idx as int));
                lemma_subtree_through_children(before, item_idx as int);
                assert(nodes_of(items@) =~= spec_apply_down(before, item_idx as int, new_state));
            }
        }
    }
}

/// Recomputes the state of item `parent_idx` from its children. A file, or
/// a directory that has no children, keeps its state.
pub fn recalculate_parent_state_vec(items: &mut [SelectableItem], parent_idx: usize)
    requires
        well_formed(nodes_of(old(items)@)),
    ensures
        parent_idx < old(items)@.len() ==> nodes_of(final(items)@) == spec_recalculate(
            nodes_of(old(items)@),
            parent_idx as int,
        ),
        parent_idx >= old(items)@.len() ==> nodes_of(final(items)@) == nodes_of(old(items)@),
        same_shape(nodes_of(old(items)@), nodes_of(final(items)@)),
        well_formed(nodes_of(final(items)@)),
{
    if parent_idx >= items.len() || !items[parent_idx].is_dir {
        return ;
    }
    let ghost before = nodes_of(items@);
    let count = items[parent_idx].children_indices.len();
    if count == 0 {
        return ;
    }
    assert(links_sound(before, parent_idx as int));
    let mut all_full = true;
    let mut all_clear = true;
    let mut k: usize = 0;
    while k < count
        invariant
            k <= count,
            parent_idx < items@.len(),
            before == nodes_of(items@),
            count == before[parent_idx as int].children.len(),
            links_sound(before, parent_idx as int),
            all_full == forall|m: int|
                0 <= m < k ==> before[#[trigger] before[parent_idx as int].children[m] as int].state
                    == SelectionState::FullySelected,
            all_clear == forall|m: int|
                0 <= m < k ==> before[#[trigger] before[parent_idx as int].children[m] as int].state
                    == SelectionState::NotSelected,
        decreases count - k,
    {
        let child_idx = items[parent_idx].children_indices[k];
        match items[child_idx].state {
            SelectionState::FullySelected => {
                all_clear = false;
            },
            SelectionState::PartiallySelected => {
                all_full = false;
                all_clear = false;
            },
            SelectionState::NotSelected => {
                all_full = false;
            },
        }
        k += 1;
    }
    assert(all_full == all_children_are(before, parent_idx as int, SelectionState::FullySelected));
    assert(all_clear == all_children_are(before, parent_idx as int, SelectionState::NotSelected));
    let summary = if all_full {
        SelectionState::FullySelected
    } else if all_clear {
        SelectionState::NotSelected
    } else {
        SelectionState::PartiallySelected
    };
    items[parent_idx].state = summary;
    proof {
        let after = nodes_of(items@);
        assert(after =~= before.update(
            parent_idx as int,
            with_state(before[parent_idx as int], summary),
        ));
        lemma_same_shape_well_formed(before, after);
    }
}

/// Recomputes every ancestor of item `child_idx`, from its parent up to the
/// top of its tree.
pub fn update_all_parent_states_from_child_vec(items: &mut [SelectableItem], child_idx: usize)
    requires
        well_formed(nodes_of(old(items)@)),
    ensures
        child_idx < old(items)@.len() ==> nodes_of(final(items)@) == spec_refresh(
            nodes_of(old(items)@),
            child_idx as int,
        ),
        child_idx >= old(items)@.len() ==> nodes_of(final(items)@) == nodes_of(old(items)@),
        same_shape(nodes_of(old(items)@), nodes_of(final(items)@)),
        well_formed(nodes_of(final(items)@)),
{
    if child_idx >= items.len() {
        return ;
    }
    let ghost before = nodes_of(items@);
    let mut at: usize = child_idx;
    let mut next = items[child_idx].parent_index;
    loop
        invariant
            at < items@.len() == before.len(),
            before == nodes_of(old(items)@),
            well_formed(nodes_of(items@)),
            same_shape(before, nodes_of(items@)),
            next == nodes_of(items@)[at as int].parent,
            spec_refresh(before, child_idx as int) == spec_refresh(nodes_of(items@), at as int),
        ensures
            nodes_of(items@) == spec_refresh(before, child_idx as int),
            well_formed(nodes_of(items@)),
            same_shape(before, nodes_of(items@)),
        decreases at,
    {
        let ghost mid = nodes_of(items@);
        assert(links_sound(mid, at as int));
        match next {
            Some(parent_idx) => {
                recalculate_parent_state_vec(items, parent_idx);
                proof {
                    lemma_same_shape_chain(before, mid, nodes_of(items@));
                }
                at = parent_idx;
                next = items[parent_idx].parent_index;
            },
            None => {
                break ;
            },
        }
    }
}

impl TuiApp {
    /// Starts a session on an arena: the cursor on the first item, the
    /// window at the top and of no height yet, no filter.
    pub fn new(items: Vec<SelectableItem>) -> (app: TuiApp)
        requires
            well_formed(nodes_of(items@)),
        ensures
            app@ == (AppView {
                nodes: nodes_of(items@),
                selection: 0,
                scroll: 0,
                quit: false,
                confirmed: false,
                mode: AppMode::Normal,
                filter: Seq::empty(),
                cursor: 0,
                height: 0,
            }),
    {
        TuiApp {
            items,
            current_selection_idx: 0,
            scroll_offset: 0,
            quit: false,
            confirmed: false,
            mode: AppMode::Normal,
            filter_input: Vec::new(),
            filter_cursor_pos: 0,
            list_viewport_height: 0,
        }
    }

    /// The arena.
    pub fn items(&self) -> (items: &[SelectableItem])
        ensures
            nodes_of(items@) == self@.nodes,
            well_formed(self@.nodes),
    {
        proof {
            use_type_invariant(self);
        }
        self.items.as_slice()
    }

    /// Ends the session and hands out the arena.
    pub fn into_items(self) -> (items: Vec<SelectableItem>)
        ensures
            nodes_of(items@) == self@.nodes,
            well_formed(self@.nodes),
    {
        proof {
            use_type_invariant(&self);
        }
        self.items
    }

    /// The item the cursor is on, as an index into the arena.
    pub fn current_selection_idx(&self) -> (idx: usize)
        ensures
            idx == self@.selection,
    {
        self.current_selection_idx
    }

    /// The row of the visible list at which the window starts.
    pub fn scroll_offset(&self) -> (offset: usize)
        ensures
            offset == self@.scroll,
    {
        self.scroll_offset
    }

    /// Whether the session is over.
    pub fn quit(&self) -> (quit: bool)
        ensures
            quit == self@.quit,
    {
        self.quit
    }

    /// Whether the session ended with the selection accepted.
    pub fn confirmed(&self) -> (confirmed: bool)
        ensures
            confirmed == self@.confirmed,
    {
        self.confirmed
    }

    /// Which keys the controller is listening for.
    pub fn mode(&self) -> (mode: AppMode)
        ensures
            mode == self@.mode,
    {
        self.mode
    }

    /// The filter text.
    pub fn filter_input(&self) -> (text: &[char])
        ensures
            text@ == self@.filter,
    {
        self.filter_input.as_slice()
    }

    /// Where in the filter text the next character goes.
    pub fn filter_cursor_pos(&self) -> (pos: usize)
        ensures
            pos == self@.cursor,
            pos <= self@.filter.len(),
    {
        proof {
            use_type_invariant(self);
        }
        self.filter_cursor_pos
    }

    /// How many rows of the visible list the window shows.
    pub fn list_viewport_height(&self) -> (height: usize)
        ensures
            height == self@.height,
    {
        self.list_viewport_height
    }

    /// Whether the filter is active, and the hits of the filter.
    fn current_hits(&self) -> (result: (bool, Vec<bool>))
        ensures
            result.0 == filter_active(self@),
            result.1@ == filter_hits_of(self@),
            result.1@.len() == self@.nodes.len(),
    {
        proof {
            use_type_invariant(self);
        }
        let text = text_of(self.filter_input.as_slice());
        filter_hits(self.items.as_slice(), text.as_str())
    }

    /// The visible list: the items that can be seen under the current
    /// expansion and filter, in the order of the arena.
    pub fn get_visible_item_indices(&self) -> (rows: Vec<usize>)
        ensures
            rows@ == visible_rows(self@),
            forall|k: int| 0 <= k < rows@.len() ==> #[trigger] rows@[k] < self@.nodes.len(),
    {
        proof {
            use_type_invariant(self);
        }
        let (active, hits) = self.current_hits();
        visible_indices(self.items.as_slice(), active, hits.as_slice())
    }

    /// Whether item `item_idx` is in the visible list, for given hits of
    /// the filter.
    fn is_shown(&self, active: bool, hits: &[bool], item_idx: usize) -> (is: bool)
        requires
            active == filter_active(self@),
            hits@ == filter_hits_of(self@),
        ensures
            is == shown(self@, item_idx as int),
    {
        proof {
            use_type_invariant(self);
        }
        is_item_visible_recursive(self.items.as_slice(), item_idx) && (!active
            || item_matches_filter_or_has_matching_descendant(
            self.items.as_slice(),
            hits,
            item_idx,
        ))
    }

    /// Lets the window follow the cursor.
    pub fn ensure_selection_is_visible_in_viewport(&mut self)
        ensures
            final(self)@ == rescrolled(old(self)@),
    {
        proof {
            use_type_invariant(&*self);
        }
        let rows = self.get_visible_item_indices();
        let start = match position_in(rows.as_slice(), self.current_selection_idx) {
            Some(pos) => scroll_to_show(
                self.scroll_offset,
                pos,
                rows.len(),
                self.list_viewport_height,
            ),
            None => clamp_offset(self.scroll_offset, rows.len(), self.list_viewport_height),
        };
        self.scroll_offset = start;
    }

    /// Brings the cursor and the window back in line with the visible
    /// list: a cursor on a hidden item moves to the nearest ancestor that
    /// can be seen, else to the first visible item, else to the first item.
    pub fn ensure_selection_is_visible(&mut self)
        ensures
            final(self)@ == revalidated(old(self)@),
    {
        proof {
            use_type_invariant(&*self);
        }
        let ghost v = self@;
        let (active, hits) = self.current_hits();
        if !self.is_shown(active, hits.as_slice(), self.current_selection_idx) {
            let mut found: Option<usize> = None;
            let mut at: usize = self.current_selection_idx;
            while at < self.items.len()
                invariant_except_break
                    found is None,
                    nearest_shown_ancestor(v, v.selection as int) == nearest_shown_ancestor(
                        v,
                        at as int,
                    ),
                invariant
                    self@ == v,
                    well_formed(v.nodes),
                    active == filter_active(v),
                    hits@ == filter_hits_of(v),
                ensures
                    found == nearest_shown_ancestor(v, v.selection as int),
                decreases at,
            {
                assert(links_sound(v.nodes, at as int));
                match self.items[at].parent_index {
                    Some(parent_idx) => {
                        if self.is_shown(active, hits.as_slice(), parent_idx) {
                            found = Some(parent_idx);
                            break ;
                        }
                        at = parent_idx;
                    },
                    None => {
                        break ;
                    },
                }
            }
            let target = match found {
                Some(ancestor) => ancestor,
                None => {
                    let rows = self.get_visible_item_indices();
                    if rows.len() > 0 {
                        rows[0]
                    } else {
                        0
                    }
                },
            };
            self.current_selection_idx = target;
        }
        assert(self@ == (AppView { selection: revalidated_selection(v), ..v }));
        self.ensure_selection_is_visible_in_viewport();
    }

    /// Brings the cursor and the window back in line after the filter has
    /// changed.
    pub fn ensure_selection_is_valid_after_filter(&mut self)
        ensures
            final(self)@ == revalidated(old(self)@),
    {
        self.ensure_selection_is_visible();
    }

    /// Gives the window `height` rows and lets it follow the cursor.
    pub fn set_viewport_height(&mut self, height: usize)
        ensures
            final(self)@ == resized(old(self)@, height),
    {
        proof {
            use_type_invariant(&*self);
        }
        self.list_viewport_height = height;
        self.ensure_selection_is_visible();
    }

    /// Moves the cursor `delta` rows through the visible list, going round
    /// at either end, and lets the window follow.
    pub fn move_selection_in_visible_list(&mut self, delta: i32)
        ensures
            final(self)@ == moved(old(self)@, delta as int),
    {
        proof {
            use_type_invariant(&*self);
        }
        let rows = self.get_visible_item_indices();
        if rows.len() == 0 {
            return ;
        }
        let pos = position_in(rows.as_slice(), self.current_selection_idx);
        let row = step_in_list(pos, rows.len(), delta);
        self.current_selection_idx = rows[row];
        self.ensure_selection_is_visible_in_viewport();
    }

    /// Moves the cursor to the next row of the visible list.
    pub fn select_next_visible_item(&mut self)
        ensures
            final(self)@ == moved(old(self)@, 1),
    {
        self.move_selection_in_visible_list(1);
    }

    /// Moves the cursor to the previous row of the visible list.
    pub fn select_previous_visible_item(&mut self)
        ensures
            final(self)@ == moved(old(self)@, -1),
    {
        self.move_selection_in_visible_list(-1);
    }

    /// Toggles the selection of the item under the cursor: an item that is
    /// fully selected is deselected, any other is fully selected; the state
    /// is handed down and the ancestors are recomputed.
    pub fn toggle_current_item_selection(&mut self)
        ensures
            final(self)@ == toggled(old(self)@),
            consistent(old(self)@.nodes) ==> consistent(final(self)@.nodes),
            files_binary(old(self)@.nodes) ==> files_binary(final(self)@.nodes),
    {
        proof {
            use_type_invariant(&*self);
        }
        if self.current_selection_idx >= self.items.len() {
            return ;
        }
        let item_idx = self.current_selection_idx;
        let new_state_for_item = match self.items[item_idx].state {
            SelectionState::NotSelected | SelectionState::PartiallySelected => {
                SelectionState::FullySelected
            },
            SelectionState::FullySelected => SelectionState::NotSelected,
        };
        proof {
            if consistent(self@.nodes) {
                lemma_selection_stays_consistent(self@.nodes, item_idx as int, new_state_for_item);
            }
            if files_binary(self@.nodes) {
                lemma_selection_keeps_files_binary(
                    self@.nodes,
                    item_idx as int,
                    new_state_for_item,
                );
            }
        }
        // The arena is taken out while it is changed and put back after.
        let mut items: Vec<SelectableItem> = Vec::new();
        std::mem::swap(&mut items, &mut self.items);
        apply_state_and_propagate_down_vec(items.as_mut_slice(), item_idx, new_state_for_item);
        update_all_parent_states_from_child_vec(items.as_mut_slice(), item_idx);
        self.items = items;
    }

    /// Fully selects every file of the visible list. Directories are not
    /// touched directly: their states follow from their children.
    pub fn select_all_visible_items(&mut self)
        ensures
            final(self)@ == all_selected(old(self)@),
            consistent(old(self)@.nodes) ==> consistent(final(self)@.nodes),
            same_shape(old(self)@.nodes, final(self)@.nodes),
            forall|j: int|
                0 <= j < old(self)@.nodes.len() && !old(self)@.nodes[j].is_dir ==> (
                #[trigger] final(self)@.nodes[j]).state == if among_rows(
                    visible_rows(old(self)@),
                    visible_rows(old(self)@).len() as int,
                    j,
                ) {
                    SelectionState::FullySelected
                } else {
                    old(self)@.nodes[j].state
                },
    {
        proof {
            use_type_invariant(&*self);
        }
        let ghost v = self@;
        let rows = self.get_visible_item_indices();
        proof {
            lemma_files_selected(v.nodes, rows@, rows@.len() as int);
        }
        let count = rows.len();
        let mut items: Vec<SelectableItem> = Vec::new();
        std::mem::swap(&mut items, &mut self.items);
        let mut k: usize = 0;
        while k < count
            invariant
                k <= count == rows@.len(),
                rows@ == visible_rows(v),
                forall|m: int| 0 <= m < rows@.len() ==> #[trigger] rows@[m] < v.nodes.len(),
                items@.len() == v.nodes.len(),
                well_formed(nodes_of(items@)),
                nodes_of(items@) == files_selected(v.nodes, rows@, k as int),
                consistent(v.nodes) ==> consistent(nodes_of(items@)),
            decreases count - k,
        {
            let item_idx = rows[k];
            if !items[item_idx].is_dir {
                proof {
                    if consistent(nodes_of(items@)) {
                        lemma_selection_stays_consistent(
                            nodes_of(items@),
                            item_idx as int,
                            SelectionState::FullySelected,
                        );
                    }
                }
                apply_state_and_propagate_down_vec(
                    items.as_mut_slice(),
                    item_idx,
                    SelectionState::FullySelected,
                );
                update_all_parent_states_from_child_vec(items.as_mut_slice(), item_idx);
            }
            k += 1;
        }
        self.items = items;
    }

    /// Deselects every item of the visible list, files and directories
    /// alike, and with each directory all that lies below it.
    pub fn deselect_all_visible_items(&mut self)
        ensures
            final(self)@ == all_deselected(old(self)@),
            consistent(old(self)@.nodes) ==> consistent(final(self)@.nodes),
            same_shape(old(self)@.nodes, final(self)@.nodes),
            forall|j: int|
                0 <= j < old(self)@.nodes.len() && under_rows(
                    old(self)@.nodes,
                    visible_rows(old(self)@),
                    visible_rows(old(self)@).len() as int,
                    j,
                ) ==> (#[trigger] final(self)@.nodes[j]).state == SelectionState::NotSelected,
            forall|j: int|
                0 <= j < old(self)@.nodes.len() && !old(self)@.nodes[j].is_dir && !under_rows(
                    old(self)@.nodes,
                    visible_rows(old(self)@),
                    visible_rows(old(self)@).len() as int,
                    j,
                ) ==> (#[trigger] final(self)@.nodes[j]).state == old(self)@.nodes[j].state,
    {
        proof {
            use_type_invariant(&*self);
        }
        let ghost v = self@;
        let rows = self.get_visible_item_indices();
        proof {
            lemma_rows_deselected(v.nodes, rows@, rows@.len() as int);
        }
        let count = rows.len();
        let mut items: Vec<SelectableItem> = Vec::new();
        std::mem::swap(&mut items, &mut self.items);
        let mut k: usize = 0;
        while k < count
            invariant
                k <= count == rows@.len(),
                rows@ == visible_rows(v),
                forall|m: int| 0 <= m < rows@.len() ==> #[trigger] rows@[m] < v.nodes.len(),
                items@.len() == v.nodes.len(),
                well_formed(nodes_of(items@)),
                nodes_of(items@) == rows_deselected(v.nodes, rows@, k as int),
                consistent(v.nodes) ==> consistent(nodes_of(items@)),
            decreases count - k,
        {
            let item_idx = rows[k];
            proof {
                if consistent(nodes_of(items@)) {
                    lemma_selection_stays_consistent(
                        nodes_of(items@),
                        item_idx as int,
                        SelectionState::NotSelected,
                    );
                }
            }
            apply_state_and_propagate_down_vec(
                items.as_mut_slice(),
                item_idx,
                SelectionState::NotSelected,
            );
            update_all_parent_states_from_child_vec(items.as_mut_slice(), item_idx);
            k += 1;
        }
        self.items = items;
    }

    /// Expands every directory.
    pub fn expand_all_directories(&mut self)
        ensures
            final(self)@ == expanded_all(old(self)@),
    {
        proof {
            use_type_invariant(&*self);
        }
        let ghost v = self@;
        let mut items: Vec<SelectableItem> = Vec::new();
        std::mem::swap(&mut items, &mut self.items);
        let n = items.len();
        let mut i: usize = 0;
        while i < n
            invariant
                i <= n == v.nodes.len(),
                items@.len() == n,
                forall|k: int|
                    0 <= k < n ==> (#[trigger] items@[k])@ == if k < i {
                        every_dir_expanded(v.nodes)[k]
                    } else {
                        v.nodes[k]
                    },
            decreases n - i,
        {
            if items[i].is_dir {
                items[i].is_expanded = true;
            }
            i += 1;
        }
        proof {
            assert(nodes_of(items@) =~= every_dir_expanded(v.nodes));
            lemma_same_links_well_formed(v.nodes, nodes_of(items@));
        }
        self.items = items;
        self.ensure_selection_is_visible();
    }

    /// Collapses every directory but those at the top level, which stay
    /// expanded so that the visible list is never empty.
    pub fn collapse_all_directories(&mut self)
        ensures
            final(self)@ == collapsed_all(old(self)@),
    {
        proof {
            use_type_invariant(&*self);
        }
        let ghost v = self@;
        let mut items: Vec<SelectableItem> = Vec::new();
        std::mem::swap(&mut items, &mut self.items);
        let n = items.len();
        let mut i: usize = 0;
        while i < n
            invariant
                i <= n == v.nodes.len(),
                items@.len() == n,
                forall|k: int|
                    0 <= k < n ==> (#[trigger] items@[k])@ == if k < i {
                        every_dir_collapsed(v.nodes)[k]
                    } else {
                        v.nodes[k]
                    },
            decreases n - i,
        {
            if items[i].is_dir {
                let top = items[i].parent_index.is_none();
                items[i].is_expanded = top;
            }
            i += 1;
        }
        proof {
            assert(nodes_of(items@) =~= every_dir_collapsed(v.nodes));
            lemma_same_links_well_formed(v.nodes, nodes_of(items@));
        }
        self.items = items;
        self.ensure_selection_is_visible();
    }

    /// Expands or collapses the directory under the cursor. On a file
    /// nothing happens.
    pub fn toggle_expansion_and_adjust_selection(&mut self)
        ensures
            final(self)@ == expansion_toggled(old(self)@),
    {
        proof {
            use_type_invariant(&*self);
        }
        if self.current_selection_idx >= self.items.len() {
            return ;
        }
        let ghost v = self@;
        let item_idx = self.current_selection_idx;
        if self.items[item_idx].is_dir {
            let mut items: Vec<SelectableItem> = Vec::new();
            std::mem::swap(&mut items, &mut self.items);
            let expanded = items[item_idx].is_expanded;
            items[item_idx].is_expanded = !expanded;
            proof {
                let node = v.nodes[item_idx as int];
                assert(nodes_of(items@) =~= v.nodes.update(
                    item_idx as int,
                    with_expanded(node, !node.expanded),
                ));
                lemma_same_links_well_formed(v.nodes, nodes_of(items@));
            }
            self.items = items;
            self.ensure_selection_is_visible();
        }
    }
}

} // verus!
