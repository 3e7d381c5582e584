//! What the selection session does, stated on its mathematical value:
//! every action is a function from the state before to the state after.

use crate::text::lowercase;
use crate::tui::app_state::{AppMode, AppView, Node, SelectionState};
use crate::tui::forest::{
    consistent, files_binary, in_subtree, lemma_apply_down_shape,
    lemma_refresh_changes_only_ancestors, lemma_refresh_keeps_clear_subtree,
    lemma_refresh_keeps_files, lemma_same_selection_keeps_rules, lemma_same_shape_chain,
    lemma_same_shape_subtree, lemma_selection_keeps_files_binary, lemma_selection_stays_consistent,
    lemma_subtree_through_children, links_sound, same_selection, same_shape, spec_apply_down,
    spec_refresh, well_formed, with_state,
};
use crate::tui::viewport::{
    clamped_offset, in_window, lemma_position_tells_membership, max_offset, spec_position,
    spec_scroll, spec_step,
};
use crate::tui::visibility::{is_visible, lemma_visible_list, spec_label_hits, visible_list};
use vstd::prelude::*;

verus! {

/// Whether the filter of the session is active.
pub open spec fn filter_active(v: AppView) -> bool {
    v.filter.len() > 0
}

/// For every item, whether its label matches the filter of the session.
pub open spec fn filter_hits_of(v: AppView) -> Seq<bool> {
    spec_label_hits(v.nodes, lowercase(v.filter))
}

/// The visible list of the session.
pub open spec fn visible_rows(v: AppView) -> Seq<usize> {
    visible_list(v.nodes, filter_active(v), filter_hits_of(v))
}

/// Whether item `i` is in the visible list of the session.
pub open spec fn shown(v: AppView, i: int) -> bool {
    is_visible(v.nodes, filter_active(v), filter_hits_of(v), i)
}

/// The nearest ancestor of item `i` that is in the visible list.
pub open spec fn nearest_shown_ancestor(v: AppView, i: int) -> Option<usize>
    decreases i,
{
    if 0 <= i < v.nodes.len() {
        match v.nodes[i].parent {
            Some(p) => if p < i {
                if shown(v, p as int) {
                    Some(p)
                } else {
                    nearest_shown_ancestor(v, p as int)
                }
            } else {
                None
            },
            None => None,
        }
    } else {
        None
    }
}

/// The item the cursor belongs on: where it is, if that item is in the
/// visible list; else the nearest ancestor that is; else the first item of
/// the visible list; else the first item of the arena.
pub open spec fn revalidated_selection(v: AppView) -> usize {
    if shown(v, v.selection as int) {
        v.selection
    } else {
        match nearest_shown_ancestor(v, v.selection as int) {
            Some(a) => a,
            None => if visible_rows(v).len() > 0 {
                visible_rows(v)[0]
            } else {
                0
            },
        }
    }
}

/// The session after the window has followed the cursor: the offset is
/// brought into the range that the visible list allows and then moved by
/// the least amount that shows the row of the cursor.
pub open spec fn rescrolled(v: AppView) -> AppView {
    let rows = visible_rows(v);
    AppView {
        scroll: match spec_position(rows, v.selection) {
            Some(pos) => spec_scroll(
                v.scroll as int,
                pos,
                rows.len() as int,
                v.height as int,
            ) as usize,
            None => clamped_offset(v.scroll as int, rows.len() as int, v.height as int) as usize,
        },
        ..v
    }
}

/// The session after the cursor and the window are brought back in line
/// with the visible list.
pub open spec fn revalidated(v: AppView) -> AppView {
    rescrolled(AppView { selection: revalidated_selection(v), ..v })
}

/// The session after the window is given `height` rows.
pub open spec fn resized(v: AppView, height: usize) -> AppView {
    revalidated(AppView { height, ..v })
}

/// The session after the cursor has moved `delta` rows through the visible
/// list, going round at either end.
pub open spec fn moved(v: AppView, delta: int) -> AppView {
    let rows = visible_rows(v);
    if rows.len() == 0 {
        v
    } else {
        rescrolled(
            AppView {
                selection: rows[spec_step(
                    spec_position(rows, v.selection),
                    rows.len() as int,
                    delta,
                )],
                ..v
            },
        )
    }
}

/// The state that a toggle asks of an item in the state `state`.
pub open spec fn flipped(state: SelectionState) -> SelectionState {
    if state == SelectionState::FullySelected {
        SelectionState::NotSelected
    } else {
        SelectionState::FullySelected
    }
}

/// The arena after item `i` has been given the state `desired`, which is
/// handed down, and its ancestors have been recomputed.
pub open spec fn selection_set(nodes: Seq<Node>, i: int, desired: SelectionState) -> Seq<Node> {
    spec_refresh(spec_apply_down(nodes, i, desired), i)
}

/// The session after the selection of the item under the cursor is
/// toggled.
pub open spec fn toggled(v: AppView) -> AppView {
    if v.selection < v.nodes.len() {
        AppView {
            nodes: selection_set(
                v.nodes,
                v.selection as int,
                flipped(v.nodes[v.selection as int].state),
            ),
            ..v
        }
    } else {
        v
    }
}

/// The arena after the files among the first `count` rows have been fully
/// selected, one after the other.
pub open spec fn files_selected(nodes: Seq<Node>, rows: Seq<usize>, count: int) -> Seq<Node>
    decreases count,
{
    if count <= 0 {
        nodes
    } else {
        let before = files_selected(nodes, rows, count - 1);
        let i = rows[count - 1] as int;
        if before[i].is_dir {
            before
        } else {
            selection_set(before, i, SelectionState::FullySelected)
        }
    }
}

/// The arena after the first `count` rows, files and directories alike,
/// have been deselected, one after the other.
pub open spec fn rows_deselected(nodes: Seq<Node>, rows: Seq<usize>, count: int) -> Seq<Node>
    decreases count,
{
    if count <= 0 {
        nodes
    } else {
        selection_set(
            rows_deselected(nodes, rows, count - 1),
            rows[count - 1] as int,
            SelectionState::NotSelected,
        )
    }
}

/// The session after every file in the visible list is selected.
pub open spec fn all_selected(v: AppView) -> AppView {
    AppView {
        nodes: files_selected(v.nodes, visible_rows(v), visible_rows(v).len() as int),
        ..v
    }
}

/// The session after every item in the visible list is deselected.
pub open spec fn all_deselected(v: AppView) -> AppView {
    AppView {
        nodes: rows_deselected(v.nodes, visible_rows(v), visible_rows(v).len() as int),
        ..v
    }
}

/// A node that is expanded or collapsed.
pub open spec fn with_expanded(node: Node, expanded: bool) -> Node {
    Node { expanded, ..node }
}

/// The arena with every directory expanded.
pub open spec fn every_dir_expanded(nodes: Seq<Node>) -> Seq<Node> {
    Seq::new(
        nodes.len(),
        |i: int|
            if nodes[i].is_dir {
                with_expanded(nodes[i], true)
            } else {
                nodes[i]
            },
    )
}

/// The arena with every directory collapsed but those without a parent,
/// which are expanded.
pub open spec fn every_dir_collapsed(nodes: Seq<Node>) -> Seq<Node> {
    Seq::new(
        nodes.len(),
        |i: int|
            if nodes[i].is_dir {
                with_expanded(nodes[i], nodes[i].parent is None)
            } else {
                nodes[i]
            },
    )
}

/// The session after every directory is expanded.
pub open spec fn expanded_all(v: AppView) -> AppView {
    revalidated(AppView { nodes: every_dir_expanded(v.nodes), ..v })
}

/// The session after every directory below the top level is collapsed.
pub open spec fn collapsed_all(v: AppView) -> AppView {
    revalidated(AppView { nodes: every_dir_collapsed(v.nodes), ..v })
}

/// The session after the directory under the cursor is expanded or
/// collapsed. On a file nothing happens.
pub open spec fn expansion_toggled(v: AppView) -> AppView {
    if v.selection < v.nodes.len() && v.nodes[v.selection as int].is_dir {
        let node = v.nodes[v.selection as int];
        revalidated(
            AppView {
                nodes: v.nodes.update(v.selection as int, with_expanded(node, !node.expanded)),
                ..v
            },
        )
    } else {
        v
    }
}

/// The session after the filter is committed: the text stays.
pub open spec fn filter_committed(v: AppView) -> AppView {
    revalidated(AppView { mode: AppMode::Normal, ..v })
}

/// The session after the filter is cancelled: the text is cleared.
pub open spec fn filter_cancelled(v: AppView) -> AppView {
    revalidated(AppView { mode: AppMode::Normal, filter: Seq::empty(), cursor: 0, ..v })
}

/// The session after `c` is typed into the filter at the cursor.
pub open spec fn filter_typed(v: AppView, c: char) -> AppView {
    revalidated(
        AppView {
            filter: v.filter.insert(v.cursor as int, c),
            cursor: (v.cursor + 1) as usize,
            ..v
        },
    )
}

/// The session after the character before the cursor is taken out of the
/// filter. At the start of the text nothing happens.
pub open spec fn filter_erased(v: AppView) -> AppView {
    if v.cursor > 0 {
        revalidated(
            AppView {
                filter: v.filter.remove(v.cursor - 1),
                cursor: (v.cursor - 1) as usize,
                ..v
            },
        )
    } else {
        v
    }
}

/// The session after the cursor of the filter moves one place to the left.
pub open spec fn cursor_left(v: AppView) -> AppView {
    if v.cursor > 0 {
        AppView { cursor: (v.cursor - 1) as usize, ..v }
    } else {
        v
    }
}

/// The session after the cursor of the filter moves one place to the
/// right.
pub open spec fn cursor_right(v: AppView) -> AppView {
    if v.cursor < v.filter.len() {
        AppView { cursor: (v.cursor + 1) as usize, ..v }
    } else {
        v
    }
}

/// Whether the window of the session shows the cursor: the item under
/// the cursor is in the visible list, and its row lies in the window.
pub open spec fn shows_cursor(v: AppView) -> bool {
    match spec_position(visible_rows(v), v.selection) {
        Some(pos) => in_window(v.scroll as int, pos, v.height as int) && v.scroll <= max_offset(
            visible_rows(v).len() as int,
            v.height as int,
        ),
        None => false,
    }
}

/// A found ancestor is in the visible list.
pub proof fn lemma_nearest_shown_ancestor(v: AppView, i: int)
    ensures
        match nearest_shown_ancestor(v, i) {
            Some(a) => a < i && shown(v, a as int),
            None => true,
        },
    decreases i,
{
    if 0 <= i < v.nodes.len() {
        match v.nodes[i].parent {
            Some(p) => {
                if p < i && !shown(v, p as int) {
                    lemma_nearest_shown_ancestor(v, p as int);
                }
            },
            None => {},
        }
    }
}

/// Where the visible list is not empty, the cursor is put on an item of
/// the list.
pub proof fn lemma_revalidated_selection_is_shown(v: AppView)
    requires
        v.nodes.len() <= usize::MAX,
        visible_rows(v).len() > 0,
    ensures
        visible_rows(v).contains(revalidated_selection(v)),
{
    let rows = visible_rows(v);
    lemma_visible_list(v.nodes, filter_active(v), filter_hits_of(v));
    lemma_nearest_shown_ancestor(v, v.selection as int);
    let target = revalidated_selection(v);
    if shown(v, target as int) {
        assert(rows.contains(target));
    } else {
        assert(target == rows[0]);
    }
}

/// Once the window has followed a cursor that is on an item of the visible
/// list, and the window has some height, it shows the cursor.
pub proof fn lemma_rescrolled_shows_cursor(v: AppView)
    requires
        v.nodes.len() <= usize::MAX,
        v.height > 0,
        visible_rows(v).contains(v.selection),
    ensures
        shows_cursor(rescrolled(v)),
{
    let rows = visible_rows(v);
    lemma_visible_list(v.nodes, filter_active(v), filter_hits_of(v));
    lemma_position_tells_membership(rows, v.selection);
    assert(visible_rows(rescrolled(v)) == rows);
}

/// After the cursor and the window are brought back in line, the window
/// shows the cursor, provided that anything is visible and that the window
/// has some height.
pub proof fn lemma_revalidated_shows_cursor(v: AppView)
    requires
        v.nodes.len() <= usize::MAX,
        v.height > 0,
        visible_rows(v).len() > 0,
    ensures
        shows_cursor(revalidated(v)),
{
    lemma_revalidated_selection_is_shown(v);
    let placed = AppView { selection: revalidated_selection(v), ..v };
    assert(visible_rows(placed) == visible_rows(v));
    lemma_rescrolled_shows_cursor(placed);
}

/// After a move through the visible list the cursor is on an item of the
/// list and the window shows it, provided that anything is visible and
/// that the window has some height.
pub proof fn lemma_moved_shows_cursor(v: AppView, delta: int)
    requires
        v.nodes.len() <= usize::MAX,
        v.height > 0,
        visible_rows(v).len() > 0,
    ensures
        shows_cursor(moved(v, delta)),
{
    let rows = visible_rows(v);
    lemma_position_tells_membership(rows, v.selection);
    let row = spec_step(spec_position(rows, v.selection), rows.len() as int, delta);
    assert(0 <= row < rows.len()) by {
        if spec_position(rows, v.selection) is Some {
            vstd::arithmetic::div_mod::lemma_mod_bound(
                spec_position(rows, v.selection)->0 + delta,
                rows.len() as int,
            );
        }
    }
    let placed = AppView { selection: rows[row], ..v };
    assert(visible_rows(placed) == rows);
    lemma_rescrolled_shows_cursor(placed);
}

/// Whether one of the first `count` rows is item `j`.
pub open spec fn among_rows(rows: Seq<usize>, count: int, j: int) -> bool {
    exists|m: int| 0 <= m < count && #[trigger] rows[m] == j
}

/// Whether item `j` is one of the first `count` rows or lies below one.
pub open spec fn under_rows(nodes: Seq<Node>, rows: Seq<usize>, count: int, j: int) -> bool {
    exists|m: int| 0 <= m < count && in_subtree(nodes, #[trigger] rows[m] as int, j)
}

/// Selecting the files among some rows changes selection states only, and
/// of the files it leaves each as it was unless it is one of the rows, in
/// which case the file is fully selected.
pub proof fn lemma_files_selected(nodes: Seq<Node>, rows: Seq<usize>, count: int)
    requires
        well_formed(nodes),
        0 <= count <= rows.len(),
        forall|m: int| 0 <= m < rows.len() ==> #[trigger] rows[m] < nodes.len(),
    ensures
        same_shape(nodes, files_selected(nodes, rows, count)),
        well_formed(files_selected(nodes, rows, count)),
        forall|j: int|
            0 <= j < nodes.len() && !nodes[j].is_dir ==> (#[trigger] files_selected(
                nodes,
                rows,
                count,
            )[j]).state == if among_rows(rows, count, j) {
                SelectionState::FullySelected
            } else {
                nodes[j].state
            },
    decreases count,
{
    if count > 0 {
        lemma_files_selected(nodes, rows, count - 1);
        let before = files_selected(nodes, rows, count - 1);
        let after = files_selected(nodes, rows, count);
        let i = rows[count - 1] as int;
        assert(with_state(nodes[i], before[i].state) == before[i]);
        if !before[i].is_dir {
            let handed = spec_apply_down(before, i, SelectionState::FullySelected);
            lemma_apply_down_shape(before, i, SelectionState::FullySelected);
            lemma_refresh_changes_only_ancestors(handed, i);
            lemma_same_shape_chain(before, handed, after);
            lemma_same_shape_chain(nodes, before, after);
            assert(links_sound(before, i));
            lemma_subtree_through_children(before, i);
        }
        assert forall|j: int| 0 <= j < nodes.len() && !nodes[j].is_dir implies (#[trigger] after[j]).state
            == if among_rows(rows, count, j) {
            SelectionState::FullySelected
        } else {
            nodes[j].state
        } by {
            assert(with_state(nodes[j], before[j].state) == before[j]);
            if among_rows(rows, count - 1, j) {
                let m = choose|m: int| 0 <= m < count - 1 && #[trigger] rows[m] == j;
                assert(rows[m] == j);
            }
            if among_rows(rows, count, j) && !among_rows(rows, count - 1, j) {
                let m = choose|m: int| 0 <= m < count && #[trigger] rows[m] == j;
                assert(m == count - 1);
            }
            if j == i {
                assert(rows[count - 1] == j);
            }
            if !before[i].is_dir {
                let handed = spec_apply_down(before, i, SelectionState::FullySelected);
                assert(with_state(before[j], handed[j].state) == handed[j]);
                lemma_refresh_keeps_files(handed, i, j);
            }
        }
    }
}

/// Deselecting some rows changes selection states only; afterwards nothing
/// at or below any of the rows is selected, and every file that lies under
/// none of them is as it was.
pub proof fn lemma_rows_deselected(nodes: Seq<Node>, rows: Seq<usize>, count: int)
    requires
        well_formed(nodes),
        0 <= count <= rows.len(),
        forall|m: int| 0 <= m < rows.len() ==> #[trigger] rows[m] < nodes.len(),
    ensures
        same_shape(nodes, rows_deselected(nodes, rows, count)),
        well_formed(rows_deselected(nodes, rows, count)),
        forall|j: int|
            0 <= j < nodes.len() && under_rows(nodes, rows, count, j) ==> (#[trigger] rows_deselected(
                nodes,
                rows,
                count,
            )[j]).state == SelectionState::NotSelected,
        forall|j: int|
            0 <= j < nodes.len() && !nodes[j].is_dir && !under_rows(nodes, rows, count, j)
                ==> (#[trigger] rows_deselected(nodes, rows, count)[j]).state == nodes[j].state,
    decreases count,
{
    if count > 0 {
        lemma_rows_deselected(nodes, rows, count - 1);
        let before = rows_deselected(nodes, rows, count - 1);
        let after = rows_deselected(nodes, rows, count);
        let i = rows[count - 1] as int;
        let handed = spec_apply_down(before, i, SelectionState::NotSelected);
        lemma_apply_down_shape(before, i, SelectionState::NotSelected);
        lemma_refresh_changes_only_ancestors(handed, i);
        lemma_same_shape_chain(before, handed, after);
        lemma_same_shape_chain(nodes, before, after);
        lemma_same_shape_chain(nodes, before, handed);
        lemma_same_shape_subtree(nodes, before, i);
        lemma_same_shape_subtree(before, handed, i);
        assert forall|j: int|
            0 <= j < nodes.len() && under_rows(nodes, rows, count, j) implies (#[trigger] after[j]).state
            == SelectionState::NotSelected by {
            let m = choose|m: int| 0 <= m < count && in_subtree(nodes, #[trigger] rows[m] as int, j);
            let top = rows[m] as int;
            lemma_same_shape_subtree(nodes, handed, top);
            assert forall|x: int|
                0 <= x < handed.len() && in_subtree(handed, top, x) implies (#[trigger] handed[x]).state
                == SelectionState::NotSelected by {
                if m < count - 1 {
                    assert(under_rows(nodes, rows, count - 1, x));
                    assert(before[x].state == SelectionState::NotSelected);
                }
            }
            lemma_refresh_keeps_clear_subtree(handed, i, top);
            lemma_same_shape_subtree(handed, after, top);
        }
        assert forall|j: int|
            0 <= j < nodes.len() && !nodes[j].is_dir && !under_rows(nodes, rows, count, j) implies (
        #[trigger] after[j]).state == nodes[j].state by {
            assert(with_state(nodes[j], before[j].state) == before[j]);
            assert(with_state(before[j], handed[j].state) == handed[j]);
            if under_rows(nodes, rows, count - 1, j) {
                let m = choose|m: int|
                    0 <= m < count - 1 && in_subtree(nodes, #[trigger] rows[m] as int, j);
                assert(in_subtree(nodes, rows[m] as int, j));
            }
            if in_subtree(nodes, i, j) {
                assert(in_subtree(nodes, rows[count - 1] as int, j));
            }
            lemma_refresh_keeps_files(handed, i, j);
        }
    }
}

/// Selecting the files among some rows keeps the arena sound: it stays
/// consistent where it was, and no file becomes partially selected.
pub proof fn lemma_files_selected_rules(nodes: Seq<Node>, rows: Seq<usize>, count: int)
    requires
        well_formed(nodes),
        0 <= count <= rows.len(),
        forall|m: int| 0 <= m < rows.len() ==> #[trigger] rows[m] < nodes.len(),
    ensures
        consistent(nodes) ==> consistent(files_selected(nodes, rows, count)),
        files_binary(nodes) ==> files_binary(files_selected(nodes, rows, count)),
    decreases count,
{
    if count > 0 {
        lemma_files_selected_rules(nodes, rows, count - 1);
        lemma_files_selected(nodes, rows, count - 1);
        let before = files_selected(nodes, rows, count - 1);
        let i = rows[count - 1] as int;
        if !before[i].is_dir {
            if consistent(before) {
                lemma_selection_stays_consistent(before, i, SelectionState::FullySelected);
            }
            if files_binary(before) {
                lemma_selection_keeps_files_binary(before, i, SelectionState::FullySelected);
            }
        }
    }
}

/// Deselecting some rows keeps the arena sound: it stays consistent where
/// it was, and no file becomes partially selected.
pub proof fn lemma_rows_deselected_rules(nodes: Seq<Node>, rows: Seq<usize>, count: int)
    requires
        well_formed(nodes),
        0 <= count <= rows.len(),
        forall|m: int| 0 <= m < rows.len() ==> #[trigger] rows[m] < nodes.len(),
    ensures
        consistent(nodes) ==> consistent(rows_deselected(nodes, rows, count)),
        files_binary(nodes) ==> files_binary(rows_deselected(nodes, rows, count)),
    decreases count,
{
    if count > 0 {
        lemma_rows_deselected_rules(nodes, rows, count - 1);
        lemma_rows_deselected(nodes, rows, count - 1);
        let before = rows_deselected(nodes, rows, count - 1);
        let i = rows[count - 1] as int;
        if consistent(before) {
            lemma_selection_stays_consistent(before, i, SelectionState::NotSelected);
        }
        if files_binary(before) {
            lemma_selection_keeps_files_binary(before, i, SelectionState::NotSelected);
        }
    }
}

/// Whether the arena of a session obeys the rules of the selection: its
/// links are sound, every directory with children has the state they give
/// it, and no file is partially selected.
pub open spec fn obeys_rules(v: AppView) -> bool {
    &&& well_formed(v.nodes)
    &&& consistent(v.nodes)
    &&& files_binary(v.nodes)
}

/// Bringing the cursor and the window back in line changes neither the
/// arena nor the filter.
pub proof fn lemma_revalidated_keeps_arena(v: AppView)
    ensures
        revalidated(v).nodes == v.nodes,
        revalidated(v).filter == v.filter,
        rescrolled(v).nodes == v.nodes,
{
}

/// Every action on the selection keeps the rules: toggling, selecting and
/// deselecting all that is visible.
pub proof fn lemma_selecting_keeps_rules(v: AppView)
    requires
        v.nodes.len() <= usize::MAX,
        obeys_rules(v),
    ensures
        obeys_rules(toggled(v)),
        obeys_rules(all_selected(v)),
        obeys_rules(all_deselected(v)),
{
    let rows = visible_rows(v);
    lemma_visible_list(v.nodes, filter_active(v), filter_hits_of(v));
    lemma_files_selected(v.nodes, rows, rows.len() as int);
    lemma_files_selected_rules(v.nodes, rows, rows.len() as int);
    lemma_rows_deselected(v.nodes, rows, rows.len() as int);
    lemma_rows_deselected_rules(v.nodes, rows, rows.len() as int);
    if v.selection < v.nodes.len() {
        let i = v.selection as int;
        let desired = flipped(v.nodes[i].state);
        lemma_apply_down_shape(v.nodes, i, desired);
        lemma_refresh_changes_only_ancestors(spec_apply_down(v.nodes, i, desired), i);
        lemma_selection_stays_consistent(v.nodes, i, desired);
        lemma_selection_keeps_files_binary(v.nodes, i, desired);
    }
}

/// Every change of expansion keeps the rules.
pub proof fn lemma_expanding_keeps_rules(v: AppView)
    requires
        obeys_rules(v),
    ensures
        obeys_rules(expanded_all(v)),
        obeys_rules(collapsed_all(v)),
        obeys_rules(expansion_toggled(v)),
{
    lemma_revalidated_keeps_arena(AppView { nodes: every_dir_expanded(v.nodes), ..v });
    lemma_revalidated_keeps_arena(AppView { nodes: every_dir_collapsed(v.nodes), ..v });
    assert(same_selection(v.nodes, every_dir_expanded(v.nodes)));
    assert(same_selection(v.nodes, every_dir_collapsed(v.nodes)));
    lemma_same_selection_keeps_rules(v.nodes, every_dir_expanded(v.nodes));
    lemma_same_selection_keeps_rules(v.nodes, every_dir_collapsed(v.nodes));
    if v.selection < v.nodes.len() && v.nodes[v.selection as int].is_dir {
        let node = v.nodes[v.selection as int];
        let flipped_one = v.nodes.update(v.selection as int, with_expanded(node, !node.expanded));
        lemma_revalidated_keeps_arena(AppView { nodes: flipped_one, ..v });
        assert(same_selection(v.nodes, flipped_one));
        lemma_same_selection_keeps_rules(v.nodes, flipped_one);
    }
}

/// No action on the selection or the expansion changes how many items the
/// arena has.
pub proof fn lemma_key_lengths(v: AppView)
    requires
        v.nodes.len() <= usize::MAX,
        well_formed(v.nodes),
    ensures
        toggled(v).nodes.len() == v.nodes.len(),
        all_selected(v).nodes.len() == v.nodes.len(),
        all_deselected(v).nodes.len() == v.nodes.len(),
        expanded_all(v).nodes.len() == v.nodes.len(),
        collapsed_all(v).nodes.len() == v.nodes.len(),
        expansion_toggled(v).nodes.len() == v.nodes.len(),
        moved(v, 1).nodes.len() == v.nodes.len(),
        moved(v, -1).nodes.len() == v.nodes.len(),
{
    let rows = visible_rows(v);
    lemma_visible_list(v.nodes, filter_active(v), filter_hits_of(v));
    lemma_files_selected(v.nodes, rows, rows.len() as int);
    lemma_rows_deselected(v.nodes, rows, rows.len() as int);
    if v.selection < v.nodes.len() {
        let i = v.selection as int;
        let desired = flipped(v.nodes[i].state);
        lemma_apply_down_shape(v.nodes, i, desired);
        lemma_refresh_changes_only_ancestors(spec_apply_down(v.nodes, i, desired), i);
    }
}

/// After the filter is cancelled, the visible list is exactly the list of
/// the items whose ancestors are all expanded.
pub proof fn lemma_cancel_restores_hierarchy(v: AppView)
    requires
        v.nodes.len() <= usize::MAX,
    ensures
        forall|i: int|
            0 <= i < v.nodes.len() ==> (visible_rows(filter_cancelled(v)).contains(i as usize)
                <==> #[trigger] crate::tui::visibility::hier_visible(v.nodes, i)),
{
    crate::tui::visibility::lemma_cleared_filter_restores_hierarchy(v.nodes, Seq::empty());
    assert(filter_cancelled(v).filter == Seq::<char>::empty());
    assert(filter_cancelled(v).nodes == v.nodes);
}

} // verus!
