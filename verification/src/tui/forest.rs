//! The arena as a forest: what it means for its links to be sound, which
//! items lie under which, and what the selection rules compute.

use crate::tui::app_state::{Node, SelectionState};
use vstd::prelude::*;

verus! {

/// Whether the links of item `i` are sound: its parent is an earlier
/// directory that lists it, only a directory has children, and its children
/// are later items, in ascending order, that name it as their parent.
pub open spec fn links_sound(nodes: Seq<Node>, i: int) -> bool {
    &&& match nodes[i].parent {
        Some(p) => p < i && nodes[p as int].is_dir && exists|k: int|
            0 <= k < nodes[p as int].children.len() && #[trigger] nodes[p as int].children[k] == i,
        None => true,
    }
    &&& !nodes[i].is_dir ==> nodes[i].children.len() == 0
    &&& forall|k: int|
        0 <= k < nodes[i].children.len() ==> {
            let c = #[trigger] nodes[i].children[k];
            i < c < nodes.len() && nodes[c as int].parent == Some(i as usize)
        }
    &&& forall|k: int, l: int|
        0 <= k < l < nodes[i].children.len() ==> #[trigger] nodes[i].children[k]
            < #[trigger] nodes[i].children[l]
}

/// Whether the arena is a forest in which every parent comes before its
/// children.
pub open spec fn well_formed(nodes: Seq<Node>) -> bool {
    forall|i: int| 0 <= i < nodes.len() ==> #[trigger] links_sound(nodes, i)
}

/// Whether two arenas differ in nothing but selection states.
pub open spec fn same_shape(a: Seq<Node>, b: Seq<Node>) -> bool {
    &&& a.len() == b.len()
    &&& forall|i: int| 0 <= i < a.len() ==> with_state(#[trigger] a[i], b[i].state) == b[i]
}

/// Whether two arenas have the same links and the same directories.
pub open spec fn same_links(a: Seq<Node>, b: Seq<Node>) -> bool {
    &&& a.len() == b.len()
    &&& forall|i: int|
        0 <= i < a.len() ==> {
            &&& (#[trigger] a[i]).parent == b[i].parent
            &&& a[i].children == b[i].children
            &&& a[i].is_dir == b[i].is_dir
        }
}

/// A node with another selection state.
pub open spec fn with_state(node: Node, state: SelectionState) -> Node {
    Node { state, ..node }
}

/// Whether item `j` is `top` or lies below it.
pub open spec fn in_subtree(nodes: Seq<Node>, top: int, j: int) -> bool
    decreases j,
{
    if j == top {
        true
    } else if 0 <= j < nodes.len() {
        match nodes[j].parent {
            Some(p) => p < j && in_subtree(nodes, top, p as int),
            None => false,
        }
    } else {
        false
    }
}

/// The state that an item takes when `desired` is asked of it: a file is
/// never partially selected.
pub open spec fn coerced(node: Node, desired: SelectionState) -> SelectionState {
    if !node.is_dir && desired == SelectionState::PartiallySelected {
        SelectionState::FullySelected
    } else {
        desired
    }
}

/// The arena after `desired` is applied to item `idx` and handed down.
/// A partial selection stays on the item itself; any other state reaches
/// every item below it.
pub open spec fn spec_apply_down(nodes: Seq<Node>, idx: int, desired: SelectionState) -> Seq<Node> {
    let state = coerced(nodes[idx], desired);
    if state == SelectionState::PartiallySelected {
        nodes.update(idx, with_state(nodes[idx], state))
    } else {
        Seq::new(
            nodes.len(),
            |j: int|
                if in_subtree(nodes, idx, j) {
                    with_state(nodes[j], state)
                } else {
                    nodes[j]
                },
        )
    }
}

/// Whether every child of item `d` has the state `state`.
pub open spec fn all_children_are(nodes: Seq<Node>, d: int, state: SelectionState) -> bool {
    forall|k: int|
        0 <= k < nodes[d].children.len() ==> nodes[#[trigger] nodes[d].children[k] as int].state
            == state
}

/// The state that the children of a directory give it: fully selected when
/// all of them are, not selected when none of them is selected even in
/// part, and partially selected otherwise.
pub open spec fn children_summary(nodes: Seq<Node>, d: int) -> SelectionState {
    if all_children_are(nodes, d, SelectionState::FullySelected) {
        SelectionState::FullySelected
    } else if all_children_are(nodes, d, SelectionState::NotSelected) {
        SelectionState::NotSelected
    } else {
        SelectionState::PartiallySelected
    }
}

/// Whether the state of item `d` is recomputed from its children: it is a
/// directory that has at least one.
pub open spec fn has_summary(nodes: Seq<Node>, d: int) -> bool {
    nodes[d].is_dir && nodes[d].children.len() > 0
}

/// The arena after the state of item `d` is recomputed from its children.
/// A file, or a directory without children, is left as it is.
pub open spec fn spec_recalculate(nodes: Seq<Node>, d: int) -> Seq<Node> {
    if has_summary(nodes, d) {
        nodes.update(d, with_state(nodes[d], children_summary(nodes, d)))
    } else {
        nodes
    }
}

/// The arena after every ancestor of item `idx` is recomputed, nearest
/// first.
pub open spec fn spec_refresh(nodes: Seq<Node>, idx: int) -> Seq<Node>
    decreases idx,
{
    if 0 <= idx < nodes.len() {
        match nodes[idx].parent {
            Some(p) => if p < idx {
                spec_refresh(spec_recalculate(nodes, p as int), p as int)
            } else {
                nodes
            },
            None => nodes,
        }
    } else {
        nodes
    }
}

/// Whether the state of item `d` is what its children give it.
pub open spec fn follows_children(nodes: Seq<Node>, d: int) -> bool {
    has_summary(nodes, d) ==> nodes[d].state == children_summary(nodes, d)
}

/// Whether every directory with children has the state they give it.
pub open spec fn consistent(nodes: Seq<Node>) -> bool {
    forall|d: int| 0 <= d < nodes.len() ==> #[trigger] follows_children(nodes, d)
}

/// Whether no file is partially selected.
pub open spec fn files_binary(nodes: Seq<Node>) -> bool {
    forall|i: int|
        0 <= i < nodes.len() && !(#[trigger] nodes[i]).is_dir ==> nodes[i].state
            != SelectionState::PartiallySelected
}

/// Arenas of the same shape have the same subtrees.
pub proof fn lemma_same_shape_subtree_at(a: Seq<Node>, b: Seq<Node>, top: int, j: int)
    requires
        same_shape(a, b),
    ensures
        in_subtree(a, top, j) == in_subtree(b, top, j),
    decreases j,
{
    if j != top && 0 <= j < a.len() {
        assert(with_state(a[j], b[j].state) == b[j]);
        match a[j].parent {
            Some(p) => {
                if p < j {
                    lemma_same_shape_subtree_at(a, b, top, p as int);
                }
            },
            None => {},
        }
    }
}

/// Arenas of the same shape have the same subtrees.
pub proof fn lemma_same_shape_subtree(a: Seq<Node>, b: Seq<Node>, top: int)
    requires
        same_shape(a, b),
    ensures
        forall|j: int| in_subtree(a, top, j) == #[trigger] in_subtree(b, top, j),
{
    assert forall|j: int| in_subtree(a, top, j) == #[trigger] in_subtree(b, top, j) by {
        lemma_same_shape_subtree_at(a, b, top, j);
    }
}

/// Soundness of the links does not depend on selection states.
pub proof fn lemma_same_shape_well_formed(a: Seq<Node>, b: Seq<Node>)
    requires
        same_shape(a, b),
        well_formed(a),
    ensures
        well_formed(b),
{
    assert forall|i: int| 0 <= i < b.len() implies #[trigger] links_sound(b, i) by {
        assert(links_sound(a, i));
        assert(with_state(a[i], b[i].state) == b[i]);
        match a[i].parent {
            Some(p) => {
                assert(with_state(a[p as int], b[p as int].state) == b[p as int]);
                let k = choose|k: int|
                    0 <= k < a[p as int].children.len() && #[trigger] a[p as int].children[k] == i;
                assert(b[p as int].children[k] == i);
            },
            None => {},
        }
        assert forall|k: int| 0 <= k < b[i].children.len() implies {
            let c = #[trigger] b[i].children[k];
            i < c < b.len() && b[c as int].parent == Some(i as usize)
        } by {
            let c = a[i].children[k];
            assert(with_state(a[c as int], b[c as int].state) == b[c as int]);
        }
    }
}

/// Soundness of the links depends on the links and the directories only.
pub proof fn lemma_same_links_well_formed(a: Seq<Node>, b: Seq<Node>)
    requires
        same_links(a, b),
        well_formed(a),
    ensures
        well_formed(b),
{
    assert forall|i: int| 0 <= i < b.len() implies #[trigger] links_sound(b, i) by {
        assert(links_sound(a, i));
        assert(a[i].parent == b[i].parent);
        match a[i].parent {
            Some(p) => {
                assert(a[p as int].children == b[p as int].children);
                let k = choose|k: int|
                    0 <= k < a[p as int].children.len() && #[trigger] a[p as int].children[k] == i;
                assert(b[p as int].children[k] == i);
            },
            None => {},
        }
        assert forall|k: int| 0 <= k < b[i].children.len() implies {
            let c = #[trigger] b[i].children[k];
            i < c < b.len() && b[c as int].parent == Some(i as usize)
        } by {
            let c = a[i].children[k];
            assert(a[c as int].parent == b[c as int].parent);
        }
    }
}

/// Having the same shape is symmetric and transitive.
pub proof fn lemma_same_shape_chain(a: Seq<Node>, b: Seq<Node>, c: Seq<Node>)
    requires
        same_shape(a, b),
        same_shape(b, c),
    ensures
        same_shape(a, c),
        same_shape(b, a),
{
    assert forall|i: int| 0 <= i < a.len() implies with_state(#[trigger] a[i], c[i].state)
        == c[i] by {
        assert(with_state(a[i], b[i].state) == b[i]);
        assert(with_state(b[i], c[i].state) == c[i]);
    }
    assert forall|i: int| 0 <= i < a.len() implies with_state(#[trigger] b[i], a[i].state)
        == a[i] by {
        assert(with_state(a[i], b[i].state) == b[i]);
    }
}

/// An item lies under `top` exactly when it is `top` or lies under one of
/// the children of `top`.
pub proof fn lemma_subtree_through_children_at(nodes: Seq<Node>, top: int, j: int)
    requires
        well_formed(nodes),
        0 <= top < nodes.len(),
    ensures
        in_subtree(nodes, top, j) <==> (j == top || exists|m: int|
            0 <= m < nodes[top].children.len() && in_subtree(
                nodes,
                #[trigger] nodes[top].children[m] as int,
                j,
            )),
    decreases j,
{
    let kids = nodes[top].children;
    assert(links_sound(nodes, top));
    if j != top && 0 <= j < nodes.len() {
        assert(links_sound(nodes, j));
        match nodes[j].parent {
            Some(p) => {
                lemma_subtree_through_children_at(nodes, top, p as int);
                if in_subtree(nodes, top, j) {
                    if p == top {
                        let m = choose|m: int| 0 <= m < kids.len() && #[trigger] kids[m] == j;
                        assert(in_subtree(nodes, kids[m] as int, j));
                    } else {
                        let m = choose|m: int|
                            0 <= m < kids.len() && in_subtree(nodes, #[trigger] kids[m] as int, p as int);
                        assert(in_subtree(nodes, kids[m] as int, j));
                    }
                }
                if exists|m: int|
                    0 <= m < kids.len() && in_subtree(nodes, #[trigger] kids[m] as int, j) {
                    let m = choose|m: int|
                        0 <= m < kids.len() && in_subtree(nodes, #[trigger] kids[m] as int, j);
                    if kids[m] == j {
                        assert(in_subtree(nodes, top, top));
                    } else {
                        assert(in_subtree(nodes, kids[m] as int, p as int));
                    }
                }
            },
            None => {
                if exists|m: int|
                    0 <= m < kids.len() && in_subtree(nodes, #[trigger] kids[m] as int, j) {
                    let m = choose|m: int|
                        0 <= m < kids.len() && in_subtree(nodes, #[trigger] kids[m] as int, j);
                    assert(kids[m] == j);
                }
            },
        }
    } else if j != top {
        if exists|m: int| 0 <= m < kids.len() && in_subtree(nodes, #[trigger] kids[m] as int, j) {
            let m = choose|m: int|
                0 <= m < kids.len() && in_subtree(nodes, #[trigger] kids[m] as int, j);
            assert(kids[m] == j);
        }
    }
}

/// An item lies under `top` exactly when it is `top` or lies under one of
/// the children of `top`.
pub proof fn lemma_subtree_through_children(nodes: Seq<Node>, top: int)
    requires
        well_formed(nodes),
        0 <= top < nodes.len(),
    ensures
        forall|j: int| #[trigger]
            in_subtree(nodes, top, j) <==> (j == top || exists|m: int|
                0 <= m < nodes[top].children.len() && in_subtree(
                    nodes,
                    #[trigger] nodes[top].children[m] as int,
                    j,
                )),
{
    assert forall|j: int| #[trigger]
        in_subtree(nodes, top, j) <==> (j == top || exists|m: int|
            0 <= m < nodes[top].children.len() && in_subtree(
                nodes,
                #[trigger] nodes[top].children[m] as int,
                j,
            )) by {
        lemma_subtree_through_children_at(nodes, top, j);
    }
}

/// An item that lies under `top` does not come before it.
pub proof fn lemma_subtree_is_later(nodes: Seq<Node>, top: int, j: int)
    requires
        in_subtree(nodes, top, j),
    ensures
        top <= j,
    decreases j,
{
    if j != top {
        lemma_subtree_is_later(nodes, top, nodes[j].parent->0 as int);
    }
}

/// Lying under is transitive.
pub proof fn lemma_subtree_transitive(nodes: Seq<Node>, a: int, b: int, j: int)
    requires
        in_subtree(nodes, a, b),
        in_subtree(nodes, b, j),
    ensures
        in_subtree(nodes, a, j),
    decreases j,
{
    if j != b && j != a {
        lemma_subtree_transitive(nodes, a, b, nodes[j].parent->0 as int);
    }
}

/// Whether item `a` is an ancestor of item `i`: it is another item, and `i`
/// lies under it.
pub open spec fn is_ancestor(nodes: Seq<Node>, a: int, i: int) -> bool {
    a != i && in_subtree(nodes, a, i)
}

/// Whether every directory, but perhaps the ancestors of item `i`, has the
/// state that its children give it.
pub open spec fn consistent_but_above(nodes: Seq<Node>, i: int) -> bool {
    forall|d: int|
        0 <= d < nodes.len() ==> #[trigger] follows_children(nodes, d) || is_ancestor(nodes, d, i)
}

/// The children of a directory give the same state in two arenas in which
/// all of them have the same states.
proof fn lemma_summary_of_same_children(a: Seq<Node>, b: Seq<Node>, d: int)
    requires
        same_links(a, b),
        well_formed(a),
        0 <= d < a.len(),
        forall|k: int|
            0 <= k < a[d].children.len() ==> a[#[trigger] a[d].children[k] as int].state
                == b[a[d].children[k] as int].state,
    ensures
        children_summary(a, d) == children_summary(b, d),
        has_summary(a, d) == has_summary(b, d),
{
    assert(a[d].children == b[d].children);
    let full = SelectionState::FullySelected;
    let clear = SelectionState::NotSelected;
    assert(all_children_are(a, d, full) == all_children_are(b, d, full)) by {
        if all_children_are(a, d, full) {
            assert forall|k: int| 0 <= k < b[d].children.len() implies b[#[trigger] b[d].children[k] as int].state
                == full by {
                assert(a[a[d].children[k] as int].state == full);
            }
        }
        if all_children_are(b, d, full) {
            assert forall|k: int| 0 <= k < a[d].children.len() implies a[#[trigger] a[d].children[k] as int].state
                == full by {
                assert(b[b[d].children[k] as int].state == full);
            }
        }
    }
    assert(all_children_are(a, d, clear) == all_children_are(b, d, clear)) by {
        if all_children_are(a, d, clear) {
            assert forall|k: int| 0 <= k < b[d].children.len() implies b[#[trigger] b[d].children[k] as int].state
                == clear by {
                assert(a[a[d].children[k] as int].state == clear);
            }
        }
        if all_children_are(b, d, clear) {
            assert forall|k: int| 0 <= k < a[d].children.len() implies a[#[trigger] a[d].children[k] as int].state
                == clear by {
                assert(b[b[d].children[k] as int].state == clear);
            }
        }
    }
}

/// After a state other than the partial one is handed down from item `idx`
/// in a consistent arena, only ancestors of `idx` can be out of step with
/// their children.
pub proof fn lemma_apply_down_breaks_only_ancestors(
    nodes: Seq<Node>,
    idx: int,
    desired: SelectionState,
)
    requires
        well_formed(nodes),
        consistent(nodes),
        0 <= idx < nodes.len(),
        coerced(nodes[idx], desired) != SelectionState::PartiallySelected,
    ensures
        consistent_but_above(spec_apply_down(nodes, idx, desired), idx),
{
    let state = coerced(nodes[idx], desired);
    let after = spec_apply_down(nodes, idx, desired);
    lemma_same_shape_well_formed(nodes, after);
    lemma_same_shape_subtree(nodes, after, idx);
    assert forall|d: int| 0 <= d < after.len() implies #[trigger] follows_children(after, d)
        || is_ancestor(after, d, idx) by {
        assert(links_sound(nodes, d));
        assert(with_state(nodes[d], after[d].state) == after[d]);
        if in_subtree(nodes, idx, d) {
            lemma_subtree_is_later(nodes, idx, d);
            assert forall|k: int| 0 <= k < after[d].children.len() implies after[#[trigger] after[d].children[k] as int].state
                == state by {
                let c = nodes[d].children[k];
                assert(in_subtree(nodes, idx, c as int));
            }
            if has_summary(after, d) {
                assert(after[after[d].children[0] as int].state == state);
            }
        } else {
            lemma_same_shape_subtree(nodes, after, d);
            if !is_ancestor(nodes, d, idx) {
                assert forall|k: int| 0 <= k < nodes[d].children.len() implies nodes[#[trigger] nodes[d].children[k] as int].state
                    == after[nodes[d].children[k] as int].state by {
                    let c = nodes[d].children[k] as int;
                    if in_subtree(nodes, idx, c) {
                        if c == idx {
                            assert(in_subtree(nodes, d, d));
                            assert(in_subtree(nodes, d, idx));
                        }
                    }
                }
                lemma_summary_of_same_children(nodes, after, d);
                assert(follows_children(nodes, d));
            }
        }
    }
}

/// Recomputing the ancestors of item `i` makes the arena consistent when
/// no other directory was out of step with its children.
pub proof fn lemma_refresh_mends_ancestors(nodes: Seq<Node>, i: int)
    requires
        well_formed(nodes),
        0 <= i < nodes.len(),
        consistent_but_above(nodes, i),
    ensures
        consistent(spec_refresh(nodes, i)),
    decreases i,
{
    assert(links_sound(nodes, i));
    match nodes[i].parent {
        Some(parent) => {
            let p = parent as int;
            let mended = spec_recalculate(nodes, p);
            assert(links_sound(nodes, p));
            assert(same_shape(nodes, mended));
            lemma_same_shape_well_formed(nodes, mended);
            assert forall|d: int| 0 <= d < mended.len() implies #[trigger] follows_children(
                mended,
                d,
            ) || is_ancestor(mended, d, p) by {
                lemma_same_shape_subtree(nodes, mended, d);
                assert(links_sound(nodes, d));
                if d == p {
                    lemma_summary_of_same_children(nodes, mended, p);
                } else if is_ancestor(nodes, d, i) {
                    assert(in_subtree(nodes, d, p));
                } else {
                    assert(follows_children(nodes, d));
                    if exists|k: int|
                        0 <= k < nodes[d].children.len() && #[trigger] nodes[d].children[k] == p {
                        assert(nodes[p].parent == Some(d as usize));
                        assert(in_subtree(nodes, d, d));
                        assert(in_subtree(nodes, d, p));
                    } else {
                        lemma_summary_of_same_children(nodes, mended, d);
                    }
                }
            }
            lemma_refresh_mends_ancestors(mended, p);
        },
        None => {
            assert forall|d: int| 0 <= d < nodes.len() implies #[trigger] follows_children(
                nodes,
                d,
            ) by {
                assert(!is_ancestor(nodes, d, i));
            }
        },
    }
}

/// In a consistent arena, handing a state other than the partial one down
/// from an item and then recomputing the ancestors of that item gives a
/// consistent arena again: every directory with children has the state
/// that they give it.
pub proof fn lemma_selection_stays_consistent(nodes: Seq<Node>, idx: int, desired: SelectionState)
    requires
        well_formed(nodes),
        consistent(nodes),
        0 <= idx < nodes.len(),
        coerced(nodes[idx], desired) != SelectionState::PartiallySelected,
    ensures
        consistent(spec_refresh(spec_apply_down(nodes, idx, desired), idx)),
{
    let handed = spec_apply_down(nodes, idx, desired);
    lemma_same_shape_well_formed(nodes, handed);
    lemma_apply_down_breaks_only_ancestors(nodes, idx, desired);
    lemma_refresh_mends_ancestors(handed, idx);
}

/// What consistency says of a directory that has children: it is fully
/// selected exactly when all of them are, it is not selected exactly when
/// none of them is selected even in part, and so it is never partially
/// selected over children that are all not selected.
pub proof fn lemma_consistent_directory(nodes: Seq<Node>, d: int)
    requires
        consistent(nodes),
        0 <= d < nodes.len(),
        nodes[d].is_dir,
        nodes[d].children.len() > 0,
    ensures
        nodes[d].state == SelectionState::FullySelected <==> all_children_are(
            nodes,
            d,
            SelectionState::FullySelected,
        ),
        nodes[d].state == SelectionState::NotSelected <==> all_children_are(
            nodes,
            d,
            SelectionState::NotSelected,
        ),
        all_children_are(nodes, d, SelectionState::NotSelected) ==> nodes[d].state
            != SelectionState::PartiallySelected,
{
    assert(follows_children(nodes, d));
    if all_children_are(nodes, d, SelectionState::FullySelected) && all_children_are(
        nodes,
        d,
        SelectionState::NotSelected,
    ) {
        assert(nodes[nodes[d].children[0] as int].state == SelectionState::FullySelected);
        assert(nodes[nodes[d].children[0] as int].state == SelectionState::NotSelected);
    }
}

/// Recomputing the ancestors of item `i` changes selection states only,
/// and only those of ancestors of `i`.
pub proof fn lemma_refresh_changes_only_ancestors(nodes: Seq<Node>, i: int)
    requires
        well_formed(nodes),
        0 <= i < nodes.len(),
    ensures
        same_shape(nodes, spec_refresh(nodes, i)),
        well_formed(spec_refresh(nodes, i)),
        forall|j: int|
            0 <= j < nodes.len() && !is_ancestor(nodes, j, i) ==> #[trigger] spec_refresh(nodes, i)[j]
                == nodes[j],
    decreases i,
{
    assert(links_sound(nodes, i));
    match nodes[i].parent {
        Some(parent) => {
            let p = parent as int;
            let mended = spec_recalculate(nodes, p);
            assert(same_shape(nodes, mended));
            lemma_same_shape_well_formed(nodes, mended);
            lemma_refresh_changes_only_ancestors(mended, p);
            let done = spec_refresh(mended, p);
            lemma_same_shape_chain(nodes, mended, done);
            assert forall|j: int| 0 <= j < nodes.len() && !is_ancestor(nodes, j, i) implies #[trigger] done[j]
                == nodes[j] by {
                lemma_same_shape_subtree(nodes, mended, j);
                assert(in_subtree(nodes, p, p));
                assert(in_subtree(nodes, p, i));
                assert(j != p);
                assert(mended[j] == nodes[j]);
                if is_ancestor(mended, j, p) {
                    lemma_subtree_is_later(nodes, j, p);
                    assert(in_subtree(nodes, j, i));
                }
                assert(!is_ancestor(mended, j, p));
            }
        },
        None => {},
    }
}

/// Recomputing the ancestors of an item leaves every file as it is.
pub proof fn lemma_refresh_keeps_files(nodes: Seq<Node>, i: int, j: int)
    requires
        well_formed(nodes),
        0 <= i < nodes.len(),
        0 <= j < nodes.len(),
        !nodes[j].is_dir,
    ensures
        spec_refresh(nodes, i)[j] == nodes[j],
{
    lemma_refresh_changes_only_ancestors(nodes, i);
    if is_ancestor(nodes, j, i) {
        lemma_ancestor_is_directory(nodes, j, i);
    }
}

/// Whatever has an item below it is a directory.
pub proof fn lemma_ancestor_is_directory(nodes: Seq<Node>, a: int, i: int)
    requires
        well_formed(nodes),
        0 <= a,
        is_ancestor(nodes, a, i),
    ensures
        a < i,
        a < nodes.len(),
        nodes[a].is_dir,
    decreases i,
{
    assert(links_sound(nodes, i));
    let p = nodes[i].parent->0 as int;
    if p != a {
        lemma_ancestor_is_directory(nodes, a, p);
    }
}

/// Whether every item at or below `top` is not selected.
pub open spec fn subtree_clear(nodes: Seq<Node>, top: int) -> bool {
    forall|j: int|
        0 <= j < nodes.len() && in_subtree(nodes, top, j) ==> (#[trigger] nodes[j]).state
            == SelectionState::NotSelected
}

/// A subtree in which nothing is selected stays so when the ancestors of
/// any item are recomputed.
pub proof fn lemma_refresh_keeps_clear_subtree(nodes: Seq<Node>, i: int, top: int)
    requires
        well_formed(nodes),
        0 <= i < nodes.len(),
        0 <= top < nodes.len(),
        subtree_clear(nodes, top),
    ensures
        subtree_clear(spec_refresh(nodes, i), top),
    decreases i,
{
    assert(links_sound(nodes, i));
    match nodes[i].parent {
        Some(parent) => {
            let p = parent as int;
            let mended = spec_recalculate(nodes, p);
            assert(links_sound(nodes, p));
            assert(same_shape(nodes, mended));
            lemma_same_shape_well_formed(nodes, mended);
            lemma_same_shape_subtree(nodes, mended, top);
            assert forall|j: int|
                0 <= j < mended.len() && in_subtree(mended, top, j) implies (#[trigger] mended[j]).state
                == SelectionState::NotSelected by {
                assert(nodes[j].state == SelectionState::NotSelected);
                if j == p && has_summary(nodes, p) {
                    assert forall|k: int| 0 <= k < nodes[p].children.len() implies nodes[#[trigger] nodes[p].children[k] as int].state
                        == SelectionState::NotSelected by {
                        let c = nodes[p].children[k] as int;
                        assert(in_subtree(nodes, top, c));
                    }
                    assert(nodes[nodes[p].children[0] as int].state == SelectionState::NotSelected);
                }
            }
            lemma_refresh_keeps_clear_subtree(mended, p, top);
        },
        None => {},
    }
}

/// Handing a state down changes selection states only.
pub proof fn lemma_apply_down_shape(nodes: Seq<Node>, idx: int, desired: SelectionState)
    requires
        0 <= idx < nodes.len(),
        well_formed(nodes),
    ensures
        same_shape(nodes, spec_apply_down(nodes, idx, desired)),
        well_formed(spec_apply_down(nodes, idx, desired)),
{
    lemma_same_shape_well_formed(nodes, spec_apply_down(nodes, idx, desired));
}

/// Handing a state down leaves no file partially selected where none was
/// before: on a file the partial state turns into the full one.
pub proof fn lemma_apply_down_keeps_files_binary(
    nodes: Seq<Node>,
    idx: int,
    desired: SelectionState,
)
    requires
        0 <= idx < nodes.len(),
        files_binary(nodes),
    ensures
        files_binary(spec_apply_down(nodes, idx, desired)),
{
    let after = spec_apply_down(nodes, idx, desired);
    assert forall|i: int| 0 <= i < after.len() && !(#[trigger] after[i]).is_dir implies after[i].state
        != SelectionState::PartiallySelected by {
        assert(!nodes[i].is_dir);
    }
}

/// Setting the selection of an item, handing it down and recomputing the
/// ancestors leaves no file partially selected where none was before.
pub proof fn lemma_selection_keeps_files_binary(
    nodes: Seq<Node>,
    idx: int,
    desired: SelectionState,
)
    requires
        well_formed(nodes),
        0 <= idx < nodes.len(),
        files_binary(nodes),
    ensures
        files_binary(spec_refresh(spec_apply_down(nodes, idx, desired), idx)),
{
    let handed = spec_apply_down(nodes, idx, desired);
    lemma_apply_down_keeps_files_binary(nodes, idx, desired);
    lemma_apply_down_shape(nodes, idx, desired);
    let after = spec_refresh(handed, idx);
    lemma_refresh_changes_only_ancestors(handed, idx);
    assert forall|i: int| 0 <= i < after.len() && !(#[trigger] after[i]).is_dir implies after[i].state
        != SelectionState::PartiallySelected by {
        assert(with_state(handed[i], after[i].state) == after[i]);
        lemma_refresh_keeps_files(handed, idx, i);
        assert(!handed[i].is_dir);
    }
}

/// An arena in which nothing is selected is consistent, and no file in it
/// is partially selected.
pub proof fn lemma_unselected_is_consistent(nodes: Seq<Node>)
    requires
        forall|i: int| 0 <= i < nodes.len() ==> (#[trigger] nodes[i]).state
            == SelectionState::NotSelected,
        forall|i: int, k: int|
            0 <= i < nodes.len() && 0 <= k < nodes[i].children.len() ==> #[trigger] nodes[i].children[k]
                < nodes.len(),
    ensures
        consistent(nodes),
        files_binary(nodes),
{
    assert forall|d: int| 0 <= d < nodes.len() implies #[trigger] follows_children(nodes, d) by {
        if has_summary(nodes, d) {
            assert(nodes[nodes[d].children[0] as int].state == SelectionState::NotSelected);
            assert(all_children_are(nodes, d, SelectionState::NotSelected));
        }
    }
}

/// Whether two arenas have the same links, the same directories and the
/// same selection states, and so differ in nothing that the selection
/// rules read.
pub open spec fn same_selection(a: Seq<Node>, b: Seq<Node>) -> bool {
    &&& same_links(a, b)
    &&& forall|i: int| 0 <= i < a.len() ==> (#[trigger] a[i]).state == b[i].state
}

/// Expanding or collapsing directories takes nothing from the soundness of
/// the arena: it stays consistent where it was, and no file becomes
/// partially selected.
pub proof fn lemma_same_selection_keeps_rules(a: Seq<Node>, b: Seq<Node>)
    requires
        same_selection(a, b),
        well_formed(a),
    ensures
        well_formed(b),
        consistent(a) ==> consistent(b),
        files_binary(a) ==> files_binary(b),
{
    lemma_same_links_well_formed(a, b);
    if consistent(a) {
        assert forall|d: int| 0 <= d < b.len() implies #[trigger] follows_children(b, d) by {
            assert(follows_children(a, d));
            assert(links_sound(a, d));
            assert(a[d].state == b[d].state);
            lemma_summary_of_same_children(a, b, d);
        }
    }
    if files_binary(a) {
        assert forall|i: int| 0 <= i < b.len() && !(#[trigger] b[i]).is_dir implies b[i].state
            != SelectionState::PartiallySelected by {
            assert(a[i].state == b[i].state);
            assert(!a[i].is_dir);
        }
    }
}

/// Arenas of the same shape have the same links.
pub proof fn lemma_same_shape_links(a: Seq<Node>, b: Seq<Node>)
    requires
        same_shape(a, b),
    ensures
        same_links(a, b),
{
    assert forall|i: int| 0 <= i < a.len() implies {
        &&& (#[trigger] a[i]).parent == b[i].parent
        &&& a[i].children == b[i].children
        &&& a[i].is_dir == b[i].is_dir
    } by {
        assert(with_state(a[i], b[i].state) == b[i]);
    }
}

} // verus!
