//! Which items can be seen: those whose ancestors are all expanded and,
//! while a filter is active, those that match it or have a match below.

use crate::text::{contains_text, is_substring, lowercase, to_lowercase};
use crate::tui::app_state::{nodes_of, Node, SelectableItem};
use crate::tui::forest::{
    in_subtree, lemma_subtree_through_children, lemma_subtree_transitive, links_sound, well_formed,
};
use vstd::prelude::*;
use vstd::string::StrSliceExecFns;

verus! {

/// Whether every ancestor of item `i` is expanded.
pub open spec fn hier_visible(nodes: Seq<Node>, i: int) -> bool
    decreases i,
{
    if 0 <= i < nodes.len() {
        match nodes[i].parent {
            Some(p) => p < i && nodes[p as int].expanded && hier_visible(nodes, p as int),
            None => true,
        }
    } else {
        false
    }
}

/// Whether item `i`, or an item below it, is a hit of the filter.
pub open spec fn filter_visible(nodes: Seq<Node>, hits: Seq<bool>, i: int) -> bool {
    exists|j: int| 0 <= j < nodes.len() && j < hits.len() && in_subtree(nodes, i, j) && hits[j]
}

/// Whether item `i` is in the visible list: all its ancestors are expanded
/// and, while the filter is active, it or an item below it is a hit.
pub open spec fn is_visible(nodes: Seq<Node>, active: bool, hits: Seq<bool>, i: int) -> bool {
    hier_visible(nodes, i) && (active ==> filter_visible(nodes, hits, i))
}

/// The visible items among the first `upto`, in ascending order.
pub open spec fn visible_upto(nodes: Seq<Node>, active: bool, hits: Seq<bool>, upto: int) -> Seq<
    usize,
>
    decreases upto,
{
    if upto <= 0 {
        Seq::empty()
    } else if is_visible(nodes, active, hits, upto - 1) {
        visible_upto(nodes, active, hits, upto - 1).push((upto - 1) as usize)
    } else {
        visible_upto(nodes, active, hits, upto - 1)
    }
}

/// The visible list: the visible items in the order of the arena.
pub open spec fn visible_list(nodes: Seq<Node>, active: bool, hits: Seq<bool>) -> Seq<usize> {
    visible_upto(nodes, active, hits, nodes.len() as int)
}

/// For every item, whether its label holds `needle` when case is ignored;
/// `needle` is taken to be in lower case already.
pub open spec fn spec_label_hits(nodes: Seq<Node>, needle: Seq<char>) -> Seq<bool> {
    Seq::new(nodes.len(), |i: int| is_substring(lowercase(nodes[i].label), needle))
}

/// The visible list under the filter text `filter`: the filter is active
/// when the text is not empty, and its hits are the labels that hold it
/// when case is ignored.
pub open spec fn visible_under_filter(nodes: Seq<Node>, filter: Seq<char>) -> Seq<usize> {
    visible_list(nodes, filter.len() > 0, spec_label_hits(nodes, lowercase(filter)))
}

/// The visible items among the first `upto` are exactly the visible
/// indices below `upto`, each once and in ascending order.
pub proof fn lemma_visible_upto(nodes: Seq<Node>, active: bool, hits: Seq<bool>, upto: int)
    requires
        0 <= upto <= nodes.len(),
        nodes.len() <= usize::MAX,
    ensures
        visible_upto(nodes, active, hits, upto).len() <= upto,
        forall|k: int|
            0 <= k < visible_upto(nodes, active, hits, upto).len() ==> {
                let i = #[trigger] visible_upto(nodes, active, hits, upto)[k];
                i < upto && is_visible(nodes, active, hits, i as int)
            },
        forall|k: int, l: int|
            0 <= k < l < visible_upto(nodes, active, hits, upto).len() ==> #[trigger] visible_upto(
                nodes,
                active,
                hits,
                upto,
            )[k] < #[trigger] visible_upto(nodes, active, hits, upto)[l],
        forall|i: int|
            0 <= i < upto && is_visible(nodes, active, hits, i) ==> visible_upto(
                nodes,
                active,
                hits,
                upto,
            ).contains(i as usize),
    decreases upto,
{
    if upto > 0 {
        lemma_visible_upto(nodes, active, hits, upto - 1);
        let shorter = visible_upto(nodes, active, hits, upto - 1);
        let list = visible_upto(nodes, active, hits, upto);
        assert forall|i: int| 0 <= i < upto && is_visible(nodes, active, hits, i) implies list.contains(
            i as usize,
        ) by {
            if i < upto - 1 {
                let k = choose|k: int| 0 <= k < shorter.len() && shorter[k] == i as usize;
                assert(list[k] == i as usize);
            } else {
                assert(list[list.len() - 1] == i as usize);
            }
        }
    }
}

/// The visible list holds exactly the visible items, each once and in
/// ascending order.
pub proof fn lemma_visible_list(nodes: Seq<Node>, active: bool, hits: Seq<bool>)
    requires
        nodes.len() <= usize::MAX,
    ensures
        visible_list(nodes, active, hits).len() <= nodes.len(),
        forall|k: int|
            0 <= k < visible_list(nodes, active, hits).len() ==> {
                let i = #[trigger] visible_list(nodes, active, hits)[k];
                i < nodes.len() && is_visible(nodes, active, hits, i as int)
            },
        forall|k: int, l: int|
            0 <= k < l < visible_list(nodes, active, hits).len() ==> #[trigger] visible_list(
                nodes,
                active,
                hits,
            )[k] < #[trigger] visible_list(nodes, active, hits)[l],
        forall|i: int|
            0 <= i < nodes.len() && is_visible(nodes, active, hits, i) ==> visible_list(
                nodes,
                active,
                hits,
            ).contains(i as usize),
{
    lemma_visible_upto(nodes, active, hits, nodes.len() as int);
}

/// Tells whether every ancestor of item `item_idx` is expanded. An index
/// outside the arena is not visible.
pub fn is_item_visible_recursive(items: &[SelectableItem], item_idx: usize) -> (visible: bool)
    requires
        well_formed(nodes_of(items@)),
    ensures
        visible == hier_visible(nodes_of(items@), item_idx as int),
    decreases item_idx,
{
    if item_idx >= items.len() {
        return false;
    }
    assert(links_sound(nodes_of(items@), item_idx as int));
    match items[item_idx].parent_index {
        None => true,
        Some(parent_idx) => items[parent_idx].is_expanded && is_item_visible_recursive(
            items,
            parent_idx,
        ),
    }
}

/// Tells whether item `item_idx` or an item below it is a hit.
pub fn item_matches_filter_or_has_matching_descendant(
    items: &[SelectableItem],
    hits: &[bool],
    item_idx: usize,
) -> (found: bool)
    requires
        well_formed(nodes_of(items@)),
        hits@.len() == items@.len(),
    ensures
        found == (item_idx < items@.len() && filter_visible(
            nodes_of(items@),
            hits@,
            item_idx as int,
        )),
    decreases items@.len() - item_idx,
{
    let ghost nodes = nodes_of(items@);
    if item_idx >= items.len() {
        return false;
    }
    if hits[item_idx] {
        assert(in_subtree(nodes, item_idx as int, item_idx as int));
        return true;
    }
    assert(links_sound(nodes, item_idx as int));
    proof {
        lemma_subtree_through_children(nodes, item_idx as int);
    }
    let item = &items[item_idx];
    let count = item.children_indices.len();
    let mut k: usize = 0;
    while k < count
        invariant
            k <= count,
            item_idx < items@.len() == hits@.len(),
            nodes == nodes_of(items@),
            well_formed(nodes),
            *item == items@[item_idx as int],
            count == nodes[item_idx as int].children.len(),
            forall|m: int|
                0 <= m < k ==> !filter_visible(
                    nodes,
                    hits@,
                    #[trigger] nodes[item_idx as int].children[m] as int,
                ),
        decreases count - k,
    {
        let child_idx = item.children_indices[k];
        assert(links_sound(nodes, item_idx as int));
        if item_matches_filter_or_has_matching_descendant(items, hits, child_idx) {
            proof {
                let j = choose|j: int|
                    0 <= j < nodes.len() && j < hits@.len() && in_subtree(nodes, child_idx as int, j)
                        && hits@[j];
                assert(in_subtree(nodes, item_idx as int, item_idx as int));
                assert(in_subtree(nodes, item_idx as int, child_idx as int));
                lemma_subtree_transitive(nodes, item_idx as int, child_idx as int, j);
            }
            return true;
        }
        k += 1;
    }
    proof {
        if filter_visible(nodes, hits@, item_idx as int) {
            let j = choose|j: int|
                0 <= j < nodes.len() && j < hits@.len() && in_subtree(nodes, item_idx as int, j)
                    && hits@[j];
            let m = choose|m: int|
                0 <= m < nodes[item_idx as int].children.len() && in_subtree(
                    nodes,
                    #[trigger] nodes[item_idx as int].children[m] as int,
                    j,
                );
            assert(filter_visible(nodes, hits@, nodes[item_idx as int].children[m] as int));
        }
    }
    false
}

/// For every item, tells whether its label holds `lower_filter` when the
/// case of the label is ignored.
pub fn label_hits(items: &[SelectableItem], lower_filter: &str) -> (hits: Vec<bool>)
    ensures
        hits@ == spec_label_hits(nodes_of(items@), lower_filter@),
{
    let n = items.len();
    let mut hits: Vec<bool> = Vec::new();
    let mut i: usize = 0;
    while i < n
        invariant
            i <= n == items@.len(),
            hits@.len() == i,
            forall|k: int|
                0 <= k < i ==> #[trigger] hits@[k] == is_substring(
                    lowercase(nodes_of(items@)[k].label),
                    lower_filter@,
                ),
        decreases n - i,
    {
        let lowered = to_lowercase(items[i].display_text.as_str());
        hits.push(contains_text(lowered.as_str(), lower_filter));
        i += 1;
    }
    assert(hits@ =~= spec_label_hits(nodes_of(items@), lower_filter@));
    hits
}

/// Collects the visible list for given hits of the filter.
pub fn visible_indices(items: &[SelectableItem], filter_active: bool, hits: &[bool]) -> (visible:
    Vec<usize>)
    requires
        well_formed(nodes_of(items@)),
        hits@.len() == items@.len(),
    ensures
        visible@ == visible_list(nodes_of(items@), filter_active, hits@),
        forall|k: int| 0 <= k < visible@.len() ==> #[trigger] visible@[k] < items@.len(),
{
    let ghost nodes = nodes_of(items@);
    let n = items.len();
    let mut visible: Vec<usize> = Vec::new();
    let mut i: usize = 0;
    while i < n
        invariant
            i <= n == items@.len(),
            nodes == nodes_of(items@),
            well_formed(nodes),
            hits@.len() == n,
            visible@ == visible_upto(nodes, filter_active, hits@, i as int),
            forall|k: int| 0 <= k < visible@.len() ==> #[trigger] visible@[k] < i,
        decreases n - i,
    {
        if is_item_visible_recursive(items, i) {
            if filter_active {
                if item_matches_filter_or_has_matching_descendant(items, hits, i) {
                    visible.push(i);
                }
            } else {
                visible.push(i);
            }
        }
        i += 1;
    }
    visible
}

/// Whether a filter is active and, for every item, whether it is a hit.
pub fn filter_hits(items: &[SelectableItem], filter: &str) -> (result: (bool, Vec<bool>))
    ensures
        result.0 == (filter@.len() > 0),
        result.1@ == spec_label_hits(nodes_of(items@), lowercase(filter@)),
{
    let lower_filter = to_lowercase(filter);
    let hits = label_hits(items, lower_filter.as_str());
    (filter.unicode_len() > 0, hits)
}

/// Every ancestor of an item whose ancestors are all expanded has all its
/// own ancestors expanded too.
pub proof fn lemma_ancestors_of_shown_are_shown(nodes: Seq<Node>, a: int, i: int)
    requires
        hier_visible(nodes, i),
        in_subtree(nodes, a, i),
    ensures
        hier_visible(nodes, a),
    decreases i,
{
    if i != a {
        lemma_ancestors_of_shown_are_shown(nodes, a, nodes[i].parent->0 as int);
    }
}

/// A hit makes every item above it filter-visible, whether or not the
/// labels of those items match.
pub proof fn lemma_hit_shows_ancestors(nodes: Seq<Node>, hits: Seq<bool>, a: int, i: int)
    requires
        filter_visible(nodes, hits, i),
        in_subtree(nodes, a, i),
    ensures
        filter_visible(nodes, hits, a),
{
    let j = choose|j: int|
        0 <= j < nodes.len() && j < hits.len() && in_subtree(nodes, i, j) && hits[j];
    lemma_subtree_transitive(nodes, a, i, j);
}

/// Whatever is in the visible list brings all its ancestors into the list.
pub proof fn lemma_visible_item_shows_ancestors(
    nodes: Seq<Node>,
    active: bool,
    hits: Seq<bool>,
    a: int,
    i: int,
)
    requires
        nodes.len() <= usize::MAX,
        0 <= a,
        0 <= i < nodes.len(),
        visible_list(nodes, active, hits).contains(i as usize),
        in_subtree(nodes, a, i),
    ensures
        a <= i,
        visible_list(nodes, active, hits).contains(a as usize),
{
    lemma_visible_list(nodes, active, hits);
    let list = visible_list(nodes, active, hits);
    let k = choose|k: int| 0 <= k < list.len() && list[k] == i as usize;
    assert(is_visible(nodes, active, hits, list[k] as int));
    crate::tui::forest::lemma_subtree_is_later(nodes, a, i);
    lemma_ancestors_of_shown_are_shown(nodes, a, i);
    if active {
        lemma_hit_shows_ancestors(nodes, hits, a, i);
    }
    assert(is_visible(nodes, active, hits, a));
}

/// While no filter is active the hits play no part in the visible list.
pub proof fn lemma_inactive_filter_ignores_hits(
    nodes: Seq<Node>,
    hits: Seq<bool>,
    others: Seq<bool>,
    upto: int,
)
    ensures
        visible_upto(nodes, false, hits, upto) == visible_upto(nodes, false, others, upto),
    decreases upto,
{
    if upto > 0 {
        lemma_inactive_filter_ignores_hits(nodes, hits, others, upto - 1);
    }
}

/// With the filter text cleared, the visible list is exactly the list of
/// the items whose ancestors are all expanded, whatever was filtered for
/// before.
pub proof fn lemma_cleared_filter_restores_hierarchy(nodes: Seq<Node>, hits: Seq<bool>)
    requires
        nodes.len() <= usize::MAX,
    ensures
        visible_under_filter(nodes, Seq::empty()) == visible_list(nodes, false, hits),
        forall|i: int|
            0 <= i < nodes.len() ==> (visible_under_filter(nodes, Seq::empty()).contains(
                i as usize,
            ) <==> #[trigger] hier_visible(nodes, i)),
{
    let cleared = visible_under_filter(nodes, Seq::empty());
    let empty_hits = spec_label_hits(nodes, lowercase(Seq::empty()));
    lemma_inactive_filter_ignores_hits(nodes, empty_hits, hits, nodes.len() as int);
    lemma_visible_list(nodes, false, empty_hits);
    assert forall|i: int| 0 <= i < nodes.len() implies (cleared.contains(i as usize)
        <==> #[trigger] hier_visible(nodes, i)) by {
        if cleared.contains(i as usize) {
            let k = choose|k: int| 0 <= k < cleared.len() && cleared[k] == i as usize;
            assert(is_visible(nodes, false, empty_hits, cleared[k] as int));
        }
        if hier_visible(nodes, i) {
            assert(is_visible(nodes, false, empty_hits, i));
        }
    }
}

} // verus!
