//! Around the interactive selection: what it shows, what starts out
//! selected, and what is taken from it in the end.

use crate::globs::Glob;
use crate::listing::{
    all_split, entry_values, gathered, has_path, paths_with_ancestors, sorted_set_of, spec_entry,
    spec_known_kind, PathEntry, PathEntryView, PathSet,
};
use crate::paths::{path_parts, PartView, SplitPath};
use crate::tui::app_logic::{
    apply_state_and_propagate_down_vec, update_all_parent_states_from_child_vec,
};
use crate::tui::app_state::{nodes_of, Node, SelectableItem, SelectionState};
use crate::tui::forest::{
    consistent, lemma_same_shape_chain, lemma_selection_stays_consistent, same_shape, well_formed,
};
use crate::tui::session::selection_set;
use crate::workflow::candidates::{file_matches, spec_file_matches};
use crate::workflow::headless::{files_of, files_upto, lemma_files_upto};
use vstd::prelude::*;

verus! {

/// The arena after each of the first `count` listed items has been fully
/// selected, with all below it, and its ancestors recomputed. An index
/// outside the arena is passed over.
pub open spec fn preselected(nodes: Seq<Node>, matched: Seq<usize>, count: int) -> Seq<Node>
    decreases count,
{
    if count <= 0 {
        nodes
    } else {
        let before = preselected(nodes, matched, count - 1);
        let i = matched[count - 1] as int;
        if i < before.len() {
            selection_set(before, i, SelectionState::FullySelected)
        } else {
            before
        }
    }
}

/// Fully selects each of the listed items, with all below it, and
/// recomputes its ancestors.
pub fn preselect(items: &mut [SelectableItem], matched: &[usize])
    requires
        well_formed(nodes_of(old(items)@)),
    ensures
        nodes_of(final(items)@) == preselected(
            nodes_of(old(items)@),
            matched@,
            matched@.len() as int,
        ),
        well_formed(nodes_of(final(items)@)),
        same_shape(nodes_of(old(items)@), nodes_of(final(items)@)),
        consistent(nodes_of(old(items)@)) ==> consistent(nodes_of(final(items)@)),
{
    let ghost start = nodes_of(items@);
    let n = matched.len();
    let mut k: usize = 0;
    while k < n
        invariant
            k <= n == matched@.len(),
            start == nodes_of(old(items)@),
            nodes_of(items@) == preselected(start, matched@, k as int),
            well_formed(nodes_of(items@)),
            same_shape(start, nodes_of(items@)),
            consistent(start) ==> consistent(nodes_of(items@)),
        decreases n - k,
    {
        let item_idx = matched[k];
        let ghost before = nodes_of(items@);
        if item_idx < items.len() {
            proof {
                if consistent(before) {
                    lemma_selection_stays_consistent(
                        before,
                        item_idx as int,
                        SelectionState::FullySelected,
                    );
                }
            }
            apply_state_and_propagate_down_vec(items, item_idx, SelectionState::FullySelected);
            let ghost handed = nodes_of(items@);
            update_all_parent_states_from_child_vec(items, item_idx);
            proof {
                lemma_same_shape_chain(before, handed, nodes_of(items@));
                lemma_same_shape_chain(start, before, nodes_of(items@));
            }
        }
        k += 1;
    }
}

/// The files of the arena among the first `upto` items that the patterns
/// let through, by index and in order.
pub open spec fn matched_upto(
    nodes: Seq<Node>,
    patterns: Seq<Glob>,
    root_text: Seq<char>,
    upto: int,
) -> Seq<usize>
    decreases upto,
{
    if upto <= 0 {
        Seq::empty()
    } else if !nodes[upto - 1].is_dir && spec_file_matches(
        patterns,
        nodes[upto - 1].path,
        root_text,
        path_parts(root_text),
    ) {
        matched_upto(nodes, patterns, root_text, upto - 1).push((upto - 1) as usize)
    } else {
        matched_upto(nodes, patterns, root_text, upto - 1)
    }
}

/// Finds the files of the arena that the patterns let through.
pub fn preselection_matches(items: &[SelectableItem], root_text: &str, patterns: &[Glob]) -> (matched:
    Vec<usize>)
    ensures
        matched@ == matched_upto(nodes_of(items@), patterns@, root_text@, items@.len() as int),
{
    let root = SplitPath::new(root_text);
    let ghost nodes = nodes_of(items@);
    let n = items.len();
    let mut matched: Vec<usize> = Vec::new();
    let mut i: usize = 0;
    while i < n
        invariant
            i <= n == items@.len(),
            nodes == nodes_of(items@),
            root@ == path_parts(root_text@),
            matched@ == matched_upto(nodes, patterns@, root_text@, i as int),
        decreases n - i,
    {
        if !items[i].is_dir && file_matches(patterns, items[i].path.as_str(), root_text, &root) {
            matched.push(i);
        }
        i += 1;
    }
    matched
}

/// Which items are picked out of the arena.
#[derive(Debug, Clone, Copy, PartialEq, Eq, Structural)]
pub enum Pick {
    /// The files that are fully selected.
    Taken,
    /// The items that are selected, fully or in part.
    Marked,
}

/// The entries of the items among the first `upto` that `wanted` picks, in
/// order.
pub open spec fn picked_upto(nodes: Seq<Node>, wanted: Pick, upto: int) -> Seq<PathEntryView>
    decreases upto,
{
    if upto <= 0 {
        Seq::empty()
    } else if picks(wanted, nodes[upto - 1]) {
        picked_upto(nodes, wanted, upto - 1).push(
            spec_entry(nodes[upto - 1].path, nodes[upto - 1].is_dir),
        )
    } else {
        picked_upto(nodes, wanted, upto - 1)
    }
}

/// Whether `wanted` picks an item.
pub open spec fn picks(wanted: Pick, node: Node) -> bool {
    match wanted {
        Pick::Taken => is_taken(node),
        Pick::Marked => is_marked(node),
    }
}

/// Whether an item is a file that is fully selected.
pub open spec fn is_taken(node: Node) -> bool {
    !node.is_dir && node.state == SelectionState::FullySelected
}

/// Whether an item is selected, fully or in part.
pub open spec fn is_marked(node: Node) -> bool {
    node.state == SelectionState::FullySelected || node.state
        == SelectionState::PartiallySelected
}

/// The files that the selection takes: the files of the arena that are
/// fully selected, in the order of the arena.
pub fn taken_files(items: &[SelectableItem]) -> (files: Vec<PathEntry>)
    ensures
        entry_values(files@) == picked_upto(
            nodes_of(items@),
            Pick::Taken,
            items@.len() as int,
        ),
{
    let ghost nodes = nodes_of(items@);
    let n = items.len();
    let mut files: Vec<PathEntry> = Vec::new();
    let mut i: usize = 0;
    while i < n
        invariant
            i <= n == items@.len(),
            nodes == nodes_of(items@),
            entry_values(files@) == picked_upto(nodes, Pick::Taken, i as int),
        decreases n - i,
    {
        let taken = !items[i].is_dir && match items[i].state {
            SelectionState::FullySelected => true,
            _ => false,
        };
        if taken {
            let ghost before = entry_values(files@);
            files.push(PathEntry::new(items[i].path.clone(), items[i].is_dir));
            assert(entry_values(files@) =~= before.push(
                spec_entry(nodes[i as int].path, nodes[i as int].is_dir),
            ));
        }
        i += 1;
    }
    files
}

/// The items that the summary tree is drawn from: those that are selected,
/// fully or in part, in the order of the arena.
pub fn marked_items(items: &[SelectableItem]) -> (marked: Vec<PathEntry>)
    ensures
        entry_values(marked@) == picked_upto(
            nodes_of(items@),
            Pick::Marked,
            items@.len() as int,
        ),
{
    let ghost nodes = nodes_of(items@);
    let n = items.len();
    let mut marked: Vec<PathEntry> = Vec::new();
    let mut i: usize = 0;
    while i < n
        invariant
            i <= n == items@.len(),
            nodes == nodes_of(items@),
            entry_values(marked@) == picked_upto(nodes, Pick::Marked, i as int),
        decreases n - i,
    {
        let is_marked = match items[i].state {
            SelectionState::NotSelected => false,
            _ => true,
        };
        if is_marked {
            let ghost before = entry_values(marked@);
            marked.push(PathEntry::new(items[i].path.clone(), items[i].is_dir));
            assert(entry_values(marked@) =~= before.push(
                spec_entry(nodes[i as int].path, nodes[i as int].is_dir),
            ));
        }
        i += 1;
    }
    marked
}

/// The files that an interactive selection takes, in the order of their
/// paths and each path once.
pub fn selected_files(items: &[SelectableItem]) -> (files: PathSet)
    ensures
        sorted_set_of(files@, picked_upto(nodes_of(items@), Pick::Taken, items@.len() as int)),
{
    PathSet::new(taken_files(items))
}

/// The contents of a list of paths with their directory flags.
pub open spec fn pair_views(pairs: Seq<(String, bool)>) -> Seq<(Seq<char>, bool)> {
    Seq::new(pairs.len(), |i: int| (pairs[i].0@, pairs[i].1))
}

/// The paths among the first `upto` that can be shown: those that the
/// candidates know, each as what the candidates know it to be, and the
/// root where it is a directory.
pub open spec fn shown_upto(
    all: Seq<PathEntryView>,
    known: Seq<PathEntryView>,
    root: Seq<PartView>,
    root_is_dir: bool,
    upto: int,
) -> Seq<(Seq<char>, bool)>
    decreases upto,
{
    if upto <= 0 {
        Seq::empty()
    } else {
        let entry = all[upto - 1];
        let before = shown_upto(all, known, root, root_is_dir, upto - 1);
        match spec_known_kind(known, entry.parts) {
            Some(is_dir) => before.push((entry.text, is_dir)),
            None => if root_is_dir && entry.parts == root {
                before.push((entry.text, true))
            } else {
                before
            },
        }
    }
}

/// Picks out of `all` the paths that can be shown.
pub fn shown_paths(all: &[PathEntry], known: &PathSet, root: &SplitPath, root_is_dir: bool) -> (shown:
    Vec<(String, bool)>)
    ensures
        pair_views(shown@) == shown_upto(
            entry_values(all@),
            known@,
            root@,
            root_is_dir,
            all@.len() as int,
        ),
{
    let ghost values = entry_values(all@);
    let ghost knowns = known@;
    let n = all.len();
    let mut shown: Vec<(String, bool)> = Vec::new();
    let mut i: usize = 0;
    while i < n
        invariant
            i <= n == all@.len(),
            values == entry_values(all@),
            knowns == known@,
            pair_views(shown@) == shown_upto(values, knowns, root@, root_is_dir, i as int),
        decreases n - i,
    {
        let ghost before = pair_views(shown@);
        match known.kind_of(&all[i].split) {
            Some(is_dir) => {
                shown.push((all[i].text.clone(), is_dir));
                assert(pair_views(shown@) =~= before.push((values[i as int].text, is_dir)));
            },
            None => {
                if root_is_dir && all[i].split.same_as(root) {
                    shown.push((all[i].text.clone(), true));
                    assert(pair_views(shown@) =~= before.push((values[i as int].text, true)));
                }
            },
        }
        i += 1;
    }
    shown
}

/// Whether some entry lies at or under the root.
pub open spec fn any_under(entries: Seq<PathEntryView>, root: Seq<PartView>) -> bool {
    exists|i: int| 0 <= i < entries.len() && root.is_prefix_of((#[trigger] entries[i]).parts)
}

/// Tells whether some entry lies at or under the root.
pub fn has_entry_under(entries: &[PathEntry], root: &SplitPath) -> (yes: bool)
    ensures
        yes == any_under(entry_values(entries@), root@),
{
    let n = entries.len();
    let mut i: usize = 0;
    while i < n
        invariant
            i <= n == entries@.len(),
            forall|k: int| 0 <= k < i ==> !root@.is_prefix_of((#[trigger] entry_values(entries@)[k]).parts),
        decreases n - i,
    {
        if entries[i].split.starts_with(root) {
            assert(root@.is_prefix_of(entry_values(entries@)[i as int].parts));
            return true;
        }
        i += 1;
    }
    false
}

/// Whether the root is shown with the files: it is a directory, and either
/// there are no files at all or a file or one of its ancestors lies at or
/// under it.
pub open spec fn shows_root(files: Seq<PathEntryView>, root_text: Seq<char>, root_is_dir: bool) -> bool {
    let bare = gathered(files, root_text, false, files.len() as int);
    root_is_dir && (bare.len() == 0 || any_under(bare, path_parts(root_text)))
}

/// The result of laying out what the interactive selection shows.
pub struct DisplayPlan {
    /// The candidate files and their ancestors, with the root where it
    /// belongs, in the order of their paths and each path once.
    pub gathered: PathSet,
    /// Those of them that can be shown, each with its directory flag.
    pub shown: Vec<(String, bool)>,
}

/// Lays out what the interactive selection shows: the candidate files and
/// their ancestors at or under the root, as far as the candidates know
/// them, and the root where it is a directory and anything lies under it
/// or there is nothing at all.
pub fn display_paths(candidates: &PathSet, root_text: &str, root_is_dir: bool) -> (display:
    DisplayPlan)
    ensures
        all_split(candidates@) ==> all_split(display.gathered@),
        sorted_set_of(
            display.gathered@,
            gathered(
                files_upto(candidates@, candidates@.len() as int),
                root_text@,
                shows_root(
                    files_upto(candidates@, candidates@.len() as int),
                    root_text@,
                    root_is_dir,
                ),
                files_upto(candidates@, candidates@.len() as int).len() as int,
            ),
        ),
        pair_views(display.shown@) == shown_upto(
            display.gathered@,
            candidates@,
            path_parts(root_text@),
            root_is_dir,
            display.gathered@.len() as int,
        ),
{
    let root = SplitPath::new(root_text);
    let files = files_of(candidates.as_slice());
    proof {
        let values = candidates@;
        lemma_files_upto(values, values.len() as int);
        if all_split(values) {
            assert forall|k: int| 0 <= k < entry_values(files@).len() implies (
            #[trigger] entry_values(files@)[k]).parts == path_parts(
                entry_values(files@)[k].text,
            ) by {
                let file = entry_values(files@)[k];
                let x = choose|x: int| 0 <= x < values.len() && values[x] == file;
                assert(values[x].parts == path_parts(values[x].text));
            }
        }
    }
    let bare = paths_with_ancestors(files.as_slice(), root_text, false);
    let with_root = root_is_dir && (bare.is_empty() || has_entry_under(bare.as_slice(), &root));
    proof {
        let seeds = entry_values(files@);
        let wanted = gathered(seeds, root_text@, false, seeds.len() as int);
        let sorted = bare@;
        if wanted.len() > 0 {
            assert(has_path(sorted, wanted[0].parts));
        }
        if sorted.len() > 0 {
            assert(wanted.contains(sorted[0]));
        }
        if any_under(wanted, root@) {
            let i = choose|i: int|
                0 <= i < wanted.len() && root@.is_prefix_of((#[trigger] wanted[i]).parts);
            assert(has_path(sorted, wanted[i].parts));
            let k = choose|k: int|
                0 <= k < sorted.len() && (#[trigger] sorted[k]).parts == wanted[i].parts;
            assert(root@.is_prefix_of(sorted[k].parts));
        }
        if any_under(sorted, root@) {
            let k = choose|k: int|
                0 <= k < sorted.len() && root@.is_prefix_of((#[trigger] sorted[k]).parts);
            assert(wanted.contains(sorted[k]));
            let i = choose|i: int| 0 <= i < wanted.len() && wanted[i] == sorted[k];
            assert(root@.is_prefix_of(wanted[i].parts));
        }
        assert(with_root == shows_root(seeds, root_text@, root_is_dir));
    }
    let gathered = if with_root {
        paths_with_ancestors(files.as_slice(), root_text, true)
    } else {
        bare
    };
    let shown = shown_paths(gathered.as_slice(), candidates, &root, root_is_dir);
    DisplayPlan { gathered, shown }
}

} // verus!
