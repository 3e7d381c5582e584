//! Taking every candidate file, without an interactive selection.

use crate::listing::{
    all_split, copy_entry, entry_values, gathered, has_path, paths_with_ancestors, sorted_set_of,
    spec_known_kind, PathEntry, PathEntryView, PathSet,
};
use crate::paths::{path_parts, SplitPath};
use crate::tui::app_state::{nodes_of, Node, SelectableItem, SelectionState};
use crate::tui::forest::{links_sound, well_formed};
use crate::workflow::candidates::scanned;
use vstd::prelude::*;

verus! {

/// The files among the first `upto` entries, in order.
pub open spec fn files_upto(entries: Seq<PathEntryView>, upto: int) -> Seq<PathEntryView>
    decreases upto,
{
    if upto <= 0 {
        Seq::empty()
    } else if entries[upto - 1].is_dir {
        files_upto(entries, upto - 1)
    } else {
        files_upto(entries, upto - 1).push(entries[upto - 1])
    }
}

/// Every file of a list is an entry of the list and not a directory.
pub proof fn lemma_files_upto(entries: Seq<PathEntryView>, upto: int)
    requires
        0 <= upto <= entries.len(),
    ensures
        forall|k: int|
            0 <= k < files_upto(entries, upto).len() ==> {
                let file = #[trigger] files_upto(entries, upto)[k];
                !file.is_dir && entries.contains(file)
            },
    decreases upto,
{
    if upto > 0 {
        lemma_files_upto(entries, upto - 1);
        let before = files_upto(entries, upto - 1);
        let files = files_upto(entries, upto);
        assert forall|k: int| 0 <= k < files.len() implies {
            let file = #[trigger] files[k];
            !file.is_dir && entries.contains(file)
        } by {
            if k < before.len() {
                assert(files[k] == before[k]);
            } else {
                assert(files[k] == entries[upto - 1]);
            }
        }
    }
}

/// Gives the entries of a list of paths, each split into its components.
pub fn entries_of(paths: &[(String, bool)]) -> (entries: Vec<PathEntry>)
    ensures
        entry_values(entries@) == scanned(paths@),
        all_split(entry_values(entries@)),
{
    let n = paths.len();
    let mut entries: Vec<PathEntry> = Vec::new();
    let mut i: usize = 0;
    while i < n
        invariant
            i <= n == paths@.len(),
            entries@.len() == i,
            forall|k: int| 0 <= k < i ==> (#[trigger] entries@[k])@ == scanned(paths@)[k],
        decreases n - i,
    {
        entries.push(PathEntry::new(paths[i].0.clone(), paths[i].1));
        i += 1;
    }
    assert(entry_values(entries@) =~= scanned(paths@));
    entries
}

/// The files of a list, in the order given.
pub fn files_of(entries: &[PathEntry]) -> (files: Vec<PathEntry>)
    ensures
        entry_values(files@) == files_upto(entry_values(entries@), entries@.len() as int),
{
    let ghost all = entry_values(entries@);
    let n = entries.len();
    let mut files: Vec<PathEntry> = Vec::new();
    let mut i: usize = 0;
    while i < n
        invariant
            i <= n == entries@.len(),
            all == entry_values(entries@),
            entry_values(files@) == files_upto(all, i as int),
        decreases n - i,
    {
        if !entries[i].is_dir {
            let ghost before = entry_values(files@);
            files.push(copy_entry(&entries[i]));
            assert(entry_values(files@) =~= before.push(all[i as int]));
        }
        i += 1;
    }
    files
}

/// The files to take when no interactive selection is made: every file
/// among the candidates, in the order of the paths and each path once.
pub fn files_to_yank(candidates: &PathSet) -> (files: PathSet)
    ensures
        sorted_set_of(files@, files_upto(candidates@, candidates@.len() as int)),
{
    PathSet::new(files_of(candidates.as_slice()))
}

/// For every path of `paths`, whether the set `known` knows it, and if so
/// whether as a directory.
pub fn kinds_of(paths: &[PathEntry], known: &PathSet) -> (kinds: Vec<Option<bool>>)
    ensures
        kinds@.len() == paths@.len(),
        forall|i: int|
            0 <= i < paths@.len() ==> #[trigger] kinds@[i] == spec_known_kind(
                known@,
                paths@[i]@.parts,
            ),
{
    let n = paths.len();
    let mut kinds: Vec<Option<bool>> = Vec::new();
    let mut i: usize = 0;
    while i < n
        invariant
            i <= n == paths@.len(),
            kinds@.len() == i,
            forall|j: int|
                0 <= j < i ==> #[trigger] kinds@[j] == spec_known_kind(known@, paths@[j]@.parts),
        decreases n - i,
    {
        kinds.push(known.kind_of(&paths[i].split));
        i += 1;
    }
    kinds
}

/// What is taken when no interactive selection is made.
pub struct HeadlessPlan {
    /// The files to take, in the order of their paths and each path once.
    pub files: PathSet,
    /// The paths of the summary tree: the files, their ancestors at or
    /// under the root, and the root where it is a directory.
    pub tree: PathSet,
    /// For every path of the tree, what the candidates know of it.
    pub kinds: Vec<Option<bool>>,
}

/// Takes every candidate file, without an interactive selection, and lays
/// out the summary tree for them.
pub fn run_headless_mode(candidates: &PathSet, root_text: &str, root_is_dir: bool) -> (plan:
    HeadlessPlan)
    ensures
        sorted_set_of(plan.files@, files_upto(candidates@, candidates@.len() as int)),
        sorted_set_of(
            plan.tree@,
            gathered(plan.files@, root_text@, root_is_dir, plan.files@.len() as int),
        ),
        plan.kinds@.len() == plan.tree@.len(),
        forall|i: int|
            0 <= i < plan.tree@.len() ==> #[trigger] plan.kinds@[i] == spec_known_kind(
                candidates@,
                plan.tree@[i].parts,
            ),
{
    let files = files_to_yank(candidates);
    let tree = paths_with_ancestors(files.as_slice(), root_text, root_is_dir);
    let kinds = kinds_of(tree.as_slice(), candidates);
    HeadlessPlan { files, tree, kinds }
}

/// The state that an entry of the summary tree starts with when no
/// interactive selection is made: a file that is taken is fully selected,
/// a directory is partially selected, any other file is not selected.
pub open spec fn spec_headless_state(is_dir: bool, taken: bool) -> SelectionState {
    if !is_dir && taken {
        SelectionState::FullySelected
    } else if is_dir {
        SelectionState::PartiallySelected
    } else {
        SelectionState::NotSelected
    }
}

/// The item that stands for a path of the summary tree when no interactive
/// selection is made: without a label and without links.
pub open spec fn spec_headless_node(text: Seq<char>, is_dir: bool, taken: bool) -> Node {
    Node {
        path: text,
        label: Seq::empty(),
        is_dir,
        expanded: true,
        state: spec_headless_state(is_dir, taken),
        children: Seq::empty(),
        parent: None,
    }
}

/// Makes the items of the summary tree when no interactive selection is
/// made: one for each path of `tree`, marked by whether the path is among
/// `files`.
pub fn headless_items(tree: &[(String, bool)], files: &PathSet) -> (items: Vec<SelectableItem>)
    ensures
        items@.len() == tree@.len(),
        forall|i: int|
            0 <= i < tree@.len() ==> (#[trigger] items@[i])@ == spec_headless_node(
                tree@[i].0@,
                tree@[i].1,
                has_path(files@, path_parts(tree@[i].0@)),
            ),
        well_formed(nodes_of(items@)),
{
    let n = tree.len();
    let mut items: Vec<SelectableItem> = Vec::new();
    let mut i: usize = 0;
    while i < n
        invariant
            i <= n == tree@.len(),
            items@.len() == i,
            forall|k: int|
                0 <= k < i ==> (#[trigger] items@[k])@ == spec_headless_node(
                    tree@[k].0@,
                    tree@[k].1,
                    has_path(files@, path_parts(tree@[k].0@)),
                ),
        decreases n - i,
    {
        let is_dir = tree[i].1;
        let split = SplitPath::new(tree[i].0.as_str());
        let taken = files.contains(&split);
        let state = if !is_dir && taken {
            SelectionState::FullySelected
        } else if is_dir {
            SelectionState::PartiallySelected
        } else {
            SelectionState::NotSelected
        };
        items.push(
            SelectableItem {
                path: tree[i].0.clone(),
                display_text: String::new(),
                is_dir,
                is_expanded: true,
                state,
                children_indices: Vec::new(),
                parent_index: None,
            },
        );
        proof {
            let made = items@[i as int]@;
            let goal = spec_headless_node(
                tree@[i as int].0@,
                tree@[i as int].1,
                has_path(files@, path_parts(tree@[i as int].0@)),
            );
            assert(made.children =~= goal.children);
            assert(made.label =~= goal.label);
            assert(made == goal);
        }
        i += 1;
    }
    assert forall|k: int| 0 <= k < nodes_of(items@).len() implies #[trigger] links_sound(
        nodes_of(items@),
        k,
    ) by {
        assert(items@[k]@.parent is None);
    }
    items
}

} // verus!
