//! Building the arena from a flat, ordered list of paths: one item for each
//! path, linked to the directory that holds it where that directory comes
//! earlier in the list.

use crate::paths::{
    last_index_of_path, lemma_last_index_of_path, parents_before, path_parts, spec_parent,
    spec_parent_before, split_views, PartView, SplitPath,
};
use crate::text::string_views;
use crate::tui::app_state::{nodes_of, Node, SelectableItem, SelectionState};
use crate::tui::forest::{
    consistent, files_binary, lemma_unselected_is_consistent, links_sound, well_formed,
};
use crate::utils::index_value;
use vstd::prelude::*;

verus! {

/// The item to which the path at position `i` is linked as a child: the
/// last earlier item that holds its parent path, provided that the path is
/// not the root, that its parent lies at or under the root, and that the
/// item found is a directory. Any other path starts a tree of its own.
pub open spec fn spec_parent_link(
    splits: Seq<Seq<PartView>>,
    dirs: Seq<bool>,
    root: Seq<PartView>,
    i: int,
) -> Option<usize> {
    match spec_parent(splits[i]) {
        Some(parent) => if splits[i] != root && root.is_prefix_of(parent) {
            match last_index_of_path(splits, parent, i) {
                Some(j) => if dirs[j] {
                    Some(j as usize)
                } else {
                    None
                },
                None => None,
            }
        } else {
            None
        },
        None => None,
    }
}

/// The parent links of the first `count` paths.
pub open spec fn spec_links(
    splits: Seq<Seq<PartView>>,
    dirs: Seq<bool>,
    root: Seq<PartView>,
    count: int,
) -> Seq<Option<usize>> {
    Seq::new(count as nat, |i: int| spec_parent_link(splits, dirs, root, i))
}

/// Whether the link at position `c` points to position `p`.
pub open spec fn links_to(links: Seq<Option<usize>>, c: int, p: int) -> bool {
    links[c] is Some && links[c]->0 == p
}

/// The positions below `upto` whose link points to `p`, in ascending order.
pub open spec fn children_upto(links: Seq<Option<usize>>, p: int, upto: int) -> Seq<usize>
    decreases upto,
{
    if upto <= 0 {
        Seq::empty()
    } else if links_to(links, upto - 1, p) {
        children_upto(links, p, upto - 1).push((upto - 1) as usize)
    } else {
        children_upto(links, p, upto - 1)
    }
}

/// The arena in which the first `upto` links are made: every item carries
/// its path, its label and whether it is a directory, a directory starts
/// expanded, and nothing is selected.
pub open spec fn arena_linked_upto(
    texts: Seq<Seq<char>>,
    dirs: Seq<bool>,
    labels: Seq<Seq<char>>,
    links: Seq<Option<usize>>,
    upto: int,
) -> Seq<Node> {
    Seq::new(
        links.len(),
        |i: int|
            Node {
                path: texts[i],
                label: labels[i],
                is_dir: dirs[i],
                expanded: dirs[i],
                state: SelectionState::NotSelected,
                children: children_upto(links, i, upto),
                parent: if i < upto {
                    links[i]
                } else {
                    None
                },
            },
    )
}

/// The arena with all its links made.
pub open spec fn spec_arena(
    texts: Seq<Seq<char>>,
    dirs: Seq<bool>,
    labels: Seq<Seq<char>>,
    links: Seq<Option<usize>>,
) -> Seq<Node> {
    arena_linked_upto(texts, dirs, labels, links, links.len() as int)
}

/// The texts of a list of paths.
pub open spec fn path_texts(paths: Seq<(String, bool)>) -> Seq<Seq<char>> {
    Seq::new(paths.len(), |i: int| paths[i].0@)
}

/// For every path of a list, whether it is a directory.
pub open spec fn dir_flags(paths: Seq<(String, bool)>) -> Seq<bool> {
    Seq::new(paths.len(), |i: int| paths[i].1)
}

/// The components of every path of a list.
pub open spec fn split_texts(paths: Seq<(String, bool)>) -> Seq<Seq<PartView>> {
    Seq::new(paths.len(), |i: int| path_parts(paths[i].0@))
}

/// The smaller of two lengths.
pub open spec fn shorter(a: nat, b: nat) -> nat {
    if a <= b {
        a
    } else {
        b
    }
}

/// The children listed for a position are exactly the positions below the
/// bound that link to it, each once and in ascending order.
pub proof fn lemma_children_upto(links: Seq<Option<usize>>, p: int, upto: int)
    requires
        0 <= upto <= links.len(),
        links.len() <= usize::MAX,
    ensures
        forall|k: int|
            0 <= k < children_upto(links, p, upto).len() ==> {
                let c = #[trigger] children_upto(links, p, upto)[k];
                c < upto && links_to(links, c as int, p)
            },
        forall|k: int, l: int|
            0 <= k < l < children_upto(links, p, upto).len() ==> #[trigger] children_upto(
                links,
                p,
                upto,
            )[k] < #[trigger] children_upto(links, p, upto)[l],
        forall|c: int|
            0 <= c < upto && links_to(links, c, p) ==> exists|k: int|
                0 <= k < children_upto(links, p, upto).len() && #[trigger] children_upto(
                    links,
                    p,
                    upto,
                )[k] == c,
    decreases upto,
{
    if upto > 0 {
        lemma_children_upto(links, p, upto - 1);
        let before = children_upto(links, p, upto - 1);
        let list = children_upto(links, p, upto);
        assert forall|c: int| 0 <= c < upto && links_to(links, c, p) implies exists|k: int|
            0 <= k < list.len() && #[trigger] list[k] == c by {
            if c < upto - 1 {
                let k = choose|k: int| 0 <= k < before.len() && #[trigger] before[k] == c;
                assert(list[k] == c);
            } else {
                assert(list[list.len() - 1] == c);
            }
        }
    }
}

/// An arena whose links all point to earlier directories is a sound forest.
pub proof fn lemma_arena_well_formed(
    texts: Seq<Seq<char>>,
    dirs: Seq<bool>,
    labels: Seq<Seq<char>>,
    links: Seq<Option<usize>>,
)
    requires
        links.len() <= usize::MAX,
        links.len() <= dirs.len(),
        forall|i: int|
            0 <= i < links.len() ==> match #[trigger] links[i] {
                Some(p) => p < i && dirs[p as int],
                None => true,
            },
    ensures
        well_formed(spec_arena(texts, dirs, labels, links)),
{
    let arena = spec_arena(texts, dirs, labels, links);
    let n = links.len() as int;
    assert forall|i: int| 0 <= i < arena.len() implies #[trigger] links_sound(arena, i) by {
        lemma_children_upto(links, i, n);
        assert(arena[i].children == children_upto(links, i, n));
        match links[i] {
            Some(p) => {
                lemma_children_upto(links, p as int, n);
                assert(links_to(links, i, p as int));
                assert(arena[p as int].children == children_upto(links, p as int, n));
                let k = choose|k: int|
                    0 <= k < children_upto(links, p as int, n).len() && #[trigger] children_upto(
                        links,
                        p as int,
                        n,
                    )[k] == i;
                assert(arena[p as int].children[k] == i);
            },
            None => {},
        }
        if !arena[i].is_dir && arena[i].children.len() > 0 {
            let c = arena[i].children[0];
            assert(links_to(links, c as int, i));
        }
        assert forall|k: int| 0 <= k < arena[i].children.len() implies {
            let c = #[trigger] arena[i].children[k];
            i < c < arena.len() && arena[c as int].parent == Some(i as usize)
        } by {
            let c = arena[i].children[k];
            assert(links_to(links, c as int, i));
        }
    }
}

/// Builds the arena for paths that are already split into components.
///
/// One item is made for each position that `paths`, `splits` and
/// `display_labels` all have, where `splits` holds the components of the
/// paths position by position.
pub fn link_items(
    paths: &[(String, bool)],
    splits: &[SplitPath],
    display_labels: &[String],
    root: &SplitPath,
) -> (items: Vec<SelectableItem>)
    ensures
        nodes_of(items@) == spec_arena(
            path_texts(paths@),
            dir_flags(paths@),
            string_views(display_labels@),
            spec_links(
                split_views(splits@),
                dir_flags(paths@),
                root@,
                shorter(shorter(paths@.len(), splits@.len()), display_labels@.len()) as int,
            ),
        ),
        well_formed(nodes_of(items@)),
        consistent(nodes_of(items@)),
        files_binary(nodes_of(items@)),
{
    let mut n = paths.len();
    if splits.len() < n {
        n = splits.len();
    }
    if display_labels.len() < n {
        n = display_labels.len();
    }
    let ghost texts = path_texts(paths@);
    let ghost dirs = dir_flags(paths@);
    let ghost labels = string_views(display_labels@);
    let ghost all = split_views(splits@);
    let ghost links = spec_links(all, dirs, root@, n as int);
    let mut items: Vec<SelectableItem> = Vec::new();
    let mut i: usize = 0;
    while i < n
        invariant
            i <= n,
            n <= paths@.len(),
            n <= display_labels@.len(),
            items@.len() == i,
            forall|k: int|
                0 <= k < i ==> (#[trigger] items@[k])@ == arena_linked_upto(
                    texts,
                    dirs,
                    labels,
                    links,
                    0,
                )[k],
            texts == path_texts(paths@),
            dirs == dir_flags(paths@),
            labels == string_views(display_labels@),
            links.len() == n,
        decreases n - i,
    {
        let is_dir = paths[i].1;
        items.push(
            SelectableItem {
                path: paths[i].0.clone(),
                display_text: display_labels[i].clone(),
                is_dir,
                is_expanded: is_dir,
                state: SelectionState::NotSelected,
                children_indices: Vec::new(),
                parent_index: None,
            },
        );
        i += 1;
    }
    assert(nodes_of(items@) =~= arena_linked_upto(texts, dirs, labels, links, 0));
    let parents = parents_before(splits);
    let mut i: usize = 0;
    while i < n
        invariant
            i <= n,
            n <= paths@.len(),
            n <= splits@.len(),
            items@.len() == n,
            parents@.len() == splits@.len(),
            forall|k: int|
                0 <= k < splits@.len() ==> index_value(#[trigger] parents@[k])
                    == spec_parent_before(all, k),
            nodes_of(items@) == arena_linked_upto(texts, dirs, labels, links, i as int),
            dirs == dir_flags(paths@),
            all == split_views(splits@),
            links == spec_links(all, dirs, root@, n as int),
        decreases n - i,
    {
        let ghost before = nodes_of(items@);
        let mut found: Option<usize> = None;
        if !splits[i].same_as(root) && splits[i].parent_starts_with(root) {
            match parents[i] {
                Some(j) => {
                    proof {
                        lemma_last_index_of_path(all, spec_parent(all[i as int])->0, i as int);
                    }
                    if paths[j].1 {
                        found = Some(j);
                    }
                },
                None => {},
            }
        }
        assert(found == links[i as int]);
        match found {
            Some(j) => {
                items[i].parent_index = Some(j);
                items[j].children_indices.push(i);
            },
            None => {},
        }
        assert(nodes_of(items@) =~= arena_linked_upto(texts, dirs, labels, links, i + 1)) by {
            let after = nodes_of(items@);
            let goal = arena_linked_upto(texts, dirs, labels, links, i + 1);
            assert forall|k: int| 0 <= k < n implies after[k] == goal[k] by {
                assert(before[k] == arena_linked_upto(texts, dirs, labels, links, i as int)[k]);
                assert(after[k].children =~= goal[k].children);
            }
        }
        i += 1;
    }
    proof {
        assert forall|k: int| 0 <= k < links.len() implies match #[trigger] links[k] {
            Some(p) => p < k && dirs[p as int],
            None => true,
        } by {
            match spec_parent(all[k]) {
                Some(parent) => {
                    lemma_last_index_of_path(all, parent, k);
                },
                None => {},
            }
        }
        lemma_arena_well_formed(texts, dirs, labels, links);
        let arena = nodes_of(items@);
        assert forall|i: int, k: int|
            0 <= i < arena.len() && 0 <= k < arena[i].children.len() implies #[trigger] arena[i].children[k]
            < arena.len() by {
            assert(links_sound(arena, i));
        }
        lemma_unselected_is_consistent(arena);
    }
    items
}

/// Builds the arena for a flat, ordered list of paths and their labels:
/// one item for each path that has a label, in the order of the list.
///
/// An item is linked under the last earlier directory that holds its
/// parent path; where there is none, the item starts a tree of its own.
/// Directories start expanded, and nothing is selected.
pub fn prepare_selectable_items(
    initial_items_paths_is_dir: &[(String, bool)],
    display_labels: &[String],
    root_path: &str,
) -> (items: Vec<SelectableItem>)
    ensures
        nodes_of(items@) == spec_arena(
            path_texts(initial_items_paths_is_dir@),
            dir_flags(initial_items_paths_is_dir@),
            string_views(display_labels@),
            spec_links(
                split_texts(initial_items_paths_is_dir@),
                dir_flags(initial_items_paths_is_dir@),
                path_parts(root_path@),
                shorter(initial_items_paths_is_dir@.len(), display_labels@.len()) as int,
            ),
        ),
        well_formed(nodes_of(items@)),
        consistent(nodes_of(items@)),
        files_binary(nodes_of(items@)),
{
    let root = SplitPath::new(root_path);
    let n = initial_items_paths_is_dir.len();
    let mut splits: Vec<SplitPath> = Vec::new();
    let mut i: usize = 0;
    while i < n
        invariant
            i <= n == initial_items_paths_is_dir@.len(),
            splits@.len() == i,
            forall|k: int|
                0 <= k < i ==> (#[trigger] splits@[k])@ == path_parts(
                    initial_items_paths_is_dir@[k].0@,
                ),
        decreases n - i,
    {
        splits.push(SplitPath::new(initial_items_paths_is_dir[i].0.as_str()));
        i += 1;
    }
    assert(split_views(splits@) =~= split_texts(initial_items_paths_is_dir@));
    link_items(initial_items_paths_is_dir, splits.as_slice(), display_labels, &root)
}

/// Tells whether `list` holds `item`.
fn holds_index(list: &Vec<usize>, item: usize) -> (holds: bool)
    ensures
        holds == exists|k: int| 0 <= k < list@.len() && #[trigger] list@[k] == item,
{
    let n = list.len();
    let mut k: usize = 0;
    while k < n
        invariant
            k <= n == list@.len(),
            forall|m: int| 0 <= m < k ==> list@[m] != item,
        decreases n - k,
    {
        if list[k] == item {
            return true;
        }
        k += 1;
    }
    false
}

/// Tells whether the links of item `i` are sound.
fn item_links_sound(items: &[SelectableItem], i: usize) -> (ok: bool)
    requires
        i < items@.len(),
    ensures
        ok == links_sound(nodes_of(items@), i as int),
{
    let ghost nodes = nodes_of(items@);
    let n = items.len();
    let item = &items[i];
    match item.parent_index {
        Some(p) => {
            if p >= i || !items[p].is_dir {
                return false;
            }
            if !holds_index(&items[p].children_indices, i) {
                return false;
            }
            proof {
                let kids = items@[p as int].children_indices@;
                let k = choose|k: int| 0 <= k < kids.len() && #[trigger] kids[k] == i;
                assert(nodes[p as int].children[k] == i);
            }
        },
        None => {},
    }
    let count = item.children_indices.len();
    if !item.is_dir && count != 0 {
        return false;
    }
    let ghost parent_sound = match nodes[i as int].parent {
        Some(p) => p < i && nodes[p as int].is_dir && exists|k: int|
            0 <= k < nodes[p as int].children.len() && #[trigger] nodes[p as int].children[k] == i,
        None => true,
    };
    assert(parent_sound);
    let mut k: usize = 0;
    while k < count
        invariant
            k <= count,
            i < n == items@.len(),
            nodes == nodes_of(items@),
            parent_sound,
            parent_sound == match nodes[i as int].parent {
                Some(p) => p < i && nodes[p as int].is_dir && exists|k: int|
                    0 <= k < nodes[p as int].children.len() && #[trigger] nodes[p as int].children[k]
                        == i,
                None => true,
            },
            !nodes[i as int].is_dir ==> count == 0,
            *item == items@[i as int],
            count == nodes[i as int].children.len(),
            forall|m: int|
                0 <= m < k ==> {
                    let c = #[trigger] nodes[i as int].children[m];
                    i < c < n && nodes[c as int].parent == Some(i)
                },
            forall|a: int, b: int|
                0 <= a < b < k ==> #[trigger] nodes[i as int].children[a]
                    < #[trigger] nodes[i as int].children[b],
        decreases count - k,
    {
        let c = item.children_indices[k];
        if c <= i || c >= n {
            assert(!(i < nodes[i as int].children[k as int] < n));
            return false;
        }
        match items[c].parent_index {
            Some(q) => {
                if q != i {
                    assert(nodes[nodes[i as int].children[k as int] as int].parent != Some(i));
                    return false;
                }
            },
            None => {
                assert(nodes[nodes[i as int].children[k as int] as int].parent != Some(i));
                return false;
            },
        }
        if k > 0 && item.children_indices[k - 1] >= c {
            assert(!(nodes[i as int].children[k - 1] < nodes[i as int].children[k as int]));
            return false;
        }
        k += 1;
    }
    true
}

/// Tells whether an arena is a sound forest: every parent is an earlier
/// directory that lists the item, only directories have children, and the
/// children of each are later items, in ascending order, that name it as
/// their parent.
pub fn is_well_formed(items: &[SelectableItem]) -> (ok: bool)
    ensures
        ok == well_formed(nodes_of(items@)),
{
    let n = items.len();
    let mut i: usize = 0;
    while i < n
        invariant
            i <= n == items@.len(),
            forall|k: int| 0 <= k < i ==> #[trigger] links_sound(nodes_of(items@), k),
        decreases n - i,
    {
        if !item_links_sound(items, i) {
            return false;
        }
        i += 1;
    }
    true
}

} // verus!
