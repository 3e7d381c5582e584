//! Tree-drawn labels for a flat, ordered list of paths.
//!
//! Every entry but the base gets a branch connector, preceded by one
//! continuation glyph for each displayed ancestor. An entry whose parent is
//! not among the entries before it hangs directly under the base.

use crate::paths::{
    last_index_of_path, lemma_last_index_of_path, path_parts, spec_file_name, spec_is_base,
    spec_parent_or_empty, spec_relative, PartView, SplitPath,
};
use crate::text::string_views;
use crate::utils::index_value;
use vstd::prelude::*;
use vstd::string::StringExecFns;

verus! {

/// One path to draw, relative to the base of the tree.
#[derive(Debug)]
pub struct TreeEntry {
    pub rel: SplitPath,
    pub is_dir: bool,
}

/// The mathematical value of a [`TreeEntry`].
pub struct TreeEntryView {
    pub rel: Seq<PartView>,
    pub is_dir: bool,
}

impl View for TreeEntry {
    type V = TreeEntryView;

    open spec fn view(&self) -> TreeEntryView {
        TreeEntryView { rel: self.rel@, is_dir: self.is_dir }
    }
}

/// The values of a list of entries.
pub open spec fn entry_views(entries: Seq<TreeEntry>) -> Seq<TreeEntryView> {
    Seq::new(entries.len(), |i: int| entries[i]@)
}

/// The label of the base of the tree.
pub open spec fn base_label() -> Seq<char> {
    "./"@
}

/// Connector in front of an entry that has a later sibling.
pub open spec fn tee_glyph() -> Seq<char> {
    "├─ "@
}

/// Connector in front of the last entry among its siblings.
pub open spec fn corner_glyph() -> Seq<char> {
    "└─ "@
}

/// Continuation under an ancestor that has a later sibling.
pub open spec fn bar_glyph() -> Seq<char> {
    "│  "@
}

/// Continuation under an ancestor that is the last among its siblings.
pub open spec fn blank_glyph() -> Seq<char> {
    "   "@
}

/// Mark that ends the label of a directory.
pub open spec fn dir_suffix() -> Seq<char> {
    "/"@
}

/// Name shown for an entry whose path does not end in an ordinary name.
pub open spec fn unnamed() -> Seq<char> {
    "."@
}

/// The paths of a list of entries.
pub open spec fn entry_paths(es: Seq<TreeEntryView>) -> Seq<Seq<PartView>> {
    Seq::new(es.len(), |i: int| es[i].rel)
}

/// The entry that holds the parent path of entry `i`, looked for among the
/// entries before it.
pub open spec fn parent_entry(es: Seq<TreeEntryView>, i: int) -> Option<int> {
    last_index_of_path(entry_paths(es), spec_parent_or_empty(es[i].rel), i)
}

/// The entry under which entry `i` is drawn: its parent entry, unless that
/// is the base or is missing, in which case the entry hangs under the base
/// and has no displayed parent.
pub open spec fn display_parent(es: Seq<TreeEntryView>, i: int) -> Option<int> {
    match parent_entry(es, i) {
        Some(j) => if spec_is_base(es[j].rel) {
            None
        } else {
            Some(j)
        },
        None => None,
    }
}

/// Whether entry `i` takes part in the drawing as a branch.
pub open spec fn is_branch(es: Seq<TreeEntryView>, i: int) -> bool {
    0 <= i < es.len() && !spec_is_base(es[i].rel)
}

/// Whether no later branch is drawn under the same parent as entry `i`.
pub open spec fn is_last_sibling(es: Seq<TreeEntryView>, i: int) -> bool {
    forall|j: int|
        i < j && #[trigger] is_branch(es, j) ==> display_parent(es, j) != display_parent(es, i)
}

/// The continuation glyph that entry `i` contributes to its descendants.
pub open spec fn continuation(es: Seq<TreeEntryView>, i: int) -> Seq<char> {
    if is_last_sibling(es, i) {
        blank_glyph()
    } else {
        bar_glyph()
    }
}

/// The connector in front of entry `i`.
pub open spec fn connector(es: Seq<TreeEntryView>, i: int) -> Seq<char> {
    if is_last_sibling(es, i) {
        corner_glyph()
    } else {
        tee_glyph()
    }
}

/// What stands before the connector of entry `i`: one continuation glyph
/// for each displayed ancestor, outermost first.
pub open spec fn lead(es: Seq<TreeEntryView>, i: int) -> Seq<char>
    decreases i,
{
    match display_parent(es, i) {
        Some(j) => if 0 <= j < i {
            lead(es, j) + continuation(es, j)
        } else {
            Seq::empty()
        },
        None => Seq::empty(),
    }
}

/// The name shown for an entry.
pub open spec fn entry_name(entry: TreeEntryView) -> Seq<char> {
    match spec_file_name(entry.rel) {
        Some(name) => name,
        None => unnamed(),
    }
}

/// What ends the label of an entry.
pub open spec fn entry_suffix(entry: TreeEntryView) -> Seq<char> {
    if entry.is_dir {
        dir_suffix()
    } else {
        Seq::empty()
    }
}

/// The label of entry `i`.
pub open spec fn spec_label(es: Seq<TreeEntryView>, i: int) -> Seq<char> {
    if spec_is_base(es[i].rel) {
        base_label()
    } else {
        lead(es, i) + connector(es, i) + entry_name(es[i]) + entry_suffix(es[i])
    }
}

/// The labels of all entries, in order.
pub open spec fn spec_labels(es: Seq<TreeEntryView>) -> Seq<Seq<char>> {
    Seq::new(es.len(), |i: int| spec_label(es, i))
}

/// The entries that a list of paths gives when each is split and seen from
/// the root.
pub open spec fn tree_entries(paths: Seq<(String, bool)>, root: Seq<char>) -> Seq<TreeEntryView> {
    Seq::new(
        paths.len(),
        |i: int|
            TreeEntryView {
                rel: spec_relative(path_parts(paths[i].0@), path_parts(root)),
                is_dir: paths[i].1,
            },
    )
}

/// The displayed parent of an entry comes before it.
pub proof fn lemma_display_parent_before(es: Seq<TreeEntryView>, i: int)
    requires
        0 <= i < es.len(),
    ensures
        match display_parent(es, i) {
            Some(j) => 0 <= j < i && !spec_is_base(es[j].rel),
            None => true,
        },
{
    lemma_last_index_of_path(entry_paths(es), spec_parent_or_empty(es[i].rel), i);
}

/// Finds the entry before `i` that holds the parent path of entry `i`,
/// given in `before` what was found for the entry before. Where the two
/// entries are siblings the answer is the same, and no search is made.
fn find_parent_entry(entries: &Vec<TreeEntry>, i: usize, before: Option<usize>) -> (found: Option<
    usize,
>)
    requires
        i < entries@.len(),
        i > 0 ==> index_value(before) == parent_entry(entry_views(entries@), i - 1),
    ensures
        index_value(found) == parent_entry(entry_views(entries@), i as int),
{
    let ghost es = entry_views(entries@);
    let ghost key = spec_parent_or_empty(es[i as int].rel);
    if i == 0 {
        return None;
    }
    if entries[i - 1].rel.is_parent_or_empty_of(&entries[i].rel) {
        return Some(i - 1);
    }
    if entries[i - 1].rel.shares_parent_with(&entries[i].rel) {
        return before;
    }
    let mut j: usize = i - 1;
    while j > 0
        invariant
            j < i < entries@.len(),
            es == entry_views(entries@),
            key == spec_parent_or_empty(es[i as int].rel),
            last_index_of_path(entry_paths(es), key, i as int) == last_index_of_path(
                entry_paths(es),
                key,
                j as int,
            ),
        decreases j,
    {
        if entries[j - 1].rel.is_parent_or_empty_of(&entries[i].rel) {
            return Some(j - 1);
        }
        j -= 1;
    }
    None
}

/// For every entry, the entry under which it is drawn.
fn display_parents(entries: &Vec<TreeEntry>) -> (parents: Vec<Option<usize>>)
    ensures
        parents@.len() == entries@.len(),
        forall|i: int|
            0 <= i < entries@.len() ==> index_value(#[trigger] parents@[i]) == display_parent(
                entry_views(entries@),
                i,
            ),
{
    let ghost es = entry_views(entries@);
    let n = entries.len();
    let mut parents: Vec<Option<usize>> = Vec::new();
    let mut before: Option<usize> = None;
    let mut i: usize = 0;
    while i < n
        invariant
            i <= n == entries@.len(),
            es == entry_views(entries@),
            parents@.len() == i,
            i > 0 ==> index_value(before) == parent_entry(es, i - 1),
            forall|k: int|
                0 <= k < i ==> index_value(#[trigger] parents@[k]) == display_parent(es, k),
        decreases n - i,
    {
        before = find_parent_entry(entries, i, before);
        let shown = match before {
            Some(j) => {
                proof {
                    lemma_last_index_of_path(
                        entry_paths(es),
                        spec_parent_or_empty(es[i as int].rel),
                        i as int,
                    );
                }
                if entries[j].rel.is_base() {
                    None
                } else {
                    Some(j)
                }
            },
            None => None,
        };
        parents.push(shown);
        i += 1;
    }
    parents
}

/// Whether `latest` is the last branch before `upto` drawn under `parent`,
/// where the number of entries stands for "none so far".
spec fn is_latest_child(es: Seq<TreeEntryView>, parent: Option<int>, latest: int, upto: int) -> bool {
    if latest == es.len() {
        forall|k: int| 0 <= k < upto && #[trigger] is_branch(es, k) ==> display_parent(es, k) != parent
    } else {
        &&& 0 <= latest < upto
        &&& is_branch(es, latest)
        &&& display_parent(es, latest) == parent
        &&& forall|k: int|
            latest < k < upto && #[trigger] is_branch(es, k) ==> display_parent(es, k) != parent
    }
}

/// For every branch, whether it is the last one drawn under its parent.
fn last_siblings(entries: &Vec<TreeEntry>, parents: &Vec<Option<usize>>) -> (lasts: Vec<bool>)
    requires
        parents@.len() == entries@.len(),
        forall|i: int|
            0 <= i < entries@.len() ==> index_value(#[trigger] parents@[i]) == display_parent(
                entry_views(entries@),
                i,
            ),
    ensures
        lasts@.len() == entries@.len(),
        forall|i: int|
            is_branch(entry_views(entries@), i) ==> #[trigger] lasts@[i] == is_last_sibling(
                entry_views(entries@),
                i,
            ),
{
    let ghost es = entry_views(entries@);
    let n = entries.len();
    let mut latest: Vec<usize> = Vec::new();
    let mut top: usize = n;
    let mut s: usize = 0;
    while s < n
        invariant
            s <= n,
            latest@.len() == s,
            forall|t: int| 0 <= t < s ==> latest@[t] == n,
        decreases n - s,
    {
        latest.push(n);
        s += 1;
    }
    let mut i: usize = 0;
    while i < n
        invariant
            i <= n == entries@.len(),
            es == entry_views(entries@),
            parents@.len() == n,
            latest@.len() == n,
            forall|k: int|
                0 <= k < n ==> index_value(#[trigger] parents@[k]) == display_parent(es, k),
            is_latest_child(es, None, top as int, i as int),
            forall|t: int|
                0 <= t < n ==> is_latest_child(es, Some(t), #[trigger] latest@[t] as int, i as int),
        decreases n - i,
    {
        if !entries[i].rel.is_base() {
            proof {
                lemma_display_parent_before(es, i as int);
            }
            match parents[i] {
                Some(j) => {
                    latest.set(j, i);
                },
                None => {
                    top = i;
                },
            }
        }
        i += 1;
    }
    let mut lasts: Vec<bool> = Vec::new();
    let mut i: usize = 0;
    while i < n
        invariant
            i <= n == entries@.len(),
            es == entry_views(entries@),
            parents@.len() == n,
            latest@.len() == n,
            lasts@.len() == i,
            forall|k: int|
                0 <= k < n ==> index_value(#[trigger] parents@[k]) == display_parent(es, k),
            is_latest_child(es, None, top as int, n as int),
            forall|t: int|
                0 <= t < n ==> is_latest_child(es, Some(t), #[trigger] latest@[t] as int, n as int),
            forall|k: int|
                0 <= k < i && is_branch(es, k) ==> #[trigger] lasts@[k] == is_last_sibling(es, k),
        decreases n - i,
    {
        proof {
            lemma_display_parent_before(es, i as int);
        }
        let l = match parents[i] {
            Some(j) => latest[j],
            None => top,
        };
        let last = l == i;
        proof {
            if is_branch(es, i as int) {
                assert(is_latest_child(es, display_parent(es, i as int), l as int, n as int));
                if last {
                    assert(is_last_sibling(es, i as int));
                } else {
                    assert(l != n);
                    assert(i < l && is_branch(es, l as int));
                    assert(!is_last_sibling(es, i as int));
                }
            }
        }
        lasts.push(last);
        i += 1;
    }
    lasts
}

/// Draws the labels of the entries.
///
/// The base is labelled `./`. Every other entry is labelled with the
/// continuation glyphs of its displayed ancestors, its connector, its name
/// and, for a directory, a closing separator.
pub fn labels_for_entries(entries: &Vec<TreeEntry>) -> (labels: Vec<String>)
    ensures
        labels@.len() == entries@.len(),
        string_views(labels@) == spec_labels(entry_views(entries@)),
{
    let ghost es = entry_views(entries@);
    let n = entries.len();
    let parents = display_parents(entries);
    let lasts = last_siblings(entries, &parents);
    let mut labels: Vec<String> = Vec::new();
    let mut handed_down: Vec<String> = Vec::new();
    let mut i: usize = 0;
    while i < n
        invariant
            i <= n == entries@.len(),
            es == entry_views(entries@),
            parents@.len() == n,
            lasts@.len() == n,
            labels@.len() == i,
            handed_down@.len() == i,
            forall|k: int|
                0 <= k < n ==> index_value(#[trigger] parents@[k]) == display_parent(es, k),
            forall|k: int| is_branch(es, k) ==> #[trigger] lasts@[k] == is_last_sibling(es, k),
            forall|k: int| 0 <= k < i ==> (#[trigger] labels@[k])@ == spec_label(es, k),
            forall|k: int|
                0 <= k < i && is_branch(es, k) ==> (#[trigger] handed_down@[k])@ == lead(es, k)
                    + continuation(es, k),
        decreases n - i,
    {
        let entry = &entries[i];
        if entry.rel.is_base() {
            labels.push(String::from_str("./"));
            handed_down.push(String::new());
        } else {
            proof {
                lemma_display_parent_before(es, i as int);
            }
            let mut label = match parents[i] {
                Some(j) => handed_down[j].clone(),
                None => String::new(),
            };
            assert(label@ == lead(es, i as int));
            let mut passed = label.clone();
            if lasts[i] {
                label.append("└─ ");
                passed.append("   ");
            } else {
                label.append("├─ ");
                passed.append("│  ");
            }
            match entry.rel.file_name() {
                Some(name) => label.append(name.as_str()),
                None => label.append("."),
            }
            if entry.is_dir {
                label.append("/");
            }
            assert(label@ =~= spec_label(es, i as int));
            labels.push(label);
            handed_down.push(passed);
        }
        i += 1;
    }
    assert(string_views(labels@) =~= spec_labels(es));
    labels
}

/// Draws the tree labels of `paths`, one for each path and in the same
/// order, as seen from `root_path`.
///
/// The paths are expected in ascending order, so that every directory comes
/// before what it contains. A path whose parent does not come before it is
/// drawn directly under the root.
pub fn build_tree_labels(paths: &[(String, bool)], root_path: &str) -> (labels: Vec<String>)
    ensures
        labels@.len() == paths@.len(),
        string_views(labels@) == spec_labels(tree_entries(paths@, root_path@)),
{
    let root = SplitPath::new(root_path);
    let n = paths.len();
    let mut entries: Vec<TreeEntry> = Vec::new();
    let mut i: usize = 0;
    while i < n
        invariant
            i <= n == paths@.len(),
            root@ == path_parts(root_path@),
            entries@.len() == i,
            forall|k: int|
                0 <= k < i ==> (#[trigger] entries@[k])@ == tree_entries(paths@, root_path@)[k],
        decreases n - i,
    {
        let rel = SplitPath::new(paths[i].0.as_str()).relative_to(&root);
        entries.push(TreeEntry { rel, is_dir: paths[i].1 });
        i += 1;
    }
    assert(entry_views(entries@) =~= tree_entries(paths@, root_path@));
    labels_for_entries(&entries)
}

/// The labels depend on nothing but the texts of the paths, their
/// directory flags and the text of the root: two lists that spell the same
/// have the same labels.
pub proof fn lemma_labels_follow_content(
    paths: Seq<(String, bool)>,
    root: Seq<char>,
    others: Seq<(String, bool)>,
    other_root: Seq<char>,
)
    requires
        paths.len() == others.len(),
        forall|i: int|
            0 <= i < paths.len() ==> (#[trigger] paths[i]).0@ == others[i].0@ && paths[i].1
                == others[i].1,
        root == other_root,
    ensures
        spec_labels(tree_entries(paths, root)) == spec_labels(tree_entries(others, other_root)),
{
    assert(tree_entries(paths, root) =~= tree_entries(others, other_root));
}

/// The two connectors differ, and each is three characters long.
pub proof fn lemma_connectors_differ()
    ensures
        corner_glyph() != tee_glyph(),
        corner_glyph().len() == 3,
        tee_glyph().len() == 3,
{
    reveal_strlit("└─ ");
    reveal_strlit("├─ ");
    assert(corner_glyph()[0] != tee_glyph()[0]);
}

/// A branch is drawn with the corner exactly when no later branch hangs
/// under the same parent: the connector that follows its lead is the
/// corner for the last sibling and the tee for every other.
pub proof fn lemma_corner_marks_last_sibling(es: Seq<TreeEntryView>, i: int)
    requires
        is_branch(es, i),
    ensures
        spec_label(es, i).len() >= lead(es, i).len() + 3,
        spec_label(es, i).subrange(lead(es, i).len() as int, lead(es, i).len() as int + 3)
            == corner_glyph() <==> is_last_sibling(es, i),
        spec_label(es, i).subrange(lead(es, i).len() as int, lead(es, i).len() as int + 3)
            == tee_glyph() <==> !is_last_sibling(es, i),
{
    lemma_connectors_differ();
    let before = lead(es, i);
    let after = entry_name(es[i]) + entry_suffix(es[i]);
    assert(spec_label(es, i) =~= before + connector(es, i) + after);
    assert((before + connector(es, i) + after).subrange(
        before.len() as int,
        before.len() as int + 3,
    ) =~= connector(es, i));
}

/// Of two branches under the same parent, the earlier is not the last
/// sibling: it is drawn with the tee.
pub proof fn lemma_earlier_sibling_gets_tee(es: Seq<TreeEntryView>, i: int, j: int)
    requires
        is_branch(es, i),
        is_branch(es, j),
        i < j,
        display_parent(es, i) == display_parent(es, j),
    ensures
        !is_last_sibling(es, i),
        connector(es, i) == tee_glyph(),
{
}

} // verus!
