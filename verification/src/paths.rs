//! Paths as sequences of components.
//!
//! Everything the selection engine asks of a path (its parent, whether it
//! lies under the scan root, its final name, whether two paths are the same)
//! is a question about its components, so a path is split once and the rest
//! is plain sequence reasoning.

use crate::utils::index_value;
use std::path::{Component, Path};
use vstd::prelude::*;

verus! {

/// One component of a path.
#[derive(Debug)]
pub enum PathPart {
    /// A platform prefix such as a drive letter, with its text.
    Prefix(String),
    /// The root directory.
    Root,
    /// A reference to the current directory (`.`).
    Current,
    /// A reference to the parent directory (`..`).
    Parent,
    /// An ordinary file or directory name.
    Name(String),
}

/// The mathematical value of a [`PathPart`].
pub enum PartView {
    Prefix(Seq<char>),
    Root,
    Current,
    Parent,
    Name(Seq<char>),
}

impl View for PathPart {
    type V = PartView;

    open spec fn view(&self) -> PartView {
        match self {
            PathPart::Prefix(text) => PartView::Prefix(text@),
            PathPart::Root => PartView::Root,
            PathPart::Current => PartView::Current,
            PathPart::Parent => PartView::Parent,
            PathPart::Name(text) => PartView::Name(text@),
        }
    }
}

/// A path held as its components, outermost first.
#[derive(Debug)]
pub struct SplitPath {
    pub parts: Vec<PathPart>,
}

impl View for SplitPath {
    type V = Seq<PartView>;

    open spec fn view(&self) -> Seq<PartView> {
        Seq::new(self.parts@.len(), |i: int| self.parts@[i]@)
    }
}

/// The components that the platform's path syntax reads in `path`.
pub uninterp spec fn path_parts(path: Seq<char>) -> Seq<PartView>;

/// Whether a final component of this kind can be taken off to give a parent.
pub open spec fn is_removable(part: PartView) -> bool {
    part is Name || part is Current || part is Parent
}

/// The parent of a path: the path without its final component. A path that
/// is empty, or that ends in a root or a prefix, has none.
pub open spec fn spec_parent(parts: Seq<PartView>) -> Option<Seq<PartView>> {
    if parts.len() > 0 && is_removable(parts.last()) {
        Some(parts.drop_last())
    } else {
        None
    }
}

/// The parent of a path, or the empty path where it has none.
pub open spec fn spec_parent_or_empty(parts: Seq<PartView>) -> Seq<PartView> {
    match spec_parent(parts) {
        Some(parent) => parent,
        None => Seq::empty(),
    }
}

/// A path seen from `base`: what follows `base` where the path starts with
/// it, and the whole path otherwise.
pub open spec fn spec_relative(parts: Seq<PartView>, base: Seq<PartView>) -> Seq<PartView> {
    if base.is_prefix_of(parts) {
        parts.skip(base.len() as int)
    } else {
        parts
    }
}

/// The final name of a path, present only where the path ends in an
/// ordinary name.
pub open spec fn spec_file_name(parts: Seq<PartView>) -> Option<Seq<char>> {
    if parts.len() > 0 && parts.last() is Name {
        Some(parts.last()->Name_0)
    } else {
        None
    }
}

/// Whether a relative path denotes the base itself: it is empty or a lone
/// reference to the current directory.
pub open spec fn spec_is_base(rel: Seq<PartView>) -> bool {
    rel.len() == 0 || (rel.len() == 1 && rel[0] is Current)
}

/// Splits `path` into its components with `std::path::Path::components`:
/// the result is, component for component, what that iterator yields, each
/// ordinary name and prefix carried as its text.
#[verifier::external_body]
pub(crate) fn split_path(path: &str) -> (split: SplitPath)
    ensures
        split@ == path_parts(path@),
{
    let mut parts = Vec::new();
    for component in Path::new(path).components() {
        parts.push(match component {
            Component::Prefix(p) => PathPart::Prefix(p.as_os_str().to_string_lossy().into_owned()),
            Component::RootDir => PathPart::Root,
            Component::CurDir => PathPart::Current,
            Component::ParentDir => PathPart::Parent,
            Component::Normal(name) => PathPart::Name(name.to_string_lossy().into_owned()),
        });
    }
    SplitPath { parts }
}

/// What is left of `path` once the leading `base` is taken off, as
/// `std::path::Path::strip_prefix` gives it; none where `path` does not
/// begin with `base`.
pub uninterp spec fn relative_text(path: Seq<char>, base: Seq<char>) -> Option<Seq<char>>;

/// The text of the parent of `path`, as `std::path::Path::parent` gives it.
pub uninterp spec fn parent_text(path: Seq<char>) -> Option<Seq<char>>;

/// Takes the leading `base` off `path` with `std::path::Path::strip_prefix`
/// and gives the text of what is left.
#[verifier::external_body]
pub(crate) fn strip_prefix_text(path: &str, base: &str) -> (rest: Option<String>)
    ensures
        match rest {
            Some(text) => relative_text(path@, base@) == Some(text@),
            None => relative_text(path@, base@) is None,
        },
{
    match Path::new(path).strip_prefix(base) {
        Ok(rest) => Some(rest.to_string_lossy().into_owned()),
        Err(_) => None,
    }
}

/// Gives the text of the parent of `path` with `std::path::Path::parent`.
/// The parent is the path without its final component: it has the
/// components of `path` but the last, its text is shorter, and there is
/// none exactly where the components of `path` have no parent.
#[verifier::external_body]
pub(crate) fn parent_of_text(path: &str) -> (parent: Option<String>)
    ensures
        match parent {
            Some(text) => {
                &&& parent_text(path@) == Some(text@)
                &&& text@.len() < path@.len()
                &&& spec_parent(path_parts(path@)) == Some(path_parts(text@))
            },
            None => parent_text(path@) is None && spec_parent(path_parts(path@)) is None,
        },
{
    match Path::new(path).parent() {
        Some(parent) => Some(parent.to_string_lossy().into_owned()),
        None => None,
    }
}

/// The extension of the file name of `path`, as
/// `std::path::Path::extension` gives it.
pub uninterp spec fn extension_text(path: Seq<char>) -> Option<Seq<char>>;

/// Gives the extension of the file name of `path` with
/// `std::path::Path::extension`.
#[verifier::external_body]
pub(crate) fn extension_of(path: &str) -> (extension: Option<String>)
    ensures
        match extension {
            Some(text) => extension_text(path@) == Some(text@),
            None => extension_text(path@) is None,
        },
{
    match Path::new(path).extension() {
        Some(extension) => Some(extension.to_string_lossy().into_owned()),
        None => None,
    }
}

/// Whether two components are the same.
pub fn same_part(a: &PathPart, b: &PathPart) -> (same: bool)
    ensures
        same == (a@ == b@),
{
    match (a, b) {
        (PathPart::Prefix(x), PathPart::Prefix(y)) => *x == *y,
        (PathPart::Root, PathPart::Root) => true,
        (PathPart::Current, PathPart::Current) => true,
        (PathPart::Parent, PathPart::Parent) => true,
        (PathPart::Name(x), PathPart::Name(y)) => *x == *y,
        _ => false,
    }
}

impl SplitPath {
    /// Splits the text of a path into its components.
    pub fn new(path: &str) -> (split: SplitPath)
        ensures
            split@ == path_parts(path@),
    {
        split_path(path)
    }

    /// Number of components.
    pub fn len(&self) -> (n: usize)
        ensures
            n == self@.len(),
    {
        self.parts.len()
    }

    /// Whether both paths have `count` components or more and agree in
    /// their first `count`.
    pub fn shares_prefix(&self, other: &SplitPath, count: usize) -> (same: bool)
        ensures
            same == (count <= self@.len() && count <= other@.len() && self@.take(count as int)
                == other@.take(count as int)),
    {
        if count > self.parts.len() || count > other.parts.len() {
            return false;
        }
        let mut i: usize = 0;
        while i < count
            invariant
                i <= count,
                count <= self.parts@.len(),
                count <= other.parts@.len(),
                self@.take(i as int) == other@.take(i as int),
            decreases count - i,
        {
            if !same_part(&self.parts[i], &other.parts[i]) {
                proof {
                    assert(self@.take(count as int)[i as int] == self@[i as int]);
                    assert(other@.take(count as int)[i as int] == other@[i as int]);
                }
                return false;
            }
            proof {
                assert(self@.take(i + 1) =~= self@.take(i as int).push(self@[i as int]));
                assert(other@.take(i + 1) =~= other@.take(i as int).push(other@[i as int]));
            }
            i += 1;
        }
        true
    }

    /// Whether the two paths have the same components.
    pub fn same_as(&self, other: &SplitPath) -> (same: bool)
        ensures
            same == (self@ == other@),
    {
        let n = self.parts.len();
        if n != other.parts.len() {
            return false;
        }
        proof {
            assert(self@.take(n as int) =~= self@);
            assert(other@.take(n as int) =~= other@);
        }
        self.shares_prefix(other, n)
    }

    /// Whether `self` begins with all the components of `base`.
    pub fn starts_with(&self, base: &SplitPath) -> (starts: bool)
        ensures
            starts == base@.is_prefix_of(self@),
    {
        let n = base.parts.len();
        if n > self.parts.len() {
            return false;
        }
        proof {
            assert(base@.take(n as int) =~= base@);
            assert(self@.take(n as int) =~= self@.subrange(0, n as int));
        }
        let r = base.shares_prefix(self, n);
        proof {
            if r {
                assert(base@ =~= self@.subrange(0, base@.len() as int));
            }
        }
        r
    }

    /// Whether the path has a parent.
    pub fn has_parent(&self) -> (has: bool)
        ensures
            has == spec_parent(self@) is Some,
    {
        let n = self.parts.len();
        if n == 0 {
            return false;
        }
        match &self.parts[n - 1] {
            PathPart::Name(_) => true,
            PathPart::Current => true,
            PathPart::Parent => true,
            _ => false,
        }
    }

    /// Whether `self` is the parent of `child`, where a path without a
    /// parent counts as a child of the empty path.
    pub fn is_parent_or_empty_of(&self, child: &SplitPath) -> (is: bool)
        ensures
            is == (self@ == spec_parent_or_empty(child@)),
    {
        if child.has_parent() {
            let n = child.parts.len() - 1;
            if self.parts.len() != n {
                assert(spec_parent_or_empty(child@).len() == n);
                return false;
            }
            proof {
                assert(self@.take(n as int) =~= self@);
                assert(child@.take(n as int) =~= child@.drop_last());
            }
            self.shares_prefix(child, n)
        } else {
            proof {
                if self@.len() == 0 {
                    assert(self@ =~= Seq::<PartView>::empty());
                }
            }
            self.parts.len() == 0
        }
    }

    /// Whether the two paths have the same parent, where a path without a
    /// parent counts as a child of the empty path.
    pub fn shares_parent_with(&self, other: &SplitPath) -> (same: bool)
        ensures
            same == (spec_parent_or_empty(self@) == spec_parent_or_empty(other@)),
    {
        let mine = if self.has_parent() {
            self.parts.len() - 1
        } else {
            0
        };
        let theirs = if other.has_parent() {
            other.parts.len() - 1
        } else {
            0
        };
        proof {
            assert(spec_parent_or_empty(self@) =~= self@.take(mine as int));
            assert(spec_parent_or_empty(other@) =~= other@.take(theirs as int));
        }
        if mine != theirs {
            assert(spec_parent_or_empty(self@).len() != spec_parent_or_empty(other@).len());
            return false;
        }
        self.shares_prefix(other, mine)
    }

    /// Whether `self` is the parent of `child`.
    pub fn is_parent_of(&self, child: &SplitPath) -> (is: bool)
        ensures
            is == (spec_parent(child@) == Some(self@)),
    {
        child.has_parent() && self.is_parent_or_empty_of(child)
    }

    /// Whether the path has a parent and that parent begins with all the
    /// components of `base`.
    pub fn parent_starts_with(&self, base: &SplitPath) -> (starts: bool)
        ensures
            starts == match spec_parent(self@) {
                Some(parent) => base@.is_prefix_of(parent),
                None => false,
            },
    {
        if !self.has_parent() {
            return false;
        }
        let n = base.parts.len();
        if n > self.parts.len() - 1 {
            return false;
        }
        proof {
            let parent = self@.drop_last();
            assert(base@.take(n as int) =~= base@);
            assert(self@.take(n as int) =~= parent.subrange(0, n as int));
        }
        let r = base.shares_prefix(self, n);
        proof {
            if r {
                assert(base@ =~= self@.drop_last().subrange(0, base@.len() as int));
            }
        }
        r
    }

    /// Whether the path, taken as relative, denotes the base itself.
    pub fn is_base(&self) -> (is: bool)
        ensures
            is == spec_is_base(self@),
    {
        let n = self.parts.len();
        if n == 0 {
            true
        } else if n == 1 {
            match &self.parts[0] {
                PathPart::Current => true,
                _ => false,
            }
        } else {
            false
        }
    }

    /// The final name of the path, where it ends in one.
    pub fn file_name(&self) -> (name: Option<&String>)
        ensures
            match name {
                Some(text) => spec_file_name(self@) == Some(text@),
                None => spec_file_name(self@) is None,
            },
    {
        let n = self.parts.len();
        if n == 0 {
            return None;
        }
        match &self.parts[n - 1] {
            PathPart::Name(text) => Some(text),
            _ => None,
        }
    }

    /// The path seen from `base`.
    pub fn relative_to(self, base: &SplitPath) -> (rel: SplitPath)
        ensures
            rel@ == spec_relative(self@, base@),
    {
        if self.starts_with(base) {
            let mut parts = self.parts;
            let tail = parts.split_off(base.parts.len());
            let rel = SplitPath { parts: tail };
            proof {
                assert(rel@ =~= self@.skip(base@.len() as int));
            }
            rel
        } else {
            self
        }
    }
}

/// The greatest index below `upto` at which `paths` holds `key`.
pub open spec fn last_index_of_path(paths: Seq<Seq<PartView>>, key: Seq<PartView>, upto: int) -> Option<
    int,
>
    decreases upto,
{
    if upto <= 0 {
        None
    } else if paths[upto - 1] == key {
        Some(upto - 1)
    } else {
        last_index_of_path(paths, key, upto - 1)
    }
}

/// A found index lies below the bound of the search and holds the key, and
/// no index between it and the bound does.
pub proof fn lemma_last_index_of_path(paths: Seq<Seq<PartView>>, key: Seq<PartView>, upto: int)
    requires
        0 <= upto <= paths.len(),
    ensures
        match last_index_of_path(paths, key, upto) {
            Some(j) => 0 <= j < upto && paths[j] == key && forall|k: int|
                j < k < upto ==> paths[k] != key,
            None => forall|k: int| 0 <= k < upto ==> paths[k] != key,
        },
    decreases upto,
{
    if upto > 0 && paths[upto - 1] != key {
        lemma_last_index_of_path(paths, key, upto - 1);
    }
}

/// The values of a list of split paths.
pub open spec fn split_views(splits: Seq<SplitPath>) -> Seq<Seq<PartView>> {
    Seq::new(splits.len(), |i: int| splits[i]@)
}

/// The last position before `i` that holds the parent of the path at
/// position `i`; none where that path has no parent, or `i` is not a
/// position of the list.
pub open spec fn spec_parent_before(paths: Seq<Seq<PartView>>, i: int) -> Option<int> {
    if 0 <= i < paths.len() {
        match spec_parent(paths[i]) {
            Some(parent) => last_index_of_path(paths, parent, i),
            None => None,
        }
    } else {
        None
    }
}

/// Finds the last path before position `i` that is the parent of the path
/// at position `i`, given in `before` what was found for the position
/// before. Where the two paths are siblings the answer is the same, and no
/// search is made.
fn find_parent_before(splits: &[SplitPath], i: usize, before: Option<usize>) -> (found: Option<
    usize,
>)
    requires
        i > 0 ==> index_value(before) == spec_parent_before(split_views(splits@), i - 1),
    ensures
        index_value(found) == spec_parent_before(split_views(splits@), i as int),
{
    if i >= splits.len() || !splits[i].has_parent() {
        return None;
    }
    let ghost all = split_views(splits@);
    let ghost key = spec_parent(splits@[i as int]@)->0;
    if i == 0 {
        return None;
    }
    if splits[i - 1].is_parent_of(&splits[i]) {
        return Some(i - 1);
    }
    if splits[i - 1].has_parent() && splits[i - 1].shares_parent_with(&splits[i]) {
        assert(spec_parent(all[i - 1]) == Some(key));
        return before;
    }
    let mut j: usize = i - 1;
    while j > 0
        invariant
            j < i < splits@.len(),
            all == split_views(splits@),
            key == spec_parent(splits@[i as int]@)->0,
            spec_parent(splits@[i as int]@) is Some,
            last_index_of_path(all, key, i as int) == last_index_of_path(all, key, j as int),
        decreases j,
    {
        if splits[j - 1].is_parent_of(&splits[i]) {
            return Some(j - 1);
        }
        j -= 1;
    }
    None
}

/// For every path of the list, finds the last path before it that is its
/// parent.
pub fn parents_before(splits: &[SplitPath]) -> (found: Vec<Option<usize>>)
    ensures
        found@.len() == splits@.len(),
        forall|i: int|
            0 <= i < splits@.len() ==> index_value(#[trigger] found@[i]) == spec_parent_before(
                split_views(splits@),
                i,
            ),
{
    let n = splits.len();
    let mut found: Vec<Option<usize>> = Vec::new();
    let mut i: usize = 0;
    while i < n
        invariant
            i <= n == splits@.len(),
            found@.len() == i,
            forall|k: int|
                0 <= k < i ==> index_value(#[trigger] found@[k]) == spec_parent_before(
                    split_views(splits@),
                    k,
                ),
        decreases n - i,
    {
        let before = if i > 0 {
            found[i - 1]
        } else {
            None
        };
        found.push(find_parent_before(splits, i, before));
        i += 1;
    }
    found
}

} // verus!
