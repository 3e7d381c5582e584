//! The order of paths: component by component, a shorter path before any
//! longer one that begins with it. Within a component kind, texts are
//! ordered byte by byte in their UTF-8 form.

use crate::paths::{
    last_index_of_path, lemma_last_index_of_path, spec_parent, PartView, PathPart, SplitPath,
};
use vstd::prelude::*;
use vstd::utf8::encode_utf8;

verus! {

/// How one value stands to another in an order.
#[derive(Debug, Clone, Copy, PartialEq, Eq, Structural)]
pub enum Rank {
    Before,
    Same,
    After,
}

/// The rank seen from the other side.
pub open spec fn flip(rank: Rank) -> Rank {
    match rank {
        Rank::Before => Rank::After,
        Rank::Same => Rank::Same,
        Rank::After => Rank::Before,
    }
}

/// The order of two byte strings from position `i` on, given that they
/// agree before it.
pub open spec fn bytes_rank_from(a: Seq<u8>, b: Seq<u8>, i: int) -> Rank
    decreases a.len() - i,
{
    if i >= a.len() && i >= b.len() {
        Rank::Same
    } else if i >= a.len() {
        Rank::Before
    } else if i >= b.len() {
        Rank::After
    } else if a[i] < b[i] {
        Rank::Before
    } else if a[i] > b[i] {
        Rank::After
    } else {
        bytes_rank_from(a, b, i + 1)
    }
}

/// The order of two byte strings.
pub open spec fn bytes_rank(a: Seq<u8>, b: Seq<u8>) -> Rank {
    bytes_rank_from(a, b, 0)
}

/// The order of two texts: that of their UTF-8 forms.
pub open spec fn text_rank(a: Seq<char>, b: Seq<char>) -> Rank {
    bytes_rank(encode_utf8(a), encode_utf8(b))
}

/// The place of a kind of component among the kinds.
pub open spec fn kind_rank(part: PartView) -> int {
    match part {
        PartView::Prefix(_) => 0,
        PartView::Root => 1,
        PartView::Current => 2,
        PartView::Parent => 3,
        PartView::Name(_) => 4,
    }
}

/// The text that a component carries, empty for the kinds without one.
pub open spec fn part_text(part: PartView) -> Seq<char> {
    match part {
        PartView::Prefix(text) => text,
        PartView::Name(text) => text,
        _ => Seq::empty(),
    }
}

/// The order of two components: by kind first, then by text.
pub open spec fn part_rank(a: PartView, b: PartView) -> Rank {
    if kind_rank(a) < kind_rank(b) {
        Rank::Before
    } else if kind_rank(a) > kind_rank(b) {
        Rank::After
    } else {
        text_rank(part_text(a), part_text(b))
    }
}

/// The order of two paths from component `i` on, given that they agree
/// before it.
pub open spec fn path_rank_from(a: Seq<PartView>, b: Seq<PartView>, i: int) -> Rank
    decreases a.len() - i,
{
    if i >= a.len() && i >= b.len() {
        Rank::Same
    } else if i >= a.len() {
        Rank::Before
    } else if i >= b.len() {
        Rank::After
    } else if part_rank(a[i], b[i]) != Rank::Same {
        part_rank(a[i], b[i])
    } else {
        path_rank_from(a, b, i + 1)
    }
}

/// The order of two paths.
pub open spec fn path_rank(a: Seq<PartView>, b: Seq<PartView>) -> Rank {
    path_rank_from(a, b, 0)
}

/// Whether `a` does not come after `b`.
pub open spec fn path_le(a: Seq<PartView>, b: Seq<PartView>) -> bool {
    path_rank(a, b) != Rank::After
}

/// Whether `a` comes before `b`.
pub open spec fn path_lt(a: Seq<PartView>, b: Seq<PartView>) -> bool {
    path_rank(a, b) == Rank::Before
}

proof fn lemma_bytes_rank_from(a: Seq<u8>, b: Seq<u8>, i: int)
    requires
        0 <= i,
        i <= a.len(),
        i <= b.len(),
        a.take(i) == b.take(i),
    ensures
        bytes_rank_from(b, a, i) == flip(bytes_rank_from(a, b, i)),
        bytes_rank_from(a, b, i) == Rank::Same <==> a == b,
    decreases a.len() - i,
{
    if i >= a.len() && i >= b.len() {
        assert(a.take(i) == a);
        assert(b.take(i) == b);
    } else if i >= a.len() {
        assert(a.len() != b.len());
    } else if i >= b.len() {
        assert(a.len() != b.len());
    } else if a[i] != b[i] {
    } else {
        assert(a.take(i + 1) =~= a.take(i).push(a[i]));
        assert(b.take(i + 1) =~= b.take(i).push(b[i]));
        lemma_bytes_rank_from(a, b, i + 1);
    }
}

proof fn lemma_bytes_rank_chain(a: Seq<u8>, b: Seq<u8>, c: Seq<u8>, i: int)
    requires
        0 <= i,
        bytes_rank_from(a, b, i) != Rank::After,
        bytes_rank_from(b, c, i) != Rank::After,
    ensures
        bytes_rank_from(a, c, i) != Rank::After,
        bytes_rank_from(a, b, i) == Rank::Before || bytes_rank_from(b, c, i) == Rank::Before
            ==> bytes_rank_from(a, c, i) == Rank::Before,
    decreases a.len() - i,
{
    if i < a.len() && i < b.len() && i < c.len() && a[i] == b[i] && b[i] == c[i] {
        lemma_bytes_rank_chain(a, b, c, i + 1);
    }
}

/// The order of texts is a total order: turning the pair round turns the
/// rank round, two texts rank the same exactly when they are equal, and
/// the order is transitive.
pub proof fn lemma_text_rank(a: Seq<char>, b: Seq<char>, c: Seq<char>)
    ensures
        text_rank(b, a) == flip(text_rank(a, b)),
        text_rank(a, b) == Rank::Same <==> a == b,
        text_rank(a, b) != Rank::After && text_rank(b, c) != Rank::After ==> text_rank(a, c)
            != Rank::After,
        text_rank(a, b) != Rank::After && text_rank(b, c) != Rank::After && (text_rank(a, b)
            == Rank::Before || text_rank(b, c) == Rank::Before) ==> text_rank(a, c)
            == Rank::Before,
{
    let x = encode_utf8(a);
    let y = encode_utf8(b);
    let z = encode_utf8(c);
    assert(x.take(0) == y.take(0));
    lemma_bytes_rank_from(x, y, 0);
    if x == y {
        vstd::utf8::encode_utf8_decode_utf8(a);
        vstd::utf8::encode_utf8_decode_utf8(b);
    }
    if text_rank(a, b) != Rank::After && text_rank(b, c) != Rank::After {
        lemma_bytes_rank_chain(x, y, z, 0);
    }
}

/// The order of components is a total order.
pub proof fn lemma_part_rank(a: PartView, b: PartView, c: PartView)
    ensures
        part_rank(b, a) == flip(part_rank(a, b)),
        part_rank(a, b) == Rank::Same <==> a == b,
        part_rank(a, b) != Rank::After && part_rank(b, c) != Rank::After ==> part_rank(a, c)
            != Rank::After,
        part_rank(a, b) != Rank::After && part_rank(b, c) != Rank::After && (part_rank(a, b)
            == Rank::Before || part_rank(b, c) == Rank::Before) ==> part_rank(a, c)
            == Rank::Before,
{
    lemma_text_rank(part_text(a), part_text(b), part_text(c));
}

proof fn lemma_path_rank_from(a: Seq<PartView>, b: Seq<PartView>, i: int)
    requires
        0 <= i,
        i <= a.len(),
        i <= b.len(),
        a.take(i) == b.take(i),
    ensures
        path_rank_from(b, a, i) == flip(path_rank_from(a, b, i)),
        path_rank_from(a, b, i) == Rank::Same <==> a == b,
    decreases a.len() - i,
{
    if i >= a.len() && i >= b.len() {
        assert(a.take(i) == a);
        assert(b.take(i) == b);
    } else if i >= a.len() {
        assert(a.len() != b.len());
    } else if i >= b.len() {
        assert(a.len() != b.len());
    } else {
        lemma_part_rank(a[i], b[i], a[i]);
        if part_rank(a[i], b[i]) == Rank::Same {
            assert(a.take(i + 1) =~= a.take(i).push(a[i]));
            assert(b.take(i + 1) =~= b.take(i).push(b[i]));
            lemma_path_rank_from(a, b, i + 1);
        }
    }
}

proof fn lemma_path_rank_chain(a: Seq<PartView>, b: Seq<PartView>, c: Seq<PartView>, i: int)
    requires
        0 <= i,
        path_rank_from(a, b, i) != Rank::After,
        path_rank_from(b, c, i) != Rank::After,
    ensures
        path_rank_from(a, c, i) != Rank::After,
        path_rank_from(a, b, i) == Rank::Before || path_rank_from(b, c, i) == Rank::Before
            ==> path_rank_from(a, c, i) == Rank::Before,
    decreases a.len() - i,
{
    if i < a.len() && i < b.len() && i < c.len() {
        lemma_part_rank(a[i], b[i], c[i]);
        if part_rank(a[i], b[i]) == Rank::Same && part_rank(b[i], c[i]) == Rank::Same {
            lemma_path_rank_chain(a, b, c, i + 1);
        }
    }
}

/// The order of paths is a total order: turning the pair round turns the
/// rank round, two paths rank the same exactly when they have the same
/// components, and the order is transitive.
pub proof fn lemma_path_rank(a: Seq<PartView>, b: Seq<PartView>, c: Seq<PartView>)
    ensures
        path_rank(b, a) == flip(path_rank(a, b)),
        path_rank(a, b) == Rank::Same <==> a == b,
        path_le(a, b) && path_le(b, c) ==> path_le(a, c),
        path_le(a, b) && path_le(b, c) && (path_lt(a, b) || path_lt(b, c)) ==> path_lt(a, c),
{
    assert(a.take(0) == b.take(0));
    lemma_path_rank_from(a, b, 0);
    if path_le(a, b) && path_le(b, c) {
        lemma_path_rank_chain(a, b, c, 0);
    }
}

proof fn lemma_prefix_rank_from(a: Seq<PartView>, b: Seq<PartView>, i: int)
    requires
        a.is_prefix_of(b),
        a.len() < b.len(),
        0 <= i <= a.len(),
    ensures
        path_rank_from(a, b, i) == Rank::Before,
    decreases a.len() - i,
{
    if i < a.len() {
        assert(a[i] == b[i]);
        lemma_part_rank(a[i], b[i], a[i]);
        lemma_prefix_rank_from(a, b, i + 1);
    }
}

/// A path comes after every path that it begins with and goes beyond.
pub proof fn lemma_prefix_comes_first(a: Seq<PartView>, b: Seq<PartView>)
    requires
        a.is_prefix_of(b),
        a != b,
    ensures
        path_lt(a, b),
{
    if a.len() == b.len() {
        assert(a =~= b);
    }
    lemma_prefix_rank_from(a, b, 0);
}

/// A path comes after its parent.
pub proof fn lemma_parent_comes_first(parts: Seq<PartView>)
    requires
        spec_parent(parts) is Some,
    ensures
        path_lt(spec_parent(parts)->0, parts),
{
    let parent = parts.drop_last();
    assert(parent =~= parts.subrange(0, parent.len() as int));
    lemma_prefix_comes_first(parent, parts);
}

/// Whether every path of a list comes before all that follow it.
pub open spec fn paths_ascending(paths: Seq<Seq<PartView>>) -> bool {
    forall|i: int, j: int|
        0 <= i < j < paths.len() ==> path_lt(#[trigger] paths[i], #[trigger] paths[j])
}

/// In a list that is in the order of its paths, the parent of a path stands
/// before the path if it stands in the list at all: to look for it among
/// the earlier paths is to look for it in the whole list.
pub proof fn lemma_parent_stands_before(paths: Seq<Seq<PartView>>, i: int, j: int)
    requires
        paths_ascending(paths),
        0 <= i < paths.len(),
        0 <= j < paths.len(),
        spec_parent(paths[i]) == Some(paths[j]),
    ensures
        j < i,
        last_index_of_path(paths, paths[j], i) == Some(j),
{
    lemma_parent_comes_first(paths[i]);
    lemma_path_rank(paths[j], paths[i], paths[j]);
    if j > i {
        assert(path_lt(paths[i], paths[j]));
    }
    lemma_last_index_of_path(paths, paths[j], i);
    match last_index_of_path(paths, paths[j], i) {
        Some(k) => {
            if k != j {
                lemma_path_rank(paths[k], paths[j], paths[j]);
                if k < j {
                    assert(path_lt(paths[k], paths[j]));
                } else {
                    assert(path_lt(paths[j], paths[k]));
                }
            }
        },
        None => {
            assert(paths[j] != paths[j]);
        },
    }
}

/// Ranks two byte strings.
pub fn rank_bytes(a: &[u8], b: &[u8]) -> (rank: Rank)
    ensures
        rank == bytes_rank(a@, b@),
{
    let mut i: usize = 0;
    while i < a.len() && i < b.len()
        invariant
            i <= a@.len(),
            i <= b@.len(),
            bytes_rank(a@, b@) == bytes_rank_from(a@, b@, i as int),
        decreases a@.len() - i,
    {
        if a[i] < b[i] {
            return Rank::Before;
        }
        if a[i] > b[i] {
            return Rank::After;
        }
        i += 1;
    }
    if i < b.len() {
        Rank::Before
    } else if i < a.len() {
        Rank::After
    } else {
        Rank::Same
    }
}

/// Ranks two texts.
pub fn rank_texts(a: &str, b: &str) -> (rank: Rank)
    ensures
        rank == text_rank(a@, b@),
{
    rank_bytes(a.as_bytes(), b.as_bytes())
}

/// Ranks two components.
pub fn rank_parts(a: &PathPart, b: &PathPart) -> (rank: Rank)
    ensures
        rank == part_rank(a@, b@),
{
    match (a, b) {
        (PathPart::Prefix(x), PathPart::Prefix(y)) => rank_texts(x.as_str(), y.as_str()),
        (PathPart::Prefix(_), _) => Rank::Before,
        (_, PathPart::Prefix(_)) => Rank::After,
        (PathPart::Root, PathPart::Root) => same_texts(),
        (PathPart::Root, _) => Rank::Before,
        (_, PathPart::Root) => Rank::After,
        (PathPart::Current, PathPart::Current) => same_texts(),
        (PathPart::Current, _) => Rank::Before,
        (_, PathPart::Current) => Rank::After,
        (PathPart::Parent, PathPart::Parent) => same_texts(),
        (PathPart::Parent, _) => Rank::Before,
        (_, PathPart::Parent) => Rank::After,
        (PathPart::Name(x), PathPart::Name(y)) => rank_texts(x.as_str(), y.as_str()),
    }
}

/// The rank of two components that carry no text.
fn same_texts() -> (rank: Rank)
    ensures
        rank == Rank::Same,
        text_rank(Seq::empty(), Seq::empty()) == Rank::Same,
{
    proof {
        lemma_text_rank(Seq::empty(), Seq::empty(), Seq::empty());
    }
    Rank::Same
}

/// Ranks two paths.
pub fn rank_paths(a: &SplitPath, b: &SplitPath) -> (rank: Rank)
    ensures
        rank == path_rank(a@, b@),
{
    let mut i: usize = 0;
    while i < a.parts.len() && i < b.parts.len()
        invariant
            i <= a@.len(),
            i <= b@.len(),
            path_rank(a@, b@) == path_rank_from(a@, b@, i as int),
        decreases a@.len() - i,
    {
        let rank = rank_parts(&a.parts[i], &b.parts[i]);
        match rank {
            Rank::Same => {},
            _ => {
                return rank;
            },
        }
        i += 1;
    }
    if i < b.parts.len() {
        Rank::Before
    } else if i < a.parts.len() {
        Rank::After
    } else {
        Rank::Same
    }
}

} // verus!
