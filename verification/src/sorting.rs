//! Sorting a list of entries by path.

use crate::listing::{entry_values, with_path, PathEntry};
use crate::path_order::{path_le, path_rank, rank_paths, Rank};
use crate::paths::PartView;
use std::cmp::Ordering;
use vstd::prelude::*;

verus! {

/// Tells how the path of `a` stands to the path of `b`.
pub fn ordering_of(a: &PathEntry, b: &PathEntry) -> (o: Ordering)
    ensures
        path_rank(a.split@, b.split@) == Rank::Before <==> o == Ordering::Less,
        path_rank(a.split@, b.split@) == Rank::Same <==> o == Ordering::Equal,
        path_rank(a.split@, b.split@) == Rank::After <==> o == Ordering::Greater,
{
    match rank_paths(&a.split, &b.split) {
        Rank::Before => Ordering::Less,
        Rank::Same => Ordering::Equal,
        Rank::After => Ordering::Greater,
    }
}

/// Sorts the entries by path with `slice::sort_by`: afterwards the list
/// holds the same entries as before, no entry comes after one that follows
/// it, and the entries that have the same path are in the order in which
/// they were.
#[verifier::external_body]
pub(crate) fn sort_entries(entries: &mut Vec<PathEntry>)
    ensures
        final(entries)@.to_multiset() == old(entries)@.to_multiset(),
        forall|i: int, j: int|
            0 <= i < j < final(entries)@.len() ==> path_le(
                #[trigger] final(entries)@[i].split@,
                #[trigger] final(entries)@[j].split@,
            ),
        forall|parts: Seq<PartView>| #[trigger]
            with_path(entry_values(final(entries)@), parts) == with_path(
                entry_values(old(entries)@),
                parts,
            ),
{
    entries.sort_by(|a, b| ordering_of(a, b));
}

} // verus!
