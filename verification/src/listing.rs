//! Lists of paths as they come from a scan: each path with its text, its
//! components and whether it is a directory; kept in order and free of
//! repetitions.

use crate::path_order::{lemma_path_rank, path_le, path_lt, rank_paths, Rank};
use crate::paths::{parent_of_text, parent_text, path_parts, PartView, SplitPath};
use crate::sorting::sort_entries;
use vstd::prelude::*;

verus! {

/// One path of a list.
#[derive(Debug)]
pub struct PathEntry {
    pub text: String,
    pub is_dir: bool,
    pub split: SplitPath,
}

/// The mathematical value of a [`PathEntry`].
pub struct PathEntryView {
    pub text: Seq<char>,
    pub is_dir: bool,
    pub parts: Seq<PartView>,
}

impl View for PathEntry {
    type V = PathEntryView;

    open spec fn view(&self) -> PathEntryView {
        PathEntryView { text: self.text@, is_dir: self.is_dir, parts: self.split@ }
    }
}

/// The values of a list of entries.
pub open spec fn entry_values(entries: Seq<PathEntry>) -> Seq<PathEntryView> {
    Seq::new(entries.len(), |i: int| entries[i]@)
}

/// The entry that a path text and a directory flag give.
pub open spec fn spec_entry(text: Seq<char>, is_dir: bool) -> PathEntryView {
    PathEntryView { text, is_dir, parts: path_parts(text) }
}

/// Whether the components of every entry are those of its text.
pub open spec fn all_split(entries: Seq<PathEntryView>) -> bool {
    forall|i: int| 0 <= i < entries.len() ==> (#[trigger] entries[i]).parts == path_parts(
        entries[i].text,
    )
}

/// Whether no entry comes after one that follows it.
pub open spec fn ascending(entries: Seq<PathEntryView>) -> bool {
    forall|i: int, j: int|
        0 <= i < j < entries.len() ==> path_le(
            (#[trigger] entries[i]).parts,
            (#[trigger] entries[j]).parts,
        )
}

/// Whether every entry comes before all that follow it, so that no path
/// occurs twice.
pub open spec fn strictly_ascending(entries: Seq<PathEntryView>) -> bool {
    forall|i: int, j: int|
        0 <= i < j < entries.len() ==> path_lt(
            (#[trigger] entries[i]).parts,
            (#[trigger] entries[j]).parts,
        )
}

/// Whether some entry of the list has the path `parts`.
pub open spec fn has_path(entries: Seq<PathEntryView>, parts: Seq<PartView>) -> bool {
    exists|i: int| 0 <= i < entries.len() && (#[trigger] entries[i]).parts == parts
}

/// Whether every entry of `part` is an entry of `whole`.
pub open spec fn drawn_from(part: Seq<PathEntryView>, whole: Seq<PathEntryView>) -> bool {
    forall|k: int| 0 <= k < part.len() ==> whole.contains(#[trigger] part[k])
}

/// The entries among the first `upto` that have the path `parts`, in
/// order.
pub open spec fn with_path_upto(entries: Seq<PathEntryView>, parts: Seq<PartView>, upto: int) -> Seq<
    PathEntryView,
>
    decreases upto,
{
    if upto <= 0 {
        Seq::empty()
    } else if entries[upto - 1].parts == parts {
        with_path_upto(entries, parts, upto - 1).push(entries[upto - 1])
    } else {
        with_path_upto(entries, parts, upto - 1)
    }
}

/// The entries that have the path `parts`, in order.
pub open spec fn with_path(entries: Seq<PathEntryView>, parts: Seq<PartView>) -> Seq<
    PathEntryView,
> {
    with_path_upto(entries, parts, entries.len() as int)
}

/// Whether every entry of `kept` is the first entry of `given` that has
/// its path.
pub open spec fn keeps_first(kept: Seq<PathEntryView>, given: Seq<PathEntryView>) -> bool {
    forall|k: int|
        0 <= k < kept.len() ==> with_path(given, (#[trigger] kept[k]).parts).len() > 0 && kept[k]
            == with_path(given, kept[k].parts)[0]
}

/// Whether `kept` is the sorted set of the paths of `given`: it is strictly
/// ascending, it has every path that `given` has, and each of its entries
/// is the first entry of `given` with that path.
pub open spec fn sorted_set_of(kept: Seq<PathEntryView>, given: Seq<PathEntryView>) -> bool {
    &&& strictly_ascending(kept)
    &&& drawn_from(kept, given)
    &&& forall|i: int| 0 <= i < given.len() ==> has_path(kept, (#[trigger] given[i]).parts)
    &&& keeps_first(kept, given)
}

/// What a strictly ascending list knows of the path `parts`: whether it is
/// a directory, or nothing where the list does not have the path.
pub open spec fn spec_known_kind(known: Seq<PathEntryView>, parts: Seq<PartView>) -> Option<bool> {
    if has_path(known, parts) {
        Some(
            known[choose|k: int| 0 <= k < known.len() && (#[trigger] known[k]).parts == parts].is_dir,
        )
    } else {
        None
    }
}

/// The list without the entries that repeat the path of the entry just
/// before them, for the first `upto` entries.
pub open spec fn without_repeats(entries: Seq<PathEntryView>, upto: int) -> Seq<PathEntryView>
    decreases upto,
{
    if upto <= 0 {
        Seq::empty()
    } else if upto >= 2 && entries[upto - 1].parts == entries[upto - 2].parts {
        without_repeats(entries, upto - 1)
    } else {
        without_repeats(entries, upto - 1).push(entries[upto - 1])
    }
}

impl PathEntry {
    /// The entry of a path: its text is split into components.
    pub fn new(text: String, is_dir: bool) -> (entry: PathEntry)
        ensures
            entry@ == spec_entry(text@, is_dir),
    {
        let split = SplitPath::new(text.as_str());
        PathEntry { text, is_dir, split }
    }
}

/// An ascending list without its repeats is strictly ascending; every
/// entry of it is an entry of the list, and it has every path that the
/// list has.
pub proof fn lemma_without_repeats(entries: Seq<PathEntryView>, upto: int)
    requires
        ascending(entries),
        0 <= upto <= entries.len(),
    ensures
        strictly_ascending(without_repeats(entries, upto)),
        drawn_from(without_repeats(entries, upto), entries.take(upto)),
        forall|i: int|
            0 <= i < upto ==> has_path(without_repeats(entries, upto), (#[trigger] entries[i]).parts),
        upto > 0 ==> without_repeats(entries, upto).len() > 0 && without_repeats(
            entries,
            upto,
        ).last().parts == entries[upto - 1].parts,
    decreases upto,
{
    if upto > 0 {
        lemma_without_repeats(entries, upto - 1);
        let before = without_repeats(entries, upto - 1);
        let kept = without_repeats(entries, upto);
        let last = entries[upto - 1];
        assert forall|k: int| 0 <= k < kept.len() implies entries.take(upto).contains(
            #[trigger] kept[k],
        ) by {
            if k < before.len() {
                let head = entries.take(upto - 1);
                let i = choose|i: int| 0 <= i < head.len() && #[trigger] head[i] == before[k];
                assert(entries.take(upto)[i] == kept[k]);
            } else {
                assert(entries.take(upto)[upto - 1] == kept[k]);
            }
        }
        if upto >= 2 && last.parts == entries[upto - 2].parts {
            assert forall|i: int| 0 <= i < upto implies has_path(
                kept,
                (#[trigger] entries[i]).parts,
            ) by {
                if i == upto - 1 {
                    assert(has_path(before, entries[upto - 2].parts));
                }
            }
        } else {
            assert forall|i: int| 0 <= i < upto implies has_path(
                kept,
                (#[trigger] entries[i]).parts,
            ) by {
                if i < upto - 1 {
                    let k = choose|k: int|
                        0 <= k < before.len() && (#[trigger] before[k]).parts == entries[i].parts;
                    assert(kept[k].parts == entries[i].parts);
                } else {
                    assert(kept[kept.len() - 1].parts == entries[i].parts);
                }
            }
            assert forall|i: int, j: int| 0 <= i < j < kept.len() implies path_lt(
                (#[trigger] kept[i]).parts,
                (#[trigger] kept[j]).parts,
            ) by {
                if j == kept.len() - 1 {
                    let head = entries.take(upto - 1);
                    let x = choose|x: int| 0 <= x < head.len() && #[trigger] head[x] == before[i];
                    assert(entries[x] == before[i]);
                    let prev = entries[upto - 2];
                    assert(path_le(entries[x].parts, last.parts));
                    lemma_path_rank(entries[x].parts, last.parts, last.parts);
                    if entries[x].parts == last.parts {
                        if x < upto - 2 {
                            assert(path_le(entries[x].parts, prev.parts));
                            assert(path_le(prev.parts, last.parts));
                            lemma_path_rank(prev.parts, last.parts, entries[x].parts);
                            lemma_path_rank(last.parts, prev.parts, prev.parts);
                        }
                    }
                }
            }
        }
    }
}

/// The entries with a given path among the first `upto` are none exactly
/// when no entry before `upto` has the path.
pub proof fn lemma_with_path_upto(entries: Seq<PathEntryView>, parts: Seq<PartView>, upto: int)
    requires
        0 <= upto <= entries.len(),
    ensures
        with_path_upto(entries, parts, upto).len() > 0 <==> exists|i: int|
            0 <= i < upto && (#[trigger] entries[i]).parts == parts,
    decreases upto,
{
    if upto > 0 {
        lemma_with_path_upto(entries, parts, upto - 1);
        if entries[upto - 1].parts != parts {
            if exists|i: int| 0 <= i < upto && (#[trigger] entries[i]).parts == parts {
                let i = choose|i: int| 0 <= i < upto && (#[trigger] entries[i]).parts == parts;
                assert(i < upto - 1);
            }
        }
    }
}

/// In an ascending list without its repeats, every entry is the first of
/// the list that has its path.
pub proof fn lemma_without_repeats_keeps_first(entries: Seq<PathEntryView>, upto: int)
    requires
        ascending(entries),
        0 <= upto <= entries.len(),
    ensures
        forall|k: int|
            0 <= k < without_repeats(entries, upto).len() ==> {
                let kept = #[trigger] without_repeats(entries, upto)[k];
                with_path_upto(entries, kept.parts, upto).len() > 0 && kept == with_path_upto(
                    entries,
                    kept.parts,
                    upto,
                )[0]
            },
    decreases upto,
{
    if upto > 0 {
        lemma_without_repeats_keeps_first(entries, upto - 1);
        lemma_without_repeats(entries, upto - 1);
        lemma_without_repeats(entries, upto);
        let before = without_repeats(entries, upto - 1);
        let after = without_repeats(entries, upto);
        let last = entries[upto - 1];
        assert forall|k: int| 0 <= k < after.len() implies {
            let kept = #[trigger] after[k];
            with_path_upto(entries, kept.parts, upto).len() > 0 && kept == with_path_upto(
                entries,
                kept.parts,
                upto,
            )[0]
        } by {
            let kept = after[k];
            if k < before.len() {
                assert(kept == before[k]);
                let earlier = with_path_upto(entries, kept.parts, upto - 1);
                assert(earlier.len() > 0 && kept == earlier[0]);
            } else {
                assert(kept == last);
                lemma_with_path_upto(entries, last.parts, upto - 1);
                if exists|i: int| 0 <= i < upto - 1 && (#[trigger] entries[i]).parts == last.parts {
                    let i = choose|i: int|
                        0 <= i < upto - 1 && (#[trigger] entries[i]).parts == last.parts;
                    let prev = entries[upto - 2];
                    if i < upto - 2 {
                        assert(path_le(entries[i].parts, prev.parts));
                    }
                    assert(path_le(prev.parts, last.parts));
                    lemma_path_rank(prev.parts, last.parts, prev.parts);
                    lemma_path_rank(last.parts, prev.parts, last.parts);
                    assert(prev.parts == last.parts);
                }
            }
        }
    }
}

/// Two strictly ascending lists that have the same paths have them at the
/// same positions.
proof fn lemma_same_paths_same_places(a: Seq<PathEntryView>, b: Seq<PathEntryView>, k: int)
    requires
        strictly_ascending(a),
        strictly_ascending(b),
        forall|i: int| 0 <= i < a.len() ==> has_path(b, (#[trigger] a[i]).parts),
        forall|i: int| 0 <= i < b.len() ==> has_path(a, (#[trigger] b[i]).parts),
        0 <= k <= a.len(),
    ensures
        k <= b.len(),
        forall|i: int| 0 <= i < k ==> (#[trigger] a[i]).parts == b[i].parts,
    decreases k,
{
    if k > 0 {
        lemma_same_paths_same_places(a, b, k - 1);
        let at = k - 1;
        assert(has_path(b, a[at].parts));
        let j = choose|j: int| 0 <= j < b.len() && (#[trigger] b[j]).parts == a[at].parts;
        if j < at {
            assert(a[j].parts == b[j].parts);
            lemma_path_rank(a[j].parts, a[at].parts, a[at].parts);
        }
        assert(at < b.len());
        assert(has_path(a, b[at].parts));
        let i = choose|i: int| 0 <= i < a.len() && (#[trigger] a[i]).parts == b[at].parts;
        if i < at {
            assert(a[i].parts == b[i].parts);
            lemma_path_rank(b[i].parts, b[at].parts, b[at].parts);
        }
        if j > at && i > at {
            lemma_path_rank(a[at].parts, a[i].parts, b[j].parts);
            lemma_path_rank(b[at].parts, b[j].parts, a[i].parts);
            lemma_path_rank(a[at].parts, b[at].parts, a[at].parts);
        }
    }
}

/// There is one sorted set of the paths of a list and no other.
pub proof fn lemma_sorted_set_is_unique(
    a: Seq<PathEntryView>,
    b: Seq<PathEntryView>,
    given: Seq<PathEntryView>,
)
    requires
        sorted_set_of(a, given),
        sorted_set_of(b, given),
    ensures
        a == b,
{
    assert forall|i: int| 0 <= i < a.len() implies has_path(b, (#[trigger] a[i]).parts) by {
        let x = choose|x: int| 0 <= x < given.len() && given[x] == a[i];
        assert(has_path(b, given[x].parts));
    }
    assert forall|i: int| 0 <= i < b.len() implies has_path(a, (#[trigger] b[i]).parts) by {
        let x = choose|x: int| 0 <= x < given.len() && given[x] == b[i];
        assert(has_path(a, given[x].parts));
    }
    lemma_same_paths_same_places(a, b, a.len() as int);
    lemma_same_paths_same_places(b, a, b.len() as int);
    assert(a =~= b);
}

/// Takes out every entry that repeats the path of the entry before it.
pub fn dedup_entries(entries: Vec<PathEntry>) -> (kept: Vec<PathEntry>)
    ensures
        entry_values(kept@) == without_repeats(entry_values(entries@), entries@.len() as int),
{
    let ghost all = entry_values(entries@);
    let n = entries.len();
    let mut rest = entries;
    let mut turned: Vec<PathEntry> = Vec::new();
    while rest.len() > 0
        invariant
            rest@.len() + turned@.len() == n,
            all.len() == n,
            forall|k: int| 0 <= k < rest@.len() ==> (#[trigger] rest@[k])@ == all[k],
            forall|k: int| 0 <= k < turned@.len() ==> (#[trigger] turned@[k])@ == all[n - 1 - k],
        decreases rest@.len(),
    {
        match rest.pop() {
            Some(entry) => turned.push(entry),
            None => {},
        }
    }
    let mut kept: Vec<PathEntry> = Vec::new();
    while turned.len() > 0
        invariant
            turned@.len() <= n,
            all.len() == n,
            forall|k: int| 0 <= k < turned@.len() ==> (#[trigger] turned@[k])@ == all[n - 1 - k],
            entry_values(kept@) == without_repeats(all, n - turned@.len()),
            n - turned@.len() > 0 ==> kept@.len() > 0 && kept@.last()@.parts == all[n
                - turned@.len() - 1].parts,
        decreases turned@.len(),
    {
        let ghost at = n - turned@.len();
        match turned.pop() {
            Some(entry) => {
                assert(entry@ == all[at]);
                let repeat = kept.len() > 0 && kept[kept.len() - 1].split.same_as(&entry.split);
                if !repeat {
                    kept.push(entry);
                    assert(entry_values(kept@) =~= without_repeats(all, at).push(all[at]));
                }
            },
            None => {},
        }
    }
    kept
}

/// Puts the entries in the order of their paths and keeps one entry for
/// each path.
fn sorted_unique(entries: Vec<PathEntry>) -> (kept: Vec<PathEntry>)
    ensures
        sorted_set_of(entry_values(kept@), entry_values(entries@)),
{
    let ghost given = entries@;
    let mut sorted = entries;
    sort_entries(&mut sorted);
    let ghost ordered = entry_values(sorted@);
    proof {
        assert(ascending(ordered));
        lemma_without_repeats(ordered, ordered.len() as int);
        assert(ordered.take(ordered.len() as int) =~= ordered);
        sorted@.to_multiset_ensures();
        given.to_multiset_ensures();
        assert forall|k: int| 0 <= k < ordered.len() implies entry_values(given).contains(
            #[trigger] ordered[k],
        ) by {
            assert(sorted@.contains(sorted@[k]));
            assert(given.to_multiset().count(sorted@[k]) > 0);
            assert(given.contains(sorted@[k]));
            let i = choose|i: int| 0 <= i < given.len() && given[i] == sorted@[k];
            assert(entry_values(given)[i] == ordered[k]);
        }
        assert forall|i: int| 0 <= i < given.len() implies has_path(
            ordered,
            (#[trigger] given[i])@.parts,
        ) by {
            assert(given.contains(given[i]));
            assert(sorted@.to_multiset().count(given[i]) > 0);
            assert(sorted@.contains(given[i]));
            let k = choose|k: int| 0 <= k < sorted@.len() && sorted@[k] == given[i];
            assert(ordered[k].parts == given[i]@.parts);
        }
    }
    let kept = dedup_entries(sorted);
    proof {
        lemma_without_repeats_keeps_first(ordered, ordered.len() as int);
        let values = entry_values(kept@);
        assert forall|k: int| 0 <= k < values.len() implies with_path(
            entry_values(given),
            (#[trigger] values[k]).parts,
        ).len() > 0 && values[k] == with_path(entry_values(given), values[k].parts)[0] by {
            assert(with_path(ordered, values[k].parts) == with_path(
                entry_values(given),
                values[k].parts,
            ));
        }
        assert forall|k: int| 0 <= k < values.len() implies entry_values(given).contains(
            #[trigger] values[k],
        ) by {
            assert(ordered.contains(values[k]));
        }
        assert forall|i: int| 0 <= i < given.len() implies has_path(
            values,
            (#[trigger] entry_values(given)[i]).parts,
        ) by {
            assert(has_path(ordered, given[i]@.parts));
            let k = choose|k: int|
                0 <= k < ordered.len() && (#[trigger] ordered[k]).parts == given[i]@.parts;
            assert(has_path(values, ordered[k].parts));
        }
    }
    kept
}

/// Finds the entry of a strictly ascending list that has the path `path`.
fn find_path(sorted: &[PathEntry], path: &SplitPath) -> (found: Option<usize>)
    requires
        strictly_ascending(entry_values(sorted@)),
    ensures
        match found {
            Some(k) => k < sorted@.len() && sorted@[k as int]@.parts == path@,
            None => !has_path(entry_values(sorted@), path@),
        },
{
    let ghost values = entry_values(sorted@);
    let mut low: usize = 0;
    let mut high: usize = sorted.len();
    while low < high
        invariant
            low <= high <= sorted@.len(),
            values == entry_values(sorted@),
            strictly_ascending(values),
            forall|k: int| 0 <= k < low ==> path_lt((#[trigger] values[k]).parts, path@),
            forall|k: int| high <= k < values.len() ==> path_lt(path@, (#[trigger] values[k]).parts),
        decreases high - low,
    {
        let middle = low + (high - low) / 2;
        let ghost at = values[middle as int].parts;
        match rank_paths(&sorted[middle].split, path) {
            Rank::Same => {
                proof {
                    lemma_path_rank(at, path@, path@);
                }
                return Some(middle);
            },
            Rank::Before => {
                proof {
                    assert forall|k: int| 0 <= k < middle + 1 implies path_lt(
                        (#[trigger] values[k]).parts,
                        path@,
                    ) by {
                        if k < middle {
                            lemma_path_rank(values[k].parts, at, path@);
                        }
                    }
                }
                low = middle + 1;
            },
            Rank::After => {
                proof {
                    lemma_path_rank(at, path@, path@);
                    assert forall|k: int| middle <= k < values.len() implies path_lt(
                        path@,
                        (#[trigger] values[k]).parts,
                    ) by {
                        if k > middle {
                            lemma_path_rank(path@, at, values[k].parts);
                        }
                    }
                }
                high = middle;
            },
        }
    }
    proof {
        if has_path(values, path@) {
            let k = choose|k: int| 0 <= k < values.len() && (#[trigger] values[k]).parts == path@;
            lemma_path_rank(values[k].parts, path@, path@);
        }
    }
    None
}

/// Tells whether a strictly ascending list knows the path `path`, and if
/// so whether as a directory.
fn known_kind(sorted: &[PathEntry], path: &SplitPath) -> (kind: Option<bool>)
    requires
        strictly_ascending(entry_values(sorted@)),
    ensures
        kind == spec_known_kind(entry_values(sorted@), path@),
{
    match find_path(sorted, path) {
        Some(k) => {
            proof {
                let values = entry_values(sorted@);
                assert(values[k as int].parts == path@);
                let other = choose|x: int|
                    0 <= x < values.len() && (#[trigger] values[x]).parts == path@;
                lemma_path_rank(path@, path@, path@);
                assert(other == k);
            }
            Some(sorted[k].is_dir)
        },
        None => None,
    }
}

/// A set of paths: entries in the order of their paths, no path twice.
pub struct PathSet {
    entries: Vec<PathEntry>,
}

impl View for PathSet {
    type V = Seq<PathEntryView>;

    closed spec fn view(&self) -> Seq<PathEntryView> {
        entry_values(self.entries@)
    }
}

impl PathSet {
    #[verifier::type_invariant]
    spec fn in_order(self) -> bool {
        strictly_ascending(entry_values(self.entries@))
    }

    /// The set of the paths of `entries`: for each path, the first entry
    /// that has it.
    pub fn new(entries: Vec<PathEntry>) -> (set: PathSet)
        ensures
            sorted_set_of(set@, entry_values(entries@)),
    {
        PathSet { entries: sorted_unique(entries) }
    }

    /// The set whose entries are `entries`, where these are in the order of
    /// their paths with no path twice; none otherwise.
    pub fn from_sorted(entries: Vec<PathEntry>) -> (set: Option<PathSet>)
        ensures
            set is Some <==> strictly_ascending(entry_values(entries@)),
            set is Some ==> set->0@ == entry_values(entries@),
    {
        if is_strictly_ascending(entries.as_slice()) {
            Some(PathSet { entries })
        } else {
            None
        }
    }

    /// The entries, in order.
    pub fn as_slice(&self) -> (entries: &[PathEntry])
        ensures
            entry_values(entries@) == self@,
            strictly_ascending(self@),
    {
        proof {
            use_type_invariant(self);
        }
        self.entries.as_slice()
    }

    /// The entries, in order.
    pub fn into_entries(self) -> (entries: Vec<PathEntry>)
        ensures
            entry_values(entries@) == self@,
            strictly_ascending(self@),
    {
        proof {
            use_type_invariant(&self);
        }
        self.entries
    }

    /// How many paths the set has.
    pub fn len(&self) -> (n: usize)
        ensures
            n == self@.len(),
    {
        self.entries.len()
    }

    /// Whether the set has no paths.
    pub fn is_empty(&self) -> (empty: bool)
        ensures
            empty == (self@.len() == 0),
    {
        self.entries.len() == 0
    }

    /// Where in the set the path `path` stands, if the set has it.
    pub fn find(&self, path: &SplitPath) -> (found: Option<usize>)
        ensures
            match found {
                Some(k) => k < self@.len() && self@[k as int].parts == path@,
                None => !has_path(self@, path@),
            },
    {
        proof {
            use_type_invariant(self);
        }
        find_path(self.entries.as_slice(), path)
    }

    /// Whether the set has the path `path`.
    pub fn contains(&self, path: &SplitPath) -> (has: bool)
        ensures
            has == has_path(self@, path@),
    {
        let found = self.find(path);
        proof {
            if found is Some {
                assert(self@[found->0 as int].parts == path@);
            }
        }
        found.is_some()
    }

    /// What the set knows of the path `path`: whether it is a directory,
    /// or nothing where the set does not have the path.
    pub fn kind_of(&self, path: &SplitPath) -> (kind: Option<bool>)
        ensures
            kind == spec_known_kind(self@, path@),
    {
        proof {
            use_type_invariant(self);
        }
        known_kind(self.entries.as_slice(), path)
    }
}

/// The ancestors of the path `text` that lie at or under the root, nearest
/// first and none beyond the root itself, each as a directory.
pub open spec fn ancestor_entries(text: Seq<char>, root: Seq<PartView>) -> Seq<PathEntryView>
    decreases text.len(),
{
    match parent_text(text) {
        Some(up) => if up.len() < text.len() && root.is_prefix_of(path_parts(up)) {
            if path_parts(up) == root {
                seq![spec_entry(up, true)]
            } else {
                seq![spec_entry(up, true)] + ancestor_entries(up, root)
            }
        } else {
            Seq::empty()
        },
        None => Seq::empty(),
    }
}

/// Adds to `out` the ancestors of the path `text` that lie at or under the
/// root.
pub fn push_ancestors(out: &mut Vec<PathEntry>, text: &str, root: &SplitPath)
    ensures
        entry_values(final(out)@) == entry_values(old(out)@) + ancestor_entries(text@, root@),
{
    let ghost start = entry_values(out@);
    let ghost mut done: Seq<PathEntryView> = Seq::empty();
    let mut current: String = text.to_owned();
    assert(start + done =~= start);
    loop
        invariant_except_break
            entry_values(out@) == start + done,
            done + ancestor_entries(current@, root@) == ancestor_entries(text@, root@),
        ensures
            entry_values(out@) == start + ancestor_entries(text@, root@),
        decreases current@.len(),
    {
        let ghost rest = ancestor_entries(current@, root@);
        match parent_of_text(current.as_str()) {
            Some(up) => {
                let entry = PathEntry::new(up.clone(), true);
                if !entry.split.starts_with(root) {
                    assert(done + rest =~= done);
                    break ;
                }
                let at_root = entry.split.same_as(root);
                let ghost value = entry@;
                let ghost before = entry_values(out@);
                out.push(entry);
                proof {
                    assert(entry_values(out@) =~= before.push(value));
                    assert(before.push(value) =~= start + done.push(value));
                    if at_root {
                        assert(done.push(value) =~= done + rest);
                    } else {
                        assert(done.push(value) + ancestor_entries(up@, root@) =~= done + rest);
                    }
                    done = done.push(value);
                }
                if at_root {
                    break ;
                }
                current = up;
            },
            None => {
                assert(done + rest =~= done);
                break ;
            },
        }
    }
}

/// The seeds among the first `upto`, each followed by its ancestors, after
/// the root where that is asked for.
pub open spec fn gathered(
    seeds: Seq<PathEntryView>,
    root_text: Seq<char>,
    include_root: bool,
    upto: int,
) -> Seq<PathEntryView>
    decreases upto,
{
    if upto <= 0 {
        if include_root {
            seq![spec_entry(root_text, true)]
        } else {
            Seq::empty()
        }
    } else {
        gathered(seeds, root_text, include_root, upto - 1).push(seeds[upto - 1])
            + ancestor_entries(seeds[upto - 1].text, path_parts(root_text))
    }
}

/// A copy of an entry.
pub fn copy_entry(entry: &PathEntry) -> (copy: PathEntry)
    ensures
        copy@ == entry@,
{
    let n = entry.split.parts.len();
    let mut parts: Vec<crate::paths::PathPart> = Vec::new();
    let mut k: usize = 0;
    while k < n
        invariant
            k <= n == entry.split.parts@.len(),
            parts@.len() == k,
            forall|m: int| 0 <= m < k ==> (#[trigger] parts@[m])@ == entry.split.parts@[m]@,
        decreases n - k,
    {
        let part = match &entry.split.parts[k] {
            crate::paths::PathPart::Prefix(text) => crate::paths::PathPart::Prefix(text.clone()),
            crate::paths::PathPart::Root => crate::paths::PathPart::Root,
            crate::paths::PathPart::Current => crate::paths::PathPart::Current,
            crate::paths::PathPart::Parent => crate::paths::PathPart::Parent,
            crate::paths::PathPart::Name(text) => crate::paths::PathPart::Name(text.clone()),
        };
        parts.push(part);
        k += 1;
    }
    let split = SplitPath { parts };
    assert(split@ =~= entry.split@);
    PathEntry { text: entry.text.clone(), is_dir: entry.is_dir, split }
}

/// Collects the seeds and all their ancestors at or under the root, and
/// the root itself where that is asked for, in the order of their paths
/// and each path once.
pub fn paths_with_ancestors(seeds: &[PathEntry], root_text: &str, include_root: bool) -> (paths:
    PathSet)
    ensures
        all_split(entry_values(seeds@)) ==> all_split(paths@),
        sorted_set_of(
            paths@,
            gathered(entry_values(seeds@), root_text@, include_root, seeds@.len() as int),
        ),
{
    let root = SplitPath::new(root_text);
    let ghost given = entry_values(seeds@);
    let n = seeds.len();
    let mut all: Vec<PathEntry> = Vec::new();
    if include_root {
        all.push(PathEntry::new(root_text.to_owned(), true));
    }
    assert(entry_values(all@) =~= gathered(given, root_text@, include_root, 0));
    let mut i: usize = 0;
    while i < n
        invariant
            i <= n == seeds@.len(),
            given == entry_values(seeds@),
            root@ == path_parts(root_text@),
            entry_values(all@) == gathered(given, root_text@, include_root, i as int),
        decreases n - i,
    {
        let ghost before = entry_values(all@);
        all.push(copy_entry(&seeds[i]));
        assert(entry_values(all@) =~= before.push(given[i as int]));
        push_ancestors(&mut all, seeds[i].text.as_str(), &root);
        i += 1;
    }
    let ghost wanted = entry_values(all@);
    let paths = PathSet::new(all);
    proof {
        if all_split(given) {
            lemma_gathered_split(given, root_text@, include_root, n as int);
            let values = paths@;
            assert forall|k: int| 0 <= k < values.len() implies (#[trigger] values[k]).parts
                == path_parts(values[k].text) by {
                let x = choose|x: int| 0 <= x < wanted.len() && wanted[x] == values[k];
                assert(wanted[x].parts == path_parts(wanted[x].text));
            }
        }
    }
    paths
}

/// Tells whether every entry comes before all that follow it.
pub fn is_strictly_ascending(entries: &[PathEntry]) -> (is: bool)
    ensures
        is == strictly_ascending(entry_values(entries@)),
{
    let ghost values = entry_values(entries@);
    let n = entries.len();
    let mut i: usize = 1;
    while i < n
        invariant
            1 <= i,
            n == entries@.len(),
            values == entry_values(entries@),
            forall|a: int, b: int|
                0 <= a < b < i && b < n ==> path_lt(
                    (#[trigger] values[a]).parts,
                    (#[trigger] values[b]).parts,
                ),
        decreases n - i,
    {
        match rank_paths(&entries[i - 1].split, &entries[i].split) {
            Rank::Before => {
                proof {
                    assert forall|a: int, b: int| 0 <= a < b < i + 1 && b < n implies path_lt(
                        (#[trigger] values[a]).parts,
                        (#[trigger] values[b]).parts,
                    ) by {
                        if b == i && a < i - 1 {
                            lemma_path_rank(values[a].parts, values[i - 1].parts, values[i as int].parts);
                        }
                    }
                }
            },
            _ => {
                assert(!path_lt(values[i - 1].parts, values[i as int].parts));
                return false;
            },
        }
        i += 1;
    }
    true
}

/// The components of every ancestor entry are those of its text.
pub proof fn lemma_ancestors_split(text: Seq<char>, root: Seq<PartView>)
    ensures
        all_split(ancestor_entries(text, root)),
    decreases text.len(),
{
    match parent_text(text) {
        Some(up) => {
            if up.len() < text.len() && root.is_prefix_of(path_parts(up)) && path_parts(up)
                != root {
                lemma_ancestors_split(up, root);
            }
        },
        None => {},
    }
}

/// Where the components of every seed are those of its text, the same
/// holds of all that is gathered from the seeds.
pub proof fn lemma_gathered_split(
    seeds: Seq<PathEntryView>,
    root_text: Seq<char>,
    include_root: bool,
    upto: int,
)
    requires
        all_split(seeds),
        0 <= upto <= seeds.len(),
    ensures
        all_split(gathered(seeds, root_text, include_root, upto)),
    decreases upto,
{
    if upto > 0 {
        lemma_gathered_split(seeds, root_text, include_root, upto - 1);
        lemma_ancestors_split(seeds[upto - 1].text, path_parts(root_text));
    }
}

} // verus!
