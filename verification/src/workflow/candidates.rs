//! Which patterns count, and which scanned paths become candidates.

use crate::globs::{any_accepts, glob_matches, glob_texts, matches_any, Glob};
use crate::listing::{
    all_split, entry_values, has_path, sorted_set_of, spec_entry, PathEntry, PathEntryView, PathSet,
};
use crate::paths::{
    path_parts, relative_text, spec_file_name, strip_prefix_text, PartView, SplitPath,
};
use crate::text::string_views;
use vstd::prelude::*;
use vstd::string::{StrSliceExecFns, StringExecFns};

verus! {

/// The pattern that stands for every file under the root.
pub open spec fn default_pattern() -> Seq<char> {
    "**/*"@
}

/// The path text that stands for the root itself.
pub open spec fn dot_text() -> Seq<char> {
    "."@
}

/// The patterns to filter with: those given, without the first where that
/// one names the root, and the default pattern where none is left.
pub open spec fn spec_effective_patterns(patterns: Seq<Seq<char>>, first_is_root: bool) -> Seq<
    Seq<char>,
> {
    let rest = if first_is_root && patterns.len() > 0 {
        patterns.skip(1)
    } else {
        patterns
    };
    if rest.len() == 0 {
        seq![default_pattern()]
    } else {
        rest
    }
}

/// Whether one of the patterns is the default pattern.
pub open spec fn spec_holds_default(patterns: Seq<Seq<char>>) -> bool {
    exists|k: int| 0 <= k < patterns.len() && #[trigger] patterns[k] == default_pattern()
}

/// The text that the patterns are matched against for a path: the path as
/// seen from the root or, for the root itself, the name of the root where
/// it has one. A path that does not lie under the root has none.
pub open spec fn spec_match_text(path: Seq<char>, root_text: Seq<char>, root: Seq<PartView>) -> Option<
    Seq<char>,
> {
    match relative_text(path, root_text) {
        Some(rest) => if rest.len() == 0 {
            match spec_file_name(root) {
                Some(name) => Some(name),
                None => Some(rest),
            }
        } else {
            Some(rest)
        },
        None => None,
    }
}

/// Whether a file is let through by the patterns.
pub open spec fn spec_file_matches(
    patterns: Seq<Glob>,
    path: Seq<char>,
    root_text: Seq<char>,
    root: Seq<PartView>,
) -> bool {
    match spec_match_text(path, root_text, root) {
        Some(text) => any_accepts(patterns, text),
        None => false,
    }
}

/// Whether a scanned entry is kept as a candidate: every directory is, and
/// every file that the patterns let through.
pub open spec fn keeps(
    entry: PathEntryView,
    patterns: Seq<Glob>,
    root_text: Seq<char>,
    root: Seq<PartView>,
) -> bool {
    entry.is_dir || spec_file_matches(patterns, entry.text, root_text, root)
}

/// The entries that a scan gives.
pub open spec fn scanned(found: Seq<(String, bool)>) -> Seq<PathEntryView> {
    Seq::new(found.len(), |i: int| spec_entry(found[i].0@, found[i].1))
}

/// The candidates among the first `upto` scanned entries, in order.
pub open spec fn kept_upto(
    found: Seq<PathEntryView>,
    patterns: Seq<Glob>,
    root_text: Seq<char>,
    root: Seq<PartView>,
    upto: int,
) -> Seq<PathEntryView>
    decreases upto,
{
    if upto <= 0 {
        Seq::empty()
    } else if keeps(found[upto - 1], patterns, root_text, root) {
        kept_upto(found, patterns, root_text, root, upto - 1).push(found[upto - 1])
    } else {
        kept_upto(found, patterns, root_text, root, upto - 1)
    }
}

/// Whether the patterns ask for the root: one of them matches the current
/// directory or the name of the root, or is the default pattern.
pub open spec fn root_implied(patterns: Seq<Glob>, root: Seq<PartView>) -> bool {
    exists|k: int|
        0 <= k < patterns.len() && pattern_asks_for_root((#[trigger] patterns[k])@, root)
}

/// Whether one pattern asks for the root.
pub open spec fn pattern_asks_for_root(pattern: Seq<char>, root: Seq<PartView>) -> bool {
    ||| glob_matches(pattern, dot_text())
    ||| pattern == default_pattern()
    ||| match spec_file_name(root) {
        Some(name) => glob_matches(pattern, name),
        None => false,
    }
}

/// Whether some entry lies under the root without being the root.
pub open spec fn has_child_of(entries: Seq<PathEntryView>, root: Seq<PartView>) -> bool {
    exists|i: int|
        0 <= i < entries.len() && root.is_prefix_of((#[trigger] entries[i]).parts)
            && entries[i].parts != root
}

/// The candidates before they are put in order: the scanned entries that
/// are kept and, where the root is a directory that is not among them but
/// is asked for or has something kept under it, the root.
pub open spec fn spec_selected(
    found: Seq<PathEntryView>,
    patterns: Seq<Glob>,
    root_text: Seq<char>,
    root_is_dir: bool,
) -> Seq<PathEntryView> {
    let root = path_parts(root_text);
    let kept = kept_upto(found, patterns, root_text, root, found.len() as int);
    if !has_path(kept, root) && root_is_dir && (root_implied(patterns, root) || has_child_of(
        kept,
        root,
    )) {
        kept.push(spec_entry(root_text, true))
    } else {
        kept
    }
}

/// Gives the patterns to filter with.
pub fn effective_patterns(patterns: &[String], first_is_root: bool) -> (effective: Vec<String>)
    ensures
        string_views(effective@) == spec_effective_patterns(string_views(patterns@), first_is_root),
{
    let n = patterns.len();
    let from: usize = if first_is_root && n > 0 {
        1
    } else {
        0
    };
    let mut effective: Vec<String> = Vec::new();
    let mut k: usize = from;
    while k < n
        invariant
            from <= k <= n == patterns@.len(),
            effective@.len() == k - from,
            forall|m: int| 0 <= m < effective@.len() ==> (#[trigger] effective@[m])@ == patterns@[m
                + from]@,
        decreases n - k,
    {
        effective.push(patterns[k].clone());
        k += 1;
    }
    if effective.len() == 0 {
        effective.push(String::from_str("**/*"));
        assert(string_views(effective@) =~= seq![default_pattern()]);
    } else {
        assert(string_views(effective@) =~= string_views(patterns@).skip(from as int));
        assert(from == 0 ==> string_views(patterns@).skip(0) =~= string_views(patterns@));
    }
    effective
}

/// Tells whether `text` is the default pattern.
pub fn is_default_pattern(text: &str) -> (is: bool)
    ensures
        is == (text@ == default_pattern()),
{
    let default = String::from_str("**/*");
    let given = String::from_str(text);
    given == default
}

/// Tells whether one of the patterns is the default pattern.
pub fn holds_default(patterns: &[String]) -> (holds: bool)
    ensures
        holds == spec_holds_default(string_views(patterns@)),
{
    let n = patterns.len();
    let mut k: usize = 0;
    while k < n
        invariant
            k <= n == patterns@.len(),
            forall|m: int| 0 <= m < k ==> #[trigger] string_views(patterns@)[m] != default_pattern(),
        decreases n - k,
    {
        if is_default_pattern(patterns[k].as_str()) {
            assert(string_views(patterns@)[k as int] == default_pattern());
            return true;
        }
        k += 1;
    }
    false
}

/// Tells whether the patterns that were given leave nothing to filter
/// with: some were given, none of them is well formed, and none of them is
/// the default pattern.
pub fn no_pattern_usable(usable: &[Glob], given: &[String]) -> (none: bool)
    ensures
        none == (usable@.len() == 0 && given@.len() > 0 && !spec_holds_default(string_views(given@))),
{
    usable.len() == 0 && given.len() > 0 && !holds_default(given)
}

/// Gives the text that the patterns are matched against for a path.
pub fn match_text(path: &str, root_text: &str, root: &SplitPath) -> (text: Option<String>)
    ensures
        match text {
            Some(t) => spec_match_text(path@, root_text@, root@) == Some(t@),
            None => spec_match_text(path@, root_text@, root@) is None,
        },
{
    match strip_prefix_text(path, root_text) {
        Some(rest) => {
            if rest.as_str().unicode_len() == 0 {
                match root.file_name() {
                    Some(name) => Some(name.clone()),
                    None => Some(rest),
                }
            } else {
                Some(rest)
            }
        },
        None => None,
    }
}

/// Tells whether a file is let through by the patterns.
pub fn file_matches(patterns: &[Glob], path: &str, root_text: &str, root: &SplitPath) -> (yes:
    bool)
    ensures
        yes == spec_file_matches(patterns@, path@, root_text@, root@),
{
    match match_text(path, root_text, root) {
        Some(text) => matches_any(patterns, text.as_str()),
        None => false,
    }
}

/// Tells whether the patterns ask for the root.
pub fn asks_for_root(patterns: &[Glob], root: &SplitPath) -> (yes: bool)
    ensures
        yes == root_implied(patterns@, root@),
{
    let n = patterns.len();
    let mut k: usize = 0;
    while k < n
        invariant
            k <= n == patterns@.len(),
            forall|m: int| 0 <= m < k ==> !pattern_asks_for_root((#[trigger] patterns@[m])@, root@),
        decreases n - k,
    {
        let pattern = &patterns[k];
        let by_name = match root.file_name() {
            Some(name) => pattern.matches(name.as_str()),
            None => false,
        };
        if pattern.matches(".") || is_default_pattern(pattern.as_str()) || by_name {
            return true;
        }
        k += 1;
    }
    false
}

/// Picks the candidates out of a scan: the directories and the files that
/// the patterns let through, together with the root where it is asked for,
/// in the order of their paths and each path once.
pub fn select_candidates(
    found: &[(String, bool)],
    root_text: &str,
    patterns: &[Glob],
    root_is_dir: bool,
) -> (candidates: PathSet)
    ensures
        all_split(candidates@),
        sorted_set_of(
            candidates@,
            spec_selected(scanned(found@), patterns@, root_text@, root_is_dir),
        ),
{
    let root = SplitPath::new(root_text);
    let ghost all = scanned(found@);
    let n = found.len();
    let mut kept: Vec<PathEntry> = Vec::new();
    let mut has_root = false;
    let mut has_child = false;
    let mut i: usize = 0;
    while i < n
        invariant
            i <= n == found@.len(),
            all == scanned(found@),
            root@ == path_parts(root_text@),
            entry_values(kept@) == kept_upto(all, patterns@, root_text@, root@, i as int),
            has_root == has_path(entry_values(kept@), root@),
            has_child == has_child_of(entry_values(kept@), root@),
            all_split(entry_values(kept@)),
        decreases n - i,
    {
        let ghost before = entry_values(kept@);
        let is_dir = found[i].1;
        if is_dir || file_matches(patterns, found[i].0.as_str(), root_text, &root) {
            let entry = PathEntry::new(found[i].0.clone(), is_dir);
            let ghost value = entry@;
            let is_root = entry.split.same_as(&root);
            let under = entry.split.starts_with(&root);
            kept.push(entry);
            proof {
                let after = entry_values(kept@);
                assert(after =~= before.push(value));
                assert(has_path(after, root@) == (has_root || is_root)) by {
                    if has_path(before, root@) {
                        let x = choose|x: int|
                            0 <= x < before.len() && (#[trigger] before[x]).parts == root@;
                        assert(after[x].parts == root@);
                    }
                    if is_root {
                        assert(after[after.len() - 1].parts == root@);
                    }
                }
                assert(has_child_of(after, root@) == (has_child || (under && !is_root))) by {
                    if has_child_of(before, root@) {
                        let x = choose|x: int|
                            0 <= x < before.len() && root@.is_prefix_of(
                                (#[trigger] before[x]).parts,
                            ) && before[x].parts != root@;
                        assert(root@.is_prefix_of(after[x].parts) && after[x].parts != root@);
                    }
                    if under && !is_root {
                        assert(root@.is_prefix_of(after[after.len() - 1].parts));
                    }
                }
            }
            has_root = has_root || is_root;
            has_child = has_child || (under && !is_root);
        }
        i += 1;
    }
    if !has_root && root_is_dir && (has_child || asks_for_root(patterns, &root)) {
        let ghost before = entry_values(kept@);
        kept.push(PathEntry::new(String::from_str(root_text), true));
        assert(entry_values(kept@) =~= before.push(spec_entry(root_text@, true)));
    }
    let ghost chosen = entry_values(kept@);
    assert(chosen == spec_selected(all, patterns@, root_text@, root_is_dir));
    let candidates = PathSet::new(kept);
    proof {
        let values = candidates@;
        assert forall|k: int| 0 <= k < values.len() implies (#[trigger] values[k]).parts
            == path_parts(values[k].text) by {
            let x = choose|x: int| 0 <= x < chosen.len() && chosen[x] == values[k];
            assert(chosen[x].parts == path_parts(chosen[x].text));
        }
    }
    candidates
}

/// Tells whether a scan that came back empty did so under criteria of the
/// user's own: the candidates are empty, and it is not the case that the
/// default pattern was in force with no restriction on file types.
pub fn scan_was_empty_for_criteria(
    candidates_empty: bool,
    patterns: &[Glob],
    type_filter_empty: bool,
) -> (yes: bool)
    ensures
        yes == (candidates_empty && !(spec_holds_default(glob_texts(patterns@))
            && type_filter_empty)),
{
    candidates_empty && !(type_filter_empty && globs_hold_default(patterns))
}

/// Tells whether one of the compiled patterns is the default pattern.
pub fn globs_hold_default(patterns: &[Glob]) -> (holds: bool)
    ensures
        holds == spec_holds_default(glob_texts(patterns@)),
{
    let n = patterns.len();
    let mut k: usize = 0;
    while k < n
        invariant
            k <= n == patterns@.len(),
            forall|m: int| 0 <= m < k ==> #[trigger] glob_texts(patterns@)[m] != default_pattern(),
        decreases n - k,
    {
        if is_default_pattern(patterns[k].as_str()) {
            assert(glob_texts(patterns@)[k as int] == default_pattern());
            return true;
        }
        k += 1;
    }
    false
}

} // verus!
