//! From what a walk of the file system found to the listing of a scan.

use crate::listing::{
    all_split, entry_values, sorted_set_of, spec_entry, PathEntry, PathEntryView, PathSet,
};
use crate::paths::{extension_of, extension_text, path_parts, PartView, SplitPath};
use vstd::prelude::*;
use vstd::string::StringExecFns;

verus! {

/// Whether the file name of `path` has one of the extensions `types`.
pub open spec fn has_type(path: Seq<char>, types: Seq<String>) -> bool {
    exists|k: int|
        0 <= k < types.len() && extension_text(path) == Some((#[trigger] types[k])@)
}

/// Whether a path that the walk found is listed: it is not the root, which
/// is listed on its own account, and, where file types are asked for, it
/// is a directory or a file of one of these types.
pub open spec fn passes_scan(
    path: Seq<char>,
    is_dir: bool,
    root: Seq<PartView>,
    types: Seq<String>,
) -> bool {
    path_parts(path) != root && (types.len() == 0 || is_dir || has_type(path, types))
}

/// The listing before it is put in order, for the first `upto` paths that
/// the walk found: the root, where it is a directory, and after it the
/// paths that are listed.
pub open spec fn listed_upto(
    walked: Seq<(String, bool)>,
    root_text: Seq<char>,
    root_is_dir: bool,
    types: Seq<String>,
    upto: int,
) -> Seq<PathEntryView>
    decreases upto,
{
    if upto <= 0 {
        if root_is_dir {
            seq![spec_entry(root_text, true)]
        } else {
            Seq::empty()
        }
    } else {
        let before = listed_upto(walked, root_text, root_is_dir, types, upto - 1);
        let (path, is_dir) = walked[upto - 1];
        if passes_scan(path@, is_dir, path_parts(root_text), types) {
            before.push(spec_entry(path@, is_dir))
        } else {
            before
        }
    }
}

/// Tells whether the file name of `path` has one of the extensions
/// `types`.
pub fn is_of_type(path: &str, types: &[String]) -> (yes: bool)
    ensures
        yes == has_type(path@, types@),
{
    match extension_of(path) {
        Some(extension) => {
            let n = types.len();
            let mut k: usize = 0;
            while k < n
                invariant
                    k <= n == types@.len(),
                    extension_text(path@) == Some(extension@),
                    forall|m: int| 0 <= m < k ==> (#[trigger] types@[m])@ != extension@,
                decreases n - k,
            {
                if types[k] == extension {
                    return true;
                }
                k += 1;
            }
            false
        },
        None => false,
    }
}

/// Makes the listing of a scan from what the walk found: the root, where
/// it is a directory, and every other path that passes the file types
/// asked for, in the order of the paths and each path once.
pub fn scan_listing(
    walked: &[(String, bool)],
    root_text: &str,
    root_is_dir: bool,
    types: &[String],
) -> (listing: PathSet)
    ensures
        all_split(listing@),
        sorted_set_of(
            listing@,
            listed_upto(walked@, root_text@, root_is_dir, types@, walked@.len() as int),
        ),
{
    let root = SplitPath::new(root_text);
    let n = walked.len();
    let mut listed: Vec<PathEntry> = Vec::new();
    if root_is_dir {
        listed.push(PathEntry::new(String::from_str(root_text), true));
    }
    assert(entry_values(listed@) =~= listed_upto(walked@, root_text@, root_is_dir, types@, 0));
    let mut i: usize = 0;
    while i < n
        invariant
            i <= n == walked@.len(),
            root@ == path_parts(root_text@),
            all_split(entry_values(listed@)),
            entry_values(listed@) == listed_upto(
                walked@,
                root_text@,
                root_is_dir,
                types@,
                i as int,
            ),
        decreases n - i,
    {
        let is_dir = walked[i].1;
        let entry = PathEntry::new(walked[i].0.clone(), is_dir);
        if !entry.split.same_as(&root) && (types.len() == 0 || is_dir || is_of_type(
            walked[i].0.as_str(),
            types,
        )) {
            let ghost before = entry_values(listed@);
            let ghost value = entry@;
            listed.push(entry);
            assert(entry_values(listed@) =~= before.push(value));
        }
        i += 1;
    }
    let ghost wanted = entry_values(listed@);
    let listing = PathSet::new(listed);
    proof {
        let values = listing@;
        assert forall|k: int| 0 <= k < values.len() implies (#[trigger] values[k]).parts
            == path_parts(values[k].text) by {
            let x = choose|x: int| 0 <= x < wanted.len() && wanted[x] == values[k];
            assert(wanted[x].parts == path_parts(wanted[x].text));
        }
    }
    listing
}

} // verus!
