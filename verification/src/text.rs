//! Texts: what the library asks of strings beyond joining them.

use vstd::prelude::*;
use vstd::string::StringExecFns;

verus! {

/// The contents of a list of strings.
pub open spec fn string_views(strings: Seq<String>) -> Seq<Seq<char>> {
    Seq::new(strings.len(), |i: int| strings[i]@)
}

/// The lower-case form of a text, as `str::to_lowercase` gives it.
pub uninterp spec fn lowercase(text: Seq<char>) -> Seq<char>;

/// Whether `needle` occurs in `hay` as a run of consecutive characters.
pub open spec fn is_substring(hay: Seq<char>, needle: Seq<char>) -> bool {
    exists|k: int|
        0 <= k && k + needle.len() <= hay.len() && #[trigger] hay.subrange(k, k + needle.len())
            == needle
}

/// Lower-cases `text` with `str::to_lowercase`.
#[verifier::external_body]
pub(crate) fn to_lowercase(text: &str) -> (lowered: String)
    ensures
        lowered@ == lowercase(text@),
{
    text.to_lowercase()
}

/// Tells with `str::contains` whether `needle` occurs in `hay`: it does
/// exactly when some run of consecutive characters of `hay` is `needle`.
#[verifier::external_body]
pub(crate) fn contains_text(hay: &str, needle: &str) -> (found: bool)
    ensures
        found == is_substring(hay@, needle@),
{
    hay.contains(needle)
}

/// Gives the text that a sequence of characters spells, built with the
/// `FromIterator<char>` impl of `String`.
#[verifier::external_body]
pub(crate) fn text_of(chars: &[char]) -> (text: String)
    ensures
        text@ == chars@,
{
    chars.iter().collect()
}

/// A text without the line ends that it closes with.
pub open spec fn without_trailing_newlines(text: Seq<char>) -> Seq<char>
    decreases text.len(),
{
    if text.len() > 0 && text.last() == '\n' {
        without_trailing_newlines(text.drop_last())
    } else {
        text
    }
}

/// A text without the white space that it closes with, as `str::trim_end`
/// gives it.
pub uninterp spec fn trimmed_end(text: Seq<char>) -> Seq<char>;

/// A text without the white space that it opens and closes with, as
/// `str::trim` gives it.
pub uninterp spec fn trimmed(text: Seq<char>) -> Seq<char>;

/// Whether a text holds nothing but white space.
pub open spec fn blank(text: Seq<char>) -> bool {
    trimmed(text).len() == 0
}

/// Takes the closing line ends off a text with `str::trim_end_matches`:
/// what is left is the longest start of the text that does not close with
/// a line end.
#[verifier::external_body]
pub(crate) fn strip_trailing_newlines(text: &str) -> (stripped: String)
    ensures
        stripped@ == without_trailing_newlines(text@),
{
    text.trim_end_matches('\n').to_owned()
}

/// Takes the closing white space off a text with `str::trim_end`.
#[verifier::external_body]
pub(crate) fn trim_end(text: &str) -> (trimmed: String)
    ensures
        trimmed@ == trimmed_end(text@),
{
    text.trim_end().to_owned()
}

/// Takes the opening and closing white space off a text with `str::trim`.
#[verifier::external_body]
pub(crate) fn trim(text: &str) -> (inner: String)
    ensures
        inner@ == trimmed(text@),
{
    text.trim().to_owned()
}

/// Tells whether a text holds nothing but white space.
pub fn is_blank(text: &str) -> (is: bool)
    ensures
        is == blank(text@),
{
    trim(text).as_str().is_empty()
}

/// The texts joined into one, a line end between each two.
pub open spec fn joined_lines(parts: Seq<Seq<char>>, upto: int) -> Seq<char>
    decreases upto,
{
    if upto <= 0 {
        Seq::empty()
    } else if upto == 1 {
        parts[0]
    } else {
        joined_lines(parts, upto - 1) + "\n"@ + parts[upto - 1]
    }
}

/// Joins the texts into one, a line end between each two.
pub fn join_lines(parts: &[String]) -> (joined: String)
    ensures
        joined@ == joined_lines(string_views(parts@), parts@.len() as int),
{
    let n = parts.len();
    let mut joined = String::new();
    let mut k: usize = 0;
    while k < n
        invariant
            k <= n == parts@.len(),
            joined@ == joined_lines(string_views(parts@), k as int),
        decreases n - k,
    {
        if k > 0 {
            joined.append("\n");
        }
        joined.append(parts[k].as_str());
        proof {
            if k == 0 {
                assert(joined@ =~= string_views(parts@)[0]);
            }
        }
        k += 1;
    }
    joined
}

} // verus!
