//! Shell-style patterns, matched against path texts.

use crate::text::string_views;
use glob::{Pattern, PatternError};
use std::path::Path;
use vstd::prelude::*;

verus! {

/// `glob::Pattern`, a compiled pattern: carried about, never looked into.
#[verifier::external_type_specification]
#[verifier::external_body]
pub struct ExPattern(Pattern);

/// `glob::PatternError`, what `glob::Pattern::new` gives for a text that
/// is not a pattern: carried about, never looked into.
#[verifier::external_type_specification]
#[verifier::external_body]
pub struct ExPatternError(PatternError);

/// Whether `pattern` is a well-formed glob pattern, as `glob::Pattern::new`
/// judges it.
pub uninterp spec fn glob_valid(pattern: Seq<char>) -> bool;

/// Whether the well-formed `pattern` matches `path`, as
/// `glob::Pattern::matches_path` judges it.
pub uninterp spec fn glob_matches(pattern: Seq<char>, path: Seq<char>) -> bool;

/// A well-formed pattern: its text, and what the text was compiled to.
pub struct Glob {
    text: String,
    compiled: Pattern,
}

impl View for Glob {
    type V = Seq<char>;

    closed spec fn view(&self) -> Seq<char> {
        self.text@
    }
}

/// A text that is not a well-formed pattern, and why.
#[derive(Debug)]
pub struct InvalidGlob {
    pub text: String,
    pub reason: String,
}

/// Compiles `text` with `glob::Pattern::new`, which succeeds exactly on
/// the well-formed patterns.
#[verifier::external_body]
fn compile(text: &str) -> (compiled: Result<Pattern, PatternError>)
    ensures
        compiled is Ok <==> glob_valid(text@),
{
    Pattern::new(text)
}

/// Says in words what `glob::Pattern::new` found wrong, as the error
/// displays itself.
#[verifier::external_body]
fn describe(error: &PatternError) -> (reason: String) {
    error.to_string()
}

/// Matches `path` against a pattern with `glob::Pattern::matches_path`.
/// The compiled form inside a [`Glob`] is always that of its text.
#[verifier::external_body]
fn matches_path(glob: &Glob, path: &str) -> (matched: bool)
    ensures
        matched == glob_matches(glob@, path@),
{
    glob.compiled.matches_path(Path::new(path))
}

/// The texts of a list of patterns.
pub open spec fn glob_texts(globs: Seq<Glob>) -> Seq<Seq<char>> {
    Seq::new(globs.len(), |i: int| globs[i]@)
}

/// The texts of a list of rejected patterns.
pub open spec fn rejected_texts(rejected: Seq<InvalidGlob>) -> Seq<Seq<char>> {
    Seq::new(rejected.len(), |i: int| rejected[i].text@)
}

/// Whether one of the patterns matches `path`.
pub open spec fn any_accepts(patterns: Seq<Glob>, path: Seq<char>) -> bool {
    exists|k: int| 0 <= k < patterns.len() && glob_matches((#[trigger] patterns[k])@, path)
}

/// The well-formed patterns among the first `upto`, in order.
pub open spec fn valid_upto(patterns: Seq<Seq<char>>, upto: int) -> Seq<Seq<char>>
    decreases upto,
{
    if upto <= 0 {
        Seq::empty()
    } else if glob_valid(patterns[upto - 1]) {
        valid_upto(patterns, upto - 1).push(patterns[upto - 1])
    } else {
        valid_upto(patterns, upto - 1)
    }
}

/// The malformed patterns among the first `upto`, in order.
pub open spec fn invalid_upto(patterns: Seq<Seq<char>>, upto: int) -> Seq<Seq<char>>
    decreases upto,
{
    if upto <= 0 {
        Seq::empty()
    } else if glob_valid(patterns[upto - 1]) {
        invalid_upto(patterns, upto - 1)
    } else {
        invalid_upto(patterns, upto - 1).push(patterns[upto - 1])
    }
}

impl Glob {
    /// Compiles a pattern. A text that is not well formed is handed back
    /// with the reason.
    pub fn new(text: &str) -> (made: Result<Glob, InvalidGlob>)
        ensures
            made is Ok <==> glob_valid(text@),
            match made {
                Ok(glob) => glob@ == text@,
                Err(invalid) => invalid.text@ == text@,
            },
    {
        match compile(text) {
            Ok(compiled) => Ok(Glob { text: text.to_owned(), compiled }),
            Err(error) => Err(InvalidGlob { text: text.to_owned(), reason: describe(&error) }),
        }
    }

    /// The text of the pattern.
    pub fn as_str(&self) -> (text: &str)
        ensures
            text@ == self@,
    {
        self.text.as_str()
    }

    /// Tells whether the pattern matches `path`.
    pub fn matches(&self, path: &str) -> (matched: bool)
        ensures
            matched == glob_matches(self@, path@),
    {
        matches_path(self, path)
    }
}

/// Tells whether any of the patterns matches `path`.
pub fn matches_any(patterns: &[Glob], path: &str) -> (yes: bool)
    ensures
        yes == any_accepts(patterns@, path@),
{
    let n = patterns.len();
    let mut k: usize = 0;
    while k < n
        invariant
            k <= n == patterns@.len(),
            forall|m: int| 0 <= m < k ==> !glob_matches((#[trigger] patterns@[m])@, path@),
        decreases n - k,
    {
        if patterns[k].matches(path) {
            return true;
        }
        k += 1;
    }
    false
}

/// Compiles the patterns that are well formed and sets the others aside,
/// each kind in the order given.
pub fn usable_patterns(patterns: &[String]) -> (parted: (Vec<Glob>, Vec<InvalidGlob>))
    ensures
        glob_texts(parted.0@) == valid_upto(string_views(patterns@), patterns@.len() as int),
        rejected_texts(parted.1@) == invalid_upto(
            string_views(patterns@),
            patterns@.len() as int,
        ),
{
    let n = patterns.len();
    let ghost all = string_views(patterns@);
    let mut valid: Vec<Glob> = Vec::new();
    let mut rejected: Vec<InvalidGlob> = Vec::new();
    let mut k: usize = 0;
    while k < n
        invariant
            k <= n == patterns@.len(),
            all == string_views(patterns@),
            glob_texts(valid@) == valid_upto(all, k as int),
            rejected_texts(rejected@) == invalid_upto(all, k as int),
        decreases n - k,
    {
        let ghost valid_before = glob_texts(valid@);
        let ghost rejected_before = rejected_texts(rejected@);
        match Glob::new(patterns[k].as_str()) {
            Ok(glob) => {
                valid.push(glob);
                assert(glob_texts(valid@) =~= valid_before.push(all[k as int]));
            },
            Err(invalid) => {
                rejected.push(invalid);
                assert(rejected_texts(rejected@) =~= rejected_before.push(all[k as int]));
            },
        }
        k += 1;
    }
    (valid, rejected)
}

} // verus!
