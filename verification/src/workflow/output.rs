//! The output: the summary tree and the files under their headings, and
//! what is done with it in the end.

use crate::paths::{relative_text, strip_prefix_text};
use crate::text::{
    blank, contains_text, is_blank, is_substring, join_lines, joined_lines, string_views,
    strip_trailing_newlines, trim_end, trimmed_end, without_trailing_newlines,
};
use crate::utils::{approx_tokens, spec_approx_tokens};
use vstd::prelude::*;
use vstd::string::{StrSliceExecFns, StringExecFns};

verus! {

/// What reading a file gave.
#[derive(Debug)]
pub enum FileRead {
    /// The contents of the file.
    Contents(String),
    /// Why the file could not be read.
    Failed(String),
}

/// One file of the output: the path to show for it and what reading it
/// gave.
#[derive(Debug)]
pub struct FileReport {
    pub shown_path: String,
    pub read: FileRead,
}

/// The mathematical value of a [`FileReport`].
pub struct FileReportView {
    pub shown_path: Seq<char>,
    pub failed: bool,
    pub text: Seq<char>,
}

impl View for FileReport {
    type V = FileReportView;

    open spec fn view(&self) -> FileReportView {
        match self.read {
            FileRead::Contents(text) => FileReportView {
                shown_path: self.shown_path@,
                failed: false,
                text: text@,
            },
            FileRead::Failed(text) => FileReportView {
                shown_path: self.shown_path@,
                failed: true,
                text: text@,
            },
        }
    }
}

/// The values of a list of reports.
pub open spec fn report_views(reports: Seq<FileReport>) -> Seq<FileReportView> {
    Seq::new(reports.len(), |i: int| reports[i]@)
}

/// The note that stands for an output without files.
pub open spec fn nothing_selected_note() -> Seq<char> {
    "(No files selected or matched criteria)"@
}

/// The heading of a file in the output.
pub open spec fn report_heading(report: FileReportView) -> Seq<char> {
    if report.failed {
        "---\nFile: "@ + report.shown_path + " (Error reading file: "@ + report.text + ")\n---"@
    } else {
        "---\nFile: "@ + report.shown_path + "\n---"@
    }
}

/// The body of a file in the output.
pub open spec fn report_body(report: FileReportView) -> Seq<char> {
    if report.failed {
        "[Content not available]"@
    } else {
        trimmed_end(report.text)
    }
}

/// The lines of the output before they are joined: the labels of the
/// summary tree, an empty line where there is anything at all, and for
/// each of the first `upto` files its heading, an empty line, its body and
/// an empty line.
pub open spec fn output_parts(labels: Seq<Seq<char>>, reports: Seq<FileReportView>, upto: int) -> Seq<
    Seq<char>,
>
    decreases upto,
{
    if upto <= 0 {
        if labels.len() > 0 || reports.len() > 0 {
            labels.push(Seq::empty())
        } else {
            labels
        }
    } else {
        output_parts(labels, reports, upto - 1).push(report_heading(reports[upto - 1])).push(
            Seq::empty(),
        ).push(report_body(reports[upto - 1])).push(Seq::empty())
    }
}

/// The output: the lines joined and closed with exactly one line end; or,
/// where that is blank and there are no files, a note that nothing was
/// selected, under the label of the root where the summary tree has it.
pub open spec fn spec_output(
    labels: Seq<Seq<char>>,
    reports: Seq<FileReportView>,
    root_in_tree: bool,
) -> Seq<char> {
    let parts = output_parts(labels, reports, reports.len() as int);
    let joined = joined_lines(parts, parts.len() as int);
    let text = if joined.len() > 0 {
        without_trailing_newlines(joined) + "\n"@
    } else {
        joined
    };
    if blank(text) && reports.len() == 0 {
        if root_in_tree {
            "./\n\n"@ + nothing_selected_note() + "\n"@
        } else {
            nothing_selected_note() + "\n"@
        }
    } else {
        text
    }
}

/// The path to show for a file: the path as seen from the root where it
/// lies under it, and the path itself otherwise.
pub fn shown_path(path: &str, root_text: &str) -> (shown: String)
    ensures
        shown@ == match relative_text(path@, root_text@) {
            Some(rest) => rest,
            None => path@,
        },
{
    match strip_prefix_text(path, root_text) {
        Some(rest) => rest,
        None => String::from_str(path),
    }
}

/// Makes the heading of a file in the output.
pub fn heading_of(report: &FileReport) -> (heading: String)
    ensures
        heading@ == report_heading(report@),
{
    let mut heading = String::from_str("---\nFile: ");
    heading.append(report.shown_path.as_str());
    match &report.read {
        FileRead::Contents(_) => {
            heading.append("\n---");
        },
        FileRead::Failed(reason) => {
            heading.append(" (Error reading file: ");
            heading.append(reason.as_str());
            heading.append(")\n---");
        },
    }
    heading
}

/// Makes the body of a file in the output.
pub fn body_of(report: &FileReport) -> (body: String)
    ensures
        body@ == report_body(report@),
{
    match &report.read {
        FileRead::Contents(text) => trim_end(text.as_str()),
        FileRead::Failed(_) => String::from_str("[Content not available]"),
    }
}

/// Puts the output together from the labels of the summary tree and the
/// files.
pub fn generate_output_string(labels: &[String], reports: &[FileReport], root_in_tree: bool) -> (output:
    String)
    ensures
        output@ == spec_output(string_views(labels@), report_views(reports@), root_in_tree),
{
    let ghost label_texts = string_views(labels@);
    let ghost values = report_views(reports@);
    let mut parts: Vec<String> = Vec::new();
    let mut k: usize = 0;
    while k < labels.len()
        invariant
            k <= labels@.len(),
            parts@.len() == k,
            forall|m: int| 0 <= m < k ==> (#[trigger] parts@[m])@ == labels@[m]@,
        decreases labels@.len() - k,
    {
        parts.push(labels[k].clone());
        k += 1;
    }
    assert(string_views(parts@) =~= label_texts);
    if labels.len() > 0 || reports.len() > 0 {
        parts.push(String::new());
        assert(string_views(parts@) =~= label_texts.push(Seq::empty()));
    }
    let mut i: usize = 0;
    while i < reports.len()
        invariant
            i <= reports@.len(),
            label_texts == string_views(labels@),
            values == report_views(reports@),
            string_views(parts@) == output_parts(label_texts, values, i as int),
        decreases reports@.len() - i,
    {
        let ghost before = string_views(parts@);
        parts.push(heading_of(&reports[i]));
        parts.push(String::new());
        parts.push(body_of(&reports[i]));
        parts.push(String::new());
        assert(string_views(parts@) =~= before.push(report_heading(values[i as int])).push(
            Seq::empty(),
        ).push(report_body(values[i as int])).push(Seq::empty()));
        i += 1;
    }
    let joined = join_lines(parts.as_slice());
    let text = if joined.as_str().unicode_len() > 0 {
        let mut closed = strip_trailing_newlines(joined.as_str());
        closed.append("\n");
        closed
    } else {
        joined
    };
    if is_blank(text.as_str()) && reports.len() == 0 {
        let mut note = String::new();
        if root_in_tree {
            note.append("./\n\n");
        }
        note.append("(No files selected or matched criteria)");
        note.append("\n");
        assert(note@ =~= spec_output(label_texts, values, root_in_tree));
        note
    } else {
        text
    }
}

/// What is said at the end of a dry run.
#[derive(Debug, Clone, Copy, PartialEq, Eq, Structural)]
pub enum DryRunNote {
    /// Nothing more than the output.
    Silent,
    /// That no files would have been copied.
    NothingToCopy,
    /// How many files would be copied, and about how many tokens.
    WouldCopy { files: usize, tokens: usize },
}

/// What is done with the output in the end.
#[derive(Debug, Clone, Copy, PartialEq, Eq, Structural)]
pub enum FinalAction {
    /// Print the output and the note; leave the clipboard alone.
    DryRun { note: DryRunNote },
    /// Nothing to copy: say so, after the output where `show_output` is
    /// set, and end in failure.
    Nothing { show_output: bool },
    /// Copy the output to the clipboard and report the counts.
    Copy { files: usize, tokens: usize },
}

/// What is to be done with the output in the end.
pub open spec fn spec_final_action(
    output: Seq<char>,
    files: usize,
    dry_run: bool,
    scan_was_empty: bool,
) -> FinalAction {
    let noted = is_substring(output, nothing_selected_note());
    if dry_run {
        if files == 0 {
            if !noted && !scan_was_empty {
                FinalAction::DryRun { note: DryRunNote::NothingToCopy }
            } else {
                FinalAction::DryRun { note: DryRunNote::Silent }
            }
        } else {
            FinalAction::DryRun {
                note: DryRunNote::WouldCopy {
                    files,
                    tokens: spec_approx_tokens(output) as usize,
                },
            }
        }
    } else if files == 0 {
        FinalAction::Nothing { show_output: !noted }
    } else {
        FinalAction::Copy { files, tokens: spec_approx_tokens(output) as usize }
    }
}

/// Decides what is to be done with the output in the end.
pub fn perform_final_action(
    output_string: &str,
    files_to_yank_count: usize,
    is_dry_run: bool,
    initial_scan_was_empty_and_not_default: bool,
) -> (action: FinalAction)
    ensures
        action == spec_final_action(
            output_string@,
            files_to_yank_count,
            is_dry_run,
            initial_scan_was_empty_and_not_default,
        ),
{
    if is_dry_run {
        if files_to_yank_count == 0 {
            if !contains_text(output_string, "(No files selected or matched criteria)")
                && !initial_scan_was_empty_and_not_default {
                FinalAction::DryRun { note: DryRunNote::NothingToCopy }
            } else {
                FinalAction::DryRun { note: DryRunNote::Silent }
            }
        } else {
            FinalAction::DryRun {
                note: DryRunNote::WouldCopy {
                    files: files_to_yank_count,
                    tokens: approx_tokens(output_string),
                },
            }
        }
    } else if files_to_yank_count == 0 {
        FinalAction::Nothing {
            show_output: !contains_text(output_string, "(No files selected or matched criteria)"),
        }
    } else {
        FinalAction::Copy { files: files_to_yank_count, tokens: approx_tokens(output_string) }
    }
}

} // verus!
