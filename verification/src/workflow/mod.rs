//! From a scan to a selection and from a selection to what is handed on.

pub mod candidates;
pub mod headless;
pub mod interactive;
pub mod output;
pub mod scan;

pub use candidates::{
    asks_for_root, effective_patterns, file_matches, globs_hold_default, holds_default,
    is_default_pattern, match_text, no_pattern_usable, scan_was_empty_for_criteria,
    select_candidates,
};
pub use headless::{
    entries_of, files_of, files_to_yank, headless_items, kinds_of, run_headless_mode,
    HeadlessPlan,
};
pub use interactive::{
    display_paths, has_entry_under, marked_items, preselect, preselection_matches,
    selected_files, shown_paths, taken_files, DisplayPlan, Pick,
};
pub use output::{
    body_of, generate_output_string, heading_of, perform_final_action, shown_path, DryRunNote,
    FileRead, FileReport, FinalAction,
};
pub use scan::{is_of_type, scan_listing};
