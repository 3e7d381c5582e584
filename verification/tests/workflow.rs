use repoyank::globs::{matches_any, usable_patterns, Glob};
use repoyank::listing::{
    dedup_entries, is_strictly_ascending, paths_with_ancestors, push_ancestors, PathEntry,
    PathSet,
};
use repoyank::path_order::{rank_paths, rank_texts, Rank};
use repoyank::paths::SplitPath;
use repoyank::tree_builder::build_tree_labels;
use repoyank::tui::app_state::{SelectableItem, SelectionState};
use repoyank::tui::arena::{is_well_formed, prepare_selectable_items};
use repoyank::workflow::{
    display_paths, effective_patterns, entries_of, file_matches, files_to_yank,
    generate_output_string, headless_items, holds_default, kinds_of, marked_items, match_text,
    is_of_type, no_pattern_usable, perform_final_action, preselect, preselection_matches,
    run_headless_mode, scan_listing,
    scan_was_empty_for_criteria, select_candidates, selected_files, shown_path, DryRunNote,
    FileRead, FileReport, FinalAction,
};

fn strings(texts: &[&str]) -> Vec<String> {
    texts.iter().map(|t| t.to_string()).collect()
}

fn globs(texts: &[&str]) -> Vec<Glob> {
    let (valid, rejected) = usable_patterns(&strings(texts));
    assert!(rejected.is_empty());
    valid
}

fn accepts(pattern: &str, path: &str) -> bool {
    match Glob::new(pattern) {
        Ok(glob) => glob.matches(path),
        Err(_) => false,
    }
}

fn listing(paths: &[(&str, bool)]) -> Vec<(String, bool)> {
    paths.iter().map(|(p, d)| (p.to_string(), *d)).collect()
}

fn entry_texts(entries: &[PathEntry]) -> Vec<String> {
    entries.iter().map(|e| e.text.clone()).collect()
}

fn texts(set: &PathSet) -> Vec<String> {
    entry_texts(set.as_slice())
}

fn set_of(paths: &[(&str, bool)]) -> PathSet {
    PathSet::new(entries_of(&listing(paths)))
}

fn scan() -> Vec<(String, bool)> {
    listing(&[
        ("/r", true),
        ("/r/docs", true),
        ("/r/docs/guide.md", false),
        ("/r/src", true),
        ("/r/src/lib.rs", false),
        ("/r/src/main.rs", false),
        ("/r/src/tui", true),
        ("/r/src/tui/app.rs", false),
    ])
}

#[test]
fn patterns_default_to_everything() {
    assert_eq!(effective_patterns(&[], false), strings(&["**/*"]));
    assert_eq!(effective_patterns(&strings(&["src"]), true), strings(&["**/*"]));
    assert_eq!(effective_patterns(&strings(&["src", "*.rs"]), true), strings(&["*.rs"]));
    assert_eq!(effective_patterns(&strings(&["a", "b"]), false), strings(&["a", "b"]));
    assert_eq!(effective_patterns(&[], true), strings(&["**/*"]));
}

#[test]
fn malformed_patterns_are_set_aside() {
    let (valid, rejected) = usable_patterns(&strings(&["*.rs", "[", "a/***", "docs/*.md"]));
    let kept: Vec<&str> = valid.iter().map(|g| g.as_str()).collect();
    assert_eq!(kept, vec!["*.rs", "docs/*.md"]);
    let set_aside: Vec<&str> = rejected.iter().map(|r| r.text.as_str()).collect();
    assert_eq!(set_aside, vec!["[", "a/***"]);
    assert!(rejected.iter().all(|r| !r.reason.is_empty()));
    assert!(Glob::new("[").is_err());
    assert_eq!(Glob::new("src/*").ok().map(|g| g.as_str().to_string()), Some("src/*".to_string()));
}

#[test]
fn patterns_match_path_texts() {
    assert!(accepts("*.rs", "lib.rs"));
    assert!(!accepts("*.rs", "lib.md"));
    assert!(accepts("**/*", "src/tui/app.rs"));
    assert!(accepts("src/**/*.rs", "src/tui/app.rs"));
    assert!(accepts("src/*.rs", "src/tui/app.rs"));
    assert!(!accepts("src/*.rs", "docs/app.rs"));
    assert!(!accepts("[", "["));
    assert!(matches_any(&globs(&["*.md", "src/*.rs"]), "src/lib.rs"));
    assert!(!matches_any(&globs(&["*.md", "*.txt"]), "src/lib.rs"));
    assert!(!matches_any(&[], "src/lib.rs"));
}

#[test]
fn unusable_patterns_are_noticed() {
    assert!(no_pattern_usable(&[], &strings(&["["])));
    assert!(!no_pattern_usable(&[], &[]));
    assert!(!no_pattern_usable(&[], &strings(&["[", "**/*"])));
    assert!(!no_pattern_usable(&globs(&["*.rs"]), &strings(&["*.rs", "["])));
    assert!(holds_default(&strings(&["a", "**/*"])));
    assert!(!holds_default(&strings(&["a", "**/*.rs"])));
}

#[test]
fn empty_scan_is_judged_by_the_criteria() {
    assert!(scan_was_empty_for_criteria(true, &globs(&["*.rs"]), true));
    assert!(scan_was_empty_for_criteria(true, &globs(&["**/*"]), false));
    assert!(!scan_was_empty_for_criteria(true, &globs(&["**/*"]), true));
    assert!(!scan_was_empty_for_criteria(false, &globs(&["*.rs"]), false));
}

#[test]
fn files_are_matched_as_seen_from_the_root() {
    let root = SplitPath::new("/r");
    assert_eq!(match_text("/r/src/lib.rs", "/r", &root), Some("src/lib.rs".to_string()));
    assert_eq!(match_text("/r", "/r", &root), Some("r".to_string()));
    assert_eq!(match_text("/other/x", "/r", &root), None);
    let dot = SplitPath::new(".");
    assert_eq!(match_text(".", ".", &dot), Some("".to_string()));
    assert!(file_matches(&globs(&["src/*.rs"]), "/r/src/lib.rs", "/r", &root));
    assert!(!file_matches(&globs(&["src/*.rs"]), "/r/docs/guide.md", "/r", &root));
    assert!(!file_matches(&globs(&["**/*"]), "/other/x", "/r", &root));
}

#[test]
fn candidates_keep_directories_and_matching_files() {
    let candidates = select_candidates(&scan(), "/r", &globs(&["src/???.rs"]), true);
    assert_eq!(
        texts(&candidates),
        strings(&["/r", "/r/docs", "/r/src", "/r/src/lib.rs", "/r/src/tui"])
    );
    let candidates = select_candidates(&scan(), "/r", &globs(&["src/*.rs"]), true);
    assert_eq!(
        texts(&candidates),
        strings(&[
            "/r",
            "/r/docs",
            "/r/src",
            "/r/src/lib.rs",
            "/r/src/main.rs",
            "/r/src/tui",
            "/r/src/tui/app.rs",
        ])
    );
}

#[test]
fn candidates_come_out_sorted_and_once() {
    let found = listing(&[
        ("/r/b.rs", false),
        ("/r/a", true),
        ("/r/a/x.rs", false),
        ("/r/b.rs", false),
        ("/r/a-b.rs", false),
        ("/r/a//x.rs", false),
    ]);
    let candidates = select_candidates(&found, "/r", &globs(&["**/*"]), true);
    assert_eq!(
        texts(&candidates),
        strings(&["/r", "/r/a", "/r/a/x.rs", "/r/a-b.rs", "/r/b.rs"])
    );
    assert!(candidates.as_slice()[0].is_dir);
}

#[test]
fn root_is_added_only_when_asked_for() {
    let found = listing(&[("/r/a.rs", false)]);
    let with = select_candidates(&found, "/r", &globs(&["*.md"]), true);
    assert!(texts(&with).is_empty());
    let with = select_candidates(&found, "/r", &globs(&["**/*"]), true);
    assert_eq!(texts(&with), strings(&["/r", "/r/a.rs"]));
    let with = select_candidates(&found, "/r", &globs(&["*.rs"]), true);
    assert_eq!(texts(&with), strings(&["/r", "/r/a.rs"]));
    let without = select_candidates(&found, "/r", &globs(&["*.rs"]), false);
    assert_eq!(texts(&without), strings(&["/r/a.rs"]));
    let named = select_candidates(&[], "/r", &globs(&["r"]), true);
    assert_eq!(texts(&named), strings(&["/r"]));
    let none = select_candidates(&[], "/r", &globs(&["x"]), true);
    assert!(none.is_empty());
}

#[test]
fn paths_are_ordered_by_components() {
    let rank = |a: &str, b: &str| rank_paths(&SplitPath::new(a), &SplitPath::new(b));
    assert_eq!(rank("/r/a", "/r/a/x"), Rank::Before);
    assert_eq!(rank("/r/a/x", "/r/a-b"), Rank::Before);
    assert_eq!(rank("/r/b", "/r/a"), Rank::After);
    assert_eq!(rank("/r/a", "/r//a/"), Rank::Same);
    assert_eq!(rank("a", "/a"), Rank::After);
    assert_eq!(rank(".", ".."), Rank::Before);
    assert_eq!(rank("..", "a"), Rank::Before);
    assert_eq!(rank("", "a"), Rank::Before);
    assert_eq!(rank_texts("abc", "abd"), Rank::Before);
    assert_eq!(rank_texts("abc", "ab"), Rank::After);
    assert_eq!(rank_texts("é", "z"), Rank::After);
    assert_eq!(rank_texts("", ""), Rank::Same);
}

#[test]
fn order_agrees_with_the_order_of_paths() {
    let samples = ["", ".", "..", "/", "a", "a/b", "a-b", "a/b/c", "b", "/a", "./a", "../a", "é"];
    for a in samples {
        for b in samples {
            let ours = rank_paths(&SplitPath::new(a), &SplitPath::new(b));
            let theirs = std::path::Path::new(a).cmp(std::path::Path::new(b));
            let expected = match theirs {
                std::cmp::Ordering::Less => Rank::Before,
                std::cmp::Ordering::Equal => Rank::Same,
                std::cmp::Ordering::Greater => Rank::After,
            };
            assert_eq!(ours, expected);
        }
    }
}

#[test]
fn sorting_drops_repeated_paths() {
    let entries = entries_of(&listing(&[
        ("/r/z", false),
        ("/r/a", true),
        ("/r/z", false),
        ("/r/m/n", false),
        ("/r/a/", true),
    ]));
    let kept = PathSet::new(entries);
    assert_eq!(texts(&kept), strings(&["/r/a", "/r/m/n", "/r/z"]));
    assert_eq!(kept.len(), 3);
    let again = dedup_entries(kept.into_entries());
    assert_eq!(entry_texts(&again), strings(&["/r/a", "/r/m/n", "/r/z"]));
    assert!(PathSet::new(Vec::new()).is_empty());
}

#[test]
fn lookup_finds_paths_by_components() {
    let sorted = PathSet::new(entries_of(&scan()));
    assert_eq!(sorted.find(&SplitPath::new("/r/src/lib.rs")), Some(4));
    assert_eq!(sorted.find(&SplitPath::new("/r//src/")), Some(3));
    assert_eq!(sorted.find(&SplitPath::new("/r/nope")), None);
    assert!(sorted.contains(&SplitPath::new("/r/docs")));
    assert!(!sorted.contains(&SplitPath::new("/r/doc")));
    assert_eq!(sorted.kind_of(&SplitPath::new("/r/src")), Some(true));
    assert_eq!(sorted.kind_of(&SplitPath::new("/r/src/lib.rs")), Some(false));
    assert_eq!(sorted.kind_of(&SplitPath::new("/x")), None);
    assert_eq!(PathSet::new(Vec::new()).find(&SplitPath::new("/r")), None);
}

#[test]
fn ancestors_stop_at_the_root() {
    let root = SplitPath::new("/r");
    let mut out = Vec::new();
    push_ancestors(&mut out, "/r/a/b/c.txt", &root);
    assert_eq!(entry_texts(&out), strings(&["/r/a/b", "/r/a", "/r"]));
    assert!(out.iter().all(|e| e.is_dir));
    let mut out = Vec::new();
    push_ancestors(&mut out, "/other/a/c.txt", &root);
    assert!(out.is_empty());
    let mut out = Vec::new();
    push_ancestors(&mut out, "/r", &root);
    assert!(out.is_empty());
    let dot = SplitPath::new(".");
    let mut out = Vec::new();
    push_ancestors(&mut out, "./a/b.txt", &dot);
    assert_eq!(entry_texts(&out), strings(&["./a", "."]));
}

#[test]
fn gathering_adds_ancestors_once() {
    let seeds = entries_of(&listing(&[("/r/a/x.rs", false), ("/r/a/y.rs", false), ("/q/z", false)]));
    let all = paths_with_ancestors(&seeds, "/r", true);
    assert_eq!(texts(&all), strings(&["/q/z", "/r", "/r/a", "/r/a/x.rs", "/r/a/y.rs"]));
    let all = paths_with_ancestors(&seeds, "/r", false);
    assert_eq!(texts(&all), strings(&["/q/z", "/r", "/r/a", "/r/a/x.rs", "/r/a/y.rs"]));
    let none = paths_with_ancestors(&[], "/r", false);
    assert!(none.is_empty());
    let only_root = paths_with_ancestors(&[], "/r", true);
    assert_eq!(texts(&only_root), strings(&["/r"]));
}

#[test]
fn headless_mode_takes_every_candidate_file() {
    let candidates = select_candidates(&scan(), "/r", &globs(&["src/**/*.rs"]), true);
    let files = files_to_yank(&candidates);
    assert_eq!(
        texts(&files),
        strings(&["/r/src/lib.rs", "/r/src/main.rs", "/r/src/tui/app.rs"])
    );
    let plan = run_headless_mode(&candidates, "/r", true);
    assert_eq!(texts(&plan.files), texts(&files));
    let tree = paths_with_ancestors(files.as_slice(), "/r", true);
    assert_eq!(texts(&plan.tree), texts(&tree));
    assert_eq!(plan.kinds, kinds_of(tree.as_slice(), &candidates));
    assert_eq!(
        texts(&tree),
        strings(&[
            "/r",
            "/r/src",
            "/r/src/lib.rs",
            "/r/src/main.rs",
            "/r/src/tui",
            "/r/src/tui/app.rs",
        ])
    );
    let kinds = kinds_of(tree.as_slice(), &candidates);
    assert_eq!(
        kinds,
        vec![Some(true), Some(true), Some(false), Some(false), Some(true), Some(false)]
    );
    let resolved: Vec<(String, bool)> = tree
        .as_slice()
        .iter()
        .zip(kinds.iter())
        .map(|(e, k)| (e.text.clone(), k.unwrap()))
        .collect();
    let items = headless_items(&resolved, &files);
    assert!(is_well_formed(&items));
    let states: Vec<SelectionState> = items.iter().map(|i| i.state).collect();
    assert_eq!(
        states,
        vec![
            SelectionState::PartiallySelected,
            SelectionState::PartiallySelected,
            SelectionState::FullySelected,
            SelectionState::FullySelected,
            SelectionState::PartiallySelected,
            SelectionState::FullySelected,
        ]
    );
    assert!(items.iter().all(|i| i.is_expanded && i.display_text.is_empty()));
    assert!(items.iter().all(|i| i.parent_index.is_none() && i.children_indices.is_empty()));
}

#[test]
fn headless_file_that_is_not_taken_stays_unselected() {
    let files = set_of(&[("/r/a", false)]);
    let items = headless_items(&listing(&[("/r/a", false), ("/r/b", false)]), &files);
    assert_eq!(items[0].state, SelectionState::FullySelected);
    assert_eq!(items[1].state, SelectionState::NotSelected);
}

#[test]
fn unknown_ancestors_have_no_kind() {
    let candidates = set_of(&[("/r/a/b/c.rs", false)]);
    let tree = paths_with_ancestors(candidates.as_slice(), "/r", true);
    assert_eq!(kinds_of(tree.as_slice(), &candidates), vec![None, None, None, Some(false)]);
}

#[test]
fn display_shows_known_paths_and_the_root() {
    let candidates = select_candidates(&scan(), "/r", &globs(&["src/[lm]*.rs"]), true);
    let display = display_paths(&candidates, "/r", true);
    assert_eq!(
        display.shown,
        listing(&[
            ("/r", true),
            ("/r/src", true),
            ("/r/src/lib.rs", false),
            ("/r/src/main.rs", false),
        ])
    );
    let lonely = set_of(&[("/r/a/b/c.rs", false)]);
    let display = display_paths(&lonely, "/r", true);
    assert_eq!(texts(&display.gathered), strings(&["/r", "/r/a", "/r/a/b", "/r/a/b/c.rs"]));
    assert_eq!(display.shown, listing(&[("/r", true), ("/r/a/b/c.rs", false)]));
    let display = display_paths(&lonely, "/r", false);
    assert_eq!(display.shown, listing(&[("/r/a/b/c.rs", false)]));
    let display = display_paths(&set_of(&[]), "/r", true);
    assert_eq!(display.shown, listing(&[("/r", true)]));
    let display = display_paths(&set_of(&[]), "/r", false);
    assert!(display.shown.is_empty());
    let outside = set_of(&[("/q/c.rs", false)]);
    let display = display_paths(&outside, "/r", true);
    assert_eq!(display.shown, listing(&[("/q/c.rs", false)]));
}

fn arena() -> Vec<SelectableItem> {
    let candidates = select_candidates(&scan(), "/r", &globs(&["**/*"]), true);
    let display = display_paths(&candidates, "/r", true);
    let labels = build_tree_labels(&display.shown, "/r");
    prepare_selectable_items(&display.shown, &labels, "/r")
}

#[test]
fn preselection_marks_matching_files() {
    let mut items = arena();
    assert_eq!(items.len(), 8);
    let matched = preselection_matches(&items, "/r", &globs(&["src/[lm]*.rs"]));
    assert_eq!(matched, vec![4, 5]);
    preselect(&mut items, &matched);
    let states: Vec<SelectionState> = items.iter().map(|i| i.state).collect();
    let (f, n, p) = (
        SelectionState::FullySelected,
        SelectionState::NotSelected,
        SelectionState::PartiallySelected,
    );
    assert_eq!(states, vec![p, n, n, p, f, f, n, n]);
    preselect(&mut items, &[7, 99]);
    assert_eq!(items[6].state, f);
    assert_eq!(items[3].state, f);
    assert_eq!(items[0].state, p);
    let files = selected_files(&items);
    assert_eq!(
        texts(&files),
        strings(&["/r/src/lib.rs", "/r/src/main.rs", "/r/src/tui/app.rs"])
    );
    let marked = marked_items(&items);
    assert_eq!(
        entry_texts(&marked),
        strings(&[
            "/r",
            "/r/src",
            "/r/src/lib.rs",
            "/r/src/main.rs",
            "/r/src/tui",
            "/r/src/tui/app.rs",
        ])
    );
}

#[test]
fn nothing_selected_gives_no_files() {
    let items = arena();
    assert!(selected_files(&items).is_empty());
    assert!(marked_items(&items).is_empty());
    assert!(preselection_matches(&items, "/r", &globs(&["*.zip"])).is_empty());
}

#[test]
fn shown_path_is_relative_to_the_root() {
    assert_eq!(shown_path("/r/src/lib.rs", "/r"), "src/lib.rs");
    assert_eq!(shown_path("/q/lib.rs", "/r"), "/q/lib.rs");
}

#[test]
fn output_joins_tree_and_files() {
    let labels = strings(&["./", "└─ a.txt"]);
    let reports = vec![FileReport {
        shown_path: "a.txt".to_string(),
        read: FileRead::Contents("hello\nworld\n\n  ".to_string()),
    }];
    let output = generate_output_string(&labels, &reports, true);
    assert_eq!(output, "./\n└─ a.txt\n\n---\nFile: a.txt\n---\n\nhello\nworld\n");
}

#[test]
fn output_reports_unreadable_files() {
    let reports = vec![
        FileReport { shown_path: "a".to_string(), read: FileRead::Failed("denied".to_string()) },
        FileReport { shown_path: "b".to_string(), read: FileRead::Contents("x".to_string()) },
    ];
    let output = generate_output_string(&[], &reports, false);
    assert_eq!(
        output,
        "\n---\nFile: a (Error reading file: denied)\n---\n\n[Content not available]\n\n---\nFile: b\n---\n\nx\n"
    );
}

#[test]
fn output_without_anything_is_a_note() {
    assert_eq!(
        generate_output_string(&[], &[], true),
        "./\n\n(No files selected or matched criteria)\n"
    );
    assert_eq!(
        generate_output_string(&[], &[], false),
        "(No files selected or matched criteria)\n"
    );
    assert_eq!(generate_output_string(&strings(&["./"]), &[], true), "./\n");
    assert_eq!(
        generate_output_string(&strings(&["  "]), &[], false),
        "(No files selected or matched criteria)\n"
    );
}

#[test]
fn final_action_follows_the_mode() {
    let note = "(No files selected or matched criteria)\n";
    assert_eq!(
        perform_final_action("12345678", 2, true, false),
        FinalAction::DryRun { note: DryRunNote::WouldCopy { files: 2, tokens: 2 } }
    );
    assert_eq!(
        perform_final_action("./\n", 0, true, false),
        FinalAction::DryRun { note: DryRunNote::NothingToCopy }
    );
    assert_eq!(
        perform_final_action("./\n", 0, true, true),
        FinalAction::DryRun { note: DryRunNote::Silent }
    );
    assert_eq!(
        perform_final_action(note, 0, true, false),
        FinalAction::DryRun { note: DryRunNote::Silent }
    );
    assert_eq!(perform_final_action("./\n", 0, false, false), FinalAction::Nothing { show_output: true });
    assert_eq!(perform_final_action(note, 0, false, false), FinalAction::Nothing { show_output: false });
    assert_eq!(
        perform_final_action("abcdefghi", 1, false, false),
        FinalAction::Copy { files: 1, tokens: 2 }
    );
}

#[test]
fn first_spelling_of_a_path_is_kept() {
    let kept = set_of(&[("/r/b", false), ("/r/a/", true), ("/r//a", false), ("/r/a", false)]);
    assert_eq!(texts(&kept), strings(&["/r/a/", "/r/b"]));
    assert!(kept.as_slice()[0].is_dir);
}

#[test]
fn sets_are_made_only_of_ordered_lists() {
    let ordered = entries_of(&listing(&[("/r", true), ("/r/a", false), ("/r/b", false)]));
    assert!(is_strictly_ascending(&ordered));
    assert_eq!(PathSet::from_sorted(ordered).map(|s| s.len()), Some(3));
    let repeated = entries_of(&listing(&[("/r/a", false), ("/r/a", false)]));
    assert!(!is_strictly_ascending(&repeated));
    assert!(PathSet::from_sorted(repeated).is_none());
    let unordered = entries_of(&listing(&[("/r/b", false), ("/r/a", false)]));
    assert!(PathSet::from_sorted(unordered).is_none());
    assert!(PathSet::from_sorted(Vec::new()).is_some());
}

#[test]
fn file_types_go_by_the_extension() {
    let types = strings(&["rs", "md"]);
    assert!(is_of_type("/r/src/lib.rs", &types));
    assert!(is_of_type("/r/README.md", &types));
    assert!(is_of_type("/r/a.tar.md", &types));
    assert!(!is_of_type("/r/lib.rsx", &types));
    assert!(!is_of_type("/r/rs", &types));
    assert!(!is_of_type("/r/.rs", &types));
    assert!(!is_of_type("/r/lib.RS", &types));
    assert!(!is_of_type("/r/lib.rs", &[]));
}

#[test]
fn scan_lists_the_root_and_what_passes() {
    let walked = listing(&[
        ("/r", true),
        ("/r/src", true),
        ("/r/src/lib.rs", false),
        ("/r/src/notes.txt", false),
        ("/r/README.md", false),
        ("/r/", true),
    ]);
    let all = scan_listing(&walked, "/r", true, &[]);
    assert_eq!(
        texts(&all),
        strings(&["/r", "/r/README.md", "/r/src", "/r/src/lib.rs", "/r/src/notes.txt"])
    );
    let only_rust = scan_listing(&walked, "/r", true, &strings(&["rs"]));
    assert_eq!(texts(&only_rust), strings(&["/r", "/r/src", "/r/src/lib.rs"]));
    let no_root = scan_listing(&walked, "/r", false, &strings(&["md"]));
    assert_eq!(texts(&no_root), strings(&["/r/README.md", "/r/src"]));
    assert!(scan_listing(&[], "/r", false, &[]).is_empty());
    assert_eq!(texts(&scan_listing(&[], "/r", true, &[])), strings(&["/r"]));
}
