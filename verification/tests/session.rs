use repoyank::tree_builder::build_tree_labels;
use repoyank::tui::app_state::{AppMode, SelectionState, TuiApp};
use repoyank::tui::arena::prepare_selectable_items;
use repoyank::tui::keys::{KeyCode, KeyEvent, KeyModifiers};
use repoyank::tui::viewport::{clamp_offset, position_in, scroll_to_show, step_in_list};

use SelectionState::{FullySelected, NotSelected, PartiallySelected};

// 0 ./   1 ./src   2 ./src/a.txt   3 ./src/b.txt   4 ./docs
fn small_app() -> TuiApp {
    let paths: Vec<(String, bool)> = [
        ("./", true),
        ("./src", true),
        ("./src/a.txt", false),
        ("./src/b.txt", false),
        ("./docs", true),
    ]
    .iter()
    .map(|(p, d)| (p.to_string(), *d))
    .collect();
    let labels = build_tree_labels(&paths, ".");
    TuiApp::new(prepare_selectable_items(&paths, &labels, "."))
}

fn press(app: &mut TuiApp, code: KeyCode) {
    app.handle_key_event(KeyEvent::plain(code));
}

fn type_text(app: &mut TuiApp, text: &str) {
    for c in text.chars() {
        press(app, KeyCode::Char(c));
    }
}

fn states(app: &TuiApp) -> Vec<SelectionState> {
    app.items().iter().map(|i| i.state).collect()
}

#[test]
fn new_session_starts_at_the_top() {
    let app = small_app();
    assert_eq!(app.current_selection_idx(), 0);
    assert_eq!(app.scroll_offset(), 0);
    assert!(!app.quit());
    assert!(!app.confirmed());
    assert_eq!(app.mode(), AppMode::Normal);
    assert!(app.filter_input().is_empty());
    assert_eq!(app.filter_cursor_pos(), 0);
    assert_eq!(app.list_viewport_height(), 0);
    assert_eq!(app.get_visible_item_indices(), vec![0, 1, 2, 3, 4]);
}

#[test]
fn filter_selects_only_matching_file() {
    let mut app = small_app();
    press(&mut app, KeyCode::Char('/'));
    assert_eq!(app.mode(), AppMode::Filtering);
    type_text(&mut app, "a.txt");
    press(&mut app, KeyCode::Enter);
    assert_eq!(app.mode(), AppMode::Normal);
    assert_eq!(app.get_visible_item_indices(), vec![0, 1, 2]);
    press(&mut app, KeyCode::Char('a'));
    assert_eq!(
        states(&app),
        vec![PartiallySelected, PartiallySelected, FullySelected, NotSelected, NotSelected]
    );
}

#[test]
fn selection_survives_collapse() {
    let mut app = small_app();
    press(&mut app, KeyCode::Char('j'));
    press(&mut app, KeyCode::Char('j'));
    assert_eq!(app.current_selection_idx(), 2);
    press(&mut app, KeyCode::Char(' '));
    assert_eq!(app.items()[2].state, FullySelected);
    press(&mut app, KeyCode::Char('k'));
    assert_eq!(app.current_selection_idx(), 1);
    press(&mut app, KeyCode::Char('o'));
    assert!(!app.items()[1].is_expanded);
    assert_eq!(app.get_visible_item_indices(), vec![0, 1, 4]);
    assert_eq!(app.items()[2].state, FullySelected);
    assert_eq!(app.items()[1].state, PartiallySelected);
}

#[test]
fn filter_ignores_case_on_both_sides() {
    let mut app = small_app();
    press(&mut app, KeyCode::Char('/'));
    type_text(&mut app, "B.TXT");
    assert_eq!(app.get_visible_item_indices(), vec![0, 1, 3]);
    let paths: Vec<(String, bool)> =
        vec![("./".to_string(), true), ("./docs".to_string(), true)];
    let labels = vec!["./".to_string(), "└─ DOCS/".to_string()];
    let mut app = TuiApp::new(prepare_selectable_items(&paths, &labels, "."));
    press(&mut app, KeyCode::Char('/'));
    type_text(&mut app, "docs");
    assert_eq!(app.get_visible_item_indices(), vec![0, 1]);
    press(&mut app, KeyCode::Esc);
    press(&mut app, KeyCode::Char('/'));
    type_text(&mut app, "docx");
    assert!(app.get_visible_item_indices().is_empty());
}

#[test]
fn filter_without_match_shows_nothing() {
    let mut app = small_app();
    press(&mut app, KeyCode::Char('/'));
    type_text(&mut app, "zzz");
    assert!(app.get_visible_item_indices().is_empty());
    assert_eq!(app.current_selection_idx(), 0);
    assert_eq!(app.scroll_offset(), 0);
    press(&mut app, KeyCode::Enter);
    press(&mut app, KeyCode::Char('j'));
    assert_eq!(app.current_selection_idx(), 0);
}

#[test]
fn cancelling_filter_restores_the_expanded_tree() {
    let mut app = small_app();
    press(&mut app, KeyCode::Char('/'));
    type_text(&mut app, "a.txt");
    assert_eq!(app.get_visible_item_indices(), vec![0, 1, 2]);
    press(&mut app, KeyCode::Esc);
    assert_eq!(app.mode(), AppMode::Normal);
    assert!(app.filter_input().is_empty());
    assert_eq!(app.filter_cursor_pos(), 0);
    assert_eq!(app.get_visible_item_indices(), vec![0, 1, 2, 3, 4]);
}

#[test]
fn filter_does_not_show_what_is_collapsed() {
    let mut app = small_app();
    press(&mut app, KeyCode::Char('j'));
    press(&mut app, KeyCode::Tab);
    press(&mut app, KeyCode::Char('/'));
    type_text(&mut app, "a.txt");
    assert_eq!(app.get_visible_item_indices(), vec![0, 1]);
}

#[test]
fn deselect_reaches_directories_and_what_is_below() {
    let mut app = small_app();
    press(&mut app, KeyCode::Char('a'));
    assert_eq!(
        states(&app),
        vec![PartiallySelected, FullySelected, FullySelected, FullySelected, NotSelected]
    );
    press(&mut app, KeyCode::Char('j'));
    press(&mut app, KeyCode::Char('o'));
    assert_eq!(app.get_visible_item_indices(), vec![0, 1, 4]);
    press(&mut app, KeyCode::Char('d'));
    assert!(states(&app).iter().all(|s| *s == NotSelected));
}

#[test]
fn select_all_leaves_hidden_files_alone() {
    let mut app = small_app();
    press(&mut app, KeyCode::Char('j'));
    press(&mut app, KeyCode::Char('o'));
    press(&mut app, KeyCode::Char('a'));
    assert!(states(&app).iter().all(|s| *s == NotSelected));
}

#[test]
fn toggle_flips_between_full_and_none() {
    let mut app = small_app();
    press(&mut app, KeyCode::Char('j'));
    press(&mut app, KeyCode::Enter);
    assert_eq!(
        states(&app),
        vec![PartiallySelected, FullySelected, FullySelected, FullySelected, NotSelected]
    );
    press(&mut app, KeyCode::Char('j'));
    press(&mut app, KeyCode::Char(' '));
    assert_eq!(
        states(&app),
        vec![PartiallySelected, PartiallySelected, NotSelected, FullySelected, NotSelected]
    );
    press(&mut app, KeyCode::Char('k'));
    press(&mut app, KeyCode::Char(' '));
    assert_eq!(
        states(&app),
        vec![PartiallySelected, FullySelected, FullySelected, FullySelected, NotSelected]
    );
    press(&mut app, KeyCode::Char(' '));
    assert!(states(&app).iter().all(|s| *s == NotSelected));
}

#[test]
fn cursor_goes_round_the_visible_list() {
    let mut app = small_app();
    press(&mut app, KeyCode::Up);
    assert_eq!(app.current_selection_idx(), 4);
    press(&mut app, KeyCode::Down);
    assert_eq!(app.current_selection_idx(), 0);
    app.move_selection_in_visible_list(7);
    assert_eq!(app.current_selection_idx(), 2);
    app.move_selection_in_visible_list(-4);
    assert_eq!(app.current_selection_idx(), 3);
    app.move_selection_in_visible_list(0);
    assert_eq!(app.current_selection_idx(), 3);
}

#[test]
fn cursor_skips_hidden_items() {
    let mut app = small_app();
    press(&mut app, KeyCode::Char('j'));
    press(&mut app, KeyCode::Char('o'));
    press(&mut app, KeyCode::Char('j'));
    assert_eq!(app.current_selection_idx(), 4);
    press(&mut app, KeyCode::Char('k'));
    assert_eq!(app.current_selection_idx(), 1);
}

#[test]
fn hidden_cursor_moves_to_nearest_visible_ancestor() {
    let mut app = small_app();
    app.move_selection_in_visible_list(3);
    assert_eq!(app.current_selection_idx(), 3);
    app.collapse_all_directories();
    assert_eq!(app.current_selection_idx(), 1);
    app.ensure_selection_is_visible();
    assert_eq!(app.current_selection_idx(), 1);
}

#[test]
fn collapse_all_keeps_top_level_open() {
    let mut app = small_app();
    app.move_selection_in_visible_list(3);
    press(&mut app, KeyCode::Char('-'));
    assert!(app.items()[0].is_expanded);
    assert!(!app.items()[1].is_expanded);
    assert!(!app.items()[4].is_expanded);
    assert_eq!(app.get_visible_item_indices(), vec![0, 1, 4]);
    assert_eq!(app.current_selection_idx(), 1);
    press(&mut app, KeyCode::Char('*'));
    assert!(app.items().iter().all(|i| i.is_expanded == i.is_dir));
    assert_eq!(app.get_visible_item_indices(), vec![0, 1, 2, 3, 4]);
}

#[test]
fn expansion_toggle_on_file_does_nothing() {
    let mut app = small_app();
    app.move_selection_in_visible_list(2);
    press(&mut app, KeyCode::Tab);
    assert!(!app.items()[2].is_expanded);
    assert_eq!(app.get_visible_item_indices(), vec![0, 1, 2, 3, 4]);
}

#[test]
fn window_follows_the_cursor() {
    let mut app = small_app();
    app.set_viewport_height(2);
    assert_eq!(app.scroll_offset(), 0);
    press(&mut app, KeyCode::Down);
    assert_eq!((app.current_selection_idx(), app.scroll_offset()), (1, 0));
    press(&mut app, KeyCode::Down);
    assert_eq!((app.current_selection_idx(), app.scroll_offset()), (2, 1));
    press(&mut app, KeyCode::Down);
    assert_eq!((app.current_selection_idx(), app.scroll_offset()), (3, 2));
    press(&mut app, KeyCode::Up);
    assert_eq!((app.current_selection_idx(), app.scroll_offset()), (2, 2));
    press(&mut app, KeyCode::Up);
    assert_eq!((app.current_selection_idx(), app.scroll_offset()), (1, 1));
    press(&mut app, KeyCode::Up);
    press(&mut app, KeyCode::Up);
    assert_eq!((app.current_selection_idx(), app.scroll_offset()), (4, 3));
}

#[test]
fn window_is_clamped_when_the_list_shrinks() {
    let mut app = small_app();
    app.set_viewport_height(2);
    app.move_selection_in_visible_list(4);
    assert_eq!((app.current_selection_idx(), app.scroll_offset()), (4, 3));
    app.move_selection_in_visible_list(-3);
    assert_eq!((app.current_selection_idx(), app.scroll_offset()), (1, 1));
    press(&mut app, KeyCode::Char('o'));
    assert_eq!(app.get_visible_item_indices(), vec![0, 1, 4]);
    assert_eq!((app.current_selection_idx(), app.scroll_offset()), (1, 1));
    app.set_viewport_height(10);
    assert_eq!(app.scroll_offset(), 0);
}

#[test]
fn window_without_height_keeps_its_offset_in_range() {
    assert_eq!(clamp_offset(9, 5, 0), 5);
    assert_eq!(clamp_offset(3, 5, 0), 3);
    assert_eq!(scroll_to_show(9, 2, 5, 0), 5);
    assert_eq!(scroll_to_show(3, 2, 5, 0), 3);
    let mut app = small_app();
    app.set_viewport_height(2);
    app.move_selection_in_visible_list(4);
    assert_eq!(app.scroll_offset(), 3);
    app.set_viewport_height(0);
    assert_eq!(app.scroll_offset(), 3);
    app.ensure_selection_is_visible_in_viewport();
    assert_eq!(app.scroll_offset(), 3);
}

#[test]
fn window_moves_by_the_least_amount() {
    assert_eq!(scroll_to_show(0, 0, 10, 3), 0);
    assert_eq!(scroll_to_show(0, 2, 10, 3), 0);
    assert_eq!(scroll_to_show(0, 3, 10, 3), 1);
    assert_eq!(scroll_to_show(5, 9, 10, 3), 7);
    assert_eq!(scroll_to_show(5, 4, 10, 3), 4);
    assert_eq!(scroll_to_show(9, 9, 10, 3), 7);
    assert_eq!(scroll_to_show(4, 1, 2, 5), 0);
    assert_eq!(step_in_list(Some(2), 3, 1), 0);
    assert_eq!(step_in_list(Some(0), 3, -1), 2);
    assert_eq!(step_in_list(Some(1), 3, 7), 2);
    assert_eq!(step_in_list(Some(1), 3, -7), 0);
    assert_eq!(step_in_list(None, 3, 1), 0);
    assert_eq!(step_in_list(None, 3, -1), 2);
    assert_eq!(step_in_list(None, 3, 0), 2);
    assert_eq!(step_in_list(Some(1), 0, 1), 0);
    assert_eq!(step_in_list(Some(0), 1, i32::MIN), 0);
    assert_eq!(step_in_list(Some(1), 4, i32::MAX), 0);
    assert_eq!(position_in(&[3, 5, 8], 5), Some(1));
    assert_eq!(position_in(&[3, 5, 8], 4), None);
}

#[test]
fn quit_and_confirm() {
    let mut app = small_app();
    press(&mut app, KeyCode::Char('q'));
    assert!(app.quit() && !app.confirmed());
    let mut app = small_app();
    press(&mut app, KeyCode::Esc);
    assert!(app.quit() && !app.confirmed());
    let mut app = small_app();
    press(&mut app, KeyCode::Char('y'));
    assert!(app.quit() && app.confirmed());
}

#[test]
fn modifiers_gate_select_and_deselect() {
    let shift = KeyModifiers { bits: 1 };
    let mut app = small_app();
    app.handle_key_event(KeyEvent::new(KeyCode::Char('a'), shift));
    assert!(states(&app).iter().all(|s| *s == NotSelected));
    app.handle_key_event(KeyEvent::new(KeyCode::Char('A'), KeyModifiers::none()));
    assert!(states(&app).iter().all(|s| *s == NotSelected));
    app.handle_key_event(KeyEvent::new(KeyCode::Char('A'), KeyModifiers::control()));
    assert_eq!(app.items()[2].state, FullySelected);
    app.handle_key_event(KeyEvent::new(KeyCode::Char('d'), KeyModifiers::control()));
    assert_eq!(app.items()[2].state, FullySelected);
    app.handle_key_event(KeyEvent::new(KeyCode::Char('d'), KeyModifiers::none()));
    assert!(states(&app).iter().all(|s| *s == NotSelected));
    app.handle_key_event(KeyEvent::new(KeyCode::Char('a'), KeyModifiers::control()));
    assert_eq!(app.items()[3].state, FullySelected);
}

#[test]
fn unknown_keys_do_nothing() {
    let mut app = small_app();
    press(&mut app, KeyCode::Other);
    press(&mut app, KeyCode::Char('z'));
    press(&mut app, KeyCode::Backspace);
    press(&mut app, KeyCode::Left);
    assert_eq!(app.current_selection_idx(), 0);
    assert_eq!(app.mode(), AppMode::Normal);
    assert!(!app.quit());
    assert!(states(&app).iter().all(|s| *s == NotSelected));
}

#[test]
fn filter_text_is_edited_at_the_cursor() {
    let mut app = small_app();
    press(&mut app, KeyCode::Char('/'));
    type_text(&mut app, "ac");
    press(&mut app, KeyCode::Left);
    press(&mut app, KeyCode::Char('b'));
    assert_eq!(app.filter_input(), &['a', 'b', 'c']);
    assert_eq!(app.filter_cursor_pos(), 2);
    press(&mut app, KeyCode::Right);
    press(&mut app, KeyCode::Right);
    assert_eq!(app.filter_cursor_pos(), 3);
    press(&mut app, KeyCode::Backspace);
    assert_eq!(app.filter_input(), &['a', 'b']);
    press(&mut app, KeyCode::Left);
    press(&mut app, KeyCode::Left);
    press(&mut app, KeyCode::Left);
    assert_eq!(app.filter_cursor_pos(), 0);
    press(&mut app, KeyCode::Backspace);
    assert_eq!(app.filter_input(), &['a', 'b']);
    press(&mut app, KeyCode::Char('é'));
    assert_eq!(app.filter_input(), &['é', 'a', 'b']);
    assert_eq!(app.filter_cursor_pos(), 1);
}

#[test]
fn keys_are_text_while_filtering() {
    let mut app = small_app();
    press(&mut app, KeyCode::Char('/'));
    type_text(&mut app, "qy");
    assert!(!app.quit());
    assert_eq!(app.filter_input(), &['q', 'y']);
    press(&mut app, KeyCode::Tab);
    press(&mut app, KeyCode::Up);
    assert_eq!(app.mode(), AppMode::Filtering);
}

#[test]
fn filtering_moves_cursor_onto_a_visible_item() {
    let mut app = small_app();
    app.move_selection_in_visible_list(3);
    press(&mut app, KeyCode::Char('/'));
    type_text(&mut app, "a.t");
    assert_eq!(app.current_selection_idx(), 1);
    press(&mut app, KeyCode::Esc);
    app.move_selection_in_visible_list(-2);
    assert_eq!(app.current_selection_idx(), 4);
    press(&mut app, KeyCode::Char('/'));
    type_text(&mut app, "a.t");
    assert_eq!(app.current_selection_idx(), 0);
}

#[test]
fn empty_session_takes_every_key() {
    let mut app = TuiApp::new(Vec::new());
    for code in [
        KeyCode::Down,
        KeyCode::Up,
        KeyCode::Enter,
        KeyCode::Tab,
        KeyCode::Char('*'),
        KeyCode::Char('-'),
        KeyCode::Char('a'),
        KeyCode::Char('d'),
    ] {
        press(&mut app, code);
    }
    app.set_viewport_height(3);
    assert_eq!(app.current_selection_idx(), 0);
    assert_eq!(app.scroll_offset(), 0);
    assert!(app.get_visible_item_indices().is_empty());
}

#[test]
fn confirmed_session_hands_out_the_arena() {
    let mut app = small_app();
    press(&mut app, KeyCode::Char('j'));
    press(&mut app, KeyCode::Char(' '));
    press(&mut app, KeyCode::Char('y'));
    assert!(app.confirmed());
    let items = app.into_items();
    assert_eq!(items.len(), 5);
    assert_eq!(items[2].state, FullySelected);
    assert_eq!(items[4].state, NotSelected);
}

#[test]
fn large_tree_is_handled() {
    let mut paths: Vec<(String, bool)> = vec![("/r".to_string(), true)];
    for d in 0..100 {
        paths.push((format!("/r/dir_{:03}", d), true));
        for f in 0..40 {
            paths.push((format!("/r/dir_{:03}/file_{:02}.rs", d, f), false));
        }
    }
    let labels = build_tree_labels(&paths, "/r");
    assert_eq!(labels.len(), 4101);
    assert_eq!(labels[1], "├─ dir_000/");
    assert_eq!(labels[41], "│  └─ file_39.rs");
    assert_eq!(labels[4060], "└─ dir_099/");
    assert_eq!(labels[4100], "   └─ file_39.rs");
    let mut app = TuiApp::new(prepare_selectable_items(&paths, &labels, "/r"));
    app.set_viewport_height(30);
    press(&mut app, KeyCode::Char('a'));
    assert!(app.items().iter().all(|i| i.state == FullySelected));
    press(&mut app, KeyCode::Up);
    assert_eq!(app.current_selection_idx(), 4100);
    assert_eq!(app.scroll_offset(), 4071);
    press(&mut app, KeyCode::Char('/'));
    type_text(&mut app, "file_07");
    assert_eq!(app.get_visible_item_indices().len(), 201);
    assert_eq!(app.current_selection_idx(), 4060);
    press(&mut app, KeyCode::Enter);
    press(&mut app, KeyCode::Char('d'));
    assert!(app.items().iter().all(|i| i.state == NotSelected));
    press(&mut app, KeyCode::Char('-'));
    let rows = app.get_visible_item_indices();
    assert_eq!(rows.len(), 101);
    assert_eq!(rows[1], 1);
    assert_eq!(rows[100], 4060);
    assert_eq!(app.current_selection_idx(), 4060);
    assert_eq!(app.scroll_offset(), 71);
    assert_eq!(app.highlighted_row(), Some(29));
}
