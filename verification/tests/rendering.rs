use repoyank::tree_builder::build_tree_labels;
use repoyank::tui::app_state::{AppMode, SelectableItem, SelectionState, TuiApp};
use repoyank::tui::arena::{is_well_formed, prepare_selectable_items};
use repoyank::tui::event_handler::{filter_action, normal_action, FilterAction, NormalAction};
use repoyank::tui::keys::{KeyCode, KeyEvent, KeyModifiers};
use repoyank::tui::ui_renderer::{
    cursor_column, help_block_height, help_text, item_line, list_height, top_block_height,
};

fn small_app() -> TuiApp {
    let paths: Vec<(String, bool)> = [
        ("./", true),
        ("./src", true),
        ("./src/a.txt", false),
        ("./src/b.txt", false),
        ("./docs", true),
    ]
    .iter()
    .map(|(p, d)| (p.to_string(), *d))
    .collect();
    let labels = build_tree_labels(&paths, ".");
    TuiApp::new(prepare_selectable_items(&paths, &labels, "."))
}

fn press(app: &mut TuiApp, code: KeyCode) {
    app.handle_key_event(KeyEvent::plain(code));
}

fn item(label: &str, is_dir: bool, expanded: bool, state: SelectionState) -> SelectableItem {
    SelectableItem {
        path: String::new(),
        display_text: label.to_string(),
        is_dir,
        is_expanded: expanded,
        state,
        children_indices: Vec::new(),
        parent_index: None,
    }
}

#[test]
fn rows_carry_both_marks_and_the_label() {
    assert_eq!(
        item_line(&item("├─ src/", true, true, SelectionState::NotSelected)),
        "[-] [ ] ├─ src/"
    );
    assert_eq!(
        item_line(&item("├─ src/", true, false, SelectionState::PartiallySelected)),
        "[+] [-] ├─ src/"
    );
    assert_eq!(
        item_line(&item("└─ a.txt", false, false, SelectionState::FullySelected)),
        "    [x] └─ a.txt"
    );
    assert_eq!(item_line(&item("", false, true, SelectionState::NotSelected)), "    [ ] ");
}

#[test]
fn window_shows_the_rows_from_the_offset() {
    let mut app = small_app();
    assert!(app.window_lines().is_empty());
    assert_eq!(app.highlighted_row(), None);
    app.set_viewport_height(3);
    assert_eq!(
        app.window_lines(),
        vec!["[-] [ ] ./", "[-] [ ] ├─ src/", "    [ ] │  ├─ a.txt"]
    );
    assert_eq!(app.highlighted_row(), Some(0));
    press(&mut app, KeyCode::Up);
    assert_eq!(app.scroll_offset(), 2);
    assert_eq!(
        app.window_lines(),
        vec!["    [ ] │  ├─ a.txt", "    [ ] │  └─ b.txt", "[-] [ ] └─ docs/"]
    );
    assert_eq!(app.highlighted_row(), Some(2));
    press(&mut app, KeyCode::Char(' '));
    assert_eq!(app.window_lines()[2], "[-] [x] └─ docs/");
    app.set_viewport_height(10);
    assert_eq!(app.window_lines().len(), 5);
    assert_eq!(app.highlighted_row(), Some(4));
    assert_eq!(app.window_lines()[0], "[-] [-] ./");
}

#[test]
fn window_shows_only_what_is_visible() {
    let mut app = small_app();
    app.set_viewport_height(10);
    press(&mut app, KeyCode::Down);
    press(&mut app, KeyCode::Tab);
    assert_eq!(
        app.window_lines(),
        vec!["[-] [ ] ./", "[+] [ ] ├─ src/", "[-] [ ] └─ docs/"]
    );
    assert_eq!(app.highlighted_row(), Some(1));
}

#[test]
fn title_names_the_filter_once_it_is_committed() {
    let mut app = small_app();
    assert_eq!(app.list_title(), "Select files/directories");
    assert_eq!(app.filter_line(), "/");
    press(&mut app, KeyCode::Char('/'));
    press(&mut app, KeyCode::Char('a'));
    press(&mut app, KeyCode::Char('é'));
    assert_eq!(app.list_title(), "Select files/directories");
    assert_eq!(app.filter_line(), "/aé");
    press(&mut app, KeyCode::Backspace);
    press(&mut app, KeyCode::Enter);
    assert_eq!(app.mode(), AppMode::Normal);
    assert_eq!(app.list_title(), "Files (Filter: 'a')");
    assert_eq!(app.filter_line(), "/a");
}

#[test]
fn heights_of_the_blocks() {
    assert_eq!(top_block_height(AppMode::Normal), 4);
    assert_eq!(top_block_height(AppMode::Filtering), 7);
    assert_eq!(help_block_height(), 4);
    assert_eq!(list_height(0), 0);
    assert_eq!(list_height(1), 0);
    assert_eq!(list_height(2), 0);
    assert_eq!(list_height(3), 1);
    assert_eq!(list_height(40), 38);
    assert_eq!(list_height(u16::MAX), 65533);
}

#[test]
fn cursor_column_stays_on_the_screen() {
    assert_eq!(cursor_column(0, 0), 2);
    assert_eq!(cursor_column(1, 3), 6);
    assert_eq!(cursor_column(65533, 0), 65535);
    assert_eq!(cursor_column(65534, 0), 65535);
    assert_eq!(cursor_column(65535, 0), 65535);
    assert_eq!(cursor_column(10, 70000), 65535);
    assert_eq!(cursor_column(10, usize::MAX), 65535);
    assert_eq!(cursor_column(1, 65532), 65535);
    assert_eq!(cursor_column(1, 65531), 65534);
}

#[test]
fn help_text_has_two_lines() {
    let (first, second) = help_text();
    assert_eq!(
        first,
        "Arrows/jk: Nav | Space/Enter: Sel | Tab/o: Fold | y: Confirm | q/Esc: Quit"
    );
    assert_eq!(
        second,
        "a: Sel All Vis | d: Desel All | *: Expand All | -: Collapse All | /: Filter"
    );
}

#[test]
fn keys_are_read_by_mode() {
    let plain = |c: char| KeyEvent::plain(KeyCode::Char(c));
    assert_eq!(normal_action(plain('/')), NormalAction::EnterFilter);
    assert_eq!(normal_action(plain('q')), NormalAction::Quit);
    assert_eq!(normal_action(KeyEvent::plain(KeyCode::Esc)), NormalAction::Quit);
    assert_eq!(normal_action(plain('y')), NormalAction::Confirm);
    assert_eq!(normal_action(plain('j')), NormalAction::MoveNext);
    assert_eq!(normal_action(KeyEvent::plain(KeyCode::Down)), NormalAction::MoveNext);
    assert_eq!(normal_action(plain('k')), NormalAction::MovePrevious);
    assert_eq!(normal_action(KeyEvent::plain(KeyCode::Up)), NormalAction::MovePrevious);
    assert_eq!(normal_action(plain(' ')), NormalAction::ToggleSelection);
    assert_eq!(normal_action(KeyEvent::plain(KeyCode::Enter)), NormalAction::ToggleSelection);
    assert_eq!(normal_action(plain('o')), NormalAction::ToggleExpansion);
    assert_eq!(normal_action(KeyEvent::plain(KeyCode::Tab)), NormalAction::ToggleExpansion);
    assert_eq!(normal_action(plain('*')), NormalAction::ExpandAll);
    assert_eq!(normal_action(plain('-')), NormalAction::CollapseAll);
    assert_eq!(normal_action(plain('a')), NormalAction::SelectAllVisible);
    assert_eq!(normal_action(plain('d')), NormalAction::DeselectAllVisible);
    assert_eq!(normal_action(plain('A')), NormalAction::Nothing);
    assert_eq!(normal_action(plain('x')), NormalAction::Nothing);
    assert_eq!(normal_action(KeyEvent::plain(KeyCode::Left)), NormalAction::Nothing);
    let ctrl = KeyModifiers::control();
    assert_eq!(
        normal_action(KeyEvent::new(KeyCode::Char('q'), ctrl)),
        NormalAction::Quit
    );
    assert_eq!(
        normal_action(KeyEvent::new(KeyCode::Char('A'), ctrl)),
        NormalAction::SelectAllVisible
    );
    assert_eq!(
        normal_action(KeyEvent::new(KeyCode::Char('a'), KeyModifiers { bits: 4 })),
        NormalAction::Nothing
    );
    assert_eq!(
        normal_action(KeyEvent::new(KeyCode::Char('d'), KeyModifiers { bits: 1 })),
        NormalAction::Nothing
    );

    assert_eq!(filter_action(KeyEvent::plain(KeyCode::Enter)), FilterAction::Commit);
    assert_eq!(filter_action(KeyEvent::plain(KeyCode::Esc)), FilterAction::Cancel);
    assert_eq!(filter_action(plain('q')), FilterAction::Insert('q'));
    assert_eq!(
        filter_action(KeyEvent::new(KeyCode::Char('Q'), KeyModifiers { bits: 1 })),
        FilterAction::Insert('Q')
    );
    assert_eq!(filter_action(KeyEvent::plain(KeyCode::Backspace)), FilterAction::Erase);
    assert_eq!(filter_action(KeyEvent::plain(KeyCode::Left)), FilterAction::CursorLeft);
    assert_eq!(filter_action(KeyEvent::plain(KeyCode::Right)), FilterAction::CursorRight);
    assert_eq!(filter_action(KeyEvent::plain(KeyCode::Tab)), FilterAction::Nothing);
    assert_eq!(filter_action(KeyEvent::plain(KeyCode::Other)), FilterAction::Nothing);
}

#[test]
fn modifiers_know_what_they_hold() {
    assert!(KeyModifiers::none().is_empty());
    assert!(!KeyModifiers::none().is_control());
    assert!(KeyModifiers::control().is_control());
    assert!(!KeyModifiers::control().is_empty());
    assert!(!KeyModifiers { bits: 3 }.is_control());
    assert!(!KeyModifiers { bits: 3 }.is_empty());
}

#[test]
fn soundness_of_an_arena_can_be_told() {
    let paths: Vec<(String, bool)> =
        vec![("/r".to_string(), true), ("/r/a".to_string(), true), ("/r/a/f".to_string(), false)];
    let labels = build_tree_labels(&paths, "/r");
    let sound = prepare_selectable_items(&paths, &labels, "/r");
    assert!(is_well_formed(&sound));
    assert!(is_well_formed(&[]));

    let mut broken = prepare_selectable_items(&paths, &labels, "/r");
    broken[2].parent_index = Some(0);
    assert!(!is_well_formed(&broken));

    let mut broken = prepare_selectable_items(&paths, &labels, "/r");
    broken[1].children_indices.push(2);
    assert!(!is_well_formed(&broken));

    let mut broken = prepare_selectable_items(&paths, &labels, "/r");
    broken[0].parent_index = Some(1);
    assert!(!is_well_formed(&broken));

    let mut broken = prepare_selectable_items(&paths, &labels, "/r");
    broken[1].is_dir = false;
    assert!(!is_well_formed(&broken));

    let mut broken = prepare_selectable_items(&paths, &labels, "/r");
    broken[1].children_indices = vec![7];
    assert!(!is_well_formed(&broken));

    let mut broken = prepare_selectable_items(&paths, &labels, "/r");
    broken[2].parent_index = None;
    assert!(!is_well_formed(&broken));
}
