use repoyank::tree_builder::build_tree_labels;
use repoyank::tui::app_logic::{
    apply_state_and_propagate_down_vec, recalculate_parent_state_vec,
    update_all_parent_states_from_child_vec,
};
use repoyank::tui::app_state::{SelectableItem, SelectionState};
use repoyank::tui::arena::prepare_selectable_items;

use SelectionState::{FullySelected, NotSelected, PartiallySelected};

fn listing(paths: &[(&str, bool)]) -> Vec<(String, bool)> {
    paths.iter().map(|(p, d)| (p.to_string(), *d)).collect()
}

fn arena(paths: &[(&str, bool)], root: &str) -> Vec<SelectableItem> {
    let paths = listing(paths);
    let labels = build_tree_labels(&paths, root);
    prepare_selectable_items(&paths, &labels, root)
}

// 0 ./   1 ./src   2 ./src/a.txt   3 ./src/b.txt   4 ./docs
fn small() -> Vec<SelectableItem> {
    arena(
        &[
            ("./", true),
            ("./src", true),
            ("./src/a.txt", false),
            ("./src/b.txt", false),
            ("./docs", true),
        ],
        ".",
    )
}

// 0 /r  1 /r/a  2 /r/a/b  3 /r/a/b/f1  4 /r/a/b/f2  5 /r/a/g  6 /r/h
fn deep() -> Vec<SelectableItem> {
    arena(
        &[
            ("/r", true),
            ("/r/a", true),
            ("/r/a/b", true),
            ("/r/a/b/f1", false),
            ("/r/a/b/f2", false),
            ("/r/a/g", false),
            ("/r/h", false),
        ],
        "/r",
    )
}

fn states(items: &[SelectableItem]) -> Vec<SelectionState> {
    items.iter().map(|i| i.state).collect()
}

#[test]
fn arena_links_children_to_parents() {
    let items = small();
    assert_eq!(items.len(), 5);
    assert_eq!(items[0].parent_index, None);
    assert_eq!(items[0].children_indices, vec![1, 4]);
    assert_eq!(items[1].parent_index, Some(0));
    assert_eq!(items[1].children_indices, vec![2, 3]);
    assert_eq!(items[2].parent_index, Some(1));
    assert_eq!(items[3].parent_index, Some(1));
    assert_eq!(items[4].parent_index, Some(0));
    assert!(items[4].children_indices.is_empty());
    assert_eq!(items[2].path, "./src/a.txt");
    assert_eq!(items[2].display_text, "│  ├─ a.txt");
}

#[test]
fn arena_starts_unselected_with_directories_expanded() {
    let items = small();
    for item in &items {
        assert_eq!(item.state, NotSelected);
        assert_eq!(item.is_expanded, item.is_dir);
    }
}

#[test]
fn arena_has_one_item_per_labelled_path() {
    let paths = listing(&[("/r", true), ("/r/a", false), ("/r/b", false)]);
    let labels = vec!["./".to_string(), "x".to_string()];
    let items = prepare_selectable_items(&paths, &labels, "/r");
    assert_eq!(items.len(), 2);
    assert_eq!(items[1].display_text, "x");
}

#[test]
fn path_without_parent_in_list_starts_its_own_tree() {
    let items = arena(&[("/r", true), ("/r/lost/deep.txt", false), ("/r/a", false)], "/r");
    assert_eq!(items[1].parent_index, None);
    assert_eq!(items[2].parent_index, Some(0));
    assert_eq!(items[0].children_indices, vec![2]);
}

#[test]
fn path_outside_root_is_not_linked() {
    let items = arena(&[("/other", true), ("/other/x", false), ("/r", true)], "/r");
    assert_eq!(items[1].parent_index, None);
    assert!(items[0].children_indices.is_empty());
}

#[test]
fn file_is_never_taken_as_parent() {
    let items = arena(&[("/r", true), ("/r/a", false), ("/r/a/b", false)], "/r");
    assert_eq!(items[2].parent_index, None);
    assert!(items[1].children_indices.is_empty());
}

#[test]
fn selecting_directory_selects_every_descendant() {
    let mut items = deep();
    apply_state_and_propagate_down_vec(&mut items, 1, FullySelected);
    assert_eq!(
        states(&items),
        vec![
            NotSelected,
            FullySelected,
            FullySelected,
            FullySelected,
            FullySelected,
            FullySelected,
            NotSelected,
        ]
    );
}

#[test]
fn partial_state_does_not_cascade() {
    let mut items = deep();
    apply_state_and_propagate_down_vec(&mut items, 1, PartiallySelected);
    assert_eq!(items[1].state, PartiallySelected);
    for i in [0usize, 2, 3, 4, 5, 6] {
        assert_eq!(items[i].state, NotSelected);
    }
}

#[test]
fn partial_state_on_file_becomes_full() {
    let mut items = deep();
    apply_state_and_propagate_down_vec(&mut items, 3, PartiallySelected);
    assert_eq!(items[3].state, FullySelected);
}

#[test]
fn index_outside_arena_changes_nothing() {
    let mut items = deep();
    apply_state_and_propagate_down_vec(&mut items, 99, FullySelected);
    update_all_parent_states_from_child_vec(&mut items, 99);
    recalculate_parent_state_vec(&mut items, 99);
    assert!(items.iter().all(|i| i.state == NotSelected));
}

#[test]
fn ancestors_follow_their_children() {
    let mut items = deep();
    apply_state_and_propagate_down_vec(&mut items, 3, FullySelected);
    update_all_parent_states_from_child_vec(&mut items, 3);
    assert_eq!(
        states(&items),
        vec![
            PartiallySelected,
            PartiallySelected,
            PartiallySelected,
            FullySelected,
            NotSelected,
            NotSelected,
            NotSelected,
        ]
    );
    apply_state_and_propagate_down_vec(&mut items, 4, FullySelected);
    update_all_parent_states_from_child_vec(&mut items, 4);
    assert_eq!(items[2].state, FullySelected);
    assert_eq!(items[1].state, PartiallySelected);
    assert_eq!(items[0].state, PartiallySelected);
    apply_state_and_propagate_down_vec(&mut items, 5, FullySelected);
    update_all_parent_states_from_child_vec(&mut items, 5);
    assert_eq!(items[1].state, FullySelected);
    assert_eq!(items[0].state, PartiallySelected);
    apply_state_and_propagate_down_vec(&mut items, 6, FullySelected);
    update_all_parent_states_from_child_vec(&mut items, 6);
    assert!(items.iter().all(|i| i.state == FullySelected));
    apply_state_and_propagate_down_vec(&mut items, 0, NotSelected);
    update_all_parent_states_from_child_vec(&mut items, 0);
    assert!(items.iter().all(|i| i.state == NotSelected));
}

#[test]
fn directory_without_children_keeps_its_state() {
    let mut items = small();
    items[4].state = FullySelected;
    recalculate_parent_state_vec(&mut items, 4);
    assert_eq!(items[4].state, FullySelected);
    update_all_parent_states_from_child_vec(&mut items, 4);
    assert_eq!(items[0].state, PartiallySelected);
}

#[test]
fn recalculating_file_changes_nothing() {
    let mut items = small();
    items[2].state = FullySelected;
    recalculate_parent_state_vec(&mut items, 2);
    assert_eq!(items[2].state, FullySelected);
}

#[test]
fn directory_is_partial_when_child_is_partial() {
    let mut items = deep();
    items[2].state = PartiallySelected;
    recalculate_parent_state_vec(&mut items, 1);
    assert_eq!(items[1].state, PartiallySelected);
}
