use lsn::fs::{ChildEntry, FsNodeKind, StateManager};
use lsn::projection::state_to_view;
use lsn::selection::{close_nearest, move_selection, remap_selection, toggle_folder, SelectionMove};
use lsn::view::{Filter, Sort, ViewItem};

fn entry(name: &str, is_dir: bool) -> ChildEntry {
    ChildEntry {
        name: name.to_string(),
        is_dir,
    }
}

fn view(state: &StateManager) -> Vec<ViewItem> {
    state_to_view(state, &Filter::default(), &Sort::Directory)
}

fn paths(items: &[ViewItem]) -> Vec<String> {
    items.iter().map(|it| it.path.clone()).collect()
}

/// root -> a -> b -> c.txt, every directory open.
fn deep_tree() -> StateManager {
    let mut state = StateManager::new("root".to_string(), true);
    let root = state.root();
    state.set_open(root, true, vec![entry("a", true), entry("top.txt", false)]);
    let a = state.lookup("root/a").unwrap();
    state.set_open(a, true, vec![entry("b", true)]);
    let b = state.lookup("root/a/b").unwrap();
    state.set_open(b, true, vec![entry("c.txt", false)]);
    state
}

#[test]
fn move_selection_clamps_to_the_list() {
    assert_eq!(move_selection(0, 5, SelectionMove::Up), 0);
    assert_eq!(move_selection(3, 5, SelectionMove::Up), 2);
    assert_eq!(move_selection(4, 5, SelectionMove::Down), 4);
    assert_eq!(move_selection(2, 5, SelectionMove::Down), 3);
    assert_eq!(move_selection(3, 5, SelectionMove::First), 0);
    assert_eq!(move_selection(1, 5, SelectionMove::Last), 4);
    assert_eq!(move_selection(7, 0, SelectionMove::Down), 0);
}

#[test]
fn toggle_folder_toggles_the_selected_row() {
    let mut state = StateManager::new("root".to_string(), true);
    let root = state.root();
    state.set_open(root, true, vec![entry("a", true)]);
    let items = view(&state);
    assert_eq!(paths(&items), vec!["root", "root/a"]);

    // Row 1 is the closed directory `a`: toggling it opens and loads it.
    toggle_folder(&mut state, &items, 1, vec![entry("x.txt", false)]);
    let items = view(&state);
    assert_eq!(paths(&items), vec!["root", "root/a", "root/a/x.txt"]);

    // An out-of-range selection changes nothing.
    toggle_folder(&mut state, &items, 99, vec![]);
    assert_eq!(paths(&view(&state)), vec!["root", "root/a", "root/a/x.txt"]);
}

#[test]
fn close_nearest_closes_an_open_directory_in_place() {
    let mut state = deep_tree();
    let items = view(&state);
    // Row 2 is the open directory `root/a/b`.
    assert_eq!(items[2].path.as_str(), "root/a/b");
    let sel = close_nearest(&mut state, &items, 2);
    assert_eq!(sel, 2);
    let after = view(&state);
    assert!(!paths(&after).contains(&"root/a/b/c.txt".to_string()));
    assert!(paths(&after).contains(&"root/a/b".to_string()));
}

#[test]
fn close_nearest_on_a_file_closes_its_parent_and_moves_up() {
    let mut state = deep_tree();
    let items = view(&state);
    // Row 3 is the file `root/a/b/c.txt`; its parent `root/a/b` is row 2.
    assert_eq!(items[3].path.as_str(), "root/a/b/c.txt");
    let sel = close_nearest(&mut state, &items, 3);
    assert_eq!(sel, 2);
    let b = state.lookup("root/a/b").unwrap();
    match &state.get_entry(&b).unwrap().kind {
        FsNodeKind::Directory { is_open, .. } => assert!(!is_open),
        FsNodeKind::File => panic!("b is a directory"),
    }
    // After re-projection the parent still sits at the returned row.
    let after = view(&state);
    assert_eq!(after[sel].path.as_str(), "root/a/b");
}

#[test]
fn remap_keeps_a_row_that_is_still_shown() {
    let state = deep_tree();
    let items = view(&state);
    let prev = &items[3];
    let sel = remap_selection(&items, &prev.handle, prev.path.as_str());
    assert_eq!(sel, 3);
}

#[test]
fn remap_resolves_to_the_nearest_present_ancestor() {
    let mut state = deep_tree();
    let items = view(&state);
    let prev_handle = items[3].handle;
    let prev_path = items[3].path.clone();
    // Closing the grandparent `root/a` hides both `b` and `c.txt`.
    let a = state.lookup("root/a").unwrap();
    state.set_open(a, false, vec![]);
    let after = view(&state);
    assert_eq!(paths(&after), vec!["root", "root/a", "root/top.txt"]);
    let sel = remap_selection(&after, &prev_handle, prev_path.as_str());
    assert_eq!(after[sel].path.as_str(), "root/a");
}

#[test]
fn remap_falls_back_to_the_first_row() {
    let state = deep_tree();
    let items = view(&state);
    let stray = lsn::arena::Handle {
        index: 999,
        generation: 0,
    };
    let sel = remap_selection(&items, &stray, "elsewhere/entirely");
    assert_eq!(sel, 0);
}
