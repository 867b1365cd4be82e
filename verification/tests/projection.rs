use lsn::fs::{ChildEntry, StateManager};
use lsn::projection::state_to_view;
use lsn::view::{Filter, Sort, ViewItem};

fn entry(name: &str, is_dir: bool) -> ChildEntry {
    ChildEntry {
        name: name.to_string(),
        is_dir,
    }
}

fn names(items: &[ViewItem]) -> Vec<String> {
    items.iter().map(|it| it.name.clone()).collect()
}

fn paths(items: &[ViewItem]) -> Vec<String> {
    items.iter().map(|it| it.path.clone()).collect()
}

/// The tree of the end-to-end scenario: the root holds `a/` (with one child
/// `a/x.txt`), `.hidden`, and `b.txt`, all closed, root open.
fn scenario() -> StateManager {
    let mut state = StateManager::new("root".to_string(), true);
    let root = state.root();
    state.set_open(
        root,
        true,
        vec![entry("a", true), entry(".hidden", false), entry("b.txt", false)],
    );
    state
}

#[test]
fn end_to_end_scenario() {
    let mut state = scenario();
    let no_filter = Filter::default();
    let sort = Sort::Directory;

    // All children closed, no filters, directories first.
    let items = state_to_view(&state, &no_filter, &sort);
    assert_eq!(names(&items), vec!["root", "a", ".hidden", "b.txt"]);

    // Toggling `a` open triggers its lazy load.
    let a = state.lookup("root/a").unwrap();
    state.toggle_open(a, vec![entry("x.txt", false)]);
    let items = state_to_view(&state, &no_filter, &sort);
    assert_eq!(names(&items), vec!["root", "a", "x.txt", ".hidden", "b.txt"]);
    assert_eq!(
        paths(&items),
        vec!["root", "root/a", "root/a/x.txt", "root/.hidden", "root/b.txt"]
    );

    // Enabling the dotfile filter hides `.hidden`.
    let dotless = Filter {
        dotfiles: true,
        ..Filter::default()
    };
    let items = state_to_view(&state, &dotless, &sort);
    assert_eq!(names(&items), vec!["root", "a", "x.txt", "b.txt"]);
}

#[test]
fn depths_follow_nesting() {
    let mut state = scenario();
    let a = state.lookup("root/a").unwrap();
    state.toggle_open(a, vec![entry("x.txt", false)]);
    let items = state_to_view(&state, &Filter::default(), &Sort::Directory);
    let depths: Vec<usize> = items.iter().map(|it| it.depth).collect();
    assert_eq!(depths, vec![0, 1, 2, 1, 1]);
}

#[test]
fn alphabetical_is_preorder_by_path() {
    let mut state = scenario();
    let a = state.lookup("root/a").unwrap();
    state.toggle_open(a, vec![entry("x.txt", false)]);
    let items = state_to_view(&state, &Filter::default(), &Sort::Alphabetical);
    // Siblings in plain path order: "root/.hidden" < "root/a" < "root/b.txt".
    assert_eq!(
        paths(&items),
        vec!["root", "root/.hidden", "root/a", "root/a/x.txt", "root/b.txt"]
    );
}

#[test]
fn files_first_mirrors_directories_first() {
    let state = scenario();
    let items = state_to_view(&state, &Filter::default(), &Sort::File);
    assert_eq!(names(&items), vec!["root", ".hidden", "b.txt", "a"]);
}

#[test]
fn changing_sort_keeps_the_set_of_paths() {
    let mut state = scenario();
    let a = state.lookup("root/a").unwrap();
    state.toggle_open(a, vec![entry("x.txt", false)]);
    let mut p1 = paths(&state_to_view(&state, &Filter::default(), &Sort::Directory));
    let mut p2 = paths(&state_to_view(&state, &Filter::default(), &Sort::File));
    let mut p3 = paths(&state_to_view(
        &state,
        &Filter::default(),
        &Sort::Alphabetical,
    ));
    p1.sort();
    p2.sort();
    p3.sort();
    assert_eq!(p1, p2);
    assert_eq!(p2, p3);
}

#[test]
fn closing_a_directory_hides_its_strict_descendants() {
    let mut state = scenario();
    let a = state.lookup("root/a").unwrap();
    state.toggle_open(a, vec![entry("x.txt", false)]);
    let before = paths(&state_to_view(&state, &Filter::default(), &Sort::Directory));
    assert!(before.contains(&"root/a/x.txt".to_string()));

    state.set_open(a, false, vec![]);
    let after = paths(&state_to_view(&state, &Filter::default(), &Sort::Directory));
    // The directory's own row stays; every strict descendant is gone.
    assert!(after.contains(&"root/a".to_string()));
    assert!(!after.contains(&"root/a/x.txt".to_string()));
    assert_eq!(after, vec!["root", "root/a", "root/.hidden", "root/b.txt"]);
}

#[test]
fn dotfile_filter_removes_dotted_subtrees() {
    let mut state = StateManager::new("root".to_string(), true);
    let root = state.root();
    state.set_open(root, true, vec![entry(".git", true), entry("src", true)]);
    let git = state.lookup("root/.git").unwrap();
    state.toggle_open(git, vec![entry("config", false)]);
    let src = state.lookup("root/src").unwrap();
    state.toggle_open(src, vec![entry("main.c", false)]);

    let all = paths(&state_to_view(&state, &Filter::default(), &Sort::Directory));
    assert!(all.contains(&"root/.git/config".to_string()));

    let dotless = Filter {
        dotfiles: true,
        ..Filter::default()
    };
    let filtered = paths(&state_to_view(&state, &dotless, &Sort::Directory));
    // The dotted directory and its whole subtree are gone, even though it
    // is open; the undotted subtree stays.
    assert_eq!(filtered, vec!["root", "root/src", "root/src/main.c"]);
}

#[test]
fn file_filter_hides_files_only() {
    let state = scenario();
    let with = Filter {
        files: true,
        ..Filter::default()
    };
    let items = state_to_view(&state, &with, &Sort::Directory);
    assert_eq!(names(&items), vec!["root", "a"]);
}

#[test]
fn directory_filter_spares_open_directories() {
    let mut state = scenario();
    let a = state.lookup("root/a").unwrap();
    state.toggle_open(a, vec![entry("x.txt", false)]);
    let hide_dirs = Filter {
        directories: true,
        ..Filter::default()
    };
    // `a` is open, so it stays visible with its subtree; a closed
    // directory would be hidden.
    let items = state_to_view(&state, &hide_dirs, &Sort::Directory);
    assert_eq!(names(&items), vec!["root", "a", "x.txt", ".hidden", "b.txt"]);

    state.set_open(a, false, vec![]);
    let items = state_to_view(&state, &hide_dirs, &Sort::Directory);
    assert_eq!(names(&items), vec!["root", ".hidden", "b.txt"]);
}
