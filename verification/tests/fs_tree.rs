use lsn::fs::{ChildEntry, FsNodeKind, StateManager};

fn entry(name: &str, is_dir: bool) -> ChildEntry {
    ChildEntry {
        name: name.to_string(),
        is_dir,
    }
}

fn is_open(state: &StateManager, path: &str) -> Option<bool> {
    let h = state.lookup(path)?;
    match &state.get_entry(&h)?.kind {
        FsNodeKind::Directory { is_open, .. } => Some(*is_open),
        FsNodeKind::File => None,
    }
}

#[test]
fn lookup_after_creation_yields_exact_path() {
    let mut state = StateManager::new("root".to_string(), true);
    let root = state.root();
    state.load_children(root, vec![entry("a", true), entry("b.txt", false)]);

    let h = state.lookup("root/a").expect("child registered");
    let node = state.get_entry(&h).expect("handle resolves");
    assert_eq!(node.path.as_str(), "root/a");
    assert!(matches!(node.kind, FsNodeKind::Directory { .. }));

    let hf = state.lookup("root/b.txt").expect("child registered");
    let nf = state.get_entry(&hf).expect("handle resolves");
    assert_eq!(nf.path.as_str(), "root/b.txt");
    assert!(matches!(nf.kind, FsNodeKind::File));

    assert!(state.lookup("root/missing").is_none());
}

#[test]
fn load_children_is_idempotent() {
    let mut state = StateManager::new("root".to_string(), true);
    let root = state.root();
    state.load_children(root, vec![entry("a", true), entry("b.txt", false)]);
    let len_after_first = state.len();

    // A second load, even with a different listing, is a no-op.
    state.load_children(root, vec![entry("c", true), entry("d.txt", false)]);
    assert_eq!(state.len(), len_after_first);
    assert!(state.lookup("root/c").is_none());
    assert!(state.lookup("root/a").is_some());
}

#[test]
fn toggle_open_twice_restores_state() {
    let mut state = StateManager::new("root".to_string(), true);
    let root = state.root();
    assert_eq!(is_open(&state, "root"), Some(false));

    state.toggle_open(root, vec![entry("a", true)]);
    assert_eq!(is_open(&state, "root"), Some(true));

    state.toggle_open(root, vec![]);
    assert_eq!(is_open(&state, "root"), Some(false));

    // The first toggle loaded the children; they stay.
    assert!(state.lookup("root/a").is_some());
}

#[test]
fn toggle_open_ignores_files_and_stale_handles() {
    let mut state = StateManager::new("root".to_string(), true);
    let root = state.root();
    state.load_children(root, vec![entry("b.txt", false)]);
    let file = state.lookup("root/b.txt").unwrap();

    state.toggle_open(file, vec![]);
    let node = state.get_entry(&file).unwrap();
    assert!(matches!(node.kind, FsNodeKind::File));

    let forged = lsn::arena::Handle {
        index: 0,
        generation: 7,
    };
    state.toggle_open(forged, vec![entry("zzz", false)]);
    assert!(state.lookup("root/zzz").is_none());
}

#[test]
fn failed_listing_leaves_empty_loaded_directory() {
    let mut state = StateManager::new("root".to_string(), true);
    let root = state.root();
    // A listing failure is handed in as an empty listing: the directory
    // opens empty and counts as loaded.
    state.toggle_open(root, vec![]);
    assert_eq!(is_open(&state, "root"), Some(true));
    match &state.get_entry(&root).unwrap().kind {
        FsNodeKind::Directory {
            children,
            children_loaded,
            ..
        } => {
            assert!(children.is_empty());
            assert!(*children_loaded);
        }
        FsNodeKind::File => panic!("root is a directory"),
    }
    // Still loaded: a later toggle does not list again.
    state.toggle_open(root, vec![]);
    state.toggle_open(root, vec![entry("late", false)]);
    assert!(state.lookup("root/late").is_none());
}

#[test]
fn unusable_names_and_duplicates_are_ignored() {
    let mut state = StateManager::new("root".to_string(), true);
    let root = state.root();
    state.load_children(
        root,
        vec![
            entry("a", true),
            entry("", false),
            entry("x/y", false),
            entry("a", false),
        ],
    );
    // The empty and separator-carrying names are ignored; the duplicate
    // "a" collides with the first and is dropped.
    assert_eq!(state.len(), 2);
    let h = state.lookup("root/a").unwrap();
    assert!(matches!(
        state.get_entry(&h).unwrap().kind,
        FsNodeKind::Directory { .. }
    ));
}

#[test]
fn set_open_couples_loading_with_opening() {
    let mut state = StateManager::new("root".to_string(), true);
    let root = state.root();
    state.set_open(root, true, vec![entry("a", true)]);
    assert_eq!(is_open(&state, "root"), Some(true));
    assert!(state.lookup("root/a").is_some());

    state.set_open(root, false, vec![]);
    assert_eq!(is_open(&state, "root"), Some(false));
    // Closing keeps the loaded children.
    assert!(state.lookup("root/a").is_some());
}
