use project_panel::expanded::{binary_search, ExpandedDirIds};

#[test]
fn binary_search_finds_the_position() {
    let ids = vec![2, 5, 9, 14];
    assert_eq!(binary_search(&ids, 2), Ok(0));
    assert_eq!(binary_search(&ids, 5), Ok(1));
    assert_eq!(binary_search(&ids, 9), Ok(2));
    assert_eq!(binary_search(&ids, 14), Ok(3));
}

#[test]
fn binary_search_says_where_to_insert() {
    let ids = vec![2, 5, 9, 14];
    assert_eq!(binary_search(&ids, 0), Err(0));
    assert_eq!(binary_search(&ids, 3), Err(1));
    assert_eq!(binary_search(&ids, 6), Err(2));
    assert_eq!(binary_search(&ids, 10), Err(3));
    assert_eq!(binary_search(&ids, 15), Err(4));
    assert_eq!(binary_search(&ids, usize::MAX), Err(4));
    assert_eq!(binary_search(&Vec::new(), 7), Err(0));
}

#[test]
fn binary_search_agrees_with_the_standard_one() {
    let ids: Vec<usize> = (0..200).map(|n| n * 3 + 1).collect();
    for id in 0..620 {
        assert_eq!(binary_search(&ids, id), ids.binary_search(&id));
    }
}

#[test]
fn a_new_store_knows_no_worktree() {
    let store = ExpandedDirIds::new();
    assert!(!store.knows_worktree(1));
    assert!(!store.is_expanded(1, 5));
    assert!(store.ids(1).is_none());
}

#[test]
fn in_an_unknown_worktree_nothing_can_be_expanded() {
    let mut store = ExpandedDirIds::new();
    assert!(!store.toggle(1, 5));
    store.expand(1, 5);
    store.collapse(1, 5);
    assert!(!store.knows_worktree(1));
    assert!(!store.is_expanded(1, 5));
}

#[test]
fn toggle_says_what_the_state_is_now() {
    let mut store = ExpandedDirIds::new();
    store.set_worktree(1, vec![5]);
    assert!(store.is_expanded(1, 5));
    assert!(store.toggle(1, 7));
    assert!(store.is_expanded(1, 7));
    assert!(!store.toggle(1, 7));
    assert!(!store.is_expanded(1, 7));
    assert!(!store.toggle(1, 5));
    assert!(!store.is_expanded(1, 5));
    assert!(store.knows_worktree(1));
    assert_eq!(store.ids(1), Some(&Vec::new()));
}

#[test]
fn the_ids_stay_in_ascending_order() {
    let mut store = ExpandedDirIds::new();
    store.set_worktree(1, Vec::new());
    for id in [9, 2, 14, 5, 2, 9, 11] {
        store.expand(1, id);
    }
    assert_eq!(store.ids(1), Some(&vec![2, 5, 9, 11, 14]));
    store.toggle(1, 9);
    store.toggle(1, 3);
    assert_eq!(store.ids(1), Some(&vec![2, 3, 5, 11, 14]));
    store.collapse(1, 2);
    store.collapse(1, 14);
    store.collapse(1, 100);
    assert_eq!(store.ids(1), Some(&vec![3, 5, 11]));
}

#[test]
fn expanding_what_is_expanded_changes_nothing() {
    let mut store = ExpandedDirIds::new();
    store.set_worktree(1, vec![5]);
    store.expand(1, 5);
    assert_eq!(store.ids(1), Some(&vec![5]));
    store.collapse(1, 6);
    assert_eq!(store.ids(1), Some(&vec![5]));
}

#[test]
fn worktrees_are_kept_apart() {
    let mut store = ExpandedDirIds::new();
    store.set_worktree(1, vec![5]);
    store.set_worktree(2, vec![6]);
    store.toggle(1, 6);
    assert!(store.is_expanded(1, 6));
    assert!(store.is_expanded(2, 6));
    store.toggle(2, 6);
    assert!(store.is_expanded(1, 6));
    assert!(!store.is_expanded(2, 6));
    assert!(!store.is_expanded(2, 5));
    store.remove_worktree(1);
    assert!(!store.knows_worktree(1));
    assert!(!store.is_expanded(1, 5));
    assert!(store.knows_worktree(2));
}

#[test]
fn set_worktree_replaces_the_state() {
    let mut store = ExpandedDirIds::new();
    store.set_worktree(1, vec![5, 8]);
    store.set_worktree(1, vec![7]);
    assert_eq!(store.ids(1), Some(&vec![7]));
}
