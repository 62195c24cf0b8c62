use project_panel::visible::visible_entries;
use project_panel::worktree::{Entry, Snapshot};

fn path(text: &str) -> Vec<String> {
    text.split('/').filter(|name| !name.is_empty()).map(|name| name.to_string()).collect()
}

fn entry(id: usize, text: &str, is_dir: bool) -> Entry {
    Entry { id, path: path(text), is_dir }
}

fn tree() -> Snapshot {
    Snapshot::from_entries(
        "root".to_string(),
        vec![
            entry(10, "", true),
            entry(11, "a", true),
            entry(12, "a/b", true),
            entry(13, "a/b/c", false),
            entry(14, "a/d", false),
            entry(15, "e", true),
            entry(16, "f", false),
        ],
    )
    .unwrap()
}

#[test]
fn a_snapshot_without_entries_has_no_root() {
    let snapshot = Snapshot::new("empty".to_string());
    assert_eq!(snapshot.entry_count(), 0);
    assert!(snapshot.root_entry().is_none());
    assert_eq!(snapshot.root_name(), "empty");
    assert!(snapshot.entries().entry().is_none());
}

#[test]
fn no_entries_list_a_tree() {
    let snapshot = Snapshot::from_entries("empty".to_string(), Vec::new()).unwrap();
    assert_eq!(snapshot.entry_count(), 0);
}

#[test]
fn the_first_entry_must_be_the_root() {
    assert!(Snapshot::from_entries("root".to_string(), vec![entry(1, "a", true)]).is_none());
}

#[test]
fn a_second_root_is_refused() {
    let entries = vec![entry(1, "", true), entry(2, "", true)];
    assert!(Snapshot::from_entries("root".to_string(), entries).is_none());
}

#[test]
fn an_entry_without_its_parent_is_refused() {
    let entries = vec![entry(1, "", true), entry(2, "a/b", false)];
    assert!(Snapshot::from_entries("root".to_string(), entries).is_none());
}

#[test]
fn an_entry_under_another_parent_is_refused() {
    let entries = vec![
        entry(1, "", true),
        entry(2, "a", true),
        entry(3, "a/b", true),
        entry(4, "x/c", false),
    ];
    assert!(Snapshot::from_entries("root".to_string(), entries).is_none());
}

#[test]
fn an_entry_below_a_file_is_refused() {
    let entries = vec![entry(1, "", true), entry(2, "a", false), entry(3, "a/b", false)];
    assert!(Snapshot::from_entries("root".to_string(), entries).is_none());
}

#[test]
fn an_id_that_occurs_twice_is_refused() {
    let entries = vec![entry(1, "", true), entry(2, "a", false), entry(2, "b", false)];
    assert!(Snapshot::from_entries("root".to_string(), entries).is_none());
}

#[test]
fn a_path_that_occurs_twice_is_refused() {
    let entries = vec![
        entry(1, "", true),
        entry(2, "a", true),
        entry(3, "a/b", false),
        entry(4, "a", true),
    ];
    assert!(Snapshot::from_entries("root".to_string(), entries).is_none());
}

#[test]
fn siblings_need_not_be_sorted() {
    let entries = vec![entry(1, "", true), entry(2, "z", false), entry(3, "a", false)];
    assert!(Snapshot::from_entries("root".to_string(), entries).is_some());
}

#[test]
fn entries_are_found_by_id_and_by_path() {
    let snapshot = tree();
    assert_eq!(snapshot.entry_count(), 7);
    assert_eq!(snapshot.root_entry().unwrap().id, 10);
    assert_eq!(snapshot.entry_for_id(13).unwrap().path, path("a/b/c"));
    assert_eq!(snapshot.offset_for_id(13), Some(3));
    assert!(snapshot.entry_for_id(99).is_none());
    assert_eq!(snapshot.offset_for_id(99), None);
    assert_eq!(snapshot.entry_for_path(&path("a/d")).unwrap().id, 14);
    assert_eq!(snapshot.entry_for_path(&path("")).unwrap().id, 10);
    assert!(snapshot.entry_for_path(&path("a/x")).is_none());
    assert!(snapshot.entry_for_path(&path("a/b/c/d")).is_none());
}

#[test]
fn the_parent_is_the_entry_with_the_path_cut_by_one_name() {
    let snapshot = tree();
    let deep = snapshot.entry_for_id(13).unwrap();
    let parent = snapshot.parent_of(deep).unwrap();
    assert_eq!(parent.id, 12);
    let grandparent = snapshot.parent_of(parent).unwrap();
    assert_eq!(grandparent.id, 11);
    let root = snapshot.parent_of(grandparent).unwrap();
    assert_eq!(root.id, 10);
    assert!(snapshot.parent_of(root).is_none());
    let stranger = entry(77, "x/y", false);
    assert!(snapshot.parent_of(&stranger).is_none());
}

#[test]
fn the_cursor_walks_depth_first() {
    let snapshot = tree();
    let mut cursor = snapshot.entries();
    let mut seen = Vec::new();
    while let Some(entry) = cursor.entry() {
        seen.push((cursor.offset(), entry.id));
        cursor.advance();
    }
    assert_eq!(seen, vec![(0, 10), (1, 11), (2, 12), (3, 13), (4, 14), (5, 15), (6, 16)]);
    assert_eq!(cursor.offset(), 7);
    assert!(!cursor.advance());
    assert_eq!(cursor.offset(), 7);
}

#[test]
fn the_cursor_steps_over_a_subtree() {
    let snapshot = tree();
    let mut cursor = snapshot.entries();
    assert!(cursor.advance());
    assert_eq!(cursor.entry().unwrap().id, 11);
    assert!(cursor.advance_to_sibling());
    assert_eq!(cursor.offset(), 5);
    assert_eq!(cursor.entry().unwrap().id, 15);
    assert!(cursor.advance_to_sibling());
    assert_eq!(cursor.entry().unwrap().id, 16);
    assert!(!cursor.advance_to_sibling());
    assert!(cursor.entry().is_none());
    assert!(!cursor.advance_to_sibling());
    assert_eq!(cursor.offset(), 7);
}

#[test]
fn stepping_over_the_last_of_its_siblings_leaves_the_parent_too() {
    let snapshot = tree();
    let mut cursor = snapshot.entries();
    assert!(cursor.advance_to_offset(2));
    assert!(cursor.advance_to_sibling());
    assert_eq!(cursor.entry().unwrap().id, 14);
    assert!(cursor.advance_to_sibling());
    assert_eq!(cursor.entry().unwrap().id, 15);
}

#[test]
fn stepping_over_the_root_ends_the_walk() {
    let snapshot = tree();
    let mut cursor = snapshot.entries();
    assert!(!cursor.advance_to_sibling());
    assert_eq!(cursor.offset(), 7);
}

#[test]
fn the_cursor_seeks_an_offset() {
    let snapshot = tree();
    let mut cursor = snapshot.entries();
    assert!(cursor.advance_to_offset(4));
    assert_eq!(cursor.offset(), 4);
    assert_eq!(cursor.entry().unwrap().id, 14);
    assert!(cursor.advance_to_offset(1));
    assert_eq!(cursor.entry().unwrap().id, 11);
    assert!(!cursor.advance_to_offset(7));
    assert_eq!(cursor.offset(), 7);
    assert!(!cursor.advance_to_offset(1000));
    assert_eq!(cursor.offset(), 7);
    assert!(cursor.entry().is_none());
}

#[test]
fn only_the_root_is_shown_while_nothing_is_expanded() {
    assert_eq!(visible_entries(&tree(), &Vec::new()), vec![0]);
}

#[test]
fn what_lies_below_a_collapsed_directory_is_not_shown() {
    assert_eq!(visible_entries(&tree(), &vec![10]), vec![0, 1, 5, 6]);
    assert_eq!(visible_entries(&tree(), &vec![10, 11]), vec![0, 1, 2, 4, 5, 6]);
    assert_eq!(visible_entries(&tree(), &vec![10, 11, 12]), vec![0, 1, 2, 3, 4, 5, 6]);
}

#[test]
fn an_expanded_directory_below_a_collapsed_one_is_not_shown() {
    assert_eq!(visible_entries(&tree(), &vec![10, 12]), vec![0, 1, 5, 6]);
    assert_eq!(visible_entries(&tree(), &vec![11, 12]), vec![0]);
}

#[test]
fn a_directory_without_entries_takes_one_row_expanded_or_not() {
    assert_eq!(visible_entries(&tree(), &vec![10]), vec![0, 1, 5, 6]);
    assert_eq!(visible_entries(&tree(), &vec![10, 15]), vec![0, 1, 5, 6]);
}

#[test]
fn expanded_ids_of_files_and_of_strangers_change_nothing() {
    assert_eq!(visible_entries(&tree(), &vec![10, 14, 16, 99]), vec![0, 1, 5, 6]);
}

#[test]
fn a_snapshot_without_entries_shows_nothing() {
    let snapshot = Snapshot::new("empty".to_string());
    assert_eq!(visible_entries(&snapshot, &vec![1, 2]), Vec::<usize>::new());
}

#[test]
fn a_large_tree_is_taken_and_walked() {
    let mut entries = vec![entry(0, "", true)];
    let mut expanded = vec![0];
    for dir in 0..150 {
        expanded.push(entries.len());
        entries.push(entry(entries.len(), &format!("d{}", dir), true));
        for file in 0..150 {
            entries.push(entry(entries.len(), &format!("d{}/f{}", dir, file), false));
        }
    }
    let count = entries.len();
    assert_eq!(count, 1 + 150 * 151);
    let snapshot = Snapshot::from_entries("large".to_string(), entries).unwrap();
    assert_eq!(snapshot.entry_count(), count);
    assert_eq!(visible_entries(&snapshot, &vec![0]).len(), 151);
    assert_eq!(visible_entries(&snapshot, &expanded), (0..count).collect::<Vec<usize>>());
    let last = snapshot.entry_for_id(count - 1).unwrap();
    assert_eq!(last.path, path("d149/f149"));
    assert_eq!(snapshot.parent_of(last).unwrap().id, count - 151);
    let mut cursor = snapshot.entries();
    cursor.advance();
    let mut dirs = 0;
    while cursor.entry().is_some() {
        dirs += 1;
        cursor.advance_to_sibling();
    }
    assert_eq!(dirs, 150);
}

#[test]
fn a_name_that_occurs_twice_far_apart_in_one_directory_is_refused() {
    let mut entries = vec![entry(0, "", true), entry(1, "twin", false)];
    for dir in 0..20 {
        entries.push(entry(entries.len(), &format!("d{}", dir), true));
        entries.push(entry(entries.len(), &format!("d{}/twin", dir), false));
    }
    assert!(Snapshot::from_entries("root".to_string(), entries.iter().map(copy).collect()).is_some());
    entries.push(entry(entries.len(), "twin", true));
    assert!(Snapshot::from_entries("root".to_string(), entries).is_none());
}

fn copy(entry: &Entry) -> Entry {
    Entry { id: entry.id, path: entry.path.clone(), is_dir: entry.is_dir }
}
