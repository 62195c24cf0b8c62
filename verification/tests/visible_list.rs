use project_panel::panel::ProjectPanel;
use project_panel::project::{Project, Worktree};
use project_panel::state::EntryDetails;
use project_panel::worktree::{Entry, Snapshot};
use project_panel::ProjectEntry;
use std::collections::HashSet;
use std::ops::Range;

fn path(text: &str) -> Vec<String> {
    text.split('/').filter(|name| !name.is_empty()).map(|name| name.to_string()).collect()
}

fn snapshot(root_name: &str, first_id: usize, entries: &[(&str, bool)]) -> Snapshot {
    let entries = entries
        .iter()
        .enumerate()
        .map(|(offset, (text, is_dir))| Entry {
            id: first_id + offset,
            path: path(text),
            is_dir: *is_dir,
        })
        .collect();
    Snapshot::from_entries(root_name.to_string(), entries).unwrap()
}

fn root1() -> Snapshot {
    snapshot(
        "root1",
        100,
        &[
            ("", true),
            (".dockerignore", false),
            ("a", true),
            ("a/0", true),
            ("a/0/q", false),
            ("a/0/r", false),
            ("a/0/s", false),
            ("a/1", true),
            ("a/1/t", false),
            ("a/1/u", false),
            ("a/2", true),
            ("a/2/v", false),
            ("a/2/w", false),
            ("a/2/x", false),
            ("a/2/y", false),
            ("b", true),
            ("b/3", true),
            ("b/3/Q", false),
            ("b/4", true),
            ("b/4/R", false),
            ("b/4/S", false),
            ("b/4/T", false),
            ("b/4/U", false),
            ("c", true),
            ("c/5", true),
            ("c/6", true),
            ("c/6/V", false),
            ("c/6/W", false),
            ("c/7", true),
            ("c/7/X", false),
            ("c/8", true),
            ("c/8/Y", true),
            ("c/8/Z", false),
        ],
    )
}

fn root2() -> Snapshot {
    snapshot("root2", 500, &[("", true), ("d", true), ("d/9", false), ("e", true)])
}

fn two_roots() -> ProjectPanel {
    let mut project = Project::new();
    assert!(project.add_worktree(Worktree { id: 7, snapshot: root1() }));
    assert!(project.add_worktree(Worktree { id: 3, snapshot: root2() }));
    ProjectPanel::new(project)
}

fn details(
    filename: &str,
    depth: usize,
    is_dir: bool,
    is_expanded: bool,
    is_active: bool,
) -> EntryDetails {
    EntryDetails { filename: filename.to_string(), depth, is_dir, is_expanded, is_active }
}

fn toggle_expand_dir(panel: &mut ProjectPanel, text: &str) {
    let names = path(text);
    let mut target = None;
    for (worktree_ix, worktree) in panel.project().worktrees().iter().enumerate() {
        if names.first() == Some(worktree.snapshot.root_name()) {
            let entry_id = worktree.snapshot.entry_for_path(&names[1..].to_vec()).unwrap().id;
            target = Some(ProjectEntry { worktree_ix, entry_id });
            break;
        }
    }
    match target {
        Some(entry) => {
            panel.toggle_expanded(entry);
        }
        None => panic!("no worktree for path {:?}", text),
    }
}

fn visible_entry_details(panel: &ProjectPanel, range: Range<usize>) -> Vec<EntryDetails> {
    let mut result = Vec::new();
    let mut project_entries = HashSet::new();
    for (project_entry, details) in panel.visible_entries_in_range(range) {
        assert!(
            project_entries.insert(project_entry),
            "duplicate project entry {:?} {:?}",
            project_entry,
            details
        );
        result.push(details);
    }
    result
}

#[test]
fn test_visible_list() {
    let mut panel = two_roots();
    assert_eq!(
        visible_entry_details(&panel, 0..50),
        vec![
            details("root1", 0, true, true, false),
            details(".dockerignore", 1, false, false, false),
            details("a", 1, true, false, false),
            details("b", 1, true, false, false),
            details("c", 1, true, false, false),
            details("root2", 0, true, true, false),
            details("d", 1, true, false, false),
            details("e", 1, true, false, false),
        ]
    );

    toggle_expand_dir(&mut panel, "root1/b");
    assert_eq!(
        visible_entry_details(&panel, 0..50),
        vec![
            details("root1", 0, true, true, false),
            details(".dockerignore", 1, false, false, false),
            details("a", 1, true, false, false),
            details("b", 1, true, true, true),
            details("3", 2, true, false, false),
            details("4", 2, true, false, false),
            details("c", 1, true, false, false),
            details("root2", 0, true, true, false),
            details("d", 1, true, false, false),
            details("e", 1, true, false, false),
        ]
    );

    assert_eq!(
        visible_entry_details(&panel, 5..8),
        vec![
            details("4", 2, true, false, false),
            details("c", 1, true, false, false),
            details("root2", 0, true, true, false),
        ]
    );
}
