use project_panel::panel::ProjectPanel;
use project_panel::project::{Project, Worktree};
use project_panel::state::{ActiveEntry, EntryDetails};
use project_panel::worktree::{Entry, Snapshot};
use project_panel::ProjectEntry;

fn path(text: &str) -> Vec<String> {
    text.split('/').filter(|name| !name.is_empty()).map(|name| name.to_string()).collect()
}

fn snapshot(root_name: &str, first_id: usize, entries: &[(&str, bool)]) -> Snapshot {
    let entries = entries
        .iter()
        .enumerate()
        .map(|(offset, (text, is_dir))| Entry {
            id: first_id + offset,
            path: path(text),
            is_dir: *is_dir,
        })
        .collect();
    Snapshot::from_entries(root_name.to_string(), entries).unwrap()
}

const ROOT1: [(&str, bool); 13] = [
    ("", true),
    (".dockerignore", false),
    ("a", true),
    ("a/0", true),
    ("a/0/q", false),
    ("a/0/r", false),
    ("a/0/s", false),
    ("a/1", true),
    ("a/2", true),
    ("b", true),
    ("b/3", true),
    ("b/3/Q", false),
    ("c", true),
];

const ROOT2: [(&str, bool); 4] = [("", true), ("d", true), ("d/9", false), ("e", true)];

fn panel() -> ProjectPanel {
    let mut project = Project::new();
    assert!(project.add_worktree(Worktree { id: 7, snapshot: snapshot("root1", 100, &ROOT1) }));
    assert!(project.add_worktree(Worktree { id: 3, snapshot: snapshot("root2", 500, &ROOT2) }));
    ProjectPanel::new(project)
}

fn all_rows(panel: &ProjectPanel) -> Vec<(ProjectEntry, EntryDetails)> {
    panel.visible_entries_in_range(0..panel.visible_entry_count())
}

fn shown(panel: &ProjectPanel) -> Vec<ProjectEntry> {
    all_rows(panel).into_iter().map(|(entry, _)| entry).collect()
}

fn expand_everything(panel: &mut ProjectPanel) {
    loop {
        let collapsed = all_rows(panel)
            .into_iter()
            .find(|(_, details)| details.is_dir && !details.is_expanded)
            .map(|(entry, _)| entry);
        match collapsed {
            Some(entry) => {
                panel.toggle_expanded(entry);
            }
            None => break,
        }
    }
}

#[test]
fn with_every_directory_expanded_every_entry_has_its_row() {
    let mut panel = panel();
    expand_everything(&mut panel);
    let mut expected = Vec::new();
    for offset in 0..ROOT1.len() {
        expected.push(ProjectEntry { worktree_ix: 0, entry_id: 100 + offset });
    }
    for offset in 0..ROOT2.len() {
        expected.push(ProjectEntry { worktree_ix: 1, entry_id: 500 + offset });
    }
    assert_eq!(shown(&panel), expected);
    let rows = all_rows(&panel);
    for (offset, (text, is_dir)) in ROOT1.iter().enumerate() {
        let names = path(text);
        let details = &rows[offset].1;
        assert_eq!(details.depth, names.len());
        assert_eq!(details.is_dir, *is_dir);
        assert_eq!(details.is_expanded, *is_dir);
        match names.last() {
            Some(name) => assert_eq!(&details.filename, name),
            None => assert_eq!(details.filename, "root1"),
        }
    }
}

#[test]
fn collapsing_a_directory_hides_what_lies_below_it_and_keeps_it() {
    let mut panel = panel();
    expand_everything(&mut panel);
    let before = shown(&panel);
    panel.toggle_expanded(ProjectEntry { worktree_ix: 0, entry_id: 102 });
    let below: Vec<usize> = (103..=108).collect();
    let expected: Vec<ProjectEntry> = before
        .iter()
        .copied()
        .filter(|entry| !(entry.worktree_ix == 0 && below.contains(&entry.entry_id)))
        .collect();
    assert_eq!(shown(&panel), expected);
    assert!(shown(&panel).contains(&ProjectEntry { worktree_ix: 0, entry_id: 102 }));
    assert_eq!(before.len() - shown(&panel).len(), 6);
}

#[test]
fn what_was_expanded_below_a_collapsed_directory_comes_back_with_it() {
    let mut panel = panel();
    expand_everything(&mut panel);
    let before = shown(&panel);
    panel.toggle_expanded(ProjectEntry { worktree_ix: 0, entry_id: 102 });
    panel.toggle_expanded(ProjectEntry { worktree_ix: 0, entry_id: 102 });
    assert_eq!(shown(&panel), before);
}

#[test]
fn toggling_twice_brings_the_rows_back() {
    for entry_id in [100, 102, 103, 109, 110, 112, 101, 9999] {
        let mut panel = panel();
        panel.toggle_expanded(ProjectEntry { worktree_ix: 0, entry_id: 109 });
        let before = all_rows(&panel);
        let entry = ProjectEntry { worktree_ix: 0, entry_id };
        panel.toggle_expanded(entry);
        panel.toggle_expanded(entry);
        let after = all_rows(&panel);
        assert_eq!(after.len(), before.len());
        for (now, then) in after.iter().zip(before.iter()) {
            assert_eq!(now.0, then.0);
            assert_eq!(now.1.filename, then.1.filename);
            assert_eq!(now.1.depth, then.1.depth);
            assert_eq!(now.1.is_dir, then.1.is_dir);
            assert_eq!(now.1.is_expanded, then.1.is_expanded);
        }
        assert_eq!(
            panel.expanded_dir_ids().ids(7).unwrap(),
            &vec![100, 109],
            "after toggling {} twice",
            entry_id
        );
    }
}

#[test]
fn the_rows_of_a_range_are_the_rows_of_its_parts() {
    let mut panel = panel();
    expand_everything(&mut panel);
    panel.select_first();
    let whole = panel.visible_entries_in_range(2..15);
    for first_cut in 2..=15 {
        for second_cut in first_cut..=15 {
            let mut parts = panel.visible_entries_in_range(2..first_cut);
            parts.extend(panel.visible_entries_in_range(first_cut..second_cut));
            parts.extend(panel.visible_entries_in_range(second_cut..15));
            assert_eq!(parts, whole);
        }
    }
    let mut parts = panel.visible_entries_in_range(0..13);
    parts.extend(panel.visible_entries_in_range(13..16));
    parts.extend(panel.visible_entries_in_range(16..40));
    assert_eq!(parts, panel.visible_entries_in_range(0..40));
    assert_eq!(parts.len(), 17);
}

#[test]
fn the_rows_of_the_first_worktree_come_first_whatever_is_toggled() {
    let mut panel = panel();
    let toggles = [
        ProjectEntry { worktree_ix: 1, entry_id: 501 },
        ProjectEntry { worktree_ix: 0, entry_id: 102 },
        ProjectEntry { worktree_ix: 1, entry_id: 500 },
        ProjectEntry { worktree_ix: 0, entry_id: 103 },
        ProjectEntry { worktree_ix: 0, entry_id: 100 },
        ProjectEntry { worktree_ix: 1, entry_id: 500 },
        ProjectEntry { worktree_ix: 0, entry_id: 100 },
    ];
    for toggle in toggles {
        panel.toggle_expanded(toggle);
        let rows = shown(&panel);
        let first_of_second = rows.iter().position(|entry| entry.worktree_ix == 1).unwrap();
        assert!(first_of_second > 0);
        assert!(rows[..first_of_second].iter().all(|entry| entry.worktree_ix == 0));
        assert!(rows[first_of_second..].iter().all(|entry| entry.worktree_ix == 1));
        assert_eq!(rows[0].entry_id, 100);
        assert_eq!(rows[first_of_second].entry_id, 500);
        assert_eq!(panel.locate(first_of_second), Some((1, 0)));
        assert_eq!(panel.locate(first_of_second - 1), Some((0, first_of_second - 1)));
    }
}

#[test]
fn worktrees_are_shown_in_the_order_in_which_they_were_added() {
    let mut project = Project::new();
    project.add_worktree(Worktree { id: 3, snapshot: snapshot("root2", 500, &ROOT2) });
    project.add_worktree(Worktree { id: 7, snapshot: snapshot("root1", 100, &ROOT1) });
    let panel = ProjectPanel::new(project);
    let names: Vec<String> =
        all_rows(&panel).into_iter().map(|(_, details)| details.filename).collect();
    assert_eq!(names, ["root2", "d", "e", "root1", ".dockerignore", "a", "b", "c"]);
}

#[test]
fn toggling_an_entry_that_is_not_shown_leaves_the_active_entry() {
    let mut panel = panel();
    panel.update_visible_entries(Some((7, 112)));
    let active = Some(ActiveEntry { worktree_id: 7, entry_id: 112, index: 4 });
    assert_eq!(panel.active_entry(), active);
    for hidden in [103, 107, 110, 111, 4242] {
        panel.toggle_expanded(ProjectEntry { worktree_ix: 0, entry_id: hidden });
        assert_eq!(panel.active_entry(), active);
    }
    panel.toggle_expanded(ProjectEntry { worktree_ix: 1, entry_id: 502 });
    assert_eq!(panel.active_entry(), active);
    panel.toggle_expanded(ProjectEntry { worktree_ix: 5, entry_id: 100 });
    assert_eq!(panel.active_entry(), active);
}

#[test]
fn toggling_the_active_entry_leaves_it_active() {
    let mut panel = panel();
    panel.update_visible_entries(Some((7, 102)));
    panel.toggle_expanded(ProjectEntry { worktree_ix: 0, entry_id: 102 });
    assert_eq!(panel.active_entry(), Some(ActiveEntry { worktree_id: 7, entry_id: 102, index: 2 }));
    panel.toggle_expanded(ProjectEntry { worktree_ix: 0, entry_id: 102 });
    assert_eq!(panel.active_entry(), Some(ActiveEntry { worktree_id: 7, entry_id: 102, index: 2 }));
}

#[test]
fn toggling_an_entry_that_is_shown_makes_it_the_active_entry() {
    let mut panel = panel();
    panel.update_visible_entries(Some((7, 112)));
    panel.toggle_expanded(ProjectEntry { worktree_ix: 0, entry_id: 102 });
    assert_eq!(panel.active_entry(), Some(ActiveEntry { worktree_id: 7, entry_id: 102, index: 2 }));
}

#[test]
fn collapsing_a_directory_above_the_active_entry_leaves_none_active_unless_the_directory_is_shown()
{
    let mut panel = panel();
    panel.active_entry_changed(7, 104);
    panel.toggle_expanded(ProjectEntry { worktree_ix: 0, entry_id: 102 });
    assert_eq!(panel.active_entry(), Some(ActiveEntry { worktree_id: 7, entry_id: 102, index: 2 }));

    let mut panel = self::panel();
    panel.active_entry_changed(7, 104);
    panel.toggle_expanded(ProjectEntry { worktree_ix: 0, entry_id: 100 });
    assert_eq!(panel.active_entry(), Some(ActiveEntry { worktree_id: 7, entry_id: 100, index: 0 }));
    panel.update_visible_entries(Some((7, 104)));
    assert_eq!(panel.active_entry(), Some(ActiveEntry { worktree_id: 7, entry_id: 100, index: 0 }));
}

#[test]
fn no_entry_has_two_rows() {
    let mut panel = panel();
    expand_everything(&mut panel);
    let rows = shown(&panel);
    for (index, entry) in rows.iter().enumerate() {
        assert!(!rows[..index].contains(entry));
    }
}

#[test]
fn the_active_entry_is_at_the_row_it_names() {
    let mut panel = panel();
    let steps: [fn(&mut ProjectPanel); 8] = [
        |panel| {
            panel.select_next();
        },
        |panel| {
            panel.select_next();
        },
        |panel| {
            panel.expand_active_entry();
        },
        |panel| {
            panel.active_entry_changed(7, 111);
        },
        |panel| {
            panel.toggle_expanded(ProjectEntry { worktree_ix: 0, entry_id: 102 });
        },
        |panel| {
            panel.select_prev();
        },
        |panel| {
            panel.collapse_active_entry();
        },
        |panel| {
            panel.worktree_removed(3);
        },
    ];
    for step in steps {
        step(&mut panel);
        let active = panel.active_entry().unwrap();
        let (worktree_id, entry) = panel.visible_entry_for_index(active.index).unwrap();
        assert_eq!((worktree_id, entry.id), (active.worktree_id, active.entry_id));
        let marked: Vec<usize> = all_rows(&panel)
            .iter()
            .enumerate()
            .filter(|(_, row)| row.1.is_active)
            .map(|(index, _)| index)
            .collect();
        assert_eq!(marked, [active.index]);
    }
}
