//! The panel: the rows it shows, kept up to date while worktrees change and
//! directories are expanded and collapsed, and the active entry among them.

use crate::expanded::{binary_search, strictly_ascending, ExpandedDirIds};
use crate::project::{are_worktrees, worktree_index, Project, Worktree};
use crate::state::{
    ancestor_ids, announced, nearest_expanded, roots_expanded, ActiveEntry, EntryDetails,
    EntryDetailsView, PanelState,
};
use crate::tree::{
    descends, is_tree, lemma_depth, lemma_descends_trans, lemma_parent, offset_of_id,
    parent_offset,
};
use crate::visible::{lemma_visible_offsets, visible_entries};
use crate::worktree::Entry;
use crate::{Event, ProjectEntry};
use std::ops::Range;
use vstd::prelude::*;

verus! {

/// What the panel announces when its active entry goes from `before` to
/// `after`.
fn announce(before: Option<ActiveEntry>, after: Option<ActiveEntry>) -> (event: Option<Event>)
    ensures
        event == announced(before, after),
{
    match after {
        Some(now) => {
            match before {
                Some(then) => {
                    if then.index == now.index {
                        None
                    } else {
                        Some(Event::ActiveIndexChanged(now.index))
                    }
                },
                None => Some(Event::ActiveIndexChanged(now.index)),
            }
        },
        None => None,
    }
}

/// Looking at one worktree more expands its root if the worktree is new and
/// has entries, and changes nothing else.
proof fn lemma_roots_expanded_step(
    worktrees: Seq<Worktree>,
    expanded: Map<usize, Set<usize>>,
    ix: int,
)
    requires
        are_worktrees(worktrees),
        0 <= ix < worktrees.len(),
    ensures
        roots_expanded(worktrees.take(ix + 1), expanded) == ({
            let so_far = roots_expanded(worktrees.take(ix), expanded);
            if so_far.contains_key(worktrees[ix].id) || worktrees[ix].snapshot@.len() == 0 {
                so_far
            } else {
                so_far.insert(worktrees[ix].id, set![worktrees[ix].snapshot@[0].id])
            }
        }),
{
    let fewer = worktrees.take(ix);
    let more = worktrees.take(ix + 1);
    let so_far = roots_expanded(fewer, expanded);
    let stepped = if so_far.contains_key(worktrees[ix].id) || worktrees[ix].snapshot@.len() == 0 {
        so_far
    } else {
        so_far.insert(worktrees[ix].id, set![worktrees[ix].snapshot@[0].id])
    };
    assert(more[ix] == worktrees[ix]);
    assert forall|id: usize|
        worktree_index(more, id) == (if id == worktrees[ix].id {
            Some(ix)
        } else {
            worktree_index(fewer, id)
        }) by {
        if worktree_index(more, id) is Some {
            let at = worktree_index(more, id).unwrap();
            assert(more[at].id == id);
            if id == worktrees[ix].id {
                assert(worktrees[at].id == worktrees[ix].id);
            } else {
                assert(fewer[at].id == id);
                let other = worktree_index(fewer, id).unwrap();
                assert(fewer[other].id == id);
                assert(worktrees[other].id == worktrees[at].id);
            }
        } else {
            if id == worktrees[ix].id {
                assert(more[ix].id == id);
            }
            if worktree_index(fewer, id) is Some {
                let other = worktree_index(fewer, id).unwrap();
                assert(more[other].id == id);
            }
        }
    }
    assert forall|id: usize| worktree_index(fewer, id) is Some implies id != worktrees[ix].id by {
        let other = worktree_index(fewer, id).unwrap();
        assert(worktrees[other].id == fewer[other].id);
    }
    assert(roots_expanded(more, expanded) =~= stepped);
}

/// The panel.
pub struct ProjectPanel {
    project: Project,
    /// For each worktree, the offsets of its shown entries.
    visible_entries: Vec<Vec<usize>>,
    expanded_dir_ids: ExpandedDirIds,
    active_entry: Option<ActiveEntry>,
}

impl View for ProjectPanel {
    type V = PanelState;

    closed spec fn view(&self) -> PanelState {
        PanelState {
            worktrees: self.project@,
            expanded: self.expanded_dir_ids@,
            active: self.active_entry,
        }
    }
}

impl ProjectPanel {
    /// The project and the expansion states are valid.
    closed spec fn parts_wf(&self) -> bool {
        &&& self.project.wf()
        &&& self.expanded_dir_ids.wf()
    }

    /// The rows that the panel keeps are the rows that there are.
    closed spec fn rows_wf(&self) -> bool {
        &&& self.parts_wf()
        &&& self.visible_entries.len() == self.project@.len()
        &&& forall|ix: int|
            0 <= ix < self.visible_entries.len() ==> (#[trigger] self.visible_entries@[ix])@
                == self@.listing().visible(ix)
    }

    /// The panel is up to date.
    pub closed spec fn wf(&self) -> bool {
        &&& self.rows_wf()
        &&& self@.inv()
    }

    /// In a panel that is up to date all holds that always holds.
    pub proof fn lemma_inv(&self)
        requires
            self.wf(),
        ensures
            self@.inv(),
    {
    }

    /// Expands the root of every worktree that has entries and no expansion
    /// state yet.
    fn expand_roots(&mut self)
        requires
            old(self).parts_wf(),
        ensures
            final(self).parts_wf(),
            final(self)@ == (PanelState {
                expanded: roots_expanded(old(self)@.worktrees, old(self)@.expanded),
                ..old(self)@
            }),
    {
        proof {
            self.project.lemma_are_worktrees();
            assert(roots_expanded(self.project@.take(0), self.expanded_dir_ids@)
                =~= self.expanded_dir_ids@);
        }
        let mut ix: usize = 0;
        while ix < self.project.worktrees().len()
            invariant
                self.parts_wf(),
                are_worktrees(self.project@),
                self.project == old(self).project,
                self.active_entry == old(self).active_entry,
                ix <= self.project@.len(),
                self.expanded_dir_ids@ == roots_expanded(
                    self.project@.take(ix as int),
                    old(self).expanded_dir_ids@,
                ),
            decreases self.project@.len() - ix,
        {
            proof {
                lemma_roots_expanded_step(self.project@, old(self).expanded_dir_ids@, ix as int);
            }
            let worktree = &self.project.worktrees()[ix];
            if !self.expanded_dir_ids.knows_worktree(worktree.id) {
                match worktree.snapshot.root_entry() {
                    Some(root) => {
                        let mut ids: Vec<usize> = Vec::new();
                        ids.push(root.id);
                        assert(ids@[0] == root.id);
                        assert(ids@.to_set() =~= set![root.id]);
                        self.expanded_dir_ids.set_worktree(worktree.id, ids);
                    },
                    None => {},
                }
            }
            ix += 1;
        }
        proof {
            assert(self.project@.take(self.project@.len() as int) =~= self.project@);
        }
    }

    /// Finds the rows of every worktree anew.
    fn project_rows(&mut self)
        requires
            old(self).parts_wf(),
        ensures
            final(self).rows_wf(),
            final(self)@ == old(self)@,
    {
        let mut rows: Vec<Vec<usize>> = Vec::new();
        let none: Vec<usize> = Vec::new();
        proof {
            self.project.lemma_are_worktrees();
            assert(none@.to_set() =~= Set::<usize>::empty());
        }
        let mut ix: usize = 0;
        while ix < self.project.worktrees().len()
            invariant
                self.parts_wf(),
                are_worktrees(self.project@),
                self@ == old(self)@,
                ix <= self.project@.len(),
                rows.len() == ix,
                none@.len() == 0,
                none@.to_set() == Set::<usize>::empty(),
                forall|k: int| 0 <= k < ix ==> (#[trigger] rows@[k])@ == self@.listing().visible(k),
            decreases self.project@.len() - ix,
        {
            let worktree = &self.project.worktrees()[ix];
            let offsets = match self.expanded_dir_ids.ids(worktree.id) {
                Some(ids) => visible_entries(&worktree.snapshot, ids),
                None => visible_entries(&worktree.snapshot, &none),
            };
            rows.push(offsets);
            ix += 1;
        }
        self.visible_entries = rows;
    }

    /// How many rows the worktrees before position `ix` take.
    fn rows_before(&self, ix: usize) -> (count: usize)
        requires
            self.rows_wf(),
            ix <= self@.worktrees.len(),
        ensures
            count == self@.listing().count_before(ix as int),
    {
        let mut count: usize = 0;
        let mut k: usize = 0;
        proof {
            self.project.lemma_are_worktrees();
        }
        while k < ix
            invariant
                self.rows_wf(),
                are_worktrees(self@.worktrees),
                k <= ix <= self@.worktrees.len(),
                count == self@.listing().count_before(k as int),
            decreases ix - k,
        {
            proof {
                self@.listing().lemma_count_before(k as int);
                self@.listing().lemma_count_before(k + 1);
            }
            count = count + self.visible_entries[k].len();
            k += 1;
        }
        count
    }

    /// The row that shows the entry `entry_id` of worktree `worktree_id`.
    fn position_for(&self, worktree_id: usize, entry_id: usize) -> (found: Option<usize>)
        requires
            self.rows_wf(),
        ensures
            match found {
                Some(index) => self@.listing().position_of(worktree_id, entry_id) == Some(
                    index as int,
                ),
                None => self@.listing().position_of(worktree_id, entry_id) is None,
            },
    {
        let ghost listing = self@.listing();
        proof {
            self.project.lemma_are_worktrees();
        }
        let ix = match self.project.index_for_id(worktree_id) {
            Some(ix) => ix,
            None => {
                proof {
                    assert forall|index: int| !listing.shows_at(index, worktree_id, entry_id) by {
                        if listing.shows_at(index, worktree_id, entry_id) {
                            listing.lemma_located(index);
                            let (at, local) = listing.locate(index).unwrap();
                            assert(listing.worktrees[at].id == worktree_id);
                        }
                    }
                }
                return None;
            },
        };
        let worktree = &self.project.worktrees()[ix];
        let rows = &self.visible_entries[ix];
        let ghost entries = worktree.snapshot@;
        proof {
            listing.lemma_count_before(ix as int);
            listing.lemma_count_before(ix + 1);
            lemma_visible_offsets(entries, listing.expanded_in(worktree.id));
            worktree.snapshot.lemma_is_tree();
        }
        let local = match worktree.snapshot.offset_for_id(entry_id) {
            Some(offset) => binary_search(rows, offset),
            None => Err(0),
        };
        match local {
            Ok(local) => {
                let before = self.rows_before(ix);
                proof {
                    assert(listing.is_at(before + local, ix as int, local as int));
                    listing.lemma_locate(before + local, ix as int, local as int);
                    listing.lemma_position(before + local, worktree_id, entry_id);
                }
                Some(before + local)
            },
            Err(_) => {
                proof {
                    assert forall|index: int| !listing.shows_at(index, worktree_id, entry_id) by {
                        if listing.shows_at(index, worktree_id, entry_id) {
                            listing.lemma_located(index);
                            let (at, row) = listing.locate(index).unwrap();
                            assert(listing.worktrees[at].id == listing.worktrees[ix as int].id);
                            assert(at == ix);
                            assert(entries[rows[row] as int].id == entry_id);
                            let offset = offset_of_id(entries, entry_id).unwrap();
                            assert(entries[offset].id == entries[rows[row] as int].id);
                            assert(offset == rows[row]);
                            assert(rows@.contains(rows[row]));
                        }
                    }
                }
                None
            },
        }
    }

    /// The active entry at the row where the entry `entry_id` of worktree
    /// `worktree_id` is shown.
    fn active_for(&self, worktree_id: usize, entry_id: usize) -> (found: Option<ActiveEntry>)
        requires
            self.rows_wf(),
        ensures
            found == self@.listing().active_at(worktree_id, entry_id),
    {
        match self.position_for(worktree_id, entry_id) {
            Some(index) => Some(ActiveEntry { worktree_id, entry_id, index }),
            None => None,
        }
    }

    /// Brings the rows up to date and finds the active entry again: at the
    /// anchor if it is shown, else where it was, else nowhere.
    fn rebuild(&mut self, anchor: Option<(usize, usize)>) -> (event: Option<Event>)
        requires
            old(self).parts_wf(),
        ensures
            final(self).wf(),
            final(self)@ == old(self)@.rebuilt(anchor),
            event == announced(old(self)@.active, final(self)@.active),
    {
        let before = self.active_entry;
        self.expand_roots();
        self.project_rows();
        let anchored = match anchor {
            Some((worktree_id, entry_id)) => self.active_for(worktree_id, entry_id),
            None => None,
        };
        let resolved = if anchored.is_some() {
            anchored
        } else {
            match before {
                Some(active) => self.active_for(active.worktree_id, active.entry_id),
                None => None,
            }
        };
        self.active_entry = resolved;
        proof {
            old(self).project.lemma_are_worktrees();
            old(self)@.lemma_rebuilt_inv(anchor);
        }
        announce(before, resolved)
    }

    /// A panel on the worktrees of `project`. The root of each worktree is
    /// expanded, and no entry is active.
    pub fn new(project: Project) -> (panel: ProjectPanel)
        requires
            project.wf(),
        ensures
            panel.wf(),
            panel@ == PanelState::initial(project@),
    {
        let mut panel = ProjectPanel {
            project,
            visible_entries: Vec::new(),
            expanded_dir_ids: ExpandedDirIds::new(),
            active_entry: None,
        };
        panel.rebuild(None);
        panel
    }

    /// The worktrees that the panel shows.
    pub fn project(&self) -> (project: &Project)
        requires
            self.wf(),
        ensures
            project.wf(),
            project@ == self@.worktrees,
    {
        &self.project
    }

    /// The expanded directories.
    pub fn expanded_dir_ids(&self) -> (expanded: &ExpandedDirIds)
        requires
            self.wf(),
        ensures
            expanded.wf(),
            expanded@ == self@.expanded,
    {
        &self.expanded_dir_ids
    }

    /// The active entry.
    pub fn active_entry(&self) -> (active: Option<ActiveEntry>)
        ensures
            active == self@.active,
    {
        self.active_entry
    }

    /// How many rows there are.
    pub fn visible_entry_count(&self) -> (count: usize)
        requires
            self.wf(),
        ensures
            count == self@.listing().total(),
    {
        self.rows_before(self.visible_entries.len())
    }

    /// Finds the rows anew, as after any change, and the active entry with
    /// them: at `new_active_entry`, a worktree id and an entry id, if that
    /// entry is shown; else where it was; else nowhere.
    pub fn update_visible_entries(&mut self, new_active_entry: Option<(usize, usize)>) -> (event:
        Option<Event>)
        requires
            old(self).wf(),
        ensures
            final(self).wf(),
            final(self)@ == old(self)@.rebuilt(new_active_entry),
            event == announced(old(self)@.active, final(self)@.active),
    {
        self.rebuild(new_active_entry)
    }

    /// Takes note that the project now holds these worktrees.
    pub fn project_changed(&mut self, project: Project) -> (event: Option<Event>)
        requires
            old(self).wf(),
            project.wf(),
        ensures
            final(self).wf(),
            final(self)@ == old(self)@.project_changed(project@),
            event == announced(old(self)@.active, final(self)@.active),
    {
        self.project = project;
        self.rebuild(None)
    }

    /// Takes note that the worktree with this id has left the project: its
    /// expansion state is forgotten, and no entry is active if one of its
    /// entries was.
    pub fn worktree_removed(&mut self, worktree_id: usize) -> (event: Option<Event>)
        requires
            old(self).wf(),
        ensures
            final(self).wf(),
            final(self)@ == old(self)@.worktree_removed(worktree_id),
            event == announced(old(self)@.active, final(self)@.active),
    {
        let before = self.active_entry;
        self.project.remove_worktree(worktree_id);
        self.expanded_dir_ids.remove_worktree(worktree_id);
        match self.active_entry {
            Some(active) => {
                if active.worktree_id == worktree_id {
                    self.active_entry = None;
                }
            },
            None => {},
        }
        self.rebuild(None);
        announce(before, self.active_entry)
    }

    /// The position of the worktree to which row `index` belongs, and which
    /// of the rows of that worktree it is; `None` where there is no such row.
    pub fn locate(&self, index: usize) -> (place: Option<(usize, usize)>)
        requires
            self.wf(),
        ensures
            match place {
                Some((ix, local)) => self@.listing().locate(index as int) == Some(
                    (ix as int, local as int),
                ),
                None => self@.listing().locate(index as int) is None,
            },
            place is Some <==> index < self@.listing().total(),
    {
        let ghost listing = self@.listing();
        proof {
            self.project.lemma_are_worktrees();
        }
        let mut before: usize = 0;
        let mut ix: usize = 0;
        while ix < self.visible_entries.len()
            invariant
                self.rows_wf(),
                listing == self@.listing(),
                are_worktrees(listing.worktrees),
                ix <= listing.worktrees.len(),
                before == listing.count_before(ix as int),
                before <= index,
            decreases listing.worktrees.len() - ix,
        {
            proof {
                listing.lemma_count_before(ix as int);
                listing.lemma_count_before(ix + 1);
            }
            let rows = &self.visible_entries[ix];
            if index - before < rows.len() {
                proof {
                    assert(listing.is_at(index as int, ix as int, index - before));
                    listing.lemma_locate(index as int, ix as int, index - before);
                }
                return Some((ix, index - before));
            }
            before = before + rows.len();
            ix += 1;
        }
        proof {
            listing.lemma_locate_none(index as int);
        }
        None
    }

    /// The id of the worktree and the entry that row `target_ix` shows.
    pub fn visible_entry_for_index(&self, target_ix: usize) -> (found: Option<(usize, &Entry)>)
        requires
            self.wf(),
        ensures
            found is Some <==> target_ix < self@.listing().total(),
            found is Some <==> self@.listing().entry_at(target_ix as int) is Some,
            found is Some ==> {
                &&& found.unwrap().0 == self@.listing().entry_at(target_ix as int).unwrap().0
                &&& *found.unwrap().1 == self@.listing().entry_at(target_ix as int).unwrap().1
            },
    {
        match self.locate(target_ix) {
            Some((ix, local)) => {
                let ghost listing = self@.listing();
                proof {
                    self.project.lemma_are_worktrees();
                    listing.lemma_located(target_ix as int);
                    listing.lemma_count_before(ix as int);
                }
                let worktree = &self.project.worktrees()[ix];
                let mut cursor = worktree.snapshot.entries();
                proof {
                    lemma_visible_offsets(worktree.snapshot@, listing.expanded_in(worktree.id));
                }
                cursor.advance_to_offset(self.visible_entries[ix][local]);
                match cursor.entry() {
                    Some(entry) => Some((worktree.id, entry)),
                    None => None,
                }
            },
            None => None,
        }
    }

    /// Leaves no entry active.
    pub fn clear_active_entry(&mut self)
        requires
            old(self).wf(),
        ensures
            final(self).wf(),
            final(self)@ == (PanelState { active: None, ..old(self)@ }),
    {
        self.active_entry = None;
    }

    /// Makes the entry of row `index` active, if there is such a row.
    fn select_index(&mut self, index: usize) -> (event: Option<Event>)
        requires
            old(self).wf(),
        ensures
            final(self).wf(),
            final(self)@ == old(self)@.selected(index as int),
            event == announced(old(self)@.active, final(self)@.active),
    {
        let before = self.active_entry;
        let found = match self.visible_entry_for_index(index) {
            Some((worktree_id, entry)) => Some((worktree_id, entry.id)),
            None => None,
        };
        match found {
            Some((worktree_id, entry_id)) => {
                self.active_entry = Some(ActiveEntry { worktree_id, entry_id, index });
                proof {
                    old(self)@.lemma_selected_inv(index as int);
                }
            },
            None => {},
        }
        announce(before, self.active_entry)
    }

    /// Makes the first row active, if there is a row.
    pub fn select_first(&mut self) -> (event: Option<Event>)
        requires
            old(self).wf(),
        ensures
            final(self).wf(),
            final(self)@ == old(self)@.select_first(),
            event == announced(old(self)@.active, final(self)@.active),
    {
        self.select_index(0)
    }

    /// Makes the row after the active one active, if there is one; the first
    /// row where no entry is active.
    pub fn select_next(&mut self) -> (event: Option<Event>)
        requires
            old(self).wf(),
        ensures
            final(self).wf(),
            final(self)@ == old(self)@.select_next(),
            event == announced(old(self)@.active, final(self)@.active),
    {
        match self.active_entry {
            Some(active) => {
                proof {
                    self@.listing().lemma_position_of(active.worktree_id, active.entry_id);
                }
                self.select_index(active.index + 1)
            },
            None => self.select_first(),
        }
    }

    /// Makes the row before the active one active, if there is one; the first
    /// row where no entry is active.
    pub fn select_prev(&mut self) -> (event: Option<Event>)
        requires
            old(self).wf(),
        ensures
            final(self).wf(),
            final(self)@ == old(self)@.select_prev(),
            event == announced(old(self)@.active, final(self)@.active),
    {
        match self.active_entry {
            Some(active) => {
                if active.index > 0 {
                    self.select_index(active.index - 1)
                } else {
                    None
                }
            },
            None => self.select_first(),
        }
    }

    /// Expands the entry if it is collapsed and collapses it if it is
    /// expanded, and makes it active if it is then shown. Nothing happens
    /// where the project has no worktree at `entry.worktree_ix`, or that
    /// worktree has no expansion state.
    pub fn toggle_expanded(&mut self, entry: ProjectEntry) -> (event: Option<Event>)
        requires
            old(self).wf(),
        ensures
            final(self).wf(),
            final(self)@ == old(self)@.toggle_expanded(entry),
            event == announced(old(self)@.active, final(self)@.active),
    {
        if entry.worktree_ix >= self.project.worktrees().len() {
            return None;
        }
        let worktree_id = self.project.worktrees()[entry.worktree_ix].id;
        if !self.expanded_dir_ids.knows_worktree(worktree_id) {
            return None;
        }
        self.expanded_dir_ids.toggle(worktree_id, entry.entry_id);
        self.rebuild(Some((worktree_id, entry.entry_id)))
    }

    /// Expands every entry that the entry `entry_id` of worktree `worktree_id`
    /// lies below, going from parent to parent. Nothing happens where the
    /// worktree, its expansion state or the entry is missing.
    fn expand_entry(&mut self, worktree_id: usize, entry_id: usize)
        requires
            old(self).parts_wf(),
        ensures
            final(self).parts_wf(),
            final(self)@ == (PanelState {
                expanded: old(self)@.expand_entry(worktree_id, entry_id),
                ..old(self)@
            }),
    {
        proof {
            self.project.lemma_are_worktrees();
        }
        let worktree = match self.project.worktree_for_id(worktree_id) {
            Some(worktree) => worktree,
            None => {
                return ;
            },
        };
        if !self.expanded_dir_ids.knows_worktree(worktree_id) {
            return ;
        }
        let entry = match worktree.snapshot.entry_for_id(entry_id) {
            Some(entry) => entry,
            None => {
                return ;
            },
        };
        let ghost entries = worktree.snapshot@;
        let ghost start = offset_of_id(entries, entry_id).unwrap();
        let ghost mut at = start;
        let ghost before = self.expanded_dir_ids@;
        proof {
            worktree.snapshot.lemma_is_tree();
            assert(ids_between(entries, start, start) =~= Set::<usize>::empty());
            assert(before[worktree_id].union(Set::<usize>::empty()) =~= before[worktree_id]);
            assert(before.insert(worktree_id, before[worktree_id]) =~= before);
        }
        let mut parent = worktree.snapshot.parent_of(entry);
        while parent.is_some()
            invariant
                self.parts_wf(),
                self.project == old(self).project,
                self.active_entry == old(self).active_entry,
                worktree.snapshot.wf(),
                entries == worktree.snapshot@,
                is_tree(entries),
                0 <= at < entries.len(),
                0 <= start < entries.len(),
                at == start || descends(entries, at, start),
                before.contains_key(worktree_id),
                self.expanded_dir_ids@ == before.insert(
                    worktree_id,
                    before[worktree_id].union(ids_between(entries, start, at)),
                ),
                parent is Some <==> parent_offset(entries, at) is Some,
                parent is Some ==> *parent.unwrap() == entries[parent_offset(entries, at).unwrap()],
            decreases entries[at].depth(),
        {
            let above = parent.unwrap();
            proof {
                lemma_depth(entries, at);
                lemma_ids_between_step(entries, start, at);
                let next = parent_offset(entries, at).unwrap();
                assert(before[worktree_id].union(ids_between(entries, start, at)).insert(
                    entries[next].id,
                ) =~= before[worktree_id].union(ids_between(entries, start, next)));
                at = next;
            }
            self.expanded_dir_ids.expand(worktree_id, above.id);
            assert(self.expanded_dir_ids@ =~= before.insert(
                worktree_id,
                before[worktree_id].union(ids_between(entries, start, at)),
            ));
            parent = worktree.snapshot.parent_of(above);
        }
        proof {
            if at > 0 {
                lemma_parent(entries, at);
            }
            assert(ids_between(entries, start, 0) =~= ancestor_ids(entries, start));
        }
    }

    /// Takes note that the entry `entry_id` of worktree `worktree_id` has
    /// become the one that the user works on: every entry that it lies below
    /// is expanded, and it becomes active if it is then shown.
    pub fn active_entry_changed(&mut self, worktree_id: usize, entry_id: usize) -> (event: Option<
        Event,
    >)
        requires
            old(self).wf(),
        ensures
            final(self).wf(),
            final(self)@ == old(self)@.active_entry_changed(worktree_id, entry_id),
            event == announced(old(self)@.active, final(self)@.active),
    {
        self.expand_entry(worktree_id, entry_id);
        self.rebuild(Some((worktree_id, entry_id)))
    }

    /// Expands the active entry if it is a collapsed directory; moves to the
    /// next row if it is an expanded directory.
    pub fn expand_active_entry(&mut self) -> (event: Option<Event>)
        requires
            old(self).wf(),
        ensures
            final(self).wf(),
            final(self)@ == old(self)@.expand_active_entry(),
            event == announced(old(self)@.active, final(self)@.active),
    {
        let active = match self.active_entry {
            Some(active) => active,
            None => {
                return None;
            },
        };
        let worktree = match self.project.worktree_for_id(active.worktree_id) {
            Some(worktree) => worktree,
            None => {
                return None;
            },
        };
        let entry = match worktree.snapshot.entry_for_id(active.entry_id) {
            Some(entry) => entry,
            None => {
                return None;
            },
        };
        if !entry.is_dir || !self.expanded_dir_ids.knows_worktree(active.worktree_id) {
            return None;
        }
        if self.expanded_dir_ids.is_expanded(active.worktree_id, active.entry_id) {
            self.select_next()
        } else {
            self.expanded_dir_ids.expand(active.worktree_id, active.entry_id);
            self.rebuild(None)
        }
    }

    /// Collapses the nearest expanded entry on the way from the active entry
    /// up to the root, the active entry included, and makes it active.
    pub fn collapse_active_entry(&mut self) -> (event: Option<Event>)
        requires
            old(self).wf(),
        ensures
            final(self).wf(),
            final(self)@ == old(self)@.collapse_active_entry(),
            event == announced(old(self)@.active, final(self)@.active),
    {
        let active = match self.active_entry {
            Some(active) => active,
            None => {
                return None;
            },
        };
        let worktree = match self.project.worktree_for_id(active.worktree_id) {
            Some(worktree) => worktree,
            None => {
                return None;
            },
        };
        let mut entry = match worktree.snapshot.entry_for_id(active.entry_id) {
            Some(entry) => entry,
            None => {
                return None;
            },
        };
        if !self.expanded_dir_ids.knows_worktree(active.worktree_id) {
            return None;
        }
        let ghost entries = worktree.snapshot@;
        let ghost expanded = self.expanded_dir_ids@[active.worktree_id];
        let ghost start = offset_of_id(entries, active.entry_id).unwrap();
        let ghost mut at = start;
        let mut found: Option<usize> = None;
        loop
            invariant_except_break
                self.wf(),
                self == old(self),
                worktree.snapshot.wf(),
                entries == worktree.snapshot@,
                self.expanded_dir_ids@.contains_key(active.worktree_id),
                expanded == self.expanded_dir_ids@[active.worktree_id],
                0 <= at < entries.len(),
                *entry == entries[at],
                nearest_expanded(entries, expanded, start) == nearest_expanded(entries, expanded, at),
                found is None,
            ensures
                self == old(self),
                found is Some <==> nearest_expanded(entries, expanded, start) is Some,
                found is Some ==> found.unwrap() == entries[nearest_expanded(
                    entries,
                    expanded,
                    start,
                ).unwrap()].id,
            decreases entries[at].depth(),
        {
            if self.expanded_dir_ids.is_expanded(active.worktree_id, entry.id) {
                found = Some(entry.id);
                break ;
            }
            match worktree.snapshot.parent_of(entry) {
                Some(parent) => {
                    proof {
                        at = parent_offset(entries, at).unwrap();
                    }
                    entry = parent;
                },
                None => {
                    break ;
                },
            }
        }
        match found {
            Some(id) => {
                self.expanded_dir_ids.collapse(active.worktree_id, id);
                self.rebuild(Some((active.worktree_id, id)))
            },
            None => None,
        }
    }

    /// The rows from `range.start` up to `range.end`, as far as there are
    /// rows: for each the entry it shows and what it shows of it.
    pub fn visible_entries_in_range(&self, range: Range<usize>) -> (rows: Vec<
        (ProjectEntry, EntryDetails),
    >)
        requires
            self.wf(),
        ensures
            same_rows(rows@, self@.rows(range.start as int, range.end as int)),
    {
        let mut rows: Vec<(ProjectEntry, EntryDetails)> = Vec::new();
        let start: usize = range.start;
        let end: usize = range.end;
        let ghost state = self@;
        let ghost listing = state.listing();
        proof {
            self.project.lemma_are_worktrees();
            listing.lemma_count_before(0);
        }
        if start >= end {
            return rows;
        }
        let mut before: usize = 0;
        let mut worktree_ix: usize = 0;
        while worktree_ix < self.visible_entries.len() && before < end
            invariant
                self.wf(),
                state == self@,
                listing == state.listing(),
                are_worktrees(listing.worktrees),
                start < end,
                worktree_ix <= listing.worktrees.len(),
                before == listing.count_before(worktree_ix as int),
                rows.len() == (if before <= start {
                    0
                } else if before < end {
                    before - start
                } else {
                    end - start
                }),
                forall|k: int|
                    0 <= k < rows.len() ==> (#[trigger] rows[k]).0 == state.row(start + k).0
                        && rows[k].1@ == state.row(start + k).1,
            decreases listing.worktrees.len() - worktree_ix,
        {
            proof {
                listing.lemma_count_before(worktree_ix as int);
                listing.lemma_count_before(worktree_ix + 1);
            }
            let visible = &self.visible_entries[worktree_ix];
            let count: usize = visible.len();
            if start < before + count {
                let worktree = &self.project.worktrees()[worktree_ix];
                let ids = self.expanded_dir_ids.ids(worktree.id);
                let mut cursor = worktree.snapshot.entries();
                let mut local: usize = if start > before {
                    start - before
                } else {
                    0
                };
                let stop: usize = if end - before < count {
                    end - before
                } else {
                    count
                };
                proof {
                    lemma_visible_offsets(worktree.snapshot@, listing.expanded_in(worktree.id));
                }
                while local < stop
                    invariant
                        self.wf(),
                        state == self@,
                        listing == state.listing(),
                        are_worktrees(listing.worktrees),
                        worktree_ix < listing.worktrees.len(),
                        *worktree == listing.worktrees[worktree_ix as int],
                        visible@ == listing.visible(worktree_ix as int),
                        count == visible.len(),
                        before == listing.count_before(worktree_ix as int),
                        before + count <= usize::MAX,
                        start < end,
                        before < end,
                        stop <= count,
                        stop <= end - before,
                        local <= stop,
                        start <= before + local,
                        rows.len() == before + local - start,
                        ids is Some <==> state.expanded.contains_key(worktree.id),
                        ids is Some ==> strictly_ascending(ids.unwrap()@) && ids.unwrap()@.to_set()
                            == state.expanded[worktree.id],
                        cursor.wf(),
                        cursor.snapshot() == worktree.snapshot,
                        forall|k: int|
                            0 <= k < visible.len() ==> (#[trigger] visible[k])
                                < worktree.snapshot@.len(),
                        forall|k: int|
                            0 <= k < rows.len() ==> (#[trigger] rows[k]).0 == state.row(
                                start + k,
                            ).0 && rows[k].1@ == state.row(start + k).1,
                    decreases stop - local,
                {
                    cursor.advance_to_offset(visible[local]);
                    match cursor.entry() {
                        Some(entry) => {
                            let filename = if entry.path.len() == 0 {
                                worktree.snapshot.root_name().clone()
                            } else {
                                entry.path[entry.path.len() - 1].clone()
                            };
                            let is_expanded = match ids {
                                Some(ids) => binary_search(ids, entry.id).is_ok(),
                                None => false,
                            };
                            let is_active = match self.active_entry {
                                Some(active) => active.worktree_id == worktree.id && active.entry_id
                                    == entry.id,
                                None => false,
                            };
                            let details = EntryDetails {
                                filename,
                                depth: entry.path.len(),
                                is_dir: entry.is_dir,
                                is_expanded,
                                is_active,
                            };
                            proof {
                                assert(listing.is_at(
                                    before + local,
                                    worktree_ix as int,
                                    local as int,
                                ));
                                listing.lemma_locate(
                                    before + local,
                                    worktree_ix as int,
                                    local as int,
                                );
                                assert(details@ == state.row(before + local).1);
                            }
                            rows.push((ProjectEntry { worktree_ix, entry_id: entry.id }, details));
                        },
                        None => {},
                    }
                    local += 1;
                }
            }
            before = before + count;
            worktree_ix += 1;
        }
        proof {
            listing.lemma_count_before(worktree_ix as int);
            let expected = state.rows(start as int, end as int);
            assert(rows.len() == expected.len());
            assert forall|k: int| 0 <= k < rows.len() implies (#[trigger] rows[k]).0
                == expected[k].0 && rows[k].1@ == expected[k].1 by {
                assert(expected[k] == state.row(start + k));
            }
        }
        rows
    }
}

/// Whether `rows` are the rows `expected`, each with the entry it shows and
/// what it shows of it.
pub open spec fn same_rows(
    rows: Seq<(ProjectEntry, EntryDetails)>,
    expected: Seq<(ProjectEntry, EntryDetailsView)>,
) -> bool {
    &&& rows.len() == expected.len()
    &&& forall|k: int|
        0 <= k < rows.len() ==> (#[trigger] rows[k]).0 == expected[k].0 && rows[k].1@
            == expected[k].1
}

/// The ids of the entries that the entry at `start` lies below and the entry
/// at `at` does not.
spec fn ids_between(entries: Seq<Entry>, start: int, at: int) -> Set<usize> {
    Set::new(
        |id: usize|
            exists|outer: int| #[trigger]
                descends(entries, outer, start) && !descends(entries, outer, at)
                    && entries[outer].id == id,
    )
}

/// Going from an entry to its parent on the way from `start` to the root
/// passes one entry more that `start` lies below: the parent.
proof fn lemma_ids_between_step(entries: Seq<Entry>, start: int, at: int)
    requires
        is_tree(entries),
        0 < at < entries.len(),
        at == start || descends(entries, at, start),
    ensures
        parent_offset(entries, at) is Some,
        0 <= parent_offset(entries, at).unwrap() < at,
        entries[parent_offset(entries, at).unwrap()].depth() < entries[at].depth(),
        descends(entries, parent_offset(entries, at).unwrap(), start),
        ids_between(entries, start, parent_offset(entries, at).unwrap()) == ids_between(
            entries,
            start,
            at,
        ).insert(entries[parent_offset(entries, at).unwrap()].id),
{
    lemma_parent(entries, at);
    let parent = parent_offset(entries, at).unwrap();
    if at != start {
        lemma_descends_trans(entries, parent, at, start);
    }
    let fewer = ids_between(entries, start, at);
    let more = ids_between(entries, start, parent);
    assert forall|id: usize| more.contains(id) <==> fewer.insert(entries[parent].id).contains(
        id,
    ) by {
        if more.contains(id) {
            let outer = choose|outer: int| #[trigger]
                descends(entries, outer, start) && !descends(entries, outer, parent)
                    && entries[outer].id == id;
            if outer != parent {
                assert(descends(entries, outer, start) && !descends(entries, outer, at)
                    && entries[outer].id == id);
            }
        }
        if fewer.contains(id) {
            let outer = choose|outer: int| #[trigger]
                descends(entries, outer, start) && !descends(entries, outer, at)
                    && entries[outer].id == id;
            assert(descends(entries, outer, start) && !descends(entries, outer, parent)
                && entries[outer].id == id);
        }
        if id == entries[parent].id {
            assert(descends(entries, parent, start) && !descends(entries, parent, parent)
                && entries[parent].id == id);
        }
    }
    assert(more =~= fewer.insert(entries[parent].id));
}

} // verus!
