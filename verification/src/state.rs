//! What the panel is, told without its caches: the worktrees, the expanded
//! directories and the active entry, with the list of rows that follows from
//! them and what each operation of the panel makes of them.

use crate::expanded::toggled_set;
use crate::project::{
    are_worktrees, entries_before, lemma_entries_before_grows, worktree_index, Worktree,
};
use crate::tree::{descends, offset_of_id, parent_offset};
use crate::visible::{lemma_visible_offsets, visible_offsets};
use crate::worktree::Entry;
use crate::{Event, ProjectEntry};
use vstd::prelude::*;

verus! {

/// The entry that keyboard navigation starts from.
#[derive(Clone, Copy, Debug, PartialEq, Eq, Structural)]
pub struct ActiveEntry {
    pub worktree_id: usize,
    pub entry_id: usize,
    /// The row at which the entry is shown.
    pub index: usize,
}

/// What a row shows of its entry.
#[derive(Debug, PartialEq, Eq)]
pub struct EntryDetails {
    /// The last name of the entry's path; for a root, the name of its worktree.
    pub filename: String,
    /// How many names the entry's path has.
    pub depth: usize,
    pub is_dir: bool,
    pub is_expanded: bool,
    pub is_active: bool,
}

/// `EntryDetails` as plain values.
pub struct EntryDetailsView {
    pub filename: Seq<char>,
    pub depth: nat,
    pub is_dir: bool,
    pub is_expanded: bool,
    pub is_active: bool,
}

impl View for EntryDetails {
    type V = EntryDetailsView;

    open spec fn view(&self) -> EntryDetailsView {
        EntryDetailsView {
            filename: self.filename@,
            depth: self.depth as nat,
            is_dir: self.is_dir,
            is_expanded: self.is_expanded,
            is_active: self.is_active,
        }
    }
}

/// The expansion states that a rebuild leaves: those that were there, and for
/// every other worktree that has entries, one that holds its root alone.
pub open spec fn roots_expanded(
    worktrees: Seq<Worktree>,
    expanded: Map<usize, Set<usize>>,
) -> Map<usize, Set<usize>> {
    Map::new(
        |id: usize|
            expanded.contains_key(id) || (worktree_index(worktrees, id) is Some
                && worktrees[worktree_index(worktrees, id).unwrap()].snapshot@.len() > 0),
        |id: usize|
            if expanded.contains_key(id) {
                expanded[id]
            } else {
                set![worktrees[worktree_index(worktrees, id).unwrap()].snapshot@[0].id]
            },
    )
}

/// The ids of the entries that the entry at `at` lies below.
pub open spec fn ancestor_ids(entries: Seq<Entry>, at: int) -> Set<usize> {
    Set::new(
        |id: usize| exists|outer: int| #[trigger] descends(entries, outer, at) && entries[outer].id == id,
    )
}

/// The nearest expanded entry on the way from the entry at `at` up to the
/// root, the entry itself included.
pub open spec fn nearest_expanded(entries: Seq<Entry>, expanded: Set<usize>, at: int) -> Option<int>
    decreases entries[at].depth(),
{
    if expanded.contains(entries[at].id) {
        Some(at)
    } else {
        match parent_offset(entries, at) {
            Some(parent) => if entries[parent].depth() < entries[at].depth() {
                nearest_expanded(entries, expanded, parent)
            } else {
                None
            },
            None => None,
        }
    }
}

/// What the panel announces when its active entry goes from `before` to
/// `after`: the new row of the active entry, if there is one and it is not
/// the old row.
pub open spec fn announced(before: Option<ActiveEntry>, after: Option<ActiveEntry>) -> Option<Event> {
    match after {
        Some(now) => if before is Some && before.unwrap().index == now.index {
            None
        } else {
            Some(Event::ActiveIndexChanged(now.index))
        },
        None => None,
    }
}

/// The worktrees and the expanded directories of each: what decides which
/// rows there are.
pub struct Listing {
    pub worktrees: Seq<Worktree>,
    pub expanded: Map<usize, Set<usize>>,
}

impl Listing {
    /// The expanded entries of a worktree; none where it has no expansion
    /// state.
    pub open spec fn expanded_in(self, worktree_id: usize) -> Set<usize> {
        if self.expanded.contains_key(worktree_id) {
            self.expanded[worktree_id]
        } else {
            Set::empty()
        }
    }

    /// The offsets of the entries of the worktree at position `ix` that are
    /// shown, in the order in which they are shown.
    pub open spec fn visible(self, ix: int) -> Seq<usize> {
        visible_offsets(self.worktrees[ix].snapshot@, self.expanded_in(self.worktrees[ix].id))
    }

    /// How many rows the worktrees before position `ix` take.
    pub open spec fn count_before(self, ix: int) -> int
        decreases ix,
    {
        if ix <= 0 {
            0
        } else {
            self.count_before(ix - 1) + self.visible(ix - 1).len()
        }
    }

    /// How many rows there are.
    pub open spec fn total(self) -> int {
        self.count_before(self.worktrees.len() as int)
    }

    /// Whether row `index` is the row `local` of the worktree at position `ix`.
    pub open spec fn is_at(self, index: int, ix: int, local: int) -> bool {
        &&& 0 <= ix < self.worktrees.len()
        &&& 0 <= local < self.visible(ix).len()
        &&& index == self.count_before(ix) + local
    }

    /// The worktree position and the row within that worktree of row `index`.
    pub open spec fn locate(self, index: int) -> Option<(int, int)> {
        if exists|ix: int, local: int| self.is_at(index, ix, local) {
            Some(choose|place: (int, int)| self.is_at(index, place.0, place.1))
        } else {
            None
        }
    }

    /// The id of the worktree and the entry that row `index` shows.
    pub open spec fn entry_at(self, index: int) -> Option<(usize, Entry)> {
        match self.locate(index) {
            Some((ix, local)) => Some(
                (self.worktrees[ix].id, self.worktrees[ix].snapshot@[self.visible(ix)[local] as int]),
            ),
            None => None,
        }
    }

    /// Whether row `index` shows the entry `entry_id` of worktree
    /// `worktree_id`.
    pub open spec fn shows_at(self, index: int, worktree_id: usize, entry_id: usize) -> bool {
        match self.entry_at(index) {
            Some((id, entry)) => id == worktree_id && entry.id == entry_id,
            None => false,
        }
    }

    /// The row that shows the entry `entry_id` of worktree `worktree_id`.
    pub open spec fn position_of(self, worktree_id: usize, entry_id: usize) -> Option<int> {
        if exists|index: int| self.shows_at(index, worktree_id, entry_id) {
            Some(choose|index: int| self.shows_at(index, worktree_id, entry_id))
        } else {
            None
        }
    }

    /// The active entry at the row where the entry `entry_id` of worktree
    /// `worktree_id` is shown, if it is shown.
    pub open spec fn active_at(self, worktree_id: usize, entry_id: usize) -> Option<ActiveEntry> {
        match self.position_of(worktree_id, entry_id) {
            Some(index) => Some(ActiveEntry { worktree_id, entry_id, index: index as usize }),
            None => None,
        }
    }

    /// The rows of a worktree are no more than its entries, and the rows of
    /// all worktrees together can be counted.
    pub proof fn lemma_count_before(self, ix: int)
        requires
            are_worktrees(self.worktrees),
            0 <= ix <= self.worktrees.len(),
        ensures
            0 <= self.count_before(ix) <= entries_before(self.worktrees, ix) <= usize::MAX,
            self.count_before(ix) <= self.total() <= usize::MAX,
            ix < self.worktrees.len() ==> self.count_before(ix) + self.visible(ix).len()
                == self.count_before(ix + 1),
            ix < self.worktrees.len() ==> self.visible(ix).len()
                <= self.worktrees[ix].snapshot@.len() <= usize::MAX,
        decreases self.worktrees.len() - ix,
    {
        lemma_entries_before_grows(self.worktrees, ix, self.worktrees.len() as int);
        self.lemma_count_before_at_most(ix);
        self.lemma_count_before_at_most(self.worktrees.len() as int);
        self.lemma_count_before_grows(ix, self.worktrees.len() as int);
        if ix < self.worktrees.len() {
            lemma_entries_before_grows(self.worktrees, ix + 1, self.worktrees.len() as int);
            lemma_entries_before_grows(self.worktrees, ix, ix);
            assert(entries_before(self.worktrees, ix + 1) == entries_before(self.worktrees, ix)
                + self.worktrees[ix].snapshot@.len());
            lemma_visible_offsets(
                self.worktrees[ix].snapshot@,
                self.expanded_in(self.worktrees[ix].id),
            );
        }
    }

    /// The rows of the first worktrees are no more than their entries.
    proof fn lemma_count_before_at_most(self, ix: int)
        requires
            are_worktrees(self.worktrees),
            0 <= ix <= self.worktrees.len(),
        ensures
            0 <= self.count_before(ix) <= entries_before(self.worktrees, ix),
        decreases ix,
    {
        if ix > 0 {
            self.lemma_count_before_at_most(ix - 1);
            lemma_entries_before_grows(self.worktrees, ix, self.worktrees.len() as int);
            lemma_entries_before_grows(self.worktrees, ix - 1, ix - 1);
            lemma_visible_offsets(
                self.worktrees[ix - 1].snapshot@,
                self.expanded_in(self.worktrees[ix - 1].id),
            );
        }
    }

    /// Later worktrees start at later rows.
    pub proof fn lemma_count_before_grows(self, fewer: int, more: int)
        requires
            0 <= fewer <= more,
        ensures
            0 <= self.count_before(fewer) <= self.count_before(more),
        decreases more,
    {
        if fewer < more {
            self.lemma_count_before_grows(fewer, more - 1);
        } else if more > 0 {
            self.lemma_count_before_grows(fewer - 1, more - 1);
        }
    }

    /// A row belongs to one worktree and is one of its rows.
    pub proof fn lemma_locate(self, index: int, ix: int, local: int)
        requires
            self.is_at(index, ix, local),
        ensures
            self.locate(index) == Some((ix, local)),
            0 <= index < self.total(),
    {
        let place = choose|place: (int, int)| self.is_at(index, place.0, place.1);
        assert(self.is_at(index, (ix, local).0, (ix, local).1));
        if place.0 < ix {
            self.lemma_count_before_grows(place.0 + 1, ix);
        }
        if place.0 > ix {
            self.lemma_count_before_grows(ix + 1, place.0);
        }
        self.lemma_count_before_grows(ix + 1, self.worktrees.len() as int);
        self.lemma_count_before_grows(0, ix);
    }

    /// Where a row is found, it is the row that was looked for.
    pub proof fn lemma_located(self, index: int)
        requires
            self.locate(index) is Some,
        ensures
            self.is_at(index, self.locate(index).unwrap().0, self.locate(index).unwrap().1),
            0 <= index < self.total(),
    {
        let (ix, local) = choose|ix: int, local: int| self.is_at(index, ix, local);
        self.lemma_locate(index, ix, local);
    }

    /// There are no rows but those from the first to the last.
    pub proof fn lemma_locate_none(self, index: int)
        requires
            index < 0 || index >= self.total(),
        ensures
            self.locate(index) is None,
    {
        if self.locate(index) is Some {
            self.lemma_located(index);
        }
    }

    /// Every row from the first to the last belongs to a worktree.
    pub proof fn lemma_locate_some(self, index: int)
        requires
            0 <= index < self.total(),
        ensures
            self.locate(index) is Some,
            self.is_at(index, self.locate(index).unwrap().0, self.locate(index).unwrap().1),
    {
        self.lemma_located_before(index, self.worktrees.len() as int);
    }

    /// A row before the rows of the worktree at `upto` belongs to a worktree
    /// before it.
    proof fn lemma_located_before(self, index: int, upto: int)
        requires
            0 <= index < self.count_before(upto),
            0 <= upto <= self.worktrees.len(),
        ensures
            self.locate(index) is Some,
            self.is_at(index, self.locate(index).unwrap().0, self.locate(index).unwrap().1),
        decreases upto,
    {
        if index < self.count_before(upto - 1) {
            self.lemma_located_before(index, upto - 1);
        } else {
            assert(self.is_at(index, upto - 1, index - self.count_before(upto - 1)));
            self.lemma_locate(index, upto - 1, index - self.count_before(upto - 1));
        }
    }

    /// An entry is shown at one row at most.
    pub proof fn lemma_position(self, index: int, worktree_id: usize, entry_id: usize)
        requires
            are_worktrees(self.worktrees),
            self.shows_at(index, worktree_id, entry_id),
        ensures
            self.position_of(worktree_id, entry_id) == Some(index),
            0 <= index < self.total() <= usize::MAX,
    {
        let other = choose|other: int| self.shows_at(other, worktree_id, entry_id);
        let (ix, local) = self.locate(index).unwrap();
        let (other_ix, other_local) = self.locate(other).unwrap();
        self.lemma_located(index);
        self.lemma_located(other);
        assert(self.worktrees[ix].id == self.worktrees[other_ix].id);
        assert(ix == other_ix);
        let snapshot = self.worktrees[ix].snapshot;
        snapshot.lemma_is_tree();
        self.lemma_count_before(ix);
        let offsets = self.visible(ix);
        lemma_visible_offsets(snapshot@, self.expanded_in(self.worktrees[ix].id));
        assert(snapshot@[offsets[local] as int].id == snapshot@[offsets[other_local] as int].id);
        assert(offsets[local] == offsets[other_local]);
        if local < other_local {
            assert(offsets[local] < offsets[other_local]);
        }
        if other_local < local {
            assert(offsets[other_local] < offsets[local]);
        }
    }

    /// Where an entry is shown, it is shown at the row that `position_of`
    /// names, and that row can be counted.
    pub proof fn lemma_position_of(self, worktree_id: usize, entry_id: usize)
        requires
            are_worktrees(self.worktrees),
            self.position_of(worktree_id, entry_id) is Some,
        ensures
            self.shows_at(self.position_of(worktree_id, entry_id).unwrap(), worktree_id, entry_id),
            0 <= self.position_of(worktree_id, entry_id).unwrap() < self.total() <= usize::MAX,
    {
        self.lemma_position(self.position_of(worktree_id, entry_id).unwrap(), worktree_id, entry_id);
    }
}

/// The worktrees, the expanded directories of each, and the active entry.
pub struct PanelState {
    pub worktrees: Seq<Worktree>,
    pub expanded: Map<usize, Set<usize>>,
    pub active: Option<ActiveEntry>,
}

impl PanelState {
    /// What decides which rows there are.
    pub open spec fn listing(self) -> Listing {
        Listing { worktrees: self.worktrees, expanded: self.expanded }
    }

    /// What a row shows of the entry at offset `at` of the worktree at
    /// position `ix`.
    pub open spec fn details_of(self, ix: int, at: int) -> EntryDetailsView {
        let worktree = self.worktrees[ix];
        let entry = worktree.snapshot@[at];
        EntryDetailsView {
            filename: if entry.depth() == 0 {
                worktree.snapshot.spec_root_name()
            } else {
                entry.path@.last()@
            },
            depth: entry.depth(),
            is_dir: entry.is_dir,
            is_expanded: self.listing().expanded_in(worktree.id).contains(entry.id),
            is_active: self.active is Some && self.active.unwrap().worktree_id == worktree.id
                && self.active.unwrap().entry_id == entry.id,
        }
    }

    /// Row `index`: which entry it shows, and what it shows of it.
    pub open spec fn row(self, index: int) -> (ProjectEntry, EntryDetailsView) {
        let (ix, local) = self.listing().locate(index).unwrap();
        let at = self.listing().visible(ix)[local] as int;
        (
            ProjectEntry { worktree_ix: ix as usize, entry_id: self.worktrees[ix].snapshot@[at].id },
            self.details_of(ix, at),
        )
    }

    /// The rows from `start` up to `end`, as far as there are rows.
    pub open spec fn rows(self, start: int, end: int) -> Seq<(ProjectEntry, EntryDetailsView)> {
        let total = self.listing().total();
        let from = if start < total {
            start
        } else {
            total
        };
        let to = if end < total {
            end
        } else {
            total
        };
        if 0 <= from <= to {
            Seq::new((to - from) as nat, |k: int| self.row(from + k))
        } else {
            Seq::empty()
        }
    }

    // What always holds.

    /// The worktrees are valid, every worktree that has entries has an
    /// expansion state, and the active entry is shown at the row it names.
    pub open spec fn inv(self) -> bool {
        &&& are_worktrees(self.worktrees)
        &&& forall|ix: int|
            0 <= ix < self.worktrees.len() && (#[trigger] self.worktrees[ix]).snapshot@.len() > 0
                ==> self.expanded.contains_key(self.worktrees[ix].id)
        &&& match self.active {
            Some(active) => self.listing().position_of(active.worktree_id, active.entry_id) == Some(
                active.index as int,
            ),
            None => true,
        }
    }

    // The operations.

    /// The active entry after the rows have changed: the anchor if it is
    /// shown; else the entry that was active, if it is still shown; else none.
    pub open spec fn resolved(self, anchor: Option<(usize, usize)>) -> Option<ActiveEntry> {
        let anchored = match anchor {
            Some((worktree_id, entry_id)) => self.listing().active_at(worktree_id, entry_id),
            None => None,
        };
        if anchored is Some {
            anchored
        } else {
            match self.active {
                Some(active) => self.listing().active_at(active.worktree_id, active.entry_id),
                None => None,
            }
        }
    }

    /// The state after the rows have been rebuilt: the root of every worktree
    /// seen for the first time is expanded, and the active entry is found
    /// again among the rows.
    pub open spec fn rebuilt(self, anchor: Option<(usize, usize)>) -> PanelState {
        let seen = PanelState { expanded: roots_expanded(self.worktrees, self.expanded), ..self };
        PanelState { active: seen.resolved(anchor), ..seen }
    }

    /// The state of a new panel on these worktrees.
    pub open spec fn initial(worktrees: Seq<Worktree>) -> PanelState {
        PanelState { worktrees, expanded: Map::empty(), active: None }.rebuilt(None)
    }

    /// The worktrees have changed.
    pub open spec fn project_changed(self, worktrees: Seq<Worktree>) -> PanelState {
        PanelState { worktrees, ..self }.rebuilt(None)
    }

    /// The worktree with this id has left the project.
    pub open spec fn worktree_removed(self, worktree_id: usize) -> PanelState {
        PanelState {
            worktrees: match worktree_index(self.worktrees, worktree_id) {
                Some(ix) => self.worktrees.remove(ix),
                None => self.worktrees,
            },
            expanded: self.expanded.remove(worktree_id),
            active: if self.active is Some && self.active.unwrap().worktree_id == worktree_id {
                None
            } else {
                self.active
            },
        }.rebuilt(None)
    }

    /// The expansion states after every entry that the entry `entry_id` of
    /// worktree `worktree_id` lies below has been expanded. Nothing changes
    /// where the worktree, its expansion state or the entry is missing.
    pub open spec fn expand_entry(self, worktree_id: usize, entry_id: usize) -> Map<
        usize,
        Set<usize>,
    > {
        match worktree_index(self.worktrees, worktree_id) {
            Some(ix) => match offset_of_id(self.worktrees[ix].snapshot@, entry_id) {
                Some(at) => if self.expanded.contains_key(worktree_id) {
                    self.expanded.insert(
                        worktree_id,
                        self.expanded[worktree_id].union(
                            ancestor_ids(self.worktrees[ix].snapshot@, at),
                        ),
                    )
                } else {
                    self.expanded
                },
                None => self.expanded,
            },
            None => self.expanded,
        }
    }

    /// An entry has become the one that the user works on: it is brought into
    /// view and made active.
    pub open spec fn active_entry_changed(self, worktree_id: usize, entry_id: usize) -> PanelState {
        PanelState { expanded: self.expand_entry(worktree_id, entry_id), ..self }.rebuilt(
            Some((worktree_id, entry_id)),
        )
    }

    /// An entry is expanded if it was collapsed and collapsed if it was
    /// expanded, and becomes active if it is shown. Nothing changes where the
    /// worktree or its expansion state is missing.
    pub open spec fn toggle_expanded(self, entry: ProjectEntry) -> PanelState {
        if entry.worktree_ix < self.worktrees.len() && self.expanded.contains_key(
            self.worktrees[entry.worktree_ix as int].id,
        ) {
            let worktree_id = self.worktrees[entry.worktree_ix as int].id;
            PanelState {
                expanded: self.expanded.insert(
                    worktree_id,
                    toggled_set(self.expanded[worktree_id], entry.entry_id),
                ),
                ..self
            }.rebuilt(Some((worktree_id, entry.entry_id)))
        } else {
            self
        }
    }

    /// The state with the entry of row `index` active, if there is such a row.
    pub open spec fn selected(self, index: int) -> PanelState {
        match self.listing().entry_at(index) {
            Some((worktree_id, entry)) => PanelState {
                active: Some(ActiveEntry { worktree_id, entry_id: entry.id, index: index as usize }),
                ..self
            },
            None => self,
        }
    }

    /// The first row becomes active.
    pub open spec fn select_first(self) -> PanelState {
        self.selected(0)
    }

    /// The row after the active one becomes active; the first row where none
    /// is active.
    pub open spec fn select_next(self) -> PanelState {
        match self.active {
            Some(active) => self.selected(active.index + 1),
            None => self.select_first(),
        }
    }

    /// The row before the active one becomes active; the first row where none
    /// is active.
    pub open spec fn select_prev(self) -> PanelState {
        match self.active {
            Some(active) => if active.index > 0 {
                self.selected(active.index - 1)
            } else {
                self
            },
            None => self.select_first(),
        }
    }

    /// The worktree position and the offset of the active entry, where the
    /// worktree has an expansion state.
    pub open spec fn active_place(self) -> Option<(int, int)> {
        match self.active {
            Some(active) => match worktree_index(self.worktrees, active.worktree_id) {
                Some(ix) => match offset_of_id(self.worktrees[ix].snapshot@, active.entry_id) {
                    Some(at) => if self.expanded.contains_key(active.worktree_id) {
                        Some((ix, at))
                    } else {
                        None
                    },
                    None => None,
                },
                None => None,
            },
            None => None,
        }
    }

    /// An active directory that is collapsed is expanded; from one that is
    /// expanded the next row becomes active. Nothing changes where no entry
    /// is active or the active entry is a file.
    pub open spec fn expand_active_entry(self) -> PanelState {
        match self.active_place() {
            Some((ix, at)) => {
                let worktree_id = self.worktrees[ix].id;
                let entry = self.worktrees[ix].snapshot@[at];
                if !entry.is_dir {
                    self
                } else if self.expanded[worktree_id].contains(entry.id) {
                    self.select_next()
                } else {
                    PanelState {
                        expanded: self.expanded.insert(
                            worktree_id,
                            self.expanded[worktree_id].insert(entry.id),
                        ),
                        ..self
                    }.rebuilt(None)
                }
            },
            None => self,
        }
    }

    /// The nearest expanded entry on the way from the active entry up to the
    /// root is collapsed and becomes active. Nothing changes where no entry is
    /// active or nothing on that way is expanded.
    pub open spec fn collapse_active_entry(self) -> PanelState {
        match self.active_place() {
            Some((ix, at)) => {
                let worktree_id = self.worktrees[ix].id;
                let entries = self.worktrees[ix].snapshot@;
                match nearest_expanded(entries, self.expanded[worktree_id], at) {
                    Some(found) => PanelState {
                        expanded: self.expanded.insert(
                            worktree_id,
                            self.expanded[worktree_id].remove(entries[found].id),
                        ),
                        ..self
                    }.rebuilt(Some((worktree_id, entries[found].id))),
                    None => self,
                }
            },
            None => self,
        }
    }

    /// A rebuild leaves a state in which all holds that always holds.
    pub proof fn lemma_rebuilt_inv(self, anchor: Option<(usize, usize)>)
        requires
            are_worktrees(self.worktrees),
        ensures
            self.rebuilt(anchor).inv(),
    {
        let after = self.rebuilt(anchor);
        assert forall|ix: int|
            0 <= ix < self.worktrees.len() && (#[trigger] self.worktrees[ix]).snapshot@.len()
                > 0 implies after.expanded.contains_key(self.worktrees[ix].id) by {
            let found = worktree_index(self.worktrees, self.worktrees[ix].id).unwrap();
            assert(self.worktrees[found].id == self.worktrees[ix].id);
            assert(found == ix);
        }
        if after.active is Some {
            let active = after.active.unwrap();
            after.listing().lemma_position_of(active.worktree_id, active.entry_id);
        }
    }

    /// Making a row active keeps all that always holds.
    pub proof fn lemma_selected_inv(self, index: int)
        requires
            self.inv(),
        ensures
            self.selected(index).inv(),
    {
        match self.listing().entry_at(index) {
            Some((worktree_id, entry)) => {
                self.listing().lemma_position(index, worktree_id, entry.id);
            },
            None => {},
        }
    }
}

} // verus!
