//! What holds of the rows and of the active entry whatever the worktrees hold
//! and whatever was expanded and collapsed before.

use crate::expanded::toggled_set;
use crate::project::{are_worktrees, worktree_index, Worktree};
use crate::state::{
    ancestor_ids, nearest_expanded, roots_expanded, EntryDetailsView, Listing, PanelState,
};
use crate::tree::{
    descends, is_tree, lemma_above_is_dir, lemma_depth, lemma_parent, offset_of_id, parent_offset,
};
use crate::visible::{is_visible, lemma_visible_offsets, visible_below, visible_offsets};
use crate::worktree::Entry;
use crate::ProjectEntry;
use vstd::prelude::*;

verus! {

// Which entries are shown.

/// Where every entry before `upto` is shown, the shown offsets before `upto`
/// are all offsets before `upto`.
proof fn lemma_all_visible_below(entries: Seq<Entry>, expanded: Set<usize>, upto: int)
    requires
        0 <= upto <= entries.len(),
        forall|at: int| 0 <= at < upto ==> is_visible(entries, expanded, at),
    ensures
        visible_below(entries, expanded, upto) == Seq::new(upto as nat, |at: int| at as usize),
    decreases upto,
{
    if upto > 0 {
        lemma_all_visible_below(entries, expanded, upto - 1);
    }
    assert(visible_below(entries, expanded, upto) =~= Seq::new(
        upto as nat,
        |at: int| at as usize,
    ));
}

/// With every directory expanded, every entry of the tree is shown, each once
/// and in depth-first order.
pub proof fn law_all_expanded_shows_all(entries: Seq<Entry>, expanded: Set<usize>)
    requires
        is_tree(entries),
        forall|at: int|
            0 <= at < entries.len() && (#[trigger] entries[at]).is_dir ==> expanded.contains(
                entries[at].id,
            ),
    ensures
        visible_offsets(entries, expanded) == Seq::new(entries.len(), |at: int| at as usize),
{
    assert forall|at: int| 0 <= at < entries.len() implies is_visible(entries, expanded, at) by {
        assert forall|outer: int| #[trigger] descends(entries, outer, at) implies expanded.contains(
            entries[outer].id,
        ) by {
            lemma_above_is_dir(entries, outer, at);
        }
    }
    lemma_all_visible_below(entries, expanded, entries.len() as int);
}

/// Collapsing a directory hides what lies below it, and nothing else: the
/// directory itself stays as it was, and so does every entry outside its
/// subtree.
pub proof fn law_collapse_hides_subtree(entries: Seq<Entry>, expanded: Set<usize>, dir: int)
    requires
        is_tree(entries),
        entries.len() <= usize::MAX,
        0 <= dir < entries.len(),
    ensures
        forall|at: int|
            is_visible(entries, expanded.remove(entries[dir].id), at) <==> is_visible(
                entries,
                expanded,
                at,
            ) && !descends(entries, dir, at),
        forall|offset: usize| #[trigger]
            visible_offsets(entries, expanded.remove(entries[dir].id)).contains(offset) <==> {
                &&& visible_offsets(entries, expanded).contains(offset)
                &&& !descends(entries, dir, offset as int)
            },
        is_visible(entries, expanded.remove(entries[dir].id), dir) == is_visible(
            entries,
            expanded,
            dir,
        ),
{
    let fewer = expanded.remove(entries[dir].id);
    assert forall|at: int|
        is_visible(entries, fewer, at) <==> is_visible(entries, expanded, at) && !descends(
            entries,
            dir,
            at,
        ) by {
        if is_visible(entries, fewer, at) {
            assert forall|outer: int| #[trigger] descends(entries, outer, at) implies expanded.contains(
                entries[outer].id,
            ) by {
                assert(fewer.contains(entries[outer].id));
            }
            if descends(entries, dir, at) {
                assert(fewer.contains(entries[dir].id));
            }
        }
        if is_visible(entries, expanded, at) && !descends(entries, dir, at) {
            assert forall|outer: int| #[trigger] descends(entries, outer, at) implies fewer.contains(
                entries[outer].id,
            ) by {
                assert(expanded.contains(entries[outer].id));
                if outer < dir {
                    assert(entries[outer].id != entries[dir].id);
                }
                if dir < outer {
                    assert(entries[dir].id != entries[outer].id);
                }
            }
        }
    }
    lemma_visible_offsets(entries, expanded);
    lemma_visible_offsets(entries, fewer);
    assert forall|offset: usize| #[trigger]
        visible_offsets(entries, fewer).contains(offset) <==> {
            &&& visible_offsets(entries, expanded).contains(offset)
            &&& !descends(entries, dir, offset as int)
        } by {
        let at = offset as int;
        if visible_offsets(entries, fewer).contains(offset) {
            let i = choose|i: int|
                0 <= i < visible_offsets(entries, fewer).len() && visible_offsets(
                    entries,
                    fewer,
                )[i] == offset;
            assert(visible_offsets(entries, fewer)[i] < entries.len());
        }
        if visible_offsets(entries, expanded).contains(offset) {
            let i = choose|i: int|
                0 <= i < visible_offsets(entries, expanded).len() && visible_offsets(
                    entries,
                    expanded,
                )[i] == offset;
            assert(visible_offsets(entries, expanded)[i] < entries.len());
        }
        if at < entries.len() {
            assert(is_visible(entries, fewer, at) <==> visible_offsets(entries, fewer).contains(
                at as usize,
            ));
            assert(is_visible(entries, expanded, at) <==> visible_offsets(
                entries,
                expanded,
            ).contains(at as usize));
        }
    }
}

// The rows.

/// The rows of an earlier worktree come before the rows of a later one,
/// whatever is expanded.
pub proof fn law_worktree_order(
    listing: Listing,
    first: int,
    first_row: int,
    second: int,
    second_row: int,
)
    requires
        0 <= first < second < listing.worktrees.len(),
        0 <= first_row < listing.visible(first).len(),
        0 <= second_row < listing.visible(second).len(),
    ensures
        listing.count_before(first) + first_row < listing.count_before(second) + second_row,
        listing.locate(listing.count_before(first) + first_row) == Some((first, first_row)),
        listing.locate(listing.count_before(second) + second_row) == Some((second, second_row)),
{
    listing.lemma_count_before_grows(first + 1, second);
    listing.lemma_locate(listing.count_before(first) + first_row, first, first_row);
    listing.lemma_locate(listing.count_before(second) + second_row, second, second_row);
}

/// Of two rows the later one never belongs to an earlier worktree.
pub proof fn law_rows_follow_worktrees(listing: Listing, earlier: int, later: int)
    requires
        0 <= earlier <= later < listing.total(),
    ensures
        listing.locate(earlier) is Some,
        listing.locate(later) is Some,
        listing.locate(earlier).unwrap().0 <= listing.locate(later).unwrap().0,
{
    listing.lemma_locate_some(earlier);
    listing.lemma_locate_some(later);
    let (first, first_row) = listing.locate(earlier).unwrap();
    let (second, second_row) = listing.locate(later).unwrap();
    if second < first {
        law_worktree_order(listing, second, second_row, first, first_row);
    }
}

/// No two rows show the same entry.
pub proof fn law_rows_differ(state: PanelState, one: int, other: int)
    requires
        are_worktrees(state.worktrees),
        0 <= one < other < state.listing().total(),
    ensures
        state.row(one).0 != state.row(other).0,
{
    let listing = state.listing();
    listing.lemma_locate_some(one);
    listing.lemma_locate_some(other);
    let (ix, local) = listing.locate(one).unwrap();
    let entry = state.row(one).0;
    if state.row(one).0 == state.row(other).0 {
        listing.lemma_count_before(ix);
        let worktree_id = state.worktrees[ix].id;
        assert(listing.locate(other).unwrap().0 as usize == ix as usize);
        assert(listing.locate(other).unwrap().0 == ix);
        assert(listing.shows_at(one, worktree_id, entry.entry_id));
        assert(listing.shows_at(other, worktree_id, entry.entry_id));
        listing.lemma_position(one, worktree_id, entry.entry_id);
        listing.lemma_position(other, worktree_id, entry.entry_id);
    }
}

/// The rows of a range are the rows of its first part followed by the rows
/// of the rest.
pub proof fn law_rows_split(state: PanelState, start: int, mid: int, end: int)
    requires
        0 <= start <= mid <= end,
    ensures
        state.rows(start, mid) + state.rows(mid, end) == state.rows(start, end),
{
    state.listing().lemma_count_before_grows(0, state.worktrees.len() as int);
    assert(state.rows(start, mid) + state.rows(mid, end) =~= state.rows(start, end));
}

/// The rows of the ranges between successive cuts, from the first cut up to
/// the cut at position `upto`, one range after the other.
pub open spec fn rows_between(state: PanelState, cuts: Seq<int>, upto: int) -> Seq<
    (ProjectEntry, EntryDetailsView),
>
    decreases upto,
{
    if upto <= 0 {
        Seq::empty()
    } else {
        rows_between(state, cuts, upto - 1) + state.rows(cuts[upto - 1], cuts[upto])
    }
}

/// However a range is cut into successive ranges, their rows one after the
/// other are the rows of the whole range.
pub proof fn law_windows(state: PanelState, cuts: Seq<int>, upto: int)
    requires
        0 <= upto < cuts.len(),
        0 <= cuts[0],
        forall|i: int, j: int| 0 <= i <= j < cuts.len() ==> cuts[i] <= cuts[j],
    ensures
        rows_between(state, cuts, upto) == state.rows(cuts[0], cuts[upto]),
    decreases upto,
{
    if upto > 0 {
        law_windows(state, cuts, upto - 1);
        law_rows_split(state, cuts[0], cuts[upto - 1], cuts[upto]);
    } else {
        state.listing().lemma_count_before_grows(0, state.worktrees.len() as int);
        assert(state.rows(cuts[0], cuts[0]) =~= Seq::empty());
    }
}

/// Where every directory of a worktree is expanded, the rows of that worktree
/// show its entries, each once and in depth-first order.
pub proof fn law_flattening(state: PanelState, ix: int)
    requires
        are_worktrees(state.worktrees),
        0 <= ix < state.worktrees.len(),
        forall|dir: int|
            0 <= dir < state.worktrees[ix].snapshot@.len() && (
            #[trigger] state.worktrees[ix].snapshot@[dir]).is_dir
                ==> state.listing().expanded_in(state.worktrees[ix].id).contains(
                state.worktrees[ix].snapshot@[dir].id,
            ),
    ensures
        state.listing().visible(ix).len() == state.worktrees[ix].snapshot@.len(),
        state.rows(state.listing().count_before(ix), state.listing().count_before(ix + 1))
            == Seq::new(
            state.worktrees[ix].snapshot@.len(),
            |at: int|
                (
                    ProjectEntry {
                        worktree_ix: ix as usize,
                        entry_id: state.worktrees[ix].snapshot@[at].id,
                    },
                    state.details_of(ix, at),
                ),
        ),
{
    let listing = state.listing();
    let snapshot = state.worktrees[ix].snapshot;
    snapshot.lemma_is_tree();
    listing.lemma_count_before(ix);
    listing.lemma_count_before(ix + 1);
    law_all_expanded_shows_all(snapshot@, listing.expanded_in(state.worktrees[ix].id));
    let rows = state.rows(listing.count_before(ix), listing.count_before(ix + 1));
    assert(rows.len() == snapshot@.len());
    assert forall|at: int| 0 <= at < snapshot@.len() implies rows[at] == (
        ProjectEntry { worktree_ix: ix as usize, entry_id: snapshot@[at].id },
        state.details_of(ix, at),
    ) by {
        listing.lemma_locate(listing.count_before(ix) + at, ix, at);
        assert(rows[at] == state.row(listing.count_before(ix) + at));
    }
    assert(rows =~= Seq::new(
        snapshot@.len(),
        |at: int|
            (
                ProjectEntry { worktree_ix: ix as usize, entry_id: snapshot@[at].id },
                state.details_of(ix, at),
            ),
    ));
}

// The expanded directories.

/// Where every worktree that has entries has an expansion state, a rebuild
/// expands nothing.
pub proof fn lemma_roots_expanded_same(worktrees: Seq<Worktree>, expanded: Map<usize, Set<usize>>)
    requires
        forall|ix: int|
            0 <= ix < worktrees.len() && (#[trigger] worktrees[ix]).snapshot@.len() > 0
                ==> expanded.contains_key(worktrees[ix].id),
    ensures
        roots_expanded(worktrees, expanded) == expanded,
{
    assert forall|id: usize| roots_expanded(worktrees, expanded).contains_key(id)
        implies expanded.contains_key(id) by {
        if !expanded.contains_key(id) {
            let ix = worktree_index(worktrees, id).unwrap();
            assert(worktrees[ix].id == id);
        }
    }
    assert(roots_expanded(worktrees, expanded) =~= expanded);
}

/// Finding the rows anew when nothing has changed changes nothing.
pub proof fn law_rebuild_again(state: PanelState)
    requires
        state.inv(),
    ensures
        state.rebuilt(None) == state,
{
    lemma_roots_expanded_same(state.worktrees, state.expanded);
}

/// Toggling an entry twice leaves the worktrees, the expanded directories and
/// with them the shown offsets of every worktree as they were.
pub proof fn law_toggle_twice(state: PanelState, entry: ProjectEntry)
    requires
        state.inv(),
    ensures
        state.toggle_expanded(entry).toggle_expanded(entry).worktrees == state.worktrees,
        state.toggle_expanded(entry).toggle_expanded(entry).expanded == state.expanded,
        state.toggle_expanded(entry).toggle_expanded(entry).listing() == state.listing(),
        forall|ix: int|
            state.toggle_expanded(entry).toggle_expanded(entry).listing().visible(ix)
                == state.listing().visible(ix),
{
    if entry.worktree_ix < state.worktrees.len() && state.expanded.contains_key(
        state.worktrees[entry.worktree_ix as int].id,
    ) {
        let worktree_id = state.worktrees[entry.worktree_ix as int].id;
        let ids = state.expanded[worktree_id];
        let once = state.expanded.insert(worktree_id, toggled_set(ids, entry.entry_id));
        lemma_roots_expanded_same(state.worktrees, once);
        let twice = once.insert(worktree_id, toggled_set(once[worktree_id], entry.entry_id));
        lemma_roots_expanded_same(state.worktrees, twice);
        assert(toggled_set(toggled_set(ids, entry.entry_id), entry.entry_id) =~= ids);
        assert(twice =~= state.expanded);
    }
}

/// Whether the entry at `other` is on the way from the root to the entry at
/// `at`: it is that entry or one that it lies below.
pub open spec fn is_on_way(entries: Seq<Entry>, other: int, at: int) -> bool {
    other == at || descends(entries, other, at)
}

/// What `nearest_expanded` finds is expanded and on the way from the root to
/// the entry, and nothing expanded on that way is nearer to the entry; it
/// finds nothing only where nothing on that way is expanded.
pub proof fn law_nearest_expanded(entries: Seq<Entry>, expanded: Set<usize>, at: int)
    requires
        is_tree(entries),
        0 <= at < entries.len(),
    ensures
        match nearest_expanded(entries, expanded, at) {
            Some(found) => {
                &&& is_on_way(entries, found, at)
                &&& expanded.contains(entries[found].id)
                &&& forall|other: int| #[trigger]
                    is_on_way(entries, other, at) && expanded.contains(entries[other].id)
                        ==> other <= found
            },
            None => forall|other: int| #[trigger]
                is_on_way(entries, other, at) ==> !expanded.contains(entries[other].id),
        },
    decreases entries[at].depth(),
{
    lemma_depth(entries, at);
    if !expanded.contains(entries[at].id) && at > 0 {
        lemma_parent(entries, at);
        let parent = parent_offset(entries, at).unwrap();
        law_nearest_expanded(entries, expanded, parent);
        assert forall|other: int| #[trigger]
            is_on_way(entries, other, at) && other != at implies is_on_way(entries, other, parent) by {
            assert(descends(entries, other, at));
        }
        assert forall|other: int| #[trigger] is_on_way(entries, other, parent) implies is_on_way(
            entries,
            other,
            at,
        ) by {
            if other != parent {
                assert(descends(entries, other, parent));
            }
        }
    }
}

// The active entry.

/// An entry that is shown has a row.
pub proof fn lemma_shown_has_row(listing: Listing, ix: int, at: int)
    requires
        are_worktrees(listing.worktrees),
        0 <= ix < listing.worktrees.len(),
        is_visible(
            listing.worktrees[ix].snapshot@,
            listing.expanded_in(listing.worktrees[ix].id),
            at,
        ),
    ensures
        listing.position_of(listing.worktrees[ix].id, listing.worktrees[ix].snapshot@[at].id)
            is Some,
{
    let entries = listing.worktrees[ix].snapshot@;
    listing.lemma_count_before(ix);
    lemma_visible_offsets(entries, listing.expanded_in(listing.worktrees[ix].id));
    let offsets = listing.visible(ix);
    let local = choose|local: int| 0 <= local < offsets.len() && offsets[local] == at as usize;
    let index = listing.count_before(ix) + local;
    listing.lemma_locate(index, ix, local);
    assert(listing.shows_at(index, listing.worktrees[ix].id, entries[at].id));
}

/// An entry that has a row is shown.
pub proof fn lemma_row_is_shown(listing: Listing, worktree_id: usize, entry_id: usize)
    requires
        are_worktrees(listing.worktrees),
        listing.position_of(worktree_id, entry_id) is Some,
    ensures
        worktree_index(listing.worktrees, worktree_id) is Some,
        offset_of_id(
            listing.worktrees[worktree_index(listing.worktrees, worktree_id).unwrap()].snapshot@,
            entry_id,
        ) is Some,
        is_visible(
            listing.worktrees[worktree_index(listing.worktrees, worktree_id).unwrap()].snapshot@,
            listing.expanded_in(worktree_id),
            offset_of_id(
                listing.worktrees[worktree_index(listing.worktrees, worktree_id).unwrap()].snapshot@,
                entry_id,
            ).unwrap(),
        ),
{
    listing.lemma_position_of(worktree_id, entry_id);
    let index = listing.position_of(worktree_id, entry_id).unwrap();
    listing.lemma_located(index);
    let (ix, local) = listing.locate(index).unwrap();
    let found = worktree_index(listing.worktrees, worktree_id).unwrap();
    assert(listing.worktrees[ix].id == worktree_id);
    assert(listing.worktrees[found].id == listing.worktrees[ix].id);
    assert(found == ix);
    let entries = listing.worktrees[ix].snapshot@;
    listing.worktrees[ix].snapshot.lemma_is_tree();
    listing.lemma_count_before(ix);
    lemma_visible_offsets(entries, listing.expanded_in(worktree_id));
    let at = listing.visible(ix)[local] as int;
    assert(listing.visible(ix).contains(at as usize));
    assert(entries[at].id == entry_id);
    let other = offset_of_id(entries, entry_id).unwrap();
    assert(entries[other].id == entries[at].id);
    assert(other == at);
}

/// Whether the entry `entry_id` of the worktree at position `worktree_ix`
/// lies above the active entry.
pub open spec fn is_above_active(state: PanelState, entry: ProjectEntry) -> bool {
    &&& state.active is Some
    &&& entry.worktree_ix < state.worktrees.len()
    &&& state.worktrees[entry.worktree_ix as int].id == state.active.unwrap().worktree_id
    &&& exists|outer: int, inner: int| #[trigger]
        descends(state.worktrees[entry.worktree_ix as int].snapshot@, outer, inner)
            && state.worktrees[entry.worktree_ix as int].snapshot@[outer].id == entry.entry_id
            && state.worktrees[entry.worktree_ix as int].snapshot@[inner].id
            == state.active.unwrap().entry_id
}

/// Toggling an entry that does not lie above the active entry, and that is
/// not shown afterwards unless it is the active entry itself, leaves the
/// same entry active.
pub proof fn law_toggle_keeps_active(state: PanelState, entry: ProjectEntry)
    requires
        state.inv(),
        state.active is Some,
        !is_above_active(state, entry),
        entry.worktree_ix < state.worktrees.len() ==> {
            ||| state.toggle_expanded(entry).listing().position_of(
                state.worktrees[entry.worktree_ix as int].id,
                entry.entry_id,
            ) is None
            ||| (state.worktrees[entry.worktree_ix as int].id == state.active.unwrap().worktree_id
                && entry.entry_id == state.active.unwrap().entry_id)
        },
    ensures
        state.toggle_expanded(entry).active is Some,
        state.toggle_expanded(entry).active.unwrap().worktree_id
            == state.active.unwrap().worktree_id,
        state.toggle_expanded(entry).active.unwrap().entry_id == state.active.unwrap().entry_id,
{
    let active = state.active.unwrap();
    if entry.worktree_ix < state.worktrees.len() && state.expanded.contains_key(
        state.worktrees[entry.worktree_ix as int].id,
    ) {
        let worktree_id = state.worktrees[entry.worktree_ix as int].id;
        let ids = state.expanded[worktree_id];
        let toggled = state.expanded.insert(worktree_id, toggled_set(ids, entry.entry_id));
        lemma_roots_expanded_same(state.worktrees, toggled);
        let after = state.toggle_expanded(entry);
        let before = state.listing();
        let listing = after.listing();
        assert(listing == Listing { worktrees: state.worktrees, expanded: toggled });
        lemma_row_is_shown(before, active.worktree_id, active.entry_id);
        let ix = worktree_index(state.worktrees, active.worktree_id).unwrap();
        let entries = state.worktrees[ix].snapshot@;
        let at = offset_of_id(entries, active.entry_id).unwrap();
        state.worktrees[ix].snapshot.lemma_is_tree();
        assert(state.worktrees[ix].id == active.worktree_id);
        if active.worktree_id == worktree_id {
            assert(state.worktrees[ix].id == state.worktrees[entry.worktree_ix as int].id);
            assert(ix == entry.worktree_ix);
            assert forall|outer: int| #[trigger] descends(entries, outer, at) implies toggled_set(
                ids,
                entry.entry_id,
            ).contains(entries[outer].id) by {
                assert(ids.contains(entries[outer].id));
                if entries[outer].id == entry.entry_id {
                    assert(descends(entries, outer, at) && entries[outer].id == entry.entry_id
                        && entries[at].id == active.entry_id);
                }
            }
        }
        assert(is_visible(entries, listing.expanded_in(active.worktree_id), at));
        lemma_shown_has_row(listing, ix, at);
    }
}

/// Taking note of an entry that the worktrees do not hold changes nothing.
pub proof fn law_missing_entry_changes_nothing(
    state: PanelState,
    worktree_id: usize,
    entry_id: usize,
)
    requires
        state.inv(),
        worktree_index(state.worktrees, worktree_id) is None || offset_of_id(
            state.worktrees[worktree_index(state.worktrees, worktree_id).unwrap()].snapshot@,
            entry_id,
        ) is None,
    ensures
        state.active_entry_changed(worktree_id, entry_id) == state,
{
    lemma_roots_expanded_same(state.worktrees, state.expanded);
    let listing = state.listing();
    if listing.position_of(worktree_id, entry_id) is Some {
        lemma_row_is_shown(listing, worktree_id, entry_id);
    }
}

/// After an entry of a worktree has become the one that the user works on,
/// it is the active entry.
pub proof fn law_changed_entry_is_active(state: PanelState, worktree_id: usize, entry_id: usize)
    requires
        state.inv(),
        worktree_index(state.worktrees, worktree_id) is Some,
        offset_of_id(
            state.worktrees[worktree_index(state.worktrees, worktree_id).unwrap()].snapshot@,
            entry_id,
        ) is Some,
    ensures
        state.active_entry_changed(worktree_id, entry_id).active is Some,
        state.active_entry_changed(worktree_id, entry_id).active.unwrap().worktree_id
            == worktree_id,
        state.active_entry_changed(worktree_id, entry_id).active.unwrap().entry_id == entry_id,
{
    let ix = worktree_index(state.worktrees, worktree_id).unwrap();
    let entries = state.worktrees[ix].snapshot@;
    let at = offset_of_id(entries, entry_id).unwrap();
    assert(state.worktrees[ix].id == worktree_id);
    assert(state.expanded.contains_key(worktree_id));
    let grown = state.expand_entry(worktree_id, entry_id);
    lemma_roots_expanded_same(state.worktrees, grown);
    let after = state.active_entry_changed(worktree_id, entry_id);
    let listing = after.listing();
    assert(listing == Listing { worktrees: state.worktrees, expanded: grown });
    assert forall|outer: int| #[trigger] descends(entries, outer, at) implies listing.expanded_in(
        worktree_id,
    ).contains(entries[outer].id) by {
        assert(ancestor_ids(entries, at).contains(entries[outer].id));
    }
    lemma_shown_has_row(listing, ix, at);
}

} // verus!
