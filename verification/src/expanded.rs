//! Which directories are expanded, worktree by worktree.
//!
//! Each worktree's expanded directories are kept as an ascending list of entry
//! ids without repeats, so that a lookup, an insertion and a removal are all
//! one binary search. Contracts speak of the list as a set.

use std::collections::HashMap;
use vstd::prelude::*;

verus! {

broadcast use vstd::std_specs::hash::group_hash_axioms;

/// Each element is smaller than every later one.
pub open spec fn strictly_ascending(ids: Seq<usize>) -> bool {
    forall|i: int, j: int| 0 <= i < j < ids.len() ==> ids[i] < ids[j]
}

/// Looks `id` up in an ascending list.
///
/// `Ok` carries the position of `id`; `Err` carries the one position at which
/// `id` can be inserted while the list stays ascending.
pub fn binary_search(ids: &Vec<usize>, id: usize) -> (found: Result<usize, usize>)
    requires
        strictly_ascending(ids@),
    ensures
        found is Ok <==> ids@.contains(id),
        match found {
            Ok(ix) => ix < ids.len() && ids[ix as int] == id,
            Err(ix) => {
                &&& ix <= ids.len()
                &&& forall|k: int| 0 <= k < ix ==> ids[k] < id
                &&& forall|k: int| ix <= k < ids.len() ==> id < ids[k]
            },
        },
{
    let mut low: usize = 0;
    let mut high: usize = ids.len();
    while low < high
        invariant
            low <= high <= ids.len(),
            strictly_ascending(ids@),
            forall|k: int| 0 <= k < low ==> ids[k] < id,
            forall|k: int| high <= k < ids.len() ==> id < ids[k],
        decreases high - low,
    {
        let mid: usize = low + (high - low) / 2;
        let probe: usize = ids[mid];
        if probe == id {
            return Ok(mid);
        } else if probe < id {
            low = mid + 1;
        } else {
            high = mid;
        }
    }
    Err(low)
}

/// Inserting into an ascending list at the position that `binary_search`
/// reports keeps it ascending and adds exactly the new id.
proof fn lemma_insert_ascending(ids: Seq<usize>, ix: int, id: usize)
    requires
        strictly_ascending(ids),
        0 <= ix <= ids.len(),
        forall|k: int| 0 <= k < ix ==> ids[k] < id,
        forall|k: int| ix <= k < ids.len() ==> id < ids[k],
    ensures
        strictly_ascending(ids.insert(ix, id)),
        ids.insert(ix, id).to_set() == ids.to_set().insert(id),
{
    let grown = ids.insert(ix, id);
    assert forall|x: usize| grown.to_set().contains(x) <==> ids.to_set().insert(id).contains(
        x,
    ) by {
        if grown.contains(x) {
            let k = choose|k: int| 0 <= k < grown.len() && grown[k] == x;
            if k < ix {
                assert(ids[k] == x);
            } else if k > ix {
                assert(ids[k - 1] == x);
            }
        }
        if ids.contains(x) {
            let k = choose|k: int| 0 <= k < ids.len() && ids[k] == x;
            if k < ix {
                assert(grown[k] == x);
            } else {
                assert(grown[k + 1] == x);
            }
        }
        if x == id {
            assert(grown[ix] == x);
        }
    }
    assert(grown.to_set() =~= ids.to_set().insert(id));
}

/// Removing one position from an ascending list keeps it ascending and takes
/// away exactly the id that stood there.
proof fn lemma_remove_ascending(ids: Seq<usize>, ix: int)
    requires
        strictly_ascending(ids),
        0 <= ix < ids.len(),
    ensures
        strictly_ascending(ids.remove(ix)),
        ids.remove(ix).to_set() == ids.to_set().remove(ids[ix]),
{
    let shrunk = ids.remove(ix);
    assert forall|x: usize| shrunk.to_set().contains(x) <==> ids.to_set().remove(
        ids[ix],
    ).contains(x) by {
        if shrunk.contains(x) {
            let k = choose|k: int| 0 <= k < shrunk.len() && shrunk[k] == x;
            if k < ix {
                assert(ids[k] == x);
            } else {
                assert(ids[k + 1] == x);
            }
        }
        if ids.contains(x) && x != ids[ix] {
            let k = choose|k: int| 0 <= k < ids.len() && ids[k] == x;
            if k < ix {
                assert(shrunk[k] == x);
            } else {
                assert(shrunk[k - 1] == x);
            }
        }
    }
    assert(shrunk.to_set() =~= ids.to_set().remove(ids[ix]));
}

/// The expanded directories of every worktree the panel has seen.
pub struct ExpandedDirIds {
    by_worktree: HashMap<usize, Vec<usize>>,
}

/// The set that a toggle of `id` makes of `ids`.
pub open spec fn toggled_set(ids: Set<usize>, id: usize) -> Set<usize> {
    if ids.contains(id) {
        ids.remove(id)
    } else {
        ids.insert(id)
    }
}

impl View for ExpandedDirIds {
    type V = Map<usize, Set<usize>>;

    /// The worktrees that have an expansion state, each with its expanded ids.
    closed spec fn view(&self) -> Map<usize, Set<usize>> {
        Map::new(
            |worktree_id: usize| self.by_worktree@.contains_key(worktree_id),
            |worktree_id: usize| self.by_worktree@[worktree_id]@.to_set(),
        )
    }
}

impl ExpandedDirIds {
    /// Every list is ascending.
    pub closed spec fn wf(&self) -> bool {
        forall|worktree_id: usize| #[trigger]
            self.by_worktree@.contains_key(worktree_id) ==> strictly_ascending(
                self.by_worktree@[worktree_id]@,
            )
    }

    /// A store that knows no worktree.
    pub fn new() -> (store: Self)
        ensures
            store.wf(),
            store@ == Map::<usize, Set<usize>>::empty(),
    {
        let store = ExpandedDirIds { by_worktree: HashMap::new() };
        assert(store@ =~= Map::<usize, Set<usize>>::empty());
        store
    }

    /// Whether the store holds an expansion state for the worktree.
    pub fn knows_worktree(&self, worktree_id: usize) -> (known: bool)
        requires
            self.wf(),
        ensures
            known == self@.contains_key(worktree_id),
    {
        self.by_worktree.contains_key(&worktree_id)
    }

    /// The expanded ids of the worktree in ascending order, if the store holds
    /// an expansion state for it.
    pub fn ids(&self, worktree_id: usize) -> (ids: Option<&Vec<usize>>)
        requires
            self.wf(),
        ensures
            ids is Some <==> self@.contains_key(worktree_id),
            ids is Some ==> strictly_ascending(ids.unwrap()@) && ids.unwrap()@.to_set()
                == self@[worktree_id],
    {
        self.by_worktree.get(&worktree_id)
    }

    /// Whether `id` is expanded. In a worktree the store does not know nothing
    /// is expanded.
    pub fn is_expanded(&self, worktree_id: usize, id: usize) -> (expanded: bool)
        requires
            self.wf(),
        ensures
            expanded == (self@.contains_key(worktree_id) && self@[worktree_id].contains(id)),
    {
        match self.by_worktree.get(&worktree_id) {
            Some(ids) => binary_search(ids, id).is_ok(),
            None => false,
        }
    }

    /// Gives the worktree an expansion state that holds `ids` alone, replacing
    /// any state it had.
    pub fn set_worktree(&mut self, worktree_id: usize, ids: Vec<usize>)
        requires
            old(self).wf(),
            strictly_ascending(ids@),
        ensures
            final(self).wf(),
            final(self)@ == old(self)@.insert(worktree_id, ids@.to_set()),
    {
        self.by_worktree.insert(worktree_id, ids);
        assert(self@ =~= old(self)@.insert(worktree_id, ids@.to_set()));
    }

    /// Forgets the worktree's expansion state.
    pub fn remove_worktree(&mut self, worktree_id: usize)
        requires
            old(self).wf(),
        ensures
            final(self).wf(),
            final(self)@ == old(self)@.remove(worktree_id),
    {
        self.by_worktree.remove(&worktree_id);
        assert(self@ =~= old(self)@.remove(worktree_id));
    }

    /// Expands `id` if it is collapsed and collapses it if it is expanded, and
    /// returns whether it is expanded afterwards. In a worktree the store does
    /// not know nothing changes and the answer is `false`.
    pub fn toggle(&mut self, worktree_id: usize, id: usize) -> (expanded: bool)
        requires
            old(self).wf(),
        ensures
            final(self).wf(),
            final(self)@ == (if old(self)@.contains_key(worktree_id) {
                old(self)@.insert(worktree_id, toggled_set(old(self)@[worktree_id], id))
            } else {
                old(self)@
            }),
            expanded == (old(self)@.contains_key(worktree_id) && !old(self)@[worktree_id].contains(
                id,
            )),
    {
        match self.by_worktree.remove(&worktree_id) {
            Some(ids) => {
                let mut ids = ids;
                let expanded = match binary_search(&ids, id) {
                    Ok(ix) => {
                        proof {
                            lemma_remove_ascending(ids@, ix as int);
                        }
                        ids.remove(ix);
                        false
                    },
                    Err(ix) => {
                        proof {
                            lemma_insert_ascending(ids@, ix as int, id);
                        }
                        ids.insert(ix, id);
                        true
                    },
                };
                self.by_worktree.insert(worktree_id, ids);
                assert(self@ =~= old(self)@.insert(
                    worktree_id,
                    toggled_set(old(self)@[worktree_id], id),
                ));
                expanded
            },
            None => {
                assert(self@ =~= old(self)@);
                false
            },
        }
    }

    /// Expands `id`; nothing changes if it is expanded already or the store
    /// does not know the worktree.
    pub fn expand(&mut self, worktree_id: usize, id: usize)
        requires
            old(self).wf(),
        ensures
            final(self).wf(),
            final(self)@ == (if old(self)@.contains_key(worktree_id) {
                old(self)@.insert(worktree_id, old(self)@[worktree_id].insert(id))
            } else {
                old(self)@
            }),
    {
        match self.by_worktree.remove(&worktree_id) {
            Some(ids) => {
                let mut ids = ids;
                match binary_search(&ids, id) {
                    Ok(_) => {
                        assert(ids@.to_set().insert(id) =~= ids@.to_set());
                    },
                    Err(ix) => {
                        proof {
                            lemma_insert_ascending(ids@, ix as int, id);
                        }
                        ids.insert(ix, id);
                    },
                }
                self.by_worktree.insert(worktree_id, ids);
                assert(self@ =~= old(self)@.insert(
                    worktree_id,
                    old(self)@[worktree_id].insert(id),
                ));
            },
            None => {
                assert(self@ =~= old(self)@);
            },
        }
    }

    /// Collapses `id`; nothing changes if it is collapsed already or the store
    /// does not know the worktree.
    pub fn collapse(&mut self, worktree_id: usize, id: usize)
        requires
            old(self).wf(),
        ensures
            final(self).wf(),
            final(self)@ == (if old(self)@.contains_key(worktree_id) {
                old(self)@.insert(worktree_id, old(self)@[worktree_id].remove(id))
            } else {
                old(self)@
            }),
    {
        match self.by_worktree.remove(&worktree_id) {
            Some(ids) => {
                let mut ids = ids;
                match binary_search(&ids, id) {
                    Ok(ix) => {
                        proof {
                            lemma_remove_ascending(ids@, ix as int);
                        }
                        ids.remove(ix);
                    },
                    Err(_) => {
                        assert(ids@.to_set().remove(id) =~= ids@.to_set());
                    },
                }
                self.by_worktree.insert(worktree_id, ids);
                assert(self@ =~= old(self)@.insert(
                    worktree_id,
                    old(self)@[worktree_id].remove(id),
                ));
            },
            None => {
                assert(self@ =~= old(self)@);
            },
        }
    }
}

} // verus!
