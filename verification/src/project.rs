//! The worktrees that the panel shows, in the order in which it shows them.

use crate::worktree::Snapshot;
use vstd::prelude::*;

verus! {

/// One file tree of the project: an id that stays the same while the tree
/// changes, and the tree's entries as they were last seen.
pub struct Worktree {
    pub id: usize,
    pub snapshot: Snapshot,
}

/// How many entries the first `upto` worktrees hold together.
pub open spec fn entries_before(worktrees: Seq<Worktree>, upto: int) -> int
    decreases upto,
{
    if upto <= 0 {
        0
    } else {
        entries_before(worktrees, upto - 1) + worktrees[upto - 1].snapshot@.len()
    }
}

/// The position of the worktree with this id, if there is one.
pub open spec fn worktree_index(worktrees: Seq<Worktree>, id: usize) -> Option<int> {
    if exists|ix: int| 0 <= ix < worktrees.len() && (#[trigger] worktrees[ix]).id == id {
        Some(choose|ix: int| 0 <= ix < worktrees.len() && (#[trigger] worktrees[ix]).id == id)
    } else {
        None
    }
}

/// Every snapshot is valid, no id occurs twice, and the worktrees and the
/// entries of all worktrees together can be counted.
pub open spec fn are_worktrees(worktrees: Seq<Worktree>) -> bool {
    &&& worktrees.len() <= usize::MAX
    &&& forall|ix: int| 0 <= ix < worktrees.len() ==> (#[trigger] worktrees[ix]).snapshot.wf()
    &&& forall|i: int, j: int|
        0 <= i < j < worktrees.len() ==> (#[trigger] worktrees[i]).id != (#[trigger] worktrees[j]).id
    &&& entries_before(worktrees, worktrees.len() as int) <= usize::MAX
}

/// The count of entries grows with the number of worktrees counted.
pub proof fn lemma_entries_before_grows(worktrees: Seq<Worktree>, fewer: int, more: int)
    requires
        0 <= fewer <= more,
    ensures
        0 <= entries_before(worktrees, fewer) <= entries_before(worktrees, more),
    decreases more,
{
    if fewer < more {
        lemma_entries_before_grows(worktrees, fewer, more - 1);
    } else if more > 0 {
        lemma_entries_before_grows(worktrees, fewer - 1, more - 1);
    }
}

/// Counting the entries of a prefix does not look at what follows it.
proof fn lemma_entries_before_prefix(a: Seq<Worktree>, b: Seq<Worktree>, upto: int)
    requires
        0 <= upto <= a.len(),
        upto <= b.len(),
        forall|ix: int| 0 <= ix < upto ==> a[ix] == b[ix],
    ensures
        entries_before(a, upto) == entries_before(b, upto),
    decreases upto,
{
    if upto > 0 {
        lemma_entries_before_prefix(a, b, upto - 1);
    }
}

/// Counting the entries without the worktree at `gone`.
proof fn lemma_entries_before_remove(worktrees: Seq<Worktree>, gone: int, upto: int)
    requires
        0 <= gone < worktrees.len(),
        0 <= upto <= worktrees.len() - 1,
    ensures
        entries_before(worktrees.remove(gone), upto) == (if upto <= gone {
            entries_before(worktrees, upto)
        } else {
            entries_before(worktrees, upto + 1) - worktrees[gone].snapshot@.len()
        }),
    decreases upto,
{
    if upto > 0 {
        lemma_entries_before_remove(worktrees, gone, upto - 1);
        assert(entries_before(worktrees, upto + 1) == entries_before(worktrees, upto)
            + worktrees[upto].snapshot@.len());
        assert(entries_before(worktrees, upto) == entries_before(worktrees, upto - 1)
            + worktrees[upto - 1].snapshot@.len());
        if upto - 1 >= gone {
            assert(worktrees.remove(gone)[upto - 1] == worktrees[upto]);
        } else {
            assert(worktrees.remove(gone)[upto - 1] == worktrees[upto - 1]);
        }
    }
}

/// The worktrees of a project.
pub struct Project {
    worktrees: Vec<Worktree>,
    entry_count: usize,
}

impl View for Project {
    type V = Seq<Worktree>;

    /// The worktrees in the order in which they were added.
    closed spec fn view(&self) -> Seq<Worktree> {
        self.worktrees@
    }
}

impl Project {
    /// The worktrees are valid and their entries are counted.
    pub closed spec fn wf(&self) -> bool {
        &&& are_worktrees(self.worktrees@)
        &&& self.entry_count == entries_before(self.worktrees@, self.worktrees.len() as int)
    }

    /// What a valid project holds.
    pub proof fn lemma_are_worktrees(&self)
        requires
            self.wf(),
        ensures
            are_worktrees(self@),
    {
    }

    /// A project without worktrees.
    pub fn new() -> (project: Project)
        ensures
            project.wf(),
            project@.len() == 0,
    {
        Project { worktrees: Vec::new(), entry_count: 0 }
    }

    /// The worktrees in the order in which they were added.
    pub fn worktrees(&self) -> (worktrees: &Vec<Worktree>)
        ensures
            worktrees@ == self@,
    {
        &self.worktrees
    }

    /// The position of the worktree with this id.
    pub fn index_for_id(&self, id: usize) -> (found: Option<usize>)
        requires
            self.wf(),
        ensures
            found is Some <==> worktree_index(self@, id) is Some,
            found is Some ==> found.unwrap() == worktree_index(self@, id).unwrap(),
            found is Some ==> found.unwrap() < self@.len() && self@[found.unwrap() as int].id == id,
    {
        let mut ix: usize = 0;
        while ix < self.worktrees.len()
            invariant
                self.wf(),
                ix <= self.worktrees.len(),
                forall|k: int| 0 <= k < ix ==> (#[trigger] self.worktrees@[k]).id != id,
            decreases self.worktrees.len() - ix,
        {
            if self.worktrees[ix].id == id {
                proof {
                    let other = worktree_index(self@, id).unwrap();
                    assert(self@[other].id == self@[ix as int].id);
                }
                return Some(ix);
            }
            ix += 1;
        }
        None
    }

    /// The worktree with this id.
    pub fn worktree_for_id(&self, id: usize) -> (found: Option<&Worktree>)
        requires
            self.wf(),
        ensures
            found is Some <==> worktree_index(self@, id) is Some,
            found is Some ==> *found.unwrap() == self@[worktree_index(self@, id).unwrap()],
            found is Some ==> found.unwrap().id == id,
    {
        match self.index_for_id(id) {
            Some(ix) => Some(&self.worktrees[ix]),
            None => None,
        }
    }

    /// Adds a worktree behind those that are there, and says whether it did.
    /// It does not where a worktree with this id is there already, or where
    /// the project would then hold more entries than a `usize` can count.
    pub fn add_worktree(&mut self, worktree: Worktree) -> (added: bool)
        requires
            old(self).wf(),
            worktree.snapshot.wf(),
        ensures
            final(self).wf(),
            added == (worktree_index(old(self)@, worktree.id) is None && entries_before(
                old(self)@,
                old(self)@.len() as int,
            ) + worktree.snapshot@.len() <= usize::MAX),
            final(self)@ == (if added {
                old(self)@.push(worktree)
            } else {
                old(self)@
            }),
    {
        if self.index_for_id(worktree.id).is_some() {
            return false;
        }
        let count: usize = worktree.snapshot.entry_count();
        if count > usize::MAX - self.entry_count {
            return false;
        }
        proof {
            lemma_entries_before_prefix(
                self.worktrees@,
                self.worktrees@.push(worktree),
                self.worktrees.len() as int,
            );
        }
        self.entry_count = self.entry_count + count;
        self.worktrees.push(worktree);
        assert(self.worktrees@.len() == self.worktrees.len());
        true
    }

    /// Takes the worktree with this id out of the project and returns it.
    pub fn remove_worktree(&mut self, id: usize) -> (removed: Option<Worktree>)
        requires
            old(self).wf(),
        ensures
            final(self).wf(),
            removed is Some <==> worktree_index(old(self)@, id) is Some,
            removed is Some ==> removed.unwrap() == old(self)@[worktree_index(
                old(self)@,
                id,
            ).unwrap()],
            final(self)@ == (match worktree_index(old(self)@, id) {
                Some(ix) => old(self)@.remove(ix),
                None => old(self)@,
            }),
    {
        match self.index_for_id(id) {
            Some(ix) => {
                proof {
                    lemma_entries_before_remove(
                        self.worktrees@,
                        ix as int,
                        self.worktrees.len() - 1,
                    );
                    lemma_entries_before_grows(self.worktrees@, ix as int, ix + 1);
                    lemma_entries_before_grows(
                        self.worktrees@,
                        ix + 1,
                        self.worktrees.len() as int,
                    );
                }
                let worktree = self.worktrees.remove(ix);
                self.entry_count = self.entry_count - worktree.snapshot.entry_count();
                Some(worktree)
            },
            None => None,
        }
    }
}

} // verus!
