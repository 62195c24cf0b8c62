//! What it means for a list of entries to be a tree in depth-first order,
//! and what follows from it.
//!
//! An entry's place in the tree is read off its path: the root has the empty
//! path, and every other entry follows, directly or after the subtrees of its
//! elder siblings, the entry whose path is its own without the last name.

use crate::worktree::Entry;
use vstd::prelude::*;

verus! {

/// A path as the sequence of its names.
pub open spec fn segments(path: Seq<String>) -> Seq<Seq<char>> {
    Seq::new(path.len(), |k: int| path[k]@)
}

/// Whether the entry at `inner` lies in the subtree below the entry at `outer`:
/// it comes later, and every entry from just after `outer` up to it is deeper
/// than `outer`.
pub open spec fn descends(entries: Seq<Entry>, outer: int, inner: int) -> bool {
    &&& 0 <= outer < inner < entries.len()
    &&& forall|k: int| outer < k <= inner ==> entries[outer].depth() < (#[trigger] entries[k]).depth()
}

/// The first offset from `from` on whose entry is at most `depth` deep, or the
/// number of entries if there is none.
pub open spec fn first_at_most(entries: Seq<Entry>, depth: nat, from: int) -> int
    decreases entries.len() - from,
{
    if from < 0 || from >= entries.len() {
        entries.len() as int
    } else if entries[from].depth() <= depth {
        from
    } else {
        first_at_most(entries, depth, from + 1)
    }
}

/// The offset just past the subtree of the entry at `at`: that of its next
/// sibling, or of the next sibling of its nearest ancestor that has one, or the
/// number of entries.
pub open spec fn subtree_end(entries: Seq<Entry>, at: int) -> int {
    first_at_most(entries, entries[at].depth(), at + 1)
}

/// What must hold between an entry and the one before it: it is a child of
/// that one, which then is a directory, or of one of the entries on the way
/// from the root to that one.
pub open spec fn follows(prev: Entry, next: Entry) -> bool {
    &&& 1 <= next.depth() <= prev.depth() + 1
    &&& forall|k: int| 0 <= k < next.depth() - 1 ==> next.path@[k]@ == prev.path@[k]@
    &&& next.depth() == prev.depth() + 1 ==> prev.is_dir
}

/// What must hold of the entry at `at` and its predecessor.
pub open spec fn in_order(entries: Seq<Entry>, at: int) -> bool {
    follows(entries[at - 1], entries[at])
}

/// The first entry is the root, and each later one is a child of the one
/// before it or of one of that one's ancestors.
pub open spec fn is_ordered(entries: Seq<Entry>) -> bool {
    &&& entries.len() > 0 ==> entries[0].depth() == 0
    &&& forall|at: int| 1 <= at < entries.len() ==> #[trigger] in_order(entries, at)
}

/// No id occurs twice.
pub open spec fn has_distinct_ids(entries: Seq<Entry>) -> bool {
    forall|i: int, j: int|
        0 <= i < j < entries.len() ==> (#[trigger] entries[i]).id != (#[trigger] entries[j]).id
}

/// No path occurs twice.
pub open spec fn has_distinct_paths(entries: Seq<Entry>) -> bool {
    forall|i: int, j: int|
        0 <= i < j < entries.len() ==> (#[trigger] entries[i]).segments()
            != (#[trigger] entries[j]).segments()
}

/// The entries list a tree in depth-first order: the first is the root, each
/// later one is a child of the one before it or of one of that one's
/// ancestors, only directories have children, and no id and no path occurs
/// twice.
pub open spec fn is_tree(entries: Seq<Entry>) -> bool {
    &&& is_ordered(entries)
    &&& has_distinct_ids(entries)
    &&& has_distinct_paths(entries)
}

/// The offset of the entry with this id, if there is one.
pub open spec fn offset_of_id(entries: Seq<Entry>, id: usize) -> Option<int> {
    if exists|at: int| 0 <= at < entries.len() && (#[trigger] entries[at]).id == id {
        Some(choose|at: int| 0 <= at < entries.len() && (#[trigger] entries[at]).id == id)
    } else {
        None
    }
}

/// The offset of the entry with this path, if there is one.
pub open spec fn offset_of_path(entries: Seq<Entry>, path: Seq<Seq<char>>) -> Option<int> {
    if exists|at: int| 0 <= at < entries.len() && (#[trigger] entries[at]).segments() == path {
        Some(choose|at: int| 0 <= at < entries.len() && (#[trigger] entries[at]).segments() == path)
    } else {
        None
    }
}

/// The offset of the parent of the entry at `at`: the entry whose path is the
/// path of `at` without its last name.
pub open spec fn parent_offset(entries: Seq<Entry>, at: int) -> Option<int> {
    if entries[at].depth() == 0 {
        None
    } else {
        offset_of_path(entries, entries[at].segments().drop_last())
    }
}

/// The entry at or before `at` that lies on the way from the root to `at` and
/// is `depth` deep; `at` itself where it is no deeper than that.
pub open spec fn ancestor_at(entries: Seq<Entry>, at: int, depth: nat) -> int
    decreases at,
{
    if at <= 0 || entries[at].depth() <= depth {
        at
    } else {
        ancestor_at(entries, at - 1, depth)
    }
}

/// `first_at_most` finds the first shallow entry and nothing before it.
pub proof fn lemma_first_at_most(entries: Seq<Entry>, depth: nat, from: int)
    requires
        0 <= from <= entries.len(),
    ensures
        from <= first_at_most(entries, depth, from) <= entries.len(),
        forall|k: int|
            from <= k < first_at_most(entries, depth, from) ==> depth < (#[trigger] entries[k]).depth(),
        first_at_most(entries, depth, from) < entries.len() ==> entries[first_at_most(
            entries,
            depth,
            from,
        )].depth() <= depth,
    decreases entries.len() - from,
{
    if from < entries.len() && entries[from].depth() > depth {
        lemma_first_at_most(entries, depth, from + 1);
    }
}

/// If every entry from `from` up to `to` is deeper than `depth`, and the one
/// at `to`, if there is one, is not, then `to` is what `first_at_most` finds.
pub proof fn lemma_first_at_most_is(entries: Seq<Entry>, depth: nat, from: int, to: int)
    requires
        0 <= from <= to <= entries.len(),
        forall|k: int| from <= k < to ==> depth < (#[trigger] entries[k]).depth(),
        to < entries.len() ==> entries[to].depth() <= depth,
    ensures
        first_at_most(entries, depth, from) == to,
    decreases to - from,
{
    if from < to {
        assert(depth < entries[from].depth());
        lemma_first_at_most_is(entries, depth, from + 1, to);
    }
}

/// The subtree of an entry is the entries between it and its `subtree_end`.
pub proof fn lemma_subtree_end(entries: Seq<Entry>, at: int)
    requires
        0 <= at < entries.len(),
    ensures
        at < subtree_end(entries, at) <= entries.len(),
        forall|k: int| descends(entries, at, k) <==> at < k < subtree_end(entries, at),
        subtree_end(entries, at) < entries.len() ==> entries[subtree_end(entries, at)].depth()
            <= entries[at].depth(),
{
    lemma_first_at_most(entries, entries[at].depth(), at + 1);
    let end = subtree_end(entries, at);
    assert forall|k: int| descends(entries, at, k) implies at < k < end by {
        if k >= end {
            assert(entries[end].depth() <= entries[at].depth());
        }
    }
}

/// Lying below is transitive.
pub proof fn lemma_descends_trans(entries: Seq<Entry>, a: int, b: int, c: int)
    requires
        descends(entries, a, b),
        descends(entries, b, c),
    ensures
        descends(entries, a, c),
{
    assert forall|k: int| a < k <= c implies entries[a].depth() < (#[trigger] entries[k]).depth() by {
        if k > b {
            assert(entries[b].depth() < entries[k].depth());
        }
    }
}

/// Only the root has the empty path.
pub proof fn lemma_depth(entries: Seq<Entry>, at: int)
    requires
        is_ordered(entries),
        0 <= at < entries.len(),
    ensures
        entries[at].depth() == 0 <==> at == 0,
{
    if at > 0 {
        assert(in_order(entries, at));
    }
}

/// What `ancestor_at` finds is on the way from the root to `at`, has the
/// depth asked for, and has the first names of the path of `at` as its path.
pub proof fn lemma_ancestor_at(entries: Seq<Entry>, at: int, depth: nat)
    requires
        is_ordered(entries),
        0 <= at < entries.len(),
        depth <= entries[at].depth(),
    ensures
        0 <= ancestor_at(entries, at, depth) <= at,
        entries[ancestor_at(entries, at, depth)].depth() == depth,
        entries[ancestor_at(entries, at, depth)].segments() == entries[at].segments().take(
            depth as int,
        ),
        depth < entries[at].depth() ==> descends(entries, ancestor_at(entries, at, depth), at),
        depth == entries[at].depth() ==> ancestor_at(entries, at, depth) == at,
    decreases at,
{
    lemma_depth(entries, at);
    if entries[at].depth() <= depth {
        assert(entries[at].segments().take(depth as int) =~= entries[at].segments());
    } else {
        assert(in_order(entries, at));
        lemma_ancestor_at(entries, at - 1, depth);
        let found = ancestor_at(entries, at - 1, depth);
        assert(entries[at - 1].segments().take(depth as int) =~= entries[at].segments().take(
            depth as int,
        ));
        assert forall|k: int| found < k <= at implies entries[found].depth() < (
        #[trigger] entries[k]).depth() by {
            if k < at {
                assert(descends(entries, found, at - 1));
            }
        }
    }
}

/// What lies below an entry has that entry's path as the beginning of its own.
pub proof fn lemma_below_shares_path(entries: Seq<Entry>, outer: int, inner: int)
    requires
        is_ordered(entries),
        descends(entries, outer, inner),
    ensures
        entries[inner].segments().take(entries[outer].depth() as int) == entries[outer].segments(),
    decreases inner - outer,
{
    let depth = entries[outer].depth() as int;
    assert(in_order(entries, inner));
    assert(entries[outer].depth() < entries[inner].depth());
    if inner == outer + 1 {
        assert(entries[inner].segments().take(depth) =~= entries[outer].segments());
    } else {
        assert(descends(entries, outer, inner - 1)) by {
            assert forall|k: int| outer < k <= inner - 1 implies entries[outer].depth() < (
            #[trigger] entries[k]).depth() by {}
        }
        lemma_below_shares_path(entries, outer, inner - 1);
        assert(entries[inner].segments().take(depth) =~= entries[inner - 1].segments().take(depth));
    }
}

/// In a tree every entry but the root has a parent, which is the nearest of
/// the entries that it lies below; the others are those that the parent lies
/// below.
pub proof fn lemma_parent(entries: Seq<Entry>, at: int)
    requires
        is_ordered(entries),
        has_distinct_paths(entries),
        0 < at < entries.len(),
    ensures
        parent_offset(entries, at) == Some(
            ancestor_at(entries, at, (entries[at].depth() - 1) as nat),
        ),
        descends(entries, parent_offset(entries, at).unwrap(), at),
        entries[parent_offset(entries, at).unwrap()].depth() + 1 == entries[at].depth(),
        forall|outer: int| #[trigger]
            descends(entries, outer, at) <==> outer == parent_offset(entries, at).unwrap()
                || descends(entries, outer, parent_offset(entries, at).unwrap()),
{
    lemma_depth(entries, at);
    let above = (entries[at].depth() - 1) as nat;
    lemma_ancestor_at(entries, at, above);
    let parent = ancestor_at(entries, at, above);
    assert(entries[at].segments().take(above as int) =~= entries[at].segments().drop_last());
    let path = entries[at].segments().drop_last();
    assert(entries[parent].segments() == path);
    let found = offset_of_path(entries, path).unwrap();
    assert(entries[found].segments() == entries[parent].segments());
    assert(found == parent);
    assert forall|outer: int| #[trigger]
        descends(entries, outer, at) <==> outer == parent || descends(
            entries,
            outer,
            parent,
        ) by {
        if descends(entries, outer, at) && outer != parent {
            if outer > parent {
                assert(entries[parent].depth() < entries[outer].depth());
                assert(entries[outer].depth() < entries[at].depth());
            }
            assert forall|k: int| outer < k <= parent implies entries[outer].depth() < (
            #[trigger] entries[k]).depth() by {}
        }
        if descends(entries, outer, parent) {
            lemma_descends_trans(entries, outer, parent, at);
        }
    }
}

/// Whatever has entries below it is a directory.
pub proof fn lemma_above_is_dir(entries: Seq<Entry>, outer: int, at: int)
    requires
        is_ordered(entries),
        descends(entries, outer, at),
    ensures
        entries[outer].is_dir,
{
    assert(in_order(entries, outer + 1));
    assert(entries[outer].depth() < entries[outer + 1].depth());
}

} // verus!
