//! The file tree that the panel shows: a snapshot of a worktree's entries in
//! depth-first order, and a cursor over it.
//!
//! The offset of an entry is its position in that order. A snapshot keeps,
//! beside the entries, where the subtree of each ends, where its parent is,
//! and where each id is, so that the cursor steps over a subtree and an entry
//! is found by its id without a walk.

use crate::tree::{
    ancestor_at, descends, follows, has_distinct_ids, has_distinct_paths, in_order, is_ordered,
    is_tree, lemma_ancestor_at, lemma_below_shares_path, lemma_depth, lemma_first_at_most_is,
    lemma_parent, lemma_subtree_end, offset_of_id, offset_of_path, segments, subtree_end,
};
use std::collections::HashMap;
use vstd::prelude::*;

verus! {

broadcast use vstd::std_specs::hash::group_hash_axioms;

/// One file or directory of a worktree.
#[derive(Debug)]
pub struct Entry {
    /// Names the entry within its worktree.
    pub id: usize,
    /// The names that lead from the worktree's root to the entry; empty for the
    /// root itself.
    pub path: Vec<String>,
    pub is_dir: bool,
}

impl Entry {
    /// How many names the path has.
    pub open spec fn depth(&self) -> nat {
        self.path@.len()
    }

    /// The path as the sequence of its names.
    pub open spec fn segments(&self) -> Seq<Seq<char>> {
        segments(self.path@)
    }
}

/// Whether the first `len` names of `path` are the path of `entry`.
fn is_path_of(entry: &Entry, path: &Vec<String>, len: usize) -> (same: bool)
    requires
        len <= path.len(),
    ensures
        same == (entry.segments() == segments(path@).take(len as int)),
{
    if entry.path.len() != len {
        assert(entry.segments().len() != segments(path@).take(len as int).len());
        return false;
    }
    let mut k: usize = 0;
    while k < len
        invariant
            k <= len <= path.len(),
            entry.path.len() == len,
            forall|m: int| 0 <= m < k ==> entry.path@[m]@ == path@[m]@,
        decreases len - k,
    {
        if entry.path[k] != path[k] {
            assert(entry.segments()[k as int] != segments(path@).take(len as int)[k as int]);
            return false;
        }
        k += 1;
    }
    assert(entry.segments() =~= segments(path@).take(len as int));
    true
}

/// Whether `next` may stand directly after `prev`.
fn may_follow(prev: &Entry, next: &Entry) -> (ok: bool)
    ensures
        ok == follows(*prev, *next),
{
    let depth: usize = next.path.len();
    if depth < 1 || depth - 1 > prev.path.len() {
        return false;
    }
    if depth - 1 == prev.path.len() && !prev.is_dir {
        return false;
    }
    let mut k: usize = 0;
    while k < depth - 1
        invariant
            1 <= depth == next.path.len(),
            depth - 1 <= prev.path.len(),
            k <= depth - 1,
            forall|m: int| 0 <= m < k ==> next.path@[m]@ == prev.path@[m]@,
        decreases depth - 1 - k,
    {
        if next.path[k] != prev.path[k] {
            return false;
        }
        k += 1;
    }
    true
}

/// Whether the first entry is the root and each later one may follow the one
/// before it.
fn check_order(entries: &Vec<Entry>) -> (ok: bool)
    ensures
        ok == is_ordered(entries@),
{
    if entries.len() == 0 {
        return true;
    }
    if entries[0].path.len() != 0 {
        return false;
    }
    let mut at: usize = 1;
    while at < entries.len()
        invariant
            1 <= at <= entries.len(),
            entries[0].depth() == 0,
            forall|k: int| 1 <= k < at ==> #[trigger] in_order(entries@, k),
        decreases entries.len() - at,
    {
        if !may_follow(&entries[at - 1], &entries[at]) {
            assert(!in_order(entries@, at as int));
            return false;
        }
        at += 1;
    }
    true
}

/// The table says for each offset where its subtree ends.
spec fn are_subtree_ends(ends: Seq<usize>, entries: Seq<Entry>) -> bool {
    &&& ends.len() == entries.len()
    &&& forall|at: int| 0 <= at < entries.len() ==> #[trigger] ends[at] == subtree_end(entries, at)
}

/// The table says for each offset but the first where its parent is.
spec fn are_parents(parents: Seq<usize>, entries: Seq<Entry>) -> bool {
    &&& parents.len() == entries.len()
    &&& forall|at: int|
        1 <= at < entries.len() ==> #[trigger] parents[at] == ancestor_at(
            entries,
            at,
            (entries[at].depth() - 1) as nat,
        )
}

/// The map says for each id where its entry is.
spec fn are_offsets(offsets: Map<usize, usize>, entries: Seq<Entry>) -> bool {
    &&& forall|at: int|
        0 <= at < entries.len() ==> offsets.contains_key((#[trigger] entries[at]).id)
            && offsets[entries[at].id] == at
    &&& forall|id: usize| #[trigger]
        offsets.contains_key(id) ==> offsets[id] < entries.len() && entries[offsets[id] as int].id
            == id
}

/// For each offset, the offset just past its subtree.
fn subtree_ends_of(entries: &Vec<Entry>) -> (ends: Vec<usize>)
    ensures
        are_subtree_ends(ends@, entries@),
{
    let count: usize = entries.len();
    let mut ends: Vec<usize> = vec![0usize; count];
    let mut at: usize = count;
    while at > 0
        invariant
            at <= count == entries.len() == ends.len(),
            forall|k: int| at <= k < count ==> #[trigger] ends[k] == subtree_end(entries@, k),
        decreases at,
    {
        at -= 1;
        let depth: usize = entries[at].path.len();
        let mut end: usize = at + 1;
        while end < count && entries[end].path.len() > depth
            invariant
                at < end <= count == entries.len() == ends.len(),
                depth == entries[at as int].depth(),
                forall|k: int| at < k < count ==> #[trigger] ends[k] == subtree_end(entries@, k),
                forall|k: int| at < k < end ==> depth < (#[trigger] entries[k]).depth(),
            decreases count - end,
        {
            proof {
                lemma_subtree_end(entries@, end as int);
                assert forall|k: int| at < k < ends[end as int] implies depth < (
                #[trigger] entries[k]).depth() by {
                    if k > end {
                        assert(descends(entries@, end as int, k));
                    }
                }
            }
            end = ends[end];
        }
        proof {
            lemma_first_at_most_is(entries@, depth as nat, at + 1, end as int);
        }
        ends.set(at, end);
    }
    ends
}

/// For each offset but the first, the offset of its parent.
fn parents_of(entries: &Vec<Entry>) -> (parents: Vec<usize>)
    requires
        is_ordered(entries@),
    ensures
        are_parents(parents@, entries@),
{
    let mut parents: Vec<usize> = Vec::new();
    // The entries on the way from the root to the entry before `at`, by depth.
    let mut way: Vec<usize> = Vec::new();
    let mut at: usize = 0;
    while at < entries.len()
        invariant
            is_ordered(entries@),
            at <= entries.len(),
            parents.len() == at,
            forall|k: int|
                1 <= k < at ==> #[trigger] parents[k] == ancestor_at(
                    entries@,
                    k,
                    (entries[k].depth() - 1) as nat,
                ),
            at == 0 ==> way.len() == 0,
            at > 0 ==> way.len() == entries[at - 1].depth() + 1,
            forall|depth: int|
                0 <= depth < way.len() ==> #[trigger] way[depth] == ancestor_at(
                    entries@,
                    at - 1,
                    depth as nat,
                ),
        decreases entries.len() - at,
    {
        let depth: usize = entries[at].path.len();
        proof {
            lemma_depth(entries@, at as int);
            if at > 0 {
                assert(in_order(entries@, at as int));
            }
        }
        if at == 0 {
            parents.push(0);
        } else {
            parents.push(way[depth - 1]);
        }
        way.truncate(depth);
        way.push(at);
        at += 1;
    }
    parents
}

/// For each id the offset of its entry; `None` where an id occurs twice.
fn offsets_of(entries: &Vec<Entry>) -> (offsets: Option<HashMap<usize, usize>>)
    ensures
        offsets is Some <==> has_distinct_ids(entries@),
        offsets is Some ==> are_offsets(offsets.unwrap()@, entries@),
{
    let mut offsets: HashMap<usize, usize> = HashMap::new();
    let mut at: usize = 0;
    while at < entries.len()
        invariant
            at <= entries.len(),
            are_offsets(offsets@, entries@.take(at as int)),
            has_distinct_ids(entries@.take(at as int)),
        decreases entries.len() - at,
    {
        let id: usize = entries[at].id;
        if offsets.contains_key(&id) {
            proof {
                let before = offsets@[id] as int;
                assert(entries@.take(at as int)[before].id == id);
                assert(entries[before].id == entries[at as int].id);
            }
            return None;
        }
        offsets.insert(id, at);
        proof {
            let fewer = entries@.take(at as int);
            let more = entries@.take(at + 1);
            assert forall|i: int, j: int| 0 <= i < j < more.len() implies (#[trigger] more[i]).id != (
            #[trigger] more[j]).id by {
                if j < at {
                    assert(fewer[i].id != fewer[j].id);
                } else {
                    assert(fewer[i].id == more[i].id);
                }
            }
            assert forall|k: int| 0 <= k < more.len() implies offsets@.contains_key(
                (#[trigger] more[k]).id,
            ) && offsets@[more[k].id] == k by {
                if k < at {
                    assert(fewer[k].id == more[k].id);
                }
            }
            assert forall|key: usize| #[trigger] offsets@.contains_key(key) implies offsets@[key]
                < more.len() && more[offsets@[key] as int].id == key by {
                if key != id {
                    assert(fewer[offsets@[key] as int].id == key);
                }
            }
        }
        at += 1;
    }
    proof {
        assert(entries@.take(entries.len() as int) =~= entries@);
    }
    Some(offsets)
}

/// Two children of one entry have the same path if and only if they have the
/// same last name.
proof fn lemma_siblings(entries: Seq<Entry>, parent: int, one: int, other: int)
    requires
        is_ordered(entries),
        descends(entries, parent, one),
        descends(entries, parent, other),
        entries[one].depth() == entries[parent].depth() + 1,
        entries[other].depth() == entries[parent].depth() + 1,
    ensures
        entries[one].segments() == entries[other].segments() <==> entries[one].path@.last()@
            == entries[other].path@.last()@,
{
    lemma_below_shares_path(entries, parent, one);
    lemma_below_shares_path(entries, parent, other);
    let depth = entries[parent].depth() as int;
    if entries[one].path@.last()@ == entries[other].path@.last()@ {
        assert forall|k: int| 0 <= k < depth + 1 implies entries[one].segments()[k]
            == entries[other].segments()[k] by {
            if k < depth {
                assert(entries[one].segments().take(depth)[k] == entries[other].segments().take(
                    depth,
                )[k]);
            }
        }
        assert(entries[one].segments() =~= entries[other].segments());
    }
    if entries[one].segments() == entries[other].segments() {
        assert(entries[one].segments()[depth] == entries[other].segments()[depth]);
    }
}

/// An entry whose path no elder sibling has is the first with its path, if
/// no path occurs twice before it.
proof fn lemma_first_with_path(entries: Seq<Entry>, at: int)
    requires
        is_ordered(entries),
        0 < at < entries.len(),
        has_distinct_paths(entries.take(at)),
        forall|i: int|
            ancestor_at(entries, at, (entries[at].depth() - 1) as nat) < i < at && (
            #[trigger] entries[i]).depth() == entries[at].depth() ==> entries[i].segments()
                != entries[at].segments(),
    ensures
        has_distinct_paths(entries.take(at + 1)),
{
    let fewer = entries.take(at);
    let more = entries.take(at + 1);
    lemma_depth(entries, at);
    let above = (entries[at].depth() - 1) as nat;
    lemma_ancestor_at(entries, at, above);
    let parent = ancestor_at(entries, at, above);
    assert forall|i: int, j: int| 0 <= i < j < more.len() implies (#[trigger] more[i]).segments() != (
    #[trigger] more[j]).segments() by {
        if j < at {
            assert(fewer[i].segments() != fewer[j].segments());
        } else if entries[i].segments() == entries[at].segments() {
            assert(entries[i].segments().len() == entries[at].segments().len());
            lemma_depth(entries, i);
            lemma_ancestor_at(entries, i, above);
            let other = ancestor_at(entries, i, above);
            assert(entries[other].segments() == entries[parent].segments());
            assert(fewer[other].segments() == fewer[parent].segments());
            assert(other == parent);
            assert(entries[i].depth() == entries[at].depth());
        }
    }
}

/// Whether no path occurs twice: no entry has the last name of one of its
/// elder siblings.
fn check_paths(entries: &Vec<Entry>, ends: &Vec<usize>, parents: &Vec<usize>) -> (ok: bool)
    requires
        is_ordered(entries@),
        are_subtree_ends(ends@, entries@),
        are_parents(parents@, entries@),
    ensures
        ok == has_distinct_paths(entries@),
{
    let mut at: usize = 1;
    while at < entries.len()
        invariant
            is_ordered(entries@),
            are_subtree_ends(ends@, entries@),
            are_parents(parents@, entries@),
            1 <= at,
            at <= entries.len() || entries.len() == 0,
            entries.len() > 0 ==> has_distinct_paths(entries@.take(at as int)),
        decreases entries.len() - at,
    {
        let parent: usize = parents[at];
        let depth: usize = entries[at].path.len();
        proof {
            lemma_depth(entries@, at as int);
            lemma_ancestor_at(entries@, at as int, (depth - 1) as nat);
            assert(in_order(entries@, parent + 1));
        }
        let mut sibling: usize = parent + 1;
        while sibling < at
            invariant
                is_ordered(entries@),
                are_subtree_ends(ends@, entries@),
                at < entries.len(),
                depth == entries[at as int].depth(),
                depth >= 1,
                descends(entries@, parent as int, at as int),
                entries[parent as int].depth() + 1 == depth,
                parent < sibling <= at,
                entries[sibling as int].depth() == depth,
                forall|i: int|
                    parent < i < sibling && (#[trigger] entries[i]).depth() == depth
                        ==> entries[i].segments() != entries[at as int].segments(),
            decreases at - sibling,
        {
            proof {
                assert(descends(entries@, parent as int, sibling as int)) by {
                    assert forall|k: int| parent < k <= sibling implies entries[parent as int].depth()
                        < (#[trigger] entries[k]).depth() by {}
                }
                lemma_siblings(entries@, parent as int, sibling as int, at as int);
            }
            if entries[sibling].path[depth - 1] == entries[at].path[depth - 1] {
                return false;
            }
            proof {
                lemma_subtree_end(entries@, sibling as int);
                let next = subtree_end(entries@, sibling as int);
                if next > at {
                    assert(descends(entries@, sibling as int, at as int));
                }
                assert forall|i: int|
                    parent < i < next && (#[trigger] entries[i]).depth() == depth implies entries[i].segments()
                        != entries[at as int].segments() by {
                    if i > sibling {
                        assert(descends(entries@, sibling as int, i));
                    }
                }
            }
            sibling = ends[sibling];
        }
        proof {
            lemma_first_with_path(entries@, at as int);
        }
        at += 1;
    }
    proof {
        if entries.len() > 0 {
            assert(entries@.take(entries.len() as int) =~= entries@);
        }
    }
    true
}

/// The entries of one worktree at one moment.
pub struct Snapshot {
    root_name: String,
    entries: Vec<Entry>,
    /// For each offset, the offset just past its subtree.
    subtree_ends: Vec<usize>,
    /// For each offset but the first, the offset of its parent.
    parents: Vec<usize>,
    /// For each id, the offset of its entry.
    offsets: HashMap<usize, usize>,
}

impl View for Snapshot {
    type V = Seq<Entry>;

    /// The entries in depth-first order.
    closed spec fn view(&self) -> Seq<Entry> {
        self.entries@
    }
}

impl Snapshot {
    /// The entries list a tree, and the tables are right.
    pub closed spec fn wf(&self) -> bool {
        &&& is_tree(self.entries@)
        &&& are_subtree_ends(self.subtree_ends@, self.entries@)
        &&& are_parents(self.parents@, self.entries@)
        &&& are_offsets(self.offsets@, self.entries@)
    }

    /// The name under which the root is shown.
    pub closed spec fn spec_root_name(&self) -> Seq<char> {
        self.root_name@
    }

    /// A valid snapshot lists a tree, and its entries can be counted.
    pub proof fn lemma_is_tree(&self)
        requires
            self.wf(),
        ensures
            is_tree(self@),
            self@.len() <= usize::MAX,
    {
        assert(self.entries@.len() == self.entries.len());
    }

    /// The snapshot of a worktree of which nothing is known yet but its name.
    pub fn new(root_name: String) -> (snapshot: Snapshot)
        ensures
            snapshot.wf(),
            snapshot@.len() == 0,
            snapshot.spec_root_name() == root_name@,
    {
        Snapshot {
            root_name,
            entries: Vec::new(),
            subtree_ends: Vec::new(),
            parents: Vec::new(),
            offsets: HashMap::new(),
        }
    }

    /// The snapshot of a worktree with these entries, which must list a tree
    /// in depth-first order; `None` if they do not.
    pub fn from_entries(root_name: String, entries: Vec<Entry>) -> (snapshot: Option<Snapshot>)
        ensures
            snapshot is Some <==> is_tree(entries@),
            snapshot is Some ==> {
                &&& snapshot.unwrap().wf()
                &&& snapshot.unwrap()@ == entries@
                &&& snapshot.unwrap().spec_root_name() == root_name@
            },
    {
        if !check_order(&entries) {
            return None;
        }
        let offsets = match offsets_of(&entries) {
            Some(offsets) => offsets,
            None => {
                return None;
            },
        };
        let subtree_ends = subtree_ends_of(&entries);
        let parents = parents_of(&entries);
        if !check_paths(&entries, &subtree_ends, &parents) {
            return None;
        }
        Some(Snapshot { root_name, entries, subtree_ends, parents, offsets })
    }

    /// The name under which the root is shown.
    pub fn root_name(&self) -> (name: &String)
        ensures
            name@ == self.spec_root_name(),
    {
        &self.root_name
    }

    /// How many entries the snapshot has.
    pub fn entry_count(&self) -> (count: usize)
        ensures
            count == self@.len(),
    {
        self.entries.len()
    }

    /// The entry with the empty path.
    pub fn root_entry(&self) -> (root: Option<&Entry>)
        requires
            self.wf(),
        ensures
            root is Some <==> self@.len() > 0,
            root is Some ==> *root.unwrap() == self@[0],
    {
        if self.entries.len() > 0 {
            Some(&self.entries[0])
        } else {
            None
        }
    }

    /// The offset of the entry with this id.
    pub fn offset_for_id(&self, id: usize) -> (found: Option<usize>)
        requires
            self.wf(),
        ensures
            found is Some <==> offset_of_id(self@, id) is Some,
            found is Some ==> found.unwrap() == offset_of_id(self@, id).unwrap(),
            found is Some ==> found.unwrap() < self@.len() && self@[found.unwrap() as int].id == id,
    {
        match self.offsets.get(&id) {
            Some(at) => {
                proof {
                    assert(self.offsets@.contains_key(id));
                    let other = offset_of_id(self@, id).unwrap();
                    assert(self@[other].id == self@[*at as int].id);
                }
                Some(*at)
            },
            None => {
                proof {
                    if offset_of_id(self@, id) is Some {
                        let other = offset_of_id(self@, id).unwrap();
                        assert(self.offsets@.contains_key(self.entries@[other].id));
                    }
                }
                None
            },
        }
    }

    /// The entry with this id.
    pub fn entry_for_id(&self, id: usize) -> (found: Option<&Entry>)
        requires
            self.wf(),
        ensures
            found is Some <==> offset_of_id(self@, id) is Some,
            found is Some ==> *found.unwrap() == self@[offset_of_id(self@, id).unwrap()],
            found is Some ==> found.unwrap().id == id,
    {
        match self.offset_for_id(id) {
            Some(at) => Some(&self.entries[at]),
            None => None,
        }
    }

    /// The offset of the entry whose path is the first `len` names of `path`.
    fn offset_for_prefix(&self, path: &Vec<String>, len: usize) -> (found: Option<usize>)
        requires
            self.wf(),
            len <= path.len(),
        ensures
            found is Some <==> offset_of_path(self@, segments(path@).take(len as int)) is Some,
            found is Some ==> found.unwrap() == offset_of_path(
                self@,
                segments(path@).take(len as int),
            ).unwrap(),
            found is Some ==> found.unwrap() < self@.len(),
    {
        let mut at: usize = 0;
        while at < self.entries.len()
            invariant
                self.wf(),
                at <= self.entries.len(),
                len <= path.len(),
                forall|k: int|
                    0 <= k < at ==> (#[trigger] self.entries@[k]).segments() != segments(
                        path@,
                    ).take(len as int),
            decreases self.entries.len() - at,
        {
            if is_path_of(&self.entries[at], path, len) {
                proof {
                    let other = offset_of_path(self@, segments(path@).take(len as int)).unwrap();
                    assert(self@[other].segments() == self@[at as int].segments());
                }
                return Some(at);
            }
            at += 1;
        }
        None
    }

    /// The entry with this path.
    pub fn entry_for_path(&self, path: &Vec<String>) -> (found: Option<&Entry>)
        requires
            self.wf(),
        ensures
            found is Some <==> offset_of_path(self@, segments(path@)) is Some,
            found is Some ==> *found.unwrap() == self@[offset_of_path(
                self@,
                segments(path@),
            ).unwrap()],
            found is Some ==> found.unwrap().segments() == segments(path@),
    {
        assert(segments(path@).take(path.len() as int) =~= segments(path@));
        match self.offset_for_prefix(path, path.len()) {
            Some(at) => Some(&self.entries[at]),
            None => None,
        }
    }

    /// The entry whose path is the path of `entry` without its last name. The
    /// root has no parent.
    ///
    /// For an entry of this snapshot the parent is looked up; for another one
    /// it is searched.
    pub fn parent_of(&self, entry: &Entry) -> (found: Option<&Entry>)
        requires
            self.wf(),
        ensures
            found is Some <==> entry.depth() > 0 && offset_of_path(
                self@,
                entry.segments().drop_last(),
            ) is Some,
            found is Some ==> *found.unwrap() == self@[offset_of_path(
                self@,
                entry.segments().drop_last(),
            ).unwrap()],
            found is Some ==> found.unwrap().segments() == entry.segments().drop_last(),
    {
        if entry.path.len() == 0 {
            return None;
        }
        proof {
            assert(segments(entry.path@).take(entry.path.len() as int) =~= entry.segments());
            assert(segments(entry.path@).take(entry.path.len() - 1)
                =~= entry.segments().drop_last());
        }
        match self.offsets.get(&entry.id) {
            Some(at) => {
                assert(self.offsets@.contains_key(entry.id));
                if is_path_of(&self.entries[*at], &entry.path, entry.path.len()) {
                    proof {
                        lemma_depth(self.entries@, *at as int);
                        lemma_parent(self.entries@, *at as int);
                    }
                    return Some(&self.entries[self.parents[*at]]);
                }
            },
            None => {},
        }
        match self.offset_for_prefix(&entry.path, entry.path.len() - 1) {
            Some(at) => Some(&self.entries[at]),
            None => None,
        }
    }

    /// A cursor on the first entry.
    pub fn entries(&self) -> (cursor: Traversal<'_>)
        requires
            self.wf(),
        ensures
            cursor.wf(),
            cursor.snapshot() == self,
            cursor.spec_offset() == 0,
    {
        Traversal { snapshot: self, offset: 0 }
    }
}

/// A cursor over the entries of a snapshot in depth-first order. It stands on
/// an entry or, once it has run past the last, on none.
pub struct Traversal<'a> {
    snapshot: &'a Snapshot,
    offset: usize,
}

impl<'a> Traversal<'a> {
    /// The snapshot that the cursor walks.
    pub closed spec fn snapshot(&self) -> &Snapshot {
        self.snapshot
    }

    /// The offset of the entry on which the cursor stands; the number of
    /// entries if it stands on none.
    pub closed spec fn spec_offset(&self) -> int {
        self.offset as int
    }

    /// The snapshot is valid and the cursor has not left it.
    pub closed spec fn wf(&self) -> bool {
        &&& self.snapshot.wf()
        &&& self.offset <= self.snapshot@.len()
    }

    /// The offset of the entry on which the cursor stands.
    pub fn offset(&self) -> (offset: usize)
        requires
            self.wf(),
        ensures
            offset == self.spec_offset(),
            offset <= self.snapshot()@.len(),
    {
        self.offset
    }

    /// The entry on which the cursor stands.
    pub fn entry(&self) -> (entry: Option<&'a Entry>)
        requires
            self.wf(),
        ensures
            0 <= self.spec_offset() <= self.snapshot()@.len(),
            entry is Some <==> self.spec_offset() < self.snapshot()@.len(),
            entry is Some ==> *entry.unwrap() == self.snapshot()@[self.spec_offset()],
    {
        if self.offset < self.snapshot.entries.len() {
            Some(&self.snapshot.entries[self.offset])
        } else {
            None
        }
    }

    /// Moves to the next entry in depth-first order, and says whether there is
    /// one.
    pub fn advance(&mut self) -> (on_entry: bool)
        requires
            old(self).wf(),
        ensures
            final(self).wf(),
            final(self).snapshot() == old(self).snapshot(),
            final(self).spec_offset() == (if old(self).spec_offset() < old(self).snapshot()@.len() {
                old(self).spec_offset() + 1
            } else {
                old(self).spec_offset()
            }),
            on_entry == (final(self).spec_offset() < final(self).snapshot()@.len()),
    {
        if self.offset < self.snapshot.entries.len() {
            self.offset += 1;
        }
        self.offset < self.snapshot.entries.len()
    }

    /// Moves past the subtree of the entry on which the cursor stands, and says
    /// whether there is an entry there.
    pub fn advance_to_sibling(&mut self) -> (on_entry: bool)
        requires
            old(self).wf(),
        ensures
            final(self).wf(),
            final(self).snapshot() == old(self).snapshot(),
            final(self).spec_offset() == (if old(self).spec_offset() < old(self).snapshot()@.len() {
                subtree_end(old(self).snapshot()@, old(self).spec_offset())
            } else {
                old(self).spec_offset()
            }),
            on_entry == (final(self).spec_offset() < final(self).snapshot()@.len()),
    {
        if self.offset < self.snapshot.entries.len() {
            proof {
                lemma_subtree_end(self.snapshot@, self.offset as int);
            }
            self.offset = self.snapshot.subtree_ends[self.offset];
        }
        self.offset < self.snapshot.entries.len()
    }

    /// Moves to the entry at `offset`, or past the last entry if there is none
    /// at `offset`, and says whether the cursor stands on an entry.
    pub fn advance_to_offset(&mut self, offset: usize) -> (on_entry: bool)
        requires
            old(self).wf(),
        ensures
            final(self).wf(),
            final(self).snapshot() == old(self).snapshot(),
            final(self).spec_offset() == (if offset < old(self).snapshot()@.len() {
                offset as int
            } else {
                old(self).snapshot()@.len() as int
            }),
            on_entry == (offset < old(self).snapshot()@.len()),
    {
        if offset < self.snapshot.entries.len() {
            self.offset = offset;
        } else {
            self.offset = self.snapshot.entries.len();
        }
        self.offset < self.snapshot.entries.len()
    }
}

} // verus!
