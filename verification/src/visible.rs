//! Which entries of a snapshot are shown, given the directories that are
//! expanded.
//!
//! An entry is shown when every entry above it in the tree is expanded. The
//! shown entries are found by one walk that steps over the subtree of each
//! collapsed entry, so the walk touches the shown entries only.

use crate::expanded::{binary_search, strictly_ascending};
use crate::tree::{descends, lemma_subtree_end, subtree_end};
use crate::worktree::{Entry, Snapshot};
use vstd::prelude::*;

verus! {

/// Whether the entry at `at` is shown: every entry that it lies below is
/// expanded.
pub open spec fn is_visible(entries: Seq<Entry>, expanded: Set<usize>, at: int) -> bool {
    &&& 0 <= at < entries.len()
    &&& forall|outer: int| #[trigger]
        descends(entries, outer, at) ==> expanded.contains(entries[outer].id)
}

/// The offsets before `upto` whose entries are shown, in ascending order.
pub open spec fn visible_below(entries: Seq<Entry>, expanded: Set<usize>, upto: int) -> Seq<usize>
    decreases upto,
{
    if upto <= 0 {
        Seq::empty()
    } else if is_visible(entries, expanded, upto - 1) {
        visible_below(entries, expanded, upto - 1).push((upto - 1) as usize)
    } else {
        visible_below(entries, expanded, upto - 1)
    }
}

/// The offsets of all shown entries, in ascending order.
pub open spec fn visible_offsets(entries: Seq<Entry>, expanded: Set<usize>) -> Seq<usize> {
    visible_below(entries, expanded, entries.len() as int)
}

/// `visible_below` is ascending, stays below `upto`, and holds exactly the
/// offsets of the shown entries before `upto`.
pub proof fn lemma_visible_below(entries: Seq<Entry>, expanded: Set<usize>, upto: int)
    requires
        0 <= upto <= entries.len() <= usize::MAX,
    ensures
        visible_below(entries, expanded, upto).len() <= upto,
        strictly_ascending(visible_below(entries, expanded, upto)),
        forall|i: int|
            0 <= i < visible_below(entries, expanded, upto).len() ==> {
                &&& (#[trigger] visible_below(entries, expanded, upto)[i]) < upto
                &&& is_visible(entries, expanded, visible_below(entries, expanded, upto)[i] as int)
            },
        forall|at: int|
            0 <= at < upto && is_visible(entries, expanded, at) ==> visible_below(
                entries,
                expanded,
                upto,
            ).contains(at as usize),
    decreases upto,
{
    if upto > 0 {
        lemma_visible_below(entries, expanded, upto - 1);
        let shorter = visible_below(entries, expanded, upto - 1);
        let longer = visible_below(entries, expanded, upto);
        assert forall|at: int| 0 <= at < upto && is_visible(entries, expanded, at) implies longer.contains(
            at as usize,
        ) by {
            if at < upto - 1 {
                let i = choose|i: int| 0 <= i < shorter.len() && shorter[i] == at as usize;
                assert(longer[i] == at as usize);
            } else {
                assert(longer[longer.len() - 1] == at as usize);
            }
        }
    }
}

/// The shown offsets are ascending, name entries of the snapshot, and are
/// exactly the offsets of the shown entries.
pub proof fn lemma_visible_offsets(entries: Seq<Entry>, expanded: Set<usize>)
    requires
        entries.len() <= usize::MAX,
    ensures
        visible_offsets(entries, expanded).len() <= entries.len(),
        strictly_ascending(visible_offsets(entries, expanded)),
        forall|i: int|
            0 <= i < visible_offsets(entries, expanded).len() ==> (#[trigger] visible_offsets(
                entries,
                expanded,
            )[i]) < entries.len(),
        forall|at: int|
            is_visible(entries, expanded, at) <==> 0 <= at < entries.len() && visible_offsets(
                entries,
                expanded,
            ).contains(at as usize),
{
    lemma_visible_below(entries, expanded, entries.len() as int);
    let offsets = visible_offsets(entries, expanded);
    assert forall|at: int| 0 <= at < entries.len() && offsets.contains(at as usize) implies is_visible(
        entries,
        expanded,
        at,
    ) by {
        let i = choose|i: int| 0 <= i < offsets.len() && offsets[i] == at as usize;
        assert(is_visible(entries, expanded, offsets[i] as int));
    }
}

/// There is one ascending sequence of the offsets of the shown entries.
pub proof fn law_visible_offsets_are_determined(
    entries: Seq<Entry>,
    expanded: Set<usize>,
    offsets: Seq<usize>,
)
    requires
        entries.len() <= usize::MAX,
        strictly_ascending(offsets),
        forall|offset: usize| offsets.contains(offset) <==> is_visible(entries, expanded, offset as int),
    ensures
        offsets == visible_offsets(entries, expanded),
{
    lemma_visible_offsets(entries, expanded);
    let shown = visible_offsets(entries, expanded);
    assert forall|offset: usize| offsets.contains(offset) <==> shown.contains(offset) by {
        if shown.contains(offset) {
            let i = choose|i: int| 0 <= i < shown.len() && shown[i] == offset;
            assert(shown[i] < entries.len());
        }
    }
    lemma_ascending_same(offsets, shown);
}

/// Two ascending sequences with the same elements are the same sequence.
proof fn lemma_ascending_same(a: Seq<usize>, b: Seq<usize>)
    requires
        strictly_ascending(a),
        strictly_ascending(b),
        forall|x: usize| a.contains(x) <==> b.contains(x),
    ensures
        a == b,
    decreases a.len(),
{
    if a.len() == 0 {
        if b.len() > 0 {
            assert(b.contains(b[0]));
        }
        assert(a =~= b);
    } else {
        let top = a.last();
        assert(a.contains(top));
        let at = choose|i: int| 0 <= i < b.len() && b[i] == top;
        if at < b.len() - 1 {
            assert(b.contains(b.last()));
            let back = choose|i: int| 0 <= i < a.len() && a[i] == b.last();
            assert(a[back] <= top);
        }
        assert forall|x: usize| a.drop_last().contains(x) <==> b.drop_last().contains(x) by {
            if a.drop_last().contains(x) {
                let i = choose|i: int| 0 <= i < a.drop_last().len() && a.drop_last()[i] == x;
                assert(a[i] == x);
                assert(a.contains(x));
                let j = choose|j: int| 0 <= j < b.len() && b[j] == x;
                assert(x < top);
                assert(b.drop_last()[j] == x);
            }
            if b.drop_last().contains(x) {
                let j = choose|j: int| 0 <= j < b.drop_last().len() && b.drop_last()[j] == x;
                assert(b[j] == x);
                assert(b.contains(x));
                let i = choose|i: int| 0 <= i < a.len() && a[i] == x;
                assert(x < top);
                assert(a.drop_last()[i] == x);
            }
        }
        lemma_ascending_same(a.drop_last(), b.drop_last());
        assert(a =~= a.drop_last().push(top));
        assert(b =~= b.drop_last().push(top));
    }
}

/// Where no entry from `from` up to `to` is shown, nothing is added.
proof fn lemma_none_visible(entries: Seq<Entry>, expanded: Set<usize>, from: int, to: int)
    requires
        0 <= from <= to,
        forall|k: int| from <= k < to ==> !is_visible(entries, expanded, k),
    ensures
        visible_below(entries, expanded, to) == visible_below(entries, expanded, from),
    decreases to - from,
{
    if from < to {
        lemma_none_visible(entries, expanded, from, to - 1);
    }
}

/// The entry after a shown, expanded entry is shown.
proof fn lemma_step_into(entries: Seq<Entry>, expanded: Set<usize>, at: int)
    requires
        is_visible(entries, expanded, at),
        expanded.contains(entries[at].id),
        at + 1 < entries.len(),
    ensures
        is_visible(entries, expanded, at + 1),
{
    assert forall|outer: int| #[trigger] descends(entries, outer, at + 1) implies expanded.contains(
        entries[outer].id,
    ) by {
        if outer < at {
            assert(descends(entries, outer, at));
        }
    }
}

/// The entry after the subtree of a shown entry is shown, and if the shown
/// entry is collapsed, nothing in its subtree is.
proof fn lemma_step_over(entries: Seq<Entry>, expanded: Set<usize>, at: int)
    requires
        is_visible(entries, expanded, at),
    ensures
        subtree_end(entries, at) < entries.len() ==> is_visible(
            entries,
            expanded,
            subtree_end(entries, at),
        ),
        !expanded.contains(entries[at].id) ==> forall|k: int|
            at < k < subtree_end(entries, at) ==> !is_visible(entries, expanded, k),
{
    lemma_subtree_end(entries, at);
    let end = subtree_end(entries, at);
    if end < entries.len() {
        assert forall|outer: int| #[trigger] descends(entries, outer, end) implies expanded.contains(
            entries[outer].id,
        ) by {
            if outer == at {
                assert(entries[at].depth() < entries[end].depth());
            } else if outer > at {
                assert(descends(entries, at, outer));
                assert(entries[at].depth() < entries[outer].depth());
                assert(entries[outer].depth() < entries[end].depth());
            } else {
                assert(descends(entries, outer, at));
            }
        }
    }
    if !expanded.contains(entries[at].id) {
        assert forall|k: int| at < k < end implies !is_visible(entries, expanded, k) by {
            assert(descends(entries, at, k));
        }
    }
}

/// The offsets of the entries of `snapshot` that are shown when exactly the
/// ids in `expanded` are expanded, in ascending order.
///
/// The walk visits the shown entries and no others.
pub fn visible_entries(snapshot: &Snapshot, expanded: &Vec<usize>) -> (offsets: Vec<usize>)
    requires
        snapshot.wf(),
        strictly_ascending(expanded@),
    ensures
        offsets@ == visible_offsets(snapshot@, expanded@.to_set()),
{
    let mut offsets: Vec<usize> = Vec::new();
    let mut cursor = snapshot.entries();
    let ghost ids = expanded@.to_set();
    loop
        invariant_except_break
            cursor.wf(),
            cursor.snapshot() == snapshot,
            strictly_ascending(expanded@),
            ids == expanded@.to_set(),
            offsets@ == visible_below(snapshot@, ids, cursor.spec_offset()),
            cursor.spec_offset() < snapshot@.len() ==> is_visible(
                snapshot@,
                ids,
                cursor.spec_offset(),
            ),
        ensures
            offsets@ == visible_offsets(snapshot@, ids),
        decreases snapshot@.len() - cursor.spec_offset(),
    {
        let current = cursor.entry();
        if current.is_none() {
            break ;
        }
        let entry = current.unwrap();
        let ghost at = cursor.spec_offset();
        offsets.push(cursor.offset());
        proof {
            lemma_step_over(snapshot@, ids, at);
            lemma_subtree_end(snapshot@, at);
        }
        if binary_search(expanded, entry.id).is_err() {
            proof {
                lemma_none_visible(snapshot@, ids, at + 1, subtree_end(snapshot@, at));
            }
            if cursor.advance_to_sibling() {
                continue ;
            }
        } else {
            proof {
                if at + 1 < snapshot@.len() {
                    lemma_step_into(snapshot@, ids, at);
                }
            }
        }
        cursor.advance();
    }
    offsets
}

} // verus!
