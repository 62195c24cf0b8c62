//! A project panel: the file trees of a project's worktrees laid out as one
//! list of rows, of which a window can be taken without walking the trees.
//!
//! A panel keeps, for every worktree, which directories are expanded
//! ([`expanded`]) and which entries are therefore shown ([`visible`]). The rows
//! of the worktrees, one worktree after the other, are the rows of the panel;
//! one of them can be the active entry, which keyboard navigation moves and
//! which is found again by its id whenever the rows change ([`panel`]).
//!
//! What the panel does is stated over [`state::PanelState`], the panel without
//! its caches; what holds of it whatever happened before is proved in
//! [`laws`]. The trees themselves are held as snapshots ([`worktree`]) whose
//! shape is described in [`tree`], grouped into a [`project`].

use vstd::prelude::*;

pub mod expanded;
pub mod laws;
pub mod panel;
pub mod project;
pub mod state;
pub mod tree;
pub mod visible;
pub mod worktree;

pub use panel::ProjectPanel;

verus! {

/// A row of the panel, named by the position of its worktree in the project and
/// the id of its entry within that worktree.
#[derive(Clone, Copy, Debug, PartialEq, Eq, Hash, Structural)]
pub struct ProjectEntry {
    pub worktree_ix: usize,
    pub entry_id: usize,
}

/// What the panel announces to whoever displays it.
#[derive(Clone, Copy, Debug, PartialEq, Eq, Structural)]
pub enum Event {
    /// The active entry now stands at this row, which should be brought into
    /// view.
    ActiveIndexChanged(usize),
}

} // verus!
