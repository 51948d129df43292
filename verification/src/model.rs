//! The mathematical model that the contracts of this crate are stated over:
//! a directory tree as sequences of paths, and the broker as a state that
//! `mark_complete` steps.

use vstd::prelude::*;

verus! {

/// A directory is identified by its path, a sequence of characters.
pub type DirPath = Seq<char>;

/// One entry of the child table: a directory and its immediate subdirectories.
pub type ChildEntry = (DirPath, Seq<DirPath>);

/// No two entries of the child table are for the same directory.
pub open spec fn distinct_keys(children: Seq<ChildEntry>) -> bool {
    forall|i: int, k: int|
        0 <= i < k < children.len() ==> (#[trigger] children[i]).0 != (#[trigger] children[k]).0
}

/// No directory is listed as a child in two entries of the child table.
pub open spec fn single_parent(children: Seq<ChildEntry>) -> bool {
    forall|i: int, j: int, k: int, l: int|
        0 <= i < children.len() && 0 <= j < children[i].1.len() && 0 <= k < children.len() && 0
            <= l < children[k].1.len() && #[trigger] children[i].1[j]
            == #[trigger] children[k].1[l] ==> i == k
}

/// What a `DirectoryTree` holds, as plain sequences.
#[verifier::ext_equal]
pub struct TreeModel {
    /// Every directory under the root, the root included.
    pub dirs: Seq<DirPath>,
    /// Every file found under the root.
    pub files: Seq<DirPath>,
    /// For each directory with subdirectories, the list of them.
    pub children: Seq<ChildEntry>,
    /// The directories without subdirectories.
    pub leaves: Seq<DirPath>,
    /// The number of files found.
    pub file_count: nat,
}

impl TreeModel {
    /// `dir` has an entry in the child table.
    pub open spec fn has_children(self, dir: DirPath) -> bool {
        exists|i: int| 0 <= i < self.children.len() && (#[trigger] self.children[i]).0 == dir
    }

    /// `child` is listed as an immediate subdirectory of `parent`.
    pub open spec fn is_child_of(self, child: DirPath, parent: DirPath) -> bool {
        exists|i: int, j: int|
            0 <= i < self.children.len() && 0 <= j < self.children[i].1.len()
                && self.children[i].0 == parent && #[trigger] self.children[i].1[j] == child
    }

    /// `rank` strictly decreases from every directory to each of its children.
    pub open spec fn ranked_by(self, rank: spec_fn(DirPath) -> nat) -> bool {
        forall|i: int, j: int|
            0 <= i < self.children.len() && 0 <= j < self.children[i].1.len() ==> rank(
                #[trigger] self.children[i].1[j],
            ) < rank(self.children[i].0)
    }

    /// The tree invariant: no directory is listed twice, the child table
    /// speaks only of listed directories and gives every directory at most one
    /// parent, the leaves are exactly the directories without an entry in the
    /// child table, and the parent relation has no cycle.
    pub open spec fn wf(self) -> bool {
        &&& self.dirs.no_duplicates()
        &&& self.leaves.no_duplicates()
        &&& distinct_keys(self.children)
        &&& single_parent(self.children)
        &&& forall|i: int|
            0 <= i < self.children.len() ==> {
                &&& self.dirs.contains((#[trigger] self.children[i]).0)
                &&& self.children[i].1.len() > 0
                &&& self.children[i].1.no_duplicates()
            }
        &&& forall|i: int, j: int|
            0 <= i < self.children.len() && 0 <= j < self.children[i].1.len()
                ==> self.dirs.contains(#[trigger] self.children[i].1[j])
        &&& forall|d: DirPath| #[trigger]
            self.leaves.contains(d) <==> self.dirs.contains(d) && !self.has_children(d)
        &&& exists|rank: spec_fn(DirPath) -> nat| self.ranked_by(rank)
    }
}

/// The count table that the child table gives: each directory with an entry
/// maps to the length of its child list. Where a directory has several
/// entries, the last one counts.
pub open spec fn pending_counts(children: Seq<ChildEntry>) -> Map<DirPath, nat>
    decreases children.len(),
{
    if children.len() == 0 {
        Map::empty()
    } else {
        pending_counts(children.drop_last()).insert(
            children.last().0,
            children.last().1.len(),
        )
    }
}

/// `links` with every directory of `kids` mapped to `parent`.
pub open spec fn link_children(
    links: Map<DirPath, DirPath>,
    parent: DirPath,
    kids: Seq<DirPath>,
) -> Map<DirPath, DirPath>
    decreases kids.len(),
{
    if kids.len() == 0 {
        links
    } else {
        link_children(links, parent, kids.drop_last()).insert(kids.last(), parent)
    }
}

/// The parent table that the child table gives: each listed child maps to the
/// directory that lists it. Where a directory is listed more than once, the
/// last listing counts.
pub open spec fn parent_links(children: Seq<ChildEntry>) -> Map<DirPath, DirPath>
    decreases children.len(),
{
    if children.len() == 0 {
        Map::empty()
    } else {
        link_children(
            parent_links(children.drop_last()),
            children.last().0,
            children.last().1,
        )
    }
}

/// The state of the broker.
#[verifier::ext_equal]
pub struct BrokerModel {
    /// For each directory that still waits for children, how many.
    pub pending: Map<DirPath, nat>,
    /// The parent of each directory that has one.
    pub parent_of: Map<DirPath, DirPath>,
    /// The number of directories of the tree.
    pub total: nat,
    /// The number of completions reported so far.
    pub completed: nat,
    /// Whether the broker still holds its sending end of the work channel.
    pub open: bool,
    /// Every directory released for work so far, oldest first: the leaves at
    /// construction, then each directory whose last child was reported.
    pub dispatched: Seq<DirPath>,
}

impl BrokerModel {
    /// The state right after construction from `tree`: the tables built from
    /// the child table, nothing completed, the leaves dispatched in order.
    pub open spec fn initial(tree: TreeModel) -> BrokerModel {
        BrokerModel {
            pending: pending_counts(tree.children),
            parent_of: parent_links(tree.children),
            total: tree.dirs.len(),
            completed: 0,
            open: true,
            dispatched: tree.leaves,
        }
    }

    /// `dir` has a parent that still waits for children.
    pub open spec fn has_waiting_parent(self, dir: DirPath) -> bool {
        self.parent_of.contains_key(dir) && self.pending.contains_key(self.parent_of[dir])
    }

    /// The directory that the report of `dir` releases for work, if any: the
    /// parent of `dir`, where `dir` is the last child it waits for, the
    /// channel is open, and the report is not the one that completes the run.
    pub open spec fn released(self, dir: DirPath) -> Option<DirPath> {
        if self.completed + 1 != self.total && self.has_waiting_parent(dir)
            && self.pending[self.parent_of[dir]] == 1 && self.open {
            Some(self.parent_of[dir])
        } else {
            None
        }
    }

    /// The state after the completion of `dir` is reported.
    ///
    /// The counter goes up by one. When it reaches the total, the channel is
    /// closed and nothing else changes. Otherwise, if `dir` has a parent that
    /// still waits, the parent's count goes down by one; a count that reaches
    /// zero leaves the table, and the parent is dispatched if the channel is
    /// open. A count that is already zero stays as it is.
    pub open spec fn mark_complete(self, dir: DirPath) -> BrokerModel {
        let completed = self.completed + 1;
        if completed == self.total {
            BrokerModel { completed: completed as nat, open: false, ..self }
        } else if self.has_waiting_parent(dir) {
            let parent = self.parent_of[dir];
            let count = self.pending[parent];
            if count == 1 {
                BrokerModel {
                    completed: completed as nat,
                    pending: self.pending.remove(parent),
                    dispatched: if self.open {
                        self.dispatched.push(parent)
                    } else {
                        self.dispatched
                    },
                    ..self
                }
            } else if count > 1 {
                BrokerModel {
                    completed: completed as nat,
                    pending: self.pending.insert(parent, (count - 1) as nat),
                    ..self
                }
            } else {
                BrokerModel { completed: completed as nat, ..self }
            }
        } else {
            BrokerModel { completed: completed as nat, ..self }
        }
    }

    /// The state after the completions in `done` are reported in order.
    pub open spec fn run(self, done: Seq<DirPath>) -> BrokerModel
        decreases done.len(),
    {
        if done.len() == 0 {
            self
        } else {
            self.run(done.drop_last()).mark_complete(done.last())
        }
    }
}

} // verus!
