//! The dependency broker: it owns the remaining-child counts and the parent
//! table, hands ready directories to the work channel, and closes the channel
//! when the last directory has been reported.

use crate::model::{link_children, parent_links, pending_counts, BrokerModel, DirPath};
use crate::tables::{
    lemma_link_children_step, lemma_parent_links_step, lemma_pending_counts_step,
};
use crate::tree::{paths_view, DirectoryTree};
use crossbeam_channel::{Receiver, Sender};
use vstd::hash_map::StringHashMap;
use vstd::prelude::*;

verus! {

/// The count table as the model has it.
pub open spec fn counts_view(counts: Map<DirPath, usize>) -> Map<DirPath, nat> {
    counts.map_values(|c: usize| c as nat)
}

/// The parent table as the model has it.
pub open spec fn links_view(links: Map<DirPath, String>) -> Map<DirPath, DirPath> {
    links.map_values(|p: String| p@)
}

/// The dependency broker of one run. It is owned by one party at a time:
/// workers that share it take turns.
pub struct Broker {
    /// Directory -> number of children still pending deletion.
    child_counts: StringHashMap<usize>,
    /// Directory -> parent directory.
    parent_map: StringHashMap<String>,
    /// The broker's sending end of the work channel; `None` once closed.
    work_tx: Option<Sender<String>>,
    /// Total directories to process.
    total_dirs: usize,
    /// Directories completed.
    completed: usize,
    /// Every directory that was released for work, oldest first.
    dispatched: Ghost<Seq<DirPath>>,
}

impl View for Broker {
    type V = BrokerModel;

    closed spec fn view(&self) -> BrokerModel {
        BrokerModel {
            pending: counts_view(self.child_counts@),
            parent_of: links_view(self.parent_map@),
            total: self.total_dirs as nat,
            completed: self.completed as nat,
            open: self.work_tx is Some,
            dispatched: self.dispatched@,
        }
    }
}

impl Broker {
    /// Builds the broker for `tree` and a fresh work channel, and sends every
    /// leaf, in the order given. Returns the broker, a second sender and the
    /// receiver for the workers. The channel can only close once the caller
    /// has dropped the returned sender.
    pub fn new(tree: DirectoryTree) -> (made: (Broker, Sender<String>, Receiver<String>))
        ensures
            made.0@ == BrokerModel::initial(tree@),
    {
        let (tx, rx) = crossbeam_channel::unbounded();
        let mut child_counts: StringHashMap<usize> = StringHashMap::new();
        let mut parent_map: StringHashMap<String> = StringHashMap::new();
        let total_dirs = tree.dirs.len();
        let ghost table = tree@.children;

        let mut i: usize = 0;
        while i < tree.children.len()
            invariant
                i <= tree.children.len(),
                table == tree@.children,
                counts_view(child_counts@) == pending_counts(table.take(i as int)),
                links_view(parent_map@) == parent_links(table.take(i as int)),
            decreases tree.children.len() - i,
        {
            let parent = &tree.children[i].0;
            let kids = &tree.children[i].1;
            let ghost linked = parent_links(table.take(i as int));
            proof {
                lemma_pending_counts_step(table, i as int);
            }
            child_counts.insert(parent.clone(), kids.len());

            let mut j: usize = 0;
            while j < kids.len()
                invariant
                    j <= kids.len(),
                    links_view(parent_map@) == link_children(
                        linked,
                        parent@,
                        paths_view(kids@).take(j as int),
                    ),
                decreases kids.len() - j,
            {
                proof {
                    lemma_link_children_step(linked, parent@, paths_view(kids@), j as int);
                }
                parent_map.insert(kids[j].clone(), parent.clone());
                assert(links_view(parent_map@) =~= link_children(
                    linked,
                    parent@,
                    paths_view(kids@).take(j + 1),
                ));
                j += 1;
            }
            proof {
                assert(paths_view(kids@).take(kids.len() as int) =~= paths_view(kids@));
                lemma_parent_links_step(table, i as int);
            }
            i += 1;
        }
        assert(table.take(tree.children.len() as int) =~= table);

        let ghost mut sent: Seq<DirPath> = Seq::empty();
        let mut k: usize = 0;
        while k < tree.leaves.len()
            invariant
                k <= tree.leaves.len(),
                sent == tree@.leaves.take(k as int),
            decreases tree.leaves.len() - k,
        {
            let leaf = tree.leaves[k].clone();
            proof {
                sent = sent.push(leaf@);
            }
            let _ = tx.send(leaf);
            k += 1;
        }

        let broker = Broker {
            child_counts,
            parent_map,
            work_tx: Some(tx.clone()),
            total_dirs,
            completed: 0,
            dispatched: Ghost(sent),
        };
        (broker, tx, rx)
    }

    /// Records that `dir` has been deleted and returns the directory that this
    /// releases for work, if any; the caller hands it to the work channel.
    /// The report is counted. If it was the last directory, the broker lets go
    /// of its sender. Otherwise the parent of `dir` is released if `dir` was
    /// the last child it waited for.
    ///
    /// Any directory is accepted. One that the broker does not know, or that
    /// has no parent, only moves the counter.
    pub fn complete(&mut self, dir: String) -> (ready: Option<String>)
        requires
            old(self)@.completed < usize::MAX,
        ensures
            final(self)@ == old(self)@.mark_complete(dir@),
            match ready {
                Some(parent) => old(self)@.released(dir@) == Some(parent@),
                None => old(self)@.released(dir@) is None,
            },
            final(self)@.dispatched == match old(self)@.released(dir@) {
                Some(parent) => old(self)@.dispatched.push(parent),
                None => old(self)@.dispatched,
            },
            !old(self)@.open ==> ready is None && final(self)@.dispatched == old(
                self,
            )@.dispatched,
            final(self)@.completed == old(self)@.completed + 1,
            final(self)@.total == old(self)@.total,
            final(self)@.open ==> old(self)@.open,
    {
        self.completed = self.completed + 1;

        if self.completed == self.total_dirs {
            self.work_tx = None;
            return None;
        }
        let parent: Option<String> = match self.parent_map.get(dir.as_str()) {
            Some(p) => Some(p.clone()),
            None => None,
        };

        if let Some(parent_path) = parent {
            let count: Option<usize> = match self.child_counts.get(parent_path.as_str()) {
                Some(c) => Some(*c),
                None => None,
            };
            if let Some(count) = count {
                if count == 1 {
                    self.child_counts.remove(parent_path.as_str());
                    assert(counts_view(self.child_counts@) =~= old(self)@.pending.remove(
                        parent_path@,
                    ));
                    if self.work_tx.is_some() {
                        proof {
                            self.dispatched@ = self.dispatched@.push(parent_path@);
                        }
                        return Some(parent_path);
                    }
                } else if count > 1 {
                    let ghost parent_model = parent_path@;
                    self.child_counts.insert(parent_path, count - 1);
                    assert(counts_view(self.child_counts@) =~= old(self)@.pending.insert(
                        parent_model,
                        (count - 1) as nat,
                    ));
                }
            }
        }
        None
    }

    /// Records that `dir` has been deleted, as `complete` does, and sends the
    /// directory that this releases to the work channel. A send that finds no
    /// receiver is discarded.
    pub fn mark_complete(&mut self, dir: String)
        requires
            old(self)@.completed < usize::MAX,
        ensures
            final(self)@ == old(self)@.mark_complete(dir@),
            final(self)@.completed == old(self)@.completed + 1,
            final(self)@.total == old(self)@.total,
            final(self)@.open ==> old(self)@.open,
    {
        let ready = self.complete(dir);
        if let Some(parent) = ready {
            if let Some(sender) = &self.work_tx {
                let _ = sender.send(parent);
            }
        }
    }

    /// Number of directories that still wait for at least one child.
    pub fn pending_count(&self) -> (count: usize)
        ensures
            count == self@.pending.len(),
    {
        assert(counts_view(self.child_counts@).dom() =~= self.child_counts@.dom());
        self.child_counts.len()
    }

    /// Number of completions reported so far.
    pub fn completed_count(&self) -> (count: usize)
        ensures
            count == self@.completed,
    {
        self.completed
    }

    /// Number of directories of the tree.
    pub fn total_dirs(&self) -> (count: usize)
        ensures
            count == self@.total,
    {
        self.total_dirs
    }
}

} // verus!
