//! The directory tree that the broker consumes, and the scan that builds it
//! from directory listings.

use crate::model::{ChildEntry, DirPath, TreeModel};
use vstd::prelude::*;

verus! {

/// The paths that a list of strings stands for.
pub open spec fn paths_view(paths: Seq<String>) -> Seq<DirPath> {
    paths.map_values(|p: String| p@)
}

/// The child table that a list of entries stands for.
pub open spec fn entries_view(entries: Seq<(String, Vec<String>)>) -> Seq<ChildEntry> {
    entries.map_values(|e: (String, Vec<String>)| (e.0@, paths_view(e.1@)))
}

/// A snapshot of the directory hierarchy under a root.
#[derive(Debug)]
pub struct DirectoryTree {
    /// All directories in the tree.
    pub dirs: Vec<String>,
    /// All files in the tree.
    pub files: Vec<String>,
    /// For each directory with subdirectories, the list of them. A directory
    /// has at most one entry.
    pub children: Vec<(String, Vec<String>)>,
    /// Directories with no subdirectories: the initial work set.
    pub leaves: Vec<String>,
    /// Total number of files in the tree.
    pub file_count: usize,
}

impl View for DirectoryTree {
    type V = TreeModel;

    open spec fn view(&self) -> TreeModel {
        TreeModel {
            dirs: paths_view(self.dirs@),
            files: paths_view(self.files@),
            children: entries_view(self.children@),
            leaves: paths_view(self.leaves@),
            file_count: self.file_count as nat,
        }
    }
}

impl DirectoryTree {
    /// The tree without any directory.
    pub open spec fn empty_model() -> TreeModel {
        TreeModel {
            dirs: Seq::empty(),
            files: Seq::empty(),
            children: Seq::empty(),
            leaves: Seq::empty(),
            file_count: 0,
        }
    }

    /// An empty tree, to be filled in.
    pub fn new() -> (tree: Self)
        ensures
            tree@ == Self::empty_model(),
    {
        Self {
            dirs: Vec::new(),
            files: Vec::new(),
            children: Vec::new(),
            leaves: Vec::new(),
            file_count: 0,
        }
    }
}

impl Default for DirectoryTree {
    fn default() -> (tree: Self)
        ensures
            tree@ == Self::empty_model(),
    {
        Self::new()
    }
}

} // verus!
