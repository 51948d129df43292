//! Tree discovery as a state machine: the scan names the next directory to
//! list, the caller lists it, and the scan records what was found. Directories
//! are listed in the order in which they were discovered, the root first; the
//! finished tree has them sorted.

use crate::model::{distinct_keys, single_parent, ChildEntry, DirPath, TreeModel};
use crate::order::{key_before, key_le, keys_view, sort_keys, SortKey};
use crate::tree::{entries_view, paths_view, DirectoryTree};
use vstd::hash_map::StringHashMap;
use vstd::prelude::*;
use vstd::seq_lib::{to_multiset_contains, to_multiset_len};

verus! {

/// One entry of a directory listing.
#[derive(Debug)]
pub struct DirEntry {
    /// The full path of the entry.
    pub path: String,
    /// The name of the entry: the last component of its path.
    pub name: String,
    /// Whether the entry is a directory (a symbolic link is not).
    pub is_dir: bool,
}

/// One entry of a directory listing, with the path as a sequence.
pub struct EntryModel {
    pub path: DirPath,
    pub name: DirPath,
    pub is_dir: bool,
}

impl View for DirEntry {
    type V = EntryModel;

    open spec fn view(&self) -> EntryModel {
        EntryModel { path: self.path@, name: self.name@, is_dir: self.is_dir }
    }
}

/// The listing that a list of entries stands for.
pub open spec fn listing_view(entries: Seq<DirEntry>) -> Seq<EntryModel> {
    entries.map_values(|e: DirEntry| e@)
}

/// The test for an entry that is not a directory.
pub open spec fn is_file() -> spec_fn(EntryModel) -> bool {
    |e: EntryModel| !e.is_dir
}

/// The paths of the entries that are not directories, in the order listed.
pub open spec fn listed_files(entries: Seq<EntryModel>) -> Seq<DirPath> {
    entries.filter(is_file()).map_values(|e: EntryModel| e.path)
}

/// The directories of a listing that are not in `known`, each once, in the
/// order listed.
pub open spec fn fresh_dirs(known: Seq<DirPath>, entries: Seq<EntryModel>) -> Seq<DirPath>
    decreases entries.len(),
{
    if entries.len() == 0 {
        Seq::empty()
    } else {
        let earlier = fresh_dirs(known, entries.drop_last());
        let entry = entries.last();
        if entry.is_dir && !known.contains(entry.path) && !earlier.contains(entry.path) {
            earlier.push(entry.path)
        } else {
            earlier
        }
    }
}

/// The names of the directories that `fresh_dirs` gives, in the same order.
pub open spec fn fresh_names(known: Seq<DirPath>, entries: Seq<EntryModel>) -> Seq<DirPath>
    decreases entries.len(),
{
    if entries.len() == 0 {
        Seq::empty()
    } else {
        let earlier = fresh_names(known, entries.drop_last());
        let entry = entries.last();
        if entry.is_dir && !known.contains(entry.path) && !fresh_dirs(
            known,
            entries.drop_last(),
        ).contains(entry.path) {
            earlier.push(entry.name)
        } else {
            earlier
        }
    }
}

/// The names on the way from the root to each child of a directory: those of
/// the directory, then the name of the child.
pub open spec fn kid_trails(parent: Seq<DirPath>, names: Seq<DirPath>) -> Seq<Seq<DirPath>> {
    names.map_values(|name: DirPath| parent.push(name))
}

/// The test for a directory without an entry in the child table.
pub open spec fn childless(children: Seq<ChildEntry>) -> spec_fn(DirPath) -> bool {
    |d: DirPath| !exists|i: int| 0 <= i < children.len() && (#[trigger] children[i]).0 == d
}

/// The state of a scan: the tree found so far, for each of its directories
/// the names on the way from the root, and how many of the directories have
/// been listed. While the scan runs, the tree's directories stand in the
/// order of discovery and it has no leaves yet.
#[verifier::ext_equal]
pub struct ScanModel {
    pub tree: TreeModel,
    pub trails: Seq<Seq<DirPath>>,
    pub listed: nat,
}

impl ScanModel {
    /// The scan that knows only the root.
    pub open spec fn start(root: DirPath) -> ScanModel {
        ScanModel {
            tree: TreeModel {
                dirs: seq![root],
                files: Seq::empty(),
                children: Seq::empty(),
                leaves: Seq::empty(),
                file_count: 0,
            },
            trails: seq![Seq::empty()],
            listed: 0,
        }
    }

    /// Every directory found has been listed.
    pub open spec fn is_complete(self) -> bool {
        self.listed >= self.tree.dirs.len()
    }

    /// The directory that is to be listed next.
    pub open spec fn current(self) -> DirPath {
        self.tree.dirs[self.listed as int]
    }

    /// The state after the listing of the current directory is recorded.
    ///
    /// The files are added to the tree. If the directory was `readable`, its
    /// sub-directories that were not known before are added too and become its
    /// children. A complete scan records nothing.
    pub open spec fn record(self, entries: Seq<EntryModel>, readable: bool) -> ScanModel {
        if self.is_complete() {
            self
        } else {
            let dir = self.current();
            let kids = if readable {
                fresh_dirs(self.tree.dirs, entries)
            } else {
                Seq::empty()
            };
            let names = if readable {
                fresh_names(self.tree.dirs, entries)
            } else {
                Seq::empty()
            };
            let files = self.tree.files + listed_files(entries);
            ScanModel {
                tree: TreeModel {
                    dirs: self.tree.dirs + kids,
                    files,
                    children: if kids.len() > 0 {
                        self.tree.children.push((dir, kids))
                    } else {
                        self.tree.children
                    },
                    leaves: self.tree.leaves,
                    file_count: files.len(),
                },
                trails: self.trails + kid_trails(self.trails[self.listed as int], names),
                listed: self.listed + 1,
            }
        }
    }

    /// What each directory is ordered by, in the order of discovery.
    pub open spec fn keys(self) -> Seq<SortKey> {
        Seq::new(self.tree.dirs.len(), |i: int| (self.trails[i], self.tree.dirs[i]))
    }

    /// What the directory `dir` is ordered by.
    pub open spec fn key_of(self, dir: DirPath) -> SortKey {
        (self.trails[self.tree.dirs.index_of(dir)], dir)
    }

    /// The invariant of a scan: the directories are distinct and the root
    /// comes first; each has its list of names, empty for the root only; only
    /// listed directories have an entry in the child table, each at most one;
    /// every child was found after its parent and has no other parent.
    pub open spec fn wf(self) -> bool {
        let dirs = self.tree.dirs;
        let children = self.tree.children;
        &&& 1 <= dirs.len()
        &&& self.listed <= dirs.len()
        &&& dirs.no_duplicates()
        &&& self.trails.len() == dirs.len()
        &&& forall|i: int| 0 <= i < self.trails.len() ==> (#[trigger] self.trails[i].len() == 0 <==> i == 0)
        &&& self.tree.file_count == self.tree.files.len()
        &&& self.tree.leaves.len() == 0
        &&& distinct_keys(children)
        &&& single_parent(children)
        &&& forall|i: int|
            0 <= i < children.len() ==> {
                &&& dirs.contains((#[trigger] children[i]).0)
                &&& dirs.index_of(children[i].0) < self.listed
                &&& children[i].1.len() > 0
                &&& children[i].1.no_duplicates()
            }
        &&& forall|i: int, j: int|
            0 <= i < children.len() && 0 <= j < children[i].1.len() ==> {
                &&& dirs.contains(#[trigger] children[i].1[j])
                &&& dirs.index_of(children[i].0) < dirs.index_of(children[i].1[j])
            }
    }
}

/// In a list without repetition, an item is found where it stands.
pub proof fn lemma_index_of(s: Seq<DirPath>, k: int)
    requires
        s.no_duplicates(),
        0 <= k < s.len(),
    ensures
        s.contains(s[k]),
        s.index_of(s[k]) == k,
{
}

/// The fresh directories of a listing are distinct and were not known.
pub proof fn lemma_fresh_dirs(known: Seq<DirPath>, entries: Seq<EntryModel>)
    ensures
        fresh_dirs(known, entries).no_duplicates(),
        forall|j: int|
            0 <= j < fresh_dirs(known, entries).len() ==> !known.contains(
                #[trigger] fresh_dirs(known, entries)[j],
            ),
    decreases entries.len(),
{
    if entries.len() > 0 {
        lemma_fresh_dirs(known, entries.drop_last());
    }
}

/// One more entry of a listing adds its path to the fresh directories if it
/// is a directory that is neither known nor fresh already.
pub proof fn lemma_fresh_dirs_step(known: Seq<DirPath>, entries: Seq<EntryModel>, k: int)
    requires
        0 <= k < entries.len(),
    ensures
        fresh_dirs(known, entries.take(k + 1)) == if entries[k].is_dir && !(known + fresh_dirs(
            known,
            entries.take(k),
        )).contains(entries[k].path) {
            fresh_dirs(known, entries.take(k)).push(entries[k].path)
        } else {
            fresh_dirs(known, entries.take(k))
        },
{
    assert(entries.take(k + 1).drop_last() =~= entries.take(k));
    let earlier = fresh_dirs(known, entries.take(k));
    let p = entries[k].path;
    assert((known + earlier).contains(p) <==> known.contains(p) || earlier.contains(p)) by {
        vstd::seq_lib::lemma_seq_concat_contains_all_elements(known, earlier, p);
    }
}

/// One more entry of a listing adds its path to the files if it is not a
/// directory.
pub proof fn lemma_listed_files_step(entries: Seq<EntryModel>, k: int)
    requires
        0 <= k < entries.len(),
    ensures
        listed_files(entries.take(k + 1)) == if entries[k].is_dir {
            listed_files(entries.take(k))
        } else {
            listed_files(entries.take(k)).push(entries[k].path)
        },
{
    assert(entries.take(k + 1) =~= entries.take(k).push(entries[k]));
    Seq::lemma_filter_push(entries.take(k), entries[k], is_file());
}

/// Appending new items to a list without repetition leaves every old item
/// where it stood and puts the new ones behind.
proof fn lemma_positions_after_append(dirs: Seq<DirPath>, kids: Seq<DirPath>)
    requires
        dirs.no_duplicates(),
        kids.no_duplicates(),
        forall|j: int| 0 <= j < kids.len() ==> !dirs.contains(#[trigger] kids[j]),
    ensures
        (dirs + kids).no_duplicates(),
        forall|d: DirPath| #[trigger]
            dirs.contains(d) ==> (dirs + kids).contains(d) && (dirs + kids).index_of(d)
                == dirs.index_of(d),
        forall|j: int|
            0 <= j < kids.len() ==> (dirs + kids).contains(#[trigger] kids[j]) && (dirs
                + kids).index_of(kids[j]) == dirs.len() + j,
        forall|d: DirPath| #[trigger]
            (dirs + kids).contains(d) ==> dirs.contains(d) || kids.contains(d),
{
    let all = dirs + kids;
    assert forall|i: int, j: int| 0 <= i < dirs.len() && 0 <= j < kids.len() implies dirs[i]
        != kids[j] by {
        assert(dirs.contains(dirs[i]));
    }
    vstd::seq_lib::lemma_no_dup_in_concat(dirs, kids);
    assert forall|d: DirPath| #[trigger] dirs.contains(d) implies all.contains(d) && all.index_of(d)
        == dirs.index_of(d) by {
        let k = dirs.index_of(d);
        lemma_index_of(all, k);
    }
    assert forall|j: int| 0 <= j < kids.len() implies all.contains(#[trigger] kids[j])
        && all.index_of(kids[j]) == dirs.len() + j by {
        lemma_index_of(all, dirs.len() + j);
    }
    assert forall|d: DirPath| #[trigger] all.contains(d) implies dirs.contains(d) || kids.contains(
        d,
    ) by {
        vstd::seq_lib::lemma_seq_concat_contains_all_elements(dirs, kids, d);
    }
}

/// As many names as directories are fresh.
pub proof fn lemma_fresh_names_len(known: Seq<DirPath>, entries: Seq<EntryModel>)
    ensures
        fresh_names(known, entries).len() == fresh_dirs(known, entries).len(),
    decreases entries.len(),
{
    if entries.len() > 0 {
        lemma_fresh_names_len(known, entries.drop_last());
    }
}

/// One more entry of a listing adds its name to the fresh names exactly when
/// it adds its path to the fresh directories.
pub proof fn lemma_fresh_names_step(known: Seq<DirPath>, entries: Seq<EntryModel>, k: int)
    requires
        0 <= k < entries.len(),
    ensures
        fresh_names(known, entries.take(k + 1)) == if entries[k].is_dir && !(known + fresh_dirs(
            known,
            entries.take(k),
        )).contains(entries[k].path) {
            fresh_names(known, entries.take(k)).push(entries[k].name)
        } else {
            fresh_names(known, entries.take(k))
        },
{
    assert(entries.take(k + 1).drop_last() =~= entries.take(k));
    let earlier = fresh_dirs(known, entries.take(k));
    let p = entries[k].path;
    assert((known + earlier).contains(p) <==> known.contains(p) || earlier.contains(p)) by {
        vstd::seq_lib::lemma_seq_concat_contains_all_elements(known, earlier, p);
    }
}

/// Recording a listing keeps the scan's invariant.
pub proof fn lemma_record_keeps_wf(scan: ScanModel, entries: Seq<EntryModel>, readable: bool)
    requires
        scan.wf(),
    ensures
        scan.record(entries, readable).wf(),
{
    if !scan.is_complete() {
        let next = scan.record(entries, readable);
        let dirs = scan.tree.dirs;
        let children = scan.tree.children;
        let n = scan.listed as int;
        let dir = dirs[n];
        let kids = if readable {
            fresh_dirs(dirs, entries)
        } else {
            Seq::empty()
        };
        let dirs2 = next.tree.dirs;
        let children2 = next.tree.children;
        if readable {
            lemma_fresh_dirs(dirs, entries);
            lemma_fresh_names_len(dirs, entries);
        }
        lemma_positions_after_append(dirs, kids);
        lemma_index_of(dirs, n);

        assert forall|i: int| 0 <= i < next.trails.len() implies (#[trigger] next.trails[i].len()
            == 0 <==> i == 0) by {
            if i < scan.trails.len() {
                assert(next.trails[i] == scan.trails[i]);
            }
        }
        assert forall|i: int| 0 <= i < children.len() implies (#[trigger] children[i]).0 != dir by {
            assert(dirs.index_of(children[i].0) < n);
        }
        if kids.len() > 0 {
            assert(children2[children.len() as int] == (dir, kids));
            assert forall|i: int| 0 <= i < children2.len() implies {
                &&& dirs2.contains((#[trigger] children2[i]).0)
                &&& dirs2.index_of(children2[i].0) < next.listed
                &&& children2[i].1.len() > 0
                &&& children2[i].1.no_duplicates()
            } by {
                if i < children.len() {
                    assert(dirs.contains(children[i].0));
                } else {
                    assert(dirs.contains(dir));
                }
            }
            assert forall|i: int, j: int|
                0 <= i < children2.len() && 0 <= j < children2[i].1.len() implies {
                &&& dirs2.contains(#[trigger] children2[i].1[j])
                &&& dirs2.index_of(children2[i].0) < dirs2.index_of(children2[i].1[j])
            } by {
                if i < children.len() {
                    assert(dirs.contains(children[i].0));
                    assert(dirs.contains(children[i].1[j]));
                } else {
                    assert(dirs.contains(dir));
                }
            }
            assert(single_parent(children2)) by {
                assert forall|i: int, j: int, k: int, l: int|
                    0 <= i < children2.len() && 0 <= j < children2[i].1.len() && 0 <= k
                        < children2.len() && 0 <= l < children2[k].1.len()
                        && #[trigger] children2[i].1[j]
                        == #[trigger] children2[k].1[l] implies i == k by {
                    if i < children.len() {
                        assert(dirs.contains(children[i].1[j]));
                    }
                    if k < children.len() {
                        assert(dirs.contains(children[k].1[l]));
                    }
                }
            }
        } else {
            assert(dirs2 =~= dirs);
        }
    }
}

/// The sorted keys of a scan hold each directory once, with the names that
/// the scan has for it, each before all that follow.
pub proof fn lemma_sorted_keys(scan: ScanModel, sorted: Seq<SortKey>)
    requires
        scan.wf(),
        sorted.to_multiset() == scan.keys().to_multiset(),
        forall|i: int, j: int|
            0 <= i < j < sorted.len() ==> key_le(#[trigger] sorted[i], #[trigger] sorted[j]),
    ensures
        sorted.len() == scan.tree.dirs.len(),
        sorted.no_duplicates(),
        forall|i: int|
            0 <= i < sorted.len() ==> scan.tree.dirs.contains((#[trigger] sorted[i]).1)
                && scan.key_of(sorted[i].1) == sorted[i],
        forall|d: DirPath|
            scan.tree.dirs.contains(d) ==> exists|i: int|
                0 <= i < sorted.len() && (#[trigger] sorted[i]).1 == d,
        forall|i: int, j: int|
            0 <= i < j < sorted.len() ==> (#[trigger] sorted[i]).1 != (#[trigger] sorted[j]).1
                && key_before(sorted[i], sorted[j]),
        sorted[0].1 == scan.tree.dirs[0],
{
    let keys = scan.keys();
    let dirs = scan.tree.dirs;
    to_multiset_len(sorted);
    to_multiset_len(keys);
    assert(keys.no_duplicates()) by {
        assert forall|i: int, j: int|
            0 <= i < keys.len() && 0 <= j < keys.len() && i != j implies keys[i] != keys[j] by {
            assert(dirs[i] != dirs[j]);
        }
    }
    keys.lemma_multiset_has_no_duplicates();
    sorted.lemma_multiset_has_no_duplicates_conv();
    assert forall|i: int| 0 <= i < sorted.len() implies dirs.contains((#[trigger] sorted[i]).1)
        && scan.key_of(sorted[i].1) == sorted[i] by {
        to_multiset_contains(sorted, sorted[i]);
        to_multiset_contains(keys, sorted[i]);
        assert(sorted.contains(sorted[i]));
        let m = choose|m: int| 0 <= m < keys.len() && keys[m] == sorted[i];
        lemma_index_of(dirs, m);
    }
    assert forall|d: DirPath| dirs.contains(d) implies exists|i: int|
        0 <= i < sorted.len() && (#[trigger] sorted[i]).1 == d by {
        let m = dirs.index_of(d);
        to_multiset_contains(sorted, keys[m]);
        to_multiset_contains(keys, keys[m]);
        assert(keys.contains(keys[m]));
        let i = choose|i: int| 0 <= i < sorted.len() && sorted[i] == keys[m];
        assert(sorted[i].1 == d);
    }
    assert forall|i: int, j: int| 0 <= i < j < sorted.len() implies (#[trigger] sorted[i]).1 != (
    #[trigger] sorted[j]).1 && key_before(sorted[i], sorted[j]) by {
        assert(sorted[i] != sorted[j]);
        assert(key_le(sorted[i], sorted[j]));
    }
    // nothing comes before the root, whose list of names is empty
    lemma_index_of(dirs, 0);
    let at = choose|i: int| 0 <= i < sorted.len() && (#[trigger] sorted[i]).1 == dirs[0];
    if at > 0 {
        assert(key_before(sorted[0], sorted[at]));
        assert(scan.key_of(sorted[at].1) == sorted[at]);
        assert(sorted[at].0.len() == 0);
        let first = sorted[0];
        assert(scan.key_of(first.1) == first);
        assert(first.0.len() == 0);
        assert(scan.tree.dirs.index_of(first.1) == 0);
    }
}

/// The members of a list without repetition that pass a test are without
/// repetition, and they are the members that pass the test.
pub proof fn lemma_filter_of_distinct(s: Seq<DirPath>, pass: spec_fn(DirPath) -> bool)
    requires
        s.no_duplicates(),
    ensures
        s.filter(pass).no_duplicates(),
        forall|d: DirPath| #[trigger] s.filter(pass).contains(d) <==> s.contains(d) && pass(d),
    decreases s.len(),
{
    reveal(Seq::filter);
    if s.len() > 0 {
        let rest = s.drop_last();
        lemma_filter_of_distinct(rest, pass);
        let kept = rest.filter(pass);
        assert forall|d: DirPath| s.contains(d) <==> rest.contains(d) || d == s.last() by {
            if s.contains(d) {
                let i = choose|i: int| 0 <= i < s.len() && s[i] == d;
                if i < rest.len() {
                    assert(rest[i] == d);
                }
            }
            if rest.contains(d) {
                let i = choose|i: int| 0 <= i < rest.len() && rest[i] == d;
                assert(s[i] == d);
            }
            if d == s.last() {
                assert(s[s.len() - 1] == d);
            }
        }
        assert(!rest.contains(s.last())) by {
            if rest.contains(s.last()) {
                let i = choose|i: int| 0 <= i < rest.len() && rest[i] == s.last();
                assert(s[i] == s[s.len() - 1]);
            }
        }
        if pass(s.last()) {
            let all = kept.push(s.last());
            assert forall|d: DirPath| all.contains(d) <==> kept.contains(d) || d == s.last() by {
                vstd::seq_lib::lemma_seq_contains_after_push(kept, s.last(), d);
            }
            assert forall|i: int, j: int|
                0 <= i < all.len() && 0 <= j < all.len() && i != j implies all[i] != all[j] by {
                if i < kept.len() {
                    assert(kept.contains(all[i]));
                }
                if j < kept.len() {
                    assert(kept.contains(all[j]));
                }
            }
        }
    }
}

/// A tree that holds the directories of a scan, each once, with the scan's
/// child table, and whose leaves are its directories without children, is well
/// formed.
pub proof fn lemma_sorted_tree_is_wf(scan: ScanModel, tree: TreeModel)
    requires
        scan.wf(),
        tree.children == scan.tree.children,
        tree.dirs.no_duplicates(),
        forall|d: DirPath| tree.dirs.contains(d) <==> scan.tree.dirs.contains(d),
        tree.leaves == tree.dirs.filter(childless(tree.children)),
    ensures
        tree.wf(),
{
    let dirs = scan.tree.dirs;
    let children = scan.tree.children;
    lemma_filter_of_distinct(tree.dirs, childless(tree.children));
    assert forall|d: DirPath| #[trigger]
        tree.leaves.contains(d) <==> tree.dirs.contains(d) && !tree.has_children(d) by {
        assert(childless(tree.children)(d) == !tree.has_children(d));
    }
    assert forall|i: int| 0 <= i < tree.children.len() implies tree.dirs.contains(
        (#[trigger] tree.children[i]).0,
    ) by {
        assert(dirs.contains(children[i].0));
    }
    assert forall|i: int, j: int|
        0 <= i < tree.children.len() && 0 <= j < tree.children[i].1.len()
        implies tree.dirs.contains(#[trigger] tree.children[i].1[j]) by {
        assert(dirs.contains(children[i].1[j]));
    }
    let rank = |d: DirPath|
        if dirs.contains(d) {
            (dirs.len() - dirs.index_of(d)) as nat
        } else {
            0nat
        };
    assert(tree.ranked_by(rank)) by {
        assert forall|i: int, j: int|
            0 <= i < tree.children.len() && 0 <= j < tree.children[i].1.len() implies rank(
            #[trigger] tree.children[i].1[j],
        ) < rank(tree.children[i].0) by {
            assert(dirs.contains(children[i].0));
            assert(dirs.contains(children[i].1[j]));
        }
    }
}

/// The lists of names that a list of lists of strings stands for.
pub open spec fn trails_view(trails: Seq<Vec<String>>) -> Seq<Seq<DirPath>> {
    trails.map_values(|t: Vec<String>| paths_view(t@))
}

/// A scan in progress.
pub struct TreeScan {
    /// The tree found so far; `dirs` is in the order of discovery.
    tree: DirectoryTree,
    /// For each directory of `tree.dirs`, the names on the way from the root.
    trails: Vec<Vec<String>>,
    /// The directories found so far, for lookup.
    known: StringHashMap<()>,
    /// The directories with an entry in the child table, for lookup.
    parents: StringHashMap<()>,
    /// How many directories of `tree.dirs` have been listed.
    cursor: usize,
}

impl View for TreeScan {
    type V = ScanModel;

    closed spec fn view(&self) -> ScanModel {
        ScanModel {
            tree: self.tree@,
            trails: trails_view(self.trails@),
            listed: self.cursor as nat,
        }
    }
}

/// A copy of `trail` with `name` added, or without it.
fn extended_trail(trail: &Vec<String>, name: Option<&String>) -> (longer: Vec<String>)
    ensures
        paths_view(longer@) == match name {
            Some(n) => paths_view(trail@).push(n@),
            None => paths_view(trail@),
        },
{
    let mut longer: Vec<String> = Vec::new();
    let mut i: usize = 0;
    while i < trail.len()
        invariant
            i <= trail.len(),
            paths_view(longer@) == paths_view(trail@).take(i as int),
        decreases trail.len() - i,
    {
        let ghost copied = paths_view(longer@);
        longer.push(trail[i].clone());
        assert(paths_view(longer@) =~= copied.push(trail[i as int]@));
        assert(paths_view(trail@).take(i + 1) =~= copied.push(trail[i as int]@));
        i += 1;
    }
    assert(paths_view(trail@).take(trail.len() as int) =~= paths_view(trail@));
    if let Some(n) = name {
        let ghost copied = paths_view(longer@);
        longer.push(n.clone());
        assert(paths_view(longer@) =~= copied.push(n@));
    }
    longer
}

impl TreeScan {
    /// The scan keeps its invariant, and its lookup tables hold exactly the
    /// directories found and those among them that have children.
    pub closed spec fn wf(&self) -> bool {
        &&& self@.wf()
        &&& self.known@.dom() =~= self.tree@.dirs.to_set()
        &&& forall|d: DirPath| #[trigger]
            self.parents@.contains_key(d) <==> self.tree@.has_children(d)
    }

    /// What holds of every scan: the invariant of its model.
    pub proof fn lemma_model_is_wf(&self)
        requires
            self.wf(),
        ensures
            self@.wf(),
    {
    }

    /// A scan that is about to list `root`.
    pub fn new(root: String) -> (scan: TreeScan)
        ensures
            scan.wf(),
            scan@ == ScanModel::start(root@),
    {
        let mut tree = DirectoryTree::new();
        let mut known: StringHashMap<()> = StringHashMap::new();
        let mut trails: Vec<Vec<String>> = Vec::new();
        known.insert(root.clone(), ());
        tree.dirs.push(root);
        trails.push(Vec::new());
        let scan = TreeScan { tree, trails, known, parents: StringHashMap::new(), cursor: 0 };
        proof {
            let dirs = scan@.tree.dirs;
            assert(dirs =~= seq![root@]);
            assert(scan@.trails[0] =~= Seq::empty());
            assert(scan@.trails =~= seq![Seq::empty()]);
            assert(scan.known@.dom() =~= dirs.to_set()) by {
                assert forall|d: DirPath| scan.known@.dom().contains(d) <==> dirs.to_set().contains(
                    d,
                ) by {
                    if d == root@ {
                        assert(dirs[0] == d);
                    }
                }
            }
        }
        scan
    }

    /// The directory that is to be listed next, or `None` when every
    /// directory found has been listed.
    pub fn next_directory(&self) -> (next: Option<String>)
        ensures
            match next {
                Some(dir) => !self@.is_complete() && dir@ == self@.current(),
                None => self@.is_complete(),
            },
    {
        if self.cursor < self.tree.dirs.len() {
            Some(self.tree.dirs[self.cursor].clone())
        } else {
            None
        }
    }

    fn record(&mut self, entries: Vec<DirEntry>, readable: bool)
        requires
            old(self).wf(),
        ensures
            final(self).wf(),
            final(self)@ == old(self)@.record(listing_view(entries@), readable),
    {
        if self.cursor >= self.tree.dirs.len() {
            return ;
        }
        let dir = self.tree.dirs[self.cursor].clone();
        let ghost before = self@;
        let ghost listing = listing_view(entries@);
        let ghost trail = before.trails[before.listed as int];
        let mut kids: Vec<String> = Vec::new();
        let ghost mut names: Seq<DirPath> = Seq::empty();

        assert(listed_files(listing.take(0)) =~= Seq::<DirPath>::empty()) by {
            reveal(Seq::filter);
        }
        assert(before.trails + kid_trails(trail, names) =~= before.trails);
        let mut k: usize = 0;
        while k < entries.len()
            invariant
                k <= entries.len(),
                listing == listing_view(entries@),
                before == old(self)@,
                trail == before.trails[before.listed as int],
                self.cursor == old(self).cursor,
                self.cursor < before.trails.len(),
                self.tree.children == old(self).tree.children,
                self.tree.leaves == old(self).tree.leaves,
                self.parents == old(self).parents,
                paths_view(self.tree.dirs@) == before.tree.dirs + paths_view(kids@),
                paths_view(kids@) == if readable {
                    fresh_dirs(before.tree.dirs, listing.take(k as int))
                } else {
                    Seq::empty()
                },
                names == if readable {
                    fresh_names(before.tree.dirs, listing.take(k as int))
                } else {
                    Seq::empty()
                },
                trails_view(self.trails@) == before.trails + kid_trails(trail, names),
                paths_view(self.tree.files@) == before.tree.files + listed_files(
                    listing.take(k as int),
                ),
                self.known@.dom() =~= paths_view(self.tree.dirs@).to_set(),
            decreases entries.len() - k,
        {
            let entry = &entries[k];
            let ghost found = paths_view(self.tree.dirs@);
            let ghost fresh = paths_view(kids@);
            let ghost files = paths_view(self.tree.files@);
            let ghost so_far = trails_view(self.trails@);
            proof {
                lemma_fresh_dirs_step(before.tree.dirs, listing, k as int);
                lemma_fresh_names_step(before.tree.dirs, listing, k as int);
                lemma_listed_files_step(listing, k as int);
            }
            if entry.is_dir {
                if readable && !self.known.contains_key(entry.path.as_str()) {
                    assert(so_far.len() == self.trails@.len());
                    assert(so_far[self.cursor as int] == trail);
                    let longer = extended_trail(&self.trails[self.cursor], Some(&entry.name));
                    self.known.insert(entry.path.clone(), ());
                    self.tree.dirs.push(entry.path.clone());
                    self.trails.push(longer);
                    kids.push(entry.path.clone());
                    proof {
                        assert(paths_view(self.tree.dirs@) =~= found.push(entry.path@));
                        assert(found.push(entry.path@) =~= before.tree.dirs + fresh.push(
                            entry.path@,
                        ));
                        found.lemma_push_to_set_commute(entry.path@);
                        assert(trails_view(self.trails@) =~= so_far.push(trail.push(entry.name@)));
                        assert(so_far.push(trail.push(entry.name@)) =~= before.trails + kid_trails(
                            trail,
                            names.push(entry.name@),
                        ));
                        names = names.push(entry.name@);
                    }
                }
            } else {
                self.tree.files.push(entry.path.clone());
                proof {
                    assert(files.push(entry.path@) =~= before.tree.files + listed_files(
                        listing.take(k as int),
                    ).push(entry.path@));
                }
            }
            k += 1;
        }
        assert(listing.take(entries.len() as int) =~= listing);
        self.tree.file_count = self.tree.files.len();
        let ghost dir_path = dir@;
        let ghost kid_paths = paths_view(kids@);
        let ghost table = entries_view(self.tree.children@);
        if kids.len() > 0 {
            self.parents.insert(dir.clone(), ());
            self.tree.children.push((dir, kids));
            assert(entries_view(self.tree.children@) =~= table.push((dir_path, kid_paths)));
        }
        self.cursor = self.cursor + 1;
        proof {
            lemma_record_keeps_wf(before, listing, readable);
            assert(self@ =~= before.record(listing, readable));
            assert forall|d: DirPath| #[trigger]
                self.parents@.contains_key(d) <==> self.tree@.has_children(d) by {
                let now = self.tree@.children;
                if self.tree@.has_children(d) {
                    let i = choose|i: int| 0 <= i < now.len() && (#[trigger] now[i]).0 == d;
                    if i < table.len() {
                        assert(table[i].0 == d);
                        assert(old(self).tree@.has_children(d));
                    }
                }
                if old(self).tree@.has_children(d) {
                    let i = choose|i: int| 0 <= i < table.len() && (#[trigger] table[i]).0 == d;
                    assert(now[i].0 == d);
                }
                if kid_paths.len() > 0 && d == dir_path {
                    assert(now[table.len() as int].0 == d);
                }
            }
        }
    }

    /// Records the complete listing of the directory that `next_directory`
    /// named: its files, and its sub-directories, which will be listed in
    /// turn.
    pub fn record_listing(&mut self, entries: Vec<DirEntry>)
        requires
            old(self).wf(),
        ensures
            final(self).wf(),
            final(self)@ == old(self)@.record(listing_view(entries@), true),
    {
        self.record(entries, true)
    }

    /// Records that the directory that `next_directory` named could not be
    /// read to the end. The files in `seen`, the entries that were read before
    /// the failure, are kept; its sub-directories are not followed, so that
    /// the directory counts as a leaf.
    pub fn record_unreadable(&mut self, seen: Vec<DirEntry>)
        requires
            old(self).wf(),
        ensures
            final(self).wf(),
            final(self)@ == old(self)@.record(listing_view(seen@), false),
    {
        self.record(seen, false)
    }

    /// The tree that was found, whatever was recorded.
    ///
    /// Its directories are those of the scan, each once, in ascending order:
    /// by the names on the way from the root, as paths are ordered component
    /// by component, so that the root comes first. Its leaves are its
    /// directories without an entry in the child table, in that same order; a
    /// directory that was never listed is among them. Files and child table
    /// are as recorded, and the tree is well formed.
    pub fn finish(self) -> (tree: DirectoryTree)
        requires
            self.wf(),
        ensures
            tree@.files == self@.tree.files,
            tree@.file_count == tree@.files.len(),
            tree@.children == self@.tree.children,
            tree@.dirs.len() == self@.tree.dirs.len(),
            tree@.dirs.no_duplicates(),
            forall|d: DirPath| tree@.dirs.contains(d) <==> self@.tree.dirs.contains(d),
            forall|i: int, j: int|
                0 <= i < j < tree@.dirs.len() ==> key_before(
                    self@.key_of(#[trigger] tree@.dirs[i]),
                    self@.key_of(#[trigger] tree@.dirs[j]),
                ),
            tree@.dirs[0] == self@.tree.dirs[0],
            tree@.leaves == tree@.dirs.filter(childless(tree@.children)),
            tree@.wf(),
    {
        let ghost scan = self@;
        let count = self.tree.dirs.len();
        let mut keys: Vec<(Vec<String>, String)> = Vec::new();
        let mut i: usize = 0;
        while i < count
            invariant
                i <= count,
                count == self.tree.dirs.len(),
                count == self.trails.len(),
                scan == self@,
                keys_view(keys@) == scan.keys().take(i as int),
            decreases count - i,
        {
            let ghost copied = keys_view(keys@);
            let trail = extended_trail(&self.trails[i], None);
            keys.push((trail, self.tree.dirs[i].clone()));
            assert(scan.trails[i as int] == paths_view(self.trails[i as int]@));
            assert(keys_view(keys@) =~= copied.push(scan.keys()[i as int]));
            assert(scan.keys().take(i + 1) =~= copied.push(scan.keys()[i as int]));
            i += 1;
        }
        assert(scan.keys().take(count as int) =~= scan.keys());
        sort_keys(&mut keys);
        let ghost sorted = keys_view(keys@);
        proof {
            lemma_sorted_keys(scan, sorted);
        }

        let mut dirs: Vec<String> = Vec::new();
        let mut leaves: Vec<String> = Vec::new();
        let ghost order = sorted.map_values(|key: SortKey| key.1);
        let ghost pass = childless(scan.tree.children);
        assert(paths_view(leaves@) =~= order.take(0).filter(pass)) by {
            reveal(Seq::filter);
        }
        let mut k: usize = 0;
        while k < keys.len()
            invariant
                k <= keys.len(),
                scan == self@,
                self.wf(),
                sorted == keys_view(keys@),
                order == sorted.map_values(|key: SortKey| key.1),
                pass == childless(scan.tree.children),
                paths_view(dirs@) == order.take(k as int),
                paths_view(leaves@) == order.take(k as int).filter(pass),
            decreases keys.len() - k,
        {
            let dir = &keys[k].1;
            proof {
                assert(order.take(k + 1) =~= order.take(k as int).push(order[k as int]));
                Seq::lemma_filter_push(order.take(k as int), order[k as int], pass);
                assert(pass(dir@) == !scan.tree.has_children(dir@));
            }
            if !self.parents.contains_key(dir.as_str()) {
                leaves.push(dir.clone());
                assert(paths_view(leaves@) =~= order.take(k as int).filter(pass).push(dir@));
            }
            dirs.push(dir.clone());
            assert(paths_view(dirs@) =~= order.take(k + 1));
            k += 1;
        }
        assert(order.take(keys.len() as int) =~= order);
        let tree = DirectoryTree {
            dirs,
            files: self.tree.files,
            children: self.tree.children,
            leaves,
            file_count: self.tree.file_count,
        };
        proof {
            assert forall|d: DirPath| tree@.dirs.contains(d) <==> scan.tree.dirs.contains(d) by {
                if tree@.dirs.contains(d) {
                    let i = choose|i: int| 0 <= i < order.len() && order[i] == d;
                    assert(sorted[i].1 == d);
                }
                if scan.tree.dirs.contains(d) {
                    let i = choose|i: int| 0 <= i < sorted.len() && (#[trigger] sorted[i]).1 == d;
                    assert(order[i] == d);
                }
            }
            assert forall|i: int, j: int| 0 <= i < j < tree@.dirs.len() implies key_before(
                scan.key_of(#[trigger] tree@.dirs[i]),
                scan.key_of(#[trigger] tree@.dirs[j]),
            ) by {
                assert(scan.key_of(sorted[i].1) == sorted[i]);
                assert(scan.key_of(sorted[j].1) == sorted[j]);
                assert(sorted[i].1 != sorted[j].1 && key_before(sorted[i], sorted[j]));
            }
            assert(tree@.dirs.no_duplicates()) by {
                assert forall|i: int, j: int|
                    0 <= i < order.len() && 0 <= j < order.len() && i != j implies order[i]
                    != order[j] by {
                    if i < j {
                        assert(sorted[i].1 != sorted[j].1);
                    } else {
                        assert(sorted[j].1 != sorted[i].1);
                    }
                }
            }
            lemma_sorted_tree_is_wf(scan, tree@);
        }
        tree
    }
}

} // verus!
