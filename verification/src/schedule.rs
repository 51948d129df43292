//! Runs of the broker: what holds of every state that is reached when the
//! workers report each directory at most once and only after it was
//! dispatched to them.

use crate::model::{parent_links, pending_counts, BrokerModel, DirPath, TreeModel};
use crate::tables::{
    lemma_parent_links_domain, lemma_parent_links_value, lemma_pending_counts_domain,
    lemma_pending_counts_value,
};
use vstd::prelude::*;
use vstd::seq_lib::{lemma_seq_contains_after_push, seq_to_set_is_finite};
use vstd::set_lib::{lemma_len_subset, lemma_set_disjoint_lens, lemma_subset_equality};

verus! {

/// The completions in `done` follow the workers' discipline on `tree`: no
/// directory is reported twice, and each is reported only after the broker
/// has dispatched it.
pub open spec fn disciplined(tree: TreeModel, done: Seq<DirPath>) -> bool {
    &&& done.no_duplicates()
    &&& forall|i: int|
        0 <= i < done.len() ==> BrokerModel::initial(tree).run(done.take(i)).dispatched.contains(
            #[trigger] done[i],
        )
}

/// The number of directories in `kids` that are not in `done`.
pub open spec fn remaining(kids: Seq<DirPath>, done: Seq<DirPath>) -> nat
    decreases kids.len(),
{
    if kids.len() == 0 {
        0
    } else {
        remaining(kids.drop_last(), done) + if done.contains(kids.last()) {
            0nat
        } else {
            1nat
        }
    }
}

/// Before any report, all children remain.
proof fn lemma_remaining_at_start(kids: Seq<DirPath>)
    ensures
        remaining(kids, Seq::empty()) == kids.len(),
    decreases kids.len(),
{
    if kids.len() > 0 {
        lemma_remaining_at_start(kids.drop_last());
    }
}

/// None remains exactly when every child is done.
proof fn lemma_remaining_zero(kids: Seq<DirPath>, done: Seq<DirPath>)
    ensures
        remaining(kids, done) == 0 <==> forall|j: int|
            0 <= j < kids.len() ==> done.contains(#[trigger] kids[j]),
    decreases kids.len(),
{
    if kids.len() > 0 {
        let rest = kids.drop_last();
        lemma_remaining_zero(rest, done);
        if remaining(kids, done) == 0 {
            assert forall|j: int| 0 <= j < kids.len() implies done.contains(#[trigger] kids[j]) by {
                if j < rest.len() {
                    assert(rest[j] == kids[j]);
                }
            }
        }
    }
}

/// The report of a directory that is not among `kids` changes nothing.
proof fn lemma_remaining_other(kids: Seq<DirPath>, done: Seq<DirPath>, d: DirPath)
    requires
        !kids.contains(d),
    ensures
        remaining(kids, done.push(d)) == remaining(kids, done),
    decreases kids.len(),
{
    if kids.len() > 0 {
        let rest = kids.drop_last();
        lemma_remaining_other(rest, done, d);
        lemma_seq_contains_after_push(done, d, kids.last());
    }
}

/// The first report of one of `kids` leaves one less.
proof fn lemma_remaining_one_less(kids: Seq<DirPath>, done: Seq<DirPath>, d: DirPath)
    requires
        kids.no_duplicates(),
        kids.contains(d),
        !done.contains(d),
    ensures
        remaining(kids, done) >= 1,
        remaining(kids, done.push(d)) == remaining(kids, done) - 1,
    decreases kids.len(),
{
    let rest = kids.drop_last();
    lemma_seq_contains_after_push(done, d, kids.last());
    if kids.last() == d {
        lemma_remaining_other(rest, done, d);
    } else {
        let j = choose|j: int| 0 <= j < kids.len() && kids[j] == d;
        assert(rest[j] == d);
        lemma_remaining_one_less(rest, done, d);
    }
}

/// A list without repetition whose members all occur in a second such list
/// is no longer than the second, and as long only if it holds all of it.
proof fn lemma_distinct_within(part: Seq<DirPath>, whole: Seq<DirPath>)
    requires
        part.no_duplicates(),
        whole.no_duplicates(),
        forall|x: DirPath| part.contains(x) ==> whole.contains(x),
    ensures
        part.len() <= whole.len(),
        part.len() == whole.len() ==> forall|x: DirPath| whole.contains(x) ==> part.contains(x),
{
    part.unique_seq_to_set();
    whole.unique_seq_to_set();
    seq_to_set_is_finite(part);
    seq_to_set_is_finite(whole);
    assert(part.to_set().subset_of(whole.to_set())) by {
        assert forall|x: DirPath| part.to_set().contains(x) implies whole.to_set().contains(x) by {
            assert(part.contains(x));
        }
    }
    lemma_len_subset(part.to_set(), whole.to_set());
    if part.len() == whole.len() {
        lemma_subset_equality(part.to_set(), whole.to_set());
        assert forall|x: DirPath| whole.contains(x) implies part.contains(x) by {
            assert(whole.to_set().contains(x));
        }
    }
}

/// Entry `i` of the child table agrees with the broker's state: its directory
/// either still waits, undispatched, for as many children as are not done, at
/// least one; or all of its children are done and it has been dispatched.
spec fn entry_settled(tree: TreeModel, done: Seq<DirPath>, s: BrokerModel, i: int) -> bool {
    let parent = tree.children[i].0;
    let left = remaining(tree.children[i].1, done);
    if s.pending.contains_key(parent) {
        &&& !s.dispatched.contains(parent)
        &&& s.pending[parent] == left
        &&& left >= 1
    } else {
        &&& s.dispatched.contains(parent)
        &&& left == 0
    }
}

/// The broker's state `s` agrees with `tree` and with the completions `done`.
spec fn consistent(tree: TreeModel, done: Seq<DirPath>, s: BrokerModel) -> bool {
    &&& s.total == tree.dirs.len()
    &&& s.completed == done.len()
    &&& s.parent_of == parent_links(tree.children)
    &&& done.len() <= tree.dirs.len()
    &&& s.open <==> (done.len() < tree.dirs.len() || tree.dirs.len() == 0)
    &&& s.dispatched.no_duplicates()
    &&& forall|d: DirPath| #[trigger] s.dispatched.contains(d) ==> tree.dirs.contains(d)
    &&& forall|d: DirPath| #[trigger] done.contains(d) ==> s.dispatched.contains(d)
    &&& forall|d: DirPath| #[trigger] tree.leaves.contains(d) ==> s.dispatched.contains(d)
    &&& forall|p: DirPath| #[trigger] s.pending.contains_key(p) ==> tree.has_children(p)
    &&& forall|i: int| 0 <= i < tree.children.len() ==> #[trigger] entry_settled(tree, done, s, i)
}

/// The state right after construction agrees with the tree.
proof fn lemma_initial_consistent(tree: TreeModel)
    requires
        tree.wf(),
    ensures
        consistent(tree, Seq::empty(), BrokerModel::initial(tree)),
{
    let s = BrokerModel::initial(tree);
    let done = Seq::<DirPath>::empty();
    lemma_pending_counts_domain(tree.children);
    assert forall|i: int| 0 <= i < tree.children.len() implies #[trigger] entry_settled(
        tree,
        done,
        s,
        i,
    ) by {
        lemma_pending_counts_value(tree.children, i);
        lemma_remaining_at_start(tree.children[i].1);
    }
}

/// No entry of the child table lists `d`.
spec fn unlisted(tree: TreeModel, d: DirPath) -> bool {
    forall|i: int| 0 <= i < tree.children.len() ==> !(#[trigger] tree.children[i]).1.contains(d)
}

/// A completion that leaves both tables and the record of dispatches alone
/// keeps every entry settled, provided the directory is no one's child.
proof fn lemma_step_no_parent(
    tree: TreeModel,
    done: Seq<DirPath>,
    s: BrokerModel,
    after: BrokerModel,
    d: DirPath,
)
    requires
        tree.wf(),
        consistent(tree, done, s),
        unlisted(tree, d),
        after.pending == s.pending,
        after.dispatched == s.dispatched,
    ensures
        forall|i: int|
            0 <= i < tree.children.len() ==> #[trigger] entry_settled(
                tree,
                done.push(d),
                after,
                i,
            ),
{
    assert forall|i: int| 0 <= i < tree.children.len() implies #[trigger] entry_settled(
        tree,
        done.push(d),
        after,
        i,
    ) by {
        assert(entry_settled(tree, done, s, i));
        lemma_remaining_other(tree.children[i].1, done, d);
    }
}

/// An undone directory whose parent's entry has no child left is a
/// contradiction.
proof fn lemma_listed_waits(
    tree: TreeModel,
    done: Seq<DirPath>,
    s: BrokerModel,
    d: DirPath,
    i: int,
    j: int,
)
    requires
        tree.wf(),
        consistent(tree, done, s),
        !done.contains(d),
        0 <= i < tree.children.len(),
        0 <= j < tree.children[i].1.len(),
        tree.children[i].1[j] == d,
    ensures
        s.pending.contains_key(tree.children[i].0),
        !s.dispatched.contains(tree.children[i].0),
        !done.contains(tree.children[i].0),
        s.parent_of.contains_key(d),
        s.parent_of[d] == tree.children[i].0,
        tree.children[i].0 != d,
{
    lemma_parent_links_value(tree.children, i, j);
    assert(entry_settled(tree, done, s, i));
    lemma_remaining_zero(tree.children[i].1, done);
    let rank = choose|rank: spec_fn(DirPath) -> nat| tree.ranked_by(rank);
    assert(rank(tree.children[i].1[j]) < rank(tree.children[i].0));
}

/// Reports of distinct directories that were all dispatched are reports of
/// directories of the tree: they are no more than the tree has directories,
/// and as many only if every directory is among them.
proof fn lemma_reports_within_tree(
    tree: TreeModel,
    done: Seq<DirPath>,
    s: BrokerModel,
    reports: Seq<DirPath>,
)
    requires
        tree.wf(),
        consistent(tree, done, s),
        reports.no_duplicates(),
        forall|x: DirPath| #[trigger] reports.contains(x) ==> s.dispatched.contains(x),
    ensures
        forall|x: DirPath| #[trigger] reports.contains(x) ==> tree.dirs.contains(x),
        reports.len() <= tree.dirs.len(),
        reports.len() == tree.dirs.len() ==> forall|x: DirPath| #[trigger]
            tree.dirs.contains(x) ==> reports.contains(x),
{
    assert forall|x: DirPath| reports.contains(x) implies tree.dirs.contains(x) by {
        assert(s.dispatched.contains(x));
    }
    lemma_distinct_within(reports, tree.dirs);
}

/// One disciplined report keeps the state in agreement with the tree.
proof fn lemma_step_consistent(tree: TreeModel, done: Seq<DirPath>, s: BrokerModel, d: DirPath)
    requires
        tree.wf(),
        consistent(tree, done, s),
        done.no_duplicates(),
        s.dispatched.contains(d),
        !done.contains(d),
    ensures
        consistent(tree, done.push(d), s.mark_complete(d)),
{
    let done2 = done.push(d);
    let s2 = s.mark_complete(d);
    lemma_parent_links_domain(tree.children);

    assert forall|x: DirPath| #[trigger] done2.contains(x) implies s.dispatched.contains(x) by {
        lemma_seq_contains_after_push(done, d, x);
    }
    lemma_reports_within_tree(tree, done, s, done2);

    if s.completed + 1 != s.total && s.has_waiting_parent(d) {
        let parent = s.parent_of[d];
        let (i, j) = choose|i: int, j: int|
            0 <= i < tree.children.len() && 0 <= j < tree.children[i].1.len()
                && #[trigger] tree.children[i].1[j] == d;
        lemma_listed_waits(tree, done, s, d, i, j);
        let kids = tree.children[i].1;
        lemma_remaining_one_less(kids, done, d);
        assert forall|k: int| 0 <= k < tree.children.len() implies #[trigger] entry_settled(
            tree,
            done2,
            s2,
            k,
        ) by {
            assert(entry_settled(tree, done, s, k));
            if k != i {
                lemma_remaining_other(tree.children[k].1, done, d);
                lemma_seq_contains_after_push(s.dispatched, parent, tree.children[k].0);
            } else {
                lemma_seq_contains_after_push(s.dispatched, parent, parent);
            }
        }
        if s.pending[parent] == 1 {
            assert forall|x: DirPath| #[trigger] s2.dispatched.contains(x) implies tree.dirs.contains(
                x,
            ) by {
                lemma_seq_contains_after_push(s.dispatched, parent, x);
            }
            assert forall|x: DirPath| s.dispatched.contains(x) implies s2.dispatched.contains(x) by {
                lemma_seq_contains_after_push(s.dispatched, parent, x);
            }
        }
    } else {
        // the last report of the run, or the report of a directory without a
        // waiting parent: in both cases no entry lists the directory
        assert(unlisted(tree, d)) by {
            assert forall|i: int| 0 <= i < tree.children.len() implies !(
            #[trigger] tree.children[i]).1.contains(d) by {
                if tree.children[i].1.contains(d) {
                    let j = choose|j: int|
                        0 <= j < tree.children[i].1.len() && tree.children[i].1[j] == d;
                    lemma_listed_waits(tree, done, s, d, i, j);
                    lemma_seq_contains_after_push(done, d, tree.children[i].0);
                }
            }
        }
        lemma_step_no_parent(tree, done, s, s2, d);
    }
}

/// A disciplined sequence without its last report is disciplined, and its last
/// report is of a directory that was dispatched and not reported before.
proof fn lemma_prefix_disciplined(tree: TreeModel, done: Seq<DirPath>)
    requires
        disciplined(tree, done),
        done.len() > 0,
    ensures
        disciplined(tree, done.drop_last()),
        !done.drop_last().contains(done.last()),
        BrokerModel::initial(tree).run(done.drop_last()).dispatched.contains(done.last()),
{
    let prev = done.drop_last();
    assert forall|i: int| 0 <= i < prev.len() implies BrokerModel::initial(tree).run(
        prev.take(i),
    ).dispatched.contains(#[trigger] prev[i]) by {
        assert(prev.take(i) =~= done.take(i));
    }
}

/// Every state of a disciplined run agrees with the tree.
proof fn lemma_run_consistent(tree: TreeModel, done: Seq<DirPath>)
    requires
        tree.wf(),
        disciplined(tree, done),
    ensures
        consistent(tree, done, BrokerModel::initial(tree).run(done)),
    decreases done.len(),
{
    if done.len() == 0 {
        lemma_initial_consistent(tree);
        assert(done =~= Seq::<DirPath>::empty());
    } else {
        let prev = done.drop_last();
        lemma_prefix_disciplined(tree, done);
        lemma_run_consistent(tree, prev);
        lemma_step_consistent(tree, prev, BrokerModel::initial(tree).run(prev), done.last());
        assert(prev.push(done.last()) =~= done);
    }
}

/// In a state where every dispatched directory has been reported, every
/// directory of the tree has been dispatched.
proof fn lemma_quiescent_dispatched(
    tree: TreeModel,
    done: Seq<DirPath>,
    s: BrokerModel,
    rank: spec_fn(DirPath) -> nat,
    d: DirPath,
)
    requires
        tree.wf(),
        tree.ranked_by(rank),
        consistent(tree, done, s),
        forall|x: DirPath| #[trigger] s.dispatched.contains(x) ==> done.contains(x),
        tree.dirs.contains(d),
    ensures
        s.dispatched.contains(d),
    decreases rank(d),
{
    if tree.has_children(d) {
        let i = choose|i: int| 0 <= i < tree.children.len() && (#[trigger] tree.children[i]).0 == d;
        let kids = tree.children[i].1;
        assert(entry_settled(tree, done, s, i));
        if s.pending.contains_key(d) {
            lemma_remaining_zero(kids, done);
            let j = choose|j: int| 0 <= j < kids.len() && !done.contains(#[trigger] kids[j]);
            assert(rank(tree.children[i].1[j]) < rank(tree.children[i].0));
            lemma_quiescent_dispatched(tree, done, s, rank, kids[j]);
        }
    } else {
        assert(tree.leaves.contains(d));
    }
}

/// Every prefix of a disciplined sequence of completions is disciplined.
pub proof fn lemma_prefix_is_disciplined(tree: TreeModel, done: Seq<DirPath>, k: int)
    requires
        disciplined(tree, done),
        0 <= k <= done.len(),
    ensures
        disciplined(tree, done.take(k)),
{
    let part = done.take(k);
    assert forall|i: int| 0 <= i < part.len() implies BrokerModel::initial(tree).run(
        part.take(i),
    ).dispatched.contains(#[trigger] part[i]) by {
        assert(part.take(i) =~= done.take(i));
    }
}

/// No duplicates, no strangers: whatever the order in which the workers
/// report, no directory is dispatched twice, and only directories of the tree
/// are dispatched.
pub proof fn lemma_dispatched_at_most_once(tree: TreeModel, done: Seq<DirPath>)
    requires
        tree.wf(),
        disciplined(tree, done),
    ensures
        BrokerModel::initial(tree).run(done).dispatched.no_duplicates(),
        forall|d: DirPath|
            BrokerModel::initial(tree).run(done).dispatched.contains(d) ==> tree.dirs.contains(d),
        forall|d: DirPath|
            done.contains(d) ==> BrokerModel::initial(tree).run(done).dispatched.contains(d),
{
    lemma_run_consistent(tree, done);
}

/// No omissions: once every directory that was dispatched has been reported
/// (no removal failed and no worker is still busy), every directory of the
/// tree has been dispatched, each exactly once.
pub proof fn lemma_every_directory_dispatched(tree: TreeModel, done: Seq<DirPath>)
    requires
        tree.wf(),
        disciplined(tree, done),
        forall|d: DirPath|
            BrokerModel::initial(tree).run(done).dispatched.contains(d) ==> done.contains(d),
    ensures
        BrokerModel::initial(tree).run(done).dispatched.no_duplicates(),
        BrokerModel::initial(tree).run(done).dispatched.to_set() == tree.dirs.to_set(),
        BrokerModel::initial(tree).run(done).dispatched.len() == tree.dirs.len(),
{
    let s = BrokerModel::initial(tree).run(done);
    lemma_run_consistent(tree, done);
    let rank = choose|rank: spec_fn(DirPath) -> nat| tree.ranked_by(rank);
    assert forall|d: DirPath| tree.dirs.contains(d) implies s.dispatched.contains(d) by {
        lemma_quiescent_dispatched(tree, done, s, rank, d);
    }
    s.dispatched.unique_seq_to_set();
    tree.dirs.unique_seq_to_set();
}

/// Progress: as long as not every directory has been reported, some
/// directory has been dispatched that is not reported yet. A run in which no
/// removal fails therefore never waits in vain.
pub proof fn lemma_work_remains_until_done(tree: TreeModel, done: Seq<DirPath>)
    requires
        tree.wf(),
        disciplined(tree, done),
        done.len() < tree.dirs.len(),
    ensures
        exists|d: DirPath|
            #[trigger] BrokerModel::initial(tree).run(done).dispatched.contains(d)
                && !done.contains(d),
{
    let s = BrokerModel::initial(tree).run(done);
    if forall|d: DirPath| #[trigger] s.dispatched.contains(d) ==> done.contains(d) {
        lemma_every_directory_dispatched(tree, done);
        lemma_distinct_within(s.dispatched, done);
    }
}

/// The count table counts the children that are left: a directory with
/// children has an entry exactly while some of them are not reported, the
/// entry holds their number, and the directory is dispatched exactly when
/// none is left.
pub proof fn lemma_pending_counts_children_left(tree: TreeModel, done: Seq<DirPath>, i: int)
    requires
        tree.wf(),
        disciplined(tree, done),
        0 <= i < tree.children.len(),
    ensures
        BrokerModel::initial(tree).run(done).pending.contains_key(tree.children[i].0)
            <==> remaining(tree.children[i].1, done) > 0,
        remaining(tree.children[i].1, done) > 0 ==> BrokerModel::initial(tree).run(
            done,
        ).pending[tree.children[i].0] == remaining(tree.children[i].1, done),
        BrokerModel::initial(tree).run(done).dispatched.contains(tree.children[i].0)
            <==> remaining(tree.children[i].1, done) == 0,
        forall|p: DirPath|
            BrokerModel::initial(tree).run(done).pending.contains_key(p) ==> tree.has_children(p),
{
    lemma_run_consistent(tree, done);
    assert(entry_settled(tree, done, BrokerModel::initial(tree).run(done), i));
}

/// Children first: at any point of a run at which a directory has been
/// dispatched, each of its children has already been reported complete.
pub proof fn lemma_children_reported_before_dispatch(
    tree: TreeModel,
    done: Seq<DirPath>,
    k: int,
    parent: DirPath,
    child: DirPath,
)
    requires
        tree.wf(),
        disciplined(tree, done),
        0 <= k <= done.len(),
        tree.is_child_of(child, parent),
        BrokerModel::initial(tree).run(done.take(k)).dispatched.contains(parent),
    ensures
        done.take(k).contains(child),
{
    let part = done.take(k);
    let s = BrokerModel::initial(tree).run(part);
    lemma_prefix_is_disciplined(tree, done, k);
    lemma_run_consistent(tree, part);
    let (i, j) = choose|i: int, j: int|
        0 <= i < tree.children.len() && 0 <= j < tree.children[i].1.len() && tree.children[i].0
            == parent && #[trigger] tree.children[i].1[j] == child;
    assert(entry_settled(tree, part, s, i));
    lemma_remaining_zero(tree.children[i].1, part);
}

/// The directory `n` levels above `dir`, as far as the child table goes.
pub open spec fn ancestor(tree: TreeModel, dir: DirPath, n: nat) -> Option<DirPath>
    decreases n,
{
    if n == 0 {
        Some(dir)
    } else {
        match ancestor(tree, dir, (n - 1) as nat) {
            Some(below) => if parent_links(tree.children).contains_key(below) {
                Some(parent_links(tree.children)[below])
            } else {
                None
            },
            None => None,
        }
    }
}

/// A directory that is not reported keeps every directory above it from
/// being reported.
proof fn lemma_ancestor_waits(tree: TreeModel, done: Seq<DirPath>, dir: DirPath, n: nat)
    requires
        tree.wf(),
        disciplined(tree, done),
        tree.dirs.contains(dir),
        !done.contains(dir),
        ancestor(tree, dir, n) is Some,
    ensures
        tree.dirs.contains(ancestor(tree, dir, n)->0),
        !done.contains(ancestor(tree, dir, n)->0),
        n >= 1 ==> !BrokerModel::initial(tree).run(done).dispatched.contains(
            ancestor(tree, dir, n)->0,
        ),
    decreases n,
{
    if n >= 1 {
        let below = ancestor(tree, dir, (n - 1) as nat)->0;
        let above = ancestor(tree, dir, n)->0;
        lemma_ancestor_waits(tree, done, dir, (n - 1) as nat);
            lemma_parent_links_domain(tree.children);
        let (i, j) = choose|i: int, j: int|
            0 <= i < tree.children.len() && 0 <= j < tree.children[i].1.len()
                && #[trigger] tree.children[i].1[j] == below;
        lemma_parent_links_value(tree.children, i, j);
        assert(done.take(done.len() as int) =~= done);
        if BrokerModel::initial(tree).run(done).dispatched.contains(above) {
            lemma_children_reported_before_dispatch(tree, done, done.len() as int, above, below);
        }
        lemma_dispatched_at_most_once(tree, done);
    }
}

/// Stall: as long as a directory of the tree has not been reported, none of
/// the directories above it is dispatched, the counter stays below the total,
/// and the channel stays open.
pub proof fn lemma_unreported_directory_stalls(
    tree: TreeModel,
    done: Seq<DirPath>,
    dir: DirPath,
    n: nat,
)
    requires
        tree.wf(),
        disciplined(tree, done),
        tree.dirs.contains(dir),
        !done.contains(dir),
    ensures
        n >= 1 && ancestor(tree, dir, n) is Some ==> !BrokerModel::initial(tree).run(
            done,
        ).dispatched.contains(ancestor(tree, dir, n)->0),
        BrokerModel::initial(tree).run(done).completed < BrokerModel::initial(tree).run(done).total,
        BrokerModel::initial(tree).run(done).open,
{
    if n >= 1 && ancestor(tree, dir, n) is Some {
        lemma_ancestor_waits(tree, done, dir, n);
    }
    lemma_run_consistent(tree, done);
    let s = BrokerModel::initial(tree).run(done);
    lemma_reports_within_tree(tree, done, s, done);
}

/// The counter counts the reports, it never passes the total, and the channel
/// is open exactly until the report that makes the counter reach the total.
pub proof fn lemma_closes_at_total(tree: TreeModel, done: Seq<DirPath>)
    requires
        tree.wf(),
        disciplined(tree, done),
    ensures
        BrokerModel::initial(tree).run(done).completed == done.len(),
        BrokerModel::initial(tree).run(done).total == tree.dirs.len(),
        done.len() <= tree.dirs.len(),
        tree.dirs.len() > 0 ==> (BrokerModel::initial(tree).run(done).open <==> done.len()
            < tree.dirs.len()),
{
    lemma_run_consistent(tree, done);
}

/// One report moves the counter up by exactly one, whatever the state, and
/// closes the channel exactly when the counter reaches the total.
pub proof fn lemma_counter_advances(s: BrokerModel, dir: DirPath)
    ensures
        s.mark_complete(dir).completed == s.completed + 1,
        s.mark_complete(dir).total == s.total,
        s.mark_complete(dir).open <==> s.open && s.completed + 1 != s.total,
{
}

/// A report dispatches the directory that it releases, and nothing else.
pub proof fn lemma_release_is_the_dispatch(s: BrokerModel, dir: DirPath)
    ensures
        s.mark_complete(dir).dispatched == match s.released(dir) {
            Some(parent) => s.dispatched.push(parent),
            None => s.dispatched,
        },
{
}

/// A closed channel stays closed, and nothing is dispatched after it closed.
pub proof fn lemma_closed_is_final(s: BrokerModel, dir: DirPath)
    requires
        !s.open,
    ensures
        !s.mark_complete(dir).open,
        s.mark_complete(dir).dispatched == s.dispatched,
{
}

/// Right after construction as many directories are pending as the tree has
/// directories that are not leaves.
pub proof fn lemma_initial_pending_count(tree: TreeModel)
    requires
        tree.wf(),
    ensures
        BrokerModel::initial(tree).pending.len() == tree.dirs.len() - tree.leaves.len(),
{
    let keys = tree.children.map_values(|e: (DirPath, Seq<DirPath>)| e.0);
    let pending = pending_counts(tree.children);
    lemma_pending_counts_domain(tree.children);
    assert(keys.no_duplicates()) by {
        assert forall|a: int, b: int|
            0 <= a < keys.len() && 0 <= b < keys.len() && a != b implies keys[a] != keys[b] by {
            if a < b {
                assert(tree.children[a].0 != tree.children[b].0);
            } else {
                assert(tree.children[b].0 != tree.children[a].0);
            }
        }
    }
    assert(keys.to_set() =~= pending.dom()) by {
        assert forall|p: DirPath| keys.to_set().contains(p) <==> pending.dom().contains(p) by {
            if pending.contains_key(p) {
                let i = choose|i: int|
                    0 <= i < tree.children.len() && (#[trigger] tree.children[i]).0 == p;
                assert(keys[i] == p);
            }
        }
    }
    keys.unique_seq_to_set();
    tree.dirs.unique_seq_to_set();
    tree.leaves.unique_seq_to_set();
    seq_to_set_is_finite(keys);
    seq_to_set_is_finite(tree.leaves);
    assert(tree.dirs.to_set() =~= tree.leaves.to_set() + keys.to_set());
    lemma_set_disjoint_lens(tree.leaves.to_set(), keys.to_set());
}

/// A report never adds a directory to the pending table.
pub proof fn lemma_pending_never_grows(s: BrokerModel, dir: DirPath)
    requires
        s.pending.dom().finite(),
    ensures
        s.mark_complete(dir).pending.dom().subset_of(s.pending.dom()),
        s.mark_complete(dir).pending.len() <= s.pending.len(),
{
    lemma_len_subset(s.mark_complete(dir).pending.dom(), s.pending.dom());
}

/// When every directory of the tree has been reported, none is pending.
pub proof fn lemma_nothing_pending_at_end(tree: TreeModel, done: Seq<DirPath>)
    requires
        tree.wf(),
        disciplined(tree, done),
        done.len() == tree.dirs.len(),
    ensures
        BrokerModel::initial(tree).run(done).pending == Map::<DirPath, nat>::empty(),
        BrokerModel::initial(tree).run(done).pending.len() == 0,
{
    let s = BrokerModel::initial(tree).run(done);
    lemma_run_consistent(tree, done);
    lemma_reports_within_tree(tree, done, s, done);
    assert forall|p: DirPath| !s.pending.contains_key(p) by {
        if s.pending.contains_key(p) {
            assert(tree.has_children(p));
            let i = choose|i: int|
                0 <= i < tree.children.len() && (#[trigger] tree.children[i]).0 == p;
            assert(entry_settled(tree, done, s, i));
            assert(tree.dirs.contains(p));
        }
    }
    assert(s.pending =~= Map::<DirPath, nat>::empty());
}

/// Construction is a function of the tree: the same tree gives the same
/// broker state, and the initial dispatch is the tree's list of leaves.
pub proof fn lemma_construction_repeatable(first: TreeModel, second: TreeModel)
    requires
        first == second,
    ensures
        BrokerModel::initial(first) == BrokerModel::initial(second),
        BrokerModel::initial(first).dispatched == first.leaves,
        BrokerModel::initial(second).dispatched == first.leaves,
{
}

} // verus!
