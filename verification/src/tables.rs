//! What the broker's two tables hold, read off the child table directly, and
//! how they grow while they are built.

use crate::model::{
    distinct_keys, link_children, parent_links, pending_counts, single_parent, ChildEntry, DirPath,
};
use vstd::prelude::*;

verus! {

/// Building the count table entry by entry: one more entry of the child table
/// adds one insertion.
pub proof fn lemma_pending_counts_step(children: Seq<ChildEntry>, i: int)
    requires
        0 <= i < children.len(),
    ensures
        pending_counts(children.take(i + 1)) == pending_counts(children.take(i)).insert(
            children[i].0,
            children[i].1.len(),
        ),
{
    assert(children.take(i + 1).drop_last() =~= children.take(i));
}

/// Building the parent table child by child: one more child adds one
/// insertion.
pub proof fn lemma_link_children_step(
    links: Map<DirPath, DirPath>,
    parent: DirPath,
    kids: Seq<DirPath>,
    j: int,
)
    requires
        0 <= j < kids.len(),
    ensures
        link_children(links, parent, kids.take(j + 1)) == link_children(
            links,
            parent,
            kids.take(j),
        ).insert(kids[j], parent),
{
    assert(kids.take(j + 1).drop_last() =~= kids.take(j));
}

/// Building the parent table entry by entry: one more entry of the child table
/// links all of its children.
pub proof fn lemma_parent_links_step(children: Seq<ChildEntry>, i: int)
    requires
        0 <= i < children.len(),
    ensures
        parent_links(children.take(i + 1)) == link_children(
            parent_links(children.take(i)),
            children[i].0,
            children[i].1,
        ),
{
    assert(children.take(i + 1).drop_last() =~= children.take(i));
}

/// The count table has an entry exactly for the directories that the child
/// table has an entry for, and it is finite.
pub proof fn lemma_pending_counts_domain(children: Seq<ChildEntry>)
    ensures
        pending_counts(children).dom().finite(),
        forall|p: DirPath|
            pending_counts(children).contains_key(p) <==> exists|i: int|
                0 <= i < children.len() && (#[trigger] children[i]).0 == p,
    decreases children.len(),
{
    if children.len() > 0 {
        let rest = children.drop_last();
        lemma_pending_counts_domain(rest);
        assert forall|p: DirPath|
            pending_counts(children).contains_key(p) <==> exists|i: int|
                0 <= i < children.len() && (#[trigger] children[i]).0 == p by {
            if exists|i: int| 0 <= i < children.len() && (#[trigger] children[i]).0 == p {
                let i = choose|i: int| 0 <= i < children.len() && (#[trigger] children[i]).0 == p;
                if i < rest.len() {
                    assert(rest[i].0 == p);
                }
            }
        }
    }
}

/// Where no directory has two entries, the count of each is the length of its
/// child list.
pub proof fn lemma_pending_counts_value(children: Seq<ChildEntry>, i: int)
    requires
        distinct_keys(children),
        0 <= i < children.len(),
    ensures
        pending_counts(children).contains_key(children[i].0),
        pending_counts(children)[children[i].0] == children[i].1.len(),
    decreases children.len(),
{
    let rest = children.drop_last();
    if i < children.len() - 1 {
        assert(distinct_keys(rest)) by {
            assert forall|a: int, b: int| 0 <= a < b < rest.len() implies (#[trigger] rest[a]).0 != (
            #[trigger] rest[b]).0 by {
                assert(children[a].0 != children[b].0);
            }
        }
        lemma_pending_counts_value(rest, i);
    }
}

/// Linking the children of one directory adds exactly them to the table, each
/// with that directory as its parent, and leaves the other links alone.
pub proof fn lemma_link_children_at(
    links: Map<DirPath, DirPath>,
    parent: DirPath,
    kids: Seq<DirPath>,
    c: DirPath,
)
    ensures
        link_children(links, parent, kids).contains_key(c) <==> links.contains_key(c)
            || kids.contains(c),
        kids.contains(c) ==> link_children(links, parent, kids)[c] == parent,
        !kids.contains(c) ==> link_children(links, parent, kids)[c] == links[c],
    decreases kids.len(),
{
    if kids.len() > 0 {
        let rest = kids.drop_last();
        lemma_link_children_at(links, parent, rest, c);
        if kids.contains(c) {
            let j = choose|j: int| 0 <= j < kids.len() && kids[j] == c;
            if j < rest.len() {
                assert(rest[j] == c);
            }
        }
    }
}

/// The parent table has an entry exactly for the directories that some child
/// list holds.
pub proof fn lemma_parent_links_domain(children: Seq<ChildEntry>)
    ensures
        parent_links(children).dom().finite(),
        forall|c: DirPath|
            parent_links(children).contains_key(c) <==> exists|i: int, j: int|
                0 <= i < children.len() && 0 <= j < children[i].1.len()
                    && #[trigger] children[i].1[j] == c,
    decreases children.len(),
{
    if children.len() > 0 {
        let rest = children.drop_last();
        let last = children.last();
        lemma_parent_links_domain(rest);
        lemma_link_children_finite(parent_links(rest), last.0, last.1);
        assert forall|c: DirPath|
            parent_links(children).contains_key(c) <==> exists|i: int, j: int|
                0 <= i < children.len() && 0 <= j < children[i].1.len()
                    && #[trigger] children[i].1[j] == c by {
            lemma_link_children_at(parent_links(rest), last.0, last.1, c);
            if exists|i: int, j: int|
                0 <= i < children.len() && 0 <= j < children[i].1.len()
                    && #[trigger] children[i].1[j] == c {
                let (i, j) = choose|i: int, j: int|
                    0 <= i < children.len() && 0 <= j < children[i].1.len()
                        && #[trigger] children[i].1[j] == c;
                if i < rest.len() {
                    assert(rest[i].1[j] == c);
                } else {
                    assert(last.1[j] == c);
                }
            }
        }
    }
}

/// Linking children keeps a finite table finite.
pub proof fn lemma_link_children_finite(
    links: Map<DirPath, DirPath>,
    parent: DirPath,
    kids: Seq<DirPath>,
)
    requires
        links.dom().finite(),
    ensures
        link_children(links, parent, kids).dom().finite(),
    decreases kids.len(),
{
    if kids.len() > 0 {
        lemma_link_children_finite(links, parent, kids.drop_last());
    }
}

/// Where no directory is listed as a child twice, the parent table maps each
/// listed child to the directory that lists it.
pub proof fn lemma_parent_links_value(children: Seq<ChildEntry>, i: int, j: int)
    requires
        single_parent(children),
        0 <= i < children.len(),
        0 <= j < children[i].1.len(),
    ensures
        parent_links(children).contains_key(children[i].1[j]),
        parent_links(children)[children[i].1[j]] == children[i].0,
    decreases children.len(),
{
    let rest = children.drop_last();
    let last = children.last();
    let c = children[i].1[j];
    lemma_link_children_at(parent_links(rest), last.0, last.1, c);
    if i < children.len() - 1 {
        assert(single_parent(rest)) by {
            assert forall|a: int, b: int, k: int, l: int|
                0 <= a < rest.len() && 0 <= b < rest[a].1.len() && 0 <= k < rest.len() && 0 <= l
                    < rest[k].1.len() && #[trigger] rest[a].1[b]
                    == #[trigger] rest[k].1[l] implies a == k by {
                assert(children[a].1[b] == children[k].1[l]);
            }
        }
        lemma_parent_links_value(rest, i, j);
    } else {
        assert(last.1[j] == c);
    }
}

} // verus!
