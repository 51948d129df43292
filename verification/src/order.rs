//! The order in which the directories of a tree are listed: by the names on
//! the way from the root, component by component, as paths are ordered.

use crate::model::DirPath;
use crate::tree::paths_view;
use vstd::prelude::*;

verus! {

/// What a directory is ordered by: the names on the way from the root down to
/// it, and its path.
pub type SortKey = (Seq<DirPath>, DirPath);

/// `a` comes before `b` as texts are ordered: character by character, by code
/// point, the shorter first where one begins the other.
pub open spec fn text_before(a: Seq<char>, b: Seq<char>) -> bool {
    exists|k: int|
        #![trigger a.take(k)]
        0 <= k <= a.len() && k < b.len() && a.take(k) == b.take(k) && (k == a.len() || (
        a[k] as int) < (b[k] as int))
}

/// `a` comes before `b` as lists of names are ordered: name by name, the
/// shorter first where one begins the other.
pub open spec fn trail_before(a: Seq<DirPath>, b: Seq<DirPath>) -> bool {
    exists|k: int|
        #![trigger a.take(k)]
        0 <= k <= a.len() && k < b.len() && a.take(k) == b.take(k) && (k == a.len()
            || text_before(a[k], b[k]))
}

/// `a` comes before `b`: by the names, and by the path where the names are
/// the same.
pub open spec fn key_before(a: SortKey, b: SortKey) -> bool {
    trail_before(a.0, b.0) || (a.0 == b.0 && text_before(a.1, b.1))
}

/// `a` is `b` or comes before it.
pub open spec fn key_le(a: SortKey, b: SortKey) -> bool {
    a == b || key_before(a, b)
}

/// The key that a pair of a list of names and a path stands for.
pub open spec fn key_view(key: (Vec<String>, String)) -> SortKey {
    (paths_view(key.0@), key.1@)
}

/// The keys that a list of pairs stands for.
pub open spec fn keys_view(keys: Seq<(Vec<String>, String)>) -> Seq<SortKey> {
    keys.map_values(|key: (Vec<String>, String)| key_view(key))
}

/// `slice::sort` of the standard library on pairs of a list of strings and a
/// string. It sorts in ascending order and keeps every element. Pairs are
/// compared by their first parts and then by their second, lists element by
/// element, and strings by their bytes, which is the order of their code
/// points.
#[verifier::external_body]
pub(crate) fn sort_keys(keys: &mut Vec<(Vec<String>, String)>)
    ensures
        keys_view(final(keys)@).to_multiset() == keys_view(old(keys)@).to_multiset(),
        forall|i: int, j: int|
            0 <= i < j < final(keys)@.len() ==> key_le(
                #[trigger] keys_view(final(keys)@)[i],
                #[trigger] keys_view(final(keys)@)[j],
            ),
{
    keys.sort();
}

} // verus!
