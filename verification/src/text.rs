//! Comparisons of `str` from the standard library, with what its
//! documentation says of each.

use vstd::prelude::*;

verus! {

/// A character with the ASCII capitals mapped to their small letters, as a
/// code point.
pub open spec fn ascii_folded(c: char) -> int {
    if 'A' <= c && c <= 'Z' {
        c as int + 32
    } else {
        c as int
    }
}

/// The two texts are equal up to the case of their ASCII letters.
pub open spec fn same_ignoring_ascii_case(a: Seq<char>, b: Seq<char>) -> bool {
    &&& a.len() == b.len()
    &&& forall|i: int| 0 <= i < a.len() ==> ascii_folded(#[trigger] a[i]) == ascii_folded(b[i])
}

/// `text` ends with `suffix`.
pub open spec fn has_suffix(text: Seq<char>, suffix: Seq<char>) -> bool {
    &&& suffix.len() <= text.len()
    &&& text.subrange(text.len() - suffix.len(), text.len() as int) == suffix
}

/// `str::eq_ignore_ascii_case`: an ASCII case-insensitive match, the same as
/// comparing the two with `A` to `Z` turned into `a` to `z` and every other
/// character left alone.
#[verifier::external_body]
pub(crate) fn text_eq_ignore_ascii_case(a: &str, b: &str) -> (same: bool)
    ensures
        same == same_ignoring_ascii_case(a@, b@),
{
    a.eq_ignore_ascii_case(b)
}

/// `str::ends_with` with a string pattern: true exactly when the pattern is a
/// suffix of the text.
#[verifier::external_body]
pub(crate) fn text_ends_with(text: &str, suffix: &str) -> (ends: bool)
    ensures
        ends == has_suffix(text@, suffix@),
{
    text.ends_with(suffix)
}

/// `str::starts_with` with a string pattern: true exactly when the pattern is
/// a prefix of the text.
#[verifier::external_body]
pub(crate) fn text_starts_with(text: &str, prefix: &str) -> (starts: bool)
    ensures
        starts == prefix@.is_prefix_of(text@),
{
    text.starts_with(prefix)
}

} // verus!
