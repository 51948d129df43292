//! What the wide-character file API of Windows takes and gives: paths in
//! UTF-16, terminated by a zero, and in the long form `\\?\...` where the path
//! is absolute; result codes; and the records of a directory search.

use crate::text::text_starts_with;
use vstd::prelude::*;
use vstd::string::StringExecFns;

verus! {

/// The UTF-16 code units of one character: itself below `0x10000`, a pair of
/// surrogates above.
pub open spec fn utf16_of(c: char) -> Seq<u16> {
    let code = c as int;
    if code < 0x10000 {
        seq![code as u16]
    } else {
        seq![
            (0xD800 + (code - 0x10000) / 0x400) as u16,
            (0xDC00 + (code - 0x10000) % 0x400) as u16,
        ]
    }
}

/// The UTF-16 code units of a text.
pub open spec fn utf16_units(text: Seq<char>) -> Seq<u16>
    decreases text.len(),
{
    if text.len() == 0 {
        Seq::empty()
    } else {
        utf16_units(text.drop_last()) + utf16_of(text.last())
    }
}

/// The prefix that lifts the length limit of the wide-character API.
pub open spec fn long_prefix() -> Seq<char> {
    "\\\\?\\"@
}

/// The path as it is handed to the system: an absolute path gets the long
/// prefix unless it has it already; any other path stays as it is.
pub open spec fn long_form(path: Seq<char>, is_absolute: bool) -> Seq<char> {
    if is_absolute && !long_prefix().is_prefix_of(path) {
        long_prefix() + path
    } else {
        path
    }
}

/// The code units of a text, one character after the other.
pub proof fn lemma_utf16_units_step(text: Seq<char>, k: int)
    requires
        0 <= k < text.len(),
    ensures
        utf16_units(text.take(k + 1)) == utf16_units(text.take(k)) + utf16_of(text[k]),
{
    assert(text.take(k + 1).drop_last() =~= text.take(k));
}

/// The code units of two texts in a row are the code units of the first
/// followed by those of the second.
pub proof fn lemma_utf16_units_concat(a: Seq<char>, b: Seq<char>)
    ensures
        utf16_units(a + b) == utf16_units(a) + utf16_units(b),
    decreases b.len(),
{
    if b.len() == 0 {
    } else {
        lemma_utf16_units_concat(a, b.drop_last());
        assert((a + b).drop_last() =~= a + b.drop_last());
    }
}

/// Appends the UTF-16 code units of `c` to `wide`.
fn push_char_utf16(wide: &mut Vec<u16>, c: char)
    ensures
        final(wide)@ == old(wide)@ + utf16_of(c),
{
    let code = c as u32;
    if code < 0x10000 {
        wide.push(code as u16);
    } else {
        let rest = code - 0x10000;
        wide.push((0xD800 + rest / 0x400) as u16);
        wide.push((0xDC00 + rest % 0x400) as u16);
    }
}

/// Appends the UTF-16 code units of `text` to `wide`.
fn push_utf16(wide: &mut Vec<u16>, text: &str)
    ensures
        final(wide)@ == old(wide)@ + utf16_units(text@),
{
    let ghost start = wide@;
    for c in it: text.chars()
        invariant
            it.seq() == text@,
            wide@ == start + utf16_units(text@.take(it.index() as int)),
    {
        let ghost k = it.index() as int;
        proof {
            lemma_utf16_units_step(text@, k);
        }
        push_char_utf16(wide, c);
    }
    assert(text@.take(text@.len() as int) =~= text@);
}

/// Encodes a path for the wide-character API: the long form of the path in
/// UTF-16, followed by a zero. `is_absolute` says whether the path is
/// absolute.
pub fn path_to_wide(path: &str, is_absolute: bool) -> (wide: Vec<u16>)
    ensures
        wide@ == utf16_units(long_form(path@, is_absolute)).push(0),
{
    let mut wide: Vec<u16> = Vec::new();
    if is_absolute && !text_starts_with(path, "\\\\?\\") {
        push_utf16(&mut wide, "\\\\?\\");
        proof {
            lemma_utf16_units_concat(long_prefix(), path@);
        }
    }
    push_utf16(&mut wide, path);
    wide.push(0);
    wide
}

/// The system's error code in the result code of a failed call: its low 16
/// bits.
pub fn os_error_code(code: i32) -> (low: i32)
    ensures
        low == code & 0xFFFF,
{
    code & 0xFFFF
}

/// The length of the name in a search record: the number of code units before
/// the first zero, or all of them where there is no zero.
pub fn name_length(units: &[u16]) -> (len: usize)
    ensures
        len <= units@.len(),
        forall|i: int| 0 <= i < len ==> units@[i] != 0,
        len < units@.len() ==> units@[len as int] == 0,
{
    let mut len: usize = 0;
    while len < units.len() && units[len] != 0
        invariant
            len <= units@.len(),
            forall|i: int| 0 <= i < len ==> units@[i] != 0,
        decreases units@.len() - len,
    {
        len += 1;
    }
    len
}

/// Whether a name in a search record stands for the directory itself or for
/// its parent; such a record is skipped.
pub fn is_dot_entry(name: &String) -> (skip: bool)
    ensures
        skip == (name@ == "."@ || name@ == ".."@),
{
    let this = String::from_str(".");
    let parent = String::from_str("..");
    *name == this || *name == parent
}

/// Whether the attributes of a search record mark a directory.
pub fn is_directory(attributes: u32) -> (marked: bool)
    ensures
        marked == (attributes & 0x10 != 0),
{
    attributes & 0x10 != 0
}

} // verus!
