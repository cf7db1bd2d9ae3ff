//! Small string functions that the rest of the library shares.

use vstd::prelude::*;

verus! {

/// The characters of `s`.
pub fn chars_of(s: &str) -> (chars: Vec<char>)
    ensures
        chars@ == s@,
{
    let mut chars: Vec<char> = Vec::new();
    for c in it: s.chars()
        invariant
            chars@ == it.seq().take(it.index() as int),
    {
        chars.push(c);
    }
    chars
}

/// Whether `a` and `b` hold the same characters.
pub fn same_text(a: &str, b: &str) -> (same: bool)
    ensures
        same == (a@ == b@),
{
    let left = chars_of(a);
    let right = chars_of(b);
    if left.len() != right.len() {
        return false;
    }
    let mut i: usize = 0;
    while i < left.len()
        invariant
            left@ == a@,
            right@ == b@,
            left.len() == right.len(),
            i <= left.len(),
            forall|j: int| 0 <= j < i ==> left[j] == right[j],
        decreases left.len() - i,
    {
        if left[i] != right[i] {
            return false;
        }
        i += 1;
    }
    assert(left@ =~= right@);
    true
}

/// Whether `needle` occurs in `hay` at position `at`.
pub open spec fn occurs_at(hay: Seq<char>, needle: Seq<char>, at: int) -> bool {
    0 <= at && at + needle.len() <= hay.len() && hay.subrange(at, at + needle.len()) == needle
}

/// Whether `needle` occurs somewhere in `hay`.
pub open spec fn occurs_in(hay: Seq<char>, needle: Seq<char>) -> bool {
    exists|at: int| occurs_at(hay, needle, at)
}

/// Whether `needle` occurs in `hay` at position `at`.
fn found_at(hay: &Vec<char>, needle: &Vec<char>, at: usize) -> (found: bool)
    requires
        at + needle.len() <= hay.len(),
    ensures
        found == occurs_at(hay@, needle@, at as int),
{
    let ghost piece = hay@.subrange(at as int, at + needle.len());
    let mut i: usize = 0;
    while i < needle.len()
        invariant
            at + needle.len() <= hay.len(),
            piece == hay@.subrange(at as int, at + needle.len()),
            i <= needle.len(),
            forall|j: int| 0 <= j < i ==> hay[at + j] == needle[j],
        decreases needle.len() - i,
    {
        if hay[at + i] != needle[i] {
            assert(piece[i as int] != needle[i as int]);
            return false;
        }
        i += 1;
    }
    assert(piece =~= needle@);
    true
}

/// Whether `needle` occurs somewhere in `hay`.
pub fn contains_text(hay: &str, needle: &str) -> (found: bool)
    ensures
        found == occurs_in(hay@, needle@),
{
    let long = chars_of(hay);
    let short = chars_of(needle);
    if short.len() > long.len() {
        return false;
    }
    let last = long.len() - short.len();
    let mut at: usize = 0;
    while at < last
        invariant
            long@ == hay@,
            short@ == needle@,
            short.len() <= long.len(),
            last == long.len() - short.len(),
            at <= last,
            forall|j: int| 0 <= j < at ==> !occurs_at(hay@, needle@, j),
        decreases last - at,
    {
        if found_at(&long, &short, at) {
            return true;
        }
        at += 1;
    }
    found_at(&long, &short, last)
}

/// Appends `c` to `s`.
///
/// Trusted: this is `String::push` of the standard library, which appends
/// the given character to the end of the string.
#[verifier::external_body]
pub(crate) fn push_char(s: &mut String, c: char)
    ensures
        final(s)@ == old(s)@.push(c),
{
    s.push(c);
}

/// How the standard library's `Debug` writes a list of strings: the items
/// with their escapes, each between double quotes, separated by `, ` and
/// enclosed in `[` and `]`.
pub uninterp spec fn debug_text(items: Seq<Seq<char>>) -> Seq<char>;

/// `items` as `{:?}` writes them.
///
/// Trusted: this is the standard library's `Debug` for a vector of string
/// slices. The result depends on the characters of the items alone; the
/// contract gives it the name `debug_text`.
#[verifier::external_body]
pub(crate) fn debug_list(items: &Vec<&str>) -> (text: String)
    ensures
        text@ == debug_text(Seq::new(items@.len(), |i: int| items@[i]@)),
{
    format!("{:?}", items)
}

} // verus!
