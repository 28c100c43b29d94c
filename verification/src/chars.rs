//! Character classification and string building.
//!
//! The tokenizer decides what a character is with the Unicode predicates of
//! `char`. Those predicates are large tables, so their results are only
//! named here; everything the rest of the library needs of them is stated
//! beside the names.

use vstd::prelude::*;
use vstd::string::StrSliceExecFns;

verus! {

/// What `char::is_alphabetic` returns for a character: whether it has the
/// Unicode `Alphabetic` property. The property is a large table, so it is
/// only named; it depends on the character alone.
pub uninterp spec fn char_alphabetic(c: char) -> bool;

/// What `char::is_numeric` returns for a character: whether it has one of
/// the Unicode numeric general categories. Named for the same reason as
/// `char_alphabetic`; it depends on the character alone.
pub uninterp spec fn char_numeric(c: char) -> bool;

/// Relies on `char::is_alphabetic`: the Unicode `Alphabetic` property of
/// the character. The blank characters the tokenizer skips are not
/// alphabetic.
pub assume_specification[ char::is_alphabetic ](c: char) -> (r: bool)
    ensures
        r == char_alphabetic(c),
        c == ' ' || c == '\t' || c == '\r' || c == '\n' ==> !r,
;

/// Relies on `char::is_numeric`: the Unicode numeric categories of the
/// character. The blank characters the tokenizer skips are not numeric.
pub assume_specification[ char::is_numeric ](c: char) -> (r: bool)
    ensures
        r == char_numeric(c),
        c == ' ' || c == '\t' || c == '\r' || c == '\n' ==> !r,
;

/// Relies on `char::is_alphanumeric`, which is documented to hold exactly
/// when `is_alphabetic` or `is_numeric` holds; the blank characters the
/// tokenizer skips are neither.
pub assume_specification[ char::is_alphanumeric ](c: char) -> (r: bool)
    ensures
        r == (char_alphabetic(c) || char_numeric(c)),
        c == ' ' || c == '\t' || c == '\r' || c == '\n' ==> !r,
;

/// Relies on `String::push`: appends the given character to the end of
/// the string.
pub assume_specification[ String::push ](s: &mut String, c: char)
    ensures
        final(s)@ == old(s)@.push(c),
;

/// The characters of a string, in order, as a vector.
pub fn chars_of(s: &str) -> (v: Vec<char>)
    ensures
        v@ == s@,
{
    let n = s.unicode_len();
    let mut v: Vec<char> = Vec::new();
    let mut k: usize = 0;
    while k < n
        invariant
            n == s@.len(),
            k <= n,
            v@ == s@.subrange(0, k as int),
        decreases n - k,
    {
        v.push(s.get_char(k));
        assert(v@ =~= s@.subrange(0, (k + 1) as int));
        k = k + 1;
    }
    assert(v@ =~= s@);
    v
}

/// A string holding exactly the given characters, in order.
pub fn string_of(v: &Vec<char>) -> (s: String)
    ensures
        s@ == v@,
{
    string_of_range(v, 0, v.len())
}

/// A string holding the characters of `v` from `a` (inclusive) to `b`
/// (exclusive), in order.
pub fn string_of_range(v: &Vec<char>, a: usize, b: usize) -> (s: String)
    requires
        a <= b <= v@.len(),
    ensures
        s@ == v@.subrange(a as int, b as int),
{
    let mut s = String::new();
    let mut k: usize = a;
    while k < b
        invariant
            a <= k <= b <= v@.len(),
            s@ == v@.subrange(a as int, k as int),
        decreases b - k,
    {
        s.push(v[k]);
        assert(s@ =~= v@.subrange(a as int, (k + 1) as int));
        k = k + 1;
    }
    s
}

} // verus!
