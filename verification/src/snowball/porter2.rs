//! The Porter2 (English Snowball) suffix-stripping algorithm.
//!
//! A word is prepared (a leading apostrophe dropped, `y` in vowel
//! position marked as `Y`), the regions R1 and R2 are marked, and the
//! ordered suffix steps are applied; in each step only the longest
//! matching suffix is considered, and a failed side condition ends the
//! step without trying shorter suffixes. The specification functions
//! state each step; the executable functions are proved to compute them.

use vstd::prelude::*;
use vstd::pervasive::VecAdditionalExecFns;

verus! {

// ---------------------------------------------------------------------
// Character classes
// ---------------------------------------------------------------------

/// A vowel of the prepared word; `Y` (a marked `y`) is a consonant.
pub open spec fn is_vowel(c: char) -> bool {
    c == 'a' || c == 'e' || c == 'i' || c == 'o' || c == 'u' || c == 'y'
}

fn isv(c: char) -> (r: bool)
    ensures
        r == is_vowel(c),
{
    c == 'a' || c == 'e' || c == 'i' || c == 'o' || c == 'u' || c == 'y'
}

/// A letter that may end a doubled pair (`bb`, `dd`, ...).
pub open spec fn is_double_letter(c: char) -> bool {
    c == 'b' || c == 'd' || c == 'f' || c == 'g' || c == 'm' || c == 'n' || c == 'p' || c == 'r'
        || c == 't'
}

/// A valid `li`-ending: the letter before a removable `li`.
pub open spec fn is_valid_li(c: char) -> bool {
    c == 'c' || c == 'd' || c == 'e' || c == 'g' || c == 'h' || c == 'k' || c == 'm' || c == 'n'
        || c == 'r' || c == 't'
}

// ---------------------------------------------------------------------
// Suffix tests and replacements
// ---------------------------------------------------------------------

pub open spec fn suf1(s: Seq<char>, a: char) -> bool {
    s.len() >= 1 && s[s.len() - 1] == a
}

pub open spec fn suf2(s: Seq<char>, a: char, b: char) -> bool {
    s.len() >= 2 && s[s.len() - 2] == a && s[s.len() - 1] == b
}

pub open spec fn suf3(s: Seq<char>, a: char, b: char, c: char) -> bool {
    s.len() >= 3 && s[s.len() - 3] == a && s[s.len() - 2] == b && s[s.len() - 1] == c
}

pub open spec fn suf4(s: Seq<char>, a: char, b: char, c: char, d: char) -> bool {
    s.len() >= 4 && s[s.len() - 4] == a && s[s.len() - 3] == b && s[s.len() - 2] == c && s[s.len()
        - 1] == d
}

pub open spec fn suf5(s: Seq<char>, a: char, b: char, c: char, d: char, e: char) -> bool {
    s.len() >= 5 && s[s.len() - 5] == a && s[s.len() - 4] == b && s[s.len() - 3] == c && s[s.len()
        - 2] == d && s[s.len() - 1] == e
}

pub open spec fn suf6(s: Seq<char>, a: char, b: char, c: char, d: char, e: char, f: char) -> bool {
    s.len() >= 6 && s[s.len() - 6] == a && s[s.len() - 5] == b && s[s.len() - 4] == c && s[s.len()
        - 3] == d && s[s.len() - 2] == e && s[s.len() - 1] == f
}

pub open spec fn suf7(
    s: Seq<char>,
    a: char,
    b: char,
    c: char,
    d: char,
    e: char,
    f: char,
    g: char,
) -> bool {
    s.len() >= 7 && s[s.len() - 7] == a && s[s.len() - 6] == b && s[s.len() - 5] == c && s[s.len()
        - 4] == d && s[s.len() - 3] == e && s[s.len() - 2] == f && s[s.len() - 1] == g
}

fn ends1(w: &Vec<char>, a: char) -> (r: bool)
    ensures
        r == suf1(w@, a),
{
    let l = w.len();
    l >= 1 && w[l - 1] == a
}

fn ends2(w: &Vec<char>, a: char, b: char) -> (r: bool)
    ensures
        r == suf2(w@, a, b),
{
    let l = w.len();
    l >= 2 && w[l - 2] == a && w[l - 1] == b
}

fn ends3(w: &Vec<char>, a: char, b: char, c: char) -> (r: bool)
    ensures
        r == suf3(w@, a, b, c),
{
    let l = w.len();
    l >= 3 && w[l - 3] == a && w[l - 2] == b && w[l - 1] == c
}

fn ends4(w: &Vec<char>, a: char, b: char, c: char, d: char) -> (r: bool)
    ensures
        r == suf4(w@, a, b, c, d),
{
    let l = w.len();
    l >= 4 && w[l - 4] == a && w[l - 3] == b && w[l - 2] == c && w[l - 1] == d
}

fn ends5(w: &Vec<char>, a: char, b: char, c: char, d: char, e: char) -> (r: bool)
    ensures
        r == suf5(w@, a, b, c, d, e),
{
    let l = w.len();
    l >= 5 && w[l - 5] == a && w[l - 4] == b && w[l - 3] == c && w[l - 2] == d && w[l - 1] == e
}

fn ends6(w: &Vec<char>, a: char, b: char, c: char, d: char, e: char, f: char) -> (r: bool)
    ensures
        r == suf6(w@, a, b, c, d, e, f),
{
    let l = w.len();
    l >= 6 && w[l - 6] == a && w[l - 5] == b && w[l - 4] == c && w[l - 3] == d && w[l - 2] == e
        && w[l - 1] == f
}

fn ends7(w: &Vec<char>, a: char, b: char, c: char, d: char, e: char, f: char, g: char) -> (r: bool)
    ensures
        r == suf7(w@, a, b, c, d, e, f, g),
{
    let l = w.len();
    l >= 7 && w[l - 7] == a && w[l - 6] == b && w[l - 5] == c && w[l - 4] == d && w[l - 3] == e
        && w[l - 2] == f && w[l - 1] == g
}

/// The word without its last `k` characters.
pub open spec fn del(s: Seq<char>, k: int) -> Seq<char> {
    s.subrange(0, s.len() - k)
}

fn chop(w: &mut Vec<char>, k: usize)
    requires
        k <= old(w)@.len(),
    ensures
        final(w)@ == del(old(w)@, k as int),
{
    let n = w.len() - k;
    w.truncate(n);
}

fn copy_range(w: &Vec<char>, a: usize, b: usize) -> (v: Vec<char>)
    requires
        a <= b <= w@.len(),
    ensures
        v@ == w@.subrange(a as int, b as int),
{
    let mut v: Vec<char> = Vec::new();
    let mut k: usize = a;
    while k < b
        invariant
            a <= k <= b <= w@.len(),
            v@ == w@.subrange(a as int, k as int),
        decreases b - k,
    {
        v.push(w[k]);
        assert(v@ =~= w@.subrange(a as int, (k + 1) as int));
        k = k + 1;
    }
    v
}

fn copy_vec(w: &Vec<char>) -> (v: Vec<char>)
    ensures
        v@ == w@,
{
    let v = copy_range(w, 0, w.len());
    assert(w@.subrange(0, w@.len() as int) =~= w@);
    v
}

fn eq3(w: &Vec<char>, a: char, b: char, c: char) -> (r: bool)
    ensures
        r == (w@ == seq![a, b, c]),
{
    if w.len() == 3 && ends3(w, a, b, c) {
        proof {
            assert(w@ =~= seq![a, b, c]);
        }
        true
    } else {
        false
    }
}

fn eq4(w: &Vec<char>, a: char, b: char, c: char, d: char) -> (r: bool)
    ensures
        r == (w@ == seq![a, b, c, d]),
{
    if w.len() == 4 && ends4(w, a, b, c, d) {
        proof {
            assert(w@ =~= seq![a, b, c, d]);
        }
        true
    } else {
        false
    }
}

fn eq5(w: &Vec<char>, a: char, b: char, c: char, d: char, e: char) -> (r: bool)
    ensures
        r == (w@ == seq![a, b, c, d, e]),
{
    if w.len() == 5 && ends5(w, a, b, c, d, e) {
        proof {
            assert(w@ =~= seq![a, b, c, d, e]);
        }
        true
    } else {
        false
    }
}

fn eq6(w: &Vec<char>, a: char, b: char, c: char, d: char, e: char, f: char) -> (r: bool)
    ensures
        r == (w@ == seq![a, b, c, d, e, f]),
{
    if w.len() == 6 && ends6(w, a, b, c, d, e, f) {
        proof {
            assert(w@ =~= seq![a, b, c, d, e, f]);
        }
        true
    } else {
        false
    }
}

fn eq7(w: &Vec<char>, a: char, b: char, c: char, d: char, e: char, f: char, g: char) -> (r: bool)
    ensures
        r == (w@ == seq![a, b, c, d, e, f, g]),
{
    if w.len() == 7 && ends7(w, a, b, c, d, e, f, g) {
        proof {
            assert(w@ =~= seq![a, b, c, d, e, f, g]);
        }
        true
    } else {
        false
    }
}

// ---------------------------------------------------------------------
// Preparation: leading apostrophe, marking of y, regions R1 and R2
// ---------------------------------------------------------------------

/// Whether the character at `i` of the prepared word is a vowel: `aeiou`
/// always are; a `y` is a vowel exactly when it is not marked, that is,
/// when it neither starts the word nor follows a vowel.
pub open spec fn mark_vowel(s: Seq<char>, i: int) -> bool
    decreases i when 0 <= i < s.len()
{
    if s[i] == 'y' {
        i > 0 && !mark_vowel(s, i - 1)
    } else {
        s[i] == 'a' || s[i] == 'e' || s[i] == 'i' || s[i] == 'o' || s[i] == 'u'
    }
}

/// Whether the `y` at position `i` is marked: it starts the word or
/// follows a vowel.
pub open spec fn y_marked(s: Seq<char>, i: int) -> bool {
    s[i] == 'y' && (i == 0 || mark_vowel(s, i - 1))
}

/// The prepared word: every marked `y` replaced by `Y`.
pub open spec fn marked(s: Seq<char>) -> Seq<char> {
    Seq::new(s.len(), |i: int| if y_marked(s, i) { 'Y' } else { s[i] })
}

/// Whether any `y` was marked (if so, the `Y`s are restored at the end).
pub open spec fn has_marked_y(s: Seq<char>) -> bool {
    exists|i: int| 0 <= i < s.len() && #[trigger] y_marked(s, i)
}

/// Mark the `y`s of the word in place; the result says whether any was
/// marked.
fn prelude_mark(w: &mut Vec<char>) -> (yf: bool)
    ensures
        final(w)@ == marked(old(w)@),
        yf == has_marked_y(old(w)@),
{
    let ghost s = w@;
    let mut yf = false;
    let mut prev_v = false;
    let mut i: usize = 0;
    while i < w.len()
        invariant
            w@.len() == s.len(),
            0 <= i <= s.len(),
            forall|j: int| 0 <= j < i ==> w@[j] == marked(s)[j],
            forall|j: int| i <= j < s.len() ==> w@[j] == s[j],
            i > 0 ==> prev_v == mark_vowel(s, i - 1),
            yf == exists|j: int| 0 <= j < i && #[trigger] y_marked(s, j),
        decreases s.len() - i,
    {
        let c = w[i];
        if c == 'y' && (i == 0 || prev_v) {
            assert(y_marked(s, i as int));
            w.set(i, 'Y');
            yf = true;
            prev_v = false;
        } else {
            assert(!y_marked(s, i as int));
            prev_v = isv(c);
        }
        i = i + 1;
    }
    proof {
        assert(w@ =~= marked(s));
    }
    yf
}

/// Restore every `Y` to `y` if any `y` was marked.
pub open spec fn postlude(s: Seq<char>, yf: bool) -> Seq<char> {
    if yf {
        Seq::new(s.len(), |i: int| if s[i] == 'Y' { 'y' } else { s[i] })
    } else {
        s
    }
}

fn postlude_restore(w: &mut Vec<char>, yf: bool)
    ensures
        final(w)@ == postlude(old(w)@, yf),
{
    let ghost s = w@;
    if yf {
        let mut i: usize = 0;
        while i < w.len()
            invariant
                w@.len() == s.len(),
                0 <= i <= s.len(),
                forall|j: int| 0 <= j < i ==> w@[j] == postlude(s, true)[j],
                forall|j: int| i <= j < s.len() ==> w@[j] == s[j],
            decreases s.len() - i,
        {
            if w[i] == 'Y' {
                w.set(i, 'y');
            }
            i = i + 1;
        }
        proof {
            assert(w@ =~= postlude(s, true));
        }
    }
}

/// The end of the region that starts at `i`: the position after the
/// first non-vowel that follows a vowel, or the end of the word.
pub open spec fn region_from(s: Seq<char>, i: int, seen_v: bool) -> int
    decreases s.len() - i when 0 <= i <= s.len()
{
    if i >= s.len() {
        s.len() as int
    } else if seen_v && !is_vowel(s[i]) {
        i + 1
    } else {
        region_from(s, i + 1, seen_v || is_vowel(s[i]))
    }
}

fn region_exec(w: &Vec<char>, i: usize, seen_v: bool) -> (r: usize)
    requires
        i <= w@.len(),
    ensures
        r == region_from(w@, i as int, seen_v),
        i <= r <= w@.len(),
    decreases w@.len() - i,
{
    if i >= w.len() {
        w.len()
    } else if seen_v && !isv(w[i]) {
        i + 1
    } else {
        region_exec(w, i + 1, seen_v || isv(w[i]))
    }
}

/// R1 of the prepared word: after the first non-vowel following a
/// vowel, except that the prefixes `gener`, `commun` and `arsen` force
/// R1 to begin right after them.
pub open spec fn r1_of(s: Seq<char>) -> int {
    if s.len() >= 5 && s[0] == 'g' && s[1] == 'e' && s[2] == 'n' && s[3] == 'e' && s[4] == 'r' {
        5
    } else if s.len() >= 6 && s[0] == 'c' && s[1] == 'o' && s[2] == 'm' && s[3] == 'm' && s[4]
        == 'u' && s[5] == 'n' {
        6
    } else if s.len() >= 5 && s[0] == 'a' && s[1] == 'r' && s[2] == 's' && s[3] == 'e' && s[4]
        == 'n' {
        5
    } else {
        region_from(s, 0, false)
    }
}

fn r1_exec(w: &Vec<char>) -> (r: usize)
    ensures
        r == r1_of(w@),
        r <= w@.len(),
{
    let l = w.len();
    if l >= 5 && w[0] == 'g' && w[1] == 'e' && w[2] == 'n' && w[3] == 'e' && w[4] == 'r' {
        5
    } else if l >= 6 && w[0] == 'c' && w[1] == 'o' && w[2] == 'm' && w[3] == 'm' && w[4] == 'u'
        && w[5] == 'n' {
        6
    } else if l >= 5 && w[0] == 'a' && w[1] == 'r' && w[2] == 's' && w[3] == 'e' && w[4] == 'n' {
        5
    } else {
        region_exec(w, 0, false)
    }
}

/// Whether a vowel occurs at a position in `[lo, hi)`.
pub open spec fn has_vowel_range(s: Seq<char>, lo: int, hi: int) -> bool
    decreases hi - lo when lo >= 0
{
    lo < hi && hi <= s.len() && (is_vowel(s[lo]) || has_vowel_range(s, lo + 1, hi))
}

fn vowel_in_range(w: &Vec<char>, lo: usize, hi: usize) -> (r: bool)
    requires
        lo <= w@.len(),
    ensures
        r == has_vowel_range(w@, lo as int, hi as int),
    decreases w@.len() - lo,
{
    if lo < hi && hi <= w.len() {
        if isv(w[lo]) {
            true
        } else {
            vowel_in_range(w, lo + 1, hi)
        }
    } else {
        false
    }
}

/// Whether the word ends in a short syllable: a vowel between two
/// non-vowels whose closer one is not `w`, `x` or `Y`, or a vowel that
/// starts the two-letter word, followed by a non-vowel.
pub open spec fn ends_short_syllable(s: Seq<char>) -> bool {
    let l = s.len() as int;
    ||| (l >= 3 && !is_vowel(s[l - 1]) && s[l - 1] != 'w' && s[l - 1] != 'x' && s[l - 1] != 'Y'
        && is_vowel(s[l - 2]) && !is_vowel(s[l - 3]))
    ||| (l == 2 && is_vowel(s[0]) && !is_vowel(s[1]))
}

/// Test `ends_short_syllable` on the first `n` characters of the word.
fn short_syllable_prefix(w: &Vec<char>, n: usize) -> (r: bool)
    requires
        n <= w@.len(),
    ensures
        r == ends_short_syllable(w@.subrange(0, n as int)),
{
    if n >= 3 {
        !isv(w[n - 1]) && w[n - 1] != 'w' && w[n - 1] != 'x' && w[n - 1] != 'Y' && isv(w[n - 2])
            && !isv(w[n - 3])
    } else if n == 2 {
        isv(w[0]) && !isv(w[1])
    } else {
        false
    }
}

/// Whether the word ends in a doubled pair (`bb`, `dd`, ...).
pub open spec fn ends_double(s: Seq<char>) -> bool {
    s.len() >= 2 && s[s.len() - 1] == s[s.len() - 2] && is_double_letter(s[s.len() - 1])
}

fn ends_double_exec(w: &Vec<char>) -> (r: bool)
    ensures
        r == ends_double(w@),
{
    let l = w.len();
    l >= 2 && w[l - 1] == w[l - 2] && {
        let c = w[l - 1];
        c == 'b' || c == 'd' || c == 'f' || c == 'g' || c == 'm' || c == 'n' || c == 'p'
            || c == 'r' || c == 't'
    }
}

// ---------------------------------------------------------------------
// The steps
// ---------------------------------------------------------------------

/// Strip the longest of `'s'`, `'s`, `'`.
pub open spec fn step0(s: Seq<char>) -> Seq<char> {
    if suf3(s, '\'', 's', '\'') {
        del(s, 3)
    } else if suf2(s, '\'', 's') {
        del(s, 2)
    } else if suf1(s, '\'') {
        del(s, 1)
    } else {
        s
    }
}

fn step0_exec(w: &mut Vec<char>)
    ensures
        final(w)@ == step0(old(w)@),
{
    if ends3(w, '\'', 's', '\'') {
        chop(w, 3);
    } else if ends2(w, '\'', 's') {
        chop(w, 2);
    } else if ends1(w, '\'') {
        chop(w, 1);
    }
}

/// Plural normalization: `sses` to `ss`; `ied`/`ies` to `i` (or `ie`
/// for short words); a final `s` dropped when a vowel occurs before the
/// letter preceding it; `us`/`ss` kept.
pub open spec fn step1a(s: Seq<char>) -> Seq<char> {
    let l = s.len() as int;
    if suf4(s, 's', 's', 'e', 's') {
        del(s, 2)
    } else if suf3(s, 'i', 'e', 'd') || suf3(s, 'i', 'e', 's') {
        if l >= 5 {
            del(s, 2)
        } else {
            del(s, 1)
        }
    } else if suf2(s, 'u', 's') || suf2(s, 's', 's') {
        s
    } else if suf1(s, 's') {
        if has_vowel_range(s, 0, l - 2) {
            del(s, 1)
        } else {
            s
        }
    } else {
        s
    }
}

fn step1a_exec(w: &mut Vec<char>)
    ensures
        final(w)@ == step1a(old(w)@),
{
    if ends4(w, 's', 's', 'e', 's') {
        chop(w, 2);
    } else if ends3(w, 'i', 'e', 'd') || ends3(w, 'i', 'e', 's') {
        if w.len() >= 5 {
            chop(w, 2);
        } else {
            chop(w, 1);
        }
    } else if ends2(w, 'u', 's') || ends2(w, 's', 's') {
    } else if ends1(w, 's') {
        let l = w.len();
        if l >= 2 && vowel_in_range(w, 0, l - 2) {
            chop(w, 1);
        }
    }
}

/// The repair after `ed`/`ing` removal: re-add `e` after `at`, `bl`,
/// `iz`; undouble a final doubled pair; add `e` to a short word.
pub open spec fn step1b_fix(t: Seq<char>, r1: int) -> Seq<char> {
    if suf2(t, 'a', 't') || suf2(t, 'b', 'l') || suf2(t, 'i', 'z') {
        t.push('e')
    } else if ends_double(t) {
        del(t, 1)
    } else if r1 >= t.len() && ends_short_syllable(t) {
        t.push('e')
    } else {
        t
    }
}

/// Delete a `k`-character suffix of the `ed`/`ing` family if a vowel
/// precedes it, then repair.
pub open spec fn step1b_del(s: Seq<char>, k: int, r1: int) -> Seq<char> {
    if has_vowel_range(s, 0, s.len() - k) {
        step1b_fix(del(s, k), r1)
    } else {
        s
    }
}

/// Past-tense and participle normalization: `eed`/`eedly` to `ee` in
/// R1; `ed`/`edly`/`ing`/`ingly` dropped when a vowel precedes, with
/// repair.
pub open spec fn step1b(s: Seq<char>, r1: int) -> Seq<char> {
    let l = s.len() as int;
    if suf5(s, 'e', 'e', 'd', 'l', 'y') {
        if l - 5 >= r1 {
            del(s, 3)
        } else {
            s
        }
    } else if suf5(s, 'i', 'n', 'g', 'l', 'y') {
        step1b_del(s, 5, r1)
    } else if suf4(s, 'e', 'd', 'l', 'y') {
        step1b_del(s, 4, r1)
    } else if suf3(s, 'e', 'e', 'd') {
        if l - 3 >= r1 {
            del(s, 1)
        } else {
            s
        }
    } else if suf3(s, 'i', 'n', 'g') {
        step1b_del(s, 3, r1)
    } else if suf2(s, 'e', 'd') {
        step1b_del(s, 2, r1)
    } else {
        s
    }
}

fn step1b_fix_exec(w: &mut Vec<char>, r1: usize)
    ensures
        final(w)@ == step1b_fix(old(w)@, r1 as int),
{
    if ends2(w, 'a', 't') || ends2(w, 'b', 'l') || ends2(w, 'i', 'z') {
        w.push('e');
    } else if ends_double_exec(w) {
        chop(w, 1);
    } else {
        let n = w.len();
        proof {
            assert(w@.subrange(0, n as int) =~= w@);
        }
        if r1 >= n && short_syllable_prefix(w, n) {
            w.push('e');
        }
    }
}

fn step1b_exec(w: &mut Vec<char>, r1: usize)
    ensures
        final(w)@ == step1b(old(w)@, r1 as int),
{
    if ends5(w, 'e', 'e', 'd', 'l', 'y') {
        if w.len() - 5 >= r1 {
            chop(w, 3);
        }
    } else if ends5(w, 'i', 'n', 'g', 'l', 'y') {
        if vowel_in_range(w, 0, w.len() - 5) {
            chop(w, 5);
            step1b_fix_exec(w, r1);
        }
    } else if ends4(w, 'e', 'd', 'l', 'y') {
        if vowel_in_range(w, 0, w.len() - 4) {
            chop(w, 4);
            step1b_fix_exec(w, r1);
        }
    } else if ends3(w, 'e', 'e', 'd') {
        if w.len() - 3 >= r1 {
            chop(w, 1);
        }
    } else if ends3(w, 'i', 'n', 'g') {
        if vowel_in_range(w, 0, w.len() - 3) {
            chop(w, 3);
            step1b_fix_exec(w, r1);
        }
    } else if ends2(w, 'e', 'd') {
        if vowel_in_range(w, 0, w.len() - 2) {
            chop(w, 2);
            step1b_fix_exec(w, r1);
        }
    }
}

/// A final `y` (or `Y`) after a non-vowel that is not the first letter
/// becomes `i`.
pub open spec fn step1c(s: Seq<char>) -> Seq<char> {
    let l = s.len() as int;
    if l >= 3 && (s[l - 1] == 'y' || s[l - 1] == 'Y') && !is_vowel(s[l - 2]) {
        del(s, 1).push('i')
    } else {
        s
    }
}

fn step1c_exec(w: &mut Vec<char>)
    ensures
        final(w)@ == step1c(old(w)@),
{
    let l = w.len();
    if l >= 3 && (w[l - 1] == 'y' || w[l - 1] == 'Y') && !isv(w[l - 2]) {
        chop(w, 1);
        w.push('i');
    }
}

/// The first table of derivational endings, applied in R1; the longest
/// matching suffix decides, and a match outside R1 ends the step.
pub open spec fn step2(s: Seq<char>, r1: int) -> Seq<char> {
    let l = s.len() as int;
    if suf7(s, 'a', 't', 'i', 'o', 'n', 'a', 'l') {
        if l - 7 >= r1 {
            del(s, 7).push('a').push('t').push('e')
        } else {
            s
        }
    } else if suf7(s, 'f', 'u', 'l', 'n', 'e', 's', 's') {
        if l - 7 >= r1 {
            del(s, 4)
        } else {
            s
        }
    } else if suf7(s, 'i', 'v', 'e', 'n', 'e', 's', 's') {
        if l - 7 >= r1 {
            del(s, 4)
        } else {
            s
        }
    } else if suf7(s, 'i', 'z', 'a', 't', 'i', 'o', 'n') {
        if l - 7 >= r1 {
            del(s, 7).push('i').push('z').push('e')
        } else {
            s
        }
    } else if suf7(s, 'o', 'u', 's', 'n', 'e', 's', 's') {
        if l - 7 >= r1 {
            del(s, 4)
        } else {
            s
        }
    } else if suf6(s, 'b', 'i', 'l', 'i', 't', 'i') {
        if l - 6 >= r1 {
            del(s, 6).push('b').push('l').push('e')
        } else {
            s
        }
    } else if suf6(s, 'l', 'e', 's', 's', 'l', 'i') {
        if l - 6 >= r1 {
            del(s, 2)
        } else {
            s
        }
    } else if suf6(s, 't', 'i', 'o', 'n', 'a', 'l') {
        if l - 6 >= r1 {
            del(s, 2)
        } else {
            s
        }
    } else if suf5(s, 'a', 'l', 'i', 's', 'm') {
        if l - 5 >= r1 {
            del(s, 3)
        } else {
            s
        }
    } else if suf5(s, 'a', 'l', 'i', 't', 'i') {
        if l - 5 >= r1 {
            del(s, 3)
        } else {
            s
        }
    } else if suf5(s, 'a', 't', 'i', 'o', 'n') {
        if l - 5 >= r1 {
            del(s, 5).push('a').push('t').push('e')
        } else {
            s
        }
    } else if suf5(s, 'e', 'n', 't', 'l', 'i') {
        if l - 5 >= r1 {
            del(s, 2)
        } else {
            s
        }
    } else if suf5(s, 'f', 'u', 'l', 'l', 'i') {
        if l - 5 >= r1 {
            del(s, 2)
        } else {
            s
        }
    } else if suf5(s, 'i', 'v', 'i', 't', 'i') {
        if l - 5 >= r1 {
            del(s, 5).push('i').push('v').push('e')
        } else {
            s
        }
    } else if suf5(s, 'o', 'u', 's', 'l', 'i') {
        if l - 5 >= r1 {
            del(s, 2)
        } else {
            s
        }
    } else if suf4(s, 'a', 'b', 'l', 'i') {
        if l - 4 >= r1 {
            del(s, 4).push('a').push('b').push('l').push('e')
        } else {
            s
        }
    } else if suf4(s, 'a', 'l', 'l', 'i') {
        if l - 4 >= r1 {
            del(s, 2)
        } else {
            s
        }
    } else if suf4(s, 'a', 'n', 'c', 'i') {
        if l - 4 >= r1 {
            del(s, 1).push('e')
        } else {
            s
        }
    } else if suf4(s, 'a', 't', 'o', 'r') {
        if l - 4 >= r1 {
            del(s, 2).push('e')
        } else {
            s
        }
    } else if suf4(s, 'e', 'n', 'c', 'i') {
        if l - 4 >= r1 {
            del(s, 1).push('e')
        } else {
            s
        }
    } else if suf4(s, 'i', 'z', 'e', 'r') {
        if l - 4 >= r1 {
            del(s, 1)
        } else {
            s
        }
    } else if suf3(s, 'b', 'l', 'i') {
        if l - 3 >= r1 {
            del(s, 1).push('e')
        } else {
            s
        }
    } else if suf3(s, 'o', 'g', 'i') {
        if l - 3 >= r1 && l >= 4 && s[l - 4] == 'l' {
            del(s, 1)
        } else {
            s
        }
    } else if suf2(s, 'l', 'i') {
        if l - 2 >= r1 && l >= 3 && is_valid_li(s[l - 3]) {
            del(s, 2)
        } else {
            s
        }
    } else {
        s
    }
}

fn step2_exec(w: &mut Vec<char>, r1: usize)
    ensures
        final(w)@ == step2(old(w)@, r1 as int),
{
    if ends7(w, 'a', 't', 'i', 'o', 'n', 'a', 'l') {
        if w.len() - 7 >= r1 {
            chop(w, 7);
            w.push('a');
            w.push('t');
            w.push('e');
        }
    } else if ends7(w, 'f', 'u', 'l', 'n', 'e', 's', 's') {
        if w.len() - 7 >= r1 {
            chop(w, 4);
        }
    } else if ends7(w, 'i', 'v', 'e', 'n', 'e', 's', 's') {
        if w.len() - 7 >= r1 {
            chop(w, 4);
        }
    } else if ends7(w, 'i', 'z', 'a', 't', 'i', 'o', 'n') {
        if w.len() - 7 >= r1 {
            chop(w, 7);
            w.push('i');
            w.push('z');
            w.push('e');
        }
    } else if ends7(w, 'o', 'u', 's', 'n', 'e', 's', 's') {
        if w.len() - 7 >= r1 {
            chop(w, 4);
        }
    } else if ends6(w, 'b', 'i', 'l', 'i', 't', 'i') {
        if w.len() - 6 >= r1 {
            chop(w, 6);
            w.push('b');
            w.push('l');
            w.push('e');
        }
    } else if ends6(w, 'l', 'e', 's', 's', 'l', 'i') {
        if w.len() - 6 >= r1 {
            chop(w, 2);
        }
    } else if ends6(w, 't', 'i', 'o', 'n', 'a', 'l') {
        if w.len() - 6 >= r1 {
            chop(w, 2);
        }
    } else if ends5(w, 'a', 'l', 'i', 's', 'm') {
        if w.len() - 5 >= r1 {
            chop(w, 3);
        }
    } else if ends5(w, 'a', 'l', 'i', 't', 'i') {
        if w.len() - 5 >= r1 {
            chop(w, 3);
        }
    } else if ends5(w, 'a', 't', 'i', 'o', 'n') {
        if w.len() - 5 >= r1 {
            chop(w, 5);
            w.push('a');
            w.push('t');
            w.push('e');
        }
    } else if ends5(w, 'e', 'n', 't', 'l', 'i') {
        if w.len() - 5 >= r1 {
            chop(w, 2);
        }
    } else if ends5(w, 'f', 'u', 'l', 'l', 'i') {
        if w.len() - 5 >= r1 {
            chop(w, 2);
        }
    } else if ends5(w, 'i', 'v', 'i', 't', 'i') {
        if w.len() - 5 >= r1 {
            chop(w, 5);
            w.push('i');
            w.push('v');
            w.push('e');
        }
    } else if ends5(w, 'o', 'u', 's', 'l', 'i') {
        if w.len() - 5 >= r1 {
            chop(w, 2);
        }
    } else if ends4(w, 'a', 'b', 'l', 'i') {
        if w.len() - 4 >= r1 {
            chop(w, 4);
            w.push('a');
            w.push('b');
            w.push('l');
            w.push('e');
        }
    } else if ends4(w, 'a', 'l', 'l', 'i') {
        if w.len() - 4 >= r1 {
            chop(w, 2);
        }
    } else if ends4(w, 'a', 'n', 'c', 'i') {
        if w.len() - 4 >= r1 {
            chop(w, 1);
            w.push('e');
        }
    } else if ends4(w, 'a', 't', 'o', 'r') {
        if w.len() - 4 >= r1 {
            chop(w, 2);
            w.push('e');
        }
    } else if ends4(w, 'e', 'n', 'c', 'i') {
        if w.len() - 4 >= r1 {
            chop(w, 1);
            w.push('e');
        }
    } else if ends4(w, 'i', 'z', 'e', 'r') {
        if w.len() - 4 >= r1 {
            chop(w, 1);
        }
    } else if ends3(w, 'b', 'l', 'i') {
        if w.len() - 3 >= r1 {
            chop(w, 1);
            w.push('e');
        }
    } else if ends3(w, 'o', 'g', 'i') {
        let l = w.len();
        if l - 3 >= r1 && l >= 4 && w[l - 4] == 'l' {
            chop(w, 1);
        }
    } else if ends2(w, 'l', 'i') {
        let l = w.len();
        if l - 2 >= r1 && l >= 3 && {
            let c = w[l - 3];
            c == 'c' || c == 'd' || c == 'e' || c == 'g' || c == 'h' || c == 'k' || c == 'm'
                || c == 'n' || c == 'r' || c == 't'
        } {
            chop(w, 2);
        }
    }
}

/// The second table of derivational endings, applied in R1 (`ative`
/// only in R2).
pub open spec fn step3(s: Seq<char>, r1: int, r2: int) -> Seq<char> {
    let l = s.len() as int;
    if suf7(s, 'a', 't', 'i', 'o', 'n', 'a', 'l') {
        if l - 7 >= r1 {
            del(s, 7).push('a').push('t').push('e')
        } else {
            s
        }
    } else if suf6(s, 't', 'i', 'o', 'n', 'a', 'l') {
        if l - 6 >= r1 {
            del(s, 2)
        } else {
            s
        }
    } else if suf5(s, 'a', 'l', 'i', 'z', 'e') {
        if l - 5 >= r1 {
            del(s, 3)
        } else {
            s
        }
    } else if suf5(s, 'i', 'c', 'a', 't', 'e') {
        if l - 5 >= r1 {
            del(s, 3)
        } else {
            s
        }
    } else if suf5(s, 'i', 'c', 'i', 't', 'i') {
        if l - 5 >= r1 {
            del(s, 3)
        } else {
            s
        }
    } else if suf5(s, 'a', 't', 'i', 'v', 'e') {
        if l - 5 >= r1 && l - 5 >= r2 {
            del(s, 5)
        } else {
            s
        }
    } else if suf4(s, 'i', 'c', 'a', 'l') {
        if l - 4 >= r1 {
            del(s, 2)
        } else {
            s
        }
    } else if suf4(s, 'n', 'e', 's', 's') {
        if l - 4 >= r1 {
            del(s, 4)
        } else {
            s
        }
    } else if suf3(s, 'f', 'u', 'l') {
        if l - 3 >= r1 {
            del(s, 3)
        } else {
            s
        }
    } else {
        s
    }
}

fn step3_exec(w: &mut Vec<char>, r1: usize, r2: usize)
    ensures
        final(w)@ == step3(old(w)@, r1 as int, r2 as int),
{
    if ends7(w, 'a', 't', 'i', 'o', 'n', 'a', 'l') {
        if w.len() - 7 >= r1 {
            chop(w, 7);
            w.push('a');
            w.push('t');
            w.push('e');
        }
    } else if ends6(w, 't', 'i', 'o', 'n', 'a', 'l') {
        if w.len() - 6 >= r1 {
            chop(w, 2);
        }
    } else if ends5(w, 'a', 'l', 'i', 'z', 'e') {
        if w.len() - 5 >= r1 {
            chop(w, 3);
        }
    } else if ends5(w, 'i', 'c', 'a', 't', 'e') {
        if w.len() - 5 >= r1 {
            chop(w, 3);
        }
    } else if ends5(w, 'i', 'c', 'i', 't', 'i') {
        if w.len() - 5 >= r1 {
            chop(w, 3);
        }
    } else if ends5(w, 'a', 't', 'i', 'v', 'e') {
        if w.len() - 5 >= r1 && w.len() - 5 >= r2 {
            chop(w, 5);
        }
    } else if ends4(w, 'i', 'c', 'a', 'l') {
        if w.len() - 4 >= r1 {
            chop(w, 2);
        }
    } else if ends4(w, 'n', 'e', 's', 's') {
        if w.len() - 4 >= r1 {
            chop(w, 4);
        }
    } else if ends3(w, 'f', 'u', 'l') {
        if w.len() - 3 >= r1 {
            chop(w, 3);
        }
    }
}

/// Residual suffixes, removed in R2 (`ion` only after `s` or `t`).
pub open spec fn step4(s: Seq<char>, r2: int) -> Seq<char> {
    let l = s.len() as int;
    if suf5(s, 'e', 'm', 'e', 'n', 't') {
        if l - 5 >= r2 {
            del(s, 5)
        } else {
            s
        }
    } else if suf4(s, 'a', 'b', 'l', 'e') {
        if l - 4 >= r2 {
            del(s, 4)
        } else {
            s
        }
    } else if suf4(s, 'a', 'n', 'c', 'e') {
        if l - 4 >= r2 {
            del(s, 4)
        } else {
            s
        }
    } else if suf4(s, 'e', 'n', 'c', 'e') {
        if l - 4 >= r2 {
            del(s, 4)
        } else {
            s
        }
    } else if suf4(s, 'i', 'b', 'l', 'e') {
        if l - 4 >= r2 {
            del(s, 4)
        } else {
            s
        }
    } else if suf4(s, 'm', 'e', 'n', 't') {
        if l - 4 >= r2 {
            del(s, 4)
        } else {
            s
        }
    } else if suf3(s, 'a', 'n', 't') {
        if l - 3 >= r2 {
            del(s, 3)
        } else {
            s
        }
    } else if suf3(s, 'a', 't', 'e') {
        if l - 3 >= r2 {
            del(s, 3)
        } else {
            s
        }
    } else if suf3(s, 'e', 'n', 't') {
        if l - 3 >= r2 {
            del(s, 3)
        } else {
            s
        }
    } else if suf3(s, 'i', 'o', 'n') {
        if l - 3 >= r2 && l >= 4 && (s[l - 4] == 's' || s[l - 4] == 't') {
            del(s, 3)
        } else {
            s
        }
    } else if suf3(s, 'i', 's', 'm') {
        if l - 3 >= r2 {
            del(s, 3)
        } else {
            s
        }
    } else if suf3(s, 'i', 't', 'i') {
        if l - 3 >= r2 {
            del(s, 3)
        } else {
            s
        }
    } else if suf3(s, 'i', 'v', 'e') {
        if l - 3 >= r2 {
            del(s, 3)
        } else {
            s
        }
    } else if suf3(s, 'i', 'z', 'e') {
        if l - 3 >= r2 {
            del(s, 3)
        } else {
            s
        }
    } else if suf3(s, 'o', 'u', 's') {
        if l - 3 >= r2 {
            del(s, 3)
        } else {
            s
        }
    } else if suf2(s, 'a', 'l') {
        if l - 2 >= r2 {
            del(s, 2)
        } else {
            s
        }
    } else if suf2(s, 'e', 'r') {
        if l - 2 >= r2 {
            del(s, 2)
        } else {
            s
        }
    } else if suf2(s, 'i', 'c') {
        if l - 2 >= r2 {
            del(s, 2)
        } else {
            s
        }
    } else {
        s
    }
}

fn step4_exec(w: &mut Vec<char>, r2: usize)
    ensures
        final(w)@ == step4(old(w)@, r2 as int),
{
    if ends5(w, 'e', 'm', 'e', 'n', 't') {
        if w.len() - 5 >= r2 {
            chop(w, 5);
        }
    } else if ends4(w, 'a', 'b', 'l', 'e') {
        if w.len() - 4 >= r2 {
            chop(w, 4);
        }
    } else if ends4(w, 'a', 'n', 'c', 'e') {
        if w.len() - 4 >= r2 {
            chop(w, 4);
        }
    } else if ends4(w, 'e', 'n', 'c', 'e') {
        if w.len() - 4 >= r2 {
            chop(w, 4);
        }
    } else if ends4(w, 'i', 'b', 'l', 'e') {
        if w.len() - 4 >= r2 {
            chop(w, 4);
        }
    } else if ends4(w, 'm', 'e', 'n', 't') {
        if w.len() - 4 >= r2 {
            chop(w, 4);
        }
    } else if ends3(w, 'a', 'n', 't') {
        if w.len() - 3 >= r2 {
            chop(w, 3);
        }
    } else if ends3(w, 'a', 't', 'e') {
        if w.len() - 3 >= r2 {
            chop(w, 3);
        }
    } else if ends3(w, 'e', 'n', 't') {
        if w.len() - 3 >= r2 {
            chop(w, 3);
        }
    } else if ends3(w, 'i', 'o', 'n') {
        let l = w.len();
        if l - 3 >= r2 && l >= 4 && (w[l - 4] == 's' || w[l - 4] == 't') {
            chop(w, 3);
        }
    } else if ends3(w, 'i', 's', 'm') {
        if w.len() - 3 >= r2 {
            chop(w, 3);
        }
    } else if ends3(w, 'i', 't', 'i') {
        if w.len() - 3 >= r2 {
            chop(w, 3);
        }
    } else if ends3(w, 'i', 'v', 'e') {
        if w.len() - 3 >= r2 {
            chop(w, 3);
        }
    } else if ends3(w, 'i', 'z', 'e') {
        if w.len() - 3 >= r2 {
            chop(w, 3);
        }
    } else if ends3(w, 'o', 'u', 's') {
        if w.len() - 3 >= r2 {
            chop(w, 3);
        }
    } else if ends2(w, 'a', 'l') {
        if w.len() - 2 >= r2 {
            chop(w, 2);
        }
    } else if ends2(w, 'e', 'r') {
        if w.len() - 2 >= r2 {
            chop(w, 2);
        }
    } else if ends2(w, 'i', 'c') {
        if w.len() - 2 >= r2 {
            chop(w, 2);
        }
    }
}

/// A final `e` is dropped in R2, or in R1 when no short syllable
/// precedes it; a final `l` is dropped in R2 after another `l`.
pub open spec fn step5(s: Seq<char>, r1: int, r2: int) -> Seq<char> {
    let l = s.len() as int;
    if suf1(s, 'e') {
        if l - 1 >= r2 || (l - 1 >= r1 && !ends_short_syllable(del(s, 1))) {
            del(s, 1)
        } else {
            s
        }
    } else if suf1(s, 'l') {
        if l - 1 >= r2 && l >= 2 && s[l - 2] == 'l' {
            del(s, 1)
        } else {
            s
        }
    } else {
        s
    }
}

fn step5_exec(w: &mut Vec<char>, r1: usize, r2: usize)
    ensures
        final(w)@ == step5(old(w)@, r1 as int, r2 as int),
{
    if ends1(w, 'e') {
        let l = w.len();
        if l - 1 >= r2 || (l - 1 >= r1 && !short_syllable_prefix(w, l - 1)) {
            chop(w, 1);
        }
    } else if ends1(w, 'l') {
        let l = w.len();
        if l - 1 >= r2 && l >= 2 && w[l - 2] == 'l' {
            chop(w, 1);
        }
    }
}

// ---------------------------------------------------------------------
// Exceptional forms
// ---------------------------------------------------------------------

/// Whether the whole word is one of the exceptional forms handled
/// before the steps.
pub open spec fn is_exc1(s: Seq<char>) -> bool {
    ||| s == seq!['s', 'k', 'i', 's']
    ||| s == seq!['s', 'k', 'i', 'e', 's']
    ||| s == seq!['d', 'y', 'i', 'n', 'g']
    ||| s == seq!['l', 'y', 'i', 'n', 'g']
    ||| s == seq!['t', 'y', 'i', 'n', 'g']
    ||| s == seq!['i', 'd', 'l', 'y']
    ||| s == seq!['g', 'e', 'n', 't', 'l', 'y']
    ||| s == seq!['u', 'g', 'l', 'y']
    ||| s == seq!['e', 'a', 'r', 'l', 'y']
    ||| s == seq!['o', 'n', 'l', 'y']
    ||| s == seq!['s', 'i', 'n', 'g', 'l', 'y']
    ||| s == seq!['s', 'k', 'y']
    ||| s == seq!['n', 'e', 'w', 's']
    ||| s == seq!['h', 'o', 'w', 'e']
    ||| s == seq!['a', 't', 'l', 'a', 's']
    ||| s == seq!['c', 'o', 's', 'm', 'o', 's']
    ||| s == seq!['b', 'i', 'a', 's']
    ||| s == seq!['a', 'n', 'd', 'e', 's']
}

/// The stem of an exceptional form.
pub open spec fn exc1_of(s: Seq<char>) -> Seq<char> {
    if s == seq!['s', 'k', 'i', 's'] {
        del(s, 1)
    } else if s == seq!['s', 'k', 'i', 'e', 's'] {
        del(s, 3).push('y')
    } else if s == seq!['d', 'y', 'i', 'n', 'g'] || s == seq!['l', 'y', 'i', 'n', 'g'] || s
        == seq!['t', 'y', 'i', 'n', 'g'] {
        del(s, 4).push('i').push('e')
    } else if s == seq!['i', 'd', 'l', 'y'] || s == seq!['g', 'e', 'n', 't', 'l', 'y'] || s
        == seq!['s', 'i', 'n', 'g', 'l', 'y'] {
        del(s, 1)
    } else if s == seq!['u', 'g', 'l', 'y'] || s == seq!['e', 'a', 'r', 'l', 'y'] || s == seq![
        'o',
        'n',
        'l',
        'y',
    ] {
        del(s, 1).push('i')
    } else {
        s
    }
}

fn exc1_exec(w: &Vec<char>) -> (r: Option<Vec<char>>)
    ensures
        (r is Some) == is_exc1(w@),
        r matches Some(v) ==> v@ == exc1_of(w@),
{
    if eq4(w, 's', 'k', 'i', 's') || eq4(w, 'i', 'd', 'l', 'y') || eq6(
        w,
        'g',
        'e',
        'n',
        't',
        'l',
        'y',
    ) || eq6(w, 's', 'i', 'n', 'g', 'l', 'y') {
        let mut v = copy_vec(w);
        chop(&mut v, 1);
        Some(v)
    } else if eq5(w, 's', 'k', 'i', 'e', 's') {
        let mut v = copy_vec(w);
        chop(&mut v, 3);
        v.push('y');
        Some(v)
    } else if eq5(w, 'd', 'y', 'i', 'n', 'g') || eq5(w, 'l', 'y', 'i', 'n', 'g') || eq5(
        w,
        't',
        'y',
        'i',
        'n',
        'g',
    ) {
        let mut v = copy_vec(w);
        chop(&mut v, 4);
        v.push('i');
        v.push('e');
        Some(v)
    } else if eq4(w, 'u', 'g', 'l', 'y') || eq5(w, 'e', 'a', 'r', 'l', 'y') || eq4(
        w,
        'o',
        'n',
        'l',
        'y',
    ) {
        let mut v = copy_vec(w);
        chop(&mut v, 1);
        v.push('i');
        Some(v)
    } else if eq3(w, 's', 'k', 'y') || eq4(w, 'n', 'e', 'w', 's') || eq4(w, 'h', 'o', 'w', 'e')
        || eq5(w, 'a', 't', 'l', 'a', 's') || eq6(w, 'c', 'o', 's', 'm', 'o', 's') || eq4(
        w,
        'b',
        'i',
        'a',
        's',
    ) || eq5(w, 'a', 'n', 'd', 'e', 's') {
        Some(copy_vec(w))
    } else {
        None
    }
}

/// Whether the word, after the plural step, is one of the forms left
/// untouched by the remaining steps.
pub open spec fn is_exc2(s: Seq<char>) -> bool {
    ||| s == seq!['i', 'n', 'n', 'i', 'n', 'g']
    ||| s == seq!['o', 'u', 't', 'i', 'n', 'g']
    ||| s == seq!['c', 'a', 'n', 'n', 'i', 'n', 'g']
    ||| s == seq!['h', 'e', 'r', 'r', 'i', 'n', 'g']
    ||| s == seq!['e', 'a', 'r', 'r', 'i', 'n', 'g']
    ||| s == seq!['p', 'r', 'o', 'c', 'e', 'e', 'd']
    ||| s == seq!['e', 'x', 'c', 'e', 'e', 'd']
    ||| s == seq!['s', 'u', 'c', 'c', 'e', 'e', 'd']
}

fn exc2_exec(w: &Vec<char>) -> (r: bool)
    ensures
        r == is_exc2(w@),
{
    eq6(w, 'i', 'n', 'n', 'i', 'n', 'g') || eq6(w, 'o', 'u', 't', 'i', 'n', 'g') || eq7(
        w,
        'c',
        'a',
        'n',
        'n',
        'i',
        'n',
        'g',
    ) || eq7(w, 'h', 'e', 'r', 'r', 'i', 'n', 'g') || eq7(w, 'e', 'a', 'r', 'r', 'i', 'n', 'g')
        || eq7(w, 'p', 'r', 'o', 'c', 'e', 'e', 'd') || eq6(w, 'e', 'x', 'c', 'e', 'e', 'd')
        || eq7(w, 's', 'u', 'c', 'c', 'e', 'e', 'd')
}

// ---------------------------------------------------------------------
// The whole algorithm
// ---------------------------------------------------------------------

/// The word without a single leading apostrophe.
pub open spec fn drop_apos(s: Seq<char>) -> Seq<char> {
    if s.len() > 0 && s[0] == '\'' {
        s.subrange(1, s.len() as int)
    } else {
        s
    }
}

/// The Porter2 stem of a word: exceptional forms are looked up, words
/// of fewer than three characters are left alone, and every other word
/// is prepared, walked through the steps in order, and unmarked.
pub open spec fn porter2_spec(w: Seq<char>) -> Seq<char> {
    if is_exc1(w) {
        exc1_of(w)
    } else if w.len() < 3 {
        w
    } else {
        let t = drop_apos(w);
        let m = marked(t);
        let yf = has_marked_y(t);
        let r1 = r1_of(m);
        let r2 = region_from(m, r1, false);
        let w1a = step1a(step0(m));
        if is_exc2(w1a) {
            postlude(w1a, yf)
        } else {
            postlude(
                step5(step4(step3(step2(step1c(step1b(w1a, r1)), r1), r1, r2), r2), r1, r2),
                yf,
            )
        }
    }
}

/// Compute the Porter2 stem of the characters of one word.
pub fn porter2(w: &Vec<char>) -> (r: Vec<char>)
    ensures
        r@ == porter2_spec(w@),
{
    if let Some(v) = exc1_exec(w) {
        return v;
    }
    if w.len() < 3 {
        return copy_vec(w);
    }
    let mut v: Vec<char>;
    if w[0] == '\'' {
        v = copy_range(w, 1, w.len());
    } else {
        v = copy_vec(w);
    }
    let yf = prelude_mark(&mut v);
    let r1 = r1_exec(&v);
    let r2 = region_exec(&v, r1, false);
    step0_exec(&mut v);
    step1a_exec(&mut v);
    if exc2_exec(&v) {
        postlude_restore(&mut v, yf);
        return v;
    }
    step1b_exec(&mut v, r1);
    step1c_exec(&mut v);
    step2_exec(&mut v, r1);
    step3_exec(&mut v, r1, r2);
    step4_exec(&mut v, r2);
    step5_exec(&mut v, r1, r2);
    postlude_restore(&mut v, yf);
    v
}

} // verus!
