//! Scanning primitives over character sequences: runs of characters of a
//! class, and the first occurrence of a literal at or after a position.
use vstd::prelude::*;
use crate::text::{is_white_space, white_space};

verus! {

/// The character classes that the markup grammars of this crate are written in.
#[derive(Clone, Copy, Debug, PartialEq, Eq)]
pub enum CharClass {
    /// Any character but `[`, `]` and `|`: the target of a wiki-link.
    SlugChar,
    /// Any character but `[` and `]`: the shown text of a wiki-link.
    DisplayChar,
    /// Any character but `"`.
    NotQuote,
    /// Any character but `<`.
    NotLt,
    /// A character with the Unicode `White_Space` property.
    Space,
}

pub open spec fn in_class(cls: CharClass, c: char) -> bool {
    match cls {
        CharClass::SlugChar => c != '[' && c != ']' && c != '|',
        CharClass::DisplayChar => c != '[' && c != ']',
        CharClass::NotQuote => c != '"',
        CharClass::NotLt => c != '<',
        CharClass::Space => is_white_space(c),
    }
}

pub fn class_has(cls: CharClass, c: char) -> (r: bool)
    ensures
        r == in_class(cls, c),
{
    match cls {
        CharClass::SlugChar => c != '[' && c != ']' && c != '|',
        CharClass::DisplayChar => c != '[' && c != ']',
        CharClass::NotQuote => c != '"',
        CharClass::NotLt => c != '<',
        CharClass::Space => white_space(c),
    }
}

/// The end of the longest run of `cls` characters of `s` that starts at `i`.
pub open spec fn run_end(s: Seq<char>, i: int, cls: CharClass) -> int
    decreases s.len() - i,
{
    if i < 0 || i >= s.len() || !in_class(cls, s[i]) {
        i
    } else {
        run_end(s, i + 1, cls)
    }
}

pub proof fn lemma_run_end(s: Seq<char>, i: int, cls: CharClass)
    requires
        0 <= i <= s.len(),
    ensures
        i <= run_end(s, i, cls) <= s.len(),
        forall|k: int| i <= k < run_end(s, i, cls) ==> in_class(cls, #[trigger] s[k]),
        run_end(s, i, cls) < s.len() ==> !in_class(cls, s[run_end(s, i, cls)]),
    decreases s.len() - i,
{
    if i < s.len() && in_class(cls, s[i]) {
        lemma_run_end(s, i + 1, cls);
    }
}

/// A run of `cls` characters from `i` to `j`, not continued at `j`, ends at `j`.
pub proof fn lemma_run_end_at(s: Seq<char>, i: int, j: int, cls: CharClass)
    requires
        0 <= i <= j <= s.len(),
        forall|k: int| i <= k < j ==> in_class(cls, #[trigger] s[k]),
        j < s.len() ==> !in_class(cls, s[j]),
    ensures
        run_end(s, i, cls) == j,
    decreases j - i,
{
    if i < j {
        lemma_run_end_at(s, i + 1, j, cls);
    }
}

/// `run_end` on a vector.
pub fn find_run_end(v: &Vec<char>, i: usize, cls: CharClass) -> (r: usize)
    requires
        i <= v@.len(),
    ensures
        r == run_end(v@, i as int, cls),
{
    proof {
        lemma_run_end(v@, i as int, cls);
    }
    let mut k = i;
    while k < v.len() && class_has(cls, v[k])
        invariant
            i <= k <= v@.len(),
            run_end(v@, k as int, cls) == run_end(v@, i as int, cls),
        decreases v@.len() - k,
    {
        k = k + 1;
    }
    k
}

/// Whether `pat` occurs in `s` at position `i`.
pub open spec fn occurs(s: Seq<char>, i: int, pat: Seq<char>) -> bool {
    0 <= i && i + pat.len() <= s.len() && s.subrange(i, i + pat.len()) == pat
}

/// The first position at or after `i` where `pat` occurs in `s`, if any.
pub open spec fn find_from(s: Seq<char>, i: int, pat: Seq<char>) -> Option<int>
    decreases s.len() + 1 - i,
{
    if i < 0 || i + pat.len() > s.len() {
        None
    } else if occurs(s, i, pat) {
        Some(i)
    } else {
        find_from(s, i + 1, pat)
    }
}

pub proof fn lemma_find_from(s: Seq<char>, i: int, pat: Seq<char>)
    requires
        0 <= i,
    ensures
        find_from(s, i, pat) matches Some(j) ==> i <= j && occurs(s, j, pat) && forall|k: int|
            i <= k < j ==> !#[trigger] occurs(s, k, pat),
        find_from(s, i, pat) is None ==> forall|k: int| i <= k ==> !#[trigger] occurs(s, k, pat),
    decreases s.len() + 1 - i,
{
    if i + pat.len() <= s.len() && !occurs(s, i, pat) {
        lemma_find_from(s, i + 1, pat);
    }
}

/// Whether `pat` occurs in `v` at position `i`.
pub fn occurs_at(v: &Vec<char>, i: usize, pat: &[char]) -> (r: bool)
    requires
        i <= v@.len(),
    ensures
        r == occurs(v@, i as int, pat@),
{
    let n = v.len();
    if pat.len() > n - i {
        return false;
    }
    let mut k: usize = 0;
    while k < pat.len()
        invariant
            i <= v@.len(),
            n == v@.len(),
            pat@.len() <= v@.len() - i,
            k <= pat@.len(),
            forall|j: int| 0 <= j < k ==> v@[i + j] == pat@[j],
        decreases pat@.len() - k,
    {
        if v[i + k] != pat[k] {
            assert(v@.subrange(i as int, i + pat@.len())[k as int] != pat@[k as int]);
            return false;
        }
        k = k + 1;
    }
    assert(v@.subrange(i as int, i + pat@.len()) =~= pat@);
    true
}

/// `find_from` on a vector.
pub fn find_literal(v: &Vec<char>, i: usize, pat: &[char]) -> (r: Option<usize>)
    requires
        i <= v@.len(),
    ensures
        r matches Some(j) ==> find_from(v@, i as int, pat@) == Some(j as int),
        r is None ==> find_from(v@, i as int, pat@) is None,
{
    if pat.len() > v.len() {
        return None;
    }
    let last = v.len() - pat.len();
    let mut k = i;
    while k <= last
        invariant
            i <= k,
            last == v@.len() - pat@.len(),
            k <= v@.len() + 1,
            find_from(v@, k as int, pat@) == find_from(v@, i as int, pat@),
        decreases v@.len() + 1 - k,
    {
        if occurs_at(v, k, pat) {
            return Some(k);
        }
        if k == last {
            return None;
        }
        k = k + 1;
    }
    None
}

} // verus!

verus! {

/// Whether `c` equals the lower-case ASCII character `lower`, ignoring ASCII case.
pub open spec fn ci_char(c: char, lower: char) -> bool {
    c == lower || ('a' <= lower && lower <= 'z' && (c as u32) + 32 == lower as u32)
}

pub fn ci_char_exec(c: char, lower: char) -> (r: bool)
    ensures
        r == ci_char(c, lower),
{
    c == lower || ('a' <= lower && lower <= 'z' && (c as u32) + 32 == lower as u32)
}

/// Whether `pat` occurs in `s` at `i` when ASCII case is ignored (`pat` in lower case).
pub open spec fn occurs_ci(s: Seq<char>, i: int, pat: Seq<char>) -> bool {
    &&& 0 <= i
    &&& i + pat.len() <= s.len()
    &&& forall|k: int| 0 <= k < pat.len() ==> ci_char(#[trigger] s[i + k], pat[k])
}

/// The first position at or after `i` where `pat` occurs in `s`, ignoring ASCII case.
pub open spec fn find_ci_from(s: Seq<char>, i: int, pat: Seq<char>) -> Option<int>
    decreases s.len() + 1 - i,
{
    if i < 0 || i + pat.len() > s.len() {
        None
    } else if occurs_ci(s, i, pat) {
        Some(i)
    } else {
        find_ci_from(s, i + 1, pat)
    }
}

/// The last position `j` with `from <= j <= hi` where `pat` occurs in `s`, ignoring ASCII case.
pub open spec fn find_ci_last(s: Seq<char>, from: int, hi: int, pat: Seq<char>) -> Option<int>
    decreases hi - from + 1,
{
    if hi < from {
        None
    } else if occurs_ci(s, hi, pat) {
        Some(hi)
    } else {
        find_ci_last(s, from, hi - 1, pat)
    }
}

pub fn occurs_ci_at(v: &Vec<char>, i: usize, pat: &Vec<char>) -> (r: bool)
    requires
        i <= v@.len(),
    ensures
        r == occurs_ci(v@, i as int, pat@),
{
    let n = v.len();
    if pat.len() > n - i {
        return false;
    }
    let mut k: usize = 0;
    while k < pat.len()
        invariant
            i <= v@.len(),
            n == v@.len(),
            pat@.len() <= v@.len() - i,
            k <= pat@.len(),
            forall|j: int| 0 <= j < k ==> ci_char(#[trigger] v@[i + j], pat@[j]),
        decreases pat@.len() - k,
    {
        if !ci_char_exec(v[i + k], pat[k]) {
            return false;
        }
        k = k + 1;
    }
    true
}

pub fn find_ci(v: &Vec<char>, i: usize, pat: &Vec<char>) -> (r: Option<usize>)
    requires
        i <= v@.len(),
    ensures
        r matches Some(j) ==> find_ci_from(v@, i as int, pat@) == Some(j as int),
        r is None ==> find_ci_from(v@, i as int, pat@) is None,
{
    if pat.len() > v.len() {
        return None;
    }
    let last = v.len() - pat.len();
    let mut k = i;
    while k <= last
        invariant
            i <= k,
            last == v@.len() - pat@.len(),
            k <= v@.len() + 1,
            find_ci_from(v@, k as int, pat@) == find_ci_from(v@, i as int, pat@),
        decreases v@.len() + 1 - k,
    {
        if occurs_ci_at(v, k, pat) {
            return Some(k);
        }
        if k == last {
            return None;
        }
        k = k + 1;
    }
    None
}

/// `find_ci_last(v, from, v.len() - pat.len(), pat)`.
pub fn find_ci_last_exec(v: &Vec<char>, from: usize, pat: &Vec<char>) -> (r: Option<usize>)
    requires
        from <= v@.len(),
    ensures
        r matches Some(j) ==> find_ci_last(v@, from as int, v@.len() - pat@.len(), pat@) == Some(
            j as int,
        ),
        r is None ==> find_ci_last(v@, from as int, v@.len() - pat@.len(), pat@) is None,
{
    if pat.len() > v.len() || v.len() - pat.len() < from {
        return None;
    }
    let mut j = v.len() - pat.len();
    loop
        invariant
            from <= j <= v@.len() - pat@.len(),
            find_ci_last(v@, from as int, j as int, pat@) == find_ci_last(
                v@,
                from as int,
                v@.len() - pat@.len(),
                pat@,
            ),
        decreases j - from,
    {
        if occurs_ci_at(v, j, pat) {
            return Some(j);
        }
        if j == from {
            return None;
        }
        j = j - 1;
    }
}

pub proof fn lemma_find_ci_from(s: Seq<char>, i: int, pat: Seq<char>)
    requires
        0 <= i,
    ensures
        find_ci_from(s, i, pat) matches Some(j) ==> i <= j && occurs_ci(s, j, pat),
    decreases s.len() + 1 - i,
{
    if i + pat.len() <= s.len() && !occurs_ci(s, i, pat) {
        lemma_find_ci_from(s, i + 1, pat);
    }
}

pub proof fn lemma_find_ci_last(s: Seq<char>, from: int, hi: int, pat: Seq<char>)
    ensures
        find_ci_last(s, from, hi, pat) matches Some(j) ==> from <= j <= hi && occurs_ci(s, j, pat),
    decreases hi - from + 1,
{
    if hi >= from && !occurs_ci(s, hi, pat) {
        lemma_find_ci_last(s, from, hi - 1, pat);
    }
}

} // verus!
