//! Text helpers over the character sequences that strings denote.

use vstd::prelude::*;

verus! {

/// What a string option denotes.
pub open spec fn text_of(o: Option<String>) -> Option<Seq<char>> {
    match o {
        Some(s) => Some(s@),
        None => None,
    }
}

/// What a list of strings denotes.
pub open spec fn texts_of(v: Seq<String>) -> Seq<Seq<char>> {
    Seq::new(v.len(), |i: int| v[i]@)
}

/// `s` ends with `suffix`.
pub open spec fn ends_with(s: Seq<char>, suffix: Seq<char>) -> bool {
    suffix.len() <= s.len() && s.subrange(s.len() - suffix.len(), s.len() as int) == suffix
}

/// `s` starts with `prefix`.
pub open spec fn starts_with(s: Seq<char>, prefix: Seq<char>) -> bool {
    prefix.len() <= s.len() && s.subrange(0, prefix.len() as int) == prefix
}

/// `s` without the suffix `suffix`; `None` when it does not end with it.
pub open spec fn cut_suffix(s: Seq<char>, suffix: Seq<char>) -> Option<Seq<char>> {
    if ends_with(s, suffix) {
        Some(s.subrange(0, s.len() - suffix.len()))
    } else {
        None
    }
}

/// `s` with one trailing occurrence of `suffix` removed, or `s` itself when it
/// does not end with `suffix`.
pub open spec fn without_suffix(s: Seq<char>, suffix: Seq<char>) -> Seq<char> {
    match cut_suffix(s, suffix) {
        Some(rest) => rest,
        None => s,
    }
}

/// `s` without the prefix `prefix`; `None` when it does not start with it.
pub open spec fn without_prefix(s: Seq<char>, prefix: Seq<char>) -> Option<Seq<char>> {
    if starts_with(s, prefix) {
        Some(s.subrange(prefix.len() as int, s.len() as int))
    } else {
        None
    }
}

/// The index of the first `c` in `s`, or the length of `s` when there is none.
pub open spec fn first_index(s: Seq<char>, c: char) -> int
    decreases s.len(),
{
    if s.len() == 0 || s[0] == c {
        0
    } else {
        1 + first_index(s.drop_first(), c)
    }
}

/// What stands before the first `c` in `s`; all of `s` when `c` does not
/// occur.
pub open spec fn before_first(s: Seq<char>, c: char) -> Seq<char> {
    s.subrange(0, first_index(s, c))
}

/// The index of the last `c` in `s`, or -1 when there is none.
pub open spec fn last_index(s: Seq<char>, c: char) -> int
    decreases s.len(),
{
    if s.len() == 0 {
        -1
    } else if s.last() == c {
        s.len() - 1
    } else {
        last_index(s.drop_last(), c)
    }
}

/// What follows the last `c` in `s`; `None` when `c` does not occur.
pub open spec fn after_last(s: Seq<char>, c: char) -> Option<Seq<char>> {
    if last_index(s, c) < 0 {
        None
    } else {
        Some(s.subrange(last_index(s, c) + 1, s.len() as int))
    }
}

/// A copy of a string option.
pub fn copy_text(o: &Option<String>) -> (r: Option<String>)
    ensures
        text_of(r) == text_of(*o),
{
    match o {
        Some(s) => Some(s.clone()),
        None => None,
    }
}

/// A copy of a list of strings.
pub fn copy_texts(v: &Vec<String>) -> (r: Vec<String>)
    ensures
        texts_of(r@) == texts_of(v@),
{
    let mut r: Vec<String> = Vec::new();
    let mut i: usize = 0;
    while i < v.len()
        invariant
            i <= v@.len(),
            r@.len() == i,
            forall|j: int| 0 <= j < i ==> r@[j]@ == v@[j]@,
        decreases v@.len() - i,
    {
        r.push(v[i].clone());
        i = i + 1;
    }
    r
}

/// The characters of `s`, in order.
pub fn chars_of(s: &str) -> (v: Vec<char>)
    ensures
        v@ == s@,
{
    let mut v: Vec<char> = Vec::new();
    for c in it: s.chars()
        invariant
            v@ == s@.subrange(0, it.index() as int),
            it.seq() == s@,
    {
        v.push(c);
    }
    v
}

/// Whether `s` ends with `suffix`.
pub fn has_suffix(s: &Vec<char>, suffix: &Vec<char>) -> (b: bool)
    ensures
        b == ends_with(s@, suffix@),
{
    let n: usize = s.len();
    let m: usize = suffix.len();
    if m > n {
        return false;
    }
    let mut i: usize = 0;
    while i < m
        invariant
            m <= n,
            n == s@.len(),
            m == suffix@.len(),
            i <= m,
            forall|j: int| 0 <= j < i ==> s@[n - m + j] == suffix@[j],
        decreases m - i,
    {
        if s[n - m + i] != suffix[i] {
            return false;
        }
        i = i + 1;
    }
    assert(s@.subrange(n - m, n as int) =~= suffix@);
    true
}

/// Whether `s` starts with `prefix`.
pub fn has_prefix(s: &Vec<char>, prefix: &Vec<char>) -> (b: bool)
    ensures
        b == starts_with(s@, prefix@),
{
    let n: usize = s.len();
    let m: usize = prefix.len();
    if m > n {
        return false;
    }
    let mut i: usize = 0;
    while i < m
        invariant
            m <= n,
            n == s@.len(),
            m == prefix@.len(),
            i <= m,
            forall|j: int| 0 <= j < i ==> s@[j] == prefix@[j],
        decreases m - i,
    {
        if s[i] != prefix[i] {
            return false;
        }
        i = i + 1;
    }
    assert(s@.subrange(0, m as int) =~= prefix@);
    true
}

/// Whether two strings hold the same characters.
pub fn same_text(a: &str, b: &str) -> (r: bool)
    ensures
        r == (a@ == b@),
{
    let av = chars_of(a);
    let bv = chars_of(b);
    if av.len() != bv.len() {
        return false;
    }
    let mut i: usize = 0;
    while i < av.len()
        invariant
            av@ == a@,
            bv@ == b@,
            av@.len() == bv@.len(),
            i <= av@.len(),
            forall|j: int| 0 <= j < i ==> av@[j] == bv@[j],
        decreases av@.len() - i,
    {
        if av[i] != bv[i] {
            return false;
        }
        i = i + 1;
    }
    assert(av@ =~= bv@);
    true
}

/// `first_index` is within the sequence, nothing before it is `c`, and what
/// stands at it is `c` unless it is the end.
proof fn lemma_first_index(s: Seq<char>, c: char)
    ensures
        0 <= first_index(s, c) <= s.len(),
        forall|j: int| 0 <= j < first_index(s, c) ==> s[j] != c,
        first_index(s, c) < s.len() ==> s[first_index(s, c)] == c,
    decreases s.len(),
{
    if s.len() > 0 && s[0] != c {
        let t = s.drop_first();
        lemma_first_index(t, c);
        assert forall|j: int| 0 <= j < first_index(s, c) implies s[j] != c by {
            if j > 0 {
                assert(s[j] == t[j - 1]);
            }
        }
    }
}

/// An index at which `c` stands, with no `c` before it, is the first index;
/// so is the length when `c` does not occur.
proof fn lemma_first_index_is(s: Seq<char>, c: char, i: int)
    requires
        0 <= i <= s.len(),
        forall|j: int| 0 <= j < i ==> s[j] != c,
        i < s.len() ==> s[i] == c,
    ensures
        first_index(s, c) == i,
{
    lemma_first_index(s, c);
}

/// The text of `s` before its first `c`.
pub fn split_before_first(s: &str, c: char) -> (r: &str)
    ensures
        r@ == before_first(s@, c),
{
    let v = chars_of(s);
    let n: usize = v.len();
    let mut i: usize = 0;
    while i < n && v[i] != c
        invariant
            i <= n,
            n == v@.len(),
            v@ == s@,
            forall|j: int| 0 <= j < i ==> s@[j] != c,
        decreases n - i,
    {
        i = i + 1;
    }
    proof {
        lemma_first_index_is(s@, c, i as int);
    }
    s.substring_char(0, i)
}

/// The text of `s` after its last `c`.
pub fn split_after_last(s: &str, c: char) -> (r: Option<&str>)
    ensures
        match r {
            Some(rest) => after_last(s@, c) == Some(rest@),
            None => after_last(s@, c) is None,
        },
{
    let v = chars_of(s);
    let n: usize = v.len();
    let mut i: usize = n;
    assert(s@.subrange(0, n as int) =~= s@);
    while i > 0
        invariant
            i <= n,
            n == v@.len(),
            v@ == s@,
            last_index(s@, c) == last_index(s@.subrange(0, i as int), c),
        decreases i,
    {
        let ghost upto = s@.subrange(0, i as int);
        assert(upto.drop_last() =~= s@.subrange(0, i - 1));
        if v[i - 1] == c {
            return Some(s.substring_char(i, n));
        }
        i = i - 1;
    }
    None
}

/// The text of `s` after `prefix`, when `s` starts with it.
pub fn strip_prefix<'a>(s: &'a str, prefix: &str) -> (r: Option<&'a str>)
    ensures
        match r {
            Some(rest) => without_prefix(s@, prefix@) == Some(rest@),
            None => without_prefix(s@, prefix@) is None,
        },
{
    let sv = chars_of(s);
    let pv = chars_of(prefix);
    if has_prefix(&sv, &pv) {
        Some(s.substring_char(pv.len(), sv.len()))
    } else {
        None
    }
}

/// The text of `s` before `suffix`, when `s` ends with it.
pub fn try_strip_suffix<'a>(s: &'a str, suffix: &str) -> (r: Option<&'a str>)
    ensures
        match r {
            Some(rest) => cut_suffix(s@, suffix@) == Some(rest@),
            None => cut_suffix(s@, suffix@) is None,
        },
{
    let sv = chars_of(s);
    let xv = chars_of(suffix);
    if has_suffix(&sv, &xv) {
        Some(s.substring_char(0, sv.len() - xv.len()))
    } else {
        None
    }
}

/// Removes `suffix` from the end of `s` when `s` ends with it.
pub fn strip_suffix<'a>(s: &'a str, suffix: &str) -> (r: &'a str)
    ensures
        r@ == without_suffix(s@, suffix@),
{
    match try_strip_suffix(s, suffix) {
        Some(rest) => rest,
        None => s,
    }
}

} // verus!
