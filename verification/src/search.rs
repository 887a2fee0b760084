//! Finding a pattern in text, and replacing every occurrence of it.
use vstd::prelude::*;
use crate::text::push_range;

verus! {

/// `p` occurs in `s` at position `i`.
pub open spec fn occurs_at(s: Seq<char>, p: Seq<char>, i: int) -> bool {
    0 <= i && i + p.len() <= s.len() && s.subrange(i, i + p.len()) == p
}

/// The first position at or after `from` where `p` occurs in `s`: what
/// `s[from..].find(p)` gives, counted from the start of `s`.
pub open spec fn find(s: Seq<char>, p: Seq<char>, from: int) -> Option<int>
    decreases s.len() + 1 - from,
{
    if from < 0 || from + p.len() > s.len() {
        None
    } else if occurs_at(s, p, from) {
        Some(from)
    } else {
        find(s, p, from + 1)
    }
}

/// What `find` gives: the first occurrence at or after `from`, or none.
pub proof fn lemma_find(s: Seq<char>, p: Seq<char>, from: int)
    requires
        0 <= from,
    ensures
        find(s, p, from) matches Some(i) ==> {
            &&& from <= i
            &&& occurs_at(s, p, i)
            &&& forall|j: int| from <= j < i ==> !occurs_at(s, p, j)
        },
        find(s, p, from) is None ==> forall|j: int| from <= j ==> !occurs_at(s, p, j),
    decreases s.len() + 1 - from,
{
    if from + p.len() > s.len() {
    } else if occurs_at(s, p, from) {
    } else {
        lemma_find(s, p, from + 1);
        assert forall|j: int| from <= j < from + 1 implies !occurs_at(s, p, j) by {}
    }
}

/// A first occurrence at or after `from` is what `find` gives.
pub proof fn lemma_find_unique(s: Seq<char>, p: Seq<char>, from: int, i: int)
    requires
        0 <= from <= i,
        occurs_at(s, p, i),
        forall|j: int| from <= j < i ==> !occurs_at(s, p, j),
    ensures
        find(s, p, from) == Some(i),
    decreases i - from,
{
    if from < i {
        lemma_find_unique(s, p, from + 1, i);
    }
}

/// Whether `p` occurs at `s[i..]`.
fn occurs_at_exec(s: &Vec<char>, p: &Vec<char>, i: usize) -> (r: bool)
    requires
        i + p.len() <= s.len(),
    ensures
        r == occurs_at(s@, p@, i as int),
{
    let mut k: usize = 0;
    while k < p.len()
        invariant
            i + p.len() <= s.len(),
            k <= p.len(),
            forall|m: int| 0 <= m < k ==> s@[i + m] == p@[m],
        decreases p.len() - k,
    {
        if s[i + k] != p[k] {
            assert(s@.subrange(i as int, i + p.len())[k as int] != p@[k as int]);
            return false;
        }
        k = k + 1;
    }
    assert(s@.subrange(i as int, i + p.len()) =~= p@);
    true
}

/// The first position at or after `from` where `p` occurs in `s`.
pub fn find_from(s: &Vec<char>, p: &Vec<char>, from: usize) -> (r: Option<usize>)
    ensures
        r matches Some(i) ==> find(s@, p@, from as int) == Some(i as int),
        r is None ==> find(s@, p@, from as int) is None,
{
    if p.len() > s.len() {
        proof {
            lemma_find(s@, p@, from as int);
            assert forall|j: int| from <= j implies !occurs_at(s@, p@, j) by {}
            if let Some(i) = find(s@, p@, from as int) {
                assert(occurs_at(s@, p@, i));
            }
        }
        return None;
    }
    if p.len() == 0 {
        if from <= s.len() {
            assert(s@.subrange(from as int, from as int) =~= p@);
            return Some(from);
        }
        return None;
    }
    let last = s.len() - p.len();
    let mut i = from;
    while i <= last
        invariant
            last + p.len() == s.len(),
            p.len() >= 1,
            from <= i,
            forall|j: int| from <= j < i ==> !occurs_at(s@, p@, j),
        decreases last + 1 - i,
    {
        if occurs_at_exec(s, p, i) {
            proof {
                lemma_find_unique(s@, p@, from as int, i as int);
            }
            return Some(i);
        }
        i = i + 1;
    }
    proof {
        lemma_find(s@, p@, from as int);
        if let Some(j) = find(s@, p@, from as int) {
            assert(occurs_at(s@, p@, j));
        }
    }
    None
}

/// A search whose match lies where two texts agree finds it in both.
pub proof fn lemma_find_agree(s1: Seq<char>, s2: Seq<char>, p: Seq<char>, from: int, m: int)
    requires
        0 <= from,
        m <= s1.len(),
        m <= s2.len(),
        forall|j: int| 0 <= j < m ==> s1[j] == s2[j],
        find(s1, p, from) matches Some(i) && i + p.len() <= m,
    ensures
        find(s2, p, from) == find(s1, p, from),
{
    lemma_find(s1, p, from);
    let i = find(s1, p, from)->Some_0;
    assert(s2.subrange(i, i + p.len()) =~= s1.subrange(i, i + p.len()));
    assert forall|j: int| from <= j < i implies !occurs_at(s2, p, j) by {
        assert(!occurs_at(s1, p, j));
        if occurs_at(s2, p, j) {
            assert(s2.subrange(j, j + p.len()) =~= s1.subrange(j, j + p.len()));
            assert(occurs_at(s1, p, j));
        }
    }
    lemma_find_unique(s2, p, from, i);
}

/// Searching after a prefix `a` is searching the rest, moved by `a`'s length.
pub proof fn lemma_find_shift(a: Seq<char>, t: Seq<char>, p: Seq<char>, k: int)
    requires
        0 <= k,
    ensures
        find(a + t, p, a.len() + k) == match find(t, p, k) {
            Some(i) => Some(i + a.len()),
            None => None,
        },
    decreases t.len() + 1 - k,
{
    let s = a + t;
    if k + p.len() > t.len() {
    } else {
        assert(s.subrange(a.len() + k, a.len() + k + p.len()) =~= t.subrange(k, k + p.len()));
        if !occurs_at(t, p, k) {
            lemma_find_shift(a, t, p, k + 1);
        }
    }
}

/// Whether `p` occurs anywhere in `s`: `str::contains`.
pub open spec fn contains(s: Seq<char>, p: Seq<char>) -> bool {
    find(s, p, 0) is Some
}

/// `s[from..]` with every occurrence of `p` replaced by `r`, the occurrences
/// taken from left to right without overlap: what `str::replace` gives.
pub open spec fn replace_from(s: Seq<char>, p: Seq<char>, r: Seq<char>, from: int) -> Seq<char>
    decreases s.len() - from,
{
    if p.len() == 0 || from < 0 || from > s.len() {
        s.subrange(from, s.len() as int)
    } else {
        match find(s, p, from) {
            None => s.subrange(from, s.len() as int),
            Some(i) => {
                proof {
                    lemma_find(s, p, from);
                }
                s.subrange(from, i) + r + replace_from(s, p, r, i + p.len())
            },
        }
    }
}

/// `s` with every occurrence of `p` replaced by `r`.
pub open spec fn replace_all(s: Seq<char>, p: Seq<char>, r: Seq<char>) -> Seq<char> {
    replace_from(s, p, r, 0)
}

/// Replaces every occurrence of `pattern` in `s` by `replacement`.
pub fn replace_str(s: &str, pattern: &str, replacement: &str) -> (out: String)
    requires
        pattern@.len() > 0,
    ensures
        out@ == replace_all(s@, pattern@, replacement@),
{
    let v = crate::text::to_chars(s);
    let p = crate::text::to_chars(pattern);
    let mut out = String::new();
    let mut pos: usize = 0;
    loop
        invariant
            v@ == s@,
            p@ == pattern@,
            p.len() > 0,
            pos <= v.len(),
            out@ + replace_from(v@, p@, replacement@, pos as int) == replace_all(
                v@,
                p@,
                replacement@,
            ),
        decreases v.len() - pos,
    {
        match find_from(&v, &p, pos) {
            None => {
                push_range(&mut out, &v, pos, v.len());
                return out;
            },
            Some(i) => {
                proof {
                    lemma_find(v@, p@, pos as int);
                }
                let ghost before = out@;
                push_range(&mut out, &v, pos, i);
                out.append(replacement);
                assert(out@ + replace_from(v@, p@, replacement@, (i + p.len()) as int) =~= before
                    + replace_from(v@, p@, replacement@, pos as int));
                pos = i + p.len();
            },
        }
    }
}

/// Whether `pattern` occurs in `s`.
pub fn contains_str(s: &str, pattern: &str) -> (r: bool)
    ensures
        r == contains(s@, pattern@),
{
    let v = crate::text::to_chars(s);
    let p = crate::text::to_chars(pattern);
    find_from(&v, &p, 0).is_some()
}

} // verus!
