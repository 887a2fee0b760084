//! Character classes and the string operations the directives are built from,
//! all over the `Seq<char>` view of strings.
use vstd::prelude::*;

verus! {

broadcast use vstd::string::group_string_axioms;

/// The Unicode `White_Space` property, which `char::is_whitespace` tests.
pub open spec fn is_space(c: char) -> bool {
    ||| ('\u{9}' <= c && c <= '\u{d}')
    ||| c == ' '
    ||| c == '\u{85}'
    ||| c == '\u{a0}'
    ||| c == '\u{1680}'
    ||| ('\u{2000}' <= c && c <= '\u{200a}')
    ||| c == '\u{2028}'
    ||| c == '\u{2029}'
    ||| c == '\u{202f}'
    ||| c == '\u{205f}'
    ||| c == '\u{3000}'
}

pub fn is_space_char(c: char) -> (r: bool)
    ensures
        r == is_space(c),
{
    ('\u{9}' <= c && c <= '\u{d}') || c == ' ' || c == '\u{85}' || c == '\u{a0}' || c == '\u{1680}'
        || ('\u{2000}' <= c && c <= '\u{200a}') || c == '\u{2028}' || c == '\u{2029}' || c
        == '\u{202f}' || c == '\u{205f}' || c == '\u{3000}'
}

/// An ASCII letter or digit.
pub open spec fn is_ascii_alnum(c: char) -> bool {
    ||| ('0' <= c && c <= '9')
    ||| ('a' <= c && c <= 'z')
    ||| ('A' <= c && c <= 'Z')
}

pub fn is_ascii_alnum_char(c: char) -> (r: bool)
    ensures
        r == is_ascii_alnum(c),
{
    ('0' <= c && c <= '9') || ('a' <= c && c <= 'z') || ('A' <= c && c <= 'Z')
}

/// `c` with an ASCII capital letter turned into its small letter.
pub open spec fn ascii_lower(c: char) -> char {
    if 'A' <= c && c <= 'Z' {
        ((c as u32) + 32) as char
    } else {
        c
    }
}

pub fn ascii_lower_char(c: char) -> (r: char)
    ensures
        r == ascii_lower(c),
{
    if 'A' <= c && c <= 'Z' {
        ((c as u8) + 32) as char
    } else {
        c
    }
}

/// Appends one character: `String::push`.
#[verifier::external_body]
pub(crate) fn push_char(s: &mut String, c: char)
    ensures
        final(s)@ == old(s)@.push(c),
{
    s.push(c);
}

/// The characters of `s`, in order.
pub fn to_chars(s: &str) -> (v: Vec<char>)
    ensures
        v@ == s@,
{
    let mut v: Vec<char> = Vec::new();
    for c in it: s.chars()
        invariant
            v@ == it.seq().take(it.index() as int),
            it.seq() == s@,
    {
        v.push(c);
    }
    v
}

/// Appends `s[lo..hi]` to `out`.
pub fn push_range(out: &mut String, s: &Vec<char>, lo: usize, hi: usize)
    requires
        lo <= hi <= s.len(),
    ensures
        final(out)@ == old(out)@ + s@.subrange(lo as int, hi as int),
{
    let mut i = lo;
    while i < hi
        invariant
            lo <= i <= hi <= s.len(),
            out@ == old(out)@ + s@.subrange(lo as int, i as int),
        decreases hi - i,
    {
        push_char(out, s[i]);
        i = i + 1;
        assert(s@.subrange(lo as int, i as int) =~= s@.subrange(lo as int, i - 1).push(s@[i - 1]));
    }
}

/// `s[lo..hi]` as a new string.
pub fn string_of(s: &Vec<char>, lo: usize, hi: usize) -> (r: String)
    requires
        lo <= hi <= s.len(),
    ensures
        r@ == s@.subrange(lo as int, hi as int),
{
    let mut r = String::new();
    push_range(&mut r, s, lo, hi);
    r
}

/// `s` as a string.
pub fn string_of_all(s: &Vec<char>) -> (r: String)
    ensures
        r@ == s@,
{
    let r = string_of(s, 0, s.len());
    assert(s@.subrange(0, s@.len() as int) =~= s@);
    r
}

/// Whether `a` and `b` hold the same characters.
pub fn str_eq(a: &str, b: &str) -> (r: bool)
    ensures
        r == (a@ == b@),
{
    let x = to_chars(a);
    let y = to_chars(b);
    if x.len() != y.len() {
        return false;
    }
    let mut i: usize = 0;
    while i < x.len()
        invariant
            x@ == a@,
            y@ == b@,
            x.len() == y.len(),
            i <= x.len(),
            forall|j: int| 0 <= j < i ==> x@[j] == y@[j],
        decreases x.len() - i,
    {
        if x[i] != y[i] {
            return false;
        }
        i = i + 1;
    }
    assert(x@ =~= y@);
    true
}

/// `s` without the whitespace at its start.
pub open spec fn trim_start(s: Seq<char>) -> Seq<char>
    decreases s.len(),
{
    if s.len() > 0 && is_space(s[0]) {
        trim_start(s.drop_first())
    } else {
        s
    }
}

/// `s` without the whitespace at its end.
pub open spec fn trim_end(s: Seq<char>) -> Seq<char>
    decreases s.len(),
{
    if s.len() > 0 && is_space(s.last()) {
        trim_end(s.drop_last())
    } else {
        s
    }
}

/// `s` without the whitespace at either end, as `str::trim` gives it.
pub open spec fn trim(s: Seq<char>) -> Seq<char> {
    trim_end(trim_start(s))
}

/// The bounds of `trim(s[lo..hi])` within `s`.
pub fn trim_bounds(s: &Vec<char>, lo: usize, hi: usize) -> (r: (usize, usize))
    requires
        lo <= hi <= s.len(),
    ensures
        lo <= r.0 <= r.1 <= hi,
        s@.subrange(r.0 as int, r.1 as int) == trim(s@.subrange(lo as int, hi as int)),
{
    let mut a = lo;
    while a < hi && is_space_char(s[a])
        invariant
            lo <= a <= hi <= s.len(),
            trim_start(s@.subrange(lo as int, hi as int)) == trim_start(
                s@.subrange(a as int, hi as int),
            ),
        decreases hi - a,
    {
        assert(s@.subrange(a as int, hi as int).drop_first() =~= s@.subrange(a + 1, hi as int));
        a = a + 1;
    }
    assert(trim_start(s@.subrange(a as int, hi as int)) == s@.subrange(a as int, hi as int));
    let mut b = hi;
    while b > a && is_space_char(s[b - 1])
        invariant
            lo <= a <= b <= hi <= s.len(),
            trim_end(s@.subrange(a as int, hi as int)) == trim_end(s@.subrange(a as int, b as int)),
        decreases b - a,
    {
        assert(s@.subrange(a as int, b as int).drop_last() =~= s@.subrange(a as int, b - 1));
        b = b - 1;
    }
    (a, b)
}

/// `s` trimmed, as a new string.
pub fn trim_str(s: &str) -> (r: String)
    ensures
        r@ == trim(s@),
{
    let v = to_chars(s);
    let (a, b) = trim_bounds(&v, 0, v.len());
    assert(v@.subrange(0, v@.len() as int) =~= v@);
    string_of(&v, a, b)
}

/// The separators by which text is cut into pieces.
pub enum Separator {
    /// A line feed.
    Newline,
    /// Any whitespace character.
    Space,
    /// A `-` or a `_`.
    DashOrUnderscore,
}

pub open spec fn is_separator(k: Separator, c: char) -> bool {
    match k {
        Separator::Newline => c == '\n',
        Separator::Space => is_space(c),
        Separator::DashOrUnderscore => c == '-' || c == '_',
    }
}

fn is_separator_char(k: &Separator, c: char) -> (r: bool)
    ensures
        r == is_separator(*k, c),
{
    match k {
        Separator::Newline => c == '\n',
        Separator::Space => is_space_char(c),
        Separator::DashOrUnderscore => c == '-' || c == '_',
    }
}

/// The pieces of `s` between separators, empty pieces included: what
/// `str::split` yields for a separator that is one character.
pub open spec fn split(s: Seq<char>, k: Separator) -> Seq<Seq<char>>
    decreases s.len(),
{
    if s.len() == 0 {
        seq![Seq::<char>::empty()]
    } else {
        let p = split(s.drop_last(), k);
        if is_separator(k, s.last()) {
            p.push(Seq::<char>::empty())
        } else {
            p.update(p.len() - 1, p.last().push(s.last()))
        }
    }
}

pub proof fn lemma_split_nonempty(s: Seq<char>, k: Separator)
    ensures
        split(s, k).len() >= 1,
    decreases s.len(),
{
    if s.len() > 0 {
        lemma_split_nonempty(s.drop_last(), k);
    }
}

/// The pieces of `s[lo..hi]` between separators.
pub fn split_chars(s: &Vec<char>, lo: usize, hi: usize, k: Separator) -> (r: Vec<String>)
    requires
        lo <= hi <= s.len(),
    ensures
        r.deep_view() == split(s@.subrange(lo as int, hi as int), k),
{
    let mut done: Vec<String> = Vec::new();
    let mut cur = String::new();
    let mut i = lo;
    assert(s@.subrange(lo as int, lo as int) =~= Seq::<char>::empty());
    assert(done.deep_view().push(cur@) =~= seq![Seq::<char>::empty()]);
    while i < hi
        invariant
            lo <= i <= hi <= s.len(),
            done.deep_view().push(cur@) == split(s@.subrange(lo as int, i as int), k),
        decreases hi - i,
    {
        let c = s[i];
        let ghost prev = s@.subrange(lo as int, i as int);
        let ghost old_done = done.deep_view();
        let ghost old_cur = cur@;
        assert(s@.subrange(lo as int, i + 1).drop_last() =~= prev);
        if is_separator_char(&k, c) {
            done.push(cur);
            cur = String::new();
            assert(done.deep_view() =~= old_done.push(old_cur));
            assert(done.deep_view().push(cur@) =~= split(prev, k).push(Seq::<char>::empty()));
        } else {
            push_char(&mut cur, c);
            proof {
                let p = split(prev, k);
                assert(p == old_done.push(old_cur));
                assert(done.deep_view().push(cur@) =~= p.update(p.len() - 1, p.last().push(c)));
            }
        }
        i = i + 1;
    }
    let ghost before = done.deep_view();
    done.push(cur);
    assert(done.deep_view() =~= before.push(cur@));
    done
}

/// `parts` joined with `sep` between neighbours, as `join` on a slice of
/// strings gives it.
pub open spec fn join(parts: Seq<Seq<char>>, sep: Seq<char>) -> Seq<char>
    decreases parts.len(),
{
    if parts.len() == 0 {
        Seq::<char>::empty()
    } else if parts.len() == 1 {
        parts[0]
    } else {
        join(parts.drop_last(), sep) + sep + parts.last()
    }
}

/// The strings of `parts` joined with `sep`.
pub fn join_strings(parts: &Vec<String>, sep: &str) -> (r: String)
    ensures
        r@ == join(parts.deep_view(), sep@),
{
    let mut r = String::new();
    let mut i: usize = 0;
    assert(parts.deep_view().take(0) =~= Seq::<Seq<char>>::empty());
    while i < parts.len()
        invariant
            i <= parts.len(),
            r@ == join(parts.deep_view().take(i as int), sep@),
        decreases parts.len() - i,
    {
        proof {
            let t = parts.deep_view().take(i + 1);
            assert(t.drop_last() =~= parts.deep_view().take(i as int));
            assert(t.last() == parts@[i as int]@);
        }
        if i > 0 {
            r.append(sep);
        }
        r.append(parts[i].as_str());
        i = i + 1;
    }
    assert(parts.deep_view().take(parts.len() as int) =~= parts.deep_view());
    r
}

/// The pieces of `s` that are not empty.
pub open spec fn non_empty(parts: Seq<Seq<char>>) -> Seq<Seq<char>> {
    parts.filter(|p: Seq<char>| p.len() > 0)
}

/// Every piece that `non_empty` keeps is non-empty.
pub proof fn lemma_non_empty(parts: Seq<Seq<char>>)
    ensures
        forall|i: int| 0 <= i < non_empty(parts).len() ==> (#[trigger] non_empty(parts)[i]).len() > 0,
{
    assert forall|i: int| 0 <= i < non_empty(parts).len() implies (#[trigger] non_empty(
        parts,
    )[i]).len() > 0 by {
        parts.lemma_filter_pred(|p: Seq<char>| p.len() > 0, i);
    }
}

/// The words of `s`: its pieces between whitespace, empty ones left out, as
/// `str::split_whitespace` yields them.
pub open spec fn words(s: Seq<char>) -> Seq<Seq<char>> {
    non_empty(split(s, Separator::Space))
}

/// The non-empty pieces of `s[lo..hi]` as strings.
pub fn non_empty_pieces(s: &Vec<char>, lo: usize, hi: usize, k: Separator) -> (r: Vec<String>)
    requires
        lo <= hi <= s.len(),
    ensures
        r.deep_view() == non_empty(split(s@.subrange(lo as int, hi as int), k)),
{
    let parts = split_chars(s, lo, hi, k);
    let ghost all = parts.deep_view();
    let mut r: Vec<String> = Vec::new();
    let mut i: usize = 0;
    assert(all.take(0) =~= Seq::<Seq<char>>::empty());
    while i < parts.len()
        invariant
            i <= parts.len(),
            all == parts.deep_view(),
            r.deep_view() == non_empty(all.take(i as int)),
        decreases parts.len() - i,
    {
        proof {
            reveal_with_fuel(Seq::filter, 1);
            assert(all.take(i + 1).drop_last() =~= all.take(i as int));
        }
        let ghost before = r.deep_view();
        if !parts[i].as_str().is_empty() {
            r.push(parts[i].clone());
            assert(r.deep_view() =~= before.push(all[i as int]));
        }
        i = i + 1;
    }
    assert(all.take(parts.len() as int) =~= all);
    r
}

/// The words of `value` joined by single spaces: the label of an inline item.
pub open spec fn normalised(value: Seq<char>) -> Seq<char> {
    join(words(value), seq![' '])
}

/// `s` has no whitespace at either end, no whitespace but single spaces.
pub open spec fn is_normalised(s: Seq<char>) -> bool {
    &&& forall|i: int| 0 <= i < s.len() && is_space(#[trigger] s[i]) ==> s[i] == ' '
    &&& s.len() > 0 ==> !is_space(s[0]) && !is_space(s.last())
    &&& forall|i: int| 0 <= i < s.len() - 1 ==> !(#[trigger] is_space(s[i]) && is_space(s[i + 1]))
}

/// `s` holds no whitespace.
pub open spec fn no_space(s: Seq<char>) -> bool {
    forall|i: int| 0 <= i < s.len() ==> !is_space(#[trigger] s[i])
}

proof fn lemma_split_no_space(s: Seq<char>)
    ensures
        forall|i: int| 0 <= i < split(s, Separator::Space).len() ==> no_space(
            #[trigger] split(s, Separator::Space)[i],
        ),
    decreases s.len(),
{
    if s.len() > 0 {
        lemma_split_no_space(s.drop_last());
        lemma_split_nonempty(s.drop_last(), Separator::Space);
        let p = split(s.drop_last(), Separator::Space);
        let c = s.last();
        if !is_space(c) {
            let w = p.last().push(c);
            assert(no_space(p.last()));
            assert(no_space(w)) by {
                assert forall|j: int| 0 <= j < w.len() implies !is_space(#[trigger] w[j]) by {
                    if j < p.last().len() {
                        assert(w[j] == p.last()[j]);
                    }
                }
            }
            let q = p.update(p.len() - 1, w);
            assert forall|i: int| 0 <= i < q.len() implies no_space(#[trigger] q[i]) by {
                if i < p.len() - 1 {
                    assert(q[i] == p[i]);
                }
            }
        } else {
            let q = p.push(Seq::<char>::empty());
            assert forall|i: int| 0 <= i < q.len() implies no_space(#[trigger] q[i]) by {
                if i < p.len() {
                    assert(q[i] == p[i]);
                }
            }
        }
    }
}

proof fn lemma_non_empty_no_space(parts: Seq<Seq<char>>)
    requires
        forall|i: int| 0 <= i < parts.len() ==> no_space(#[trigger] parts[i]),
    ensures
        forall|i: int| 0 <= i < non_empty(parts).len() ==> no_space(#[trigger] non_empty(parts)[i]),
    decreases parts.len(),
{
    reveal_with_fuel(Seq::filter, 1);
    if parts.len() > 0 {
        lemma_non_empty_no_space(parts.drop_last());
        let sub = non_empty(parts.drop_last());
        assert(non_empty(parts) == if parts.last().len() > 0 {
            sub.push(parts.last())
        } else {
            sub
        });
        assert forall|i: int| 0 <= i < non_empty(parts).len() implies no_space(
            #[trigger] non_empty(parts)[i],
        ) by {
            if i < sub.len() {
                assert(non_empty(parts)[i] == sub[i]);
            }
        }
    }
}

proof fn lemma_join_normalised(ws: Seq<Seq<char>>)
    requires
        forall|i: int| 0 <= i < ws.len() ==> no_space(#[trigger] ws[i]) && ws[i].len() > 0,
    ensures
        is_normalised(join(ws, seq![' '])),
        ws.len() > 0 ==> join(ws, seq![' ']).len() > 0,
    decreases ws.len(),
{
    if ws.len() == 1 {
        assert(no_space(ws[0]));
    } else if ws.len() > 1 {
        let a = join(ws.drop_last(), seq![' ']);
        lemma_join_normalised(ws.drop_last());
        let w = ws.last();
        assert(no_space(w) && w.len() > 0);
        let j = a + seq![' '] + w;
        assert forall|i: int| 0 <= i < j.len() && is_space(#[trigger] j[i]) implies j[i] == ' ' by {
            if i < a.len() {
                assert(j[i] == a[i]);
            } else if i > a.len() {
                assert(j[i] == w[i - a.len() - 1]);
            }
        }
        assert(j[0] == a[0]);
        assert(j.last() == w.last());
        assert forall|i: int| 0 <= i < j.len() - 1 implies !(#[trigger] is_space(j[i]) && is_space(
            j[i + 1],
        )) by {
            if i < a.len() - 1 {
                assert(j[i] == a[i] && j[i + 1] == a[i + 1]);
            } else if i == a.len() - 1 {
                assert(j[i] == a.last());
            } else if i == a.len() {
                assert(j[i + 1] == w[0]);
            } else {
                assert(j[i] == w[i - a.len() - 1]);
            }
        }
    }
}

/// The label of any text is normalised.
pub proof fn lemma_normalised(value: Seq<char>)
    ensures
        is_normalised(normalised(value)),
{
    lemma_split_no_space(value);
    lemma_non_empty_no_space(split(value, Separator::Space));
    lemma_non_empty(split(value, Separator::Space));
    lemma_join_normalised(words(value));
}

/// Collapses every run of whitespace in `value` to one space and drops the
/// whitespace at either end.
pub fn normalise_label(value: &str) -> (r: String)
    ensures
        r@ == normalised(value@),
        is_normalised(r@),
{
    proof {
        lemma_normalised(value@);
    }
    let v = to_chars(value);
    let ws = non_empty_pieces(&v, 0, v.len(), Separator::Space);
    assert(v@.subrange(0, v@.len() as int) =~= v@);
    let r = join_strings(&ws, " ");
    proof {
        reveal_strlit(" ");
        assert(" "@ =~= seq![' ']);
    }
    r
}

} // verus!
