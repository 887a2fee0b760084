//! Item ids, slugs and section names.
use vstd::prelude::*;
use vstd::utf8::encode_utf8;
use crate::error::{ErrorKind, TrackError};
use crate::text::{
    Separator, ascii_lower, ascii_lower_char, is_ascii_alnum, is_ascii_alnum_char, join,
    join_strings, lemma_non_empty, non_empty, non_empty_pieces, push_char, push_range, split,
    string_of_all, to_chars,
};

verus! {

broadcast use vstd::string::group_string_axioms;

/// The digit for `d` (below 16), in lower case.
pub open spec fn digit(d: nat) -> char {
    if d < 10 {
        (48 + d) as char
    } else {
        (87 + d) as char
    }
}

/// `n` written in decimal, as `{}` formats an unsigned integer.
pub open spec fn decimal(n: nat) -> Seq<char>
    decreases n,
{
    if n < 10 {
        seq![digit(n)]
    } else {
        decimal(n / 10).push(digit(n % 10))
    }
}

/// `n` written in lower-case hexadecimal, without leading zeros.
pub open spec fn lower_hex(n: nat) -> Seq<char>
    decreases n,
{
    if n < 16 {
        seq![digit(n)]
    } else {
        lower_hex(n / 16).push(digit(n % 16))
    }
}

/// `lower_hex(n)` with zeros in front up to `width` characters, as `{:08x}`
/// formats with a width of 8.
pub open spec fn padded_hex(n: nat, width: nat) -> Seq<char> {
    let h = lower_hex(n);
    if h.len() < width {
        Seq::new((width - h.len()) as nat, |i: int| '0') + h
    } else {
        h
    }
}

fn digit_char(d: u64) -> (c: char)
    requires
        d < 16,
    ensures
        c == digit(d as nat),
{
    if d < 10 {
        ((d as u8) + 48) as char
    } else {
        ((d as u8) + 87) as char
    }
}

/// `n` in decimal.
pub fn decimal_string(n: usize) -> (r: String)
    ensures
        r@ == decimal(n as nat),
{
    let mut acc: Vec<char> = Vec::new();
    let mut m: usize = n;
    loop
        invariant
            decimal(n as nat) == decimal(m as nat) + acc@,
        decreases m,
    {
        if m < 10 {
            acc.insert(0, digit_char(m as u64));
            assert(decimal(n as nat) =~= acc@);
            return string_of_all(&acc);
        }
        let ghost old_acc = acc@;
        acc.insert(0, digit_char((m % 10) as u64));
        assert(decimal(m as nat) + old_acc =~= decimal((m / 10) as nat) + acc@);
        m = m / 10;
    }
}

/// The hexadecimal digits of `n`.
fn hex_digits(n: u64) -> (acc: Vec<char>)
    ensures
        acc@ == lower_hex(n as nat),
{
    let mut acc: Vec<char> = Vec::new();
    let mut m: u64 = n;
    loop
        invariant
            lower_hex(n as nat) == lower_hex(m as nat) + acc@,
        decreases m,
    {
        if m < 16 {
            acc.insert(0, digit_char(m));
            assert(lower_hex(n as nat) =~= acc@);
            return acc;
        }
        let ghost old_acc = acc@;
        acc.insert(0, digit_char(m % 16));
        assert(lower_hex(m as nat) + old_acc =~= lower_hex((m / 16) as nat) + acc@);
        m = m / 16;
    }
}

/// `n` in hexadecimal, padded with zeros to eight digits.
pub fn padded_hex8(n: u64) -> (r: String)
    ensures
        r@ == padded_hex(n as nat, 8),
{
    let acc = hex_digits(n);
    let mut r = String::new();
    let len = acc.len();
    if len < 8 {
        let mut k: usize = 0;
        while k < 8 - len
            invariant
                len == acc.len() < 8,
                k <= 8 - len,
                r@ == Seq::new(k as nat, |i: int| '0'),
            decreases 8 - len - k,
        {
            push_char(&mut r, '0');
            k = k + 1;
            assert(r@ =~= Seq::new(k as nat, |i: int| '0'));
        }
    }
    push_range(&mut r, &acc, 0, len);
    assert(acc@.subrange(0, len as int) =~= acc@);
    r
}

/// The FNV-1a hash (64 bits) of `bytes`.
pub open spec fn fnv1a(bytes: Seq<u8>) -> u64
    decreases bytes.len(),
{
    if bytes.len() == 0 {
        0xcbf29ce484222325u64
    } else {
        vstd::wrapping::u64_specs::wrapping_mul(
            fnv1a(bytes.drop_last()) ^ (bytes.last() as u64),
            0x100000001b3u64,
        )
    }
}

/// The FNV-1a hash of the UTF-8 bytes of `s`.
pub fn fnv1a_str(s: &str) -> (h: u64)
    ensures
        h == fnv1a(encode_utf8(s@)),
{
    let bytes = s.as_bytes();
    let mut hash: u64 = 0xcbf29ce484222325;
    let mut i: usize = 0;
    assert(bytes@.take(0) =~= Seq::<u8>::empty());
    while i < bytes.len()
        invariant
            i <= bytes@.len(),
            bytes@ == encode_utf8(s@),
            hash == fnv1a(bytes@.take(i as int)),
        decreases bytes.len() - i,
    {
        assert(bytes@.take(i + 1).drop_last() =~= bytes@.take(i as int));
        hash = (hash ^ (bytes[i] as u64)).wrapping_mul(0x100000001b3);
        i = i + 1;
    }
    assert(bytes@.take(bytes@.len() as int) =~= bytes@);
    hash
}

/// The characters of a slug, before dashes are trimmed from its ends, and
/// whether the last one written was a dash.
pub open spec fn slug_scan(s: Seq<char>) -> (Seq<char>, bool)
    decreases s.len(),
{
    if s.len() == 0 {
        (Seq::<char>::empty(), false)
    } else {
        let (out, last_dash) = slug_scan(s.drop_last());
        let c = s.last();
        if is_ascii_alnum(c) {
            (out.push(ascii_lower(c)), false)
        } else if !last_dash && out.len() > 0 {
            (out.push('-'), true)
        } else {
            (out, last_dash)
        }
    }
}

/// `s` without the dashes at its start.
pub open spec fn trim_start_dashes(s: Seq<char>) -> Seq<char>
    decreases s.len(),
{
    if s.len() > 0 && s[0] == '-' {
        trim_start_dashes(s.drop_first())
    } else {
        s
    }
}

/// `s` without the dashes at its end.
pub open spec fn trim_end_dashes(s: Seq<char>) -> Seq<char>
    decreases s.len(),
{
    if s.len() > 0 && s.last() == '-' {
        trim_end_dashes(s.drop_last())
    } else {
        s
    }
}

/// The slug of `s`: its ASCII letters and digits in lower case, each run of
/// other characters between them written as one dash.
pub open spec fn slug(s: Seq<char>) -> Seq<char> {
    trim_end_dashes(trim_start_dashes(slug_scan(s).0))
}

/// The bounds of `s[lo..hi]` without the dashes at its start (when
/// `start` holds) and at its end.
fn trim_dash_bounds(s: &Vec<char>, lo: usize, hi: usize, start: bool) -> (r: (usize, usize))
    requires
        lo <= hi <= s.len(),
    ensures
        lo <= r.0 <= r.1 <= hi,
        start ==> s@.subrange(r.0 as int, r.1 as int) == trim_end_dashes(
            trim_start_dashes(s@.subrange(lo as int, hi as int)),
        ),
        !start ==> s@.subrange(r.0 as int, r.1 as int) == trim_end_dashes(
            s@.subrange(lo as int, hi as int),
        ),
{
    let mut a = lo;
    if start {
        while a < hi && s[a] == '-'
            invariant
                lo <= a <= hi <= s.len(),
                trim_start_dashes(s@.subrange(lo as int, hi as int)) == trim_start_dashes(
                    s@.subrange(a as int, hi as int),
                ),
            decreases hi - a,
        {
            assert(s@.subrange(a as int, hi as int).drop_first() =~= s@.subrange(
                a + 1,
                hi as int,
            ));
            a = a + 1;
        }
        assert(trim_start_dashes(s@.subrange(a as int, hi as int)) == s@.subrange(
            a as int,
            hi as int,
        ));
    }
    let mut b = hi;
    while b > a && s[b - 1] == '-'
        invariant
            lo <= a <= b <= hi <= s.len(),
            trim_end_dashes(s@.subrange(a as int, hi as int)) == trim_end_dashes(
                s@.subrange(a as int, b as int),
            ),
        decreases b - a,
    {
        assert(s@.subrange(a as int, b as int).drop_last() =~= s@.subrange(a as int, b - 1));
        b = b - 1;
    }
    (a, b)
}

fn slug_chars(value: &str) -> (r: Vec<char>)
    ensures
        r@ == slug(value@),
{
    let v = to_chars(value);
    let mut out: Vec<char> = Vec::new();
    let mut last_dash = false;
    let mut i: usize = 0;
    assert(v@.take(0) =~= Seq::<char>::empty());
    while i < v.len()
        invariant
            v@ == value@,
            i <= v.len(),
            slug_scan(v@.take(i as int)) == (out@, last_dash),
        decreases v.len() - i,
    {
        let c = v[i];
        assert(v@.take(i + 1).drop_last() =~= v@.take(i as int));
        if is_ascii_alnum_char(c) {
            out.push(ascii_lower_char(c));
            last_dash = false;
        } else if !last_dash && out.len() > 0 {
            out.push('-');
            last_dash = true;
        }
        i = i + 1;
    }
    assert(v@.take(v.len() as int) =~= v@);
    let (a, b) = trim_dash_bounds(&out, 0, out.len(), true);
    assert(out@.subrange(0, out@.len() as int) =~= out@);
    let mut r: Vec<char> = Vec::new();
    let mut k = a;
    while k < b
        invariant
            a <= k <= b <= out.len(),
            r@ == out@.subrange(a as int, k as int),
        decreases b - k,
    {
        r.push(out[k]);
        k = k + 1;
        assert(r@ =~= out@.subrange(a as int, k as int));
    }
    r
}

/// Turns `value` into a slug: ASCII letters and digits in lower case, every
/// other run of characters between two of them written as one dash.
pub fn slugify(value: &str) -> (r: String)
    ensures
        r@ == slug(value@),
        is_slug(r@),
{
    proof {
        lemma_slug_shape(value@);
    }
    let v = slug_chars(value);
    string_of_all(&v)
}

/// The slug part of a generated item id: the label's slug, `item` when the
/// slug is empty, cut to 32 characters with the dashes at the cut removed.
pub open spec fn id_slug(label: Seq<char>) -> Seq<char> {
    let s = slug(label);
    let s1 = if s.len() == 0 {
        seq!['i', 't', 'e', 'm']
    } else {
        s
    };
    if s1.len() > 32 {
        trim_end_dashes(s1.take(32))
    } else {
        s1
    }
}

/// The id generated for a checklist line with the label `label`: its slug, a
/// dash, and the FNV-1a hash of its UTF-8 bytes in hexadecimal.
pub open spec fn generated_id(label: Seq<char>) -> Seq<char> {
    id_slug(label) + seq!['-'] + padded_hex(fnv1a(encode_utf8(label)) as nat, 8)
}

/// The id of a `{{#track}}` checklist line, derived from its label alone.
pub fn item_id(label: &str) -> (r: String)
    ensures
        r@ == generated_id(label@),
        id_check(r@) is Ok,
{
    proof {
        lemma_generated_id_valid(label@);
    }
    let hash = fnv1a_str(label);
    let mut s = slug_chars(label);
    if s.len() == 0 {
        s = vec!['i', 't', 'e', 'm'];
    }
    let mut r = String::new();
    if s.len() > 32 {
        let (a, b) = trim_dash_bounds(&s, 0, 32, false);
        assert(s@.subrange(0, 32) =~= s@.take(32));
        push_range(&mut r, &s, a, b);
    } else {
        push_range(&mut r, &s, 0, s.len());
        assert(s@.subrange(0, s@.len() as int) =~= s@);
    }
    push_char(&mut r, '-');
    let h = padded_hex8(hash);
    r.append(h.as_str());
    r
}

/// A character that an inline item id may hold.
pub open spec fn is_id_char(c: char) -> bool {
    is_ascii_alnum(c) || c == '-' || c == '_' || c == '.'
}

/// Whether `id` is accepted as the id of an inline item, and why not.
pub open spec fn id_check(id: Seq<char>) -> Result<(), ErrorKind> {
    if id.len() == 0 {
        Err(ErrorKind::MissingItemId)
    } else if exists|i: int| 0 <= i < id.len() && !is_id_char(#[trigger] id[i]) {
        Err(ErrorKind::InvalidItemId(id))
    } else {
        Ok(())
    }
}

/// Accepts an id that is not empty and holds only ASCII letters, ASCII
/// digits, `-`, `_` and `.`.
pub fn validate_track_item_id(id: &str) -> (r: Result<(), TrackError>)
    ensures
        r matches Ok(_) ==> id_check(id@) is Ok,
        r matches Err(e) ==> id_check(id@) == Err::<(), ErrorKind>(e@),
{
    let v = to_chars(id);
    if v.len() == 0 {
        return Err(TrackError::MissingItemId);
    }
    let mut i: usize = 0;
    while i < v.len()
        invariant
            v@ == id@,
            i <= v.len(),
            forall|j: int| 0 <= j < i ==> is_id_char(#[trigger] v@[j]),
        decreases v.len() - i,
    {
        let c = v[i];
        if !(is_ascii_alnum_char(c) || c == '-' || c == '_' || c == '.') {
            assert(!is_id_char(id@[i as int]));
            return Err(TrackError::InvalidItemId(id.to_owned()));
        }
        i = i + 1;
    }
    Ok(())
}

/// The Unicode uppercase mapping of a non-ASCII character, one or more
/// characters.
pub uninterp spec fn char_uppercase(c: char) -> Seq<char>;

/// `c` with an ASCII small letter turned into its capital.
pub open spec fn ascii_upper(c: char) -> char {
    if 'a' <= c && c <= 'z' {
        ((c as u32) - 32) as char
    } else {
        c
    }
}

/// The uppercase mapping of `c`: for an ASCII character its ASCII capital
/// (itself when it is no small letter); else the Unicode mapping.
pub open spec fn uppercase(c: char) -> Seq<char> {
    if (c as u32) < 128 {
        seq![ascii_upper(c)]
    } else {
        char_uppercase(c)
    }
}

/// Calls `char::to_uppercase` and collects the characters it yields. The
/// contract states the ASCII case, where std maps `a`..`z` to `A`..`Z` and
/// leaves every other ASCII character as it is; of any other character it
/// names the result `char_uppercase(c)` and claims nothing more.
#[verifier::external_body]
fn uppercase_of(c: char) -> (r: String)
    ensures
        (c as u32) < 128 ==> r@ == seq![ascii_upper(c)],
        (c as u32) >= 128 ==> r@ == char_uppercase(c),
{
    c.to_uppercase().collect()
}

/// A word with its first character given in upper case.
pub open spec fn capitalized_with(upper_first: Seq<char>, word: Seq<char>) -> Seq<char> {
    upper_first + word.drop_first()
}

/// `word` with its first character replaced by `upper_first`.
pub fn capitalize(upper_first: &str, word: &str) -> (r: String)
    requires
        word@.len() > 0,
    ensures
        r@ == capitalized_with(upper_first@, word@),
{
    let v = to_chars(word);
    let mut r = String::from_str(upper_first);
    push_range(&mut r, &v, 1, v.len());
    assert(v@.subrange(1, v@.len() as int) =~= v@.drop_first());
    r
}

/// The words of a directory name: its pieces between `-` and `_`, empty
/// ones left out.
pub open spec fn section_words(value: Seq<char>) -> Seq<Seq<char>> {
    non_empty(split(value, Separator::DashOrUnderscore))
}

/// `w` with its first character in upper case.
pub open spec fn capitalized(w: Seq<char>) -> Seq<char> {
    capitalized_with(uppercase(w[0]), w)
}

/// The words of a section title made from a directory name.
pub open spec fn title_words(value: Seq<char>) -> Seq<Seq<char>> {
    section_words(value).map_values(|w: Seq<char>| capitalized(w))
}

/// A section title from a directory name: its words, each with its first
/// character in upper case, joined by spaces.
pub open spec fn humanized(value: Seq<char>) -> Seq<char> {
    join(title_words(value), seq![' '])
}

/// Turns a directory name such as `c-programming` into a section title such
/// as `C Programming`.
pub fn humanize_section(value: &str) -> (r: String)
    ensures
        r@ == humanized(value@),
{
    let v = to_chars(value);
    let words = non_empty_pieces(&v, 0, v.len(), Separator::DashOrUnderscore);
    assert(v@.subrange(0, v@.len() as int) =~= v@);
    let ghost ws = words.deep_view();
    let ghost target = title_words(v@);
    proof {
        lemma_non_empty(split(v@, Separator::DashOrUnderscore));
    }
    let mut out: Vec<String> = Vec::new();
    let mut i: usize = 0;
    while i < words.len()
        invariant
            ws == words.deep_view(),
            ws == section_words(v@),
            target == title_words(v@),
            i <= words.len(),
            out.deep_view() == target.take(i as int),
            forall|j: int| 0 <= j < ws.len() ==> (#[trigger] ws[j]).len() > 0,
        decreases words.len() - i,
    {
        let w = to_chars(words[i].as_str());
        assert(ws[i as int].len() > 0);
        let up = uppercase_of(w[0]);
        let ghost before = out.deep_view();
        let c = capitalize(up.as_str(), words[i].as_str());
        assert(w@ == ws[i as int]);
        assert(c@ == target[i as int]);
        out.push(c);
        assert(out.deep_view() =~= before.push(target[i as int]));
        assert(target.take(i + 1) =~= target.take(i as int).push(target[i as int]));
        i = i + 1;
    }
    assert(target.take(words.len() as int) =~= target);
    let r = join_strings(&out, " ");
    proof {
        reveal_strlit(" ");
        assert(" "@ =~= seq![' ']);
    }
    r
}

/// The `k`-th alternative to an id that is taken: `base`, a dash and `k`.
pub open spec fn candidate(base: Seq<char>, k: nat) -> Seq<char> {
    base + seq!['-'] + decimal(k)
}

/// `k` is the least suffix from 2 on whose candidate is not in `seen`.
pub open spec fn is_free_suffix(base: Seq<char>, seen: Seq<Seq<char>>, k: nat) -> bool {
    &&& k >= 2
    &&& !seen.contains(candidate(base, k))
    &&& forall|j: nat| 2 <= j < k ==> seen.contains(#[trigger] candidate(base, j))
}

/// `base` when `seen` does not hold it, else its first candidate that
/// `seen` does not hold.
pub open spec fn unique_id(base: Seq<char>, seen: Seq<Seq<char>>) -> Seq<char> {
    if !seen.contains(base) {
        base
    } else {
        candidate(base, choose|k: nat| is_free_suffix(base, seen, k))
    }
}

proof fn lemma_decimal_len(n: nat)
    ensures
        decimal(n).len() >= 1,
        n >= 10 ==> decimal(n).len() >= 2,
    decreases n,
{
    if n >= 10 {
        lemma_decimal_len(n / 10);
    }
}

/// Different numbers are written differently.
pub proof fn lemma_decimal_injective(a: nat, b: nat)
    requires
        decimal(a) == decimal(b),
    ensures
        a == b,
    decreases a,
{
    lemma_decimal_len(a / 10);
    lemma_decimal_len(b / 10);
    if a < 10 && b < 10 {
        assert(digit(a) == decimal(a)[0]);
        assert(digit(a) as u32 == 48 + a);
        assert(digit(b) as u32 == 48 + b);
    } else if a < 10 {
        assert(decimal(b).len() >= 2);
    } else if b < 10 {
        assert(decimal(a).len() >= 2);
    } else {
        assert(decimal(a).last() == digit(a % 10));
        assert(decimal(b).last() == digit(b % 10));
        assert(digit(a % 10) as u32 == 48 + a % 10);
        assert(digit(b % 10) as u32 == 48 + b % 10);
        assert(decimal(a / 10) == decimal(a).drop_last());
        assert(decimal(b / 10) == decimal(b).drop_last());
        lemma_decimal_injective(a / 10, b / 10);
    }
}

/// Different suffixes give different candidates.
pub proof fn lemma_candidate_injective(base: Seq<char>, j: nat, k: nat)
    requires
        candidate(base, j) == candidate(base, k),
    ensures
        j == k,
{
    let n = base.len() + 1;
    assert(decimal(j) =~= candidate(base, j).subrange(n as int, candidate(base, j).len() as int));
    assert(decimal(k) =~= candidate(base, k).subrange(n as int, candidate(base, k).len() as int));
    lemma_decimal_injective(j, k);
}

/// When the candidates 2 to `k` are all in `seen`, `seen` has at least
/// `k - 1` entries.
pub proof fn lemma_candidates_bounded(base: Seq<char>, seen: Seq<Seq<char>>, k: nat)
    requires
        k >= 2,
        forall|j: nat| 2 <= j <= k ==> seen.contains(#[trigger] candidate(base, j)),
    ensures
        k - 1 <= seen.len(),
{
    let tried = Seq::new((k - 1) as nat, |i: int| candidate(base, (i + 2) as nat));
    assert(tried.no_duplicates()) by {
        assert forall|i: int, m: int|
            0 <= i < tried.len() && 0 <= m < tried.len() && i != m implies tried[i] != tried[m] by {
            if tried[i] == tried[m] {
                lemma_candidate_injective(base, (i + 2) as nat, (m + 2) as nat);
            }
        }
    }
    tried.unique_seq_to_set();
    seen.lemma_cardinality_of_set();
    assert(tried.to_set().subset_of(seen.to_set())) by {
        assert forall|x: Seq<char>| tried.to_set().contains(x) implies seen.to_set().contains(x) by {
            let i = choose|i: int| 0 <= i < tried.len() && tried[i] == x;
            assert(seen.contains(candidate(base, (i + 2) as nat)));
        }
    }
    vstd::seq_lib::seq_to_set_is_finite(seen);
    vstd::set_lib::lemma_len_subset(tried.to_set(), seen.to_set());
}

/// Some suffix is free, so `unique_id` names an id outside `seen`.
pub proof fn lemma_unique_id(base: Seq<char>, seen: Seq<Seq<char>>)
    ensures
        !seen.contains(unique_id(base, seen)),
{
    if seen.contains(base) {
        let k = free_suffix_from(base, seen, 2);
        assert(is_free_suffix(base, seen, k));
    }
}

proof fn free_suffix_from(base: Seq<char>, seen: Seq<Seq<char>>, k: nat) -> (r: nat)
    requires
        k >= 2,
        forall|j: nat| 2 <= j < k ==> seen.contains(#[trigger] candidate(base, j)),
    ensures
        is_free_suffix(base, seen, r),
    decreases seen.len() + 2 - k,
{
    if !seen.contains(candidate(base, k)) {
        k
    } else {
        lemma_candidates_bounded(base, seen, k);
        free_suffix_from(base, seen, k + 1)
    }
}

/// Whether `v` holds a string equal to `s`.
pub fn contains_string(v: &Vec<String>, s: &String) -> (r: bool)
    ensures
        r == v.deep_view().contains(s@),
{
    let mut i: usize = 0;
    while i < v.len()
        invariant
            i <= v.len(),
            forall|j: int| 0 <= j < i ==> v.deep_view()[j] != s@,
        decreases v.len() - i,
    {
        if v[i] == *s {
            assert(v.deep_view()[i as int] == s@);
            return true;
        }
        i = i + 1;
    }
    false
}

/// `base` when `seen` does not hold it, else `base-2`, `base-3`, ... up to
/// the first that `seen` does not hold.
pub fn dedupe_id(base: &String, seen: &Vec<String>) -> (r: String)
    requires
        seen.len() + 3 <= usize::MAX,
    ensures
        r@ == unique_id(base@, seen.deep_view()),
{
    let ghost sv = seen.deep_view();
    if !contains_string(seen, base) {
        return base.clone();
    }
    let mut suffix: usize = 2;
    loop
        invariant
            sv == seen.deep_view(),
            sv.contains(base@),
            seen.len() + 3 <= usize::MAX,
            2 <= suffix <= seen.len() + 2,
            forall|j: nat| 2 <= j < suffix ==> sv.contains(#[trigger] candidate(base@, j)),
        decreases seen.len() + 2 - suffix,
    {
        let mut cand = base.clone();
        cand.append("-");
        let digits = decimal_string(suffix);
        cand.append(digits.as_str());
        proof {
            reveal_strlit("-");
            assert(cand@ =~= candidate(base@, suffix as nat));
        }
        if !contains_string(seen, &cand) {
            proof {
                assert(is_free_suffix(base@, sv, suffix as nat));
                let k = choose|k: nat| is_free_suffix(base@, sv, k);
                if k < suffix {
                    assert(sv.contains(candidate(base@, k)));
                } else if k > suffix {
                    assert(sv.contains(candidate(base@, suffix as nat)));
                }
            }
            return cand;
        }
        proof {
            lemma_candidates_bounded(base@, sv, suffix as nat);
        }
        suffix = suffix + 1;
    }
}

// ---------------------------------------------------------------------
// The shape of slugs and generated ids
// ---------------------------------------------------------------------
/// A character that a slug may hold: a small ASCII letter, an ASCII digit
/// or a dash.
pub open spec fn is_slug_char(c: char) -> bool {
    ('a' <= c && c <= 'z') || ('0' <= c && c <= '9') || c == '-'
}

/// Every character of `s` is one a slug may hold.
pub open spec fn all_slug_chars(s: Seq<char>) -> bool {
    forall|i: int| 0 <= i < s.len() ==> is_slug_char(#[trigger] s[i])
}

/// `s` is a slug: only small ASCII letters, ASCII digits and dashes, with
/// no dash at either end.
pub open spec fn is_slug(s: Seq<char>) -> bool {
    &&& all_slug_chars(s)
    &&& s.len() > 0 ==> s[0] != '-' && s.last() != '-'
}

proof fn lemma_slug_scan(s: Seq<char>)
    ensures
        all_slug_chars(slug_scan(s).0),
    decreases s.len(),
{
    if s.len() > 0 {
        lemma_slug_scan(s.drop_last());
        let (out, _) = slug_scan(s.drop_last());
        let c = s.last();
        if is_ascii_alnum(c) {
            if 'A' <= c && c <= 'Z' {
                assert(ascii_lower(c) as u32 == c as u32 + 32);
            }
            assert(is_slug_char(ascii_lower(c)));
            assert forall|i: int| 0 <= i < out.len() + 1 implies is_slug_char(
                #[trigger] out.push(ascii_lower(c))[i],
            ) by {
                if i < out.len() {
                    assert(out.push(ascii_lower(c))[i] == out[i]);
                }
            }
        } else {
            assert forall|i: int| 0 <= i < out.len() + 1 implies is_slug_char(
                #[trigger] out.push('-')[i],
            ) by {
                if i < out.len() {
                    assert(out.push('-')[i] == out[i]);
                }
            }
        }
    }
}

proof fn lemma_trim_start_dashes(s: Seq<char>)
    ensures
        exists|k: int| 0 <= k <= s.len() && trim_start_dashes(s) == s.subrange(k, s.len() as int),
        trim_start_dashes(s).len() > 0 ==> trim_start_dashes(s)[0] != '-',
    decreases s.len(),
{
    if s.len() > 0 && s[0] == '-' {
        lemma_trim_start_dashes(s.drop_first());
        let k = choose|k: int|
            0 <= k <= s.drop_first().len() && trim_start_dashes(s.drop_first())
                == s.drop_first().subrange(k, s.drop_first().len() as int);
        assert(s.drop_first().subrange(k, s.drop_first().len() as int) =~= s.subrange(
            k + 1,
            s.len() as int,
        ));
    } else {
        assert(s.subrange(0, s.len() as int) =~= s);
    }
}

proof fn lemma_trim_end_dashes(s: Seq<char>)
    ensures
        exists|k: int| 0 <= k <= s.len() && trim_end_dashes(s) == s.subrange(0, k),
        trim_end_dashes(s).len() > 0 ==> trim_end_dashes(s).last() != '-',
    decreases s.len(),
{
    if s.len() > 0 && s.last() == '-' {
        lemma_trim_end_dashes(s.drop_last());
        let k = choose|k: int|
            0 <= k <= s.drop_last().len() && trim_end_dashes(s.drop_last())
                == s.drop_last().subrange(0, k);
        assert(s.drop_last().subrange(0, k) =~= s.subrange(0, k));
    } else {
        assert(s.subrange(0, s.len() as int) =~= s);
    }
}

/// The slug of any text is a slug.
pub proof fn lemma_slug_shape(value: Seq<char>)
    ensures
        is_slug(slug(value)),
{
    let raw = slug_scan(value).0;
    lemma_slug_scan(value);
    lemma_trim_start_dashes(raw);
    let t = trim_start_dashes(raw);
    let k = choose|k: int| 0 <= k <= raw.len() && t == raw.subrange(k, raw.len() as int);
    assert(all_slug_chars(t)) by {
        assert forall|i: int| 0 <= i < t.len() implies is_slug_char(#[trigger] t[i]) by {
            assert(t[i] == raw[k + i]);
        }
    }
    lemma_trim_end_dashes(t);
    let u = trim_end_dashes(t);
    let m = choose|m: int| 0 <= m <= t.len() && u == t.subrange(0, m);
    assert forall|i: int| 0 <= i < u.len() implies is_slug_char(#[trigger] u[i]) by {
        assert(u[i] == t[i]);
    }
    if u.len() > 0 {
        assert(u[0] == t[0]);
    }
}

/// Every character of `s` is one an inline item id may hold.
pub open spec fn all_id_chars(s: Seq<char>) -> bool {
    forall|i: int| 0 <= i < s.len() ==> is_id_char(#[trigger] s[i])
}

proof fn lemma_id_check(s: Seq<char>)
    ensures
        id_check(s) is Ok <==> s.len() > 0 && all_id_chars(s),
{
}

proof fn lemma_id_chars_concat(a: Seq<char>, b: Seq<char>)
    requires
        all_id_chars(a),
        all_id_chars(b),
    ensures
        all_id_chars(a + b),
{
    assert forall|i: int| 0 <= i < (a + b).len() implies is_id_char(#[trigger] (a + b)[i]) by {
        if i < a.len() {
            assert((a + b)[i] == a[i]);
        } else {
            assert((a + b)[i] == b[i - a.len()]);
        }
    }
}

proof fn lemma_digit(d: nat)
    requires
        d < 16,
    ensures
        is_id_char(digit(d)),
{
    if d < 10 {
        assert(digit(d) as u32 == 48 + d);
    } else {
        assert(digit(d) as u32 == 87 + d);
    }
}

proof fn lemma_decimal_chars(n: nat)
    ensures
        all_id_chars(decimal(n)),
    decreases n,
{
    if n < 10 {
        lemma_digit(n);
    } else {
        lemma_decimal_chars(n / 10);
        lemma_digit(n % 10);
        lemma_id_chars_concat(decimal(n / 10), seq![digit(n % 10)]);
    }
}

proof fn lemma_hex_chars(n: nat)
    ensures
        all_id_chars(lower_hex(n)),
        lower_hex(n).len() > 0,
    decreases n,
{
    if n < 16 {
        lemma_digit(n);
    } else {
        lemma_hex_chars(n / 16);
        lemma_digit(n % 16);
        lemma_id_chars_concat(lower_hex(n / 16), seq![digit(n % 16)]);
    }
}

/// Every id generated for a checklist line is a valid inline item id: not
/// empty, and made of ASCII letters, digits and dashes.
pub proof fn lemma_generated_id_valid(label: Seq<char>)
    ensures
        id_check(generated_id(label)) is Ok,
{
    lemma_slug_shape(label);
    let s = slug(label);
    let s1 = if s.len() == 0 {
        seq!['i', 't', 'e', 'm']
    } else {
        s
    };
    assert(all_id_chars(s1));
    let s2 = id_slug(label);
    if s1.len() > 32 {
        lemma_trim_end_dashes(s1.take(32));
        let m = choose|m: int|
            0 <= m <= s1.take(32).len() && trim_end_dashes(s1.take(32)) == s1.take(32).subrange(
                0,
                m,
            );
        assert forall|i: int| 0 <= i < s2.len() implies is_id_char(#[trigger] s2[i]) by {
            assert(s2[i] == s1[i]);
        }
    }
    let h = fnv1a(encode_utf8(label)) as nat;
    lemma_hex_chars(h);
    let p = padded_hex(h, 8);
    assert(all_id_chars(p)) by {
        if lower_hex(h).len() < 8 {
            let z = Seq::new((8 - lower_hex(h).len()) as nat, |i: int| '0');
            assert(all_id_chars(z));
            lemma_id_chars_concat(z, lower_hex(h));
        }
    }
    lemma_id_chars_concat(s2, seq!['-']);
    lemma_id_chars_concat(s2 + seq!['-'], p);
    lemma_id_check(generated_id(label));
}

/// An id that `unique_id` picks for a valid base is valid.
pub proof fn lemma_unique_id_valid(base: Seq<char>, seen: Seq<Seq<char>>)
    requires
        id_check(base) is Ok,
    ensures
        id_check(unique_id(base, seen)) is Ok,
{
    lemma_id_check(base);
    if seen.contains(base) {
        let k = choose|k: nat| is_free_suffix(base, seen, k);
        lemma_decimal_chars(k);
        lemma_id_chars_concat(base, seq!['-']);
        lemma_id_chars_concat(base + seq!['-'], decimal(k));
        lemma_id_check(candidate(base, k));
    }
}

} // verus!
