//! Character classes, runs and literal search over sequences of characters.
use vstd::prelude::*;

verus! {

/// The character classes that the block grammar is written in.
#[derive(Clone, Copy)]
pub enum CharClass {
    /// Letters, digits, `.` and `-`: the characters of a block label.
    Name,
    /// Unicode white space.
    Space,
    /// Anything but `:`, `/` and white space: the characters of an upstream address.
    Target,
    /// The ASCII digits.
    Digit,
    /// Anything but `}`: the characters a block body runs over.
    Body,
}

/// Unicode white space, as `char::is_whitespace` defines it.
pub open spec fn is_space(c: char) -> bool {
    let u = c as u32;
    (9 <= u && u <= 13) || u == 32 || u == 0x85 || u == 0xA0 || u == 0x1680 || (0x2000 <= u
        && u <= 0x200A) || u == 0x2028 || u == 0x2029 || u == 0x202F || u == 0x205F || u == 0x3000
}

pub open spec fn is_digit(c: char) -> bool {
    '0' <= c && c <= '9'
}

pub open spec fn is_name_char(c: char) -> bool {
    ('a' <= c && c <= 'z') || ('A' <= c && c <= 'Z') || is_digit(c) || c == '.' || c == '-'
}

pub open spec fn in_class(c: char, k: CharClass) -> bool {
    match k {
        CharClass::Name => is_name_char(c),
        CharClass::Space => is_space(c),
        CharClass::Target => c != ':' && c != '/' && !is_space(c),
        CharClass::Digit => is_digit(c),
        CharClass::Body => c != '}',
    }
}

/// The end of the longest run of characters of class `k` that starts at `i`.
pub open spec fn run_end(s: Seq<char>, i: int, k: CharClass) -> int
    decreases s.len() - i,
{
    if 0 <= i < s.len() && in_class(s[i], k) {
        run_end(s, i + 1, k)
    } else {
        i
    }
}

/// `pat` occurs in `s` at position `k`.
pub open spec fn has_at(s: Seq<char>, k: int, pat: Seq<char>) -> bool {
    0 <= k && k + pat.len() <= s.len() && s.subrange(k, k + pat.len()) == pat
}

/// `pat` occurs in `s` within the positions `lo..hi`.
pub open spec fn occurs_within(s: Seq<char>, lo: int, hi: int, pat: Seq<char>) -> bool {
    exists|k: int| lo <= k && k + pat.len() <= hi && #[trigger] has_at(s, k, pat)
}

/// The first occurrence of `pat` in `s` at or after position `k`.
pub open spec fn find_from(s: Seq<char>, pat: Seq<char>, k: int) -> Option<int>
    decreases s.len() + 1 - k,
{
    if k < 0 || k + pat.len() > s.len() {
        None
    } else if has_at(s, k, pat) {
        Some(k)
    } else {
        find_from(s, pat, k + 1)
    }
}

/// The position of `pat` in `s` where it occurs exactly once.
pub open spec fn sole_at(s: Seq<char>, pat: Seq<char>) -> Option<int> {
    match find_from(s, pat, 0) {
        Some(a) => if find_from(s, pat, a + 1) is None {
            Some(a)
        } else {
            None
        },
        None => None,
    }
}

pub proof fn lemma_run_end(s: Seq<char>, i: int, k: CharClass)
    requires
        0 <= i <= s.len(),
    ensures
        i <= run_end(s, i, k) <= s.len(),
        forall|j: int| i <= j < run_end(s, i, k) ==> in_class(#[trigger] s[j], k),
        run_end(s, i, k) < s.len() ==> !in_class(s[run_end(s, i, k)], k),
    decreases s.len() - i,
{
    if i < s.len() && in_class(s[i], k) {
        lemma_run_end(s, i + 1, k);
    }
}

pub proof fn lemma_find_from(s: Seq<char>, pat: Seq<char>, k: int)
    requires
        0 <= k,
    ensures
        find_from(s, pat, k) matches Some(a) ==> k <= a && has_at(s, a, pat),
        find_from(s, pat, k) matches Some(a) ==> forall|j: int| k <= j < a ==> !has_at(s, j, pat),
        find_from(s, pat, k) is None ==> forall|j: int| k <= j ==> !has_at(s, j, pat),
    decreases s.len() + 1 - k,
{
    if k + pat.len() > s.len() {
    } else if has_at(s, k, pat) {
    } else {
        lemma_find_from(s, pat, k + 1);
    }
}

pub fn class_has(c: char, k: CharClass) -> (r: bool)
    ensures
        r == in_class(c, k),
{
    match k {
        CharClass::Name => ('a' <= c && c <= 'z') || ('A' <= c && c <= 'Z') || ('0' <= c && c
            <= '9') || c == '.' || c == '-',
        CharClass::Space => space_char(c),
        CharClass::Target => c != ':' && c != '/' && !space_char(c),
        CharClass::Digit => '0' <= c && c <= '9',
        CharClass::Body => c != '}',
    }
}

pub fn space_char(c: char) -> (r: bool)
    ensures
        r == is_space(c),
{
    let u = c as u32;
    (9 <= u && u <= 13) || u == 32 || u == 0x85 || u == 0xA0 || u == 0x1680 || (0x2000 <= u
        && u <= 0x200A) || u == 0x2028 || u == 0x2029 || u == 0x202F || u == 0x205F || u == 0x3000
}

/// Skips the run of characters of class `k` that starts at `i`.
pub fn skip_run(s: &Vec<char>, i: usize, k: CharClass) -> (r: usize)
    requires
        i <= s@.len(),
    ensures
        r as int == run_end(s@, i as int, k),
{
    let mut j: usize = i;
    while j < s.len() && class_has(s[j], k)
        invariant
            i <= j <= s@.len(),
            run_end(s@, j as int, k) == run_end(s@, i as int, k),
        decreases s@.len() - j,
    {
        j = j + 1;
    }
    j
}

/// Whether the literal `pat` occurs in `s` at position `k`.
pub fn has_literal(s: &Vec<char>, k: usize, pat: &str) -> (r: bool)
    ensures
        r == has_at(s@, k as int, pat@),
{
    let m = pat.unicode_len();
    if m > s.len() || k > s.len() - m {
        return false;
    }
    let mut t: usize = 0;
    while t < m
        invariant
            m == pat@.len(),
            k + m <= s.len(),
            t <= m,
            s@.subrange(k as int, k + t) =~= pat@.subrange(0, t as int),
        decreases m - t,
    {
        if s[k + t] != pat.get_char(t) {
            assert(s@.subrange(k as int, k + m)[t as int] != pat@[t as int]);
            return false;
        }
        assert(s@.subrange(k as int, k + t + 1) =~= pat@.subrange(0, t + 1));
        t = t + 1;
    }
    assert(pat@.subrange(0, m as int) =~= pat@);
    true
}

/// Whether the literal `pat` occurs in `s` within the positions `lo..hi`.
pub fn literal_within(s: &Vec<char>, lo: usize, hi: usize, pat: &str) -> (r: bool)
    requires
        lo <= hi <= s@.len(),
    ensures
        r == occurs_within(s@, lo as int, hi as int, pat@),
{
    let m = pat.unicode_len();
    if m > hi - lo {
        return false;
    }
    if m == 0 {
        assert(s@.subrange(lo as int, lo as int) =~= pat@);
        assert(has_at(s@, lo as int, pat@));
        return true;
    }
    let mut k: usize = lo;
    while k <= hi - m
        invariant
            m == pat@.len(),
            lo <= k,
            hi <= s@.len(),
            m <= hi - lo,
            m > 0,
            forall|j: int| lo <= j < k ==> !has_at(s@, j, pat@),
        decreases hi - k,
    {
        if has_literal(s, k, pat) {
            return true;
        }
        k = k + 1;
    }
    false
}

/// The first occurrence of `pat` in `s` at or after position `k`.
pub fn find_literal(s: &Vec<char>, pat: &str, k: usize) -> (r: Option<usize>)
    ensures
        r matches Some(a) ==> find_from(s@, pat@, k as int) == Some(a as int),
        r is None ==> find_from(s@, pat@, k as int) is None,
{
    let m = pat.unicode_len();
    if m == 0 {
        if k <= s.len() {
            assert(s@.subrange(k as int, k as int) =~= pat@);
            return Some(k);
        }
        return None;
    }
    let mut j: usize = k;
    while j <= s.len() && m <= s.len() - j
        invariant
            m > 0,
            m == pat@.len(),
            k <= j,
            find_from(s@, pat@, j as int) == find_from(s@, pat@, k as int),
        decreases s@.len() + 1 - j,
    {
        if has_literal(s, j, pat) {
            return Some(j);
        }
        j = j + 1;
    }
    None
}

/// The characters `s[a..b]`.
pub fn slice_chars(s: &Vec<char>, a: usize, b: usize) -> (r: Vec<char>)
    requires
        a <= b <= s@.len(),
    ensures
        r@ == s@.subrange(a as int, b as int),
{
    let mut r: Vec<char> = Vec::new();
    let mut j: usize = a;
    while j < b
        invariant
            a <= j <= b <= s@.len(),
            r@ == s@.subrange(a as int, j as int),
        decreases b - j,
    {
        r.push(s[j]);
        assert(r@ =~= s@.subrange(a as int, j + 1));
        j = j + 1;
    }
    r
}

/// Appends the characters of `v` to `out`.
pub fn push_chars(out: &mut Vec<char>, v: &Vec<char>)
    ensures
        final(out)@ == old(out)@ + v@,
{
    let mut j: usize = 0;
    while j < v.len()
        invariant
            j <= v@.len(),
            out@ == old(out)@ + v@.subrange(0, j as int),
        decreases v@.len() - j,
    {
        out.push(v[j]);
        assert(v@.subrange(0, j + 1) =~= v@.subrange(0, j as int).push(v@[j as int]));
        j = j + 1;
    }
    assert(v@.subrange(0, v@.len() as int) =~= v@);
}

/// Appends the characters of the literal `lit` to `out`.
pub fn push_literal(out: &mut Vec<char>, lit: &str)
    ensures
        final(out)@ == old(out)@ + lit@,
{
    let m = lit.unicode_len();
    let mut j: usize = 0;
    while j < m
        invariant
            m == lit@.len(),
            j <= m,
            out@ == old(out)@ + lit@.subrange(0, j as int),
        decreases m - j,
    {
        out.push(lit.get_char(j));
        assert(lit@.subrange(0, j + 1) =~= lit@.subrange(0, j as int).push(lit@[j as int]));
        j = j + 1;
    }
    assert(lit@.subrange(0, m as int) =~= lit@);
}

/// Relies on `str::chars` collected into a `Vec`: the characters of `s`, in order.
#[verifier::external_body]
pub(crate) fn chars_of(s: &str) -> (r: Vec<char>)
    ensures
        r@ == s@,
{
    s.chars().collect()
}

/// Relies on `String`'s `FromIterator<char>`: the string made of the characters of `v`, in order.
#[verifier::external_body]
pub(crate) fn string_of(v: &Vec<char>) -> (r: String)
    ensures
        r@ == v@,
{
    v.iter().collect()
}

} // verus!
